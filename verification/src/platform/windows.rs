//! Windows conventions: the shell used for commands, how a command line is
//! split into arguments, which files are never read, and how language-server
//! launchers are named.
use vstd::prelude::*;
use crate::util::strings::{
    chars_of, contains, decimal, decimal_string, push_char, push_str, str_contains, str_eq, views,
};

verus! {

// ---------------------------------------------------------------------------
// Command-line tokenizing
// ---------------------------------------------------------------------------

/// Tokenizer state: finished tokens, the token being read, and whether a
/// double quote is open.
pub type TokState = (Seq<Seq<char>>, Seq<char>, bool);

/// One character of input: `"` toggles quoting (and is dropped), a space
/// outside quotes ends a non-empty token, anything else extends the token.
pub open spec fn tokenize_step(st: TokState, ch: char) -> TokState {
    if ch == '"' {
        (st.0, st.1, !st.2)
    } else if ch == ' ' && !st.2 {
        if st.1.len() > 0 {
            (st.0.push(st.1), Seq::<char>::empty(), st.2)
        } else {
            st
        }
    } else {
        (st.0, st.1.push(ch), st.2)
    }
}

/// The state after reading all of `s`.
pub open spec fn tokenize_state(s: Seq<char>) -> TokState
    decreases s.len(),
{
    if s.len() == 0 {
        (Seq::<Seq<char>>::empty(), Seq::<char>::empty(), false)
    } else {
        tokenize_step(tokenize_state(s.drop_last()), s.last())
    }
}

/// The arguments of a command line, or `None` when a quote is left open.
pub open spec fn shell_tokens(s: Seq<char>) -> Option<Seq<Seq<char>>> {
    let st = tokenize_state(s);
    if st.2 {
        None
    } else if st.1.len() > 0 {
        Some(st.0.push(st.1))
    } else {
        Some(st.0)
    }
}

/// The message of a refused command line.
pub open spec fn unclosed_quote_message() -> Seq<char> {
    "unclosed quote"@
}

/// Split a command line into arguments at spaces, where double quotes group
/// text (spaces included) into one argument and are themselves dropped.
/// Fails with `"unclosed quote"` when a quote is never closed.
pub fn shell_tokenize(cmd: &str) -> (r: Result<Vec<String>, String>)
    ensures
        match r {
            Ok(v) => shell_tokens(cmd@) == Some(views(v@)),
            Err(e) => shell_tokens(cmd@) is None && e@ == unclosed_quote_message(),
        },
{
    let chars = chars_of(cmd);
    let mut tokens: Vec<String> = Vec::new();
    let mut current = String::new();
    let mut in_quotes = false;
    let mut i: usize = 0;
    while i < chars.len()
        invariant
            i <= chars.len(),
            chars@ == cmd@,
            (views(tokens@), current@, in_quotes) == tokenize_state(chars@.take(i as int)),
        decreases chars.len() - i,
    {
        let ch = chars[i];
        proof {
            assert(chars@.take(i + 1).drop_last() =~= chars@.take(i as int));
        }
        if ch == '"' {
            in_quotes = !in_quotes;
        } else if ch == ' ' && !in_quotes {
            if !current.as_str().is_empty() {
                let ghost before = views(tokens@);
                tokens.push(current);
                current = String::new();
                proof {
                    assert(views(tokens@) =~= before.push(tokenize_state(chars@.take(i as int)).1));
                }
            }
        } else {
            push_char(&mut current, ch);
        }
        i += 1;
    }
    proof {
        assert(chars@.take(chars.len() as int) =~= cmd@);
    }
    if !current.as_str().is_empty() {
        let ghost before = views(tokens@);
        let ghost cur = current@;
        tokens.push(current);
        proof {
            assert(views(tokens@) =~= before.push(cur));
        }
    }
    if in_quotes {
        let mut msg = String::new();
        push_str(&mut msg, "unclosed quote");
        return Err(msg);
    }
    Ok(tokens)
}

/// Every argument is non-empty and holds no double quote.
pub open spec fn tokens_well_formed(t: Seq<Seq<char>>) -> bool {
    forall|k: int|
        0 <= k < t.len() ==> #[trigger] t[k].len() > 0 && !t[k].contains('"')
}

proof fn lemma_tokenize_state(s: Seq<char>)
    ensures
        tokens_well_formed(tokenize_state(s).0),
        !tokenize_state(s).1.contains('"'),
        !s.contains('"') ==> !tokenize_state(s).2,
    decreases s.len(),
{
    if s.len() > 0 {
        let p = s.drop_last();
        lemma_tokenize_state(p);
        let st = tokenize_state(p);
        let c = s.last();
        if !s.contains('"') {
            assert forall|j: int| 0 <= j < p.len() implies p[j] != '"' by {
                assert(s[j] == p[j]);
            }
            assert(c == s[s.len() - 1]);
        }
        if c != '"' && !(c == ' ' && !st.2) {
            assert forall|j: int| 0 <= j < st.1.push(c).len() implies st.1.push(c)[j] != '"' by {
                if j < st.1.len() {
                    assert(st.1.push(c)[j] == st.1[j]);
                }
            }
        }
    }
}

/// Whatever a command line holds, a successful split gives non-empty
/// arguments free of double quotes.
pub proof fn law_tokens_well_formed(s: Seq<char>)
    ensures
        shell_tokens(s) matches Some(t) ==> tokens_well_formed(t),
{
    lemma_tokenize_state(s);
}

/// A command line without double quotes is always split successfully.
pub proof fn law_quote_free_line_splits(s: Seq<char>)
    requires
        !s.contains('"'),
    ensures
        shell_tokens(s) is Some,
{
    lemma_tokenize_state(s);
}

/// The number of double quotes in `s`.
pub open spec fn quote_count(s: Seq<char>) -> nat
    decreases s.len(),
{
    if s.len() == 0 {
        0
    } else {
        quote_count(s.drop_last()) + if s.last() == '"' {
            1nat
        } else {
            0nat
        }
    }
}

proof fn lemma_quote_parity(s: Seq<char>)
    ensures
        tokenize_state(s).2 == (quote_count(s) % 2 == 1),
    decreases s.len(),
{
    if s.len() > 0 {
        lemma_quote_parity(s.drop_last());
    }
}

/// A command line fails to split exactly when it holds an odd number of
/// double quotes (one is left open).
pub proof fn law_unclosed_quote_iff_odd_quotes(s: Seq<char>)
    ensures
        (shell_tokens(s) is None) == (quote_count(s) % 2 == 1),
{
    lemma_quote_parity(s);
}

// ---------------------------------------------------------------------------
// Shell and launcher names
// ---------------------------------------------------------------------------

/// The program and arguments that run `cmd` through the shell:
/// `cmd.exe /C <cmd>`.
pub fn shell_command(cmd: &str) -> (r: (&'static str, Vec<String>))
    ensures
        r.0@ == "cmd.exe"@,
        views(r.1@) == seq!["/C"@, cmd@],
{
    let mut args: Vec<String> = Vec::new();
    args.push("/C".to_owned());
    args.push(cmd.to_owned());
    proof {
        assert(views(args@) =~= seq!["/C"@, cmd@]);
    }
    ("cmd.exe", args)
}

/// Language servers that npm installs as `.cmd` launchers on Windows.
pub open spec fn is_cmd_launcher(base: Seq<char>) -> bool {
    base == "typescript-language-server"@ || base == "vscode-json-language-server"@ || base
        == "yaml-language-server"@ || base == "bash-language-server"@ || base
        == "pyright-langserver"@
}

/// The executable name of a language server: `<base>.cmd` for the npm
/// launchers, `<base>.exe` for everything else.
pub fn lsp_binary_name(base: &str) -> (r: String)
    ensures
        r@ == base@ + (if is_cmd_launcher(base@) {
            ".cmd"@
        } else {
            ".exe"@
        }),
{
    let launcher = str_eq(base, "typescript-language-server") || str_eq(
        base,
        "vscode-json-language-server",
    ) || str_eq(base, "yaml-language-server") || str_eq(base, "bash-language-server")
        || str_eq(base, "pyright-langserver");
    let mut out = String::new();
    push_str(&mut out, base);
    if launcher {
        push_str(&mut out, ".cmd");
    } else {
        push_str(&mut out, ".exe");
    }
    out
}

// ---------------------------------------------------------------------------
// Process listing
// ---------------------------------------------------------------------------

/// Does the output of a process listing filtered by `pid` mention that
/// process? (The listing names the pid in decimal when the process runs.)
pub fn listing_mentions_pid(listing: &str, pid: u32) -> (r: bool)
    ensures
        r == contains(listing@, decimal(pid as nat)),
{
    let d = decimal_string(pid as u64);
    str_contains(listing, d.as_str())
}

// ---------------------------------------------------------------------------
// Files that are never read
// ---------------------------------------------------------------------------

/// The credential locations a read is refused under.
pub open spec fn denied_prefixes() -> Seq<Seq<char>> {
    seq![
        "~/.ssh"@,
        "~/.aws"@,
        "~/.gnupg"@,
        "~/.config/gh"@,
        "~/.netrc"@,
        "~/.npmrc"@,
        "~/.pypirc"@,
        "~/.docker/config.json"@,
        "~/.kube/config"@,
        "~/.git-credentials"@,
    ]
}

/// Path prefixes (with `~` for the home directory) that file reads refuse.
pub fn denied_read_prefixes() -> (r: &'static [&'static str])
    ensures
        r@.len() == denied_prefixes().len(),
        forall|i: int| 0 <= i < r@.len() ==> #[trigger] r@[i]@ == denied_prefixes()[i],
{
    let r: &'static [&'static str] = &[
        "~/.ssh",
        "~/.aws",
        "~/.gnupg",
        "~/.config/gh",
        "~/.netrc",
        "~/.npmrc",
        "~/.pypirc",
        "~/.docker/config.json",
        "~/.kube/config",
        "~/.git-credentials",
    ];
    r
}

} // verus!
