//! Embedding configuration: how large a chunk of source each embedding
//! model can take, and which backend a model specification selects.
use vstd::prelude::*;
use crate::util::strings::{
    contains, has_prefix, str_contains, str_eq, str_starts_with, strip_prefix_str,
};

verus! {

// ---------------------------------------------------------------------------
// Chunk size per model
// ---------------------------------------------------------------------------

/// Unicode lowercasing of a string, as `str::to_lowercase` performs it.
pub uninterp spec fn lowercase(s: Seq<char>) -> Seq<char>;

/// `str::to_lowercase`. Claimed: the result is `lowercase` of the argument,
/// a function of the argument alone (the Unicode lowercase mapping, which
/// depends on no locale). Nothing more of the mapping is stated.
#[verifier::external_body]
fn to_lowercase(s: &str) -> (r: String)
    ensures
        r@ == lowercase(s@),
{
    s.to_lowercase()
}

/// The published maximum sequence length, in tokens, of a model known by
/// its lowercased bare name; 512 for models not recognised.
pub open spec fn bare_tokens(l: Seq<char>) -> nat {
    if contains(l, "nomic-embed"@) || contains(l, "jina"@) || contains(l, "bge-m3"@) {
        8192
    } else if has_prefix(l, "text-embedding-"@) {
        8191
    } else if contains(l, "mxbai"@) {
        512
    } else if contains(l, "bge-small"@) || has_prefix(l, "bge_small"@) {
        512
    } else if contains(l, "all-minilm"@) || contains(l, "minilm-l6"@) {
        256
    } else {
        512
    }
}

/// The sequence length of a bundled local model, by its lowercased id;
/// 512 for ids not recognised.
pub open spec fn local_tokens(l: Seq<char>) -> nat {
    if l == "nomicembedtextv15"@ || l == "nomicembedtextv15q"@ || l == "jinaembeddingsv2basecode"@ {
        8192
    } else if l == "bgesmallenv15q"@ || l == "bgesmallenv15"@ {
        512
    } else if l == "allminilml6v2q"@ || l == "allminilml6v2"@ {
        256
    } else {
        512
    }
}

/// Characters per chunk for a context of `n` tokens: 85 % of the context
/// at 3 characters per token, rounded down.
pub open spec fn chars_for_tokens(n: nat) -> nat {
    n * 255 / 100
}

/// The part of `s` before its first `c` (all of `s` when there is none).
pub open spec fn before_char(s: Seq<char>, c: char) -> Seq<char>
    decreases s.len(),
{
    if s.len() == 0 {
        s
    } else if s[0] == c {
        Seq::<char>::empty()
    } else {
        seq![s[0]] + before_char(s.skip(1), c)
    }
}

/// The model name with its backend prefix removed; for `custom:` specs,
/// the part before `@url`.
pub open spec fn bare_model_name(spec: Seq<char>) -> Seq<char> {
    if has_prefix(spec, "ollama:"@) {
        spec.skip("ollama:"@.len() as int)
    } else if has_prefix(spec, "openai:"@) {
        spec.skip("openai:"@.len() as int)
    } else if has_prefix(spec, "custom:"@) {
        before_char(spec.skip("custom:"@.len() as int), '@')
    } else {
        spec
    }
}

/// The chunk size, in characters, for a model specification.
pub open spec fn chunk_size(spec: Seq<char>) -> nat {
    if has_prefix(spec, "local:"@) {
        chars_for_tokens(local_tokens(lowercase(spec.skip("local:"@.len() as int))))
    } else {
        chars_for_tokens(bare_tokens(lowercase(bare_model_name(spec))))
    }
}

/// The sequence length of a model by its lowercased bare name (see
/// [`bare_tokens`]).
pub fn bare_model_tokens(lowered: &str) -> (r: usize)
    ensures
        r == bare_tokens(lowered@),
{
    if str_contains(lowered, "nomic-embed") || str_contains(lowered, "jina") || str_contains(
        lowered,
        "bge-m3",
    ) {
        return 8192;
    }
    if str_starts_with(lowered, "text-embedding-") {
        return 8191;
    }
    if str_contains(lowered, "mxbai") {
        return 512;
    }
    if str_contains(lowered, "bge-small") || str_starts_with(lowered, "bge_small") {
        return 512;
    }
    if str_contains(lowered, "all-minilm") || str_contains(lowered, "minilm-l6") {
        return 256;
    }
    512
}

/// The sequence length of a bundled local model by its lowercased id (see
/// [`local_tokens`]).
pub fn local_model_tokens(lowered: &str) -> (r: usize)
    ensures
        r == local_tokens(lowered@),
{
    if str_eq(lowered, "nomicembedtextv15") || str_eq(lowered, "nomicembedtextv15q") || str_eq(
        lowered,
        "jinaembeddingsv2basecode",
    ) {
        8192
    } else if str_eq(lowered, "bgesmallenv15q") || str_eq(lowered, "bgesmallenv15") {
        512
    } else if str_eq(lowered, "allminilml6v2q") || str_eq(lowered, "allminilml6v2") {
        256
    } else {
        512
    }
}

fn from_tokens(n: usize) -> (r: usize)
    requires
        n <= 8192,
    ensures
        r == chars_for_tokens(n as nat),
{
    n * 255 / 100
}

/// The part of `s` before its first `c`.
fn before_first(s: &str, c: char) -> (r: String)
    ensures
        r@ == before_char(s@, c),
{
    let v = crate::util::strings::chars_of(s);
    let mut i: usize = 0;
    while i < v.len() && v[i] != c
        invariant
            i <= v.len(),
            v@ == s@,
            forall|j: int| 0 <= j < i ==> v@[j] != c,
        decreases v.len() - i,
    {
        i += 1;
    }
    proof {
        lemma_before_char(s@, c, i as int);
    }
    crate::util::strings::string_of(&v, 0, i)
}

proof fn lemma_before_char(s: Seq<char>, c: char, i: int)
    requires
        0 <= i <= s.len(),
        forall|j: int| 0 <= j < i ==> s[j] != c,
        i == s.len() || s[i] == c,
    ensures
        before_char(s, c) == s.take(i),
    decreases s.len(),
{
    if s.len() == 0 {
        assert(s.take(i) =~= s);
    } else if i == 0 {
        assert(s.take(0) =~= Seq::<char>::empty());
    } else {
        let t = s.skip(1);
        assert forall|j: int| 0 <= j < i - 1 implies t[j] != c by {
            assert(t[j] == s[j + 1]);
        }
        if i < s.len() {
            assert(t[i - 1] == s[i]);
        }
        lemma_before_char(t, c, i - 1);
        assert(seq![s[0]] + t.take(i - 1) =~= s.take(i));
    }
}

/// The chunk size, in characters, appropriate for a model specification:
/// 85 % of the model's documented context at 3 characters per token.
/// `local:` ids and bare names (after an `ollama:`, `openai:` or
/// `custom:...@url` prefix) are matched case-insensitively; unknown models
/// get the conservative 512-token size.
pub fn chunk_size_for_model(model_spec: &str) -> (r: usize)
    ensures
        r == chunk_size(model_spec@),
{
    if let Some(local_name) = strip_prefix_str(model_spec, "local:") {
        let lowered = to_lowercase(local_name.as_str());
        let n = local_model_tokens(lowered.as_str());
        return from_tokens(n);
    }
    let bare = if let Some(rest) = strip_prefix_str(model_spec, "ollama:") {
        rest
    } else if let Some(rest) = strip_prefix_str(model_spec, "openai:") {
        rest
    } else if let Some(rest) = strip_prefix_str(model_spec, "custom:") {
        before_first(rest.as_str(), '@')
    } else {
        model_spec.to_owned()
    };
    let lowered = to_lowercase(bare.as_str());
    let n = bare_model_tokens(lowered.as_str());
    from_tokens(n)
}

proof fn lemma_prefixed(p: Seq<char>, m: Seq<char>)
    ensures
        has_prefix(p + m, p),
        (p + m).skip(p.len() as int) == m,
{
    assert((p + m).subrange(0, p.len() as int) =~= p);
    assert((p + m).skip(p.len() as int) =~= m);
}

/// Chunk sizes follow the bare model name: a model routed through Ollama
/// gets the same size as through OpenAI, and as the bare name itself when
/// that carries no prefix of its own.
pub proof fn law_chunk_size_follows_bare_name(m: Seq<char>)
    ensures
        chunk_size("ollama:"@ + m) == chunk_size("openai:"@ + m),
        !has_prefix(m, "local:"@) && !has_prefix(m, "ollama:"@) && !has_prefix(m, "openai:"@)
            && !has_prefix(m, "custom:"@) ==> chunk_size(m) == chunk_size("ollama:"@ + m),
{
    reveal_strlit("local:");
    reveal_strlit("ollama:");
    reveal_strlit("openai:");
    let a = "ollama:"@ + m;
    let b = "openai:"@ + m;
    lemma_prefixed("ollama:"@, m);
    lemma_prefixed("openai:"@, m);
    assert(a[1] == 'l' && b[1] == 'p');
    assert(!has_prefix(a, "local:"@)) by {
        assert(a[0] != "local:"@[0]);
        if has_prefix(a, "local:"@) {
            assert(a.subrange(0, 6)[0] == a[0]);
        }
    }
    assert(!has_prefix(b, "local:"@)) by {
        if has_prefix(b, "local:"@) {
            assert(b.subrange(0, 6)[0] == b[0]);
        }
    }
    assert(!has_prefix(b, "ollama:"@)) by {
        if has_prefix(b, "ollama:"@) {
            assert(b.subrange(0, 7)[1] == b[1]);
        }
    }
    assert(bare_model_name(a) == m);
    assert(bare_model_name(b) == m);
}

// ---------------------------------------------------------------------------
// Backend selection
// ---------------------------------------------------------------------------

/// Why no embedder can be made for a configuration.
#[derive(Debug, PartialEq, Eq)]
pub enum EmbedderError {
    /// A server URL is configured but remote embedding is not built in.
    RemoteFeatureMissing,
    /// The `custom:` prefix is no longer supported.
    CustomPrefixRemoved,
    /// A `local:` model is asked for but local embedding is not built in.
    LocalFeatureMissing,
    /// The model is not recognised.
    UnknownModel { model: String },
}

/// The mathematical form of [`EmbedderError`].
pub enum EmbedderErrorView {
    RemoteFeatureMissing,
    CustomPrefixRemoved,
    LocalFeatureMissing,
    UnknownModel(Seq<char>),
}

impl View for EmbedderError {
    type V = EmbedderErrorView;

    open spec fn view(&self) -> EmbedderErrorView {
        match self {
            EmbedderError::RemoteFeatureMissing => EmbedderErrorView::RemoteFeatureMissing,
            EmbedderError::CustomPrefixRemoved => EmbedderErrorView::CustomPrefixRemoved,
            EmbedderError::LocalFeatureMissing => EmbedderErrorView::LocalFeatureMissing,
            EmbedderError::UnknownModel { model } => EmbedderErrorView::UnknownModel(model@),
        }
    }
}

/// The text of an embedder error, as shown to the user.
pub open spec fn embedder_error_message(e: EmbedderErrorView) -> Seq<char> {
    match e {
        EmbedderErrorView::RemoteFeatureMissing => "Remote embedding requires the 'remote-embed' feature.\nRebuild with: cargo build --features remote-embed"@,
        EmbedderErrorView::CustomPrefixRemoved => "The custom: prefix has been removed.\nUse the url and model fields in [embeddings] instead.\n\nExample .codescout/project.toml:\n[embeddings]\nmodel = \"your-model-name\"\nurl = \"http://your-server:port/v1\""@,
        EmbedderErrorView::LocalFeatureMissing => "Local embedding requires the 'local-embed' feature.\nRebuild with: cargo build --features local-embed\n\nRecommended: local:NomicEmbedTextV15Q (768d, quantized)"@,
        EmbedderErrorView::UnknownModel(m) => "Unknown model '"@ + m
            + "'. Options:\n\u{2022} Set url in [embeddings] to point at any OpenAI-compatible server\n\u{2022} Use local:NomicEmbedTextV15Q for bundled ONNX (768d, no server needed)\n\u{2022} Use local:JinaEmbeddingsV2BaseCode for code-specialized ONNX"@,
    }
}

impl EmbedderError {
    /// The error's message (what `to_string()` gave).
    pub fn message(&self) -> (r: String)
        ensures
            r@ == embedder_error_message(self@),
    {
        match self {
            EmbedderError::RemoteFeatureMissing => "Remote embedding requires the 'remote-embed' feature.\nRebuild with: cargo build --features remote-embed".to_owned(),
            EmbedderError::CustomPrefixRemoved => "The custom: prefix has been removed.\nUse the url and model fields in [embeddings] instead.\n\nExample .codescout/project.toml:\n[embeddings]\nmodel = \"your-model-name\"\nurl = \"http://your-server:port/v1\"".to_owned(),
            EmbedderError::LocalFeatureMissing => "Local embedding requires the 'local-embed' feature.\nRebuild with: cargo build --features local-embed\n\nRecommended: local:NomicEmbedTextV15Q (768d, quantized)".to_owned(),
            EmbedderError::UnknownModel { model } => {
                let mut s = String::new();
                crate::util::strings::push_str(&mut s, "Unknown model '");
                crate::util::strings::push_str(&mut s, model.as_str());
                crate::util::strings::push_str(
                    &mut s,
                    "'. Options:\n\u{2022} Set url in [embeddings] to point at any OpenAI-compatible server\n\u{2022} Use local:NomicEmbedTextV15Q for bundled ONNX (768d, no server needed)\n\u{2022} Use local:JinaEmbeddingsV2BaseCode for code-specialized ONNX",
                );
                s
            },
        }
    }
}

/// Which embedding backend a configuration selects.
#[derive(Debug, PartialEq, Eq)]
pub enum EmbedderChoice {
    /// An OpenAI-compatible server at `url`, sent the bare model name.
    Remote { url: String, model: String },
    /// A bundled local model.
    Local { model: String },
    /// An Ollama model (deprecated prefix).
    Ollama { model: String },
    /// An OpenAI model.
    OpenAi { model: String },
    /// A bare name that is tried as a local model, and is unknown if that
    /// fails.
    LocalOrUnknown { model: String },
    /// No embedder can be made.
    Refused { error: EmbedderError },
}

/// The mathematical form of [`EmbedderChoice`].
pub enum EmbedderChoiceView {
    Remote(Seq<char>, Seq<char>),
    Local(Seq<char>),
    Ollama(Seq<char>),
    OpenAi(Seq<char>),
    LocalOrUnknown(Seq<char>),
    Refused(EmbedderErrorView),
}

impl View for EmbedderChoice {
    type V = EmbedderChoiceView;

    open spec fn view(&self) -> EmbedderChoiceView {
        match self {
            EmbedderChoice::Remote { url, model } => EmbedderChoiceView::Remote(url@, model@),
            EmbedderChoice::Local { model } => EmbedderChoiceView::Local(model@),
            EmbedderChoice::Ollama { model } => EmbedderChoiceView::Ollama(model@),
            EmbedderChoice::OpenAi { model } => EmbedderChoiceView::OpenAi(model@),
            EmbedderChoice::LocalOrUnknown { model } => EmbedderChoiceView::LocalOrUnknown(model@),
            EmbedderChoice::Refused { error } => EmbedderChoiceView::Refused(error@),
        }
    }
}

/// `s` with the prefix `p` removed (`s` itself when it lacks it).
pub open spec fn without_prefix(s: Seq<char>, p: Seq<char>) -> Seq<char> {
    if has_prefix(s, p) {
        s.skip(p.len() as int)
    } else {
        s
    }
}

/// The model name sent to a configured server: the model with an
/// `ollama:`, `openai:` or `local:` routing prefix removed.
pub open spec fn remote_model_name(model: Seq<char>) -> Seq<char> {
    if has_prefix(model, "ollama:"@) {
        without_prefix(model, "ollama:"@)
    } else if has_prefix(model, "openai:"@) {
        without_prefix(model, "openai:"@)
    } else {
        without_prefix(model, "local:"@)
    }
}

/// How a model and an optional server URL select a backend, given which
/// backends are built in: a URL wins; then the `local:`, `ollama:`,
/// `openai:` and (removed) `custom:` prefixes; then a bare local model name.
pub open spec fn embedder_choice(
    model: Seq<char>,
    url: Option<Seq<char>>,
    remote: bool,
    local: bool,
) -> EmbedderChoiceView {
    if url is Some {
        if remote {
            EmbedderChoiceView::Remote(url->0, remote_model_name(model))
        } else {
            EmbedderChoiceView::Refused(EmbedderErrorView::RemoteFeatureMissing)
        }
    } else if local && has_prefix(model, "local:"@) {
        EmbedderChoiceView::Local(without_prefix(model, "local:"@))
    } else if remote && has_prefix(model, "ollama:"@) {
        EmbedderChoiceView::Ollama(without_prefix(model, "ollama:"@))
    } else if remote && has_prefix(model, "openai:"@) {
        EmbedderChoiceView::OpenAi(without_prefix(model, "openai:"@))
    } else if remote && has_prefix(model, "custom:"@) {
        EmbedderChoiceView::Refused(EmbedderErrorView::CustomPrefixRemoved)
    } else if local {
        EmbedderChoiceView::LocalOrUnknown(model)
    } else if has_prefix(model, "local:"@) {
        EmbedderChoiceView::Refused(EmbedderErrorView::LocalFeatureMissing)
    } else {
        EmbedderChoiceView::Refused(EmbedderErrorView::UnknownModel(model))
    }
}

/// Select the embedding backend for `model` and an optional server `url`,
/// where `remote` and `local` say which backends are built in.
pub fn choose_embedder(model: &str, url: Option<&str>, remote: bool, local: bool) -> (r:
    EmbedderChoice)
    ensures
        r@ == embedder_choice(model@, crate::tools::section_edit::opt_view(url), remote, local),
{
    if let Some(u) = url {
        if remote {
            let bare = if let Some(rest) = strip_prefix_str(model, "ollama:") {
                rest
            } else if let Some(rest) = strip_prefix_str(model, "openai:") {
                rest
            } else if let Some(rest) = strip_prefix_str(model, "local:") {
                rest
            } else {
                model.to_owned()
            };
            return EmbedderChoice::Remote { url: u.to_owned(), model: bare };
        }
        return EmbedderChoice::Refused { error: EmbedderError::RemoteFeatureMissing };
    }
    if local {
        if let Some(id) = strip_prefix_str(model, "local:") {
            return EmbedderChoice::Local { model: id };
        }
    }
    if remote {
        if let Some(id) = strip_prefix_str(model, "ollama:") {
            return EmbedderChoice::Ollama { model: id };
        }
        if let Some(id) = strip_prefix_str(model, "openai:") {
            return EmbedderChoice::OpenAi { model: id };
        }
        if str_starts_with(model, "custom:") {
            return EmbedderChoice::Refused { error: EmbedderError::CustomPrefixRemoved };
        }
    }
    if local {
        return EmbedderChoice::LocalOrUnknown { model: model.to_owned() };
    }
    if str_starts_with(model, "local:") {
        return EmbedderChoice::Refused { error: EmbedderError::LocalFeatureMissing };
    }
    EmbedderChoice::Refused { error: EmbedderError::UnknownModel { model: model.to_owned() } }
}

/// The bundled model used when an Ollama server cannot be reached.
pub open spec fn ollama_fallback_model() -> Seq<char> {
    "NomicEmbedTextV15Q"@
}

/// The backend after the Ollama server was probed: with the local backend
/// built in, an Ollama choice whose server did not answer falls back to the
/// bundled `NomicEmbedTextV15Q` model; any other choice stands.
pub fn after_ollama_probe(choice: EmbedderChoice, probe_ok: bool, local: bool) -> (r: EmbedderChoice)
    ensures
        (choice@ is Ollama && !probe_ok && local) ==> r@ == EmbedderChoiceView::Local(
            ollama_fallback_model(),
        ),
        !(choice@ is Ollama && !probe_ok && local) ==> r@ == choice@,
{
    match choice {
        EmbedderChoice::Ollama { model } => {
            if !probe_ok && local {
                EmbedderChoice::Local { model: "NomicEmbedTextV15Q".to_owned() }
            } else {
                EmbedderChoice::Ollama { model }
            }
        },
        other => other,
    }
}

/// Whatever routing prefix a model carries, a configured server is sent
/// the bare model name: `ollama:m`, `openai:m` and `local:m` choose the same
/// remote model as `m`, namely `m` itself, when `m` carries none of those
/// prefixes.
pub proof fn law_server_gets_bare_model_name(m: Seq<char>, url: Seq<char>, local: bool)
    requires
        !has_prefix(m, "ollama:"@),
        !has_prefix(m, "openai:"@),
        !has_prefix(m, "local:"@),
    ensures
        embedder_choice(m, Some(url), true, local) == EmbedderChoiceView::Remote(url, m),
        embedder_choice("ollama:"@ + m, Some(url), true, local) == EmbedderChoiceView::Remote(url, m),
        embedder_choice("openai:"@ + m, Some(url), true, local) == EmbedderChoiceView::Remote(url, m),
        embedder_choice("local:"@ + m, Some(url), true, local) == EmbedderChoiceView::Remote(url, m),
{
    reveal_strlit("local:");
    reveal_strlit("ollama:");
    reveal_strlit("openai:");
    lemma_prefixed("ollama:"@, m);
    lemma_prefixed("openai:"@, m);
    lemma_prefixed("local:"@, m);
    let b = "openai:"@ + m;
    let c = "local:"@ + m;
    assert(!has_prefix(b, "ollama:"@)) by {
        if has_prefix(b, "ollama:"@) {
            assert(b.subrange(0, 7)[1] == b[1]);
        }
    }
    assert(!has_prefix(c, "ollama:"@)) by {
        if has_prefix(c, "ollama:"@) {
            assert(c.subrange(0, 7)[0] == c[0]);
        }
    }
    assert(!has_prefix(c, "openai:"@)) by {
        if has_prefix(c, "openai:"@) {
            assert(c.subrange(0, 7)[0] == c[0]);
        }
    }
}

/// Every BGE-small name counts as the 512-token model it is, whatever else
/// it says, unless it also names one of the long-context families
/// (`nomic-embed`, `jina`, `bge-m3`, `text-embedding-*`) or `mxbai`: the
/// same count as the bundled `local:BGESmallENV15` model.
pub proof fn law_bge_small_names_get_512_tokens(l: Seq<char>)
    requires
        contains(l, "bge-small"@) || has_prefix(l, "bge_small"@),
        !contains(l, "nomic-embed"@),
        !contains(l, "jina"@),
        !contains(l, "bge-m3"@),
        !has_prefix(l, "text-embedding-"@),
    ensures
        bare_tokens(l) == 512,
        bare_tokens(l) == local_tokens("bgesmallenv15"@),
{
    reveal_strlit("bgesmallenv15");
    reveal_strlit("nomicembedtextv15");
    reveal_strlit("nomicembedtextv15q");
    reveal_strlit("jinaembeddingsv2basecode");
    let b = "bgesmallenv15"@;
    assert(b != "nomicembedtextv15"@ && b != "nomicembedtextv15q"@ && b
        != "jinaembeddingsv2basecode"@) by {
        assert(b[0] != "nomicembedtextv15"@[0]);
        assert(b[0] != "nomicembedtextv15q"@[0]);
        assert(b[0] != "jinaembeddingsv2basecode"@[0]);
    }
}

} // verus!
