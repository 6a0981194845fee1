use codescout::lsp::mux::protocol::{tag_request_id, untag_response_id, DocumentState, RequestId};

// ── ID remapping ────────────────────────────────────────────

#[test]
fn tag_request_id_numeric() {
    let id = RequestId::Int(1);
    let tagged = tag_request_id(&id, "a");
    assert_eq!(tagged, RequestId::Str("a:1".to_string()));
}

#[test]
fn tag_request_id_string() {
    let id = RequestId::Str("req-5".to_string());
    let tagged = tag_request_id(&id, "b");
    assert_eq!(tagged, RequestId::Str("b:req-5".to_string()));
}

#[test]
fn untag_response_id_numeric() {
    let tagged = RequestId::Str("a:1".to_string());
    let (tag, original) = untag_response_id(&tagged).unwrap();
    assert_eq!(tag, "a");
    assert_eq!(original, RequestId::Int(1));
}

#[test]
fn untag_response_id_string() {
    let tagged = RequestId::Str("b:req-5".to_string());
    let (tag, original) = untag_response_id(&tagged).unwrap();
    assert_eq!(tag, "b");
    assert_eq!(original, RequestId::Str("req-5".to_string()));
}

#[test]
fn untag_response_id_no_colon() {
    let tagged = RequestId::Str("no_colon".to_string());
    assert!(untag_response_id(&tagged).is_none());
}

#[test]
fn untag_response_id_non_string() {
    let tagged = RequestId::Int(42);
    assert!(untag_response_id(&tagged).is_none());
}

#[test]
fn untag_response_id_null() {
    let tagged = RequestId::Other("null".to_string());
    assert!(untag_response_id(&tagged).is_none());
}

// ── DocumentState::open ─────────────────────────────────────

#[test]
fn open_first_client_forwards() {
    let mut state = DocumentState::new();
    assert!(state.open("file:///a.rs", "client-a"));
}

#[test]
fn open_second_client_suppresses() {
    let mut state = DocumentState::new();
    assert!(state.open("file:///a.rs", "client-a"));
    assert!(!state.open("file:///a.rs", "client-b"));
}

#[test]
fn open_same_client_twice_suppresses() {
    let mut state = DocumentState::new();
    assert!(state.open("file:///a.rs", "client-a"));
    assert!(!state.open("file:///a.rs", "client-a"));
}

// ── DocumentState::close ────────────────────────────────────

#[test]
fn close_last_client_forwards() {
    let mut state = DocumentState::new();
    state.open("file:///a.rs", "client-a");
    assert!(state.close("file:///a.rs", "client-a"));
}

#[test]
fn close_non_last_client_suppresses() {
    let mut state = DocumentState::new();
    state.open("file:///a.rs", "client-a");
    state.open("file:///a.rs", "client-b");
    assert!(!state.close("file:///a.rs", "client-a"));
}

#[test]
fn close_then_last_close_forwards() {
    let mut state = DocumentState::new();
    state.open("file:///a.rs", "client-a");
    state.open("file:///a.rs", "client-b");
    assert!(!state.close("file:///a.rs", "client-a"));
    assert!(state.close("file:///a.rs", "client-b"));
}

#[test]
fn close_unknown_uri_returns_false() {
    let mut state = DocumentState::new();
    assert!(!state.close("file:///unknown.rs", "client-a"));
}

// ── DocumentState::next_version ─────────────────────────────

#[test]
fn next_version_monotonically_increasing() {
    let mut state = DocumentState::new();
    state.open("file:///a.rs", "client-a");
    assert_eq!(state.next_version("file:///a.rs"), 1);
    assert_eq!(state.next_version("file:///a.rs"), 2);
    assert_eq!(state.next_version("file:///a.rs"), 3);
}

#[test]
fn next_version_independent_per_uri() {
    let mut state = DocumentState::new();
    state.open("file:///a.rs", "client-a");
    state.open("file:///b.rs", "client-a");
    assert_eq!(state.next_version("file:///a.rs"), 1);
    assert_eq!(state.next_version("file:///b.rs"), 1);
    assert_eq!(state.next_version("file:///a.rs"), 2);
}

// ── DocumentState::disconnect ───────────────────────────────

#[test]
fn disconnect_closes_exclusive_files() {
    let mut state = DocumentState::new();
    state.open("file:///exclusive.rs", "client-a");
    state.open("file:///shared.rs", "client-a");
    state.open("file:///shared.rs", "client-b");

    let closed = state.disconnect("client-a");
    assert_eq!(closed, vec!["file:///exclusive.rs"]);
}

#[test]
fn disconnect_keeps_shared_files_open() {
    let mut state = DocumentState::new();
    state.open("file:///shared.rs", "client-a");
    state.open("file:///shared.rs", "client-b");

    let closed = state.disconnect("client-a");
    assert!(closed.is_empty());

    // client-b is still the opener
    assert!(state.close("file:///shared.rs", "client-b"));
}

#[test]
fn disconnect_unknown_client_is_noop() {
    let mut state = DocumentState::new();
    state.open("file:///a.rs", "client-a");
    let closed = state.disconnect("client-x");
    assert!(closed.is_empty());
}

// ── Further cases ───────────────────────────────────────────

#[test]
fn tag_then_untag_restores_negative_id() {
    let tagged = tag_request_id(&RequestId::Int(-7), "c");
    assert_eq!(tagged, RequestId::Str("c:-7".to_string()));
    let (tag, original) = untag_response_id(&tagged).unwrap();
    assert_eq!(tag, "c");
    assert_eq!(original, RequestId::Int(-7));
}

#[test]
fn tag_then_untag_restores_large_unsigned_id() {
    let big = u64::MAX;
    let tagged = tag_request_id(&RequestId::UInt(big), "x");
    assert_eq!(tagged, RequestId::Str(format!("x:{}", big)));
    let (_, original) = untag_response_id(&tagged).unwrap();
    assert_eq!(original, RequestId::UInt(big));
}

#[test]
fn tag_other_value_uses_its_json_text() {
    let tagged = tag_request_id(&RequestId::Other("null".to_string()), "a");
    assert_eq!(tagged, RequestId::Str("a:null".to_string()));
}

#[test]
fn untag_splits_at_first_colon() {
    let tagged = RequestId::Str("a:b:c".to_string());
    let (tag, original) = untag_response_id(&tagged).unwrap();
    assert_eq!(tag, "a");
    assert_eq!(original, RequestId::Str("b:c".to_string()));
}

#[test]
fn untag_reads_signed_number_text() {
    let tagged = RequestId::Str("t:+5".to_string());
    let (_, original) = untag_response_id(&tagged).unwrap();
    assert_eq!(original, RequestId::Int(5));
}

#[test]
fn reopen_after_last_close_forwards_again() {
    let mut state = DocumentState::new();
    assert!(state.open("file:///a.rs", "client-a"));
    assert!(state.close("file:///a.rs", "client-a"));
    assert!(state.open("file:///a.rs", "client-a"));
}

#[test]
fn version_restarts_after_last_close() {
    let mut state = DocumentState::new();
    state.open("file:///a.rs", "client-a");
    assert_eq!(state.next_version("file:///a.rs"), 1);
    assert!(state.close("file:///a.rs", "client-a"));
    state.open("file:///a.rs", "client-a");
    assert_eq!(state.next_version("file:///a.rs"), 1);
}

#[test]
fn version_counter_without_opener_survives_disconnect() {
    let mut state = DocumentState::new();
    assert_eq!(state.next_version("file:///a.rs"), 1);
    let closed = state.disconnect("client-a");
    assert!(closed.is_empty());
    assert_eq!(state.next_version("file:///a.rs"), 2);
}

#[test]
fn close_by_non_opener_is_suppressed_and_keeps_version() {
    let mut state = DocumentState::new();
    assert_eq!(state.next_version("file:///u.rs"), 1);
    assert!(!state.close("file:///u.rs", "client-a"));
    assert_eq!(state.next_version("file:///u.rs"), 2);
    state.open("file:///u.rs", "client-b");
    assert!(!state.close("file:///u.rs", "client-a"));
    assert!(state.close("file:///u.rs", "client-b"));
}
#[test]
fn small_unsigned_id_comes_back_as_the_same_number() {
    let tagged = tag_request_id(&RequestId::UInt(5), "a");
    let (_, original) = untag_response_id(&tagged).unwrap();
    assert_eq!(original, RequestId::Int(5));
}
