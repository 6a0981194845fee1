use codescout::embed::{
    after_ollama_probe, bare_model_tokens, choose_embedder, chunk_size_for_model, local_model_tokens, EmbedderChoice,
    EmbedderError,
};

#[test]
fn chunk_size_mxbai_embed_large() {
    // Default model: 512-token context. Formula: 512 × 0.85 × 3 = 1305.
    let sz = chunk_size_for_model("ollama:mxbai-embed-large");
    assert_eq!(sz, 1305);
}

#[test]
fn chunk_size_nomic_embed_text() {
    // 8 192-token context. Formula: 8192 × 0.85 × 3 = 20 889.
    let sz = chunk_size_for_model("ollama:nomic-embed-text");
    assert_eq!(sz, 20889);
}

#[test]
fn chunk_size_bge_m3() {
    let sz = chunk_size_for_model("ollama:bge-m3");
    assert_eq!(sz, 20889);
}

#[test]
fn chunk_size_openai_text_embedding_3_small() {
    let sz = chunk_size_for_model("openai:text-embedding-3-small");
    assert_eq!(sz, 20887); // 8191 × 0.85 × 3
}

#[test]
fn chunk_size_local_jina() {
    let sz = chunk_size_for_model("local:JinaEmbeddingsV2BaseCode");
    assert_eq!(sz, 20889); // 8192 × 0.85 × 3
}

#[test]
fn chunk_size_local_bge_small() {
    let sz = chunk_size_for_model("local:BGESmallENV15Q");
    assert_eq!(sz, 1305); // 512 × 0.85 × 3
}

#[test]
fn chunk_size_local_all_minilm() {
    let sz = chunk_size_for_model("local:AllMiniLML6V2Q");
    assert_eq!(sz, 652); // 256 × 0.85 × 3
}

#[test]
fn chunk_size_local_nomic_v15() {
    let sz = chunk_size_for_model("local:NomicEmbedTextV15Q");
    assert_eq!(sz, 20889); // 8192 × 0.85 × 3
}

#[test]
fn chunk_size_local_nomic_v15_full() {
    let sz = chunk_size_for_model("local:NomicEmbedTextV15");
    assert_eq!(sz, 20889); // 8192 × 0.85 × 3
}

#[test]
fn chunk_size_custom_model() {
    // custom: prefix with @url — model name extracted before @
    let sz = chunk_size_for_model("custom:mxbai-embed-large@http://localhost:1234");
    assert_eq!(sz, 1305);
}

#[test]
fn chunk_size_unknown_model_falls_back_to_512_tokens() {
    let sz = chunk_size_for_model("ollama:some-unknown-model");
    assert_eq!(sz, 1305); // 512 × 0.85 × 3
}

#[test]
fn chunk_size_bare_nomic_model_name() {
    let sz = chunk_size_for_model("nomic-embed-text-v1.5");
    assert_eq!(sz, 20889); // 8192 × 0.85 × 3
}

#[test]
fn chunk_size_bare_unknown_model() {
    let sz = chunk_size_for_model("some-custom-model");
    assert_eq!(sz, 1305); // 512 × 0.85 × 3 (conservative fallback)
}

// ── Further cases ───────────────────────────────────────────

#[test]
fn chunk_size_matches_bare_names_case_insensitively() {
    // Only lowercasing the name makes the uppercase spelling match.
    assert_eq!(chunk_size_for_model("openai:All-MiniLM-L6-v2"), 652);
    assert_eq!(chunk_size_for_model("ollama:NOMIC-EMBED-TEXT"), 20889);
}

#[test]
fn chunk_size_custom_without_url_uses_whole_name() {
    assert_eq!(chunk_size_for_model("custom:jina-code"), 20889);
}

#[test]
fn chunk_size_bge_small_underscore_prefix() {
    assert_eq!(chunk_size_for_model("bge_small_en"), 1305);
}

#[test]
fn chunk_size_unknown_local_model() {
    assert_eq!(chunk_size_for_model("local:SomethingElse"), 1305);
}

#[test]
fn token_tables_take_lowercased_names() {
    assert_eq!(bare_model_tokens("text-embedding-ada-002"), 8191);
    assert_eq!(bare_model_tokens("minilm-l6-foo"), 256);
    assert_eq!(bare_model_tokens("TEXT-EMBEDDING-ADA-002"), 512);
    assert_eq!(local_model_tokens("allminilml6v2"), 256);
    assert_eq!(local_model_tokens("AllMiniLML6V2"), 512);
}

// ── Backend selection ───────────────────────────────────────

fn refusal(c: EmbedderChoice) -> EmbedderError {
    match c {
        EmbedderChoice::Refused { error } => error,
        other => panic!("expected a refusal, got {:?}", other),
    }
}

#[test]
fn unknown_prefix_returns_error() {
    let err = refusal(choose_embedder("bogus:model", None, true, false));
    assert!(err.message().contains("Unknown model"), "unexpected error: {}", err.message());
}

#[test]
fn local_prefix_returns_helpful_error() {
    // Built without the local backend.
    let err = refusal(choose_embedder("local:anything", None, true, false));
    assert!(err.message().contains("local-embed"));
}

#[test]
fn custom_prefix_missing_at_sign_returns_error() {
    // Built with the remote backend.
    let err = refusal(choose_embedder("custom:no-at-sign", None, true, false));
    assert!(err.message().contains("removed"), "unexpected error: {}", err.message());
    assert!(err.message().contains("url"), "error should mention url field: {}", err.message());
}

#[test]
fn create_embedder_with_url_uses_remote() {
    let c = choose_embedder("nomic-embed-text-v1.5", Some("http://127.0.0.1:99999"), true, false);
    assert_eq!(
        c,
        EmbedderChoice::Remote {
            url: "http://127.0.0.1:99999".to_string(),
            model: "nomic-embed-text-v1.5".to_string()
        }
    );
}

#[test]
fn custom_prefix_returns_migration_error() {
    let err = refusal(choose_embedder("custom:model@http://localhost:1234", None, true, false));
    assert_eq!(err, EmbedderError::CustomPrefixRemoved);
    assert!(err.message().contains("removed"), "error should say prefix is removed: {}", err.message());
    assert!(err.message().contains("url"), "error should mention url field: {}", err.message());
}

#[test]
fn create_embedder_no_url_no_prefix_defaults_to_local_allminilm() {
    // With the local backend built in, a bare name is tried as a local model.
    assert_eq!(
        choose_embedder("AllMiniLML6V2Q", None, true, true),
        EmbedderChoice::LocalOrUnknown { model: "AllMiniLML6V2Q".to_string() }
    );
}

#[test]
fn unknown_model_message_text() {
    let err = refusal(choose_embedder("bogus:model", None, false, false));
    assert_eq!(
        err.message(),
        "Unknown model 'bogus:model'. Options:\n\u{2022} Set url in [embeddings] to point at any \
         OpenAI-compatible server\n\u{2022} Use local:NomicEmbedTextV15Q for bundled ONNX (768d, no \
         server needed)\n\u{2022} Use local:JinaEmbeddingsV2BaseCode for code-specialized ONNX"
    );
}

#[test]
fn choose_url_strips_routing_prefix() {
    let c = choose_embedder("ollama:nomic-embed-text", Some("http://127.0.0.1:9999"), true, true);
    assert_eq!(
        c,
        EmbedderChoice::Remote {
            url: "http://127.0.0.1:9999".to_string(),
            model: "nomic-embed-text".to_string()
        }
    );
}

#[test]
fn choose_url_without_remote_backend() {
    let err = refusal(choose_embedder("m", Some("http://h"), false, true));
    assert_eq!(err, EmbedderError::RemoteFeatureMissing);
    assert!(err.message().contains("remote-embed"));
}

#[test]
fn choose_prefixed_backends() {
    assert_eq!(
        choose_embedder("local:AllMiniLML6V2Q", None, true, true),
        EmbedderChoice::Local { model: "AllMiniLML6V2Q".to_string() }
    );
    assert_eq!(
        choose_embedder("ollama:mxbai-embed-large", None, true, true),
        EmbedderChoice::Ollama { model: "mxbai-embed-large".to_string() }
    );
    assert_eq!(
        choose_embedder("openai:text-embedding-3-small", None, true, false),
        EmbedderChoice::OpenAi { model: "text-embedding-3-small".to_string() }
    );
}

#[test]
fn choose_ollama_prefix_without_remote_backend_is_unknown() {
    let err = refusal(choose_embedder("ollama:x", None, false, false));
    assert_eq!(err, EmbedderError::UnknownModel { model: "ollama:x".to_string() });
}

#[test]
fn chunk_size_same_for_any_routing_prefix() {
    for m in ["nomic-embed-text", "all-minilm", "text-embedding-3-large", "whatever"] {
        let bare = chunk_size_for_model(m);
        assert_eq!(chunk_size_for_model(&format!("ollama:{m}")), bare);
        assert_eq!(chunk_size_for_model(&format!("openai:{m}")), bare);
    }
}

#[test]
fn failed_ollama_probe_falls_back_to_bundled_model() {
    let c = after_ollama_probe(EmbedderChoice::Ollama { model: "nomic-embed-text".to_string() }, false, true);
    assert_eq!(c, EmbedderChoice::Local { model: "NomicEmbedTextV15Q".to_string() });
    let kept = after_ollama_probe(EmbedderChoice::Ollama { model: "m".to_string() }, true, true);
    assert_eq!(kept, EmbedderChoice::Ollama { model: "m".to_string() });
    let no_local = after_ollama_probe(EmbedderChoice::Ollama { model: "m".to_string() }, false, false);
    assert_eq!(no_local, EmbedderChoice::Ollama { model: "m".to_string() });
    let other = after_ollama_probe(EmbedderChoice::OpenAi { model: "m".to_string() }, false, true);
    assert_eq!(other, EmbedderChoice::OpenAi { model: "m".to_string() });
}
