use llm_wiki_server::config::{config_candidates, parse_model_string, remove_jsonc_comments};
use llm_wiki_server::llm::{google_role, provider_endpoint, provider_kind, provider_of_lower, sse_data, stream_token, LineSplitter, ProviderKind};

#[test]
fn providers_by_name() {
    assert_eq!(provider_kind("OpenAI").unwrap(), ProviderKind::OpenAi);
    assert_eq!(provider_kind("anthropic").unwrap(), ProviderKind::Anthropic);
    assert_eq!(provider_kind("GOOGLE").unwrap(), ProviderKind::Google);
    assert_eq!(provider_kind("other").unwrap_err(), "Unsupported provider: other");
    assert_eq!(
        provider_endpoint(ProviderKind::Google, "k", None),
        "https://generativelanguage.googleapis.com/v1beta/models/gemini-1.5-pro:streamGenerateContent?key=k"
    );
    assert_eq!(provider_endpoint(ProviderKind::Anthropic, "k", Some("http://x".to_string())), "http://x");
    assert_eq!(google_role("assistant"), "model");
    assert_eq!(google_role("user"), "user");
}

#[test]
fn sse_lines() {
    assert_eq!(sse_data("data: {\"a\":1}"), Some("{\"a\":1}".to_string()));
    assert_eq!(sse_data("event: x"), None);
}

#[test]
fn line_splitter_is_indifferent_to_piece_boundaries() {
    let text = "data: one\r\n\n  data: two \nrest";
    let mut whole = LineSplitter::new();
    let all = whole.feed(text);
    for cut in 0..=text.len() {
        if !text.is_char_boundary(cut) {
            continue;
        }
        let mut s = LineSplitter::new();
        let mut got = s.feed(&text[..cut]);
        got.extend(s.feed(&text[cut..]));
        assert_eq!(got, all);
        assert_eq!(s.finish(), whole.finish());
    }
    assert_eq!(all, vec!["data: one", "data: two"]);
    assert_eq!(whole.finish(), Some("rest".to_string()));
}

#[test]
fn model_strings() {
    let m = parse_model_string("openai/gpt-4o").unwrap();
    assert_eq!(m.provider, "openai");
    assert_eq!(m.model, "gpt-4o");
    let m = parse_model_string("a/b/c").unwrap();
    assert_eq!(m.model, "b/c");
    assert_eq!(
        parse_model_string("nomodel").unwrap_err(),
        "Invalid model format 'nomodel'. Expected 'provider/model-name'"
    );
}

#[test]
fn jsonc_comments_are_removed() {
    let out = remove_jsonc_comments("{\"a\": 1, // note\n\"b\": \"http://x\" /* c */}");
    assert!(!out.contains("note"));
    assert!(out.contains("http://x"));
    assert!(!out.contains("/* c */"));
}

#[test]
fn config_files_looked_for() {
    assert_eq!(
        config_candidates(Some("/p"), "/home/u"),
        vec!["/p/.llm-wiki/llm-wiki.jsonc", "/p/.llm-wiki/llm-config.jsonc"]
    );
    assert_eq!(
        config_candidates(None, "/home/u"),
        vec![
            "/home/u/.config/opencode-llm-wiki/llm-wiki.jsonc",
            "/home/u/.config/opencode-llm-wiki/llm-config.jsonc",
            "/home/u/.config/opencode/llm-wiki.jsonc",
            "/home/u/.config/opencode/llm-config.jsonc",
        ]
    );
}

#[test]
fn taking_comments_out_twice_changes_nothing_more() {
    let samples = [
        "{\"a\": 1, // note\n\"b\": \"http://x\" /* c */}",
        "a/*c*//b",
        "x /* never closed",
        "{\"s\": \"/* not a comment */\"} // end",
        "\"esc \\\" // inside\" / not",
    ];
    for s in samples {
        let once = remove_jsonc_comments(s);
        assert_eq!(remove_jsonc_comments(&once), once);
    }
    assert_eq!(remove_jsonc_comments("{\"url\": \"http://x//y\"}"), "{\"url\": \"http://x//y\"}");
}

#[test]
fn stream_tokens_of_each_provider() {
    let openai = "data: {\"choices\":[{\"delta\":{\"content\":\"Hel\"}}]}";
    assert_eq!(stream_token(ProviderKind::OpenAi, openai).unwrap(), Some("Hel".to_string()));
    assert_eq!(stream_token(ProviderKind::OpenAi, "data: [DONE]").unwrap(), None);
    assert_eq!(stream_token(ProviderKind::OpenAi, ": keep-alive").unwrap(), None);
    assert_eq!(stream_token(ProviderKind::OpenAi, "data: {\"choices\":[{\"delta\":{}}]}").unwrap(), None);
    let err = stream_token(ProviderKind::OpenAi, "data: {not json").unwrap_err();
    assert!(err.starts_with("Failed to parse SSE data: "));

    let delta = "data: {\"type\":\"content_block_delta\",\"delta\":{\"text\":\"lo\"}}";
    assert_eq!(stream_token(ProviderKind::Anthropic, delta).unwrap(), Some("lo".to_string()));
    let start = "data: {\"type\":\"message_start\",\"delta\":{\"text\":\"x\"}}";
    assert_eq!(stream_token(ProviderKind::Anthropic, start).unwrap(), None);
    assert!(stream_token(ProviderKind::Anthropic, "data: [DONE]").is_err());

    let gemini = "data: {\"candidates\":[{\"content\":{\"parts\":[{\"text\":\"!\"}]}}]}";
    assert_eq!(stream_token(ProviderKind::Google, gemini).unwrap(), Some("!".to_string()));
    assert_eq!(stream_token(ProviderKind::Google, "data: {\"candidates\":[]}").unwrap(), None);
}

#[test]
fn provider_of_a_lower_case_name() {
    assert_eq!(provider_of_lower("openai"), Some(ProviderKind::OpenAi));
    assert_eq!(provider_of_lower("anthropic"), Some(ProviderKind::Anthropic));
    assert_eq!(provider_of_lower("google"), Some(ProviderKind::Google));
    assert_eq!(provider_of_lower("OpenAI"), None);
}
