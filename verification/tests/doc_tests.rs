use backend::doc::{read_config_set, read_prompt_set, render_prompt_set};
use backend::models::{Prompt, PromptSet};

fn prompt(title: &str, text: &str) -> Prompt {
    Prompt { title: title.to_string(), text: text.to_string() }
}

fn sample_set() -> PromptSet {
    PromptSet {
        prompt_template: "You are terse. {}".to_string(),
        prompts: vec![
            prompt("greet", "Say hello."),
            prompt("review", "Review this diff: {}"),
        ],
    }
}

fn assert_same_set(a: &PromptSet, b: &PromptSet) {
    assert_eq!(a.prompt_template, b.prompt_template);
    assert_eq!(a.prompts.len(), b.prompts.len());
    for (x, y) in a.prompts.iter().zip(b.prompts.iter()) {
        assert_eq!(x.title, y.title);
        assert_eq!(x.text, y.text);
    }
}

#[test]
fn rendered_document_has_one_tagged_line_per_field() {
    let doc = render_prompt_set(&sample_set());
    assert_eq!(
        doc,
        "prompt_template:You are terse. {}\n\
         title:greet\ntext:Say hello.\n\
         title:review\ntext:Review this diff: {}\n"
    );
}

#[test]
fn prompt_set_round_trip() {
    let original = sample_set();
    let doc = render_prompt_set(&original);
    let reread = read_prompt_set(&doc).unwrap();
    assert_same_set(&original, &reread);
}

#[test]
fn empty_prompt_list_round_trip() {
    let original = PromptSet { prompt_template: String::new(), prompts: vec![] };
    let doc = render_prompt_set(&original);
    assert_eq!(doc, "prompt_template:\n");
    let reread = read_prompt_set(&doc).unwrap();
    assert_same_set(&original, &reread);
}

#[test]
fn values_may_contain_colons_and_tags() {
    let original = PromptSet {
        prompt_template: "title:not a tag".to_string(),
        prompts: vec![prompt("a:b:c", "text:inside")],
    };
    let doc = render_prompt_set(&original);
    let reread = read_prompt_set(&doc).unwrap();
    assert_same_set(&original, &reread);
}

#[test]
fn multiline_values_round_trip() {
    let original = PromptSet {
        prompt_template: "first line\nsecond line".to_string(),
        prompts: vec![
            prompt("with\nnewline", "a\\path\\with\\backslashes"),
            prompt("\\n is not a newline", "ends in backslash\\"),
        ],
    };
    let doc = render_prompt_set(&original);
    let reread = read_prompt_set(&doc).unwrap();
    assert_same_set(&original, &reread);
}

#[test]
fn escaping_keeps_every_field_on_one_line() {
    let original = PromptSet {
        prompt_template: "a\nb".to_string(),
        prompts: vec![prompt("t\\c", "x")],
    };
    let doc = render_prompt_set(&original);
    assert_eq!(doc, "prompt_template:a\\nb\ntitle:t\\\\c\ntext:x\n");
}

#[test]
fn broken_escapes_are_rejected() {
    // an escape pair that stands for nothing
    assert!(read_prompt_set("prompt_template:x\\q\n").is_none());
    // a value that ends in a dangling backslash
    assert!(read_prompt_set("prompt_template:x\\\n").is_none());
}

#[test]
fn malformed_prompt_documents_are_rejected() {
    // no newline after the last field
    assert!(read_prompt_set("prompt_template:x\ntitle:a\ntext:b").is_none());
    // wrong leading tag
    assert!(read_prompt_set("template:x\n").is_none());
    // title line without its text line
    assert!(read_prompt_set("prompt_template:x\ntitle:a\n").is_none());
    // text line before its title line
    assert!(read_prompt_set("prompt_template:x\ntext:b\ntitle:a\n").is_none());
    // empty document
    assert!(read_prompt_set("").is_none());
}

#[test]
fn config_document_is_read_field_by_field() {
    let doc = "api_key:local-test-key\n\
               api_base:http://127.0.0.1:9999/v1\n\
               model:ollama:llama3.1:8b\n\
               max_tokens:1024\n";
    let config = read_config_set(doc).unwrap();
    assert_eq!(config.api_key, "local-test-key");
    assert_eq!(config.api_base, "http://127.0.0.1:9999/v1");
    assert_eq!(config.model, "ollama:llama3.1:8b");
    assert_eq!(config.max_tokens, 1024);
}

#[test]
fn config_token_cap_bounds() {
    let doc = |cap: &str| {
        format!("api_key:k\napi_base:b\nmodel:m\nmax_tokens:{cap}\n")
    };
    assert_eq!(read_config_set(&doc("0")).unwrap().max_tokens, 0);
    assert_eq!(read_config_set(&doc("4294967295")).unwrap().max_tokens, u32::MAX);
    assert!(read_config_set(&doc("4294967296")).is_none());
    assert!(read_config_set(&doc("12a4")).is_none());
    assert!(read_config_set(&doc("")).is_none());
    assert!(read_config_set(&doc("-1")).is_none());
}

#[test]
fn malformed_config_documents_are_rejected() {
    // missing model line
    assert!(read_config_set("api_key:k\napi_base:b\nmax_tokens:1\n").is_none());
    // fields out of order
    assert!(read_config_set("api_base:b\napi_key:k\nmodel:m\nmax_tokens:1\n").is_none());
    // trailing content after the last field
    assert!(read_config_set("api_key:k\napi_base:b\nmodel:m\nmax_tokens:1\nextra:x\n").is_none());
    // unterminated last line
    assert!(read_config_set("api_key:k\napi_base:b\nmodel:m\nmax_tokens:1").is_none());
}
