use docmill::canonical::canonical_json;
use docmill::engine::OcrFailure;
use docmill::json::{parse, print, Json};
use docmill::vlm::{answer, parse_openai_response, OpenAiVlm, MAX_TOKENS};

fn members(text: &str) -> Vec<(String, Json)> {
    match parse(text) {
        Ok(Json::Object(m)) => m,
        other => panic!("{other:?}"),
    }
}

#[test]
fn parses_openai_shape() {
    let body = r#"{"choices":[{"message":{"role":"assistant","content":"Hello\nWorld"}}]}"#;
    assert_eq!(parse_openai_response(body).unwrap(), "Hello\nWorld");
}

#[test]
fn rejects_missing_content_and_garbage() {
    assert!(parse_openai_response(r#"{"choices":[]}"#).is_err());
    assert!(parse_openai_response("not json").is_err());
    assert!(parse_openai_response(r#"{"error":{"message":"boom"}}"#).is_err());
}

#[test]
fn url_appends_chat_completions_once() {
    let e = |ep: &str| OpenAiVlm::new(ep.into(), "m".into(), None, None, 5).url();
    assert_eq!(e("http://h:1/v1"), "http://h:1/v1/chat/completions");
    assert_eq!(e("http://h:1/v1/"), "http://h:1/v1/chat/completions");
    assert_eq!(e("http://h:1/v1/chat/completions"), "http://h:1/v1/chat/completions");
}

#[test]
fn request_options_invalidate_cache_but_retry_policy_and_credentials_do_not() {
    let extra = members(r#"{"temperature":0.2,"options":{"b":2,"a":1}}"#);
    let a = OpenAiVlm::new("http://h/v1".into(), "m".into(), None, None, 120)
        .request_options(3, extra);
    let reordered = members(r#"{"options":{"a":1,"b":2},"temperature":0.2}"#);
    let b = OpenAiVlm::new("http://h/v1/".into(), "m".into(), None, Some("secret".into()), 1)
        .request_options(0, reordered);
    assert_eq!(a.cache_salt(), b.cache_salt());
    assert!(!a.cache_salt().contains("secret"));
    let c = OpenAiVlm::new("http://h/v1".into(), "m".into(), None, None, 120);
    assert_ne!(a.cache_salt(), c.cache_salt());
    let request: serde_json::Value =
        serde_json::from_str(&a.body(b"bytes", "image/png")).unwrap();
    assert_eq!(request["temperature"], 0.2);
    assert_eq!(request["options"]["a"], 1);
}

#[test]
fn salts_differ_where_requests_do() {
    let make = |endpoint: &str, model: &str, prompt: Option<&str>, extra: &str| {
        OpenAiVlm::new(endpoint.into(), model.into(), prompt.map(String::from), None, 5)
            .request_options(0, members(extra))
            .cache_salt()
    };
    let all = [
        make("http://h/v1", "m", None, "{}"),
        make("http://i/v1", "m", None, "{}"),
        make("http://h/v1", "n", None, "{}"),
        make("http://h/v1", "m", Some("read"), "{}"),
        make("http://h/v1", "m", None, r#"{"temperature":0.2}"#),
        make("http://h/v1", "m", None, r#"{"temperature":"0.2"}"#),
    ];
    for (i, one) in all.iter().enumerate() {
        assert!(all[..i].iter().all(|other| other != one), "{one}");
    }
}

#[test]
fn the_image_travels_as_a_data_uri() {
    let e = OpenAiVlm::new("http://h/v1".into(), "m".into(), Some("read".into()), None, 5);
    let request: serde_json::Value =
        serde_json::from_str(&e.body(b"bytes", "image/png")).unwrap();
    assert_eq!(request["model"], "m");
    assert_eq!(request["max_tokens"], MAX_TOKENS);
    let text = request.to_string();
    assert!(text.contains("data:image/png;base64,Ynl0ZXM="), "{text}");
    assert!(text.contains("\"read\""), "{text}");
}

#[test]
fn credentials_become_a_bearer_token() {
    let with = |key: Option<&str>| {
        OpenAiVlm::new("u".into(), "m".into(), None, key.map(str::to_string), 5).authorization()
    };
    assert_eq!(with(None), None);
    assert_eq!(with(Some("k")), Some("Bearer k".to_string()));
}

#[test]
fn answers_are_trimmed_or_say_what_failed() {
    let ok = answer(r#"{"choices":[{"message":{"content":" text\n"}}]}"#).unwrap();
    assert_eq!(ok.text, "text");
    assert_eq!(ok.grid, None);
    assert_eq!(
        answer("{}"),
        Err(OcrFailure::Transient("no choices[0].message.content in response".to_string()))
    );
    match answer("nonsense") {
        Err(OcrFailure::Transient(m)) => assert!(m.starts_with("malformed JSON response: "), "{m}"),
        other => panic!("{other:?}"),
    }
}

#[test]
fn canonical_json_sorts_members_at_every_level() {
    let v = parse(r#"{"b":[{"z":1,"y":2.50}],"a":{"d":null,"c":true}}"#).unwrap();
    assert_eq!(
        canonical_json(v),
        r#"{"a":{"c":true,"d":null},"b":[{"y":2.50,"z":1}]}"#.replace("2.50", "2.5")
    );
}

#[test]
fn json_prints_what_it_reads() {
    let text = r#"{"a":[1,-2,"x\n",null,true,{"k":18446744073709551615}]}"#;
    assert_eq!(print(parse(text).unwrap()), text);
    assert!(parse("{").is_err());
}
