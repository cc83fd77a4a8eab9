use ryu_mission_control::host::{read_reply, render_result, Host, Json};

fn text(s: &str) -> Json {
    Json::Text(s.into())
}

fn object(fields: Vec<(&str, Json)>) -> Json {
    Json::Object(fields.into_iter().map(|(k, v)| (k.to_owned(), v)).collect())
}

#[test]
fn result_shapes_all_render_to_text() {
    assert_eq!(render_result(&text("hi")), "hi");
    assert_eq!(render_result(&object(vec![("text", text("hi"))])), "hi");
    assert_eq!(render_result(&object(vec![("content", text("hi"))])), "hi");
    assert_eq!(
        render_result(&Json::List(vec![
            object(vec![("text", text("a"))]),
            object(vec![("text", text("b"))]),
        ])),
        "ab"
    );
    assert_eq!(render_result(&Json::Number), "");
}

#[test]
fn a_text_field_is_looked_for_in_order() {
    assert_eq!(
        render_result(&object(vec![("output", text("o")), ("content", text("c"))])),
        "c"
    );
    assert_eq!(
        render_result(&object(vec![("content", text("c")), ("text", text("t"))])),
        "t"
    );
    assert_eq!(render_result(&object(vec![("output", text("o"))])), "o");
    assert_eq!(render_result(&object(vec![("answer", text("a"))])), "");
    // What is there wins, even where it holds no text.
    assert_eq!(
        render_result(&object(vec![("text", Json::Null), ("content", text("c"))])),
        ""
    );
}

#[test]
fn shapes_nest() {
    let nested = object(vec![(
        "content",
        Json::List(vec![
            text("a"),
            Json::Bool(true),
            object(vec![("text", Json::List(vec![text("b"), text("c")]))]),
        ]),
    )]);
    assert_eq!(render_result(&nested), "abc");
    assert_eq!(render_result(&Json::Null), "");
    assert_eq!(render_result(&Json::List(vec![])), "");
}

#[test]
fn a_success_gives_the_completion() {
    let body = object(vec![("result", object(vec![("text", text(" hi "))]))]);
    assert_eq!(Host::completed(200, &body), Ok(" hi ".to_owned()));
    assert_eq!(Host::completed(299, &body), Ok(" hi ".to_owned()));
}

#[test]
fn a_blank_completion_is_an_error() {
    let empty = Err("the model returned an empty completion".to_owned());
    assert_eq!(Host::completed(200, &object(vec![])), empty);
    assert_eq!(
        Host::completed(200, &object(vec![("result", text(" \n"))])),
        empty
    );
    assert_eq!(Host::completed(200, &text("hi")), empty);
}

#[test]
fn a_refusal_says_why_and_with_which_status() {
    let body = object(vec![("error", text("grant not approved"))]);
    assert_eq!(
        Host::completed(403, &body),
        Err("grant not approved (HTTP 403 Forbidden)".to_owned())
    );
    assert_eq!(
        Host::completed(502, &object(vec![("error", Json::Number)])),
        Err("host model callback failed (HTTP 502 Bad Gateway)".to_owned())
    );
    assert_eq!(
        Host::completed(599, &Json::Null),
        Err("host model callback failed (HTTP 599 <unknown status code>)".to_owned())
    );
    assert_eq!(
        Host::completed(300, &Json::Null),
        Err("host model callback failed (HTTP 300 Multiple Choices)".to_owned())
    );
    assert_eq!(
        Host::completed(199, &Json::Null),
        Err("host model callback failed (HTTP 199 <unknown status code>)".to_owned())
    );
}

#[test]
fn a_reply_is_read_with_the_phrase_it_is_given() {
    assert_eq!(
        read_reply(418, Some("Teapot"), &Json::Null),
        Err("host model callback failed (HTTP 418 Teapot)".to_owned())
    );
    assert_eq!(
        read_reply(201, None, &object(vec![("result", text("ok"))])),
        Ok("ok".to_owned())
    );
}

#[test]
fn the_callback_needs_all_of_its_settings() {
    let host = Host::from_env(Some("t"), Some("p"), Some("7980")).unwrap();
    assert_eq!(host.base, "http://127.0.0.1:7980");
    assert_eq!(host.plugin_id, "p");
    assert_eq!(host.token, "t");
    assert!(Host::from_env(None, Some("p"), Some("7980")).is_none());
    assert!(Host::from_env(Some(""), Some("p"), Some("7980")).is_none());
    assert!(Host::from_env(Some("t"), None, Some("7980")).is_none());
    assert!(Host::from_env(Some("t"), Some(""), Some("7980")).is_none());
    assert!(Host::from_env(Some("t"), Some("p"), None).is_none());
    assert!(Host::from_env(Some("t"), Some("p"), Some("65536")).is_none());
    assert!(Host::from_env(Some("t"), Some("p"), Some(" 7980")).is_none());
}

#[test]
fn a_call_carries_what_the_callback_asks_for() {
    let host = Host::from_env(Some("t"), Some("p"), Some("1")).unwrap();
    let call = host.complete("be brief", "what happened", Some("key"));
    assert_eq!(call.url, "http://127.0.0.1:1/api/host/model/complete");
    assert_eq!(call.bearer, "t");
    assert_eq!(call.plugin_id, "p");
    assert_eq!(call.system, "be brief");
    assert_eq!(call.prompt, "what happened");
    assert_eq!(call.model_pref_key.as_deref(), Some("key"));
    assert_eq!(host.complete("a", "b", None).model_pref_key, None);
}
