use opencode_telegram_bot::access::{Access, GateContext, GroupPolicy};
use opencode_telegram_bot::message::{
    parse_chat_id, plan_prompt, route_message, ModelOverrides, Route,
};

fn access(policy: &str) -> Access {
    Access {
        dm_policy: policy.to_string(),
        allow_from: vec!["42".to_string()],
        groups: vec![(
            "-100".to_string(),
            GroupPolicy { require_mention: true, allow_from: vec![] },
        )],
        pending: vec![],
        mention_patterns: vec![],
    }
}

fn route(a: &Access, chat_type: &str, chat_id: &str, sender: &str, text: &str) -> Route {
    route_message(&GateContext {
        access: a,
        chat_type,
        chat_id,
        sender_id: sender,
        text,
        bot_username: "my_bot",
        reply_to_bot: false,
    })
}

#[test]
fn commands_are_answered_before_the_gate() {
    let a = access("disabled");
    assert_eq!(route(&a, "private", "7", "7", "/list_models"), Route::ListModels);
    assert_eq!(route(&a, "private", "7", "7", "/model"), Route::ModelPicker);
    assert_eq!(route(&a, "group", "-5", "7", "@my_bot /model"), Route::ModelPicker);
    assert_eq!(route(&a, "private", "7", "7", "hello"), Route::Deny);
}

#[test]
fn gate_decides_other_messages() {
    let a = access("pairing");
    assert_eq!(route(&a, "private", "42", "42", "hello"), Route::Process);
    assert_eq!(route(&a, "private", "9", "9", "hello"), Route::Pair);
    assert_eq!(route(&a, "group", "-100", "9", "hello"), Route::Deny);
    assert_eq!(route(&a, "supergroup", "-100", "9", "@my_bot hello"), Route::Process);
    assert_eq!(route(&a, "group", "-200", "9", "@my_bot hello"), Route::Deny);
}

#[test]
fn plan_of_plain_text() {
    let a = access("pairing");
    let p = plan_prompt("hello", &a, "my_bot", "private", false, false);
    assert_eq!(p.model_override, None);
    assert!(!p.model_only);
    assert!(!p.use_reply_override);
    assert_eq!(p.prompt_text, "hello");
    assert!(!p.force_new_session);
    assert!(p.is_dm);
}

#[test]
fn plan_of_model_only_message() {
    let a = access("pairing");
    let p = plan_prompt("/model a/b", &a, "my_bot", "private", true, false);
    assert_eq!(p.model_override, Some("a/b".to_string()));
    assert!(p.model_only);
    assert!(!p.use_reply_override);
    assert_eq!(p.prompt_text, "/model a/b");

    let with_file = plan_prompt("/model a/b", &a, "my_bot", "private", false, true);
    assert!(!with_file.model_only);
}

#[test]
fn plan_of_mention_in_group() {
    let a = access("pairing");
    let p = plan_prompt("@my_bot /model x/y what is up", &a, "my_bot", "group", true, false);
    assert_eq!(p.model_override, Some("x/y".to_string()));
    assert!(!p.model_only);
    assert_eq!(p.prompt_text, "what is up");
    assert!(p.force_new_session);
    assert!(!p.is_dm);

    let reply = plan_prompt("go on", &a, "my_bot", "supergroup", true, false);
    assert!(reply.use_reply_override);
    assert!(!reply.force_new_session);
    assert_eq!(reply.prompt_text, "go on");
}

#[test]
fn mention_alone_keeps_the_whole_text() {
    let a = access("pairing");
    let p = plan_prompt("@my_bot", &a, "my_bot", "group", false, false);
    assert_eq!(p.prompt_text, "@my_bot");
    assert!(p.force_new_session);
}

#[test]
fn chat_ids_parse_like_i64() {
    assert_eq!(parse_chat_id("12345"), 12345);
    assert_eq!(parse_chat_id("-1001234567890"), -1001234567890);
    assert_eq!(parse_chat_id("+7"), 7);
    assert_eq!(parse_chat_id("9223372036854775807"), i64::MAX);
    assert_eq!(parse_chat_id("-9223372036854775808"), i64::MIN);
    assert_eq!(parse_chat_id("9223372036854775808"), 0);
    assert_eq!(parse_chat_id(""), 0);
    assert_eq!(parse_chat_id("-"), 0);
    assert_eq!(parse_chat_id("12a"), 0);
    assert_eq!(parse_chat_id(" 12"), 0);
}

#[test]
fn override_is_taken_once() {
    let mut o = ModelOverrides::new();
    o.insert("1:10".to_string(), "a/b".to_string());
    o.insert("1:11".to_string(), "c/d".to_string());
    o.insert("1:10".to_string(), "e/f".to_string());
    assert_eq!(o.take("1:10"), Some("e/f".to_string()));
    assert_eq!(o.take("1:10"), None);
    assert_eq!(o.take("1:11"), Some("c/d".to_string()));
    assert_eq!(o.take("2:10"), None);
}
