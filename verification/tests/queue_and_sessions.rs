use opencode_telegram_bot::download::attach_file;
use opencode_telegram_bot::markdown::{sanitize_for_xml, to_markdown_v2};
use opencode_telegram_bot::message::{
    after_latest_lookup, after_message_lookup, first_session_step, parse_callback, CallbackAction,
    ModelOverrides, Reconnect, SessionStep, MAX_OVERRIDES, MAX_RECONNECT_ATTEMPTS,
};
use opencode_telegram_bot::models::{stop_button, ModelCache, ModelEntry};
use opencode_telegram_bot::opencode::text_part;
use opencode_telegram_bot::queue::{PromptQueue, QueuedPrompt};
use opencode_telegram_bot::stream::{
    after_markdown_send, after_plain_send, part_session_id, plain_start, reply_start, ActiveStreams, ReplyStep,
    StreamState,
};

fn prompt(msg_id: i64) -> QueuedPrompt {
    QueuedPrompt {
        chat_id: "5".to_string(),
        msg_id,
        thread_id: None,
        is_dm: true,
        parts: vec![text_part("hi")],
        model: None,
    }
}

#[test]
fn queued_prompts_leave_in_arrival_order_per_session() {
    let mut q = PromptQueue::new();
    q.push("s1".to_string(), prompt(1));
    q.push("s2".to_string(), prompt(2));
    q.push("s1".to_string(), prompt(3));
    assert_eq!(q.len(), 3);
    assert_eq!(q.pop_next("s1").unwrap().msg_id, 1);
    assert_eq!(q.pop_next("s1").unwrap().msg_id, 3);
    assert!(q.pop_next("s1").is_none());
    assert_eq!(q.pop_next("s2").unwrap().msg_id, 2);
    assert_eq!(q.len(), 0);
}

#[test]
fn overrides_evict_the_oldest_when_full() {
    let mut o = ModelOverrides::new();
    for i in 0..MAX_OVERRIDES {
        o.insert(format!("1:{}", i), format!("m{}", i));
    }
    o.insert("1:0".to_string(), "again".to_string());
    o.insert("new".to_string(), "x/y".to_string());
    assert_eq!(o.take("1:0"), None);
    assert_eq!(o.take("1:1"), Some("m1".to_string()));
    assert_eq!(o.take("new"), Some("x/y".to_string()));
}

#[test]
fn session_steps_follow_reply_then_latest() {
    assert!(matches!(first_session_step(true, true, Some(4)), SessionStep::Create));
    assert!(matches!(first_session_step(false, true, Some(4)), SessionStep::ByMessage(4)));
    assert!(matches!(first_session_step(false, false, Some(4)), SessionStep::Latest));
    match after_message_lookup(Some("s".to_string())) {
        SessionStep::Continue(s) => assert_eq!(s, "s"),
        _ => panic!("expected the replied session"),
    }
    assert!(matches!(after_message_lookup(None), SessionStep::Latest));
    assert!(matches!(after_latest_lookup(None), SessionStep::Create));
}

#[test]
fn reconnect_schedule() {
    let mut r = Reconnect::start();
    let mut delays = vec![r.delay_secs];
    while let Some(n) = r.after_failure() {
        r = n;
        delays.push(r.delay_secs);
    }
    assert_eq!(r.attempt, MAX_RECONNECT_ATTEMPTS);
    assert_eq!(delays, vec![2, 4, 8, 16, 30, 30, 30, 30, 30, 30]);
}

#[test]
fn part_session_falls_back_to_the_part() {
    assert_eq!(part_session_id(Some("a"), Some("b")), "a");
    assert_eq!(part_session_id(None, Some("b")), "b");
    assert_eq!(part_session_id(None, None), "");
}

#[test]
fn stop_button_stops_its_session() {
    let k = stop_button("ses_1");
    assert_eq!(k.len(), 1);
    assert_eq!(k[0][0].text, "\u{23F9} Stop");
    assert_eq!(k[0][0].callback_data, "stop:ses_1");
    match parse_callback(&k[0][0].callback_data) {
        CallbackAction::Stop(s) => assert_eq!(s, "ses_1"),
        _ => panic!("expected a stop"),
    }
}

#[test]
fn fence_language_tags_are_word_characters() {
    assert_eq!(to_markdown_v2("```rust\nlet x = 1;\n```"), "```rust\nlet x = 1;\n```");
    assert_eq!(to_markdown_v2("```ру\nx\n```"), "```ру\nx\n```");
}

#[test]
fn xml_escape_reads_back() {
    let s = "a <b> & &lt; c";
    let e = sanitize_for_xml(s);
    assert_eq!(e, "a &lt;b&gt; &amp; &amp;lt; c");
    let back = e.replace("&lt;", "<").replace("&gt;", ">").replace("&amp;", "&");
    assert_eq!(back, s);
}

#[test]
fn base64_of_every_padding() {
    assert_eq!(attach_file("a/b", "f", b"").data_url, "data:a/b;base64,");
    assert_eq!(attach_file("a/b", "f", b"M").data_url, "data:a/b;base64,TQ==");
    assert_eq!(attach_file("a/b", "f", b"Ma").data_url, "data:a/b;base64,TWE=");
    assert_eq!(attach_file("a/b", "f", b"Man").data_url, "data:a/b;base64,TWFu");
    assert_eq!(attach_file("a/b", "f", &[0xfb, 0xff]).data_url, "data:a/b;base64,+/8=");
}

#[test]
fn final_reply_falls_back_to_plain_text_after_a_refusal() {
    assert_eq!(reply_start(2), ReplyStep::Markdown(0));
    assert_eq!(reply_start(0), ReplyStep::Done);
    assert_eq!(after_markdown_send(0, 2, true, 0), ReplyStep::Markdown(1));
    assert_eq!(after_markdown_send(1, 2, true, 0), ReplyStep::Done);
    assert_eq!(after_markdown_send(1, 2, false, 3), ReplyStep::Plain(0));
    assert_eq!(after_plain_send(0, 3), ReplyStep::Plain(1));
    assert_eq!(after_plain_send(2, 3), ReplyStep::Done);
    assert_eq!(plain_start(1), ReplyStep::Plain(0));
}

#[test]
fn model_list_is_fetched_once() {
    let mut c = ModelCache::new();
    assert!(c.needs_fetch());
    c.record_fetch(None);
    assert!(c.needs_fetch());
    c.record_fetch(Some(vec![ModelEntry { full_id: "a/b".to_string(), label: "a/b".to_string() }]));
    assert!(!c.needs_fetch());
    assert_eq!(c.cached().unwrap()[0].full_id, "a/b");
}

#[test]
fn busy_sessions() {
    let mut t = ActiveStreams::new();
    assert!(!t.busy("s"));
    t.insert("s".to_string(), StreamState::new_at("1".to_string(), None, true, None, None, 0));
    assert!(t.busy("s"));
    t.remove("s");
    assert!(!t.busy("s"));
}

#[test]
fn bot_api_outcomes() {
    let ok: Result<i32, String> = opencode_telegram_bot::telegram::api_outcome("getMe", true, Some(3), None);
    assert_eq!(ok, Ok(3));
    let none: Result<i32, String> = opencode_telegram_bot::telegram::api_outcome("getMe", true, None, None);
    assert_eq!(none, Err("getMe: no result".to_string()));
    let bad: Result<i32, String> =
        opencode_telegram_bot::telegram::api_outcome("sendMessage", false, None, Some("Bad Request".to_string()));
    assert_eq!(bad, Err("sendMessage: Bad Request".to_string()));
    let bare: Result<i32, String> = opencode_telegram_bot::telegram::api_outcome("x", false, Some(1), None);
    assert_eq!(bare, Err("x: ".to_string()));
}
