use opencode_telegram_bot::stream::{
    error_message, event_kind, event_type, final_markdown, final_plain, markdown_ok,
    response_text, strip_channel_tags, ActiveStreams, EventKind, PartUpdate, Phase, StreamState,
};

fn state(is_dm: bool, now: u64) -> StreamState {
    StreamState::new_at("-100".to_string(), Some(3), is_dm, Some(11), Some(12), now)
}

fn part(sid: &str, ty: &str, text: Option<&str>) -> PartUpdate {
    PartUpdate {
        session_id: sid.to_string(),
        part_type: ty.to_string(),
        text: text.map(|t| t.to_string()),
        tool_status: None,
        tool_name: None,
        tool_title: None,
    }
}

#[test]
fn new_stream_can_update_at_once() {
    let s = state(false, 100_000);
    assert_eq!(s.last_stream_update, None);
    assert_eq!((s.last_activity, s.created_at), (100_000, 100_000));
    assert_eq!(s.phase, Phase::Idle);
    assert!(s.should_update_at(100_000));
    let early = state(false, 5_000);
    assert_eq!(early.last_stream_update, None);
    assert!(early.should_update_at(5_000));
    assert!(early.should_update_at(0));
}

#[test]
fn throttle_is_longer_in_groups() {
    let mut g = state(false, 100_000);
    g.mark_updated_at(200_000);
    assert!(!g.should_update_at(201_499));
    assert!(g.should_update_at(201_500));
    let mut d = state(true, 100_000);
    d.mark_updated_at(200_000);
    assert!(!d.should_update_at(200_299));
    assert!(d.should_update_at(200_300));
    assert!(!d.should_update_at(100));
}

#[test]
fn clock_based_stream_methods() {
    let mut s = StreamState::new("1".to_string(), None, true, None, None);
    assert_eq!(s.last_activity, s.created_at);
    assert!(s.should_update());
    s.mark_updated();
    assert!(!s.should_update());
}

#[test]
fn display_text_parts() {
    let mut s = state(false, 100_000);
    assert_eq!(s.display_text(), None);
    s.tool_lines = vec!["\u{1F527} bash — ok".to_string(), "\u{1F527} read — done".to_string()];
    assert_eq!(s.display_text().unwrap(), "\u{1F527} bash — ok\n\u{1F527} read — done");
    s.phase = Phase::Reasoning;
    s.reasoning = "thinking".to_string();
    assert_eq!(
        s.display_text().unwrap(),
        "\u{1F527} bash — ok\n\u{1F527} read — done\n\n\u{1F4AD} thinking"
    );
    s.tool_lines.clear();
    s.phase = Phase::Text;
    assert_eq!(s.display_text(), None);
    s.text = "answer".to_string();
    assert_eq!(s.display_text().unwrap(), "answer");
}

#[test]
fn display_text_keeps_the_end_of_long_text() {
    let mut s = state(false, 100_000);
    s.phase = Phase::Text;
    s.text = format!("{}{}", "a".repeat(100), "b".repeat(3900));
    assert!(s.display_ok_exec());
    let d = s.display_text().unwrap();
    assert_eq!(d, format!("...{}", "b".repeat(3900)));
    assert!(d.len() <= 3903);
}

#[test]
fn display_text_cut_inside_a_character_is_refused() {
    let mut s = state(false, 100_000);
    s.phase = Phase::Text;
    s.text = format!("{}x", "é".repeat(1951));
    assert!(!s.display_ok_exec());
    s.text = format!("x{}", "é".repeat(1950));
    assert!(s.display_ok_exec());
    assert_eq!(s.display_text().unwrap(), format!("...{}", "é".repeat(1950)));
}

#[test]
fn active_streams_flow() {
    let mut t = ActiveStreams::new();
    t.insert("s1".to_string(), state(false, 100_000));
    t.insert("s2".to_string(), state(true, 100_000));
    assert_eq!(t.len(), 2);
    assert!(!t.apply_part(&part("nope", "text", Some("x")), 100_100));
    assert!(t.apply_part(&part("s1", "reasoning", Some("hmm")), 100_100));
    let st = t.get("s1").unwrap();
    assert_eq!((st.phase, st.reasoning.as_str(), st.last_activity), (Phase::Reasoning, "hmm", 100_100));
    assert!(t.refresh_ok_exec("s1"));
    let edit = t.refresh("s1", 100_200).unwrap();
    assert_eq!((edit.chat_id.as_str(), edit.message_id, edit.text.as_str()), ("-100", Some(12), "\u{1F4AD} hmm"));
    assert!(!t.apply_part(&part("s1", "text", Some("Hi")), 100_300));
    assert!(t.apply_part(&part("s1", "text", Some("Hi there")), 101_700));
    assert_eq!(t.get("s1").unwrap().text, "Hi there");
    assert!(!t.apply_part(&part("s1", "step-start", None), 110_000));
    let mut tool = part("s1", "tool", None);
    tool.tool_status = Some("completed".to_string());
    tool.tool_name = Some("bash".to_string());
    t.apply_part(&tool, 110_000);
    tool.tool_name = None;
    tool.tool_title = Some("Ran it".to_string());
    t.apply_part(&tool, 110_000);
    tool.tool_status = Some("running".to_string());
    t.apply_part(&tool, 110_000);
    assert_eq!(
        t.get("s1").unwrap().tool_lines,
        vec!["\u{1F527} bash \u{2014} done".to_string(), "\u{1F527} ? \u{2014} Ran it".to_string()]
    );
    t.set_error(Some("s2"), "bad");
    assert_eq!(t.get("s2").unwrap().error.as_deref(), Some("bad"));
    assert_eq!(t.get("s1").unwrap().error, None);
    t.set_error(None, "all");
    assert_eq!(t.get("s1").unwrap().error.as_deref(), Some("all"));
    assert_eq!(t.stale(100_000 + 300_999), Vec::<String>::new());
    assert_eq!(t.stale(100_000 + 301_000), vec!["s2".to_string()]);
    let gone = t.remove("s2").unwrap();
    assert_eq!(gone.error.as_deref(), Some("all"));
    assert!(t.get("s2").is_none());
    assert!(t.remove("s2").is_none());
    assert_eq!(t.len(), 1);
}

#[test]
fn refresh_without_content_changes_nothing() {
    let mut t = ActiveStreams::new();
    t.insert("s".to_string(), state(false, 100_000));
    assert!(t.refresh("s", 100_500).is_none());
    assert_eq!(t.get("s").unwrap().last_stream_update, None);
    assert!(t.refresh("other", 100_500).is_none());
}

#[test]
fn insert_replaces_stream_of_same_session() {
    let mut t = ActiveStreams::new();
    t.insert("s".to_string(), state(false, 100_000));
    t.insert("s".to_string(), state(true, 200_000));
    assert_eq!(t.len(), 1);
    assert!(t.get("s").unwrap().is_dm);
}

#[test]
fn channel_tags_are_stripped() {
    let c = |s: &str| -> String { strip_channel_tags(&s.chars().collect()).into_iter().collect() };
    assert_eq!(c("<channel source=\"x\">hi</channel>\nAnswer"), "Answer");
    assert_eq!(c("A<channel>x</channel>B"), "AB");
    assert_eq!(c("<channelx>y</channel>"), "<channelx>y</channel>");
    assert_eq!(c("<channel a>no end"), "<channel a>no end");
    assert_eq!(c("<channel>a</channel><channel>b</channel>\n\nz"), "\nz");
}

#[test]
fn response_text_fallbacks() {
    let mut s = state(false, 0);
    assert_eq!(response_text(&s), "(no response)");
    s.text = "  <channel source=\"telegram\">echo</channel>\n  Real answer \n".to_string();
    assert_eq!(response_text(&s), "Real answer");
    s.text = "<channel>echo</channel>".to_string();
    assert_eq!(response_text(&s), "(no response)");
    s.error = Some("boom".to_string());
    assert_eq!(response_text(&s), "\u{26A0}\u{FE0F} boom");
}

#[test]
fn final_reply_texts() {
    let mut s = state(false, 0);
    s.tool_lines = vec!["\u{1F527} a.b — done".to_string()];
    s.reasoning = "why.".to_string();
    assert!(markdown_ok("It **works**."));
    assert_eq!(
        final_markdown(&s, "It **works**."),
        "\u{1F527} a\\.b — done\n\n>\u{1F4AD} why\\.||\n\nIt *works*\\."
    );
    assert_eq!(
        final_plain(&s, "It **works**."),
        "\u{1F527} a.b — done\n\n\u{1F4AD} why.\n\nIt **works**."
    );
    let plain = state(false, 0);
    assert_eq!(final_markdown(&plain, "ok"), "ok");
    assert!(!markdown_ok("a\u{E000}b"));
}

#[test]
fn event_classification() {
    assert_eq!(event_type(Some("session.idle"), "message"), "session.idle");
    assert_eq!(event_type(None, "message"), "message");
    assert_eq!(event_kind("message.part.updated"), EventKind::PartUpdated);
    assert_eq!(event_kind("session.error"), EventKind::SessionError);
    assert_eq!(event_kind("session.idle"), EventKind::SessionIdle);
    assert_eq!(event_kind("server.heartbeat"), EventKind::Other);
    assert_eq!(error_message(Some("a"), Some("b")), "a");
    assert_eq!(error_message(None, Some("b")), "b");
    assert_eq!(error_message(None, None), "Unknown error");
}

#[test]
fn started_stream_is_what_its_end_hands_back() {
    let mut t = ActiveStreams::new();
    t.insert("a".to_string(), state(false, 1_000));
    t.insert("b".to_string(), state(true, 2_000));
    t.insert("c".to_string(), state(false, 3_000));
    let mut mine = state(true, 5_000);
    mine.text = "mine".to_string();
    t.insert("b".to_string(), mine);
    let got = t.remove("b").unwrap();
    assert_eq!(got.text, "mine");
    assert_eq!(got.created_at, 5_000);
    assert!(t.get("b").is_none());
    assert_eq!(t.get("a").unwrap().created_at, 1_000);
    assert_eq!(t.get("c").unwrap().created_at, 3_000);
}

#[test]
fn display_of_long_text_is_bounded() {
    let mut s = state(false, 100_000);
    s.phase = Phase::Text;
    s.text = "é".repeat(5_000);
    let shown = s.display_text().unwrap();
    assert!(shown.starts_with("..."));
    assert_eq!(shown.len(), 3 + 3_900);
    assert!(s.text.ends_with(&shown[3..]));
}

#[test]
fn clock_reads_after_the_epoch() {
    let now = opencode_telegram_bot::clock::now_millis();
    assert!(now > 1_600_000_000_000);
}
