use opencode_telegram_bot::access::{
    encode, gate, generate_pairing_code, get_mention_patterns, handle_pairing, handle_pairing_at,
    mentions_bot, strip_mention, Access, AccessCache,
    GateContext, GateResult, GroupPolicy, PendingEntry,
};

fn access(policy: &str) -> Access {
    Access {
        dm_policy: policy.to_string(),
        allow_from: vec![],
        groups: vec![],
        pending: vec![],
        mention_patterns: vec![],
    }
}

fn pending(sender: &str, expires_at: u64, replies: u32) -> PendingEntry {
    PendingEntry {
        sender_id: sender.to_string(),
        chat_id: sender.to_string(),
        created_at: 0,
        expires_at,
        replies,
    }
}

fn check(a: &Access, chat_type: &str, chat_id: &str, sender: &str, text: &str, reply: bool) -> GateResult {
    gate(&GateContext {
        access: a,
        chat_type,
        chat_id,
        sender_id: sender,
        text,
        bot_username: "my_bot",
        reply_to_bot: reply,
    })
}

#[test]
fn default_access_pairs() {
    let a = Access::default();
    assert_eq!(a.dm_policy, "pairing");
    assert!(a.allow_from.is_empty() && a.groups.is_empty() && a.pending.is_empty());
}

#[test]
fn mention_patterns_include_bot_username() {
    let mut a = access("pairing");
    a.mention_patterns = vec!["@Bot".to_string()];
    assert_eq!(get_mention_patterns(&a, "my_bot"), vec!["@Bot".to_string(), "@my_bot".to_string()]);
    a.mention_patterns = vec!["@my_bot".to_string()];
    assert_eq!(get_mention_patterns(&a, "my_bot"), vec!["@my_bot".to_string()]);
    assert_eq!(get_mention_patterns(&a, ""), vec!["@my_bot".to_string()]);
}

#[test]
fn gate_unknown_group_is_denied() {
    let a = access("pairing");
    assert_eq!(check(&a, "group", "-1", "5", "@my_bot hi", false), GateResult::Deny);
    assert_eq!(check(&a, "supergroup", "-1", "5", "hi", true), GateResult::Deny);
}

#[test]
fn gate_group_requires_mention_or_reply() {
    let mut a = access("disabled");
    a.groups = vec![("-100".to_string(), GroupPolicy { require_mention: true, allow_from: vec![] })];
    assert_eq!(check(&a, "group", "-100", "5", "hello", false), GateResult::Deny);
    assert_eq!(check(&a, "group", "-100", "5", "  @my_bot hello", false), GateResult::Allow);
    assert_eq!(check(&a, "supergroup", "-100", "5", "hello", true), GateResult::Allow);
    a.groups[0].1.require_mention = false;
    assert_eq!(check(&a, "group", "-100", "5", "hello", false), GateResult::Allow);
}

#[test]
fn gate_group_allow_list() {
    let mut a = access("pairing");
    a.groups = vec![(
        "-100".to_string(),
        GroupPolicy { require_mention: false, allow_from: vec!["7".to_string()] },
    )];
    assert_eq!(check(&a, "group", "-100", "7", "x", false), GateResult::Allow);
    assert_eq!(check(&a, "group", "-100", "8", "x", false), GateResult::Deny);
}

#[test]
fn gate_direct_messages() {
    let mut a = access("disabled");
    a.allow_from = vec!["7".to_string()];
    assert_eq!(check(&a, "private", "7", "7", "hi", false), GateResult::Deny);
    a.dm_policy = "allowlist".to_string();
    assert_eq!(check(&a, "private", "7", "7", "hi", false), GateResult::Allow);
    assert_eq!(check(&a, "private", "8", "8", "hi", false), GateResult::Deny);
    a.dm_policy = "pairing".to_string();
    assert_eq!(check(&a, "private", "8", "8", "hi", false), GateResult::Pair);
    assert_eq!(check(&a, "private", "7", "7", "hi", false), GateResult::Allow);
}

#[test]
fn strip_mention_removes_leading_mention() {
    let a = access("pairing");
    assert_eq!(strip_mention("  @my_bot   hello there", &a, "my_bot"), "hello there");
    assert_eq!(strip_mention("  hi @my_bot", &a, "my_bot"), "  hi @my_bot");
    assert!(mentions_bot("\t@my_bot x", &a, "my_bot"));
    assert!(!mentions_bot("x @my_bot", &a, "my_bot"));
}

#[test]
fn hex_encoding() {
    assert_eq!(encode(&[0x0a, 0xff, 0x00]), "0aff00");
    assert_eq!(encode(&[]), "");
}

#[test]
fn pairing_codes_are_six_hex_digits() {
    for _ in 0..20 {
        let c = generate_pairing_code();
        assert_eq!(c.len(), 6);
        assert!(c.chars().all(|ch| ch.is_ascii_hexdigit() && !ch.is_ascii_uppercase()));
    }
}

#[test]
fn pairing_already_paired() {
    let mut a = access("pairing");
    a.allow_from = vec!["7".to_string()];
    let r = handle_pairing_at(&mut a, "7", "7", 1000, "abc123");
    assert_eq!(r, "You are already paired. Send messages and I will respond.");
    assert!(a.pending.is_empty());
}

#[test]
fn pairing_new_request() {
    let mut a = access("pairing");
    let r = handle_pairing_at(&mut a, "7", "70", 1000, "abc123");
    assert_eq!(
        r,
        "Your pairing code is: abc123\nAsk the admin to approve with: opencode telegram pair abc123\nThis code expires in 1 hour."
    );
    assert_eq!(a.pending.len(), 1);
    assert_eq!(a.pending[0].0, "abc123");
    let e = &a.pending[0].1;
    assert_eq!((e.sender_id.as_str(), e.chat_id.as_str()), ("7", "70"));
    assert_eq!((e.created_at, e.expires_at, e.replies), (1000, 3_601_000, 1));
}

#[test]
fn pairing_repeat_request_counts_replies() {
    let mut a = access("pairing");
    a.pending = vec![("c0ffee".to_string(), pending("7", 5000, 1))];
    let r = handle_pairing_at(&mut a, "7", "7", 1000, "abc123");
    assert_eq!(r, "Your pairing code is: c0ffee\nAsk the admin to run: opencode telegram pair c0ffee");
    assert_eq!(a.pending[0].1.replies, 2);
}

#[test]
fn pairing_too_many_attempts() {
    let mut a = access("pairing");
    a.pending = vec![("c0ffee".to_string(), pending("7", 5000, 3))];
    let r = handle_pairing_at(&mut a, "7", "7", 1000, "abc123");
    assert_eq!(r, "Too many attempts. Please try again later.");
    assert!(a.pending.is_empty());
}

#[test]
fn pairing_expired_entries_are_dropped() {
    let mut a = access("pairing");
    a.pending = vec![
        ("aaaaaa".to_string(), pending("7", 500, 1)),
        ("bbbbbb".to_string(), pending("8", 900, 1)),
        ("cccccc".to_string(), pending("9", 5000, 1)),
    ];
    let r = handle_pairing_at(&mut a, "7", "7", 1000, "dddddd");
    assert!(r.starts_with("Your pairing code is: dddddd"));
    let codes: Vec<&str> = a.pending.iter().map(|(k, _)| k.as_str()).collect();
    assert_eq!(codes, vec!["cccccc", "dddddd"]);
}

#[test]
fn pairing_too_many_pending() {
    let mut a = access("pairing");
    a.pending = vec![
        ("aaaaaa".to_string(), pending("1", 5000, 1)),
        ("bbbbbb".to_string(), pending("2", 5000, 1)),
        ("cccccc".to_string(), pending("3", 5000, 1)),
    ];
    let r = handle_pairing_at(&mut a, "7", "7", 1000, "dddddd");
    assert_eq!(r, "Too many pending pairing requests. Please try again later.");
    assert_eq!(a.pending.len(), 3);
}

#[test]
fn pairing_code_collision_replaces_entry() {
    let mut a = access("pairing");
    a.pending = vec![("aaaaaa".to_string(), pending("1", 5000, 2))];
    handle_pairing_at(&mut a, "7", "7", 1000, "aaaaaa");
    assert_eq!(a.pending.len(), 1);
    assert_eq!(a.pending[0].1.sender_id, "7");
    assert_eq!(a.pending[0].1.replies, 1);
}

#[test]
fn pairing_never_exceeds_three_new_requests() {
    let mut a = access("pairing");
    for (i, code) in ["aaaaaa", "bbbbbb", "cccccc", "dddddd", "eeeeee"].iter().enumerate() {
        handle_pairing_at(&mut a, &i.to_string(), "1", 1000, code);
        assert!(a.pending.len() <= 3);
    }
    assert_eq!(a.pending.len(), 3);
}

#[test]
fn pairing_counters_wrap_as_unchecked_arithmetic() {
    let mut a = access("pairing");
    a.pending = vec![("aaaaaa".to_string(), pending("7", 5000, u32::MAX))];
    let r = handle_pairing_at(&mut a, "7", "7", 1000, "bbbbbb");
    assert!(r.starts_with("Your pairing code is: aaaaaa"));
    assert_eq!(a.pending[0].1.replies, 0);

    let mut b = access("pairing");
    let r = handle_pairing_at(&mut b, "8", "8", u64::MAX - 10, "cccccc");
    assert!(r.starts_with("Your pairing code is: cccccc"));
    assert_eq!(b.pending[0].1.expires_at, 3_600_000 - 11);
}

#[test]
fn paired_sender_is_answered_whatever_the_time() {
    let mut a = access("pairing");
    a.allow_from = vec!["7".to_string()];
    a.pending = vec![("aaaaaa".to_string(), pending("7", 5000, u32::MAX))];
    let r = handle_pairing(&mut a, "7", "7");
    assert_eq!(r, "You are already paired. Send messages and I will respond.");
    assert_eq!(a.pending[0].1.replies, u32::MAX);
}

#[test]
fn pairing_with_the_clock() {
    let mut a = access("pairing");
    let r = handle_pairing(&mut a, "7", "7");
    assert!(r.starts_with("Your pairing code is: "));
    assert_eq!(a.pending.len(), 1);
    assert_eq!(a.pending[0].0.len(), 6);
    assert!(r.contains(&a.pending[0].0));
    assert_eq!(a.pending[0].1.expires_at - a.pending[0].1.created_at, 3_600_000);
}

#[test]
fn cache_serves_saved_configuration_for_two_seconds() {
    let mut c = AccessCache::new("/tmp/access.json".to_string());
    assert_eq!(c.path(), "/tmp/access.json");
    assert!(c.fresh(0).is_none());
    c.store(access("allowlist"), 1000);
    assert_eq!(c.fresh(1000).unwrap().dm_policy, "allowlist");
    assert_eq!(c.fresh(2999).unwrap().dm_policy, "allowlist");
    assert!(c.fresh(3000).is_none());
    assert!(c.fresh(500).is_some());
}

#[test]
fn a_sender_keeps_a_single_pending_request() {
    let mut a = access("pairing");
    handle_pairing_at(&mut a, "7", "7", 1000, "aaaaaa");
    handle_pairing_at(&mut a, "8", "8", 1000, "bbbbbb");
    // The first request expired: the sender gets a new code, and the old one is gone.
    handle_pairing_at(&mut a, "7", "7", 1000 + 3_600_000, "cccccc");
    let sevens = a.pending.iter().filter(|(_, e)| e.sender_id == "7").count();
    assert_eq!(sevens, 1);
    assert!(a.pending.iter().any(|(c, _)| c == "cccccc"));
    // A new code that collides with another sender's replaces that request.
    handle_pairing_at(&mut a, "9", "9", 1000 + 3_600_000, "cccccc");
    assert_eq!(a.pending.iter().filter(|(_, e)| e.sender_id == "7").count(), 0);
    assert_eq!(a.pending.iter().filter(|(_, e)| e.sender_id == "9").count(), 1);
}
