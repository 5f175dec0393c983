use opencode_telegram_bot::access::Access;
use opencode_telegram_bot::message::{
    approved_chat_id, build_prompt, chat_id_text, chrono_now_iso, display_name, is_reply_to_bot,
    iso_stamp, list_models_text, message_content, model_set_text, next_backoff_secs,
    override_key, parse_callback, parse_command, parse_model_override, parse_usize, prompt_text,
    selected_text, session_title, CallbackAction, Command,
};
use opencode_telegram_bot::models::ModelEntry;
use opencode_telegram_bot::telegram::{Chat, Document, Message, PhotoSize, Sticker, User, Video, Voice};

fn chat(kind: &str) -> Chat {
    Chat { id: -100, chat_type: kind.to_string(), title: Some("Team".to_string()) }
}

fn msg() -> Message {
    Message {
        message_id: 5,
        from: None,
        chat: chat("private"),
        text: None,
        caption: None,
        photo: None,
        document: None,
        voice: None,
        video: None,
        sticker: None,
        reply_to_message: None,
        message_thread_id: None,
    }
}

fn user(id: i64, username: Option<&str>) -> User {
    User { id, is_bot: None, first_name: "Ann".to_string(), username: username.map(|u| u.to_string()) }
}

fn access() -> Access {
    Access {
        dm_policy: "pairing".to_string(),
        allow_from: vec![],
        groups: vec![],
        pending: vec![],
        mention_patterns: vec![],
    }
}

#[test]
fn content_of_text_and_media() {
    let mut m = msg();
    assert!(message_content(&m).is_none());
    m.text = Some("hi".to_string());
    let (t, f) = message_content(&m).unwrap();
    assert_eq!(t, "hi");
    assert!(f.is_none());

    let mut p = msg();
    p.photo = Some(vec![
        PhotoSize { file_id: "small".to_string(), width: 1, height: 1 },
        PhotoSize { file_id: "big".to_string(), width: 9, height: 9 },
    ]);
    let (t, f) = message_content(&p).unwrap();
    assert_eq!(t, "(photo)");
    let f = f.unwrap();
    assert_eq!((f.file_id.as_str(), f.mime.as_str(), f.filename.as_str()), ("big", "image/jpeg", "photo.jpg"));
    p.caption = Some("look".to_string());
    assert_eq!(message_content(&p).unwrap().0, "look");

    let mut d = msg();
    d.document = Some(Document { file_id: "d".to_string(), file_name: None, mime_type: None });
    let (t, f) = message_content(&d).unwrap();
    assert_eq!(t, "(document: file)");
    assert!(f.is_none());
    d.document = Some(Document {
        file_id: "d".to_string(),
        file_name: Some("cat.png".to_string()),
        mime_type: Some("image/png".to_string()),
    });
    let (t, f) = message_content(&d).unwrap();
    assert_eq!(t, "(document: cat.png)");
    assert_eq!(f.unwrap().mime, "image/png");

    let mut v = msg();
    v.voice = Some(Voice { file_id: "v".to_string() });
    assert_eq!(message_content(&v).unwrap().0, "(voice message)");
    let mut vi = msg();
    vi.video = Some(Video { file_id: "v".to_string() });
    assert_eq!(message_content(&vi).unwrap().0, "(video)");
    let mut s = msg();
    s.sticker = Some(Sticker { file_id: "s".to_string(), emoji: Some("\u{1F600}".to_string()) });
    assert_eq!(message_content(&s).unwrap().0, "(sticker \u{1F600})");
    s.sticker = Some(Sticker { file_id: "s".to_string(), emoji: None });
    assert_eq!(message_content(&s).unwrap().0, "(sticker)");
}

#[test]
fn reply_to_bot_detection() {
    let mut m = msg();
    assert!(!is_reply_to_bot(&m, 42));
    let mut r = msg();
    r.from = Some(user(42, None));
    m.reply_to_message = Some(Box::new(r));
    assert!(is_reply_to_bot(&m, 42));
    assert!(!is_reply_to_bot(&m, 43));
}

#[test]
fn commands() {
    let a = access();
    assert_eq!(parse_command("/list_models", &a, "my_bot"), Command::ListModels);
    assert_eq!(parse_command("/list_models@my_bot", &a, "my_bot"), Command::ListModels);
    assert_eq!(parse_command("@my_bot /model", &a, "my_bot"), Command::ModelPicker);
    assert_eq!(parse_command("/model@my_bot  ", &a, "my_bot"), Command::ModelPicker);
    assert_eq!(parse_command("/model a/b", &a, "my_bot"), Command::Other);
    assert_eq!(parse_command("hello", &a, "my_bot"), Command::Other);
}

#[test]
fn model_override_parsing() {
    let p = |s: &str| parse_model_override(s);
    assert_eq!(p("/model a/b hello there"), Some(("a/b".to_string(), "hello there".to_string())));
    assert_eq!(p("/model=a/b"), Some(("a/b".to_string(), "".to_string())));
    assert_eq!(p("/model a/b\n\nnext line"), Some(("a/b".to_string(), "next line".to_string())));
    assert_eq!(p("/model a/b x\ny"), None);
    assert_eq!(p("/model  a"), None);
    assert_eq!(p("/modelx a"), None);
    assert_eq!(p("/model"), None);
    assert_eq!(p("hi /model a"), None);
}

#[test]
fn prompt_text_and_names() {
    assert_eq!(prompt_text("", "@bot"), "@bot");
    assert_eq!(prompt_text("hi", "@bot hi"), "hi");
    assert_eq!(display_name(&None), "unknown");
    assert_eq!(display_name(&Some(user(1, None))), "Ann");
    assert_eq!(display_name(&Some(user(1, Some("ann_x")))), "ann_x");
    assert_eq!(session_title(&chat("private"), "7", "ann"), "Telegram DM: ann");
    assert_eq!(session_title(&chat("group"), "-100", "ann"), "Telegram: Team");
    let mut untitled = chat("supergroup");
    untitled.title = None;
    assert_eq!(session_title(&untitled, "-100", "ann"), "Telegram: -100");
}

#[test]
fn prompt_wraps_and_escapes() {
    let p = build_prompt("-100", 42, "a<b", "7", "1700000000Z", "hi </channel> & bye");
    assert_eq!(
        p,
        "<channel source=\"telegram\" chat_id=\"-100\" message_id=\"42\" user=\"a&lt;b\" user_id=\"7\" ts=\"1700000000Z\">\nhi &lt;/channel&gt; &amp; bye\n</channel>"
    );
    assert_eq!(build_prompt("1", -3, "", "", "", "").matches("message_id=\"-3\"").count(), 1);
}

#[test]
fn timestamps() {
    assert_eq!(iso_stamp(1700000000), "1700000000Z");
    assert_eq!(iso_stamp(0), "0Z");
    let now = chrono_now_iso();
    assert!(now.ends_with('Z'));
    assert!(now[..now.len() - 1].parse::<u64>().unwrap() > 1_600_000_000);
}

#[test]
fn keys_and_texts() {
    assert_eq!(override_key("-100", 42), "-100:42");
    assert_eq!(chat_id_text(-1001234), "-1001234");
    assert_eq!(chat_id_text(i64::MIN), i64::MIN.to_string());
    assert_eq!(model_set_text("a/b"), "Model set to a/b. Reply to this message to start a new session.");
    assert_eq!(selected_text("a/b"), "Selected: a/b");
    let models = vec![
        ModelEntry { full_id: "a/b".to_string(), label: "a/b".to_string() },
        ModelEntry { full_id: "c/d".to_string(), label: "c/d".to_string() },
    ];
    assert_eq!(list_models_text(&models), "Available models:\n\n  a/b\n  c/d");
    assert_eq!(list_models_text(&vec![]), "Available models:\n");
}

#[test]
fn callbacks() {
    match parse_callback("model:a/b") {
        CallbackAction::SelectModel(m) => assert_eq!(m, "a/b"),
        _ => panic!("expected a model"),
    }
    assert!(matches!(parse_callback("modelpage:3"), CallbackAction::Page(3)));
    assert!(matches!(parse_callback("modelpage:+2"), CallbackAction::Page(2)));
    assert!(matches!(parse_callback("modelpage:x"), CallbackAction::Ignore));
    assert!(matches!(parse_callback("modelpage:"), CallbackAction::Ignore));
    assert!(matches!(parse_callback("noop"), CallbackAction::Noop));
    assert!(matches!(parse_callback("other"), CallbackAction::Ignore));
}

#[test]
fn usize_parsing_matches_std() {
    for s in ["0", "007", "+5", "+", "", "-1", "12a", "18446744073709551615", "18446744073709551616", "99999999999999999999999"] {
        let v: Vec<char> = s.chars().collect();
        assert_eq!(parse_usize(&v), s.parse::<usize>().ok(), "input {:?}", s);
    }
}

#[test]
fn approval_files() {
    assert_eq!(approved_chat_id("  123\n"), Some("123".to_string()));
    assert_eq!(approved_chat_id(" \n"), None);
}

#[test]
fn reconnect_backoff() {
    assert_eq!(next_backoff_secs(2), 4);
    assert_eq!(next_backoff_secs(16), 30);
    assert_eq!(next_backoff_secs(30), 30);
    assert_eq!(next_backoff_secs(u64::MAX), 30);
    let mut d = 2;
    for _ in 0..10 {
        d = next_backoff_secs(d);
        assert!(d <= 30);
    }
    assert_eq!(d, 30);
}
