//! Handling of incoming messages and button presses: what a message says, which
//! command it is, the model override it carries, the prompt sent to opencode, and
//! the texts the bot answers with.
use vstd::prelude::*;
use crate::access::{
    gate, gate_spec, group_chat, is_group_chat, mentions_bot, starts_with_mention, strip_mention,
    strip_mention_spec, mention_patterns_spec, Access, GateContext, GateResult,
};
use crate::markdown::{
    dec_value, find_char, is_ascii_digit, lemma_next_of, next_of, slice_chars, CharEscape,
    escape_seq,
};
use crate::telegram::{Chat, Message, User};
use crate::text::{
    chars_of, contains_char, copy_str, dec, dec_int, extend_chars, extend_str, has_prefix, is_ws,
    lemma_leading_ws_unique, push_dec, push_dec_i64, skip_ws, starts_with_chars, str_eq,
    string_of, string_views, trim, trim_chars, trim_start, trim_start_chars,
};
use crate::models::ModelEntry;

verus! {

/// A file of a message to download and attach.
pub struct FileRequest {
    pub file_id: String,
    pub mime: String,
    pub filename: String,
}

/// The caption when there is one, else the fallback.
pub open spec fn caption_or(caption: Option<String>, fallback: Seq<char>) -> Seq<char> {
    match caption {
        Some(c) => c@,
        None => fallback,
    }
}

/// What a message says, and the file to attach (id, MIME type, name): photos attach
/// their largest size, documents attach when they are images; other media are
/// described in words.
pub open spec fn content_spec(msg: Message) -> Option<
    (Seq<char>, Option<(Seq<char>, Seq<char>, Seq<char>)>),
> {
    if msg.photo is Some {
        let ps = msg.photo->0@;
        Some(
            (
                caption_or(msg.caption, "(photo)"@),
                if ps.len() > 0 {
                    Some((ps.last().file_id@, "image/jpeg"@, "photo.jpg"@))
                } else {
                    None
                },
            ),
        )
    } else if msg.document is Some {
        let d = msg.document->0;
        let mime = match d.mime_type {
            Some(m) => m@,
            None => "application/octet-stream"@,
        };
        let name = match d.file_name {
            Some(n) => n@,
            None => "file"@,
        };
        Some(
            (
                caption_or(msg.caption, "(document: "@ + name + ")"@),
                if has_prefix(mime, "image/"@) {
                    Some((d.file_id@, mime, name))
                } else {
                    None
                },
            ),
        )
    } else if msg.voice is Some {
        Some((caption_or(msg.caption, "(voice message)"@), None))
    } else if msg.video is Some {
        Some((caption_or(msg.caption, "(video)"@), None))
    } else if msg.sticker is Some {
        Some(
            (
                "(sticker"@ + match msg.sticker->0.emoji {
                    Some(e) => " "@ + e@,
                    None => Seq::empty(),
                } + ")"@,
                None,
            ),
        )
    } else if msg.text is Some {
        Some((msg.text->0@, None))
    } else {
        None
    }
}

fn caption_or_exec(caption: &Option<String>, fallback: &Vec<char>) -> (r: String)
    ensures
        r@ == caption_or(*caption, fallback@),
{
    match caption {
        Some(c) => copy_str(c.as_str()),
        None => string_of(fallback),
    }
}

/// What a message says and which file to attach; `None` for messages without any of
/// text, caption or supported media.
pub fn message_content(msg: &Message) -> (r: Option<(String, Option<FileRequest>)>)
    ensures
        match (r, content_spec(*msg)) {
            (None, None) => true,
            (Some((t, f)), Some((ts, fs))) => t@ == ts && match (f, fs) {
                (None, None) => true,
                (Some(x), Some((a, b, c))) => x.file_id@ == a && x.mime@ == b && x.filename@ == c,
                _ => false,
            },
            _ => false,
        },
{
    match &msg.photo {
        Some(ps) => {
            let text = caption_or_exec(&msg.caption, &chars_of("(photo)"));
            let file = if ps.len() > 0 {
                Some(
                    FileRequest {
                        file_id: copy_str(ps[ps.len() - 1].file_id.as_str()),
                        mime: copy_str("image/jpeg"),
                        filename: copy_str("photo.jpg"),
                    },
                )
            } else {
                None
            };
            return Some((text, file));
        },
        None => {},
    }
    match &msg.document {
        Some(d) => {
            let mime = match &d.mime_type {
                Some(m) => chars_of(m.as_str()),
                None => chars_of("application/octet-stream"),
            };
            let name = match &d.file_name {
                Some(n) => chars_of(n.as_str()),
                None => chars_of("file"),
            };
            let mut fallback: Vec<char> = Vec::new();
            extend_str(&mut fallback, "(document: ");
            extend_chars(&mut fallback, &name);
            extend_str(&mut fallback, ")");
            let text = caption_or_exec(&msg.caption, &fallback);
            let image = chars_of("image/");
            let file = if starts_with_chars(&mime, &image) {
                Some(
                    FileRequest {
                        file_id: copy_str(d.file_id.as_str()),
                        mime: string_of(&mime),
                        filename: string_of(&name),
                    },
                )
            } else {
                None
            };
            return Some((text, file));
        },
        None => {},
    }
    if msg.voice.is_some() {
        return Some((caption_or_exec(&msg.caption, &chars_of("(voice message)")), None));
    }
    if msg.video.is_some() {
        return Some((caption_or_exec(&msg.caption, &chars_of("(video)")), None));
    }
    match &msg.sticker {
        Some(st) => {
            let mut t: Vec<char> = Vec::new();
            extend_str(&mut t, "(sticker");
            match &st.emoji {
                Some(e) => {
                    extend_str(&mut t, " ");
                    extend_str(&mut t, e.as_str());
                },
                None => {},
            }
            extend_str(&mut t, ")");
            return Some((string_of(&t), None));
        },
        None => {},
    }
    match &msg.text {
        Some(t) => Some((copy_str(t.as_str()), None)),
        None => None,
    }
}

/// Whether a message replies to a message of the bot.
pub open spec fn reply_to_bot_spec(msg: Message, bot_id: i64) -> bool {
    match msg.reply_to_message {
        Some(r) => match r.from {
            Some(u) => u.id == bot_id,
            None => false,
        },
        None => false,
    }
}

/// Whether a message replies to a message of the bot.
pub fn is_reply_to_bot(msg: &Message, bot_id: i64) -> (r: bool)
    ensures
        r == reply_to_bot_spec(*msg, bot_id),
{
    match &msg.reply_to_message {
        Some(r) => match &r.from {
            Some(u) => u.id == bot_id,
            None => false,
        },
        None => false,
    }
}

/// A command the bot answers itself.
#[derive(Debug, Clone, Copy, PartialEq, Eq, Structural)]
pub enum Command {
    /// `/list_models`: list the models.
    ListModels,
    /// `/model` alone: show the model picker.
    ModelPicker,
    /// Anything else goes to the model.
    Other,
}

/// A command with its `@botname` suffix removed: from the first `@` up to the next
/// space.
pub open spec fn strip_at(c: Seq<char>) -> Seq<char> {
    let pos = next_of(c, 0, '@');
    if pos >= c.len() {
        c
    } else {
        c.take(pos) + c.skip(next_of(c, pos, ' '))
    }
}

/// The command of a message text for the given mention patterns.
pub open spec fn command_spec(text: Seq<char>, ps: Seq<Seq<char>>) -> Command {
    let cmd = trim_start(strip_mention_spec(text, ps));
    let clean = trim_start(strip_at(cmd));
    if has_prefix(clean, "/list_models"@) {
        Command::ListModels
    } else if trim(clean) == "/model"@ {
        Command::ModelPicker
    } else {
        Command::Other
    }
}

/// The command of a message text.
pub fn parse_command(text: &str, access: &Access, bot_username: &str) -> (r: Command)
    ensures
        r == command_spec(
            text@,
            mention_patterns_spec(string_views(access.mention_patterns@), bot_username@),
        ),
{
    let stripped = strip_mention(text, access, bot_username);
    let sv = chars_of(stripped.as_str());
    let cmd = trim_start_chars(&sv);
    let pos = find_char(&cmd, 0, '@');
    proof {
        lemma_next_of(cmd@, 0, '@');
    }
    let at_clean: Vec<char> = if pos >= cmd.len() {
        cmd
    } else {
        let sp = find_char(&cmd, pos, ' ');
        proof {
            lemma_next_of(cmd@, pos as int, ' ');
        }
        let mut v = slice_chars(&cmd, 0, pos);
        let tail = slice_chars(&cmd, sp, cmd.len());
        extend_chars(&mut v, &tail);
        assert(v@ =~= cmd@.take(pos as int) + cmd@.skip(sp as int));
        v
    };
    let clean = trim_start_chars(&at_clean);
    let list = chars_of("/list_models");
    if starts_with_chars(&clean, &list) {
        return Command::ListModels;
    }
    let t = trim_chars(&clean);
    let model = chars_of("/model");
    if crate::text::chars_eq(&t, &model) {
        Command::ModelPicker
    } else {
        Command::Other
    }
}

/// The model override of `/model provider/model rest` (or `/model=...`): the model
/// and the rest, trimmed. The pattern is `^/model[= ](\S+)\s*(.*)$`: the rest must
/// hold no newline.
pub open spec fn model_override_spec(s: Seq<char>) -> Option<(Seq<char>, Seq<char>)> {
    let b = ws_from(s, 7);
    let c = crate::text::leading_ws(s.skip(b)) + b;
    if has_prefix(s, "/model"@) && s.len() > 6 && (s[6] == '=' || s[6] == ' ') && b > 7
        && !s.skip(c).contains('\n') {
        Some((s.subrange(7, b), trim(s.skip(c))))
    } else {
        None
    }
}

/// First whitespace position at or after `k`, or the length of `s`.
pub open spec fn ws_from(s: Seq<char>, k: int) -> int
    decreases s.len() - k,
{
    if k < 0 || k >= s.len() {
        s.len() as int
    } else if is_ws(s[k]) {
        k
    } else {
        ws_from(s, k + 1)
    }
}

proof fn lemma_ws_from(s: Seq<char>, k: int)
    requires
        0 <= k <= s.len(),
    ensures
        k <= ws_from(s, k) <= s.len(),
    decreases s.len() - k,
{
    if k < s.len() && !is_ws(s[k]) {
        lemma_ws_from(s, k + 1);
    }
}

/// The model override a message text carries.
pub fn parse_model_override(text: &str) -> (r: Option<(String, String)>)
    ensures
        match (r, model_override_spec(text@)) {
            (None, None) => true,
            (Some((m, rest)), Some((ms, rs))) => m@ == ms && rest@ == rs,
            _ => false,
        },
{
    let s = chars_of(text);
    let prefix = chars_of("/model");
    if !starts_with_chars(&s, &prefix) || s.len() <= 6 || !(s[6] == '=' || s[6] == ' ') {
        return None;
    }
    let mut b: usize = 7;
    while b < s.len() && !crate::text::is_whitespace(s[b])
        invariant
            7 <= b <= s.len(),
            ws_from(s@, 7) == ws_from(s@, b as int),
        decreases s.len() - b,
    {
        b = b + 1;
    }
    proof {
        lemma_ws_from(s@, b as int);
    }
    if b <= 7 {
        return None;
    }
    let c = skip_ws(&s, b);
    proof {
        let t = s@.skip(b as int);
        assert forall|q: int| 0 <= q < c - b implies is_ws(#[trigger] t[q]) by {
            assert(t[q] == s@[b + q]);
        }
        if c < s.len() {
            assert(t[c - b] == s@[c as int]);
        }
        lemma_leading_ws_unique(t, c - b);
    }
    let rest = slice_chars(&s, c, s.len());
    assert(rest@ =~= s@.skip(c as int));
    if contains_char(&rest, '\n') {
        return None;
    }
    let model = slice_chars(&s, 7, b);
    let rest_t = trim_chars(&rest);
    Some((string_of(&model), string_of(&rest_t)))
}

/// The prompt text: the message without its mention, or the whole message when
/// nothing else is left.
pub fn prompt_text(clean_text: &str, text: &str) -> (r: String)
    ensures
        r@ == if clean_text@.len() == 0 {
            text@
        } else {
            clean_text@
        },
{
    if clean_text.is_empty() {
        copy_str(text)
    } else {
        copy_str(clean_text)
    }
}

/// The name a sender goes by: the username, else the first name, else `unknown`.
pub open spec fn display_name_spec(user: Option<User>) -> Seq<char> {
    match user {
        Some(u) => match u.username {
            Some(n) => n@,
            None => u.first_name@,
        },
        None => "unknown"@,
    }
}

/// The name a sender goes by.
pub fn display_name(user: &Option<User>) -> (r: String)
    ensures
        r@ == display_name_spec(*user),
{
    match user {
        Some(u) => match &u.username {
            Some(n) => copy_str(n.as_str()),
            None => copy_str(u.first_name.as_str()),
        },
        None => copy_str("unknown"),
    }
}

/// The title of a new session: `Telegram DM: name` for private chats, else
/// `Telegram: ` and the chat's title (or its id).
pub open spec fn session_title_spec(chat: Chat, chat_id: Seq<char>, username: Seq<char>) -> Seq<char> {
    if chat.chat_type@ == "private"@ {
        "Telegram DM: "@ + username
    } else {
        "Telegram: "@ + match chat.title {
            Some(t) => t@,
            None => chat_id,
        }
    }
}

/// The title of a new session.
pub fn session_title(chat: &Chat, chat_id: &str, username: &str) -> (r: String)
    ensures
        r@ == session_title_spec(*chat, chat_id@, username@),
{
    let mut out: Vec<char> = Vec::new();
    if str_eq(chat.chat_type.as_str(), "private") {
        extend_str(&mut out, "Telegram DM: ");
        extend_str(&mut out, username);
    } else {
        extend_str(&mut out, "Telegram: ");
        match &chat.title {
            Some(t) => extend_str(&mut out, t.as_str()),
            None => extend_str(&mut out, chat_id),
        }
    }
    string_of(&out)
}

/// The timestamp of a prompt: whole seconds since the epoch followed by `Z`.
pub open spec fn stamp_spec(secs: u64) -> Seq<char> {
    dec(secs as nat) + seq!['Z']
}

/// The timestamp for a number of seconds since the epoch.
pub fn iso_stamp(secs: u64) -> (r: String)
    ensures
        r@ == stamp_spec(secs),
{
    let mut out: Vec<char> = Vec::new();
    push_dec(&mut out, secs);
    out.push('Z');
    string_of(&out)
}

/// The timestamp of now (zero seconds when the clock reads before the epoch).
pub fn chrono_now_iso() -> (r: String)
    ensures
        exists|secs: u64| r@ == stamp_spec(secs),
{
    let ms = crate::clock::now_millis();
    iso_stamp(ms / 1000)
}

/// The prompt: the user's text, escaped for XML, inside a `<channel>` element that
/// records where it came from.
pub open spec fn prompt_spec(
    chat_id: Seq<char>,
    msg_id: i64,
    username: Seq<char>,
    sender_id: Seq<char>,
    ts: Seq<char>,
    text: Seq<char>,
) -> Seq<char> {
    "<channel source=\"telegram\" chat_id=\""@ + chat_id + "\" message_id=\""@ + dec_int(
        msg_id as int,
    ) + "\" user=\""@ + escape_seq(CharEscape::Xml, username) + "\" user_id=\""@ + sender_id
        + "\" ts=\""@ + ts + "\">\n"@ + escape_seq(CharEscape::Xml, text) + "\n</channel>"@
}

/// Builds the prompt for opencode.
pub fn build_prompt(
    chat_id: &str,
    msg_id: i64,
    username: &str,
    sender_id: &str,
    ts: &str,
    text: &str,
) -> (r: String)
    ensures
        r@ == prompt_spec(chat_id@, msg_id, username@, sender_id@, ts@, text@),
{
    let safe_text = crate::markdown::sanitize_for_xml(text);
    let safe_username = crate::markdown::sanitize_for_xml(username);
    let mut out: Vec<char> = Vec::new();
    extend_str(&mut out, "<channel source=\"telegram\" chat_id=\"");
    extend_str(&mut out, chat_id);
    extend_str(&mut out, "\" message_id=\"");
    push_dec_i64(&mut out, msg_id);
    extend_str(&mut out, "\" user=\"");
    extend_str(&mut out, safe_username.as_str());
    extend_str(&mut out, "\" user_id=\"");
    extend_str(&mut out, sender_id);
    extend_str(&mut out, "\" ts=\"");
    extend_str(&mut out, ts);
    extend_str(&mut out, "\">\n");
    extend_str(&mut out, safe_text.as_str());
    extend_str(&mut out, "\n</channel>");
    string_of(&out)
}

/// The key under which a model override is kept: `chat:message`.
pub fn override_key(chat_id: &str, msg_id: i64) -> (r: String)
    ensures
        r@ == chat_id@ + seq![':'] + dec_int(msg_id as int),
{
    let mut out: Vec<char> = Vec::new();
    extend_str(&mut out, chat_id);
    out.push(':');
    push_dec_i64(&mut out, msg_id);
    string_of(&out)
}

/// The text of a chat id.
pub fn chat_id_text(id: i64) -> (r: String)
    ensures
        r@ == dec_int(id as int),
{
    let mut out: Vec<char> = Vec::new();
    push_dec_i64(&mut out, id);
    string_of(&out)
}

/// Confirmation of a model choice.
pub fn model_set_text(model: &str) -> (r: String)
    ensures
        r@ == "Model set to "@ + model@ + ". Reply to this message to start a new session."@,
{
    let mut out: Vec<char> = Vec::new();
    extend_str(&mut out, "Model set to ");
    extend_str(&mut out, model);
    extend_str(&mut out, ". Reply to this message to start a new session.");
    string_of(&out)
}

/// The notice shown on a chosen model's button press.
pub fn selected_text(model: &str) -> (r: String)
    ensures
        r@ == "Selected: "@ + model@,
{
    let mut out: Vec<char> = Vec::new();
    extend_str(&mut out, "Selected: ");
    extend_str(&mut out, model);
    string_of(&out)
}

/// The answer to `/list_models`: a heading line, then one indented line per model.
pub open spec fn model_list_spec(models: Seq<ModelEntry>) -> Seq<char> {
    crate::markdown::join_nl(
        seq!["Available models:\n"@] + models.map_values(|m: ModelEntry| "  "@ + m.full_id@),
    )
}

/// The answer to `/list_models`.
pub fn list_models_text(models: &Vec<ModelEntry>) -> (r: String)
    ensures
        r@ == model_list_spec(models@),
{
    let ghost parts = seq!["Available models:\n"@] + models@.map_values(
        |m: ModelEntry| "  "@ + m.full_id@,
    );
    let mut out: Vec<char> = Vec::new();
    extend_str(&mut out, "Available models:\n");
    assert(parts.take(1) =~= seq!["Available models:\n"@]);
    let mut k: usize = 0;
    while k < models.len()
        invariant
            k <= models.len(),
            parts == seq!["Available models:\n"@] + models@.map_values(
                |m: ModelEntry| "  "@ + m.full_id@,
            ),
            out@ == crate::markdown::join_nl(parts.take(k + 1)),
        decreases models.len() - k,
    {
        let ghost before = out@;
        out.push('\n');
        extend_str(&mut out, "  ");
        extend_str(&mut out, models[k].full_id.as_str());
        proof {
            let t = parts.take(k + 2);
            assert(t.drop_last() =~= parts.take(k + 1));
            assert(t.last() == "  "@ + models@[k as int].full_id@);
            assert(out@ =~= crate::markdown::join_nl(t));
        }
        k = k + 1;
    }
    assert(parts.take(k + 1) =~= parts);
    string_of(&out)
}

/// What a button press asks for.
pub enum CallbackAction {
    /// `model:<id>`: choose that model.
    SelectModel(String),
    /// `modelpage:<n>`: show page `n` of the picker.
    Page(usize),
    /// `stop:<session>`: stop the prompt running in that session.
    Stop(String),
    /// `noop`: just acknowledge.
    Noop,
    /// Anything else.
    Ignore,
}

/// `usize::from_str`: an optional `+`, then one or more ASCII digits whose value fits.
pub open spec fn parse_usize_spec(s: Seq<char>) -> Option<nat> {
    parse_digits(
        if s.len() > 0 && s[0] == '+' {
            s.skip(1)
        } else {
            s
        },
    )
}

/// One or more ASCII digits whose value fits in `usize`.
pub open spec fn parse_digits(d: Seq<char>) -> Option<nat> {
    if d.len() > 0 && (forall|i: int| 0 <= i < d.len() ==> is_ascii_digit(#[trigger] d[i]))
        && dec_value(d) <= usize::MAX {
        Some(dec_value(d))
    } else {
        None
    }
}

/// Parses an unsigned number as `str::parse::<usize>` does.
pub fn parse_usize(s: &Vec<char>) -> (r: Option<usize>)
    ensures
        match (r, parse_usize_spec(s@)) {
            (Some(x), Some(y)) => x as nat == y,
            (None, None) => true,
            _ => false,
        },
{
    let start: usize = if s.len() > 0 && s[0] == '+' {
        1
    } else {
        0
    };
    let ghost d = s@.skip(start as int);
    assert(d =~= (if s@.len() > 0 && s@[0] == '+' {
        s@.skip(1)
    } else {
        s@
    }));
    if start >= s.len() {
        return None;
    }
    let mut val: u128 = 0;
    let mut i = start;
    assert(s@.subrange(start as int, start as int) =~= Seq::<char>::empty());
    while i < s.len()
        invariant
            start <= i <= s.len(),
            d == s@.skip(start as int),
            d == (if s@.len() > 0 && s@[0] == '+' {
                s@.skip(1)
            } else {
                s@
            }),
            forall|k: int| start <= k < i ==> is_ascii_digit(#[trigger] s@[k]),
            val as nat == dec_value(s@.subrange(start as int, i as int)),
            val <= usize::MAX,
        decreases s.len() - i,
    {
        let c = s[i];
        if !('0' <= c && c <= '9') {
            assert(d[i - start] == s@[i as int]);
            assert(!is_ascii_digit(d[i - start]));
            assert(!(forall|k: int| 0 <= k < d.len() ==> is_ascii_digit(#[trigger] d[k])));
            assert(parse_usize_spec(s@) == parse_digits(d));
            assert(parse_usize_spec(s@) is None);
            return None;
        }
        let ghost prev = s@.subrange(start as int, i as int);
        let ghost next = s@.subrange(start as int, i + 1);
        assert(next.drop_last() =~= prev);
        let digit: u128 = (c as u32 - 48) as u128;
        val = val * 10 + digit;
        if val > usize::MAX as u128 {
            proof {
                if forall|k: int| 0 <= k < d.len() ==> is_ascii_digit(#[trigger] d[k]) {
                    assert(s@.subrange(start as int, i + 1) =~= d.take(i + 1 - start));
                    lemma_dec_value_grows(s@.subrange(start as int, i + 1), d);
                    assert(dec_value(d) > usize::MAX);
                }
                assert(parse_usize_spec(s@) is None);
            }
            return None;
        }
        i = i + 1;
    }
    assert(s@.subrange(start as int, i as int) =~= d);
    assert forall|k: int| 0 <= k < d.len() implies is_ascii_digit(#[trigger] d[k]) by {
        assert(d[k] == s@[start + k]);
    }
    Some(val as usize)
}

/// Extending digits never lowers their value.
proof fn lemma_dec_value_grows(p: Seq<char>, d: Seq<char>)
    requires
        p.len() <= d.len(),
        p == d.take(p.len() as int),
        forall|i: int| 0 <= i < d.len() ==> is_ascii_digit(#[trigger] d[i]),
    ensures
        dec_value(p) <= dec_value(d),
    decreases d.len() - p.len(),
{
    if p.len() < d.len() {
        let q = d.take(p.len() + 1int);
        assert(q.drop_last() =~= p);
        assert(is_ascii_digit(q.last()));
        assert(dec_value(q) == dec_value(p) * 10 + ((q.last() as int) - 48) as nat);
        assert(dec_value(p) <= dec_value(q)) by (nonlinear_arith)
            requires
                dec_value(q) == dec_value(p) * 10 + ((q.last() as int) - 48) as nat,
        ;
        lemma_dec_value_grows(q, d);
    } else {
        assert(p =~= d);
    }
}

/// The abstract value of a button action.
pub enum CallbackView {
    SelectModel(Seq<char>),
    Page(nat),
    Stop(Seq<char>),
    Noop,
    Ignore,
}

/// The abstract value of a button action.
pub open spec fn action_view(a: CallbackAction) -> CallbackView {
    match a {
        CallbackAction::SelectModel(m) => CallbackView::SelectModel(m@),
        CallbackAction::Page(n) => CallbackView::Page(n as nat),
        CallbackAction::Stop(sid) => CallbackView::Stop(sid@),
        CallbackAction::Noop => CallbackView::Noop,
        CallbackAction::Ignore => CallbackView::Ignore,
    }
}

/// What a button press asks for: `model:` and the model, `modelpage:` and a page
/// number, `stop:` and a session, `noop`; anything else (a bad page number too) is
/// ignored.
pub open spec fn callback_spec(d: Seq<char>) -> CallbackView {
    if has_prefix(d, "model:"@) {
        CallbackView::SelectModel(d.skip(6))
    } else if has_prefix(d, "modelpage:"@) {
        match parse_usize_spec(d.skip(10)) {
            Some(n) => CallbackView::Page(n),
            None => CallbackView::Ignore,
        }
    } else if has_prefix(d, "stop:"@) {
        CallbackView::Stop(d.skip(5))
    } else if d == "noop"@ {
        CallbackView::Noop
    } else {
        CallbackView::Ignore
    }
}

/// Parses the data of a button press.
pub fn parse_callback(data: &str) -> (r: CallbackAction)
    ensures
        action_view(r) == callback_spec(data@),
{
    let d = chars_of(data);
    let model_tag = chars_of("model:");
    assert(model_tag@.len() == 6) by {
        reveal_strlit("model:");
    }
    if starts_with_chars(&d, &model_tag) {
        let m = slice_chars(&d, 6, d.len());
        assert(m@ =~= data@.skip(6));
        return CallbackAction::SelectModel(string_of(&m));
    }
    let page_tag = chars_of("modelpage:");
    assert(page_tag@.len() == 10) by {
        reveal_strlit("modelpage:");
    }
    if starts_with_chars(&d, &page_tag) {
        let rest = slice_chars(&d, 10, d.len());
        assert(rest@ =~= data@.skip(10));
        return match parse_usize(&rest) {
            Some(n) => CallbackAction::Page(n),
            None => CallbackAction::Ignore,
        };
    }
    let stop_tag = chars_of("stop:");
    assert(stop_tag@.len() == 5) by {
        reveal_strlit("stop:");
    }
    if starts_with_chars(&d, &stop_tag) {
        let sid = slice_chars(&d, 5, d.len());
        assert(sid@ =~= data@.skip(5));
        return CallbackAction::Stop(string_of(&sid));
    }
    if str_eq(data, "noop") {
        CallbackAction::Noop
    } else {
        CallbackAction::Ignore
    }
}

/// The chat to notify of an approved pairing: the content of the approval file,
/// trimmed, when not empty.
pub fn approved_chat_id(contents: &str) -> (r: Option<String>)
    ensures
        trim(contents@).len() == 0 ==> r is None,
        trim(contents@).len() > 0 ==> (r matches Some(c) && c@ == trim(contents@)),
{
    let v = chars_of(contents);
    let t = trim_chars(&v);
    if t.len() == 0 {
        None
    } else {
        Some(string_of(&t))
    }
}

/// Longest wait between two attempts to reconnect to the event stream, in seconds.
pub const MAX_BACKOFF_SECS: u64 = 30;

/// The wait before the next reconnection attempt: twice the last, at most thirty seconds.
pub fn next_backoff_secs(delay: u64) -> (r: u64)
    ensures
        r == if 2 * delay < MAX_BACKOFF_SECS {
            2 * delay
        } else {
            MAX_BACKOFF_SECS as int
        },
        r <= MAX_BACKOFF_SECS,
{
    if delay < MAX_BACKOFF_SECS / 2 + 1 && 2 * delay < MAX_BACKOFF_SECS {
        2 * delay
    } else {
        MAX_BACKOFF_SECS
    }
}

/// Attempts to reconnect to the event stream before giving up.
pub const MAX_RECONNECT_ATTEMPTS: u32 = 10;

/// Wait before the first reconnection attempt, in seconds.
pub const FIRST_BACKOFF_SECS: u64 = 2;

/// Where reconnection stands: the attempt about to be made and the wait before it.
pub struct Reconnect {
    pub attempt: u32,
    pub delay_secs: u64,
}

impl Reconnect {
    /// The first attempt, after two seconds.
    pub fn start() -> (r: Self)
        ensures
            r.attempt == 1,
            r.delay_secs == FIRST_BACKOFF_SECS,
    {
        Reconnect { attempt: 1, delay_secs: FIRST_BACKOFF_SECS }
    }

    /// After a failed attempt: the next one with a doubled wait (at most thirty
    /// seconds), or `None` once the last attempt has failed.
    pub fn after_failure(&self) -> (r: Option<Reconnect>)
        ensures
            self.attempt >= MAX_RECONNECT_ATTEMPTS ==> r is None,
            self.attempt < MAX_RECONNECT_ATTEMPTS ==> (r matches Some(n) && n.attempt
                == self.attempt + 1 && n.delay_secs == if 2 * self.delay_secs < MAX_BACKOFF_SECS {
                2 * self.delay_secs
            } else {
                MAX_BACKOFF_SECS as int
            }),
    {
        if self.attempt >= MAX_RECONNECT_ATTEMPTS {
            None
        } else {
            Some(Reconnect { attempt: self.attempt + 1, delay_secs: next_backoff_secs(self.delay_secs) })
        }
    }
}

// ---------------------------------------------------------------------------
// Session of a message
// ---------------------------------------------------------------------------

/// The next step in finding the session a message continues.
pub enum SessionStep {
    /// Look up the session of the replied-to bot message.
    ByMessage(i64),
    /// Look up the chat's latest session.
    Latest,
    /// Create a new session.
    Create,
    /// Continue this session.
    Continue(String),
}

/// The first step: a mention in a group starts a new session, a reply to the bot
/// asks for the session of the replied-to message, anything else for the chat's
/// latest session.
pub fn first_session_step(force_new: bool, reply_to_bot: bool, replied: Option<i64>) -> (r:
    SessionStep)
    ensures
        force_new ==> r is Create,
        !force_new && reply_to_bot && replied is Some ==> r == SessionStep::ByMessage(replied->0),
        !force_new && !(reply_to_bot && replied is Some) ==> r is Latest,
{
    if force_new {
        SessionStep::Create
    } else if reply_to_bot {
        match replied {
            Some(m) => SessionStep::ByMessage(m),
            None => SessionStep::Latest,
        }
    } else {
        SessionStep::Latest
    }
}

/// After the look-up of the replied-to message: its session when it has one, else the
/// chat's latest.
pub fn after_message_lookup(found: Option<String>) -> (r: SessionStep)
    ensures
        match found {
            Some(s) => r == SessionStep::Continue(s),
            None => r is Latest,
        },
{
    match found {
        Some(s) => SessionStep::Continue(s),
        None => SessionStep::Latest,
    }
}

/// After the look-up of the chat's latest session: that session when there is one,
/// else a new session.
pub fn after_latest_lookup(found: Option<String>) -> (r: SessionStep)
    ensures
        match found {
            Some(s) => r == SessionStep::Continue(s),
            None => r is Create,
        },
{
    match found {
        Some(s) => SessionStep::Continue(s),
        None => SessionStep::Create,
    }
}

// ---------------------------------------------------------------------------
// Routing and planning
// ---------------------------------------------------------------------------

/// Where an incoming message goes.
#[derive(Debug, Clone, Copy, PartialEq, Eq, Structural)]
pub enum Route {
    /// Answer `/list_models`.
    ListModels,
    /// Show the model picker.
    ModelPicker,
    /// Ignore the message.
    Deny,
    /// Run the pairing flow.
    Pair,
    /// Send the message to the model.
    Process,
}

/// The route of a message: the bot's own commands are answered first (for anyone),
/// then the access check decides.
pub open spec fn route_spec(ctx: GateContext) -> Route {
    match command_spec(
        ctx.text@,
        mention_patterns_spec(string_views(ctx.access.mention_patterns@), ctx.bot_username@),
    ) {
        Command::ListModels => Route::ListModels,
        Command::ModelPicker => Route::ModelPicker,
        Command::Other => match gate_spec(
            *ctx.access,
            ctx.chat_type@,
            ctx.chat_id@,
            ctx.sender_id@,
            ctx.text@,
            ctx.bot_username@,
            ctx.reply_to_bot,
        ) {
            GateResult::Deny => Route::Deny,
            GateResult::Pair => Route::Pair,
            GateResult::Allow => Route::Process,
        },
    }
}

/// Decides where an incoming message goes.
pub fn route_message(ctx: &GateContext) -> (r: Route)
    ensures
        r == route_spec(*ctx),
{
    match parse_command(ctx.text, ctx.access, ctx.bot_username) {
        Command::ListModels => Route::ListModels,
        Command::ModelPicker => Route::ModelPicker,
        Command::Other => match gate(ctx) {
            GateResult::Deny => Route::Deny,
            GateResult::Pair => Route::Pair,
            GateResult::Allow => Route::Process,
        },
    }
}

/// What to do with a message that goes to the model.
pub struct PromptPlan {
    /// The model named in the message (`/model provider/model ...`).
    pub model_override: Option<String>,
    /// The message only sets the model: confirm it and send nothing to the model.
    pub model_only: bool,
    /// Take the model set by the replied-to confirmation message.
    pub use_reply_override: bool,
    /// The text to send.
    pub prompt_text: String,
    /// A mention in a group starts a new session.
    pub force_new_session: bool,
    /// A direct chat (no progress placeholder is sent there).
    pub is_dm: bool,
}

/// The plan for a message text (with or without attached files).
pub fn plan_prompt(
    text: &str,
    access: &Access,
    bot_username: &str,
    chat_type: &str,
    reply_to_bot: bool,
    has_files: bool,
) -> (r: PromptPlan)
    ensures
        ({
            let ps = mention_patterns_spec(string_views(access.mention_patterns@), bot_username@);
            let clean = strip_mention_spec(text@, ps);
            let ov = model_override_spec(clean);
            let clean2 = match ov {
                Some((_, rest)) => rest,
                None => clean,
            };
            &&& match (r.model_override, ov) {
                (Some(m), Some((ms, _))) => m@ == ms,
                (None, None) => true,
                _ => false,
            }
            &&& r.model_only == (ov is Some && clean2.len() == 0 && !has_files)
            &&& r.use_reply_override == (ov is None && reply_to_bot)
            &&& r.prompt_text@ == (if clean2.len() == 0 {
                text@
            } else {
                clean2
            })
            &&& r.force_new_session == (is_group_chat(chat_type@) && starts_with_mention(
                text@,
                ps,
            ))
            &&& r.is_dm == (chat_type@ == "private"@)
        }),
{
    let clean = strip_mention(text, access, bot_username);
    let ov = parse_model_override(clean.as_str());
    let (model_override, clean2) = match ov {
        Some((m, rest)) => (Some(m), rest),
        None => (None, clean),
    };
    let model_only = model_override.is_some() && clean2.as_str().is_empty() && !has_files;
    let use_reply_override = model_override.is_none() && reply_to_bot;
    let prompt = prompt_text(clean2.as_str(), text);
    let force_new_session = group_chat(chat_type) && mentions_bot(text, access, bot_username);
    let is_dm = str_eq(chat_type, "private");
    PromptPlan {
        model_override,
        model_only,
        use_reply_override,
        prompt_text: prompt,
        force_new_session,
        is_dm,
    }
}

/// `i64::from_str`: an optional sign, then one or more ASCII digits whose value fits.
pub open spec fn parse_i64_spec(s: Seq<char>) -> Option<int> {
    if s.len() > 0 && (s[0] == '+' || s[0] == '-') {
        signed_digits(s.skip(1), s[0] == '-')
    } else {
        signed_digits(s, false)
    }
}

/// One or more ASCII digits whose value, negated when `neg`, fits in `i64`.
pub open spec fn signed_digits(d: Seq<char>, neg: bool) -> Option<int> {
    if d.len() > 0 && (forall|i: int| 0 <= i < d.len() ==> is_ascii_digit(#[trigger] d[i])) && (
    if neg {
        dec_value(d) <= 0x8000_0000_0000_0000
    } else {
        dec_value(d) <= 0x7FFF_FFFF_FFFF_FFFF
    }) {
        Some(
            if neg {
                -(dec_value(d) as int)
            } else {
                dec_value(d) as int
            },
        )
    } else {
        None
    }
}

/// The numeric chat id of a chat id text, zero when it is not a number (as
/// `parse().unwrap_or(0)` gives it).
pub fn parse_chat_id(s: &str) -> (r: i64)
    ensures
        r == match parse_i64_spec(s@) {
            Some(v) => v,
            None => 0,
        },
{
    let v = chars_of(s);
    let neg = v.len() > 0 && v[0] == '-';
    let start: usize = if v.len() > 0 && (v[0] == '+' || v[0] == '-') {
        1
    } else {
        0
    };
    let ghost d = v@.skip(start as int);
    assert(d =~= (if v@.len() > 0 && (v@[0] == '+' || v@[0] == '-') {
        v@.skip(1)
    } else {
        v@
    }));
    if start >= v.len() {
        return 0;
    }
    let bound: u128 = if neg {
        0x8000_0000_0000_0000
    } else {
        0x7FFF_FFFF_FFFF_FFFF
    };
    let mut val: u128 = 0;
    let mut i = start;
    assert(v@.subrange(start as int, start as int) =~= Seq::<char>::empty());
    while i < v.len()
        invariant
            start <= i <= v.len(),
            v@ == s@,
            d == v@.skip(start as int),
            d == (if v@.len() > 0 && (v@[0] == '+' || v@[0] == '-') {
                v@.skip(1)
            } else {
                v@
            }),
            neg == (v@.len() > 0 && v@[0] == '-'),
            bound == if neg {
                0x8000_0000_0000_0000u128
            } else {
                0x7FFF_FFFF_FFFF_FFFFu128
            },
            forall|k: int| start <= k < i ==> is_ascii_digit(#[trigger] v@[k]),
            val as nat == dec_value(v@.subrange(start as int, i as int)),
            val <= bound,
        decreases v.len() - i,
    {
        let c = v[i];
        if !('0' <= c && c <= '9') {
            assert(d[i - start] == v@[i as int]);
            assert(!is_ascii_digit(d[i - start]));
            assert(!(forall|k: int| 0 <= k < d.len() ==> is_ascii_digit(#[trigger] d[k])));
            assert(parse_i64_spec(v@) == signed_digits(d, neg));
            assert(parse_i64_spec(v@) is None);
            return 0;
        }
        let ghost prev = v@.subrange(start as int, i as int);
        let ghost next = v@.subrange(start as int, i + 1);
        assert(next.drop_last() =~= prev);
        let digit: u128 = (c as u32 - 48) as u128;
        val = val * 10 + digit;
        if val > bound {
            proof {
                if forall|k: int| 0 <= k < d.len() ==> is_ascii_digit(#[trigger] d[k]) {
                    assert(v@.subrange(start as int, i + 1) =~= d.take(i + 1 - start));
                    lemma_dec_value_grows(v@.subrange(start as int, i + 1), d);
                }
                assert(parse_i64_spec(v@) == signed_digits(d, neg));
                assert(parse_i64_spec(v@) is None);
            }
            return 0;
        }
        i = i + 1;
    }
    assert(v@.subrange(start as int, i as int) =~= d);
    assert forall|k: int| 0 <= k < d.len() implies is_ascii_digit(#[trigger] d[k]) by {
        assert(d[k] == v@[start + k]);
    }
    assert(parse_i64_spec(v@) == signed_digits(d, neg));
    if neg {
        let m: i128 = -(val as i128);
        m as i64
    } else {
        val as i64
    }
}

/// Most model overrides kept at once; the oldest goes first when a new one comes.
pub const MAX_OVERRIDES: usize = 5000;

/// Models chosen with `/model` or the picker, keyed by the confirmation message
/// (`chat:message`), waiting for a reply that starts a session. At most
/// `MAX_OVERRIDES` are kept, the oldest evicted first.
pub struct ModelOverrides {
    entries: Vec<(String, String)>,
}

/// The abstract map of the overrides.
pub open spec fn override_pairs(e: Seq<(String, String)>) -> Seq<(Seq<char>, Seq<char>)> {
    e.map_values(|x: (String, String)| (x.0@, x.1@))
}

impl ModelOverrides {
    /// The overrides, in order of first insertion.
    pub closed spec fn spec_pairs(&self) -> Seq<(Seq<char>, Seq<char>)> {
        override_pairs(self.entries@)
    }

    /// The model kept under a key, if any.
    pub open spec fn lookup(&self, key: Seq<char>) -> Option<Seq<char>> {
        let i = crate::access::key_index(self.spec_pairs(), key, 0);
        if i >= 0 {
            Some(self.spec_pairs()[i].1)
        } else {
            None
        }
    }

    /// Keys are unique and there are at most `MAX_OVERRIDES` of them.
    pub open spec fn wf(&self) -> bool {
        &&& crate::access::unique_keys(self.spec_pairs())
        &&& self.spec_pairs().len() <= MAX_OVERRIDES
    }

    /// No overrides.
    pub fn new() -> (r: Self)
        ensures
            r.wf(),
            forall|k: Seq<char>| r.lookup(k) is None,
    {
        let r = ModelOverrides { entries: Vec::new() };
        assert forall|k: Seq<char>| r.lookup(k) is None by {
            assert(r.spec_pairs().len() == 0);
        }
        r
    }

    fn find(&self, key: &str) -> (r: usize)
        ensures
            r < self.spec_pairs().len() ==> r == crate::access::key_index(self.spec_pairs(), key@, 0),
            r >= self.spec_pairs().len() ==> crate::access::key_index(self.spec_pairs(), key@, 0)
                == -1,
            r <= self.spec_pairs().len(),
    {
        let ghost ks = override_pairs(self.entries@);
        let mut i: usize = 0;
        while i < self.entries.len()
            invariant
                i <= self.entries.len(),
                ks == override_pairs(self.entries@),
                crate::access::key_index(ks, key@, 0) == crate::access::key_index(ks, key@, i as int),
            decreases self.entries.len() - i,
        {
            assert(ks[i as int].0 == self.entries@[i as int].0@);
            if str_eq(self.entries[i].0.as_str(), key) {
                return i;
            }
            i = i + 1;
        }
        i
    }

    /// Keeps `model` under `key`, replacing what was there; when the key is new and the
    /// table is full, the oldest override is evicted first.
    pub fn insert(&mut self, key: String, model: String)
        requires
            old(self).wf(),
        ensures
            inserted(*old(self), *final(self), key@, model@),
    {
        let i = self.find(key.as_str());
        let ghost before = *self;
        proof {
            crate::access::lemma_key_index(self.spec_pairs(), key@, 0);
        }
        if i >= self.entries.len() && self.entries.len() >= MAX_OVERRIDES {
            let oldest = copy_str(self.entries[0].0.as_str());
            proof {
                assert(oldest@ == self.spec_pairs()[0].0);
                crate::access::lemma_key_index_at(self.spec_pairs(), oldest@, 0);
                assert(oldest@ != key@);
            }
            let _ = self.take(oldest.as_str());
        }
        let ghost mid = *self;
        self.put(key, model);
        proof {
            assert forall|k: Seq<char>| k != key@ implies #[trigger] self.lookup(k) == (if evicted(
                before,
                key@,
            ) == Some(k) {
                None
            } else {
                before.lookup(k)
            }) by {
                assert(self.lookup(k) == mid.lookup(k));
            }
        }
    }

    /// Keeps `model` under `key` in a table that has room for it.
    fn put(&mut self, key: String, model: String)
        requires
            crate::access::unique_keys(old(self).spec_pairs()),
            old(self).spec_pairs().len() <= MAX_OVERRIDES,
            old(self).lookup(key@) is Some || old(self).spec_pairs().len() < MAX_OVERRIDES,
        ensures
            final(self).wf(),
            final(self).lookup(key@) == Some(model@),
            forall|k: Seq<char>| k != key@ ==> #[trigger] final(self).lookup(k) == old(self).lookup(k),
    {
        let i = self.find(key.as_str());
        let ghost kv = key@;
        let ghost mv = model@;
        let ghost before = override_pairs(self.entries@);
        proof {
            crate::access::lemma_key_index(before, kv, 0);
        }
        if i < self.entries.len() {
            let _ = self.entries.remove(i);
            self.entries.insert(i, (key, model));
            assert(override_pairs(self.entries@) =~= before.update(i as int, (kv, mv)));
        } else {
            self.entries.push((key, model));
            assert(override_pairs(self.entries@) =~= before.push((kv, mv)));
        }
        proof {
            let after = override_pairs(self.entries@);
            assert forall|a: int, b: int| 0 <= a < b < after.len() implies after[a].0
                != after[b].0 by {
                if i >= before.len() && b == before.len() {
                    assert(before[a].0 != kv);
                } else {
                    assert(after[a].0 == before[a].0);
                    assert(after[b].0 == before[b].0);
                }
            }
            crate::access::lemma_key_index(after, kv, 0);
            if i < before.len() {
                assert(after[i as int].0 == kv);
                assert(crate::access::key_index(after, kv, 0) == i) by {
                    if crate::access::key_index(after, kv, 0) < i {
                        let j = crate::access::key_index(after, kv, 0);
                        assert(after[j].0 == before[j].0);
                    }
                }
            } else {
                assert(after[before.len() as int].0 == kv);
                assert(crate::access::key_index(after, kv, 0) == before.len()) by {
                    let j = crate::access::key_index(after, kv, 0);
                    if 0 <= j < before.len() {
                        assert(after[j].0 == before[j].0);
                    }
                }
            }
            assert forall|k: Seq<char>| k != kv implies #[trigger] self.lookup(k) == lookup_in(
                before,
                k,
            ) by {
                crate::access::lemma_key_index(before, k, 0);
                crate::access::lemma_key_index(after, k, 0);
                let ja = crate::access::key_index(after, k, 0);
                let jb = crate::access::key_index(before, k, 0);
                if jb >= 0 {
                    assert(after[jb].0 == k);
                    if ja >= 0 && ja < jb {
                        assert(after[ja].0 == before[ja].0);
                    }
                    assert(ja == jb);
                    assert(after[jb].1 == before[jb].1);
                } else if ja >= 0 {
                    if ja < before.len() {
                        assert(after[ja].0 == before[ja].0);
                    }
                }
            }
        }
    }

    /// Takes out the model kept under `key`.
    pub fn take(&mut self, key: &str) -> (r: Option<String>)
        requires
            old(self).wf(),
        ensures
            taken(*old(self), *final(self), key@, crate::stream::opt_view(r)),
    {
        let i = self.find(key);
        let ghost before = override_pairs(self.entries@);
        proof {
            crate::access::lemma_key_index(before, key@, 0);
        }
        if i >= self.entries.len() {
            return None;
        }
        let (_, m) = self.entries.remove(i);
        proof {
            let after = override_pairs(self.entries@);
            assert(after =~= before.remove(i as int));
            assert forall|a: int| 0 <= a < after.len() implies #[trigger] after[a] == if a < i {
                before[a]
            } else {
                before[a + 1]
            } by {}
            assert forall|a: int, b: int| 0 <= a < b < after.len() implies after[a].0
                != after[b].0 by {
                assert(after[a] == if a < i {
                    before[a]
                } else {
                    before[a + 1]
                });
                assert(after[b] == if b < i {
                    before[b]
                } else {
                    before[b + 1]
                });
            }
            assert forall|m2: int| 0 <= m2 < after.len() implies #[trigger] after[m2].0 != key@ by {
                assert(after[m2] == if m2 < i {
                    before[m2]
                } else {
                    before[m2 + 1]
                });
            }
            crate::access::lemma_key_index(after, key@, 0);
            assert forall|k: Seq<char>| k != key@ implies #[trigger] self.lookup(k) == lookup_in(
                before,
                k,
            ) by {
                crate::access::lemma_key_index(before, k, 0);
                crate::access::lemma_key_index(after, k, 0);
                let ja = crate::access::key_index(after, k, 0);
                let jb = crate::access::key_index(before, k, 0);
                if jb >= 0 {
                    assert(jb != i);
                    let jj = if jb < i {
                        jb
                    } else {
                        jb - 1
                    };
                    assert(after[jj] == before[jb]);
                    if ja >= 0 && ja < jj {
                        assert(after[ja] == if ja < i {
                            before[ja]
                        } else {
                            before[ja + 1]
                        });
                    }
                    assert(ja == jj);
                } else if ja >= 0 {
                    assert(after[ja] == if ja < i {
                        before[ja]
                    } else {
                        before[ja + 1]
                    });
                }
            }
        }
        Some(m)
    }
}

/// The model kept under a key in a sequence of pairs.
pub open spec fn lookup_in(p: Seq<(Seq<char>, Seq<char>)>, key: Seq<char>) -> Option<Seq<char>> {
    let i = crate::access::key_index(p, key, 0);
    if i >= 0 {
        Some(p[i].1)
    } else {
        None
    }
}

/// `after` is `before` with `model` kept under `key`.
pub open spec fn inserted(
    before: ModelOverrides,
    after: ModelOverrides,
    key: Seq<char>,
    model: Seq<char>,
) -> bool {
    &&& after.wf()
    &&& after.lookup(key) == Some(model)
    &&& forall|k: Seq<char>|
        k != key ==> #[trigger] after.lookup(k) == if evicted(before, key) == Some(k) {
            None
        } else {
            before.lookup(k)
        }
}

/// The key evicted to make room for `key`: the oldest, when `key` is new and the table
/// is full.
pub open spec fn evicted(before: ModelOverrides, key: Seq<char>) -> Option<Seq<char>> {
    if before.lookup(key) is None && before.spec_pairs().len() >= MAX_OVERRIDES {
        Some(before.spec_pairs()[0].0)
    } else {
        None
    }
}

/// `after` is `before` with the model under `key` taken out, and `got` is what was
/// kept there.
pub open spec fn taken(
    before: ModelOverrides,
    after: ModelOverrides,
    key: Seq<char>,
    got: Option<Seq<char>>,
) -> bool {
    &&& after.wf()
    &&& got == before.lookup(key)
    &&& after.lookup(key) is None
    &&& forall|k: Seq<char>| k != key ==> #[trigger] after.lookup(k) == before.lookup(k)
    &&& after.spec_pairs().len() == if got is Some {
        before.spec_pairs().len() - 1
    } else {
        before.spec_pairs().len() as int
    }
}

/// A model kept under a key is what the next take of that key gives back; the take
/// leaves nothing under the key (a second take gives nothing); every other key keeps
/// what it had before the model was kept, except the oldest one when the table was full
/// and had to make room; and the table never holds more than `MAX_OVERRIDES`.
pub proof fn law_override_read_after_write(
    a: ModelOverrides,
    b: ModelOverrides,
    c: ModelOverrides,
    d: ModelOverrides,
    key: Seq<char>,
    model: Seq<char>,
    got: Option<Seq<char>>,
    again: Option<Seq<char>>,
)
    requires
        inserted(a, b, key, model),
        taken(b, c, key, got),
        taken(c, d, key, again),
    ensures
        got == Some(model),
        again is None,
        forall|k: Seq<char>| k != key && evicted(a, key) != Some(k) ==> #[trigger] c.lookup(k)
            == a.lookup(k),
        b.spec_pairs().len() <= MAX_OVERRIDES,
{
    assert forall|k: Seq<char>| k != key && evicted(a, key) != Some(k) implies #[trigger] c.lookup(
        k,
    ) == a.lookup(k) by {
        assert(b.lookup(k) == a.lookup(k));
    }
}

} // verus!
