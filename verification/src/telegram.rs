//! The Telegram Bot API objects the bot reads.
use vstd::prelude::*;
use crate::text::{extend_str, string_of};

verus! {

/// An incoming update: a message or a button press.
pub struct Update {
    pub update_id: i64,
    pub message: Option<Message>,
    pub callback_query: Option<CallbackQuery>,
}

/// A message.
pub struct Message {
    pub message_id: i64,
    pub from: Option<User>,
    pub chat: Chat,
    pub text: Option<String>,
    pub caption: Option<String>,
    pub photo: Option<Vec<PhotoSize>>,
    pub document: Option<Document>,
    pub voice: Option<Voice>,
    pub video: Option<Video>,
    pub sticker: Option<Sticker>,
    pub reply_to_message: Option<Box<Message>>,
    pub message_thread_id: Option<i64>,
}

/// A user or bot.
pub struct User {
    pub id: i64,
    pub is_bot: Option<bool>,
    pub first_name: String,
    pub username: Option<String>,
}

/// A chat; `chat_type` is `private`, `group`, `supergroup` or `channel`.
pub struct Chat {
    pub id: i64,
    pub chat_type: String,
    pub title: Option<String>,
}

/// One size of a photo.
pub struct PhotoSize {
    pub file_id: String,
    pub width: i64,
    pub height: i64,
}

/// A general file.
pub struct Document {
    pub file_id: String,
    pub file_name: Option<String>,
    pub mime_type: Option<String>,
}

/// A voice note.
pub struct Voice {
    pub file_id: String,
}

/// A video.
pub struct Video {
    pub file_id: String,
}

/// A sticker.
pub struct Sticker {
    pub file_id: String,
    pub emoji: Option<String>,
}

/// A press of an inline keyboard button.
pub struct CallbackQuery {
    pub id: String,
    pub from: User,
    pub message: Option<Message>,
    pub data: Option<String>,
}

/// A file ready for download.
pub struct TgFile {
    pub file_id: String,
    pub file_path: Option<String>,
}

/// The download address of a file for a bot token.
pub fn file_url(token: &str, file_path: &str) -> (r: String)
    ensures
        r@ == "https://api.telegram.org/file/bot"@ + token@ + "/"@ + file_path@,
{
    let mut out: Vec<char> = Vec::new();
    extend_str(&mut out, "https://api.telegram.org/file/bot");
    extend_str(&mut out, token);
    extend_str(&mut out, "/");
    extend_str(&mut out, file_path);
    string_of(&out)
}

/// The Bot API base address for a bot token.
pub fn api_base_url(token: &str) -> (r: String)
    ensures
        r@ == "https://api.telegram.org/bot"@ + token@,
{
    let mut out: Vec<char> = Vec::new();
    extend_str(&mut out, "https://api.telegram.org/bot");
    extend_str(&mut out, token);
    string_of(&out)
}

/// The outcome of a Bot API call from its response: the result when the call
/// succeeded and carried one; otherwise an error naming the method, with Telegram's
/// description of a failure, or `no result`.
pub fn api_outcome<T>(method: &str, ok: bool, result: Option<T>, description: Option<String>) -> (r:
    Result<T, String>)
    ensures
        ok && result is Some ==> r == Ok::<T, String>(result->0),
        ok && result is None ==> (r matches Err(e) && e@ == method@ + ": no result"@),
        !ok ==> (r matches Err(e) && e@ == method@ + ": "@ + match description {
            Some(d) => d@,
            None => Seq::<char>::empty(),
        }),
{
    if ok {
        match result {
            Some(v) => Ok(v),
            None => {
                let mut out: Vec<char> = Vec::new();
                extend_str(&mut out, method);
                extend_str(&mut out, ": no result");
                Err(string_of(&out))
            },
        }
    } else {
        let mut out: Vec<char> = Vec::new();
        extend_str(&mut out, method);
        extend_str(&mut out, ": ");
        match &description {
            Some(d) => extend_str(&mut out, d.as_str()),
            None => {},
        }
        proof {
            if description is None {
                assert(out@ =~= method@ + ": "@ + Seq::<char>::empty());
            }
        }
        Err(string_of(&out))
    }
}

} // verus!
