# opencode-telegram-bot

A Telegram front end for [opencode](https://opencode.ai): messages sent to the bot
become prompts in opencode sessions, the model's reasoning, text and tool calls are
streamed back into a progress message, and the final answer is sent as Telegram
MarkdownV2.

## Layout

- `src/` — the library, verified with Verus. The bot's decisions live here, stated
  in `requires` / `ensures` contracts over spec functions:
  - `access` — the access check for groups and direct messages, mention
    detection, the pairing flow and the cached access configuration;
  - `message` — what a message says, bot commands, `/model` overrides (at most 5000,
    oldest evicted first), the prompt sent to opencode, button presses, routing of a
    message, which session it continues, and the reconnection schedule;
  - `queue` — prompts waiting while their session runs another one;
  - `stream` — the state of a prompt in progress, its throttled progress display,
    the table of active streams, event classification and the final reply texts;
  - `markdown` — conversion of model markdown to MarkdownV2, escaping, and
    splitting of long messages;
  - `sse` — framing of the opencode event stream;
  - `models` — the model list and its paged inline keyboard;
  - `config`, `download`, `opencode`, `telegram`, `session`, `clock`, `text` — paths,
    attachments, the server's and Telegram's objects, the session store interface,
    the wall clock and string helpers.
  Laws that relate several operations are public proof functions named `law_*`.
- `app/` — the program: HTTP clients for Telegram and opencode, the SQLite session
  store, reading and writing `access.json`, JSON field extraction, and the main loop.
  It hands plain values to the library and carries out what the library returns.
- `tests/` — tests of the library on concrete values.

## Running

The bot reads `TELEGRAM_BOT_TOKEN` from the environment, the opencode configuration
from `$XDG_CONFIG_HOME/opencode/opencode.json` (or `OPENCODE_CONFIG_PATH`), and keeps
its state in `$XDG_CONFIG_HOME/opencode_telegram_bot` (or `TELEGRAM_STATE_DIR`). The
`opencode` binary must be on `PATH`.
