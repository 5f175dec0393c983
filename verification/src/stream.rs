//! Streaming state of a prompt in progress: what has arrived so far, the
//! throttled progress display, and the table of active streams that SSE events
//! update.
use vstd::prelude::*;
use crate::markdown::join_nl;
use crate::text::{
    byte_len, char_width, chars_of, copy_str, extend_chars, extend_str, lemma_byte_len_append,
    str_eq, string_of, string_views, utf8_width,
};
use crate::access::{key_index, lemma_key_index, lemma_key_index_at, lemma_key_index_same_keys};

verus! {

/// What the model is producing at the moment.
#[derive(Debug, Clone, Copy, PartialEq, Eq, Structural)]
pub enum Phase {
    Idle,
    Reasoning,
    Text,
}

/// Minimum time between two edits of a progress message in a group (Telegram allows
/// about twenty edits a minute per chat).
pub const EDIT_THROTTLE_MS: u64 = 1500;

/// Minimum time between two edits of a progress message in a direct chat.
pub const DM_THROTTLE_MS: u64 = 300;

/// Longest progress text shown, in bytes; longer text keeps its end.
pub const DISPLAY_LIMIT: usize = 3900;

/// The state of one streamed response. Times are milliseconds of the wall clock.
pub struct StreamState {
    pub chat_id: String,
    pub thread_id: Option<i64>,
    pub is_dm: bool,
    pub msg_id: Option<i64>,
    pub stream_msg_id: Option<i64>,
    pub tool_lines: Vec<String>,
    pub reasoning: String,
    pub text: String,
    pub error: Option<String>,
    pub phase: Phase,
    /// Time of the last edit of the progress message; `None` until the first, so that
    /// the first content is shown at once.
    pub last_stream_update: Option<u64>,
    pub last_activity: u64,
    pub created_at: u64,
}

/// Milliseconds from `then` to `now`; zero when the clock went backwards.
pub open spec fn elapsed(then: u64, now: u64) -> int {
    if now >= then {
        now - then
    } else {
        0
    }
}

/// The throttle for a chat.
pub open spec fn throttle_ms(is_dm: bool) -> u64 {
    if is_dm {
        DM_THROTTLE_MS
    } else {
        EDIT_THROTTLE_MS
    }
}

/// The parts of the progress display: the tool calls, then the current content.
pub open spec fn display_parts(st: StreamState) -> Seq<Seq<char>> {
    tool_part(st) + current_part(st)
}

/// The tool calls, one per line, when there are any.
pub open spec fn tool_part(st: StreamState) -> Seq<Seq<char>> {
    if st.tool_lines@.len() > 0 {
        seq![join_nl(string_views(st.tool_lines@))]
    } else {
        Seq::empty()
    }
}

/// The content of the current phase, when there is any.
pub open spec fn current_part(st: StreamState) -> Seq<Seq<char>> {
    match st.phase {
        Phase::Reasoning => if st.reasoning@.len() > 0 {
            seq![seq!['\u{1F4AD}', ' '] + st.reasoning@]
        } else {
            Seq::empty()
        },
        Phase::Text => if st.text@.len() > 0 {
            seq![st.text@]
        } else {
            Seq::empty()
        },
        Phase::Idle => Seq::empty(),
    }
}

/// The parts joined by a blank line.
pub open spec fn join_blank(p: Seq<Seq<char>>) -> Seq<char>
    decreases p.len(),
{
    if p.len() == 0 {
        Seq::empty()
    } else if p.len() == 1 {
        p[0]
    } else {
        join_blank(p.drop_last()) + seq!['\n', '\n'] + p.last()
    }
}

/// Number of trailing characters of `s`, counting from `d`, whose encoding fits in `b` bytes.
pub open spec fn tail_fit_from(s: Seq<char>, b: int, d: int) -> int
    decreases s.len() - d,
{
    if d < 0 || d >= s.len() || byte_len(s.skip(s.len() - d - 1)) > b {
        d
    } else {
        tail_fit_from(s, b, d + 1)
    }
}

/// The longest suffix of `s` (in characters) whose encoding fits in `b` bytes.
pub open spec fn tail(s: Seq<char>, b: int) -> Seq<char> {
    s.skip(s.len() - tail_fit_from(s, b, 0))
}

/// The progress text: `None` when there is nothing to show; longer text keeps its
/// last `DISPLAY_LIMIT` bytes behind `...`.
pub open spec fn display_spec(st: StreamState) -> Option<Seq<char>> {
    let parts = display_parts(st);
    if parts.len() == 0 {
        None
    } else {
        let t = join_blank(parts);
        if byte_len(t) > DISPLAY_LIMIT {
            Some(seq!['.', '.', '.'] + tail(t, DISPLAY_LIMIT as int))
        } else {
            Some(t)
        }
    }
}

/// Whether the progress text can be cut: its last `DISPLAY_LIMIT` bytes start on a
/// character boundary (else the byte slice panics).
pub open spec fn display_ok(st: StreamState) -> bool {
    let t = join_blank(display_parts(st));
    display_parts(st).len() == 0 || byte_len(t) <= DISPLAY_LIMIT || byte_len(
        tail(t, DISPLAY_LIMIT as int),
    ) == DISPLAY_LIMIT
}

proof fn lemma_byte_len_cons(s: Seq<char>, k: int)
    requires
        0 <= k < s.len(),
    ensures
        byte_len(s.skip(k)) == utf8_width(s[k]) + byte_len(s.skip(k + 1)),
{
    let one = seq![s[k]];
    assert(s.skip(k) =~= one + s.skip(k + 1));
    lemma_byte_len_append(one, s.skip(k + 1));
    assert(one.drop_last() =~= Seq::<char>::empty());
    assert(one.last() == s[k]);
    assert(byte_len(one) == byte_len(one.drop_last()) + utf8_width(one.last()));
}

proof fn lemma_tail_fit_from(s: Seq<char>, b: int, d: int)
    requires
        0 <= d <= s.len(),
        byte_len(s.skip(s.len() - d)) <= b,
    ensures
        d <= tail_fit_from(s, b, d) <= s.len(),
        byte_len(s.skip(s.len() - tail_fit_from(s, b, d))) <= b,
        tail_fit_from(s, b, d) < s.len() ==> byte_len(
            s.skip(s.len() - tail_fit_from(s, b, d) - 1),
        ) > b,
    decreases s.len() - d,
{
    if d < s.len() && byte_len(s.skip(s.len() - d - 1)) <= b {
        lemma_tail_fit_from(s, b, d + 1);
    }
}

/// The progress text is never longer than `DISPLAY_LIMIT` bytes plus the three-dot
/// mark, a text that fits is shown whole, and a longer one shows its own end.
pub proof fn law_display_bounded(st: StreamState)
    ensures
        display_spec(st) matches Some(x) ==> {
            let t = join_blank(display_parts(st));
            &&& byte_len(x) <= DISPLAY_LIMIT + 3
            &&& byte_len(t) <= DISPLAY_LIMIT ==> x == t
            &&& byte_len(t) > DISPLAY_LIMIT ==> x == seq!['.', '.', '.'] + t.skip(
                t.len() - (x.len() - 3),
            )
        },
{
    let t = join_blank(display_parts(st));
    if display_parts(st).len() > 0 && byte_len(t) > DISPLAY_LIMIT {
        let dots = seq!['.', '.', '.'];
        assert(t.skip(t.len() as int) =~= Seq::<char>::empty());
        lemma_tail_fit_from(t, DISPLAY_LIMIT as int, 0);
        lemma_byte_len_append(dots, tail(t, DISPLAY_LIMIT as int));
        let d2 = dots.drop_last();
        let d1 = d2.drop_last();
        assert(d1.drop_last() =~= Seq::<char>::empty());
        assert(d1 =~= seq!['.']);
        assert(d2 =~= seq!['.', '.']);
        assert(d1.last() == '.');
        assert(('.' as u32) < 0x80);
        assert(utf8_width('.') == 1);
        assert(byte_len(d1.drop_last()) == 0);
        assert(byte_len(d1) == 1);
        assert(byte_len(d2) == 2);
        assert(byte_len(dots) == 3);
    }
}

/// The layout of the progress text when it fits: the tool calls, one per line, in every
/// phase; then, after a blank line, the reasoning (behind a thought bubble) while
/// reasoning or the text while writing; nothing at all when neither is there.
pub proof fn law_display_layout(st: StreamState)
    ensures
        ({
            let has_tools = st.tool_lines@.len() > 0;
            let tools = join_nl(string_views(st.tool_lines@));
            let content: Seq<char> = match st.phase {
                Phase::Reasoning => if st.reasoning@.len() > 0 {
                    seq!['\u{1F4AD}', ' '] + st.reasoning@
                } else {
                    Seq::empty()
                },
                Phase::Text => st.text@,
                Phase::Idle => Seq::empty(),
            };
            let full = if has_tools && content.len() > 0 {
                tools + seq!['\n', '\n'] + content
            } else if has_tools {
                tools
            } else {
                content
            };
            &&& !has_tools && content.len() == 0 ==> display_spec(st) is None
            &&& (has_tools || content.len() > 0) && byte_len(full) <= DISPLAY_LIMIT ==> display_spec(
                st,
            ) == Some(full)
        }),
{
    let parts = display_parts(st);
    let tp = tool_part(st);
    let cp = current_part(st);
    assert(parts == tp + cp);
    if tp.len() == 1 && cp.len() == 1 {
        assert(parts.drop_last() =~= tp);
        assert(join_blank(tp) == tp[0]);
    } else if tp.len() == 1 {
        assert(parts =~= tp);
    } else if cp.len() == 1 {
        assert(parts =~= cp);
    } else {
        assert(parts =~= Seq::<Seq<char>>::empty());
    }
}

/// After an edit at time `t`, the next edit is allowed from `t` plus the throttle of
/// the chat on, and not before.
pub proof fn law_throttle(st: StreamState, t: u64, later: u64)
    requires
        t <= later,
    ensures
        (StreamState { last_stream_update: Some(t), ..st }).should_update_spec(later) <==> later
            - t >= throttle_ms(st.is_dm),
{
}

/// A stream whose progress message was never edited may be edited at once, whatever
/// the time.
pub proof fn law_new_stream_due(st: StreamState, now: u64)
    requires
        st.last_stream_update is None,
    ensures
        st.should_update_spec(now),
{
}

/// The suffix of `v` that fits in `b` bytes, and its byte length.
fn tail_exec(v: &Vec<char>, b: usize) -> (r: (Vec<char>, usize))
    ensures
        r.0@ == tail(v@, b as int),
        r.1 == byte_len(tail(v@, b as int)),
        byte_len(v@) > b ==> tail_fit_from(v@, b as int, 0) < v@.len(),
{
    let mut d: usize = 0;
    let mut acc: usize = 0;
    assert(v@.skip(v@.len() as int) =~= Seq::<char>::empty());
    while d < v.len() && char_width(v[v.len() - d - 1]) <= b - acc
        invariant
            d <= v.len(),
            acc == byte_len(v@.skip(v@.len() - d)),
            acc <= b,
            tail_fit_from(v@, b as int, 0) == tail_fit_from(v@, b as int, d as int),
        decreases v.len() - d,
    {
        proof {
            lemma_byte_len_cons(v@, v@.len() - d - 1);
        }
        acc = acc + char_width(v[v.len() - d - 1]);
        d = d + 1;
    }
    if d < v.len() {
        proof {
            lemma_byte_len_cons(v@, v@.len() - d - 1);
        }
    }
    proof {
        lemma_tail_fit_from(v@, b as int, 0);
        if byte_len(v@) > b && d == v.len() {
            assert(v@.skip(0) =~= v@);
        }
    }
    let r = crate::markdown::slice_chars(v, v.len() - d, v.len());
    assert(r@ =~= tail(v@, b as int));
    (r, acc)
}

/// `join_nl` of a vector of strings.
fn join_lines(lines: &Vec<String>) -> (r: Vec<char>)
    ensures
        r@ == join_nl(string_views(lines@)),
{
    let ghost lv = string_views(lines@);
    let mut out: Vec<char> = Vec::new();
    let mut k: usize = 0;
    while k < lines.len()
        invariant
            k <= lines.len(),
            lv == string_views(lines@),
            out@ == join_nl(lv.take(k as int)),
        decreases lines.len() - k,
    {
        if k > 0 {
            out.push('\n');
        }
        let line = chars_of(lines[k].as_str());
        assert(line@ == lv[k as int]);
        let ghost before = out@;
        extend_chars(&mut out, &line);
        proof {
            let t = lv.take(k + 1);
            assert(t.drop_last() =~= lv.take(k as int));
            if k == 0 {
                assert(out@ =~= join_nl(t));
            } else {
                assert(out@ =~= join_nl(t));
            }
        }
        k = k + 1;
    }
    assert(lv.take(k as int) =~= lv);
    out
}

impl StreamState {
    /// A fresh stream at time `now`: nothing received yet, idle, and no edit yet, so
    /// that the first content is shown at once.
    pub fn new_at(
        chat_id: String,
        thread_id: Option<i64>,
        is_dm: bool,
        msg_id: Option<i64>,
        stream_msg_id: Option<i64>,
        now: u64,
    ) -> (r: Self)
        ensures
            r.chat_id == chat_id,
            r.thread_id == thread_id,
            r.is_dm == is_dm,
            r.msg_id == msg_id,
            r.stream_msg_id == stream_msg_id,
            r.tool_lines@.len() == 0,
            r.reasoning@.len() == 0,
            r.text@.len() == 0,
            r.error is None,
            r.phase == Phase::Idle,
            r.last_stream_update is None,
            r.last_activity == now,
            r.created_at == now,
    {
        StreamState {
            chat_id,
            thread_id,
            is_dm,
            msg_id,
            stream_msg_id,
            tool_lines: Vec::new(),
            reasoning: String::new(),
            text: String::new(),
            error: None,
            phase: Phase::Idle,
            last_stream_update: None,
            last_activity: now,
            created_at: now,
        }
    }

    /// A fresh stream, dated by the wall clock.
    pub fn new(
        chat_id: String,
        thread_id: Option<i64>,
        is_dm: bool,
        msg_id: Option<i64>,
        stream_msg_id: Option<i64>,
    ) -> (r: Self)
        ensures
            r.chat_id == chat_id,
            r.thread_id == thread_id,
            r.is_dm == is_dm,
            r.msg_id == msg_id,
            r.stream_msg_id == stream_msg_id,
            r.tool_lines@.len() == 0,
            r.reasoning@.len() == 0,
            r.text@.len() == 0,
            r.error is None,
            r.phase == Phase::Idle,
            r.last_activity == r.created_at,
            r.last_stream_update is None,
    {
        let now = crate::clock::now_millis();
        Self::new_at(chat_id, thread_id, is_dm, msg_id, stream_msg_id, now)
    }

    /// Whether the throttle has passed at time `now`.
    pub open spec fn should_update_spec(&self, now: u64) -> bool {
        match self.last_stream_update {
            None => true,
            Some(t) => elapsed(t, now) >= throttle_ms(self.is_dm),
        }
    }

    /// Whether the progress message may be edited at time `now`.
    pub fn should_update_at(&self, now: u64) -> (r: bool)
        ensures
            r == self.should_update_spec(now),
    {
        let throttle = if self.is_dm {
            DM_THROTTLE_MS
        } else {
            EDIT_THROTTLE_MS
        };
        match self.last_stream_update {
            None => true,
            Some(t) => {
                let e = if now >= t {
                    now - t
                } else {
                    0
                };
                e >= throttle
            },
        }
    }

    /// Whether the progress message may be edited now.
    pub fn should_update(&self) -> (r: bool)
        ensures
            exists|now: u64| r == self.should_update_spec(now),
            self.last_stream_update is None ==> r,
    {
        let now = crate::clock::now_millis();
        self.should_update_at(now)
    }

    /// Records an edit of the progress message at time `now`.
    pub fn mark_updated_at(&mut self, now: u64)
        ensures
            *final(self) == (StreamState { last_stream_update: Some(now), ..*old(self) }),
    {
        self.last_stream_update = Some(now);
    }

    /// Records an edit of the progress message now.
    pub fn mark_updated(&mut self)
        ensures
            *final(self) == (StreamState {
                last_stream_update: final(self).last_stream_update,
                ..*old(self)
            }),
            final(self).last_stream_update is Some,
    {
        let now = crate::clock::now_millis();
        self.mark_updated_at(now);
    }

    /// Whether `display_text` can cut the progress text.
    pub fn display_ok_exec(&self) -> (r: bool)
        ensures
            r == display_ok(*self),
    {
        match self.display_body() {
            None => true,
            Some(t) => {
                let (c, _) = crate::markdown::fit_exec(&t, DISPLAY_LIMIT);
                proof {
                    crate::markdown::lemma_fit(t@, DISPLAY_LIMIT as int);
                }
                if c == t.len() {
                    true
                } else {
                    let (_, n) = tail_exec(&t, DISPLAY_LIMIT);
                    n == DISPLAY_LIMIT
                }
            },
        }
    }

    /// The content of the current phase.
    fn current_chars(&self) -> (r: Option<Vec<char>>)
        ensures
            r is None ==> current_part(*self) == Seq::<Seq<char>>::empty(),
            r matches Some(c) ==> current_part(*self) == seq![c@],
    {
        match self.phase {
            Phase::Reasoning => {
                let r = chars_of(self.reasoning.as_str());
                if r.len() > 0 {
                    let mut c: Vec<char> = Vec::new();
                    c.push('\u{1F4AD}');
                    c.push(' ');
                    extend_chars(&mut c, &r);
                    assert(c@ =~= seq!['\u{1F4AD}', ' '] + self.reasoning@);
                    Some(c)
                } else {
                    None
                }
            },
            Phase::Text => {
                let t = chars_of(self.text.as_str());
                if t.len() > 0 {
                    Some(t)
                } else {
                    None
                }
            },
            Phase::Idle => None,
        }
    }

    /// The uncut progress text.
    fn display_body(&self) -> (r: Option<Vec<char>>)
        ensures
            display_parts(*self).len() == 0 ==> r is None,
            display_parts(*self).len() > 0 ==> (r matches Some(t) && t@ == join_blank(
                display_parts(*self),
            )),
    {
        let mut out: Vec<char> = Vec::new();
        let mut count: usize = 0;
        let ghost tools = tool_part(*self);
        if self.tool_lines.len() > 0 {
            out = join_lines(&self.tool_lines);
            count = 1;
        }
        assert(count == tools.len());
        assert(count > 0 ==> out@ == join_blank(tools));
        let current = self.current_chars();
        let ghost parts = display_parts(*self);
        match current {
            Some(c) => {
                assert(parts =~= tools + seq![c@]);
                if count > 0 {
                    out.push('\n');
                    out.push('\n');
                    extend_chars(&mut out, &c);
                    assert(parts.drop_last() =~= tools);
                    assert(out@ =~= join_blank(parts));
                } else {
                    out = c;
                    assert(out@ =~= join_blank(parts));
                }
                Some(out)
            },
            None => {
                assert(parts =~= tools);
                if count > 0 {
                    Some(out)
                } else {
                    None
                }
            },
        }
    }

    /// The progress text to show.
    pub fn display_text(&self) -> (r: Option<String>)
        requires
            display_ok(*self),
        ensures
            match (r, display_spec(*self)) {
                (Some(x), Some(y)) => x@ == y,
                (None, None) => true,
                _ => false,
            },
    {
        match self.display_body() {
            None => None,
            Some(t) => {
                let (c, _) = crate::markdown::fit_exec(&t, DISPLAY_LIMIT);
                proof {
                    crate::markdown::lemma_fit(t@, DISPLAY_LIMIT as int);
                }
                if c == t.len() {
                    Some(string_of(&t))
                } else {
                    let (suffix, _) = tail_exec(&t, DISPLAY_LIMIT);
                    let mut out: Vec<char> = Vec::new();
                    out.push('.');
                    out.push('.');
                    out.push('.');
                    extend_chars(&mut out, &suffix);
                    assert(out@ =~= seq!['.', '.', '.'] + tail(t@, DISPLAY_LIMIT as int));
                    Some(string_of(&out))
                }
            },
        }
    }
}

// ---------------------------------------------------------------------------
// Active streams and SSE events
// ---------------------------------------------------------------------------

/// A `message.part.updated` event as the handler reads it: the session, the kind of
/// part, its text, and for tool parts the status, tool name and title.
pub struct PartUpdate {
    pub session_id: String,
    pub part_type: String,
    pub text: Option<String>,
    pub tool_status: Option<String>,
    pub tool_name: Option<String>,
    pub tool_title: Option<String>,
}

/// The view of an optional string.
pub open spec fn opt_view(o: Option<String>) -> Option<Seq<char>> {
    match o {
        Some(s) => Some(s@),
        None => None,
    }
}

/// The line shown for a completed tool call: `🔧 name — title`, with `?` and `done`
/// standing in for a missing name and title.
pub open spec fn tool_line(name: Option<Seq<char>>, title: Option<Seq<char>>) -> Seq<char> {
    seq!['\u{1F527}', ' '] + (match name {
        Some(n) => n,
        None => seq!['?'],
    }) + seq![' ', '\u{2014}', ' '] + (match title {
        Some(t) => t,
        None => seq!['d', 'o', 'n', 'e'],
    })
}

/// Whether a part type drives the progress display.
pub open spec fn is_display_part(t: Seq<char>) -> bool {
    t == "reasoning"@ || t == "text"@ || t == "tool"@
}

/// How a stream changes under a part update at time `now`: its activity time is now;
/// reasoning and text parts with text replace the reasoning or text and set the
/// phase; completed tool parts add a tool line; all else stays.
pub open spec fn part_applied(
    old_st: StreamState,
    new_st: StreamState,
    upd: PartUpdate,
    now: u64,
) -> bool {
    let base = StreamState {
        last_activity: now,
        phase: new_st.phase,
        reasoning: new_st.reasoning,
        text: new_st.text,
        tool_lines: new_st.tool_lines,
        ..old_st
    };
    &&& new_st == base
    &&& if upd.part_type@ == "reasoning"@ && upd.text is Some {
        new_st.phase == Phase::Reasoning && new_st.reasoning@ == upd.text->0@ && new_st.text
            == old_st.text && new_st.tool_lines == old_st.tool_lines
    } else if upd.part_type@ == "text"@ && upd.text is Some {
        new_st.phase == Phase::Text && new_st.text@ == upd.text->0@ && new_st.reasoning
            == old_st.reasoning && new_st.tool_lines == old_st.tool_lines
    } else if upd.part_type@ == "tool"@ && opt_view(upd.tool_status) == Some("completed"@) {
        new_st.phase == old_st.phase && new_st.reasoning == old_st.reasoning && new_st.text
            == old_st.text && string_views(new_st.tool_lines@) == string_views(
            old_st.tool_lines@,
        ).push(tool_line(opt_view(upd.tool_name), opt_view(upd.tool_title)))
    } else {
        new_st.phase == old_st.phase && new_st.reasoning == old_st.reasoning && new_st.text
            == old_st.text && new_st.tool_lines == old_st.tool_lines
    }
}

/// An edit of a progress message: the chat, the message (if one was sent) and the text.
pub struct EditRequest {
    pub chat_id: String,
    pub message_id: Option<i64>,
    pub text: String,
}

/// The streams of the prompts in progress, keyed by session id.
pub struct ActiveStreams {
    entries: Vec<(String, StreamState)>,
}

/// The keys of a keyed sequence of streams.
pub open spec fn stream_keys(e: Seq<(String, StreamState)>) -> Seq<(Seq<char>, ())> {
    e.map_values(|x: (String, StreamState)| (x.0@, ()))
}

/// The sessions among `e` whose last activity lies more than 300 seconds before `now`.
pub open spec fn stale_keys(e: Seq<(String, StreamState)>, now: u64) -> Seq<Seq<char>>
    decreases e.len(),
{
    if e.len() == 0 {
        Seq::empty()
    } else {
        stale_keys(e.drop_last(), now) + if elapsed(e.last().1.last_activity, now) >= 301_000 {
            seq![e.last().0@]
        } else {
            Seq::empty()
        }
    }
}

/// `after` is `before` with the stream `st` started for session `sid`: it replaces
/// the session's stream where there is one, else it comes last.
pub open spec fn started(before: ActiveStreams, after: ActiveStreams, sid: String, st: StreamState) -> bool {
    &&& after.wf()
    &&& before.index_of(sid@) >= 0 ==> after.spec_entries() == before.spec_entries().update(
        before.index_of(sid@),
        (sid, st),
    )
    &&& before.index_of(sid@) < 0 ==> after.spec_entries() == before.spec_entries().push((sid, st))
}

/// `after` is `before` without the stream of session `sid`, and `got` is that stream
/// (`None` when there was none).
pub open spec fn ended(
    before: ActiveStreams,
    after: ActiveStreams,
    sid: Seq<char>,
    got: Option<StreamState>,
) -> bool {
    &&& after.wf()
    &&& before.index_of(sid) >= 0 ==> got == Some(before.spec_entries()[before.index_of(sid)].1)
        && after.spec_entries() == before.spec_entries().remove(before.index_of(sid))
    &&& before.index_of(sid) < 0 ==> got is None && after.spec_entries() == before.spec_entries()
    &&& after.index_of(sid) < 0
}

/// The stream of a session, if it has one.
pub open spec fn stream_of(x: ActiveStreams, sid: Seq<char>) -> Option<StreamState> {
    if x.index_of(sid) >= 0 {
        Some(x.spec_entries()[x.index_of(sid)].1)
    } else {
        None
    }
}

/// The stream started for a session is the one its end hands back; afterwards the
/// session has no stream, and every other session has the stream it had before.
pub proof fn law_stream_start_end(
    a: ActiveStreams,
    b: ActiveStreams,
    c: ActiveStreams,
    sid: String,
    st: StreamState,
    got: Option<StreamState>,
)
    requires
        a.wf(),
        started(a, b, sid, st),
        ended(b, c, sid@, got),
    ensures
        got == Some(st),
        stream_of(c, sid@) is None,
        forall|k: Seq<char>| k != sid@ ==> #[trigger] stream_of(c, k) == stream_of(a, k),
{
    let ka = stream_keys(a.spec_entries());
    let kb = stream_keys(b.spec_entries());
    let kc = stream_keys(c.spec_entries());
    lemma_key_index(ka, sid@, 0);
    let i = a.index_of(sid@);
    // Where the started stream sits.
    let j: int = if i >= 0 {
        i
    } else {
        ka.len() as int
    };
    assert(kb.len() == if i >= 0 {
        ka.len() as int
    } else {
        ka.len() + 1int
    });
    assert forall|m: int| 0 <= m < ka.len() && m != j implies #[trigger] kb[m].0 == ka[m].0 by {}
    assert(kb[j].0 == sid@);
    assert(b.spec_entries()[j].1 == st);
    assert forall|m: int| 0 <= m < j implies #[trigger] kb[m].0 != sid@ by {
        assert(kb[m].0 == ka[m].0);
    }
    lemma_key_index_at(kb, sid@, j);
    assert(b.index_of(sid@) == j);
    assert forall|k: Seq<char>| k != sid@ implies #[trigger] stream_of(c, k) == stream_of(a, k) by {
        lemma_key_index(ka, k, 0);
        lemma_key_index(kb, k, 0);
        lemma_key_index(kc, k, 0);
        // After the start, `k` sits where it sat before.
        let x = a.index_of(k);
        if x >= 0 {
            assert(x != j);
            assert forall|m: int| 0 <= m < x implies #[trigger] kb[m].0 != k by {
                if m != j {
                    assert(kb[m].0 == ka[m].0);
                }
            }
            assert(kb[x].0 == ka[x].0);
            lemma_key_index_at(kb, k, x);
            assert(b.spec_entries()[x] == a.spec_entries()[x]);
            // After the end, it sits one place earlier when it came after the session.
            let y = if x < j {
                x
            } else {
                x - 1
            };
            assert(c.spec_entries() == b.spec_entries().remove(j));
            assert(c.spec_entries()[y] == b.spec_entries()[x]);
            assert forall|m: int| 0 <= m < y implies #[trigger] kc[m].0 != k by {
                if m < j {
                    assert(kc[m].0 == kb[m].0);
                } else {
                    assert(kc[m].0 == kb[m + 1].0);
                }
            }
            lemma_key_index_at(kc, k, y);
        } else {
            assert forall|m: int| 0 <= m < kb.len() implies #[trigger] kb[m].0 != k by {
                if m != j {
                    assert(kb[m].0 == ka[m].0);
                }
            }
            assert forall|m: int| 0 <= m < kc.len() implies #[trigger] kc[m].0 != k by {
                if m < j {
                    assert(kc[m].0 == kb[m].0);
                } else {
                    assert(kc[m].0 == kb[m + 1].0);
                }
            }
        }
    }
}

impl ActiveStreams {
    /// The entries, in order.
    pub closed spec fn spec_entries(&self) -> Seq<(String, StreamState)> {
        self.entries@
    }

    /// Index of the stream of a session, or -1.
    pub open spec fn index_of(&self, sid: Seq<char>) -> int {
        key_index(stream_keys(self.spec_entries()), sid, 0)
    }

    /// Session ids are unique.
    pub open spec fn wf(&self) -> bool {
        crate::access::unique_keys(stream_keys(self.spec_entries()))
    }

    /// No streams.
    pub fn new() -> (r: Self)
        ensures
            r.spec_entries().len() == 0,
            r.wf(),
    {
        ActiveStreams { entries: Vec::new() }
    }

    /// Number of streams.
    pub fn len(&self) -> (r: usize)
        ensures
            r == self.spec_entries().len(),
    {
        self.entries.len()
    }

    fn find(&self, sid: &str) -> (r: usize)
        ensures
            r < self.spec_entries().len() ==> r == self.index_of(sid@),
            r >= self.spec_entries().len() ==> self.index_of(sid@) == -1,
            r <= self.spec_entries().len(),
    {
        let ghost ks = stream_keys(self.entries@);
        let mut i: usize = 0;
        while i < self.entries.len()
            invariant
                i <= self.entries.len(),
                ks == stream_keys(self.entries@),
                key_index(ks, sid@, 0) == key_index(ks, sid@, i as int),
            decreases self.entries.len() - i,
        {
            assert(ks[i as int].0 == self.entries@[i as int].0@);
            if str_eq(self.entries[i].0.as_str(), sid) {
                return i;
            }
            i = i + 1;
        }
        i
    }

    /// Whether a session has a prompt running.
    pub fn busy(&self, sid: &str) -> (r: bool)
        ensures
            r == (self.index_of(sid@) >= 0),
    {
        let i = self.find(sid);
        proof {
            lemma_key_index(stream_keys(self.entries@), sid@, 0);
        }
        i < self.entries.len()
    }

    /// The stream of a session.
    pub fn get(&self, sid: &str) -> (r: Option<&StreamState>)
        ensures
            self.index_of(sid@) >= 0 ==> r == Some(&self.spec_entries()[self.index_of(sid@)].1),
            self.index_of(sid@) < 0 ==> r is None,
    {
        let i = self.find(sid);
        proof {
            lemma_key_index(stream_keys(self.entries@), sid@, 0);
        }
        if i < self.entries.len() {
            Some(&self.entries[i].1)
        } else {
            None
        }
    }

    /// Starts (or restarts) the stream of a session.
    pub fn insert(&mut self, sid: String, st: StreamState)
        requires
            old(self).wf(),
        ensures
            started(*old(self), *final(self), sid, st),
    {
        let i = self.find(sid.as_str());
        proof {
            lemma_key_index(stream_keys(self.entries@), sid@, 0);
        }
        let ghost before = self.entries@;
        if i < self.entries.len() {
            let _ = self.entries.remove(i);
            self.entries.insert(i, (sid, st));
            assert(self.entries@ =~= before.update(i as int, (sid, st)));
            proof {
                let ks = stream_keys(self.entries@);
                assert forall|a: int, b: int| 0 <= a < b < ks.len() implies ks[a].0 != ks[b].0 by {
                    assert(ks[a].0 == stream_keys(before)[a].0);
                    assert(ks[b].0 == stream_keys(before)[b].0);
                }
            }
        } else {
            self.entries.push((sid, st));
            proof {
                let ks = stream_keys(self.entries@);
                assert forall|a: int, b: int| 0 <= a < b < ks.len() implies ks[a].0 != ks[b].0 by {
                    if b == before.len() {
                        assert(stream_keys(before)[a].0 != sid@);
                    } else {
                        assert(ks[b].0 == stream_keys(before)[b].0);
                    }
                    assert(ks[a].0 == stream_keys(before)[a].0);
                }
            }
        }
    }

    /// Ends the stream of a session and hands it back.
    pub fn remove(&mut self, sid: &str) -> (r: Option<StreamState>)
        requires
            old(self).wf(),
        ensures
            ended(*old(self), *final(self), sid@, r),
    {
        let i = self.find(sid);
        proof {
            lemma_key_index(stream_keys(self.entries@), sid@, 0);
        }
        let ghost before = self.entries@;
        if i < self.entries.len() {
            let e = self.entries.remove(i);
            proof {
                let ks = stream_keys(self.entries@);
                let kb = stream_keys(before);
                assert forall|a: int| 0 <= a < ks.len() implies #[trigger] ks[a] == if a < i {
                    kb[a]
                } else {
                    kb[a + 1]
                } by {}
                assert forall|a: int, b: int| 0 <= a < b < ks.len() implies ks[a].0 != ks[b].0 by {
                    assert(ks[a] == if a < i {
                        kb[a]
                    } else {
                        kb[a + 1]
                    });
                    assert(ks[b] == if b < i {
                        kb[b]
                    } else {
                        kb[b + 1]
                    });
                }
                assert forall|m: int| 0 <= m < ks.len() implies #[trigger] ks[m].0 != sid@ by {
                    assert(ks[m] == if m < i {
                        kb[m]
                    } else {
                        kb[m + 1]
                    });
                    assert(kb[i as int].0 == sid@);
                }
                lemma_key_index(ks, sid@, 0);
            }
            Some(e.1)
        } else {
            None
        }
    }

    /// Applies a part update at time `now`; true when the progress display is due for
    /// a refresh (a reasoning, text or tool part, and the throttle has passed).
    pub fn apply_part(&mut self, upd: &PartUpdate, now: u64) -> (r: bool)
        requires
            old(self).wf(),
        ensures
            final(self).wf(),
            old(self).index_of(upd.session_id@) < 0 ==> !r && final(self).spec_entries() == old(
                self,
            ).spec_entries(),
            old(self).index_of(upd.session_id@) >= 0 ==> {
                let i = old(self).index_of(upd.session_id@);
                let old_st = old(self).spec_entries()[i].1;
                let new_st = final(self).spec_entries()[i].1;
                &&& final(self).spec_entries() == old(self).spec_entries().update(
                    i,
                    (old(self).spec_entries()[i].0, new_st),
                )
                &&& part_applied(old_st, new_st, *upd, now)
                &&& r == (is_display_part(upd.part_type@) && new_st.should_update_spec(now))
            },
    {
        let i = self.find(upd.session_id.as_str());
        proof {
            lemma_key_index(stream_keys(self.entries@), upd.session_id@, 0);
        }
        if i >= self.entries.len() {
            return false;
        }
        let ghost before = self.entries@;
        let (key, mut st) = self.entries.remove(i);
        st.last_activity = now;
        let pt = upd.part_type.as_str();
        if str_eq(pt, "reasoning") && upd.text.is_some() {
            match &upd.text {
                Some(t) => {
                    st.phase = Phase::Reasoning;
                    st.reasoning = copy_str(t.as_str());
                },
                None => {},
            }
        } else if str_eq(pt, "text") && upd.text.is_some() {
            match &upd.text {
                Some(t) => {
                    st.phase = Phase::Text;
                    st.text = copy_str(t.as_str());
                },
                None => {},
            }
        } else if str_eq(pt, "tool") && match &upd.tool_status {
            Some(x) => str_eq(x.as_str(), "completed"),
            None => false,
        } {
            let mut line: Vec<char> = Vec::new();
            line.push('\u{1F527}');
            line.push(' ');
            match &upd.tool_name {
                Some(n) => extend_str(&mut line, n.as_str()),
                None => line.push('?'),
            }
            line.push(' ');
            line.push('\u{2014}');
            line.push(' ');
            match &upd.tool_title {
                Some(t) => extend_str(&mut line, t.as_str()),
                None => {
                    line.push('d');
                    line.push('o');
                    line.push('n');
                    line.push('e');
                },
            }
            assert(line@ =~= tool_line(opt_view(upd.tool_name), opt_view(upd.tool_title)));
            let ghost old_lines = st.tool_lines@;
            st.tool_lines.push(string_of(&line));
            assert(string_views(st.tool_lines@) =~= string_views(old_lines).push(line@));
        }
        let due = (str_eq(pt, "reasoning") || str_eq(pt, "text") || str_eq(pt, "tool"))
            && st.should_update_at(now);
        self.entries.insert(i, (key, st));
        proof {
            assert(self.entries@ =~= before.update(i as int, (key, st)));
            let ks = stream_keys(self.entries@);
            assert forall|a: int, b: int| 0 <= a < b < ks.len() implies ks[a].0 != ks[b].0 by {
                assert(ks[a].0 == stream_keys(before)[a].0);
                assert(ks[b].0 == stream_keys(before)[b].0);
            }
        }
        due
    }

    /// Whether the progress text of a session can be shown.
    pub open spec fn refresh_ok(&self, sid: Seq<char>) -> bool {
        self.index_of(sid) >= 0 ==> display_ok(self.spec_entries()[self.index_of(sid)].1)
    }

    /// Whether `refresh` can show the progress text of a session.
    pub fn refresh_ok_exec(&self, sid: &str) -> (r: bool)
        ensures
            r == self.refresh_ok(sid@),
    {
        let i = self.find(sid);
        if i < self.entries.len() {
            self.entries[i].1.display_ok_exec()
        } else {
            true
        }
    }

    /// Shows the progress of a session at time `now`: when there is something to show,
    /// records the update and returns the edit to make.
    pub fn refresh(&mut self, sid: &str, now: u64) -> (r: Option<EditRequest>)
        requires
            old(self).wf(),
            old(self).refresh_ok(sid@),
        ensures
            final(self).wf(),
            old(self).index_of(sid@) < 0 ==> r is None && final(self).spec_entries() == old(
                self,
            ).spec_entries(),
            old(self).index_of(sid@) >= 0 ==> {
                let i = old(self).index_of(sid@);
                let st = old(self).spec_entries()[i].1;
                match display_spec(st) {
                    None => r is None && final(self).spec_entries() == old(self).spec_entries(),
                    Some(d) => r matches Some(e) && e.chat_id@ == st.chat_id@ && e.message_id
                        == st.stream_msg_id && e.text@ == d && final(self).spec_entries() == old(
                        self,
                    ).spec_entries().update(
                        i,
                        (
                            old(self).spec_entries()[i].0,
                            StreamState { last_stream_update: Some(now), ..st },
                        ),
                    ),
                }
            },
    {
        let i = self.find(sid);
        proof {
            lemma_key_index(stream_keys(self.entries@), sid@, 0);
        }
        if i >= self.entries.len() {
            return None;
        }
        let shown = self.entries[i].1.display_text();
        match shown {
            None => None,
            Some(text) => {
                let ghost before = self.entries@;
                let (key, mut st) = self.entries.remove(i);
                st.mark_updated_at(now);
                let req = EditRequest {
                    chat_id: copy_str(st.chat_id.as_str()),
                    message_id: st.stream_msg_id,
                    text,
                };
                self.entries.insert(i, (key, st));
                proof {
                    assert(self.entries@ =~= before.update(i as int, (key, st)));
                    let ks = stream_keys(self.entries@);
                    assert forall|a: int, b: int| 0 <= a < b < ks.len() implies ks[a].0
                        != ks[b].0 by {
                        assert(ks[a].0 == stream_keys(before)[a].0);
                        assert(ks[b].0 == stream_keys(before)[b].0);
                    }
                }
                Some(req)
            },
        }
    }

    /// Records an error: on the stream of the given session, or on every stream when
    /// the event names none.
    pub fn set_error(&mut self, sid: Option<&str>, message: &str)
        requires
            old(self).wf(),
        ensures
            final(self).wf(),
            final(self).spec_entries().len() == old(self).spec_entries().len(),
            forall|k: int|
                0 <= k < old(self).spec_entries().len() ==> {
                    let o = #[trigger] old(self).spec_entries()[k];
                    let n = final(self).spec_entries()[k];
                    let hit = match sid {
                        Some(s) => k == old(self).index_of(s@),
                        None => true,
                    };
                    &&& n.0 == o.0
                    &&& hit ==> (n.1.error matches Some(e) && e@ == message@ && n.1 == (
                    StreamState { error: n.1.error, ..o.1 }))
                    &&& !hit ==> n.1 == o.1
                },
    {
        let ghost before = self.entries@;
        let ghost target: int = match sid {
            Some(s) => self.index_of(s@),
            None => -1,
        };
        let mut i: usize = 0;
        let only: usize = match sid {
            Some(s) => self.find(s),
            None => self.entries.len(),
        };
        if let Some(s) = sid {
            proof {
                lemma_key_index(stream_keys(self.entries@), s@, 0);
            }
        }
        while i < self.entries.len()
            invariant
                i <= self.entries.len(),
                self.entries@.len() == before.len(),
                sid is Some ==> (only < before.len() ==> only == target),
                sid is Some ==> (only >= before.len() ==> target == -1),
                forall|k: int|
                    0 <= k < before.len() ==> {
                        let o = #[trigger] before[k];
                        let n = self.entries@[k];
                        let hit = match sid {
                            Some(s) => k == target,
                            None => true,
                        };
                        &&& n.0 == o.0
                        &&& (k < i && hit) ==> (n.1.error matches Some(e) && e@ == message@
                            && n.1 == (StreamState { error: n.1.error, ..o.1 }))
                        &&& !(k < i && hit) ==> n.1 == o.1
                    },
            decreases before.len() - i,
        {
            let hit = match sid {
                Some(_) => i == only,
                None => true,
            };
            if hit {
                let ghost mid = self.entries@;
                let (key, mut st) = self.entries.remove(i);
                st.error = Some(copy_str(message));
                self.entries.insert(i, (key, st));
                assert(self.entries@ =~= mid.update(i as int, (key, st)));
            }
            i = i + 1;
        }
        proof {
            let ks = stream_keys(self.entries@);
            assert forall|a: int, b: int| 0 <= a < b < ks.len() implies ks[a].0 != ks[b].0 by {
                assert(ks[a].0 == stream_keys(before)[a].0);
                assert(ks[b].0 == stream_keys(before)[b].0);
            }
            assert forall|a: int| 0 <= a < ks.len() implies #[trigger] ks[a] == stream_keys(
                before,
            )[a] by {}
            assert(ks =~= stream_keys(before));
        }
    }

    /// The sessions whose streams have been silent for more than 300 seconds at `now`.
    pub fn stale(&self, now: u64) -> (r: Vec<String>)
        ensures
            string_views(r@) == stale_keys(self.spec_entries(), now),
    {
        let mut out: Vec<String> = Vec::new();
        let mut i: usize = 0;
        let ghost e = self.entries@;
        assert(e.take(0) =~= Seq::<(String, StreamState)>::empty());
        assert(string_views(out@) =~= Seq::<Seq<char>>::empty());
        while i < self.entries.len()
            invariant
                i <= self.entries.len(),
                e == self.entries@,
                string_views(out@) == stale_keys(e.take(i as int), now),
            decreases self.entries.len() - i,
        {
            assert(e.take(i + 1).drop_last() =~= e.take(i as int));
            assert(e.take(i + 1).last() == e[i as int]);
            let last = self.entries[i].1.last_activity;
            let el = if now >= last {
                now - last
            } else {
                0
            };
            if el >= 301_000 {
                let ghost before = out@;
                let k = copy_str(self.entries[i].0.as_str());
                out.push(k);
                assert(string_views(out@) =~= string_views(before).push(k@));
            }
            i = i + 1;
        }
        assert(e.take(i as int) =~= e);
        out
    }
}

/// What an SSE event is about.
#[derive(Debug, Clone, Copy, PartialEq, Eq, Structural)]
pub enum EventKind {
    PartUpdated,
    SessionError,
    SessionIdle,
    Other,
}

/// The session of a part update: the event's `properties.sessionID`, else the part's
/// own `sessionID`, else empty.
pub fn part_session_id(event_sid: Option<&str>, part_sid: Option<&str>) -> (r: String)
    ensures
        r@ == match (event_sid, part_sid) {
            (Some(a), _) => a@,
            (None, Some(b)) => b@,
            (None, None) => Seq::<char>::empty(),
        },
{
    match event_sid {
        Some(a) => copy_str(a),
        None => match part_sid {
            Some(b) => copy_str(b),
            None => String::new(),
        },
    }
}

/// The next message of the final reply: a MarkdownV2 chunk, a plain-text chunk, or
/// nothing more.
#[derive(Debug, Clone, Copy, PartialEq, Eq, Structural)]
pub enum ReplyStep {
    Markdown(usize),
    Plain(usize),
    Done,
}

/// The first message of a MarkdownV2 reply of `markdown_chunks` chunks.
pub fn reply_start(markdown_chunks: usize) -> (r: ReplyStep)
    ensures
        r == if markdown_chunks > 0 {
            ReplyStep::Markdown(0)
        } else {
            ReplyStep::Done
        },
{
    if markdown_chunks > 0 {
        ReplyStep::Markdown(0)
    } else {
        ReplyStep::Done
    }
}

/// The first message of a plain-text reply of `plain_chunks` chunks.
pub fn plain_start(plain_chunks: usize) -> (r: ReplyStep)
    ensures
        r == if plain_chunks > 0 {
            ReplyStep::Plain(0)
        } else {
            ReplyStep::Done
        },
{
    if plain_chunks > 0 {
        ReplyStep::Plain(0)
    } else {
        ReplyStep::Done
    }
}

/// After MarkdownV2 chunk `i` was sent (`sent`) or refused: the next chunk while they
/// go through; after a refusal no more MarkdownV2, the whole reply goes out as plain
/// text (`plain_chunks` chunks) instead.
pub fn after_markdown_send(i: usize, markdown_chunks: usize, sent: bool, plain_chunks: usize) -> (r:
    ReplyStep)
    ensures
        sent && i + 1 < markdown_chunks ==> r == ReplyStep::Markdown((i + 1) as usize),
        sent && i + 1 >= markdown_chunks ==> r == ReplyStep::Done,
        !sent ==> r == if plain_chunks > 0 {
            ReplyStep::Plain(0)
        } else {
            ReplyStep::Done
        },
{
    if sent {
        if i < markdown_chunks && i + 1 < markdown_chunks {
            ReplyStep::Markdown(i + 1)
        } else {
            ReplyStep::Done
        }
    } else {
        plain_start(plain_chunks)
    }
}

/// After plain-text chunk `j` (sent or not): the next one, until all were tried.
pub fn after_plain_send(j: usize, plain_chunks: usize) -> (r: ReplyStep)
    ensures
        r == if j + 1 < plain_chunks {
            ReplyStep::Plain((j + 1) as usize)
        } else {
            ReplyStep::Done
        },
{
    if j < plain_chunks && j + 1 < plain_chunks {
        ReplyStep::Plain(j + 1)
    } else {
        ReplyStep::Done
    }
}

/// The event kind of an event type.
pub open spec fn event_kind_spec(t: Seq<char>) -> EventKind {
    if t == "message.part.updated"@ {
        EventKind::PartUpdated
    } else if t == "session.error"@ {
        EventKind::SessionError
    } else if t == "session.idle"@ {
        EventKind::SessionIdle
    } else {
        EventKind::Other
    }
}

/// The type of an event: the `type` field of its data when that is a string, else the
/// SSE `event:` header.
pub fn event_type(data_type: Option<&str>, header: &str) -> (r: String)
    ensures
        r@ == match data_type {
            Some(t) => t@,
            None => header@,
        },
{
    match data_type {
        Some(t) => copy_str(t),
        None => copy_str(header),
    }
}

/// Classifies an event type.
pub fn event_kind(t: &str) -> (r: EventKind)
    ensures
        r == event_kind_spec(t@),
{
    if str_eq(t, "message.part.updated") {
        EventKind::PartUpdated
    } else if str_eq(t, "session.error") {
        EventKind::SessionError
    } else if str_eq(t, "session.idle") {
        EventKind::SessionIdle
    } else {
        EventKind::Other
    }
}

/// The message of a `session.error` event: `error.data.message`, else `error.message`,
/// else `Unknown error`.
pub fn error_message(data_message: Option<&str>, message: Option<&str>) -> (r: String)
    ensures
        r@ == match (data_message, message) {
            (Some(m), _) => m@,
            (None, Some(m)) => m@,
            (None, None) => "Unknown error"@,
        },
{
    match (data_message, message) {
        (Some(m), _) => copy_str(m),
        (None, Some(m)) => copy_str(m),
        (None, None) => copy_str("Unknown error"),
    }
}

// ---------------------------------------------------------------------------
// The final reply
// ---------------------------------------------------------------------------

/// First position at or after `k` where `p` occurs in `s`, or -1.
pub open spec fn next_occ(s: Seq<char>, k: int, p: Seq<char>) -> int
    decreases s.len() - k,
{
    if k < 0 || k >= s.len() || k + p.len() > s.len() {
        -1
    } else if crate::text::occurs_at(s, p, k) {
        k
    } else {
        next_occ(s, k + 1, p)
    }
}

pub proof fn lemma_next_occ(s: Seq<char>, k: int, p: Seq<char>)
    requires
        0 <= k,
    ensures
        next_occ(s, k, p) == -1 || (k <= next_occ(s, k, p) && next_occ(s, k, p) + p.len()
            <= s.len()),
    decreases s.len() - k,
{
    if k < s.len() && k + p.len() <= s.len() && !crate::text::occurs_at(s, p, k) {
        lemma_next_occ(s, k + 1, p);
    }
}

/// `<channel`.
pub open spec fn channel_open() -> Seq<char> {
    seq!['<', 'c', 'h', 'a', 'n', 'n', 'e', 'l']
}

/// `</channel>`.
pub open spec fn channel_close() -> Seq<char> {
    seq!['<', '/', 'c', 'h', 'a', 'n', 'n', 'e', 'l', '>']
}

/// End (exclusive) of an echoed `<channel ...>...</channel>` block starting at `i`,
/// with the newline that may follow it, or -1. The pattern is
/// `(?s)<channel\b[^>]*>.*?</channel>\n?`.
pub open spec fn channel_end(s: Seq<char>, i: int) -> int {
    let a = i + 8;
    let g = crate::markdown::next_of(s, a, '>');
    let m = next_occ(s, g + 1, channel_close());
    if crate::text::occurs_at(s, channel_open(), i) && (a == s.len()
        || !crate::markdown::is_word(s[a])) && g < s.len() && m >= 0 {
        if m + 10 < s.len() && s[m + 10] == '\n' {
            m + 11
        } else {
            m + 10
        }
    } else {
        -1
    }
}

/// `s` from position `i` on without the echoed channel blocks.
pub open spec fn strip_channels_from(s: Seq<char>, i: int) -> Seq<char>
    decreases s.len() - i,
{
    if i < 0 || i >= s.len() {
        Seq::empty()
    } else if channel_end(s, i) > i && channel_end(s, i) <= s.len() {
        strip_channels_from(s, channel_end(s, i))
    } else {
        seq![s[i]] + strip_channels_from(s, i + 1)
    }
}

/// Removes the `<channel ...>...</channel>` blocks that the model may echo back.
pub fn strip_channel_tags(text: &Vec<char>) -> (r: Vec<char>)
    ensures
        r@ == strip_channels_from(text@, 0),
{
    let s = text;
    let open: Vec<char> = vec!['<', 'c', 'h', 'a', 'n', 'n', 'e', 'l'];
    let close: Vec<char> = vec!['<', '/', 'c', 'h', 'a', 'n', 'n', 'e', 'l', '>'];
    assert(open@ =~= channel_open());
    assert(close@ =~= channel_close());
    let mut out: Vec<char> = Vec::new();
    let mut i: usize = 0;
    while i < s.len()
        invariant
            i <= s.len(),
            open@ == channel_open(),
            close@ == channel_close(),
            strip_channels_from(s@, 0) == out@ + strip_channels_from(s@, i as int),
        decreases s.len() - i,
    {
        let ghost old_out = out@;
        let mut end: usize = 0;
        if crate::text::matches_at(s, &open, i) {
            let a = i + 8;
            if a == s.len() || !crate::markdown::is_word_char(s[a]) {
                let g = crate::markdown::find_char(s, a, '>');
                proof {
                    crate::markdown::lemma_next_of(s@, a as int, '>');
                }
                if g < s.len() {
                    let mut m = g + 1;
                    while m <= s.len() && 10 <= s.len() - m && !crate::text::matches_at(
                        s,
                        &close,
                        m,
                    )
                        invariant
                            g + 1 <= m <= s.len(),
                            close@ == channel_close(),
                            next_occ(s@, g + 1, channel_close()) == next_occ(
                                s@,
                                m as int,
                                channel_close(),
                            ),
                        decreases s.len() - m,
                    {
                        m = m + 1;
                    }
                    proof {
                        lemma_next_occ(s@, m as int, channel_close());
                    }
                    if 10 <= s.len() - m {
                        end = if m + 10 < s.len() && s[m + 10] == '\n' {
                            m + 11
                        } else {
                            m + 10
                        };
                    }
                }
            }
        }
        if end > i {
            assert(channel_end(s@, i as int) == end);
            i = end;
        } else {
            assert(!(channel_end(s@, i as int) > i && channel_end(s@, i as int) <= s@.len()));
            out.push(s[i]);
            proof {
                let r = strip_channels_from(s@, i + 1);
                assert(out@ + r =~= old_out + (seq![s@[i as int]] + r));
            }
            i = i + 1;
        }
    }
    assert(out@ + Seq::<char>::empty() =~= out@);
    out
}

/// `(no response)`.
pub open spec fn no_response() -> Seq<char> {
    "(no response)"@
}

/// The response of a finished stream: its text without echoed channel blocks and
/// without surrounding whitespace; when that is empty, the error (behind a warning
/// sign) or `(no response)`.
pub open spec fn response_spec(st: StreamState) -> Seq<char> {
    let stripped = if st.text@.len() == 0 {
        no_response()
    } else {
        crate::text::trim(strip_channels_from(st.text@, 0))
    };
    if stripped.len() == 0 {
        match st.error {
            Some(e) => seq!['\u{26A0}', '\u{FE0F}', ' '] + e@,
            None => no_response(),
        }
    } else {
        stripped
    }
}

/// The response text of a finished stream.
pub fn response_text(st: &StreamState) -> (r: String)
    ensures
        r@ == response_spec(*st),
{
    let text = chars_of(st.text.as_str());
    let stripped: Vec<char> = if text.len() == 0 {
        chars_of("(no response)")
    } else {
        let s = strip_channel_tags(&text);
        crate::text::trim_chars(&s)
    };
    if stripped.len() == 0 {
        match &st.error {
            Some(e) => {
                let mut out: Vec<char> = Vec::new();
                out.push('\u{26A0}');
                out.push('\u{FE0F}');
                out.push(' ');
                extend_str(&mut out, e.as_str());
                string_of(&out)
            },
            None => copy_str("(no response)"),
        }
    } else {
        string_of(&stripped)
    }
}

/// The final reply in MarkdownV2: the tool calls, one per line and escaped as plain
/// MarkdownV2 text (this crate's own formatting of the tool block), the reasoning as an
/// expandable blockquote, each followed by a blank line, then the response.
pub open spec fn final_markdown_spec(st: StreamState, response: Seq<char>) -> Seq<char> {
    (if st.tool_lines@.len() > 0 {
        crate::markdown::escape_seq(
            crate::markdown::CharEscape::Md2,
            join_nl(string_views(st.tool_lines@)),
        ) + seq!['\n', '\n']
    } else {
        Seq::empty()
    }) + (if st.reasoning@.len() > 0 {
        crate::markdown::thinking_quote(st.reasoning@) + seq!['\n', '\n']
    } else {
        Seq::empty()
    }) + crate::markdown::markdown_v2(response)
}

/// The final reply in MarkdownV2 for a stream and its response text.
pub fn final_markdown(st: &StreamState, response: &str) -> (r: String)
    requires
        !response@.contains('\u{E000}'),
        !response@.contains('\u{E002}'),
    ensures
        r@ == final_markdown_spec(*st, response@),
{
    let mut out: Vec<char> = Vec::new();
    if st.tool_lines.len() > 0 {
        let lines = join_lines(&st.tool_lines);
        let esc = crate::markdown::escape_all(&lines, crate::markdown::CharEscape::Md2);
        extend_chars(&mut out, &esc);
        out.push('\n');
        out.push('\n');
    }
    let ghost after_tools = out@;
    if !st.reasoning.as_str().is_empty() {
        let q = crate::markdown::thinking_to_md2(st.reasoning.as_str());
        extend_str(&mut out, q.as_str());
        out.push('\n');
        out.push('\n');
    }
    let ghost after_reasoning = out@;
    let body = crate::markdown::to_markdown_v2(response);
    extend_str(&mut out, body.as_str());
    assert(out@ =~= final_markdown_spec(*st, response@));
    string_of(&out)
}

/// The final reply as plain text, sent when MarkdownV2 is refused: the tool calls,
/// the reasoning behind a thought bubble, each followed by a blank line, then the
/// response.
pub open spec fn final_plain_spec(st: StreamState, response: Seq<char>) -> Seq<char> {
    (if st.tool_lines@.len() > 0 {
        join_nl(string_views(st.tool_lines@)) + seq!['\n', '\n']
    } else {
        Seq::empty()
    }) + (if st.reasoning@.len() > 0 {
        seq!['\u{1F4AD}', ' '] + st.reasoning@ + seq!['\n', '\n']
    } else {
        Seq::empty()
    }) + response
}

/// The final reply as plain text.
pub fn final_plain(st: &StreamState, response: &str) -> (r: String)
    ensures
        r@ == final_plain_spec(*st, response@),
{
    let mut out: Vec<char> = Vec::new();
    if st.tool_lines.len() > 0 {
        let lines = join_lines(&st.tool_lines);
        extend_chars(&mut out, &lines);
        out.push('\n');
        out.push('\n');
    }
    if !st.reasoning.as_str().is_empty() {
        out.push('\u{1F4AD}');
        out.push(' ');
        extend_str(&mut out, st.reasoning.as_str());
        out.push('\n');
        out.push('\n');
    }
    extend_str(&mut out, response);
    assert(out@ =~= final_plain_spec(*st, response@));
    string_of(&out)
}

/// Whether a response can be converted to MarkdownV2 (it holds no placeholder opener).
pub fn markdown_ok(response: &str) -> (r: bool)
    ensures
        r == (!response@.contains('\u{E000}') && !response@.contains('\u{E002}')),
{
    let v = chars_of(response);
    !crate::text::contains_char(&v, '\u{E000}') && !crate::text::contains_char(&v, '\u{E002}')
}

} // verus!
