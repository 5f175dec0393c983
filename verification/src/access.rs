//! Access control: who may talk to the bot, mention detection, the DM pairing
//! flow and the cached copy of the access configuration.
use vstd::prelude::*;
use crate::text::{
    chars_of, contains_str, copy_str, extend_chars, extend_str, has_prefix, is_ws,
    lemma_leading_ws_unique, skip_ws, starts_with_chars, str_eq, string_of, string_views,
    trim_start,
};

verus! {

/// Per-group policy.
#[derive(Clone)]
pub struct GroupPolicy {
    pub require_mention: bool,
    pub allow_from: Vec<String>,
}

/// A pairing request waiting for the admin's approval.
#[derive(Clone)]
pub struct PendingEntry {
    pub sender_id: String,
    pub chat_id: String,
    pub created_at: u64,
    pub expires_at: u64,
    pub replies: u32,
}

/// The abstract value of a pending entry.
pub struct PendingView {
    pub sender_id: Seq<char>,
    pub chat_id: Seq<char>,
    pub created_at: u64,
    pub expires_at: u64,
    pub replies: u32,
}

impl View for PendingEntry {
    type V = PendingView;

    open spec fn view(&self) -> PendingView {
        PendingView {
            sender_id: self.sender_id@,
            chat_id: self.chat_id@,
            created_at: self.created_at,
            expires_at: self.expires_at,
            replies: self.replies,
        }
    }
}

/// The access configuration. `groups` and `pending` are keyed collections
/// (group chat id, pairing code) whose keys are unique (`wf`).
#[derive(Clone)]
pub struct Access {
    pub dm_policy: String,
    pub allow_from: Vec<String>,
    pub groups: Vec<(String, GroupPolicy)>,
    pub pending: Vec<(String, PendingEntry)>,
    pub mention_patterns: Vec<String>,
}

/// Abstract pending map: pairing codes with their entries, in order.
pub open spec fn pending_view(p: Seq<(String, PendingEntry)>) -> Seq<(Seq<char>, PendingView)> {
    p.map_values(|e: (String, PendingEntry)| (e.0@, e.1@))
}

/// Whether the keys of a keyed sequence are unique.
pub open spec fn unique_keys<V>(s: Seq<(Seq<char>, V)>) -> bool {
    forall|i: int, j: int| 0 <= i < j < s.len() ==> s[i].0 != s[j].0
}

/// The keys of the group policies.
pub open spec fn group_keys(g: Seq<(String, GroupPolicy)>) -> Seq<(Seq<char>, ())> {
    g.map_values(|e: (String, GroupPolicy)| (e.0@, ()))
}

impl Access {
    /// The keyed collections have unique keys.
    pub open spec fn wf(&self) -> bool {
        &&& unique_keys(group_keys(self.groups@))
        &&& unique_keys(pending_view(self.pending@))
    }
}

impl Default for Access {
    fn default() -> (r: Self)
        ensures
            r.dm_policy@ == "pairing"@,
            r.allow_from@.len() == 0,
            r.groups@.len() == 0,
            r.pending@.len() == 0,
            r.mention_patterns@.len() == 0,
            r.wf(),
    {
        Access {
            dm_policy: copy_str("pairing"),
            allow_from: Vec::new(),
            groups: Vec::new(),
            pending: Vec::new(),
            mention_patterns: Vec::new(),
        }
    }
}

/// How long a loaded access configuration is trusted, in milliseconds.
pub const CACHE_TTL_MS: u64 = 2000;

/// The access configuration as last loaded or saved, with the time of that load
/// (milliseconds) and the file it lives in.
pub struct AccessCache {
    data: Option<Access>,
    loaded_at: Option<u64>,
    path: String,
}

/// Milliseconds from `then` to `now`; zero when the clock went backwards.
pub open spec fn elapsed_ms(then: u64, now: u64) -> int {
    if now >= then {
        now - then
    } else {
        0
    }
}

impl AccessCache {
    pub closed spec fn spec_data(&self) -> Option<Access> {
        self.data
    }

    pub closed spec fn spec_loaded_at(&self) -> Option<u64> {
        self.loaded_at
    }

    pub closed spec fn spec_path(&self) -> Seq<char> {
        self.path@
    }

    /// An empty cache for the configuration file at `path`.
    pub fn new(path: String) -> (r: Self)
        ensures
            r.spec_data() is None,
            r.spec_loaded_at() is None,
            r.spec_path() == path@,
    {
        AccessCache { data: None, loaded_at: None, path }
    }

    /// The file the configuration lives in.
    pub fn path(&self) -> (r: &str)
        ensures
            r@ == self.spec_path(),
    {
        self.path.as_str()
    }

    /// The cached configuration, while it is younger than the time to live.
    pub open spec fn fresh_spec(&self, now: u64) -> Option<Access> {
        match (self.spec_data(), self.spec_loaded_at()) {
            (Some(d), Some(t)) => if elapsed_ms(t, now) < CACHE_TTL_MS {
                Some(d)
            } else {
                None
            },
            _ => None,
        }
    }

    /// The cached configuration, while it is younger than the time to live.
    pub fn fresh(&self, now: u64) -> (r: Option<&Access>)
        ensures
            match r {
                Some(x) => self.fresh_spec(now) == Some(*x),
                None => self.fresh_spec(now) is None,
            },
    {
        match (&self.data, &self.loaded_at) {
            (Some(d), Some(t)) => {
                let elapsed = if now >= *t {
                    now - *t
                } else {
                    0
                };
                if elapsed < CACHE_TTL_MS {
                    Some(d)
                } else {
                    None
                }
            },
            _ => None,
        }
    }

    /// Records a configuration that was just loaded or saved at time `now`.
    pub fn store(&mut self, access: Access, now: u64)
        ensures
            final(self).spec_data() == Some(access),
            final(self).spec_loaded_at() == Some(now),
            final(self).spec_path() == old(self).spec_path(),
    {
        self.data = Some(access);
        self.loaded_at = Some(now);
    }
}

/// Saving updates the cache: a configuration stored at time `t` is what the cache
/// serves for the time to live after `t`, and nothing is served once it has passed.
pub proof fn law_cache_serves_own_write(c: AccessCache, a: Access, t: u64, now: u64)
    requires
        c.spec_data() == Some(a),
        c.spec_loaded_at() == Some(t),
    ensures
        elapsed_ms(t, now) < CACHE_TTL_MS ==> c.fresh_spec(now) == Some(a),
        elapsed_ms(t, now) >= CACHE_TTL_MS ==> c.fresh_spec(now) is None,
{
}

/// Result of the access check for a message.
#[derive(Debug, PartialEq, Eq, Structural)]
pub enum GateResult {
    Allow,
    Pair,
    Deny,
}

/// The mention patterns: the configured ones, then `@bot_username` when it is known
/// and not configured already.
pub open spec fn mention_patterns_spec(configured: Seq<Seq<char>>, bot_username: Seq<char>) -> Seq<
    Seq<char>,
> {
    if bot_username.len() == 0 {
        configured
    } else if configured.contains(seq!['@'] + bot_username) {
        configured
    } else {
        configured.push(seq!['@'] + bot_username)
    }
}

/// The mention patterns of `access` for the bot `bot_username`.
pub fn get_mention_patterns(access: &Access, bot_username: &str) -> (r: Vec<String>)
    ensures
        string_views(r@) == mention_patterns_spec(
            string_views(access.mention_patterns@),
            bot_username@,
        ),
        bot_username@.len() > 0 ==> string_views(r@).contains(seq!['@'] + bot_username@),
{
    let mut patterns: Vec<String> = Vec::new();
    let mut i: usize = 0;
    while i < access.mention_patterns.len()
        invariant
            i <= access.mention_patterns.len(),
            string_views(patterns@) == string_views(access.mention_patterns@).take(i as int),
        decreases access.mention_patterns.len() - i,
    {
        let ghost before = patterns@;
        let c = copy_str(access.mention_patterns[i].as_str());
        patterns.push(c);
        assert(string_views(patterns@) =~= string_views(before).push(c@));
        assert(string_views(access.mention_patterns@).take(i + 1) =~= string_views(
            access.mention_patterns@,
        ).take(i as int).push(c@));
        i = i + 1;
        assert(string_views(patterns@) =~= string_views(access.mention_patterns@).take(i as int));
    }
    assert(string_views(access.mention_patterns@).take(i as int) =~= string_views(
        access.mention_patterns@,
    ));
    let bot = chars_of(bot_username);
    if bot.len() > 0 {
        let mut at: Vec<char> = Vec::new();
        at.push('@');
        extend_chars(&mut at, &bot);
        let at_s = string_of(&at);
        if !contains_str(&patterns, at_s.as_str()) {
            let ghost before = patterns@;
            patterns.push(at_s);
            assert(string_views(patterns@) =~= string_views(before).push(at@));
            assert(string_views(patterns@)[string_views(before).len() as int] == at@);
        }
    }
    patterns
}

/// Index of the first pattern that `t` starts with, or -1.
pub open spec fn first_prefix(t: Seq<char>, ps: Seq<Seq<char>>, i: int) -> int
    decreases ps.len() - i,
{
    if i < 0 || i >= ps.len() {
        -1
    } else if has_prefix(t, ps[i]) {
        i
    } else {
        first_prefix(t, ps, i + 1)
    }
}

pub proof fn lemma_first_prefix(t: Seq<char>, ps: Seq<Seq<char>>, i: int)
    requires
        0 <= i <= ps.len(),
    ensures
        first_prefix(t, ps, i) == -1 || (i <= first_prefix(t, ps, i) < ps.len() && has_prefix(
            t,
            ps[first_prefix(t, ps, i)],
        )),
        first_prefix(t, ps, i) == -1 <==> (forall|k: int| i <= k < ps.len() ==> !has_prefix(
            t,
            #[trigger] ps[k],
        )),
    decreases ps.len() - i,
{
    if i < ps.len() && !has_prefix(t, ps[i]) {
        lemma_first_prefix(t, ps, i + 1);
    }
}

/// Whether the text, after leading whitespace, starts with one of the patterns.
pub open spec fn starts_with_mention(text: Seq<char>, ps: Seq<Seq<char>>) -> bool {
    first_prefix(trim_start(text), ps, 0) >= 0
}

/// `trim_start` of a string slice, as characters.
fn trim_start_of(text: &str) -> (r: Vec<char>)
    ensures
        r@ == trim_start(text@),
{
    let v = chars_of(text);
    crate::text::trim_start_chars(&v)
}

/// Index of the first pattern that `t` starts with, or `ps.len()`.
fn find_prefix(t: &Vec<char>, ps: &Vec<String>) -> (r: usize)
    ensures
        r < ps.len() ==> r == first_prefix(t@, string_views(ps@), 0),
        r >= ps.len() ==> first_prefix(t@, string_views(ps@), 0) == -1,
        r <= ps.len(),
{
    let ghost pv = string_views(ps@);
    let mut i: usize = 0;
    while i < ps.len()
        invariant
            i <= ps.len(),
            pv == string_views(ps@),
            first_prefix(t@, pv, 0) == first_prefix(t@, pv, i as int),
        decreases ps.len() - i,
    {
        let p = chars_of(ps[i].as_str());
        assert(pv[i as int] == p@);
        if starts_with_chars(t, &p) {
            return i;
        }
        i = i + 1;
    }
    i
}

/// Whether the chat type names a group chat.
pub open spec fn is_group_chat(chat_type: Seq<char>) -> bool {
    chat_type == "group"@ || chat_type == "supergroup"@
}

/// Whether `chat_type` is a group or a supergroup.
pub fn group_chat(chat_type: &str) -> (r: bool)
    ensures
        r == is_group_chat(chat_type@),
{
    str_eq(chat_type, "group") || str_eq(chat_type, "supergroup")
}

/// Index of the first entry with key `k`, or -1.
pub open spec fn key_index<V>(s: Seq<(Seq<char>, V)>, k: Seq<char>, i: int) -> int
    decreases s.len() - i,
{
    if i < 0 || i >= s.len() {
        -1
    } else if s[i].0 == k {
        i
    } else {
        key_index(s, k, i + 1)
    }
}

pub proof fn lemma_key_index<V>(s: Seq<(Seq<char>, V)>, k: Seq<char>, i: int)
    requires
        0 <= i <= s.len(),
    ensures
        key_index(s, k, i) == -1 || (i <= key_index(s, k, i) < s.len() && s[key_index(
            s,
            k,
            i,
        )].0 == k),
        key_index(s, k, i) == -1 <==> (forall|m: int| i <= m < s.len() ==> #[trigger] s[m].0 != k),
        forall|m: int| i <= m < key_index(s, k, i) ==> #[trigger] s[m].0 != k,
    decreases s.len() - i,
{
    if i < s.len() && s[i].0 != k {
        lemma_key_index(s, k, i + 1);
    }
}

/// The first position holding key `k` is `j` when `j` holds it and no earlier one does.
pub proof fn lemma_key_index_at<V>(s: Seq<(Seq<char>, V)>, k: Seq<char>, j: int)
    requires
        0 <= j < s.len(),
        s[j].0 == k,
        forall|m: int| 0 <= m < j ==> #[trigger] s[m].0 != k,
    ensures
        key_index(s, k, 0) == j,
{
    lemma_key_index(s, k, 0);
    let ki = key_index(s, k, 0);
    if ki != j {
        if ki == -1 {
            assert(s[j].0 != k);
        } else if ki < j {
            assert(s[ki].0 != k);
        } else {
            assert(s[j].0 != k);
        }
    }
}

/// Two key sequences with the same keys at every position find every key at the same
/// position.
pub proof fn lemma_key_index_same_keys<V, W>(s: Seq<(Seq<char>, V)>, t: Seq<(Seq<char>, W)>, k: Seq<char>)
    requires
        s.len() == t.len(),
        forall|m: int| 0 <= m < s.len() ==> #[trigger] s[m].0 == t[m].0,
    ensures
        key_index(s, k, 0) == key_index(t, k, 0),
{
    lemma_key_index(s, k, 0);
    lemma_key_index(t, k, 0);
    let ks = key_index(s, k, 0);
    if ks == -1 {
        assert forall|m: int| 0 <= m < t.len() implies #[trigger] t[m].0 != k by {
            assert(s[m].0 != k);
        }
    } else {
        assert forall|m: int| 0 <= m < ks implies #[trigger] t[m].0 != k by {
            assert(s[m].0 != k);
        }
        assert(t[ks].0 == s[ks].0);
        lemma_key_index_at(t, k, ks);
    }
}

/// The policy of a group chat, if it has one.
pub open spec fn group_policy_of(groups: Seq<(String, GroupPolicy)>, chat_id: Seq<char>) -> Option<
    GroupPolicy,
> {
    let i = key_index(group_keys(groups), chat_id, 0);
    if i >= 0 {
        Some(groups[i].1)
    } else {
        None
    }
}

fn find_group<'a>(groups: &'a Vec<(String, GroupPolicy)>, chat_id: &str) -> (r: Option<
    &'a GroupPolicy,
>)
    ensures
        r matches Some(g) ==> group_policy_of(groups@, chat_id@) == Some(*g),
        r is None ==> group_policy_of(groups@, chat_id@) is None,
{
    let ghost ks = group_keys(groups@);
    let mut i: usize = 0;
    while i < groups.len()
        invariant
            i <= groups.len(),
            ks == group_keys(groups@),
            key_index(ks, chat_id@, 0) == key_index(ks, chat_id@, i as int),
        decreases groups.len() - i,
    {
        assert(ks[i as int].0 == groups@[i as int].0@);
        if str_eq(groups[i].0.as_str(), chat_id) {
            return Some(&groups[i].1);
        }
        i = i + 1;
    }
    None
}

/// Everything the access check looks at.
pub struct GateContext<'a> {
    pub access: &'a Access,
    pub chat_type: &'a str,
    pub chat_id: &'a str,
    pub sender_id: &'a str,
    pub text: &'a str,
    pub bot_username: &'a str,
    pub reply_to_bot: bool,
}

/// The access decision. Groups: only configured groups, only when mentioned or
/// replied to if the group requires a mention, only allowed senders if the group
/// lists any. Direct messages: never when disabled, always for allowed senders,
/// pairing for others under the pairing policy, else denied.
pub open spec fn gate_spec(
    access: Access,
    chat_type: Seq<char>,
    chat_id: Seq<char>,
    sender_id: Seq<char>,
    text: Seq<char>,
    bot_username: Seq<char>,
    reply_to_bot: bool,
) -> GateResult {
    if is_group_chat(chat_type) {
        match group_policy_of(access.groups@, chat_id) {
            None => GateResult::Deny,
            Some(gp) => if gp.require_mention && !starts_with_mention(
                text,
                mention_patterns_spec(string_views(access.mention_patterns@), bot_username),
            ) && !reply_to_bot {
                GateResult::Deny
            } else if gp.allow_from@.len() > 0 && !string_views(gp.allow_from@).contains(
                sender_id,
            ) {
                GateResult::Deny
            } else {
                GateResult::Allow
            },
        }
    } else if access.dm_policy@ == "disabled"@ {
        GateResult::Deny
    } else if string_views(access.allow_from@).contains(sender_id) {
        GateResult::Allow
    } else if access.dm_policy@ == "pairing"@ {
        GateResult::Pair
    } else {
        GateResult::Deny
    }
}

/// Whether the text, after leading whitespace, starts with one of the mention patterns.
pub fn mentions_bot(text: &str, access: &Access, bot_username: &str) -> (r: bool)
    ensures
        r == starts_with_mention(
            text@,
            mention_patterns_spec(string_views(access.mention_patterns@), bot_username@),
        ),
{
    let patterns = get_mention_patterns(access, bot_username);
    let trimmed = trim_start_of(text);
    let i = find_prefix(&trimmed, &patterns);
    proof {
        lemma_first_prefix(trimmed@, string_views(patterns@), 0);
    }
    i < patterns.len()
}

/// Decide whether a message may reach the model.
pub fn gate(ctx: &GateContext) -> (r: GateResult)
    ensures
        r == gate_spec(
            *ctx.access,
            ctx.chat_type@,
            ctx.chat_id@,
            ctx.sender_id@,
            ctx.text@,
            ctx.bot_username@,
            ctx.reply_to_bot,
        ),
{
    let access = ctx.access;
    if group_chat(ctx.chat_type) {
        let group_policy = match find_group(&access.groups, ctx.chat_id) {
            Some(p) => p,
            None => return GateResult::Deny,
        };
        if group_policy.require_mention {
            let starts = mentions_bot(ctx.text, access, ctx.bot_username);
            if !starts && !ctx.reply_to_bot {
                return GateResult::Deny;
            }
        }
        if group_policy.allow_from.len() > 0 && !contains_str(
            &group_policy.allow_from,
            ctx.sender_id,
        ) {
            return GateResult::Deny;
        }
        return GateResult::Allow;
    }
    if str_eq(access.dm_policy.as_str(), "disabled") {
        return GateResult::Deny;
    }
    if contains_str(&access.allow_from, ctx.sender_id) {
        return GateResult::Allow;
    }
    if str_eq(access.dm_policy.as_str(), "pairing") {
        return GateResult::Pair;
    }
    GateResult::Deny
}

/// The text with a leading mention removed: when the text (after leading whitespace)
/// starts with a pattern, what follows it without leading whitespace; else the text.
pub open spec fn strip_mention_spec(text: Seq<char>, ps: Seq<Seq<char>>) -> Seq<char> {
    let t = trim_start(text);
    let i = first_prefix(t, ps, 0);
    if i >= 0 {
        trim_start(t.skip(ps[i].len() as int))
    } else {
        text
    }
}

/// Removes a leading mention of the bot from `text`.
pub fn strip_mention(text: &str, access: &Access, bot_username: &str) -> (r: String)
    ensures
        r@ == strip_mention_spec(
            text@,
            mention_patterns_spec(string_views(access.mention_patterns@), bot_username@),
        ),
{
    let patterns = get_mention_patterns(access, bot_username);
    let trimmed = trim_start_of(text);
    let i = find_prefix(&trimmed, &patterns);
    proof {
        lemma_first_prefix(trimmed@, string_views(patterns@), 0);
    }
    if i < patterns.len() {
        let p = chars_of(patterns[i].as_str());
        assert(string_views(patterns@)[i as int] == p@);
        let m = skip_ws(&trimmed, p.len());
        proof {
            let t = trimmed@.skip(p@.len() as int);
            assert forall|q: int| 0 <= q < m - p.len() implies is_ws(#[trigger] t[q]) by {
                assert(t[q] == trimmed@[p.len() + q]);
            }
            if m < trimmed.len() {
                assert(t[m - p.len()] == trimmed@[m as int]);
            }
            lemma_leading_ws_unique(t, m - p.len());
            assert(trim_start(t) =~= trimmed@.subrange(m as int, trimmed@.len() as int));
        }
        let rest = crate::markdown::slice_chars(&trimmed, m, trimmed.len());
        string_of(&rest)
    } else {
        copy_str(text)
    }
}

// ---------------------------------------------------------------------------
// Pairing
// ---------------------------------------------------------------------------

/// How long a pairing code stays valid, in milliseconds.
pub const PAIRING_TTL_MS: u64 = 3_600_000;

/// Index of the first pending entry of `sender`, or -1.
pub open spec fn sender_index(p: Seq<(Seq<char>, PendingView)>, sender: Seq<char>, i: int) -> int
    decreases p.len() - i,
{
    if i < 0 || i >= p.len() {
        -1
    } else if p[i].1.sender_id == sender {
        i
    } else {
        sender_index(p, sender, i + 1)
    }
}

pub proof fn lemma_sender_index(p: Seq<(Seq<char>, PendingView)>, sender: Seq<char>, i: int)
    requires
        0 <= i <= p.len(),
    ensures
        sender_index(p, sender, i) == -1 || (i <= sender_index(p, sender, i) < p.len()
            && p[sender_index(p, sender, i)].1.sender_id == sender),
    decreases p.len() - i,
{
    if i < p.len() && p[i].1.sender_id != sender {
        lemma_sender_index(p, sender, i + 1);
    }
}

/// The entries that have not expired at `now`, in order.
pub open spec fn live_entries(p: Seq<(Seq<char>, PendingView)>, now: u64) -> Seq<
    (Seq<char>, PendingView),
>
    decreases p.len(),
{
    if p.len() == 0 {
        Seq::empty()
    } else {
        live_entries(p.drop_last(), now) + if p.last().1.expires_at > now {
            seq![p.last()]
        } else {
            Seq::empty()
        }
    }
}

/// `p` with `k` mapped to `v`: the value replaced where the key is present, else appended.
pub open spec fn insert_key(p: Seq<(Seq<char>, PendingView)>, k: Seq<char>, v: PendingView) -> Seq<
    (Seq<char>, PendingView),
> {
    let i = key_index(p, k, 0);
    if i >= 0 {
        p.update(i, (k, v))
    } else {
        p.push((k, v))
    }
}

/// The reply counter after one more reply: `replies + 1` as the unchecked `u32`
/// addition gives it (wrapping to zero past the maximum).
pub open spec fn next_replies(replies: u32) -> u32 {
    if replies == u32::MAX {
        0
    } else {
        (replies + 1) as u32
    }
}

/// The expiry of a request made at `now`: `now + PAIRING_TTL_MS` as the unchecked `u64`
/// addition gives it (wrapping past the maximum).
pub open spec fn expiry_of(now: u64) -> u64 {
    if now <= u64::MAX - PAIRING_TTL_MS {
        (now + PAIRING_TTL_MS) as u64
    } else {
        (now - (u64::MAX - PAIRING_TTL_MS) - 1) as u64
    }
}

/// Reply: the sender is paired already.
pub open spec fn reply_paired() -> Seq<char> {
    "You are already paired. Send messages and I will respond."@
}

/// Reply: the sender asked for its code too often.
pub open spec fn reply_too_many_attempts() -> Seq<char> {
    "Too many attempts. Please try again later."@
}

/// Reply: the sender's code, repeated.
pub open spec fn reply_code_again(code: Seq<char>) -> Seq<char> {
    "Your pairing code is: "@ + code + "\nAsk the admin to run: opencode telegram pair "@ + code
}

/// Reply: too many requests are waiting.
pub open spec fn reply_too_many_pending() -> Seq<char> {
    "Too many pending pairing requests. Please try again later."@
}

/// Reply: a new code.
pub open spec fn reply_new_code(code: Seq<char>) -> Seq<char> {
    "Your pairing code is: "@ + code + "\nAsk the admin to approve with: opencode telegram pair "@
        + code + "\nThis code expires in 1 hour."@
}

/// One step of the pairing flow for `sender` at time `now`, with `code` as the code a
/// new request would get: the new pending entries and the reply.
pub open spec fn pairing_spec(
    pending: Seq<(Seq<char>, PendingView)>,
    allow_from: Seq<Seq<char>>,
    sender: Seq<char>,
    chat: Seq<char>,
    now: u64,
    code: Seq<char>,
) -> (Seq<(Seq<char>, PendingView)>, Seq<char>) {
    let i = sender_index(pending, sender, 0);
    if allow_from.contains(sender) {
        (pending, reply_paired())
    } else if i >= 0 && pending[i].1.expires_at > now && next_replies(pending[i].1.replies) > 3 {
        (pending.remove(i), reply_too_many_attempts())
    } else if i >= 0 && pending[i].1.expires_at > now {
        let e = pending[i];
        (
            pending.update(
                i,
                (
                    e.0,
                    PendingView {
                        sender_id: e.1.sender_id,
                        chat_id: e.1.chat_id,
                        created_at: e.1.created_at,
                        expires_at: e.1.expires_at,
                        replies: next_replies(e.1.replies),
                    },
                ),
            ),
            reply_code_again(e.0),
        )
    } else {
        let p1 = if i >= 0 {
            pending.remove(i)
        } else {
            pending
        };
        let p2 = live_entries(p1, now);
        if p2.len() >= 3 {
            (p2, reply_too_many_pending())
        } else {
            (
                insert_key(
                    p2,
                    code,
                    PendingView {
                        sender_id: sender,
                        chat_id: chat,
                        created_at: now,
                        expires_at: expiry_of(now),
                        replies: 1,
                    },
                ),
                reply_new_code(code),
            )
        }
    }
}

proof fn lemma_unique_keys_remove(p: Seq<(Seq<char>, PendingView)>, i: int)
    requires
        unique_keys(p),
        0 <= i < p.len(),
    ensures
        unique_keys(p.remove(i)),
{
    let q = p.remove(i);
    assert forall|a: int, b: int| 0 <= a < b < q.len() implies q[a].0 != q[b].0 by {
        let a2 = if a < i {
            a
        } else {
            a + 1
        };
        let b2 = if b < i {
            b
        } else {
            b + 1
        };
        assert(q[a] == p[a2]);
        assert(q[b] == p[b2]);
    }
}

proof fn lemma_live_entries(p: Seq<(Seq<char>, PendingView)>, now: u64)
    ensures
        live_entries(p, now).len() <= p.len(),
        forall|a: int|
            0 <= a < live_entries(p, now).len() ==> p.contains(#[trigger] live_entries(p, now)[a]),
        unique_keys(p) ==> unique_keys(live_entries(p, now)),
    decreases p.len(),
{
    if p.len() > 0 {
        let q = p.drop_last();
        lemma_live_entries(q, now);
        let l = live_entries(q, now);
        assert forall|a: int| 0 <= a < live_entries(p, now).len() implies p.contains(
            #[trigger] live_entries(p, now)[a],
        ) by {
            if a < l.len() {
                let x = l[a];
                assert(q.contains(x));
                let w = choose|w: int| 0 <= w < q.len() && q[w] == x;
                assert(p[w] == x);
            } else {
                assert(live_entries(p, now)[a] == p[p.len() - 1]);
            }
        }
        if unique_keys(p) {
            assert(unique_keys(q));
            if p.last().1.expires_at > now {
                let r = live_entries(p, now);
                assert(r == l.push(p.last()));
                assert forall|a: int, b: int| 0 <= a < b < r.len() implies r[a].0 != r[b].0 by {
                    if b == l.len() {
                        let x = l[a];
                        assert(q.contains(x));
                        let w = choose|w: int| 0 <= w < q.len() && q[w] == x;
                        assert(p[w] == x);
                        assert(p[p.len() - 1] == p.last());
                    }
                }
            } else {
                assert(live_entries(p, now) =~= l);
            }
        }
    }
}

proof fn lemma_insert_key(p: Seq<(Seq<char>, PendingView)>, k: Seq<char>, v: PendingView)
    requires
        unique_keys(p),
    ensures
        unique_keys(insert_key(p, k, v)),
        insert_key(p, k, v).len() <= p.len() + 1,
{
    lemma_key_index(p, k, 0);
    let q = insert_key(p, k, v);
    assert forall|a: int, b: int| 0 <= a < b < q.len() implies q[a].0 != q[b].0 by {
        if key_index(p, k, 0) < 0 && b == p.len() {
            assert(p[a].0 != k);
        }
    }
}

/// One pairing step leaves the keys unique and never grows the pending requests
/// beyond three or beyond what was there.
pub proof fn law_pairing_bounded(
    pending: Seq<(Seq<char>, PendingView)>,
    allow_from: Seq<Seq<char>>,
    sender: Seq<char>,
    chat: Seq<char>,
    now: u64,
    code: Seq<char>,
)
    requires
        unique_keys(pending),
    ensures
        unique_keys(pairing_spec(pending, allow_from, sender, chat, now, code).0),
        pairing_spec(pending, allow_from, sender, chat, now, code).0.len() <= pending.len()
            || pairing_spec(pending, allow_from, sender, chat, now, code).0.len() <= 3,
{
    let i = sender_index(pending, sender, 0);
    lemma_sender_index(pending, sender, 0);
    if allow_from.contains(sender) {
    } else if i >= 0 && pending[i].1.expires_at > now && next_replies(pending[i].1.replies) > 3 {
        lemma_unique_keys_remove(pending, i);
    } else if i >= 0 && pending[i].1.expires_at > now {
        let u = pairing_spec(pending, allow_from, sender, chat, now, code).0;
        assert(u.len() == pending.len());
        assert forall|a: int| 0 <= a < u.len() implies #[trigger] u[a].0 == pending[a].0 by {}
        assert forall|a: int, b: int| 0 <= a < b < u.len() implies u[a].0 != u[b].0 by {
            assert(u[a].0 == pending[a].0);
            assert(u[b].0 == pending[b].0);
        }
    } else {
        let p1 = if i >= 0 {
            pending.remove(i)
        } else {
            pending
        };
        if i >= 0 {
            lemma_unique_keys_remove(pending, i);
        }
        lemma_live_entries(p1, now);
        let p2 = live_entries(p1, now);
        if p2.len() < 3 {
            lemma_insert_key(
                p2,
                code,
                PendingView {
                    sender_id: sender,
                    chat_id: chat,
                    created_at: now,
                    expires_at: expiry_of(now),
                    replies: 1,
                },
            );
        }
    }
}

/// No sender has two pending requests.
pub open spec fn unique_senders(p: Seq<(Seq<char>, PendingView)>) -> bool {
    forall|i: int, j: int| 0 <= i < j < p.len() ==> p[i].1.sender_id != p[j].1.sender_id
}

proof fn lemma_live_entries_senders(p: Seq<(Seq<char>, PendingView)>, now: u64, s: Seq<char>)
    requires
        unique_senders(p),
    ensures
        unique_senders(live_entries(p, now)),
        (forall|m: int| 0 <= m < p.len() ==> p[m].1.sender_id != s) ==> (forall|m: int|
            0 <= m < live_entries(p, now).len() ==> #[trigger] live_entries(p, now)[m].1.sender_id
                != s),
    decreases p.len(),
{
    if p.len() > 0 {
        let q = p.drop_last();
        assert(unique_senders(q));
        lemma_live_entries_senders(q, now, s);
        lemma_live_entries(q, now);
        let l = live_entries(q, now);
        let x = p.last();
        if x.1.expires_at > now {
            let lp = live_entries(p, now);
            assert(lp == l.push(x));
            assert forall|i: int, j: int| 0 <= i < j < lp.len() implies lp[i].1.sender_id
                != lp[j].1.sender_id by {
                if j == l.len() {
                    assert(q.contains(l[i]));
                    let w = choose|w: int| 0 <= w < q.len() && q[w] == l[i];
                    assert(p[w] == q[w]);
                    assert(p[p.len() - 1] == x);
                } else {
                    assert(lp[i] == l[i]);
                    assert(lp[j] == l[j]);
                }
            }
            if forall|m: int| 0 <= m < p.len() ==> p[m].1.sender_id != s {
                assert(p[p.len() - 1] == x);
                assert forall|m: int| 0 <= m < q.len() implies q[m].1.sender_id != s by {
                    assert(q[m] == p[m]);
                }
            }
        } else {
            assert(live_entries(p, now) =~= l);
            if forall|m: int| 0 <= m < p.len() ==> p[m].1.sender_id != s {
                assert forall|m: int| 0 <= m < q.len() implies q[m].1.sender_id != s by {
                    assert(q[m] == p[m]);
                }
            }
        }
    }
}

/// One pairing step leaves every sender with at most one pending request, and keeps
/// at most three requests waiting when at most three were.
pub proof fn law_pairing_senders_unique(
    pending: Seq<(Seq<char>, PendingView)>,
    allow_from: Seq<Seq<char>>,
    sender: Seq<char>,
    chat: Seq<char>,
    now: u64,
    code: Seq<char>,
)
    requires
        unique_keys(pending),
        unique_senders(pending),
    ensures
        unique_senders(pairing_spec(pending, allow_from, sender, chat, now, code).0),
        pending.len() <= 3 ==> pairing_spec(pending, allow_from, sender, chat, now, code).0.len()
            <= 3,
{
    law_pairing_bounded(pending, allow_from, sender, chat, now, code);
    let out = pairing_spec(pending, allow_from, sender, chat, now, code).0;
    let i = sender_index(pending, sender, 0);
    lemma_sender_index(pending, sender, 0);
    if allow_from.contains(sender) {
    } else if i >= 0 && pending[i].1.expires_at > now {
        assert forall|a: int, b: int| 0 <= a < b < out.len() implies out[a].1.sender_id
            != out[b].1.sender_id by {
            if next_replies(pending[i].1.replies) > 3 {
                let a2 = if a < i { a } else { a + 1 };
                let b2 = if b < i { b } else { b + 1 };
                assert(out[a] == pending[a2]);
                assert(out[b] == pending[b2]);
            } else {
                assert(out[a].1.sender_id == pending[a].1.sender_id);
                assert(out[b].1.sender_id == pending[b].1.sender_id);
            }
        }
    } else {
        let p1 = if i >= 0 {
            pending.remove(i)
        } else {
            pending
        };
        assert(unique_senders(p1)) by {
            if i >= 0 {
                assert forall|a: int, b: int| 0 <= a < b < p1.len() implies p1[a].1.sender_id
                    != p1[b].1.sender_id by {
                    let a2 = if a < i { a } else { a + 1 };
                    let b2 = if b < i { b } else { b + 1 };
                    assert(p1[a] == pending[a2]);
                    assert(p1[b] == pending[b2]);
                }
            }
        }
        assert forall|m: int| 0 <= m < p1.len() implies p1[m].1.sender_id != sender by {
            if i >= 0 {
                let m2 = if m < i { m } else { m + 1 };
                assert(p1[m] == pending[m2]);
                assert(m2 != i);
                if m2 < i {
                    lemma_sender_index_first(pending, sender, 0, m2);
                } else {
                    assert(pending[i].1.sender_id == sender);
                }
            } else {
                lemma_sender_index_first(pending, sender, 0, m);
            }
        }
        lemma_live_entries_senders(p1, now, sender);
        let p2 = live_entries(p1, now);
        if p2.len() < 3 {
            let v = PendingView {
                sender_id: sender,
                chat_id: chat,
                created_at: now,
                expires_at: expiry_of(now),
                replies: 1,
            };
            lemma_key_index(p2, code, 0);
            assert(out == insert_key(p2, code, v));
            assert forall|a: int, b: int| 0 <= a < b < out.len() implies out[a].1.sender_id
                != out[b].1.sender_id by {
                let k = key_index(p2, code, 0);
                if k >= 0 {
                    if a == k {
                        assert(out[b] == p2[b]);
                    } else if b == k {
                        assert(out[a] == p2[a]);
                    } else {
                        assert(out[a] == p2[a]);
                        assert(out[b] == p2[b]);
                    }
                } else if b == p2.len() {
                    assert(out[a] == p2[a]);
                } else {
                    assert(out[a] == p2[a]);
                    assert(out[b] == p2[b]);
                }
            }
        }
    }
}

/// Entries before the first of a sender's are someone else's.
proof fn lemma_sender_index_first(p: Seq<(Seq<char>, PendingView)>, sender: Seq<char>, i: int, m: int)
    requires
        0 <= i <= m < p.len(),
        sender_index(p, sender, i) == -1 || m < sender_index(p, sender, i),
    ensures
        p[m].1.sender_id != sender,
    decreases m - i,
{
    if i < m {
        lemma_sender_index_first(p, sender, i + 1, m);
    }
}

/// Index of the first pending entry of `sender`, or `p.len()`.
fn find_sender(p: &Vec<(String, PendingEntry)>, sender: &str) -> (r: usize)
    ensures
        r < p.len() ==> r == sender_index(pending_view(p@), sender@, 0),
        r >= p.len() ==> sender_index(pending_view(p@), sender@, 0) == -1,
        r <= p.len(),
{
    let ghost pv = pending_view(p@);
    let mut i: usize = 0;
    while i < p.len()
        invariant
            i <= p.len(),
            pv == pending_view(p@),
            sender_index(pv, sender@, 0) == sender_index(pv, sender@, i as int),
        decreases p.len() - i,
    {
        assert(pv[i as int].1.sender_id == p@[i as int].1.sender_id@);
        if str_eq(p[i].1.sender_id.as_str(), sender) {
            return i;
        }
        i = i + 1;
    }
    i
}

/// Index of the entry with key `code`, or `p.len()`.
fn find_code(p: &Vec<(String, PendingEntry)>, code: &str) -> (r: usize)
    ensures
        r < p.len() ==> r == key_index(pending_view(p@), code@, 0),
        r >= p.len() ==> key_index(pending_view(p@), code@, 0) == -1,
        r <= p.len(),
{
    let ghost pv = pending_view(p@);
    let mut i: usize = 0;
    while i < p.len()
        invariant
            i <= p.len(),
            pv == pending_view(p@),
            key_index(pv, code@, 0) == key_index(pv, code@, i as int),
        decreases p.len() - i,
    {
        assert(pv[i as int].0 == p@[i as int].0@);
        if str_eq(p[i].0.as_str(), code) {
            return i;
        }
        i = i + 1;
    }
    i
}

/// Keeps the entries that have not expired at `now`.
fn retain_live(p: &mut Vec<(String, PendingEntry)>, now: u64)
    ensures
        pending_view(final(p)@) == live_entries(pending_view(old(p)@), now),
{
    let ghost orig = pending_view(p@);
    let mut src: Vec<(String, PendingEntry)> = Vec::new();
    std::mem::swap(&mut src, p);
    let ghost n = src.len();
    let mut k: usize = 0;
    assert(orig.take(0) =~= Seq::<(Seq<char>, PendingView)>::empty());
    assert(pending_view(p@) =~= Seq::<(Seq<char>, PendingView)>::empty());
    while src.len() > 0
        invariant
            k + src.len() == n,
            orig.len() == n,
            pending_view(src@) == orig.skip(k as int),
            pending_view(p@) == live_entries(orig.take(k as int), now),
        decreases src.len(),
    {
        let ghost before = p@;
        let ghost src_before = src@;
        let e = src.remove(0);
        assert(e.0@ == orig[k as int].0 && e.1@ == orig[k as int].1) by {
            assert(pending_view(src_before)[0] == orig.skip(k as int)[0]);
        }
        assert(orig.take(k + 1).drop_last() =~= orig.take(k as int));
        assert(orig.take(k + 1).last() == orig[k as int]);
        if e.1.expires_at > now {
            p.push(e);
            assert(pending_view(p@) =~= pending_view(before).push(orig[k as int]));
        }
        assert(src@ == src_before.remove(0));
        assert(pending_view(src@) =~= pending_view(src_before).drop_first());
        assert(orig.skip(k as int).drop_first() =~= orig.skip(k + 1));
        k = k + 1;
    }
    assert(orig.take(k as int) =~= orig);
}

/// The reply built from literal pieces and the code.
fn code_reply(first: &str, code: &str, second: &str, third: &str) -> (r: String)
    ensures
        r@ == first@ + code@ + second@ + code@ + third@,
{
    let mut out: Vec<char> = Vec::new();
    extend_str(&mut out, first);
    extend_str(&mut out, code);
    extend_str(&mut out, second);
    extend_str(&mut out, code);
    extend_str(&mut out, third);
    string_of(&out)
}

/// The pairing flow for a direct message from an unknown sender, at time `now` and
/// with `code` as the code for a new request.
pub fn handle_pairing_at(
    access: &mut Access,
    sender_id: &str,
    chat_id: &str,
    now: u64,
    code: &str,
) -> (r: String)
    requires
        old(access).wf(),
    ensures
        pending_view(final(access).pending@) == pairing_spec(
            pending_view(old(access).pending@),
            string_views(old(access).allow_from@),
            sender_id@,
            chat_id@,
            now,
            code@,
        ).0,
        r@ == pairing_spec(
            pending_view(old(access).pending@),
            string_views(old(access).allow_from@),
            sender_id@,
            chat_id@,
            now,
            code@,
        ).1,
        final(access).dm_policy == old(access).dm_policy,
        final(access).allow_from == old(access).allow_from,
        final(access).groups == old(access).groups,
        final(access).mention_patterns == old(access).mention_patterns,
        final(access).wf(),
{
    let ghost p0 = pending_view(access.pending@);
    proof {
        law_pairing_bounded(p0, string_views(access.allow_from@), sender_id@, chat_id@, now, code@);
    }
    if contains_str(&access.allow_from, sender_id) {
        return copy_str("You are already paired. Send messages and I will respond.");
    }
    let i = find_sender(&access.pending, sender_id);
    proof {
        lemma_sender_index(p0, sender_id@, 0);
    }
    if i < access.pending.len() {
        assert(p0[i as int].1 == access.pending@[i as int].1@);
        if access.pending[i].1.expires_at > now {
            let next = if access.pending[i].1.replies == u32::MAX {
                0
            } else {
                access.pending[i].1.replies + 1
            };
            if next > 3 {
                let _ = access.pending.remove(i);
                assert(pending_view(access.pending@) =~= p0.remove(i as int));
                return copy_str("Too many attempts. Please try again later.");
            }
            let mut e = access.pending.remove(i);
            e.1.replies = next;
            let reply = code_reply(
                "Your pairing code is: ",
                e.0.as_str(),
                "\nAsk the admin to run: opencode telegram pair ",
                "",
            );
            access.pending.insert(i, e);
            proof {
                let q = pending_view(access.pending@);
                let ex = p0[i as int];
                assert(q =~= p0.update(
                    i as int,
                    (
                        ex.0,
                        PendingView {
                            sender_id: ex.1.sender_id,
                            chat_id: ex.1.chat_id,
                            created_at: ex.1.created_at,
                            expires_at: ex.1.expires_at,
                            replies: next_replies(ex.1.replies),
                        },
                    ),
                ));
                assert(reply@ =~= reply_code_again(ex.0)) by {
                    reveal_strlit("");
                }
            }
            return reply;
        }
        let _ = access.pending.remove(i);
        assert(pending_view(access.pending@) =~= p0.remove(i as int));
    }
    let ghost p1 = pending_view(access.pending@);
    retain_live(&mut access.pending, now);
    if access.pending.len() >= 3 {
        return copy_str("Too many pending pairing requests. Please try again later.");
    }
    let entry = PendingEntry {
        sender_id: copy_str(sender_id),
        chat_id: copy_str(chat_id),
        created_at: now,
        expires_at: if now <= u64::MAX - PAIRING_TTL_MS {
            now + PAIRING_TTL_MS
        } else {
            now - (u64::MAX - PAIRING_TTL_MS) - 1
        },
        replies: 1,
    };
    let key = copy_str(code);
    let ghost p2 = pending_view(access.pending@);
    let j = find_code(&access.pending, code);
    if j < access.pending.len() {
        let _ = access.pending.remove(j);
        access.pending.insert(j, (key, entry));
        assert(pending_view(access.pending@) =~= insert_key(p2, code@, entry@));
    } else {
        access.pending.push((key, entry));
        assert(pending_view(access.pending@) =~= insert_key(p2, code@, entry@));
    }
    code_reply(
        "Your pairing code is: ",
        code,
        "\nAsk the admin to approve with: opencode telegram pair ",
        "\nThis code expires in 1 hour.",
    )
}

/// The lowercase hexadecimal digit for a value below sixteen.
pub open spec fn hex_digit(d: int) -> char {
    if d < 10 {
        ((d + 48) as u8) as char
    } else {
        ((d + 87) as u8) as char
    }
}

/// Lowercase hexadecimal, two digits per byte (`format!("{:02x}")` for each byte).
pub open spec fn hex_seq(b: Seq<u8>) -> Seq<char>
    decreases b.len(),
{
    if b.len() == 0 {
        Seq::empty()
    } else {
        hex_seq(b.drop_last()) + seq![hex_digit((b.last() / 16) as int), hex_digit((b.last() % 16) as int)]
    }
}

/// Hexadecimal encoding of bytes.
pub fn encode(bytes: &[u8]) -> (r: String)
    ensures
        r@ == hex_seq(bytes@),
{
    let mut out: Vec<char> = Vec::new();
    let mut i: usize = 0;
    while i < bytes.len()
        invariant
            i <= bytes@.len(),
            out@ == hex_seq(bytes@.take(i as int)),
        decreases bytes@.len() - i,
    {
        let b = bytes[i];
        let hi = b / 16;
        let lo = b % 16;
        out.push(if hi < 10 {
            (hi + 48) as char
        } else {
            (hi + 87) as char
        });
        out.push(if lo < 10 {
            (lo + 48) as char
        } else {
            (lo + 87) as char
        });
        assert(bytes@.take(i + 1).drop_last() =~= bytes@.take(i as int));
        i = i + 1;
        assert(out@ =~= hex_seq(bytes@.take(i as int)));
    }
    assert(bytes@.take(i as int) =~= bytes@);
    string_of(&out)
}

/// `rand::random::<[u8; 3]>()`: three random bytes.
#[verifier::external_body]
fn random_code_bytes() -> (r: Vec<u8>)
    ensures
        r@.len() == 3,
{
    let b: [u8; 3] = rand::random();
    b.to_vec()
}

/// A fresh pairing code: six lowercase hexadecimal digits from three random bytes.
pub fn generate_pairing_code() -> (r: String)
    ensures
        exists|b: Seq<u8>| b.len() == 3 && r@ == hex_seq(b),
{
    let b = random_code_bytes();
    encode(b.as_slice())
}

/// The pairing flow at the current time, with a fresh random code for a new request:
/// the step of `pairing_spec` for the clock's reading and the code's random bytes.
pub fn handle_pairing(access: &mut Access, sender_id: &str, chat_id: &str) -> (r: String)
    requires
        old(access).wf(),
    ensures
        final(access).wf(),
        final(access).dm_policy == old(access).dm_policy,
        final(access).allow_from == old(access).allow_from,
        final(access).groups == old(access).groups,
        final(access).mention_patterns == old(access).mention_patterns,
        exists|now: u64, b: Seq<u8>|
            #![trigger pairing_spec(pending_view(old(access).pending@), string_views(old(access).allow_from@), sender_id@, chat_id@, now, hex_seq(b))]
            b.len() == 3 && pending_view(final(access).pending@) == pairing_spec(
                pending_view(old(access).pending@),
                string_views(old(access).allow_from@),
                sender_id@,
                chat_id@,
                now,
                hex_seq(b),
            ).0 && r@ == pairing_spec(
                pending_view(old(access).pending@),
                string_views(old(access).allow_from@),
                sender_id@,
                chat_id@,
                now,
                hex_seq(b),
            ).1,
{
    let now = crate::clock::now_millis();
    let code = generate_pairing_code();
    let ghost b = choose|b: Seq<u8>| b.len() == 3 && code@ == hex_seq(b);
    let r = handle_pairing_at(access, sender_id, chat_id, now, code.as_str());
    assert(pairing_spec(
        pending_view(old(access).pending@),
        string_views(old(access).allow_from@),
        sender_id@,
        chat_id@,
        now,
        hex_seq(b),
    ).1 == r@);
    r
}

} // verus!
