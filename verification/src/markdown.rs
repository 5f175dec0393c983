//! Conversion of LLM markdown into Telegram MarkdownV2, reasoning blockquotes,
//! message splitting and XML escaping.
//!
//! The conversion runs in stages over the characters of the text. Inline code
//! spans and links are first replaced by placeholders drawn from the Unicode
//! private use area (`U+E000`..`U+E007`) followed by a decimal index, bold and
//! italic markers get placeholders of their own, the remaining MarkdownV2
//! special characters are escaped, and finally the placeholders are restored.
use vstd::prelude::*;
use crate::text::{
    byte_len, chars_of, char_width, dec, is_ws, leading_ws, lemma_byte_len_take_mono, lemma_leading_ws,
    lemma_leading_ws_unique,
    push_dec, skip_ws, string_of, string_views, trim_start, utf8_width,
};

verus! {

// ---------------------------------------------------------------------------
// Per-character escaping
// ---------------------------------------------------------------------------

/// The characters that MarkdownV2 reserves: `_*[]()~`>#+-=|{}.!\`.
pub open spec fn is_md2_special(c: char) -> bool {
    c == '_' || c == '*' || c == '[' || c == ']' || c == '(' || c == ')' || c == '~' || c == '`'
        || c == '>' || c == '#' || c == '+' || c == '\\' || c == '-' || c == '=' || c == '|'
        || c == '{' || c == '}' || c == '.' || c == '!'
}

/// Whether `c` is reserved by MarkdownV2.
pub fn md2_special(c: char) -> (r: bool)
    ensures
        r == is_md2_special(c),
{
    c == '_' || c == '*' || c == '[' || c == ']' || c == '(' || c == ')' || c == '~' || c == '`'
        || c == '>' || c == '#' || c == '+' || c == '\\' || c == '-' || c == '=' || c == '|'
        || c == '{' || c == '}' || c == '.' || c == '!'
}

/// The ways a character can be escaped.
#[derive(Clone, Copy)]
pub enum CharEscape {
    /// MarkdownV2 text: a backslash before every reserved character.
    Md2,
    /// Code: backslashes doubled, backticks preceded by a backslash.
    Code,
    /// Link target: `)` becomes `\\)` and a backslash becomes two.
    Url,
    /// XML text: `&`, `<` and `>` become entities.
    Xml,
}

/// What one character becomes under an escaping.
pub open spec fn escape_char(e: CharEscape, c: char) -> Seq<char> {
    match e {
        CharEscape::Md2 => if is_md2_special(c) {
            seq!['\\', c]
        } else {
            seq![c]
        },
        CharEscape::Code => if c == '\\' {
            seq!['\\', '\\']
        } else if c == '`' {
            seq!['\\', '`']
        } else {
            seq![c]
        },
        CharEscape::Url => if c == ')' {
            seq!['\\', '\\', ')']
        } else if c == '\\' {
            seq!['\\', '\\']
        } else {
            seq![c]
        },
        CharEscape::Xml => if c == '&' {
            seq!['&', 'a', 'm', 'p', ';']
        } else if c == '<' {
            seq!['&', 'l', 't', ';']
        } else if c == '>' {
            seq!['&', 'g', 't', ';']
        } else {
            seq![c]
        },
    }
}

/// A whole sequence under an escaping: each character replaced by its escape.
pub open spec fn escape_seq(e: CharEscape, s: Seq<char>) -> Seq<char>
    decreases s.len(),
{
    if s.len() == 0 {
        Seq::empty()
    } else {
        escape_seq(e, s.drop_last()) + escape_char(e, s.last())
    }
}

pub proof fn lemma_escape_seq_append(e: CharEscape, a: Seq<char>, b: Seq<char>)
    ensures
        escape_seq(e, a + b) == escape_seq(e, a) + escape_seq(e, b),
    decreases b.len(),
{
    if b.len() == 0 {
        assert(a + b =~= a);
        assert(escape_seq(e, a) + escape_seq(e, b) =~= escape_seq(e, a));
    } else {
        assert((a + b).drop_last() =~= a + b.drop_last());
        lemma_escape_seq_append(e, a, b.drop_last());
        assert(escape_seq(e, a + b) =~= escape_seq(e, a) + escape_seq(e, b));
    }
}

/// Appends the escape of `s[from..to]` to `out`.
pub fn push_escaped(out: &mut Vec<char>, s: &Vec<char>, from: usize, to: usize, e: CharEscape)
    requires
        from <= to <= s.len(),
    ensures
        final(out)@ == old(out)@ + escape_seq(e, s@.subrange(from as int, to as int)),
{
    let mut i = from;
    while i < to
        invariant
            from <= i <= to <= s.len(),
            out@ == old(out)@ + escape_seq(e, s@.subrange(from as int, i as int)),
        decreases to - i,
    {
        let c = s[i];
        match e {
            CharEscape::Md2 => {
                if md2_special(c) {
                    out.push('\\');
                }
                out.push(c);
            },
            CharEscape::Code => {
                if c == '\\' {
                    out.push('\\');
                    out.push('\\');
                } else if c == '`' {
                    out.push('\\');
                    out.push('`');
                } else {
                    out.push(c);
                }
            },
            CharEscape::Url => {
                if c == ')' {
                    out.push('\\');
                    out.push('\\');
                    out.push(')');
                } else if c == '\\' {
                    out.push('\\');
                    out.push('\\');
                } else {
                    out.push(c);
                }
            },
            CharEscape::Xml => {
                if c == '&' {
                    out.push('&');
                    out.push('a');
                    out.push('m');
                    out.push('p');
                    out.push(';');
                } else if c == '<' {
                    out.push('&');
                    out.push('l');
                    out.push('t');
                    out.push(';');
                } else if c == '>' {
                    out.push('&');
                    out.push('g');
                    out.push('t');
                    out.push(';');
                } else {
                    out.push(c);
                }
            },
        }
        proof {
            let prev = s@.subrange(from as int, i as int);
            assert(s@.subrange(from as int, i + 1) =~= prev.push(c));
            assert(s@.subrange(from as int, i + 1).drop_last() =~= prev);
        }
        i = i + 1;
        assert(out@ =~= old(out)@ + escape_seq(e, s@.subrange(from as int, i as int)));
    }
}

/// The escape of a whole character vector.
pub fn escape_all(s: &Vec<char>, e: CharEscape) -> (r: Vec<char>)
    ensures
        r@ == escape_seq(e, s@),
{
    let mut out: Vec<char> = Vec::new();
    push_escaped(&mut out, s, 0, s.len(), e);
    assert(s@.subrange(0, s@.len() as int) =~= s@);
    assert(out@ =~= escape_seq(e, s@));
    out
}

/// Escapes the MarkdownV2 reserved characters of `text`.
pub fn escape_md2(text: &str) -> (r: String)
    ensures
        r@ == escape_seq(CharEscape::Md2, text@),
{
    let v = chars_of(text);
    string_of(&escape_all(&v, CharEscape::Md2))
}

/// Escape text for safe embedding in XML-like channel wrapper.
pub fn sanitize_for_xml(text: &str) -> (r: String)
    ensures
        r@ == escape_seq(CharEscape::Xml, text@),
        !r@.contains('<'),
        !r@.contains('>'),
{
    let v = chars_of(text);
    let r = escape_all(&v, CharEscape::Xml);
    proof {
        lemma_xml_escape_has_no_angle(text@);
    }
    string_of(&r)
}

/// XML escaping leaves no angle bracket behind, so no tag can be formed from the text.
pub proof fn lemma_xml_escape_has_no_angle(s: Seq<char>)
    ensures
        !escape_seq(CharEscape::Xml, s).contains('<'),
        !escape_seq(CharEscape::Xml, s).contains('>'),
    decreases s.len(),
{
    if s.len() > 0 {
        lemma_xml_escape_has_no_angle(s.drop_last());
        let a = escape_seq(CharEscape::Xml, s.drop_last());
        let b = escape_char(CharEscape::Xml, s.last());
        assert forall|k: int| 0 <= k < (a + b).len() implies (a + b)[k] != '<' && (a + b)[k]
            != '>' by {
            if k < a.len() {
                assert((a + b)[k] == a[k]);
                assert(!a.contains(a[k]) || (a[k] != '<' && a[k] != '>'));
            } else {
                assert((a + b)[k] == b[k - a.len()]);
            }
        }
    }
}

/// `&amp;`, `&lt;` and `&gt;`.
pub open spec fn amp_entity() -> Seq<char> {
    seq!['&', 'a', 'm', 'p', ';']
}

pub open spec fn lt_entity() -> Seq<char> {
    seq!['&', 'l', 't', ';']
}

pub open spec fn gt_entity() -> Seq<char> {
    seq!['&', 'g', 't', ';']
}

/// Whether one of the three entities starts at position `k` of `t`.
pub open spec fn entity_at(t: Seq<char>, k: int) -> bool {
    ||| crate::text::occurs_at(t, amp_entity(), k)
    ||| crate::text::occurs_at(t, lt_entity(), k)
    ||| crate::text::occurs_at(t, gt_entity(), k)
}

/// Decoding of the three entities, read from the front.
pub open spec fn xml_unescape(t: Seq<char>) -> Seq<char>
    decreases t.len(),
{
    if t.len() == 0 {
        Seq::empty()
    } else if crate::text::occurs_at(t, amp_entity(), 0) {
        seq!['&'] + xml_unescape(t.skip(5))
    } else if crate::text::occurs_at(t, lt_entity(), 0) {
        seq!['<'] + xml_unescape(t.skip(4))
    } else if crate::text::occurs_at(t, gt_entity(), 0) {
        seq!['>'] + xml_unescape(t.skip(4))
    } else {
        seq![t[0]] + xml_unescape(t.skip(1))
    }
}

/// Whether every `&` of `t` starts an entity.
pub open spec fn entities_only(t: Seq<char>) -> bool {
    forall|k: int| 0 <= k < t.len() && #[trigger] t[k] == '&' ==> entity_at(t, k)
}

proof fn lemma_unescape_step(c: char, er: Seq<char>)
    ensures
        xml_unescape(escape_char(CharEscape::Xml, c) + er) == seq![c] + xml_unescape(er),
{
    let t = escape_char(CharEscape::Xml, c) + er;
    if c == '&' {
        assert(t.subrange(0, 5) =~= amp_entity());
        assert(t.skip(5) =~= er);
    } else if c == '<' {
        assert(!crate::text::occurs_at(t, amp_entity(), 0)) by {
            if t.len() >= 5 {
                assert(t.subrange(0, 5)[1] == 'l');
            }
        }
        assert(t.subrange(0, 4) =~= lt_entity());
        assert(t.skip(4) =~= er);
    } else if c == '>' {
        assert(!crate::text::occurs_at(t, amp_entity(), 0)) by {
            if t.len() >= 5 {
                assert(t.subrange(0, 5)[1] == 'g');
            }
        }
        assert(!crate::text::occurs_at(t, lt_entity(), 0)) by {
            assert(t.subrange(0, 4)[1] == 'g');
        }
        assert(t.subrange(0, 4) =~= gt_entity());
        assert(t.skip(4) =~= er);
    } else {
        assert(t[0] == c);
        assert(!crate::text::occurs_at(t, amp_entity(), 0)) by {
            if t.len() >= 5 {
                assert(t.subrange(0, 5)[0] == c);
            }
        }
        assert(!crate::text::occurs_at(t, lt_entity(), 0)) by {
            if t.len() >= 4 {
                assert(t.subrange(0, 4)[0] == c);
            }
        }
        assert(!crate::text::occurs_at(t, gt_entity(), 0)) by {
            if t.len() >= 4 {
                assert(t.subrange(0, 4)[0] == c);
            }
        }
        assert(t.skip(1) =~= er);
    }
}

proof fn lemma_entities_step(c: char, er: Seq<char>)
    requires
        entities_only(er),
    ensures
        entities_only(escape_char(CharEscape::Xml, c) + er),
{
    let ec = escape_char(CharEscape::Xml, c);
    let t = ec + er;
    assert forall|k: int| 0 <= k < t.len() && #[trigger] t[k] == '&' implies entity_at(t, k) by {
        if k < ec.len() {
            if k == 0 {
                if c == '&' {
                    assert(t.subrange(0, 5) =~= amp_entity());
                } else if c == '<' {
                    assert(t.subrange(0, 4) =~= lt_entity());
                } else if c == '>' {
                    assert(t.subrange(0, 4) =~= gt_entity());
                } else {
                    assert(t[0] == c);
                }
            } else {
                assert(t[k] == ec[k]);
            }
        } else {
            let k2 = k - ec.len();
            assert(t[k] == er[k2]);
            assert(entity_at(er, k2));
            if crate::text::occurs_at(er, amp_entity(), k2) {
                assert(t.subrange(k, k + 5) =~= er.subrange(k2, k2 + 5));
            } else if crate::text::occurs_at(er, lt_entity(), k2) {
                assert(t.subrange(k, k + 4) =~= er.subrange(k2, k2 + 4));
            } else {
                assert(t.subrange(k, k + 4) =~= er.subrange(k2, k2 + 4));
            }
        }
    }
}

/// The escaped text can be read back: it holds no angle bracket, every `&` in it starts
/// `&amp;`, `&lt;` or `&gt;`, and decoding those entities gives the text back.
pub proof fn law_xml_escape_roundtrip(s: Seq<char>)
    ensures
        !escape_seq(CharEscape::Xml, s).contains('<'),
        !escape_seq(CharEscape::Xml, s).contains('>'),
        entities_only(escape_seq(CharEscape::Xml, s)),
        xml_unescape(escape_seq(CharEscape::Xml, s)) == s,
    decreases s.len(),
{
    lemma_xml_escape_has_no_angle(s);
    if s.len() > 0 {
        let c = s[0];
        let rest = s.skip(1);
        assert(s =~= seq![c] + rest);
        lemma_escape_seq_append(CharEscape::Xml, seq![c], rest);
        assert(seq![c].drop_last() =~= Seq::<char>::empty());
        assert(escape_seq(CharEscape::Xml, Seq::<char>::empty()) =~= Seq::<char>::empty());
        let ec = escape_char(CharEscape::Xml, c);
        assert(escape_seq(CharEscape::Xml, seq![c]) =~= ec);
        let er = escape_seq(CharEscape::Xml, rest);
        law_xml_escape_roundtrip(rest);
        lemma_unescape_step(c, er);
        lemma_entities_step(c, er);
        assert(seq![c] + rest =~= s);
    } else {
        assert(escape_seq(CharEscape::Xml, s) =~= Seq::<char>::empty());
    }
}

// ---------------------------------------------------------------------------
// Scanning helpers
// ---------------------------------------------------------------------------

/// First index at or after `k` holding `c`, or the length of `s`.
pub open spec fn next_of(s: Seq<char>, k: int, c: char) -> int
    decreases s.len() - k,
{
    if k < 0 || k >= s.len() {
        s.len() as int
    } else if s[k] == c {
        k
    } else {
        next_of(s, k + 1, c)
    }
}

pub proof fn lemma_next_of(s: Seq<char>, k: int, c: char)
    requires
        0 <= k <= s.len(),
    ensures
        k <= next_of(s, k, c) <= s.len(),
        next_of(s, k, c) < s.len() ==> s[next_of(s, k, c)] == c,
        forall|m: int| k <= m < next_of(s, k, c) ==> s[m] != c,
    decreases s.len() - k,
{
    if k < s.len() && s[k] != c {
        lemma_next_of(s, k + 1, c);
    }
}

/// Index of the first `c` at or after `k` in `v`, or `v.len()`.
pub fn find_char(v: &Vec<char>, k: usize, c: char) -> (r: usize)
    requires
        k <= v.len(),
    ensures
        r == next_of(v@, k as int, c),
{
    let mut i = k;
    while i < v.len() && v[i] != c
        invariant
            k <= i <= v.len(),
            next_of(v@, k as int, c) == next_of(v@, i as int, c),
        decreases v.len() - i,
    {
        i = i + 1;
    }
    i
}

/// First index at or after `k` holding a backtick or a newline, or the length of `s`.
pub open spec fn next_tick_or_nl(s: Seq<char>, k: int) -> int
    decreases s.len() - k,
{
    if k < 0 || k >= s.len() {
        s.len() as int
    } else if s[k] == '`' || s[k] == '\n' {
        k
    } else {
        next_tick_or_nl(s, k + 1)
    }
}

pub proof fn lemma_next_tick_or_nl(s: Seq<char>, k: int)
    requires
        0 <= k <= s.len(),
    ensures
        k <= next_tick_or_nl(s, k) <= s.len(),
    decreases s.len() - k,
{
    if k < s.len() && !(s[k] == '`' || s[k] == '\n') {
        lemma_next_tick_or_nl(s, k + 1);
    }
}

fn find_tick_or_nl(v: &Vec<char>, k: usize) -> (r: usize)
    requires
        k <= v.len(),
    ensures
        r == next_tick_or_nl(v@, k as int),
{
    let mut i = k;
    while i < v.len() && v[i] != '`' && v[i] != '\n'
        invariant
            k <= i <= v.len(),
            next_tick_or_nl(v@, k as int) == next_tick_or_nl(v@, i as int),
        decreases v.len() - i,
    {
        i = i + 1;
    }
    i
}

/// A placeholder: an opening marker, a decimal index and a closing marker.
pub open spec fn placeholder(open: char, n: nat, close: char) -> Seq<char> {
    seq![open] + dec(n) + seq![close]
}

fn push_placeholder(out: &mut Vec<char>, open: char, n: usize, close: char)
    ensures
        final(out)@ == old(out)@ + placeholder(open, n as nat, close),
{
    out.push(open);
    push_dec(out, n as u64);
    out.push(close);
    assert(final(out)@ =~= old(out)@ + placeholder(open, n as nat, close));
}

/// The views of a vector of character vectors.
pub open spec fn views(v: Seq<Vec<char>>) -> Seq<Seq<char>> {
    v.map_values(|x: Vec<char>| x@)
}

proof fn lemma_views_push(v: Seq<Vec<char>>, x: Vec<char>)
    ensures
        views(v.push(x)) == views(v) + seq![x@],
{
    assert(views(v.push(x)) =~= views(v) + seq![x@]);
}

/// The characters `s[from..to]` as a vector.
pub fn slice_chars(s: &Vec<char>, from: usize, to: usize) -> (r: Vec<char>)
    requires
        from <= to <= s.len(),
    ensures
        r@ == s@.subrange(from as int, to as int),
{
    let mut r: Vec<char> = Vec::new();
    let mut i = from;
    while i < to
        invariant
            from <= i <= to <= s.len(),
            r@ == s@.subrange(from as int, i as int),
        decreases to - i,
    {
        r.push(s[i]);
        i = i + 1;
        assert(r@ =~= s@.subrange(from as int, i as int));
    }
    r
}

// ---------------------------------------------------------------------------
// Stage: inline code, `` `([^`\n]+)` ``
// ---------------------------------------------------------------------------

/// End (exclusive) of the inline code span that opens at `i`, or -1 if none does.
pub open spec fn code_span_end(s: Seq<char>, i: int) -> int {
    let j = next_tick_or_nl(s, i + 1);
    if 0 <= i < s.len() && s[i] == '`' && j < s.len() && s[j] == '`' && j > i + 1 {
        j + 1
    } else {
        -1
    }
}

/// The stored form of an inline code span: the escaped code between backticks.
pub open spec fn code_entry(code: Seq<char>) -> Seq<char> {
    seq!['`'] + escape_seq(CharEscape::Code, code) + seq!['`']
}

/// Inline code spans from position `i` on, replaced by placeholders numbered from `n`:
/// the rewritten text and the stored spans.
pub open spec fn code_pass(s: Seq<char>, i: int, n: nat) -> (Seq<char>, Seq<Seq<char>>)
    decreases s.len() - i,
{
    if i < 0 || i >= s.len() {
        (Seq::empty(), Seq::empty())
    } else if code_span_end(s, i) > i {
        let e = code_span_end(s, i);
        let r = code_pass(s, e, n + 1);
        (
            placeholder('\u{E000}', n, '\u{E001}') + r.0,
            seq![code_entry(s.subrange(i + 1, e - 1))] + r.1,
        )
    } else {
        let r = code_pass(s, i + 1, n);
        (seq![s[i]] + r.0, r.1)
    }
}

fn code_span_end_exec(s: &Vec<char>, i: usize) -> (r: usize)
    requires
        i < s.len(),
    ensures
        code_span_end(s@, i as int) > i ==> r == code_span_end(s@, i as int),
        code_span_end(s@, i as int) <= i ==> r == 0,
{
    if s[i] != '`' {
        return 0;
    }
    let j = find_tick_or_nl(s, i + 1);
    proof {
        lemma_next_tick_or_nl(s@, i + 1);
    }
    if j < s.len() && s[j] == '`' && j > i + 1 {
        j + 1
    } else {
        0
    }
}

fn code_pass_exec(s: &Vec<char>) -> (r: (Vec<char>, Vec<Vec<char>>))
    ensures
        r.0@ == code_pass(s@, 0, 0).0,
        views(r.1@) == code_pass(s@, 0, 0).1,
{
    let mut out: Vec<char> = Vec::new();
    let mut codes: Vec<Vec<char>> = Vec::new();
    let mut i: usize = 0;
    assert(views(codes@) =~= Seq::<Seq<char>>::empty());
    while i < s.len()
        invariant
            i <= s.len(),
            code_pass(s@, 0, 0).0 == out@ + code_pass(s@, i as int, codes.len() as nat).0,
            code_pass(s@, 0, 0).1 == views(codes@) + code_pass(s@, i as int, codes.len() as nat).1,
        decreases s.len() - i,
    {
        let ghost old_out = out@;
        let ghost old_codes = codes@;
        let ghost n = codes.len() as nat;
        let e = code_span_end_exec(s, i);
        if e > 0 {
            push_placeholder(&mut out, '\u{E000}', codes.len(), '\u{E001}');
            let mut entry: Vec<char> = Vec::new();
            entry.push('`');
            push_escaped(&mut entry, s, i + 1, e - 1, CharEscape::Code);
            entry.push('`');
            assert(entry@ =~= code_entry(s@.subrange(i + 1, e - 1)));
            codes.push(entry);
            proof {
                lemma_views_push(old_codes, entry);
                let r = code_pass(s@, e as int, n + 1);
                assert(out@ + r.0 =~= old_out + (placeholder('\u{E000}', n, '\u{E001}') + r.0));
                assert(views(codes@) + r.1 =~= views(old_codes) + (seq![
                    code_entry(s@.subrange(i + 1, e - 1)),
                ] + r.1));
            }
            i = e;
        } else {
            out.push(s[i]);
            proof {
                let r = code_pass(s@, i + 1, n);
                assert(out@ + r.0 =~= old_out + (seq![s@[i as int]] + r.0));
            }
            i = i + 1;
        }
    }
    proof {
        assert(code_pass(s@, i as int, codes.len() as nat).0 =~= Seq::<char>::empty());
        assert(out@ + Seq::<char>::empty() =~= out@);
        assert(views(codes@) + Seq::<Seq<char>>::empty() =~= views(codes@));
    }
    (out, codes)
}

// ---------------------------------------------------------------------------
// Stage: links, `\[([^\]]+)\]\(([^)]+)\)`
// ---------------------------------------------------------------------------

/// End (exclusive) of the link that opens at `i`, or -1 if none does.
pub open spec fn link_end(s: Seq<char>, i: int) -> int {
    let j = next_of(s, i + 1, ']');
    let k = next_of(s, j + 2, ')');
    if 0 <= i < s.len() && s[i] == '[' && j < s.len() && j > i + 1 && j + 1 < s.len() && s[j
        + 1] == '(' && k < s.len() && k > j + 2 {
        k + 1
    } else {
        -1
    }
}

/// The stored form of a link: escaped text and escaped target.
pub open spec fn link_entry(label: Seq<char>, url: Seq<char>) -> Seq<char> {
    seq!['['] + escape_seq(CharEscape::Md2, label) + seq![']', '('] + escape_seq(
        CharEscape::Url,
        url,
    ) + seq![')']
}

/// Links from position `i` on, replaced by placeholders numbered from `n`.
pub open spec fn link_pass(s: Seq<char>, i: int, n: nat) -> (Seq<char>, Seq<Seq<char>>)
    decreases s.len() - i,
{
    if i < 0 || i >= s.len() {
        (Seq::empty(), Seq::empty())
    } else if link_end(s, i) > i {
        let e = link_end(s, i);
        let j = next_of(s, i + 1, ']');
        let r = link_pass(s, e, n + 1);
        (
            placeholder('\u{E002}', n, '\u{E003}') + r.0,
            seq![link_entry(s.subrange(i + 1, j), s.subrange(j + 2, e - 1))] + r.1,
        )
    } else {
        let r = link_pass(s, i + 1, n);
        (seq![s[i]] + r.0, r.1)
    }
}

fn link_pass_exec(s: &Vec<char>) -> (r: (Vec<char>, Vec<Vec<char>>))
    ensures
        r.0@ == link_pass(s@, 0, 0).0,
        views(r.1@) == link_pass(s@, 0, 0).1,
{
    let mut out: Vec<char> = Vec::new();
    let mut links: Vec<Vec<char>> = Vec::new();
    let mut i: usize = 0;
    assert(views(links@) =~= Seq::<Seq<char>>::empty());
    while i < s.len()
        invariant
            i <= s.len(),
            link_pass(s@, 0, 0).0 == out@ + link_pass(s@, i as int, links.len() as nat).0,
            link_pass(s@, 0, 0).1 == views(links@) + link_pass(s@, i as int, links.len() as nat).1,
        decreases s.len() - i,
    {
        let ghost old_out = out@;
        let ghost old_links = links@;
        let ghost n = links.len() as nat;
        let mut matched = false;
        if s[i] == '[' {
            let j = find_char(s, i + 1, ']');
            proof {
                lemma_next_of(s@, i + 1, ']');
            }
            if j < s.len() && j > i + 1 && j + 1 < s.len() && s[j + 1] == '(' {
                let k = find_char(s, j + 2, ')');
                proof {
                    lemma_next_of(s@, j + 2, ')');
                }
                if k < s.len() && k > j + 2 {
                    assert(link_end(s@, i as int) == k + 1);
                    push_placeholder(&mut out, '\u{E002}', links.len(), '\u{E003}');
                    let mut entry: Vec<char> = Vec::new();
                    entry.push('[');
                    push_escaped(&mut entry, s, i + 1, j, CharEscape::Md2);
                    entry.push(']');
                    entry.push('(');
                    push_escaped(&mut entry, s, j + 2, k, CharEscape::Url);
                    entry.push(')');
                    assert(entry@ =~= link_entry(
                        s@.subrange(i + 1, j as int),
                        s@.subrange(j + 2, k as int),
                    ));
                    links.push(entry);
                    proof {
                        lemma_views_push(old_links, entry);
                        let r = link_pass(s@, k + 1, n + 1);
                        assert(out@ + r.0 =~= old_out + (placeholder('\u{E002}', n, '\u{E003}')
                            + r.0));
                        assert(views(links@) + r.1 =~= views(old_links) + (seq![
                            link_entry(s@.subrange(i + 1, j as int), s@.subrange(j + 2, k as int)),
                        ] + r.1));
                    }
                    i = k + 1;
                    matched = true;
                }
            }
        }
        if !matched {
            assert(link_end(s@, i as int) <= i);
            out.push(s[i]);
            proof {
                let r = link_pass(s@, i + 1, n);
                assert(out@ + r.0 =~= old_out + (seq![s@[i as int]] + r.0));
            }
            i = i + 1;
        }
    }
    proof {
        assert(out@ + Seq::<char>::empty() =~= out@);
        assert(views(links@) + Seq::<Seq<char>>::empty() =~= views(links@));
    }
    (out, links)
}

// ---------------------------------------------------------------------------
// Stages: bold `\*\*(.+?)\*\*` and italic `\*(.+?)\*`
// ---------------------------------------------------------------------------

/// Whether `s` holds `w` asterisks starting at `m`.
pub open spec fn stars_at(s: Seq<char>, m: int, w: int) -> bool {
    0 <= m && m + w <= s.len() && forall|t: int| m <= t < m + w ==> s[t] == '*'
}

/// Searching for the closing asterisks of an emphasis whose content reaches up to `m`:
/// the index of the closing run, or -1 when a newline or the end comes first.
pub open spec fn close_from(s: Seq<char>, m: int, w: int) -> int
    decreases s.len() - m,
{
    if m < 0 || m + w > s.len() {
        -1
    } else if stars_at(s, m, w) {
        m
    } else if s[m] == '\n' {
        -1
    } else {
        close_from(s, m + 1, w)
    }
}

pub proof fn lemma_close_from(s: Seq<char>, m: int, w: int)
    requires
        0 <= m,
        w >= 1,
    ensures
        close_from(s, m, w) == -1 || (m <= close_from(s, m, w) && close_from(s, m, w) + w
            <= s.len()),
    decreases s.len() - m,
{
    if m + w <= s.len() && !stars_at(s, m, w) && s[m] != '\n' {
        lemma_close_from(s, m + 1, w);
    }
}

/// Index of the closing run of the emphasis of width `w` opening at `i`, or -1.
pub open spec fn emph_close(s: Seq<char>, i: int, w: int) -> int {
    if 0 <= i && stars_at(s, i, w) && i + w < s.len() && s[i + w] != '\n' {
        close_from(s, i + w + 1, w)
    } else {
        -1
    }
}

/// Emphasis of width `w` from position `i` on, wrapped in the markers `open` and `close`.
pub open spec fn emph_pass(s: Seq<char>, i: int, w: int, open: char, close: char) -> Seq<char>
    decreases s.len() - i,
{
    if i < 0 || i >= s.len() || w < 1 {
        Seq::empty()
    } else if emph_close(s, i, w) > i && emph_close(s, i, w) + w <= s.len() {
        let j = emph_close(s, i, w);
        seq![open] + s.subrange(i + w, j) + seq![close] + emph_pass(s, j + w, w, open, close)
    } else {
        seq![s[i]] + emph_pass(s, i + 1, w, open, close)
    }
}

/// `w` asterisks.
pub open spec fn stars(w: int) -> Seq<char> {
    Seq::new(w as nat, |k: int| '*')
}

proof fn lemma_close_from_shift(p: Seq<char>, t: Seq<char>, m: int, w: int)
    requires
        0 <= m,
        w >= 1,
    ensures
        close_from(p + t, p.len() + m, w) == if close_from(t, m, w) < 0 {
            -1
        } else {
            close_from(t, m, w) + p.len()
        },
    decreases t.len() - m,
{
    let s = p + t;
    let q = p.len() + m;
    if m + w <= t.len() {
        assert(stars_at(s, q, w) == stars_at(t, m, w)) by {
            if stars_at(t, m, w) {
                assert forall|k: int| q <= k < q + w implies s[k] == '*' by {
                    assert(s[k] == t[k - p.len()]);
                }
            }
            if stars_at(s, q, w) {
                assert forall|k: int| m <= k < m + w implies t[k] == '*' by {
                    assert(s[k + p.len()] == t[k]);
                }
            }
        }
        assert(s[q] == t[m]);
        lemma_close_from_shift(p, t, m + 1, w);
    }
}

proof fn lemma_emph_close_shift(p: Seq<char>, t: Seq<char>, k: int, w: int)
    requires
        0 <= k,
        w >= 1,
    ensures
        emph_close(p + t, p.len() + k, w) == if emph_close(t, k, w) < 0 {
            -1
        } else {
            emph_close(t, k, w) + p.len()
        },
{
    let s = p + t;
    let i = p.len() + k;
    assert(stars_at(s, i, w) == stars_at(t, k, w)) by {
        if stars_at(t, k, w) {
            assert forall|q: int| i <= q < i + w implies s[q] == '*' by {
                assert(s[q] == t[q - p.len()]);
            }
        }
        if stars_at(s, i, w) {
            assert forall|q: int| k <= q < k + w implies t[q] == '*' by {
                assert(s[q + p.len()] == t[q]);
            }
        }
    }
    if k + w < t.len() {
        assert(s[i + w] == t[k + w]);
    }
    lemma_close_from_shift(p, t, k + w + 1, w);
}

/// Emphasis conversion only looks ahead: converting `p + t` from inside `t` is
/// converting `t`.
proof fn lemma_emph_pass_shift(p: Seq<char>, t: Seq<char>, k: int, w: int, open: char, close: char)
    requires
        0 <= k,
        w >= 1,
    ensures
        emph_pass(p + t, p.len() + k, w, open, close) == emph_pass(t, k, w, open, close),
    decreases t.len() - k,
{
    let s = p + t;
    let i = p.len() + k;
    if k < t.len() {
        lemma_emph_close_shift(p, t, k, w);
        lemma_close_from(t, k + w + 1, w);
        let j = emph_close(t, k, w);
        if j > k && j + w <= t.len() {
            lemma_emph_pass_shift(p, t, j + w, w, open, close);
            assert(s.subrange(i + w, j + p.len()) =~= t.subrange(k + w, j));
        } else {
            assert(s[i] == t[k]);
            lemma_emph_pass_shift(p, t, k + 1, w, open, close);
        }
    }
}

proof fn lemma_close_at(s: Seq<char>, m: int, j: int, w: int)
    requires
        0 <= m <= j,
        w >= 1,
        stars_at(s, j, w),
        forall|q: int| m <= q < j ==> #[trigger] s[q] != '*' && s[q] != '\n',
    ensures
        close_from(s, m, w) == j,
    decreases j - m,
{
    if m < j {
        assert(s[m] != '*');
        assert(!stars_at(s, m, w));
        lemma_close_at(s, m + 1, j, w);
    }
}

/// Text without asterisks passes through emphasis conversion unchanged, and what
/// follows it is converted as if it stood alone.
pub proof fn law_emph_plain_prefix(a: Seq<char>, t: Seq<char>, w: int, open: char, close: char)
    requires
        1 <= w <= 2,
        forall|k: int| 0 <= k < a.len() ==> a[k] != '*',
    ensures
        emph_pass(a + t, 0, w, open, close) == a + emph_pass(t, 0, w, open, close),
{
    lemma_emph_plain_from(a, t, 0, w, open, close);
    lemma_emph_pass_shift(a, t, 0, w, open, close);
    assert(a.skip(0) =~= a);
}

proof fn lemma_emph_plain_from(a: Seq<char>, t: Seq<char>, i: int, w: int, open: char, close: char)
    requires
        1 <= w <= 2,
        0 <= i <= a.len(),
        forall|k: int| 0 <= k < a.len() ==> a[k] != '*',
    ensures
        emph_pass(a + t, i, w, open, close) == a.skip(i) + emph_pass(a + t, a.len() as int, w, open, close),
    decreases a.len() - i,
{
    let s = a + t;
    if i < a.len() {
        assert(s[i] == a[i]);
        assert(!stars_at(s, i, w));
        lemma_emph_plain_from(a, t, i + 1, w, open, close);
        assert(a.skip(i) =~= seq![a[i]] + a.skip(i + 1));
    } else {
        assert(a.skip(i) =~= Seq::<char>::empty());
    }
}

/// A closed emphasis at the start is converted, and the text after it is converted as
/// if it stood alone: so every emphasis of a line is converted, not only the first.
/// With `w` = 2 this is `**x**` becoming bold, with `w` = 1 `*x*` becoming italic.
pub proof fn law_emph_span_then_rest(x: Seq<char>, t: Seq<char>, w: int, open: char, close: char)
    requires
        1 <= w <= 2,
        x.len() > 0,
        forall|k: int| 0 <= k < x.len() ==> x[k] != '*' && x[k] != '\n',
    ensures
        emph_pass(stars(w) + x + stars(w) + t, 0, w, open, close) == seq![open] + x + seq![close]
            + emph_pass(t, 0, w, open, close),
{
    let pre = stars(w) + x + stars(w);
    let s = pre + t;
    let j = w + x.len();
    assert(stars_at(s, 0, w)) by {
        assert forall|q: int| 0 <= q < w implies s[q] == '*' by {
            assert(s[q] == stars(w)[q]);
        }
    }
    assert(s[w] == x[0]);
    assert(stars_at(s, j, w)) by {
        assert forall|q: int| j <= q < j + w implies s[q] == '*' by {
            assert(s[q] == stars(w)[q - j]);
        }
    }
    assert forall|q: int| w + 1 <= q < j implies #[trigger] s[q] != '*' && s[q] != '\n' by {
        assert(s[q] == x[q - w]);
    }
    lemma_close_at(s, w + 1, j, w);
    assert(emph_close(s, 0, w) == j);
    assert(s.subrange(w, j) =~= x);
    lemma_emph_pass_shift(pre, t, 0, w, open, close);
    assert(pre.len() == j + w);
}

fn stars_at_exec(s: &Vec<char>, m: usize, w: usize) -> (r: bool)
    requires
        w <= 2,
    ensures
        r == stars_at(s@, m as int, w as int),
{
    if m > s.len() || w > s.len() - m {
        return false;
    }
    let mut t: usize = 0;
    while t < w
        invariant
            t <= w <= 2,
            m + w <= s.len(),
            forall|q: int| m <= q < m + t ==> s@[q] == '*',
        decreases w - t,
    {
        if s[m + t] != '*' {
            return false;
        }
        t = t + 1;
    }
    true
}

fn emph_close_exec(s: &Vec<char>, i: usize, w: usize) -> (r: usize)
    requires
        1 <= w <= 2,
        i < s.len(),
    ensures
        emph_close(s@, i as int, w as int) > i ==> r == emph_close(s@, i as int, w as int),
        emph_close(s@, i as int, w as int) <= i ==> r == 0,
{
    if !stars_at_exec(s, i, w) || i + w >= s.len() || s[i + w] == '\n' {
        return 0;
    }
    let mut m = i + w + 1;
    while m <= s.len() && w <= s.len() - m && !stars_at_exec(s, m, w) && s[m] != '\n'
        invariant
            i + w + 1 <= m,
            m <= s.len() + 1,
            w <= 2,
            close_from(s@, (i + w + 1) as int, w as int) == close_from(s@, m as int, w as int),
        decreases s.len() + 1 - m,
    {
        m = m + 1;
    }
    proof {
        lemma_close_from(s@, m as int, w as int);
    }
    if m <= s.len() && w <= s.len() - m && stars_at_exec(s, m, w) {
        m
    } else {
        0
    }
}

fn emph_pass_exec(s: &Vec<char>, w: usize, open: char, close: char) -> (r: Vec<char>)
    requires
        1 <= w <= 2,
    ensures
        r@ == emph_pass(s@, 0, w as int, open, close),
{
    let mut out: Vec<char> = Vec::new();
    let mut i: usize = 0;
    while i < s.len()
        invariant
            1 <= w <= 2,
            i <= s.len(),
            emph_pass(s@, 0, w as int, open, close) == out@ + emph_pass(
                s@,
                i as int,
                w as int,
                open,
                close,
            ),
        decreases s.len() - i,
    {
        let ghost old_out = out@;
        let j = emph_close_exec(s, i, w);
        if j > 0 {
            proof {
                lemma_close_from(s@, (i + w + 1) as int, w as int);
            }
            out.push(open);
            let mut t = i + w;
            while t < j
                invariant
                    i + w <= t <= j,
                    j + w <= s.len(),
                    out@ == old_out.push(open) + s@.subrange(i + w, t as int),
                decreases j - t,
            {
                out.push(s[t]);
                t = t + 1;
                assert(out@ =~= old_out.push(open) + s@.subrange(i + w, t as int));
            }
            out.push(close);
            proof {
                let r = emph_pass(s@, j + w, w as int, open, close);
                assert(out@ + r =~= old_out + (seq![open] + s@.subrange(i + w, j as int) + seq![
                    close,
                ] + r));
            }
            i = j + w;
        } else {
            out.push(s[i]);
            proof {
                let r = emph_pass(s@, i + 1, w as int, open, close);
                assert(out@ + r =~= old_out + (seq![s@[i as int]] + r));
            }
            i = i + 1;
        }
    }
    assert(out@ + Seq::<char>::empty() =~= out@);
    out
}

// ---------------------------------------------------------------------------
// Stages: marker restoration and placeholder restoration
// ---------------------------------------------------------------------------

/// Bold markers become `*`, italic markers become `_`.
pub open spec fn mark_char(c: char) -> char {
    if c == '\u{E004}' || c == '\u{E005}' {
        '*'
    } else if c == '\u{E006}' || c == '\u{E007}' {
        '_'
    } else {
        c
    }
}

/// `mark_char` applied to every character.
pub open spec fn mark_all(s: Seq<char>) -> Seq<char> {
    s.map_values(|c: char| mark_char(c))
}

fn mark_all_exec(s: &Vec<char>) -> (r: Vec<char>)
    ensures
        r@ == mark_all(s@),
{
    let mut out: Vec<char> = Vec::new();
    let mut i: usize = 0;
    while i < s.len()
        invariant
            i <= s.len(),
            out@ == mark_all(s@).take(i as int),
        decreases s.len() - i,
    {
        let c = s[i];
        let m = if c == '\u{E004}' || c == '\u{E005}' {
            '*'
        } else if c == '\u{E006}' || c == '\u{E007}' {
            '_'
        } else {
            c
        };
        out.push(m);
        i = i + 1;
        assert(out@ =~= mark_all(s@).take(i as int));
    }
    assert(mark_all(s@).take(i as int) =~= mark_all(s@));
    out
}

/// Whether `c` is an ASCII digit.
pub open spec fn is_ascii_digit(c: char) -> bool {
    '0' <= c && c <= '9'
}

/// First index at or after `k` that is not an ASCII digit, or the length of `s`.
pub open spec fn digits_end(s: Seq<char>, k: int) -> int
    decreases s.len() - k,
{
    if k < 0 || k >= s.len() {
        s.len() as int
    } else if is_ascii_digit(s[k]) {
        digits_end(s, k + 1)
    } else {
        k
    }
}

pub proof fn lemma_digits_end(s: Seq<char>, k: int)
    requires
        0 <= k <= s.len(),
    ensures
        k <= digits_end(s, k) <= s.len(),
        forall|m: int| k <= m < digits_end(s, k) ==> is_ascii_digit(#[trigger] s[m]),
    decreases s.len() - k,
{
    if k < s.len() && is_ascii_digit(s[k]) {
        lemma_digits_end(s, k + 1);
    }
}

/// The value of a sequence of decimal digits.
pub open spec fn dec_value(d: Seq<char>) -> nat
    decreases d.len(),
{
    if d.len() == 0 {
        0
    } else {
        dec_value(d.drop_last()) * 10 + ((d.last() as int) - 48) as nat
    }
}

/// Placeholders `open` digits `close` from position `i` on replaced by the stored entry
/// with that index (nothing when there is no such entry).
pub open spec fn restore_pass(
    s: Seq<char>,
    i: int,
    open: char,
    close: char,
    es: Seq<Seq<char>>,
) -> Seq<char>
    decreases s.len() - i,
{
    if i < 0 || i >= s.len() {
        Seq::empty()
    } else if s[i] == open && digits_end(s, i + 1) > i + 1 && digits_end(s, i + 1) < s.len()
        && s[digits_end(s, i + 1)] == close {
        let k = digits_end(s, i + 1);
        let v = dec_value(s.subrange(i + 1, k));
        (if v < es.len() {
            es[v as int]
        } else {
            Seq::empty()
        }) + restore_pass(s, k + 1, open, close, es)
    } else {
        seq![s[i]] + restore_pass(s, i + 1, open, close, es)
    }
}

/// The value of the digits `s[from..to]`, capped at `cap`.
fn capped_value(s: &Vec<char>, from: usize, to: usize, cap: usize) -> (r: usize)
    requires
        from <= to <= s.len(),
        forall|m: int| from <= m < to ==> is_ascii_digit(#[trigger] s@[m]),
    ensures
        r as nat == if dec_value(s@.subrange(from as int, to as int)) < cap {
            dec_value(s@.subrange(from as int, to as int))
        } else {
            cap as nat
        },
{
    let mut val: u128 = 0;
    let mut t = from;
    assert(s@.subrange(from as int, from as int) =~= Seq::<char>::empty());
    while t < to
        invariant
            from <= t <= to <= s.len(),
            forall|m: int| from <= m < to ==> is_ascii_digit(#[trigger] s@[m]),
            val as nat == if dec_value(s@.subrange(from as int, t as int)) < cap {
                dec_value(s@.subrange(from as int, t as int))
            } else {
                cap as nat
            },
            val <= cap,
        decreases to - t,
    {
        let c = s[t];
        assert(is_ascii_digit(s@[t as int]));
        let d: u128 = (c as u32 - 48) as u128;
        let ghost prev = s@.subrange(from as int, t as int);
        let ghost next = s@.subrange(from as int, t + 1);
        assert(next.drop_last() =~= prev);
        assert(next.last() == c);
        assert(dec_value(next) == dec_value(prev) * 10 + d);
        if val < cap as u128 {
            let nv = val * 10 + d;
            val = if nv > cap as u128 {
                cap as u128
            } else {
                nv
            };
        } else {
            assert(dec_value(prev) >= cap);
            assert(dec_value(prev) * 10 + d >= dec_value(prev)) by (nonlinear_arith);
        }
        t = t + 1;
    }
    val as usize
}

fn restore_pass_exec(s: &Vec<char>, open: char, close: char, es: &Vec<Vec<char>>) -> (r: Vec<
    char,
>)
    ensures
        r@ == restore_pass(s@, 0, open, close, views(es@)),
{
    let mut out: Vec<char> = Vec::new();
    let mut i: usize = 0;
    let ghost ev = views(es@);
    while i < s.len()
        invariant
            i <= s.len(),
            ev == views(es@),
            restore_pass(s@, 0, open, close, ev) == out@ + restore_pass(
                s@,
                i as int,
                open,
                close,
                ev,
            ),
        decreases s.len() - i,
    {
        let ghost old_out = out@;
        let mut matched = false;
        if s[i] == open {
            let mut k = i + 1;
            while k < s.len() && '0' <= s[k] && s[k] <= '9'
                invariant
                    i + 1 <= k <= s.len(),
                    digits_end(s@, i + 1) == digits_end(s@, k as int),
                decreases s.len() - k,
            {
                k = k + 1;
            }
            proof {
                lemma_digits_end(s@, i + 1);
            }
            if k > i + 1 && k < s.len() && s[k] == close {
                let v = capped_value(s, i + 1, k, es.len());
                if v < es.len() {
                    let entry = &es[v];
                    let mut t: usize = 0;
                    while t < entry.len()
                        invariant
                            t <= entry.len(),
                            out@ == old_out + entry@.take(t as int),
                        decreases entry.len() - t,
                    {
                        out.push(entry[t]);
                        t = t + 1;
                        assert(out@ =~= old_out + entry@.take(t as int));
                    }
                    assert(entry@.take(t as int) =~= entry@);
                    assert(ev[v as int] == entry@);
                }
                proof {
                    let r = restore_pass(s@, k + 1, open, close, ev);
                    let val = dec_value(s@.subrange(i + 1, k as int));
                    let piece = if val < ev.len() {
                        ev[val as int]
                    } else {
                        Seq::<char>::empty()
                    };
                    assert(out@ =~= old_out + piece);
                    assert(out@ + r =~= old_out + (piece + r));
                }
                i = k + 1;
                matched = true;
            }
        }
        if !matched {
            out.push(s[i]);
            proof {
                let r = restore_pass(s@, i + 1, open, close, ev);
                assert(out@ + r =~= old_out + (seq![s@[i as int]] + r));
            }
            i = i + 1;
        }
    }
    assert(out@ + Seq::<char>::empty() =~= out@);
    out
}

// ---------------------------------------------------------------------------
// Text segments and code blocks
// ---------------------------------------------------------------------------

/// MarkdownV2 form of a text segment that holds no code block.
pub open spec fn convert_segment(s: Seq<char>) -> Seq<char> {
    let ic = code_pass(s, 0, 0);
    let lk = link_pass(ic.0, 0, 0);
    let bold = emph_pass(lk.0, 0, 2, '\u{E004}', '\u{E005}');
    let italic = emph_pass(bold, 0, 1, '\u{E006}', '\u{E007}');
    let marked = mark_all(escape_seq(CharEscape::Md2, italic));
    let with_code = restore_pass(marked, 0, '\u{E000}', '\u{E001}', ic.1);
    restore_pass(with_code, 0, '\u{E002}', '\u{E003}', lk.1)
}

fn convert_text_segment(s: &Vec<char>) -> (r: Vec<char>)
    ensures
        r@ == convert_segment(s@),
{
    let (t1, codes) = code_pass_exec(s);
    let (t2, links) = link_pass_exec(&t1);
    let t3 = emph_pass_exec(&t2, 2, '\u{E004}', '\u{E005}');
    let t4 = emph_pass_exec(&t3, 1, '\u{E006}', '\u{E007}');
    let t5 = escape_all(&t4, CharEscape::Md2);
    let t6 = mark_all_exec(&t5);
    let t7 = restore_pass_exec(&t6, '\u{E000}', '\u{E001}', &codes);
    restore_pass_exec(&t7, '\u{E002}', '\u{E003}', &links)
}

/// Whether `c` is a Unicode word character, the class `\w` of regular expressions.
pub uninterp spec fn unicode_word(c: char) -> bool;

/// An ASCII word character: a letter, a digit or `_`.
pub open spec fn ascii_word(c: char) -> bool {
    ('a' <= c && c <= 'z') || ('A' <= c && c <= 'Z') || ('0' <= c && c <= '9') || c == '_'
}

/// The class `\w`: the ASCII word characters below U+0080, the Unicode word
/// characters above.
pub open spec fn is_word(c: char) -> bool {
    if (c as u32) < 0x80 {
        ascii_word(c)
    } else {
        unicode_word(c)
    }
}

/// `regex_syntax::is_word_character`: whether `c` is a Unicode word character
/// (Alphabetic, Join_Control, Decimal_Number, Mark or Connector_Punctuation). For
/// ASCII the source answers from `is_word_byte` (letters, digits, `_`) and from its
/// table, whose ASCII ranges are the same; above ASCII the contract only ties the
/// answer to the name `unicode_word`.
#[verifier::external_body]
pub(crate) fn is_word_char(c: char) -> (r: bool)
    ensures
        r == if (c as u32) < 0x80 {
            ascii_word(c)
        } else {
            unicode_word(c)
        },
{
    regex_syntax::is_word_character(c)
}

/// First index at or after `k` that is not a word character, or the length of `s`.
pub open spec fn word_end(s: Seq<char>, k: int) -> int
    decreases s.len() - k,
{
    if k < 0 || k >= s.len() {
        s.len() as int
    } else if is_word(s[k]) {
        word_end(s, k + 1)
    } else {
        k
    }
}

pub proof fn lemma_word_end(s: Seq<char>, k: int)
    requires
        0 <= k <= s.len(),
    ensures
        k <= word_end(s, k) <= s.len(),
    decreases s.len() - k,
{
    if k < s.len() && is_word(s[k]) {
        lemma_word_end(s, k + 1);
    }
}

/// Whether three backticks stand at `m`.
pub open spec fn ticks3_at(s: Seq<char>, m: int) -> bool {
    0 <= m && m + 3 <= s.len() && s[m] == '`' && s[m + 1] == '`' && s[m + 2] == '`'
}

/// First position at or after `m` of three backticks, or -1.
pub open spec fn next_ticks3(s: Seq<char>, m: int) -> int
    decreases s.len() - m,
{
    if m < 0 || m + 3 > s.len() {
        -1
    } else if ticks3_at(s, m) {
        m
    } else {
        next_ticks3(s, m + 1)
    }
}

pub proof fn lemma_next_ticks3(s: Seq<char>, m: int)
    requires
        0 <= m,
    ensures
        next_ticks3(s, m) == -1 || (m <= next_ticks3(s, m) && ticks3_at(s, next_ticks3(s, m))),
    decreases s.len() - m,
{
    if m + 3 <= s.len() && !ticks3_at(s, m) {
        lemma_next_ticks3(s, m + 1);
    }
}

/// End (exclusive) of the fenced code block ```` ```lang\n...``` ```` opening at `i`, or -1.
pub open spec fn block_end(s: Seq<char>, i: int) -> int {
    let k = word_end(s, i + 3);
    let j = next_ticks3(s, k + 1);
    if ticks3_at(s, i) && k < s.len() && s[k] == '\n' && j >= k + 1 {
        j + 3
    } else {
        -1
    }
}

/// A fenced code block in MarkdownV2: the code escaped for code.
pub open spec fn render_block(lang: Seq<char>, code: Seq<char>) -> Seq<char> {
    seq!['`', '`', '`'] + lang + seq!['\n'] + escape_seq(CharEscape::Code, code) + seq![
        '`',
        '`',
        '`',
    ]
}

/// A text segment in MarkdownV2; an empty segment contributes nothing.
pub open spec fn render_segment(s: Seq<char>) -> Seq<char> {
    if s.len() == 0 {
        Seq::empty()
    } else {
        convert_segment(s)
    }
}

/// MarkdownV2 of `s` from position `i` on, with the text segment pending since `start`.
pub open spec fn md2_pass(s: Seq<char>, start: int, i: int) -> Seq<char>
    decreases s.len() - i,
{
    if i < 0 || i >= s.len() {
        render_segment(s.subrange(start, s.len() as int))
    } else if block_end(s, i) > i && block_end(s, i) <= s.len() {
        let e = block_end(s, i);
        let k = word_end(s, i + 3);
        render_segment(s.subrange(start, i)) + render_block(s.subrange(i + 3, k), s.subrange(
            k + 1,
            e - 3,
        )) + md2_pass(s, e, e)
    } else {
        md2_pass(s, start, i + 1)
    }
}

/// Telegram MarkdownV2 form of LLM markdown.
pub open spec fn markdown_v2(s: Seq<char>) -> Seq<char> {
    md2_pass(s, 0, 0)
}

fn push_segment(out: &mut Vec<char>, s: &Vec<char>, from: usize, to: usize)
    requires
        from <= to <= s.len(),
    ensures
        final(out)@ == old(out)@ + render_segment(s@.subrange(from as int, to as int)),
{
    if from < to {
        let seg = slice_chars(s, from, to);
        let conv = convert_text_segment(&seg);
        crate::text::extend_chars(out, &conv);
    } else {
        assert(old(out)@ + render_segment(s@.subrange(from as int, to as int)) =~= old(out)@);
    }
}

fn push_block(out: &mut Vec<char>, s: &Vec<char>, i: usize, k: usize, j: usize)
    requires
        i + 3 <= k < j <= s.len(),
    ensures
        final(out)@ == old(out)@ + render_block(
            s@.subrange(i + 3, k as int),
            s@.subrange(k + 1, j as int),
        ),
{
    let ghost mid = out@;
    out.push('`');
    out.push('`');
    out.push('`');
    let mut t = i + 3;
    while t < k
        invariant
            i + 3 <= t <= k < s.len(),
            out@ == mid + seq!['`', '`', '`'] + s@.subrange(i + 3, t as int),
        decreases k - t,
    {
        out.push(s[t]);
        t = t + 1;
        assert(out@ =~= mid + seq!['`', '`', '`'] + s@.subrange(i + 3, t as int));
    }
    out.push('\n');
    push_escaped(out, s, k + 1, j, CharEscape::Code);
    out.push('`');
    out.push('`');
    out.push('`');
    assert(final(out)@ =~= mid + render_block(
        s@.subrange(i + 3, k as int),
        s@.subrange(k + 1, j as int),
    ));
}

/// Convert LLM markdown to Telegram MarkdownV2 format.
///
/// The text must hold no `U+E000` or `U+E002`: those characters open the
/// placeholders of inline code and links.
pub fn to_markdown_v2(text: &str) -> (r: String)
    requires
        !text@.contains('\u{E000}'),
        !text@.contains('\u{E002}'),
    ensures
        r@ == markdown_v2(text@),
{
    let s = chars_of(text);
    let mut out: Vec<char> = Vec::new();
    let mut start: usize = 0;
    let mut i: usize = 0;
    while i < s.len()
        invariant
            start <= i <= s.len(),
            md2_pass(s@, 0, 0) == out@ + md2_pass(s@, start as int, i as int),
        decreases s.len() - i,
    {
        let ghost old_out = out@;
        let mut matched = false;
        if 3 <= s.len() - i && s[i] == '`' && s[i + 1] == '`' && s[i + 2] == '`' {
            let mut k = i + 3;
            while k < s.len() && is_word_char(s[k])
                invariant
                    i + 3 <= k <= s.len(),
                    word_end(s@, i + 3) == word_end(s@, k as int),
                decreases s.len() - k,
            {
                k = k + 1;
            }
            proof {
                lemma_word_end(s@, i + 3);
            }
            if k < s.len() && s[k] == '\n' {
                let mut j = k + 1;
                while j <= s.len() && 3 <= s.len() - j && !(s[j] == '`' && s[j + 1] == '`' && s[j
                    + 2] == '`')
                    invariant
                        k + 1 <= j <= s.len(),
                        k < s.len(),
                        next_ticks3(s@, k + 1) == next_ticks3(s@, j as int),
                    decreases s.len() - j,
                {
                    j = j + 1;
                }
                proof {
                    lemma_next_ticks3(s@, j as int);
                }
                if 3 <= s.len() - j {
                    assert(block_end(s@, i as int) == j + 3);
                    push_segment(&mut out, &s, start, i);
                    let ghost mid = out@;
                    push_block(&mut out, &s, i, k, j);
                    proof {
                        let r = md2_pass(s@, (j + 3) as int, (j + 3) as int);
                        let blk = render_block(
                            s@.subrange(i + 3, k as int),
                            s@.subrange(k + 1, j as int),
                        );
                        assert(out@ + r =~= old_out + (render_segment(
                            s@.subrange(start as int, i as int),
                        ) + blk + r));
                    }
                    i = j + 3;
                    start = i;
                    matched = true;
                }
            }
        }
        if !matched {
            assert(block_end(s@, i as int) <= i);
            i = i + 1;
        }
    }
    push_segment(&mut out, &s, start, s.len());
    string_of(&out)
}

// ---------------------------------------------------------------------------
// Reasoning blockquote
// ---------------------------------------------------------------------------

/// A line without the carriage return that ends it.
pub open spec fn strip_cr(x: Seq<char>) -> Seq<char> {
    if x.len() > 0 && x.last() == '\r' {
        x.drop_last()
    } else {
        x
    }
}

/// The lines of `s` from position `i` on, as `str::lines` yields them: split at `\n`,
/// a `\r` before the `\n` dropped, no empty line after a final `\n`.
pub open spec fn lines_from(s: Seq<char>, i: int) -> Seq<Seq<char>>
    decreases s.len() - i,
{
    if i < 0 || i >= s.len() {
        Seq::empty()
    } else if next_of(s, i, '\n') >= s.len() {
        seq![s.subrange(i, s.len() as int)]
    } else {
        proof {
            lemma_next_of(s, i, '\n');
        }
        seq![strip_cr(s.subrange(i, next_of(s, i, '\n')))] + lines_from(
            s,
            next_of(s, i, '\n') + 1,
        )
    }
}

/// Joins the parts with `\n` between them.
pub open spec fn join_nl(p: Seq<Seq<char>>) -> Seq<char>
    decreases p.len(),
{
    if p.len() == 0 {
        Seq::empty()
    } else if p.len() == 1 {
        p[0]
    } else {
        join_nl(p.drop_last()) + seq!['\n'] + p.last()
    }
}

/// Line `i` of a reasoning blockquote: `>` (with the thought bubble on the first
/// line) and `||` closing the last line.
pub open spec fn quote_line(ls: Seq<Seq<char>>, i: int) -> Seq<char> {
    (if i == 0 {
        seq!['>', '\u{1F4AD}', ' ']
    } else {
        seq!['>']
    }) + ls[i] + (if i == ls.len() - 1 {
        seq!['|', '|']
    } else {
        Seq::empty()
    })
}

/// The expandable MarkdownV2 blockquote of a reasoning text.
pub open spec fn thinking_quote(text: Seq<char>) -> Seq<char> {
    let ls = lines_from(escape_seq(CharEscape::Md2, text), 0);
    join_nl(Seq::new(ls.len(), |i: int| quote_line(ls, i)))
}

/// Lines hold no newline, and a text from position `i` on has lines when not empty.
proof fn lemma_lines_from(s: Seq<char>, i: int)
    requires
        0 <= i,
    ensures
        i < s.len() ==> lines_from(s, i).len() > 0,
        forall|a: int, k: int|
            0 <= a < lines_from(s, i).len() && 0 <= k < lines_from(s, i)[a].len() ==> #[trigger] lines_from(
                s,
                i,
            )[a][k] != '\n',
    decreases s.len() - i,
{
    if i < s.len() {
        lemma_next_of(s, i, '\n');
        let n = next_of(s, i, '\n');
        if n < s.len() {
            lemma_lines_from(s, n + 1);
            let first = strip_cr(s.subrange(i, n));
            let ls = lines_from(s, i);
            assert(ls == seq![first] + lines_from(s, n + 1));
            assert forall|a: int, k: int|
                0 <= a < ls.len() && 0 <= k < ls[a].len() implies #[trigger] ls[a][k] != '\n' by {
                if a == 0 {
                    assert(ls[a][k] == s.subrange(i, n)[k]);
                    assert(s.subrange(i, n)[k] == s[i + k]);
                } else {
                    assert(ls[a] == lines_from(s, n + 1)[a - 1]);
                }
            }
        } else {
            let ls = lines_from(s, i);
            assert forall|a: int, k: int|
                0 <= a < ls.len() && 0 <= k < ls[a].len() implies #[trigger] ls[a][k] != '\n' by {
                assert(ls[a] == s.subrange(i, s.len() as int));
                assert(ls[a][k] == s[i + k]);
            }
        }
    }
}

/// Joined pieces that each start with `>` and hold no newline start with `>`, and each
/// newline of the result is followed by `>`.
proof fn lemma_join_quoted(p: Seq<Seq<char>>)
    requires
        forall|a: int| 0 <= a < p.len() ==> #[trigger] p[a].len() > 0 && p[a][0] == '>',
        forall|a: int, k: int| 0 <= a < p.len() && 0 <= k < p[a].len() ==> #[trigger] p[a][k] != '\n',
    ensures
        p.len() > 0 ==> join_nl(p).len() > 0 && join_nl(p)[0] == '>',
        forall|k: int|
            0 <= k < join_nl(p).len() && #[trigger] join_nl(p)[k] == '\n' ==> k + 1 < join_nl(p).len()
                && join_nl(p)[k + 1] == '>',
    decreases p.len(),
{
    if p.len() == 1 {
        assert forall|k: int| 0 <= k < join_nl(p).len() implies #[trigger] join_nl(p)[k] != '\n' by {
            assert(join_nl(p)[k] == p[0][k]);
        }
    } else if p.len() > 1 {
        let q = p.drop_last();
        lemma_join_quoted(q);
        let jq = join_nl(q);
        let last = p.last();
        let j = join_nl(p);
        assert(j == jq + seq!['\n'] + last);
        assert(p[p.len() - 1] == last);
        assert(j[0] == jq[0]);
        assert forall|k: int| 0 <= k < j.len() && #[trigger] j[k] == '\n' implies k + 1 < j.len()
            && j[k + 1] == '>' by {
            if k < jq.len() {
                assert(j[k] == jq[k]);
                if k + 1 < jq.len() {
                    assert(j[k + 1] == jq[k + 1]);
                } else {
                    assert(j[k + 1] == '\n');
                    assert(false);
                }
            } else if k == jq.len() {
                assert(j[k + 1] == last[0]);
            } else {
                assert(j[k] == last[k - jq.len() - 1]);
            }
        }
    }
}

/// The reasoning blockquote: it starts with `>` and every line after a newline starts
/// with `>`, the empty ones too, so the quote is never broken.
pub proof fn law_thinking_lines(text: Seq<char>)
    requires
        text.len() > 0,
    ensures
        ({
            let q = thinking_quote(text);
            &&& q.len() > 0 && q[0] == '>'
            &&& forall|k: int| 0 <= k < q.len() && #[trigger] q[k] == '\n' ==> k + 1 < q.len() && q[k + 1]
                == '>'
        }),
{
    let e = escape_seq(CharEscape::Md2, text);
    lemma_escape_seq_append(CharEscape::Md2, text.drop_last(), seq![text.last()]);
    assert(text.drop_last() + seq![text.last()] =~= text);
    assert(e.len() > 0) by {
        assert(escape_seq(CharEscape::Md2, seq![text.last()]).len() > 0) by {
            assert(seq![text.last()].drop_last() =~= Seq::<char>::empty());
        }
    }
    let ls = lines_from(e, 0);
    lemma_lines_from(e, 0);
    let parts = Seq::new(ls.len(), |i: int| quote_line(ls, i));
    assert forall|a: int| 0 <= a < parts.len() implies #[trigger] parts[a].len() > 0 && parts[a][0] == '>' by {
        assert(parts[a] == quote_line(ls, a));
    }
    assert forall|a: int, k: int| 0 <= a < parts.len() && 0 <= k < parts[a].len() implies #[trigger] parts[a][k]
        != '\n' by {
        let pre: Seq<char> = if a == 0 {
            seq!['>', '\u{1F4AD}', ' ']
        } else {
            seq!['>']
        };
        let suf: Seq<char> = if a == ls.len() - 1 {
            seq!['|', '|']
        } else {
            Seq::empty()
        };
        assert(parts[a] == pre + ls[a] + suf);
        if k < pre.len() {
            assert(parts[a][k] == pre[k]);
        } else if k < pre.len() + ls[a].len() {
            assert(parts[a][k] == ls[a][k - pre.len()]);
        } else {
            assert(parts[a][k] == suf[k - pre.len() - ls[a].len()]);
        }
    }
    lemma_join_quoted(parts);
}

/// The lines of `s`.
pub fn lines_of(s: &Vec<char>) -> (r: Vec<Vec<char>>)
    ensures
        views(r@) == lines_from(s@, 0),
{
    let mut r: Vec<Vec<char>> = Vec::new();
    let mut i: usize = 0;
    assert(views(r@) =~= Seq::<Seq<char>>::empty());
    while i < s.len()
        invariant
            i <= s.len(),
            lines_from(s@, 0) == views(r@) + lines_from(s@, i as int),
        decreases s.len() - i,
    {
        let ghost old_r = r@;
        let j = find_char(s, i, '\n');
        proof {
            lemma_next_of(s@, i as int, '\n');
        }
        if j >= s.len() {
            let line = slice_chars(s, i, s.len());
            r.push(line);
            proof {
                lemma_views_push(old_r, line);
                assert(lines_from(s@, s.len() as int) =~= Seq::<Seq<char>>::empty());
                assert(views(r@) + lines_from(s@, s.len() as int) =~= views(old_r) + lines_from(
                    s@,
                    i as int,
                ));
            }
            i = s.len();
        } else {
            let mut line = slice_chars(s, i, j);
            if line.len() > 0 && line[line.len() - 1] == '\r' {
                line.pop();
            }
            proof {
                let raw = s@.subrange(i as int, j as int);
                assert(line@ =~= strip_cr(raw));
            }
            r.push(line);
            proof {
                lemma_views_push(old_r, line);
                assert(views(r@) + lines_from(s@, j + 1) =~= views(old_r) + lines_from(
                    s@,
                    i as int,
                ));
            }
            i = j + 1;
        }
    }
    assert(views(r@) + Seq::<Seq<char>>::empty() =~= views(r@));
    r
}

/// Format thinking/reasoning text as MarkdownV2 expandable blockquote.
pub fn thinking_to_md2(text: &str) -> (r: String)
    ensures
        r@ == thinking_quote(text@),
{
    let v = chars_of(text);
    let escaped = escape_all(&v, CharEscape::Md2);
    let ls = lines_of(&escaped);
    let ghost lsv = views(ls@);
    let ghost parts = Seq::new(lsv.len(), |i: int| quote_line(lsv, i));
    let mut out: Vec<char> = Vec::new();
    let mut k: usize = 0;
    while k < ls.len()
        invariant
            k <= ls.len(),
            lsv == views(ls@),
            parts == Seq::new(lsv.len(), |i: int| quote_line(lsv, i)),
            out@ == join_nl(parts.take(k as int)),
        decreases ls.len() - k,
    {
        let ghost old_out = out@;
        if k > 0 {
            out.push('\n');
        }
        let ghost before_line = out@;
        out.push('>');
        if k == 0 {
            out.push('\u{1F4AD}');
            out.push(' ');
        }
        let line = &ls[k];
        assert(line@ == lsv[k as int]);
        let mut t: usize = 0;
        let ghost head = out@;
        while t < line.len()
            invariant
                t <= line.len(),
                out@ == head + line@.take(t as int),
            decreases line.len() - t,
        {
            out.push(line[t]);
            t = t + 1;
            assert(out@ =~= head + line@.take(t as int));
        }
        assert(line@.take(t as int) =~= line@);
        if k == ls.len() - 1 {
            out.push('|');
            out.push('|');
        }
        proof {
            assert(out@ =~= before_line + parts[k as int]);
            let tk1 = parts.take(k + 1);
            assert(tk1.drop_last() =~= parts.take(k as int));
            if k == 0 {
                assert(tk1.len() == 1);
                assert(out@ =~= join_nl(tk1));
            } else {
                assert(out@ =~= join_nl(tk1));
            }
        }
        k = k + 1;
    }
    assert(parts.take(k as int) =~= parts);
    string_of(&out)
}

// ---------------------------------------------------------------------------
// Splitting into messages
// ---------------------------------------------------------------------------

/// Number of leading characters of `s`, counting from `i`, whose encoding fits in `b` bytes.
pub open spec fn fit_from(s: Seq<char>, b: int, i: int) -> int
    decreases s.len() - i,
{
    if i < 0 || i >= s.len() || byte_len(s.take(i + 1)) > b {
        i
    } else {
        fit_from(s, b, i + 1)
    }
}

/// The longest prefix of `s` (in characters) whose encoding fits in `b` bytes.
pub open spec fn fit(s: Seq<char>, b: int) -> int {
    fit_from(s, b, 0)
}

pub proof fn lemma_fit_from(s: Seq<char>, b: int, i: int)
    requires
        0 <= i <= s.len(),
        byte_len(s.take(i)) <= b,
    ensures
        i <= fit_from(s, b, i) <= s.len(),
        byte_len(s.take(fit_from(s, b, i))) <= b,
        fit_from(s, b, i) < s.len() ==> byte_len(s.take(fit_from(s, b, i) + 1)) > b,
    decreases s.len() - i,
{
    if i < s.len() && byte_len(s.take(i + 1)) <= b {
        lemma_fit_from(s, b, i + 1);
    }
}

pub proof fn lemma_fit(s: Seq<char>, b: int)
    requires
        b >= 0,
    ensures
        0 <= fit(s, b) <= s.len(),
        byte_len(s.take(fit(s, b))) <= b,
        fit(s, b) < s.len() ==> byte_len(s.take(fit(s, b) + 1)) > b,
        (fit(s, b) == s.len()) == (byte_len(s) <= b),
{
    assert(s.take(0) =~= Seq::<char>::empty());
    lemma_fit_from(s, b, 0);
    assert(s.take(s.len() as int) =~= s);
    if fit(s, b) < s.len() {
        lemma_byte_len_take_mono(s, fit(s, b) + 1, s.len() as int);
    }
}

/// Index of the last newline among the first `c` characters of `s`, or -1.
pub open spec fn last_nl_before(s: Seq<char>, c: int) -> int
    decreases c,
{
    if c <= 0 {
        -1
    } else if s[c - 1] == '\n' {
        c - 1
    } else {
        last_nl_before(s, c - 1)
    }
}

pub proof fn lemma_last_nl_before(s: Seq<char>, c: int)
    requires
        0 <= c <= s.len(),
    ensures
        -1 <= last_nl_before(s, c) < c,
        last_nl_before(s, c) >= 0 ==> s[last_nl_before(s, c)] == '\n',
    decreases c,
{
    if c > 0 && s[c - 1] != '\n' {
        lemma_last_nl_before(s, c - 1);
    }
}

/// Where the next chunk ends: at the last newline of the part that fits, when that
/// newline lies in its second half, else at the end of the part that fits.
pub open spec fn split_point(s: Seq<char>, limit: int) -> int {
    let c = fit(s, limit);
    let p = last_nl_before(s, c);
    if p >= 0 && byte_len(s.take(p)) >= limit / 2 {
        p
    } else {
        c
    }
}

/// What remains after a chunk of `k` characters: the rest without leading whitespace.
pub open spec fn rest_after(s: Seq<char>, k: int) -> Seq<char> {
    trim_start(s.skip(k))
}

/// The chunks that `remaining` is cut into.
pub open spec fn chunks(s: Seq<char>, limit: int) -> Seq<Seq<char>>
    decreases s.len(),
{
    if s.len() == 0 {
        Seq::empty()
    } else if byte_len(s) <= limit {
        seq![s]
    } else {
        let k = split_point(s, limit);
        if rest_after(s, k).len() < s.len() {
            seq![s.take(k)] + chunks(rest_after(s, k), limit)
        } else {
            seq![s.take(k)]
        }
    }
}

/// Whether splitting `s` goes through: every cut at `limit` bytes falls on a character
/// boundary (else the byte slice panics) and each cut makes progress (else the loop
/// never ends).
pub open spec fn split_ok(s: Seq<char>, limit: int) -> bool
    decreases s.len(),
{
    if s.len() == 0 || byte_len(s) <= limit {
        true
    } else {
        let k = split_point(s, limit);
        &&& byte_len(s.take(fit(s, limit))) == limit
        &&& rest_after(s, k).len() < s.len()
        &&& split_ok(rest_after(s, k), limit)
    }
}

/// The chunks of a message for a size limit in bytes.
pub open spec fn split_spec(s: Seq<char>, limit: int) -> Seq<Seq<char>> {
    if byte_len(s) <= limit {
        seq![s]
    } else {
        chunks(s, limit)
    }
}

proof fn lemma_fit_is(s: Seq<char>, limit: int, c: int)
    requires
        0 <= c < s.len(),
        byte_len(s.take(c)) <= limit,
        byte_len(s.take(c + 1)) > limit,
    ensures
        fit(s, limit) == c,
{
    lemma_fit(s, limit);
    let f = fit(s, limit);
    if f < c {
        lemma_byte_len_take_mono(s, f + 1, c);
    } else if f > c {
        lemma_byte_len_take_mono(s, c + 1, f);
    }
}

proof fn lemma_last_nl_is(s: Seq<char>, c: int, p: int)
    requires
        0 <= p < c <= s.len(),
        s[p] == '\n',
        forall|q: int| p < q < c ==> s[q] != '\n',
    ensures
        last_nl_before(s, c) == p,
    decreases c,
{
    if c - 1 > p {
        lemma_last_nl_is(s, c - 1, p);
    }
}

proof fn lemma_first_chunk(s: Seq<char>, limit: int)
    requires
        limit >= 0,
        byte_len(s) > limit,
    ensures
        split_spec(s, limit).len() > 0,
        split_spec(s, limit)[0] == s.take(split_point(s, limit)),
{
    assert(s.len() > 0) by {
        if s.len() == 0 {
            assert(byte_len(s) == 0);
        }
    }
    let k = split_point(s, limit);
    if rest_after(s, k).len() < s.len() {
        assert((seq![s.take(k)] + chunks(rest_after(s, k), limit))[0] == s.take(k));
    }
}

/// A message too long for one chunk is cut at the last newline of the part that fits
/// (`c` characters, the longest prefix within `limit` bytes) when that newline comes at
/// least half the limit, in bytes, into the message.
pub proof fn law_split_at_newline(s: Seq<char>, limit: int, c: int, p: int)
    requires
        limit >= 0,
        byte_len(s) > limit,
        0 <= c < s.len(),
        byte_len(s.take(c)) <= limit,
        byte_len(s.take(c + 1)) > limit,
        0 <= p < c,
        s[p] == '\n',
        forall|q: int| p < q < c ==> s[q] != '\n',
        byte_len(s.take(p)) >= limit / 2,
    ensures
        split_spec(s, limit)[0] == s.take(p),
{
    lemma_fit_is(s, limit, c);
    lemma_last_nl_is(s, c, p);
    lemma_first_chunk(s, limit);
}

/// A message too long for one chunk, whose part that fits (`c` characters, the longest
/// prefix within `limit` bytes) has no newline at least half the limit, in bytes, into
/// the message, is cut right after that part.
pub proof fn law_split_at_limit(s: Seq<char>, limit: int, c: int)
    requires
        limit >= 0,
        byte_len(s) > limit,
        0 <= c < s.len(),
        byte_len(s.take(c)) <= limit,
        byte_len(s.take(c + 1)) > limit,
        forall|q: int| 0 <= q < c && s[q] == '\n' ==> byte_len(#[trigger] s.take(q)) < limit / 2,
    ensures
        split_spec(s, limit)[0] == s.take(c),
{
    lemma_fit_is(s, limit, c);
    lemma_last_nl_before(s, c);
    let p = last_nl_before(s, c);
    if p >= 0 {
        assert(byte_len(s.take(p)) < limit / 2);
    }
    lemma_first_chunk(s, limit);
}

/// Every chunk fits the limit.
pub proof fn lemma_chunks_fit(s: Seq<char>, limit: int)
    requires
        limit >= 0,
        split_ok(s, limit),
    ensures
        forall|i: int| 0 <= i < chunks(s, limit).len() ==> byte_len(#[trigger] chunks(s, limit)[i]) <= limit,
    decreases s.len(),
{
    if s.len() > 0 && byte_len(s) > limit {
        let k = split_point(s, limit);
        let c = fit(s, limit);
        lemma_fit(s, limit);
        lemma_last_nl_before(s, c);
        lemma_byte_len_take_mono(s, k, c);
        assert(s.take(k).len() == k);
        let rest = rest_after(s, k);
        lemma_chunks_fit(rest, limit);
        assert forall|i: int| 0 <= i < chunks(s, limit).len() implies byte_len(
            #[trigger] chunks(s, limit)[i],
        ) <= limit by {
            if i > 0 {
                assert(chunks(s, limit)[i] == chunks(rest, limit)[i - 1]);
            }
        }
    }
}

/// The characters of `s` that are not whitespace, in order.
pub open spec fn non_ws(s: Seq<char>) -> Seq<char>
    decreases s.len(),
{
    if s.len() == 0 {
        Seq::empty()
    } else if is_ws(s.last()) {
        non_ws(s.drop_last())
    } else {
        non_ws(s.drop_last()).push(s.last())
    }
}

proof fn lemma_non_ws_append(a: Seq<char>, b: Seq<char>)
    ensures
        non_ws(a + b) == non_ws(a) + non_ws(b),
    decreases b.len(),
{
    if b.len() == 0 {
        assert(a + b =~= a);
        assert(non_ws(a) + non_ws(b) =~= non_ws(a));
    } else {
        assert((a + b).drop_last() =~= a + b.drop_last());
        assert((a + b).last() == b.last());
        lemma_non_ws_append(a, b.drop_last());
        if !is_ws(b.last()) {
            assert(non_ws(a) + non_ws(b.drop_last()).push(b.last()) =~= (non_ws(a) + non_ws(
                b.drop_last(),
            )).push(b.last()));
        }
    }
}

proof fn lemma_non_ws_of_ws(a: Seq<char>)
    requires
        forall|k: int| 0 <= k < a.len() ==> is_ws(#[trigger] a[k]),
    ensures
        non_ws(a) == Seq::<char>::empty(),
    decreases a.len(),
{
    if a.len() > 0 {
        assert(is_ws(a[a.len() - 1]));
        lemma_non_ws_of_ws(a.drop_last());
    }
}

/// Splitting a message loses nothing but whitespace at the cuts: the characters that
/// are not whitespace come out in the same order, and every chunk fits the limit.
#[verifier::rlimit(40)]
pub proof fn law_split_keeps_text(s: Seq<char>, limit: int)
    requires
        limit >= 0,
        split_ok(s, limit),
    ensures
        non_ws(split_spec(s, limit).flatten()) == non_ws(s),
        forall|i: int| 0 <= i < split_spec(s, limit).len() ==> byte_len(
            #[trigger] split_spec(s, limit)[i],
        ) <= limit,
    decreases s.len(),
{
    if byte_len(s) <= limit {
        seq![s].lemma_flatten_one_element();
    } else {
        lemma_chunks_fit(s, limit);
        let k = split_point(s, limit);
        let c = fit(s, limit);
        lemma_fit(s, limit);
        lemma_last_nl_before(s, c);
        let rest = rest_after(s, k);
        let tail = s.skip(k);
        lemma_leading_ws(tail);
        let w = tail.take(leading_ws(tail) as int);
        assert(tail =~= w + rest);
        assert(s =~= s.take(k) + tail);
        lemma_non_ws_of_ws(w);
        lemma_non_ws_append(w, rest);
        lemma_non_ws_append(s.take(k), tail);
        // The rest is split the same way.
        if rest.len() == 0 {
            assert(chunks(rest, limit) =~= Seq::<Seq<char>>::empty());
        } else if byte_len(rest) <= limit {
            assert(chunks(rest, limit) == seq![rest]);
        } else {
            assert(chunks(rest, limit) == split_spec(rest, limit));
        }
        law_split_keeps_text(rest, limit);
        assert(split_spec(rest, limit).flatten() == chunks(rest, limit).flatten()) by {
            if rest.len() == 0 {
                assert(split_spec(rest, limit) =~= seq![rest]);
                seq![rest].lemma_flatten_one_element();
                assert(Seq::<Seq<char>>::empty().flatten() =~= rest);
            }
        }
        let cs = chunks(s, limit);
        assert(cs == seq![s.take(k)] + chunks(rest, limit));
        assert(cs.first() == s.take(k));
        assert(cs.drop_first() =~= chunks(rest, limit));
        lemma_non_ws_append(s.take(k), chunks(rest, limit).flatten());
    }
}

/// The longest prefix of `v[start..]` that fits `limit` bytes, and its byte length.
pub(crate) fn fit_exec(v: &Vec<char>, limit: usize) -> (r: (usize, usize))
    ensures
        r.0 == fit(v@, limit as int),
        r.1 == byte_len(v@.take(r.0 as int)),
{
    let mut i: usize = 0;
    let mut acc: usize = 0;
    assert(v@.take(0) =~= Seq::<char>::empty());
    while i < v.len() && char_width(v[i]) <= limit - acc
        invariant
            i <= v.len(),
            acc == byte_len(v@.take(i as int)),
            acc <= limit,
            fit(v@, limit as int) == fit_from(v@, limit as int, i as int),
        decreases v.len() - i,
    {
        assert(v@.take(i + 1).drop_last() =~= v@.take(i as int));
        acc = acc + char_width(v[i]);
        i = i + 1;
    }
    if i < v.len() {
        assert(v@.take(i + 1).drop_last() =~= v@.take(i as int));
    }
    (i, acc)
}

/// The byte length of `v[..p]`.
fn prefix_bytes(v: &Vec<char>, p: usize, bound: usize) -> (r: usize)
    requires
        p <= v.len(),
        byte_len(v@.take(p as int)) <= bound,
    ensures
        r == byte_len(v@.take(p as int)),
{
    let mut i: usize = 0;
    let mut acc: usize = 0;
    assert(v@.take(0) =~= Seq::<char>::empty());
    while i < p
        invariant
            i <= p <= v.len(),
            acc == byte_len(v@.take(i as int)),
            byte_len(v@.take(p as int)) <= bound,
        decreases p - i,
    {
        assert(v@.take(i + 1).drop_last() =~= v@.take(i as int));
        proof {
            lemma_byte_len_take_mono(v@, i + 1, p as int);
        }
        acc = acc + char_width(v[i]);
        i = i + 1;
    }
    acc
}

/// Whether `split_message(text, limit)` goes through.
pub fn can_split(text: &str, limit: usize) -> (r: bool)
    ensures
        r == split_ok(text@, limit as int),
{
    let mut rem = chars_of(text);
    loop
        invariant
            split_ok(text@, limit as int) == split_ok(rem@, limit as int),
        decreases rem.len(),
    {
        let (c, acc) = fit_exec(&rem, limit);
        proof {
            lemma_fit(rem@, limit as int);
        }
        if rem.len() == 0 || c == rem.len() {
            return true;
        }
        if acc != limit {
            return false;
        }
        let k = split_point_exec(&rem, limit, c, acc);
        let next = rest_exec(&rem, k);
        if next.len() >= rem.len() {
            return false;
        }
        rem = next;
    }
}

/// The split point of `v`, given its fitting prefix `c` of `acc` bytes.
fn split_point_exec(v: &Vec<char>, limit: usize, c: usize, acc: usize) -> (k: usize)
    requires
        c == fit(v@, limit as int),
        acc == byte_len(v@.take(c as int)),
        c <= v.len(),
        acc <= limit,
    ensures
        k == split_point(v@, limit as int),
        k <= c,
{
    let mut q = c;
    while q > 0 && v[q - 1] != '\n'
        invariant
            q <= c <= v.len(),
            last_nl_before(v@, c as int) == last_nl_before(v@, q as int),
        decreases q,
    {
        q = q - 1;
    }
    if q > 0 {
        let p = q - 1;
        proof {
            lemma_byte_len_take_mono(v@, p as int, c as int);
        }
        let pb = prefix_bytes(v, p, acc);
        if pb >= limit / 2 {
            return p;
        }
    }
    c
}

/// `rest_after(v, k)` as a vector.
fn rest_exec(v: &Vec<char>, k: usize) -> (r: Vec<char>)
    requires
        k <= v.len(),
    ensures
        r@ == rest_after(v@, k as int),
{
    let m = skip_ws(v, k);
    proof {
        let t = v@.skip(k as int);
        assert forall|q: int| 0 <= q < m - k implies is_ws(#[trigger] t[q]) by {
            assert(t[q] == v@[k + q]);
        }
        if m < v.len() {
            assert(t[m - k] == v@[m as int]);
        }
        lemma_leading_ws_unique(t, m - k);
        assert(trim_start(t) =~= v@.subrange(m as int, v@.len() as int));
    }
    slice_chars(v, m, v.len())
}

/// Split a message into chunks that fit within Telegram's character limit.
pub fn split_message(text: &str, limit: usize) -> (r: Vec<String>)
    requires
        split_ok(text@, limit as int),
    ensures
        string_views(r@) == split_spec(text@, limit as int),
        forall|i: int| 0 <= i < r@.len() ==> byte_len(#[trigger] r@[i]@) <= limit,
{
    let v = chars_of(text);
    let (c0, _acc0) = fit_exec(&v, limit);
    proof {
        lemma_fit(v@, limit as int);
    }
    if c0 == v.len() {
        let r = vec![string_of(&v)];
        assert(string_views(r@) =~= seq![text@]);
        assert(r@[0]@ == text@);
        return r;
    }
    let mut out: Vec<String> = Vec::new();
    let mut rem = v;
    assert(string_views(out@) =~= Seq::<Seq<char>>::empty());
    loop
        invariant_except_break
            chunks(text@, limit as int) == string_views(out@) + chunks(rem@, limit as int),
            split_ok(rem@, limit as int),
        ensures
            chunks(text@, limit as int) == string_views(out@),
        decreases rem.len(),
    {
        if rem.len() == 0 {
            assert(string_views(out@) + Seq::<Seq<char>>::empty() =~= string_views(out@));
            break ;
        }
        let ghost old_out = out@;
        let (c, acc) = fit_exec(&rem, limit);
        proof {
            lemma_fit(rem@, limit as int);
        }
        if c == rem.len() {
            let piece = string_of(&rem);
            out.push(piece);
            proof {
                assert(string_views(out@) =~= string_views(old_out) + seq![rem@]);
            }
            break ;
        }
        let k = split_point_exec(&rem, limit, c, acc);
        let piece = slice_chars(&rem, 0, k);
        assert(piece@ =~= rem@.take(k as int));
        out.push(string_of(&piece));
        let next = rest_exec(&rem, k);
        proof {
            assert(string_views(out@) =~= string_views(old_out) + seq![rem@.take(k as int)]);
            assert(string_views(out@) + chunks(next@, limit as int) =~= string_views(old_out) + (
            seq![rem@.take(k as int)] + chunks(next@, limit as int)));
        }
        rem = next;
    }
    proof {
        lemma_chunks_fit(text@, limit as int);
        assert forall|i: int| 0 <= i < out@.len() implies byte_len(#[trigger] out@[i]@)
            <= limit by {
            assert(string_views(out@)[i] == out@[i]@);
        }
    }
    out
}

} // verus!
