//! Framing of a server-sent event stream: events are separated by a blank line
//! (`\n\n`); within one, `event:` names the type and `data:` lines carry the data.
use vstd::prelude::*;
use crate::markdown::{join_nl, lemma_next_of, lines_from, lines_of, next_of, strip_cr, views};
use crate::stream::{lemma_next_occ, next_occ};
use crate::text::{chars_of, extend_chars, extend_str, has_prefix, string_of, trim};

verus! {

/// One event as framed: its type (possibly empty) and its data lines joined by `\n`.
pub struct RawEvent {
    pub event_type: String,
    pub data: String,
}

/// `event:`.
pub open spec fn event_tag() -> Seq<char> {
    seq!['e', 'v', 'e', 'n', 't', ':']
}

/// `data:`.
pub open spec fn data_tag() -> Seq<char> {
    seq!['d', 'a', 't', 'a', ':']
}

/// The type named by the last `event:` line, trimmed, or empty.
pub open spec fn block_type(ls: Seq<Seq<char>>) -> Seq<char>
    decreases ls.len(),
{
    if ls.len() == 0 {
        Seq::empty()
    } else if has_prefix(ls.last(), event_tag()) {
        trim(ls.last().skip(6))
    } else {
        block_type(ls.drop_last())
    }
}

/// The values of the `data:` lines, trimmed, in order.
pub open spec fn block_data(ls: Seq<Seq<char>>) -> Seq<Seq<char>>
    decreases ls.len(),
{
    if ls.len() == 0 {
        Seq::empty()
    } else {
        block_data(ls.drop_last()) + if !has_prefix(ls.last(), event_tag()) && has_prefix(
            ls.last(),
            data_tag(),
        ) {
            seq![trim(ls.last().skip(5))]
        } else {
            Seq::empty()
        }
    }
}

/// The event in a block of lines: `None` when it names no type and carries no data.
pub open spec fn parse_block(block: Seq<char>) -> Option<(Seq<char>, Seq<char>)> {
    let ls = lines_from(block, 0);
    let t = block_type(ls);
    let d = block_data(ls);
    if d.len() == 0 && t.len() == 0 {
        None
    } else {
        Some((t, join_nl(d)))
    }
}

/// The separator between events.
pub open spec fn separator() -> Seq<char> {
    seq!['\n', '\n']
}

/// Text received from the stream and not yet framed into events.
pub struct SseBuffer {
    buffer: Vec<char>,
}

impl View for SseBuffer {
    type V = Seq<char>;

    closed spec fn view(&self) -> Seq<char> {
        self.buffer@
    }
}

fn join_data(d: &Vec<Vec<char>>) -> (r: Vec<char>)
    ensures
        r@ == join_nl(views(d@)),
{
    let ghost dv = views(d@);
    let mut out: Vec<char> = Vec::new();
    let mut k: usize = 0;
    while k < d.len()
        invariant
            k <= d.len(),
            dv == views(d@),
            out@ == join_nl(dv.take(k as int)),
        decreases d.len() - k,
    {
        if k > 0 {
            out.push('\n');
        }
        extend_chars(&mut out, &d[k]);
        proof {
            let t = dv.take(k + 1);
            assert(t.drop_last() =~= dv.take(k as int));
            assert(t.last() == d@[k as int]@);
            assert(out@ =~= join_nl(t));
        }
        k = k + 1;
    }
    assert(dv.take(k as int) =~= dv);
    out
}

impl SseBuffer {
    /// An empty buffer.
    pub fn new() -> (r: Self)
        ensures
            r@.len() == 0,
    {
        SseBuffer { buffer: Vec::new() }
    }

    /// Appends received text.
    pub fn push_str(&mut self, text: &str)
        ensures
            final(self)@ == old(self)@ + text@,
    {
        extend_str(&mut self.buffer, text);
    }

    /// Takes the first complete event block off the buffer and frames it. `None` when
    /// no block is complete (the buffer stays) or when the block holds no event (the
    /// block is dropped).
    pub fn try_parse_event(&mut self) -> (r: Option<RawEvent>)
        ensures
            next_occ(old(self)@, 0, separator()) < 0 ==> r is None && final(self)@ == old(
                self,
            )@,
            next_occ(old(self)@, 0, separator()) >= 0 ==> {
                let p = next_occ(old(self)@, 0, separator());
                &&& final(self)@ == old(self)@.skip(p + 2)
                &&& match (r, parse_block(old(self)@.take(p))) {
                    (None, None) => true,
                    (Some(e), Some((t, d))) => e.event_type@ == t && e.data@ == d,
                    _ => false,
                }
            },
    {
        let b = &self.buffer;
        let mut p: usize = 0;
        while p < b.len() && 2 <= b.len() - p && !(b[p] == '\n' && b[p + 1] == '\n')
            invariant
                p <= b.len(),
                next_occ(b@, 0, separator()) == next_occ(b@, p as int, separator()),
            decreases b.len() - p,
        {
            assert(!crate::text::occurs_at(b@, separator(), p as int)) by {
                if crate::text::occurs_at(b@, separator(), p as int) {
                    assert(b@.subrange(p as int, p + 2)[0] == b@[p as int]);
                    assert(b@.subrange(p as int, p + 2)[1] == b@[p + 1]);
                }
            }
            p = p + 1;
        }
        proof {
            lemma_next_occ(b@, p as int, separator());
        }
        if !(p < b.len() && 2 <= b.len() - p) {
            return None;
        }
        assert(crate::text::occurs_at(b@, separator(), p as int)) by {
            assert(b@.subrange(p as int, p + 2) =~= separator());
        }
        let block = crate::markdown::slice_chars(b, 0, p);
        let rest = crate::markdown::slice_chars(b, p + 2, b.len());
        let ghost old_buf = b@;
        assert(block@ =~= old_buf.take(p as int));
        assert(rest@ =~= old_buf.skip(p + 2));
        self.buffer = rest;
        let ls = lines_of(&block);
        let ghost lv = views(ls@);
        let mut event_type: Vec<char> = Vec::new();
        let mut data: Vec<Vec<char>> = Vec::new();
        let tag_event: Vec<char> = vec!['e', 'v', 'e', 'n', 't', ':'];
        let tag_data: Vec<char> = vec!['d', 'a', 't', 'a', ':'];
        assert(tag_event@ =~= event_tag());
        assert(tag_data@ =~= data_tag());
        let mut k: usize = 0;
        assert(views(data@) =~= Seq::<Seq<char>>::empty());
        while k < ls.len()
            invariant
                k <= ls.len(),
                lv == views(ls@),
                tag_event@ == event_tag(),
                tag_data@ == data_tag(),
                event_type@ == block_type(lv.take(k as int)),
                views(data@) == block_data(lv.take(k as int)),
            decreases ls.len() - k,
        {
            let line = &ls[k];
            assert(line@ == lv[k as int]);
            let ghost t = lv.take(k + 1);
            assert(t.drop_last() =~= lv.take(k as int));
            assert(t.last() == line@);
            if crate::text::starts_with_chars(line, &tag_event) {
                let v = crate::markdown::slice_chars(line, 6, line.len());
                assert(v@ =~= line@.skip(6));
                event_type = crate::text::trim_chars(&v);
                assert(views(data@) =~= block_data(t));
            } else if crate::text::starts_with_chars(line, &tag_data) {
                let v = crate::markdown::slice_chars(line, 5, line.len());
                assert(v@ =~= line@.skip(5));
                let tv = crate::text::trim_chars(&v);
                let ghost before = data@;
                data.push(tv);
                assert(views(data@) =~= views(before) + seq![tv@]);
            } else {
                assert(views(data@) =~= block_data(t));
            }
            k = k + 1;
        }
        assert(lv.take(k as int) =~= lv);
        if data.len() == 0 && event_type.len() == 0 {
            return None;
        }
        let joined = join_data(&data);
        Some(RawEvent { event_type: string_of(&event_type), data: string_of(&joined) })
    }
}

/// The text of one event as a server sends it: an `event:` line when it has a type,
/// then one `data:` line.
pub open spec fn event_text(t: Seq<char>, d: Seq<char>) -> Seq<char> {
    (if t.len() > 0 {
        event_tag() + t + seq!['\n']
    } else {
        Seq::empty()
    }) + data_tag() + d
}

proof fn lemma_next_occ_at(s: Seq<char>, k: int, p: Seq<char>, m: int)
    requires
        0 <= k <= m,
        p.len() > 0,
        crate::text::occurs_at(s, p, m),
        forall|j: int| k <= j < m ==> !crate::text::occurs_at(s, p, j),
    ensures
        next_occ(s, k, p) == m,
    decreases m - k,
{
    if k < m {
        lemma_next_occ_at(s, k + 1, p, m);
    }
}

/// The data line of an event.
pub open spec fn data_line(d: Seq<char>) -> Seq<char> {
    data_tag() + d
}

/// The lines of an event's text: the `event:` line when there is one, then the
/// `data:` line.
proof fn lemma_event_lines(t: Seq<char>, d: Seq<char>)
    requires
        !t.contains('\n'),
        !d.contains('\n'),
        t.len() == 0 || t.last() != '\r',
    ensures
        lines_from(event_text(t, d), 0) == if t.len() > 0 {
            seq![event_tag() + t, data_line(d)]
        } else {
            seq![data_line(d)]
        },
{
    let block = event_text(t, d);
    let dl = data_line(d);
    assert forall|j: int| 0 <= j < dl.len() implies dl[j] != '\n' by {
        if j >= 5 {
            assert(dl[j] == d[j - 5]);
        }
    }
    if t.len() > 0 {
        let el = event_tag() + t;
        assert(block =~= el + seq!['\n'] + dl);
        lemma_next_of(block, 0, '\n');
        assert(block[el.len() as int] == '\n');
        assert forall|m: int| 0 <= m < el.len() implies block[m] != '\n' by {
            assert(block[m] == el[m]);
            if m >= 6 {
                assert(el[m] == t[m - 6]);
            }
        }
        assert(next_of(block, 0, '\n') == el.len()) by {
            let n = next_of(block, 0, '\n');
            if n < el.len() {
                assert(block[n] == '\n');
            }
        }
        assert(block.subrange(0, el.len() as int) =~= el);
        assert(el.last() == t.last());
        assert(strip_cr(el) == el);
        let i = el.len() + 1int;
        lemma_next_of(block, i, '\n');
        assert forall|m: int| i <= m < block.len() implies block[m] != '\n' by {
            assert(block[m] == dl[m - i]);
        }
        assert(next_of(block, i, '\n') >= block.len()) by {
            let n = next_of(block, i, '\n');
            if n < block.len() {
                assert(block[n] == '\n');
            }
        }
        assert(block.subrange(i, block.len() as int) =~= dl);
        assert(lines_from(block, i) == seq![dl]);
        assert(lines_from(block, 0) =~= seq![el, dl]);
    } else {
        assert(block =~= dl);
        lemma_next_of(block, 0, '\n');
        assert(next_of(block, 0, '\n') >= block.len()) by {
            let n = next_of(block, 0, '\n');
            if n < block.len() {
                assert(block[n] == '\n');
            }
        }
        assert(block.subrange(0, block.len() as int) =~= dl);
    }
}

/// An event's text frames to its trimmed type and data.
proof fn lemma_event_fields(t: Seq<char>, d: Seq<char>)
    requires
        !t.contains('\n'),
        !d.contains('\n'),
        t.len() == 0 || t.last() != '\r',
    ensures
        parse_block(event_text(t, d)) == Some((trim(t), trim(d))),
{
    lemma_event_lines(t, d);
    let dl = data_line(d);
    let ls = lines_from(event_text(t, d), 0);
    assert(dl.take(5) =~= data_tag());
    assert(!has_prefix(dl, event_tag())) by {
        if has_prefix(dl, event_tag()) {
            assert(dl.take(6)[0] == event_tag()[0]);
        }
    }
    assert(dl.skip(5) =~= d);
    let none = Seq::<Seq<char>>::empty();
    assert(block_data(none) == none);
    assert(block_type(none) == Seq::<char>::empty());
    if t.len() > 0 {
        let el = event_tag() + t;
        assert(el.take(6) =~= event_tag());
        assert(el.skip(6) =~= t);
        assert(ls.drop_last() =~= seq![el]);
        assert(seq![el].drop_last() =~= none);
        assert(block_data(seq![el]) =~= none);
        assert(block_type(seq![el]) == trim(t));
        assert(block_data(ls) =~= seq![trim(d)]);
        assert(block_type(ls) == trim(t));
    } else {
        assert(ls.drop_last() =~= none);
        assert(block_data(ls) =~= seq![trim(d)]);
        assert(block_type(ls) == Seq::<char>::empty());
        assert(trim(t) =~= Seq::<char>::empty());
    }
    let dd = seq![trim(d)];
    assert(join_nl(dd) == trim(d));
}

/// An event sent as one `data:` line, after an `event:` line when it has a type, and
/// ended by a blank line is read back whole: the first complete block is exactly its
/// text, nothing is left over, and it frames to its trimmed type and data.
pub proof fn law_sse_event_roundtrip(t: Seq<char>, d: Seq<char>)
    requires
        !t.contains('\n'),
        !d.contains('\n'),
        t.len() == 0 || t.last() != '\r',
    ensures
        ({
            let block = event_text(t, d);
            let sent = block + separator();
            &&& next_occ(sent, 0, separator()) == block.len()
            &&& sent.take(block.len() as int) == block
            &&& sent.skip(block.len() + 2int) == Seq::<char>::empty()
            &&& parse_block(block) == Some((trim(t), trim(d)))
        }),
{
    let block = event_text(t, d);
    let sent = block + separator();
    lemma_event_lines(t, d);
    lemma_event_fields(t, d);
    let dl = data_line(d);
    // A newline of the block is followed by the `data:` line.
    assert forall|j: int| 0 <= j < block.len() - 1 && #[trigger] block[j] == '\n' implies block[j + 1]
        == 'd' by {
        if t.len() > 0 {
            let el = event_tag() + t;
            assert(block =~= el + seq!['\n'] + dl);
            if j < el.len() {
                assert(block[j] == el[j]);
                if j >= 6 {
                    assert(el[j] == t[j - 6]);
                }
            } else if j > el.len() {
                assert(block[j] == dl[j - el.len() - 1]);
                if j - el.len() - 1 >= 5 {
                    assert(dl[j - el.len() - 1] == d[j - el.len() - 6]);
                }
            }
        } else {
            assert(block =~= dl);
            if j >= 5 {
                assert(dl[j] == d[j - 5]);
            }
        }
    }
    assert(block.last() != '\n') by {
        assert(block.last() == dl.last());
        if d.len() > 0 {
            assert(dl.last() == d.last());
            assert(d.contains(d.last()));
        }
    }
    assert(sent.subrange(block.len() as int, block.len() + 2int) =~= separator());
    assert forall|j: int| 0 <= j < block.len() implies !crate::text::occurs_at(
        sent,
        separator(),
        j,
    ) by {
        if crate::text::occurs_at(sent, separator(), j) {
            assert(sent.subrange(j, j + 2)[0] == sent[j]);
            assert(sent.subrange(j, j + 2)[1] == sent[j + 1]);
            assert(sent[j] == block[j]);
            if j + 1 < block.len() {
                assert(sent[j + 1] == block[j + 1]);
            }
        }
    }
    lemma_next_occ_at(sent, 0, separator(), block.len() as int);
    assert(sent.take(block.len() as int) =~= block);
    assert(sent.skip(block.len() + 2int) =~= Seq::<char>::empty());
}

} // verus!
