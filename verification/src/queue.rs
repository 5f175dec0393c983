//! Prompts waiting for their session: a session runs one prompt at a time, and a
//! prompt that arrives while one is running waits until it is done.
use vstd::prelude::*;
use crate::access::{key_index, lemma_key_index, lemma_key_index_at};
use crate::opencode::{ModelRef, PromptPart};
use crate::text::str_eq;

verus! {

/// A prompt waiting for its session, with what is needed to send it later.
pub struct QueuedPrompt {
    pub chat_id: String,
    pub msg_id: i64,
    pub thread_id: Option<i64>,
    pub is_dm: bool,
    pub parts: Vec<PromptPart>,
    pub model: Option<ModelRef>,
}

/// The waiting prompts, in order of arrival, each with its session id.
pub struct PromptQueue {
    entries: Vec<(String, QueuedPrompt)>,
}

/// The session ids of the waiting prompts, in order.
pub open spec fn queue_keys(e: Seq<(String, QueuedPrompt)>) -> Seq<(Seq<char>, ())> {
    e.map_values(|x: (String, QueuedPrompt)| (x.0@, ()))
}

impl PromptQueue {
    /// The waiting prompts, in order of arrival.
    pub closed spec fn spec_entries(&self) -> Seq<(String, QueuedPrompt)> {
        self.entries@
    }

    /// Index of the first prompt waiting for a session, or -1.
    pub open spec fn first_of(&self, sid: Seq<char>) -> int {
        key_index(queue_keys(self.spec_entries()), sid, 0)
    }

    /// Nothing waits.
    pub fn new() -> (r: Self)
        ensures
            r.spec_entries().len() == 0,
    {
        PromptQueue { entries: Vec::new() }
    }

    /// Number of waiting prompts.
    pub fn len(&self) -> (r: usize)
        ensures
            r == self.spec_entries().len(),
    {
        self.entries.len()
    }

    /// A prompt for session `sid` joins the end of the queue.
    pub fn push(&mut self, sid: String, p: QueuedPrompt)
        ensures
            final(self).spec_entries() == old(self).spec_entries().push((sid, p)),
    {
        self.entries.push((sid, p));
    }

    /// Takes out the prompt that has waited longest for session `sid`.
    pub fn pop_next(&mut self, sid: &str) -> (r: Option<QueuedPrompt>)
        ensures
            old(self).first_of(sid@) >= 0 ==> r == Some(
                old(self).spec_entries()[old(self).first_of(sid@)].1,
            ) && final(self).spec_entries() == old(self).spec_entries().remove(
                old(self).first_of(sid@),
            ),
            old(self).first_of(sid@) < 0 ==> r is None && final(self).spec_entries() == old(
                self,
            ).spec_entries(),
    {
        let ghost ks = queue_keys(self.entries@);
        let mut i: usize = 0;
        while i < self.entries.len()
            invariant
                i <= self.entries.len(),
                self.entries@ == old(self).entries@,
                ks == queue_keys(self.entries@),
                key_index(ks, sid@, 0) == key_index(ks, sid@, i as int),
            decreases self.entries.len() - i,
        {
            assert(ks[i as int].0 == self.entries@[i as int].0@);
            if str_eq(self.entries[i].0.as_str(), sid) {
                let ghost before = self.entries@;
                let (_, p) = self.entries.remove(i);
                assert(self.entries@ == before.remove(i as int));
                return Some(p);
            }
            i = i + 1;
        }
        assert(key_index(ks, sid@, i as int) == -1);
        None
    }
}

/// Prompts for a session leave in the order they came: after `p1` and then `p2` join
/// the queue for session `sid` (none waiting for it before), the next two takes for
/// `sid` give `p1` and then `p2`, and the prompts of other sessions stay as they were.
pub proof fn law_queue_fifo(
    q0: PromptQueue,
    q1: PromptQueue,
    q2: PromptQueue,
    q3: PromptQueue,
    q4: PromptQueue,
    sid: String,
    p1: QueuedPrompt,
    p2: QueuedPrompt,
    got1: Option<QueuedPrompt>,
    got2: Option<QueuedPrompt>,
)
    requires
        q0.first_of(sid@) < 0,
        q1.spec_entries() == q0.spec_entries().push((sid, p1)),
        q2.spec_entries() == q1.spec_entries().push((sid, p2)),
        q2.first_of(sid@) >= 0 ==> got1 == Some(q2.spec_entries()[q2.first_of(sid@)].1)
            && q3.spec_entries() == q2.spec_entries().remove(q2.first_of(sid@)),
        q3.first_of(sid@) >= 0 ==> got2 == Some(q3.spec_entries()[q3.first_of(sid@)].1)
            && q4.spec_entries() == q3.spec_entries().remove(q3.first_of(sid@)),
    ensures
        got1 == Some(p1),
        got2 == Some(p2),
        q4.spec_entries() == q0.spec_entries(),
{
    let n = q0.spec_entries().len();
    let k0 = queue_keys(q0.spec_entries());
    let k2 = queue_keys(q2.spec_entries());
    lemma_key_index(k0, sid@, 0);
    assert forall|m: int| 0 <= m < n implies #[trigger] k2[m].0 != sid@ by {
        assert(k2[m] == k0[m]);
    }
    assert(k2[n as int].0 == sid@);
    lemma_key_index_at(k2, sid@, n as int);
    assert(q3.spec_entries() =~= q0.spec_entries().push((sid, p2)));
    let k3 = queue_keys(q3.spec_entries());
    assert forall|m: int| 0 <= m < n implies #[trigger] k3[m].0 != sid@ by {
        assert(k3[m] == k0[m]);
    }
    assert(k3[n as int].0 == sid@);
    lemma_key_index_at(k3, sid@, n as int);
    assert(q4.spec_entries() =~= q0.spec_entries());
}

} // verus!
