//! The model picker: the list of usable models and its paged inline keyboard.
use vstd::prelude::*;
use crate::opencode::{ModelInfo, Provider};
use crate::text::{
    contains_str, copy_str, dec, extend_chars, extend_str, push_dec, string_of, string_views,
};

verus! {

/// A model as the picker shows it.
#[derive(Clone)]
pub struct ModelEntry {
    pub full_id: String,
    pub label: String,
}

/// The model list, fetched once.
pub struct ModelCache {
    models: Option<Vec<ModelEntry>>,
}

/// Models per keyboard page.
pub const MODELS_PER_PAGE: usize = 6;

impl ModelCache {
    pub closed spec fn spec_models(&self) -> Option<Vec<ModelEntry>> {
        self.models
    }

    /// An empty cache.
    pub fn new() -> (r: Self)
        ensures
            r.spec_models() is None,
    {
        ModelCache { models: None }
    }

    /// The cached list, once fetched.
    pub fn cached(&self) -> (r: Option<&Vec<ModelEntry>>)
        ensures
            match (r, self.spec_models()) {
                (Some(x), Some(y)) => *x == y,
                (None, None) => true,
                _ => false,
            },
    {
        match &self.models {
            Some(m) => Some(m),
            None => None,
        }
    }

    /// Whether the list has still to be fetched.
    pub fn needs_fetch(&self) -> (r: bool)
        ensures
            r == self.spec_models() is None,
    {
        self.models.is_none()
    }

    /// Records the outcome of the fetch of an empty cache (`None` when it failed): a
    /// fetched list is kept for good, a failed fetch leaves the cache empty.
    pub fn record_fetch(&mut self, fetched: Option<Vec<ModelEntry>>)
        requires
            old(self).spec_models() is None,
        ensures
            final(self).spec_models() == fetched,
    {
        self.models = fetched;
    }

    /// Keeps the fetched list.
    pub fn store(&mut self, models: Vec<ModelEntry>)
        ensures
            final(self).spec_models() == Some(models),
    {
        self.models = Some(models);
    }
}

/// The list is fetched once: while the cache is empty every request fetches; the
/// first fetch that succeeds is kept, and from then on the cache serves that list and
/// asks for no fetch; a failed fetch leaves the cache empty, so the next request
/// fetches again.
pub proof fn law_models_fetched_once(before: ModelCache, after: ModelCache, fetched: Option<Vec<ModelEntry>>)
    requires
        before.spec_models() is None,
        after.spec_models() == fetched,
    ensures
        fetched matches Some(v) ==> after.spec_models() == Some(v) && !(after.spec_models() is None),
        fetched is None ==> after.spec_models() is None,
{
}

/// A provider is usable when it needs no environment variable or one of them is set.
pub open spec fn provider_configured(env: Seq<Seq<char>>, set: Seq<Seq<char>>) -> bool {
    env.len() == 0 || exists|i: int| 0 <= i < env.len() && set.contains(#[trigger] env[i])
}

/// The tags of a model: a brain for reasoning, a picture for image input, a clip
/// for attachments.
pub open spec fn model_tags(m: ModelInfo) -> Seq<char> {
    (if m.reasoning {
        seq!['\u{1F9E0}']
    } else {
        Seq::empty()
    }) + (if m.modalities matches Some(md) && string_views(md.input@).contains("image"@) {
        seq!['\u{1F5BC}']
    } else {
        Seq::empty()
    }) + (if m.attachment {
        seq!['\u{1F4CE}']
    } else {
        Seq::empty()
    })
}

/// The picker entry of a model of a provider: `provider/model` and its label.
pub open spec fn entry_spec(p: Provider, m: ModelInfo) -> (Seq<char>, Seq<char>) {
    let id = p.id@ + seq!['/'] + m.id@;
    let tags = model_tags(m);
    (id, if tags.len() == 0 {
        id
    } else {
        id + seq![' '] + tags
    })
}

/// The entries of one provider's models.
pub open spec fn provider_entries(p: Provider, k: int) -> Seq<(Seq<char>, Seq<char>)>
    decreases k,
{
    if k <= 0 {
        Seq::empty()
    } else {
        provider_entries(p, k - 1) + seq![entry_spec(p, p.models@[k - 1].1)]
    }
}

/// The entries of the usable providers' models, in order.
pub open spec fn entries_spec(ps: Seq<Provider>, set: Seq<Seq<char>>) -> Seq<(Seq<char>, Seq<char>)>
    decreases ps.len(),
{
    if ps.len() == 0 {
        Seq::empty()
    } else {
        entries_spec(ps.drop_last(), set) + if provider_configured(
            string_views(ps.last().env@),
            set,
        ) {
            provider_entries(ps.last(), ps.last().models@.len() as int)
        } else {
            Seq::empty()
        }
    }
}

/// The views of model entries.
pub open spec fn entry_views(v: Seq<ModelEntry>) -> Seq<(Seq<char>, Seq<char>)> {
    v.map_values(|e: ModelEntry| (e.full_id@, e.label@))
}

fn configured(p: &Provider, set: &Vec<String>) -> (r: bool)
    ensures
        r == provider_configured(string_views(p.env@), string_views(set@)),
{
    if p.env.len() == 0 {
        return true;
    }
    let mut i: usize = 0;
    while i < p.env.len()
        invariant
            i <= p.env.len(),
            forall|k: int| 0 <= k < i ==> !string_views(set@).contains(#[trigger] string_views(p.env@)[k]),
        decreases p.env.len() - i,
    {
        assert(string_views(p.env@)[i as int] == p.env@[i as int]@);
        if contains_str(set, p.env[i].as_str()) {
            return true;
        }
        i = i + 1;
    }
    false
}

fn model_entry(p: &Provider, m: &ModelInfo) -> (r: ModelEntry)
    ensures
        (r.full_id@, r.label@) == entry_spec(*p, *m),
{
    let mut id: Vec<char> = Vec::new();
    extend_str(&mut id, p.id.as_str());
    id.push('/');
    extend_str(&mut id, m.id.as_str());
    let mut tags: Vec<char> = Vec::new();
    if m.reasoning {
        tags.push('\u{1F9E0}');
    }
    let image = match &m.modalities {
        Some(md) => contains_str(&md.input, "image"),
        None => false,
    };
    if image {
        tags.push('\u{1F5BC}');
    }
    if m.attachment {
        tags.push('\u{1F4CE}');
    }
    assert(tags@ =~= model_tags(*m));
    let mut label: Vec<char> = Vec::new();
    extend_chars(&mut label, &id);
    if tags.len() > 0 {
        label.push(' ');
        extend_chars(&mut label, &tags);
    }
    ModelEntry { full_id: string_of(&id), label: string_of(&label) }
}

/// The picker entries of the usable providers. `env_set` names the environment
/// variables that are set.
pub fn model_entries(providers: &Vec<Provider>, env_set: &Vec<String>) -> (r: Vec<ModelEntry>)
    ensures
        entry_views(r@) == entries_spec(providers@, string_views(env_set@)),
{
    let ghost set = string_views(env_set@);
    let mut out: Vec<ModelEntry> = Vec::new();
    let mut i: usize = 0;
    assert(providers@.take(0) =~= Seq::<Provider>::empty());
    assert(entry_views(out@) =~= Seq::<(Seq<char>, Seq<char>)>::empty());
    while i < providers.len()
        invariant
            i <= providers.len(),
            set == string_views(env_set@),
            entry_views(out@) == entries_spec(providers@.take(i as int), set),
        decreases providers.len() - i,
    {
        let p = &providers[i];
        let ghost base = entry_views(out@);
        assert(providers@.take(i + 1).drop_last() =~= providers@.take(i as int));
        assert(providers@.take(i + 1).last() == *p);
        if configured(p, env_set) {
            let mut k: usize = 0;
            assert(base + provider_entries(*p, 0) =~= base);
            while k < p.models.len()
                invariant
                    k <= p.models.len(),
                    entry_views(out@) == base + provider_entries(*p, k as int),
                decreases p.models.len() - k,
            {
                let ghost before = out@;
                let e = model_entry(p, &p.models[k].1);
                out.push(e);
                assert(entry_views(out@) =~= entry_views(before) + seq![(e.full_id@, e.label@)]);
                assert(entry_views(out@) =~= base + provider_entries(*p, k + 1));
                k = k + 1;
            }
        } else {
            assert(entry_views(out@) =~= base + Seq::<(Seq<char>, Seq<char>)>::empty());
        }
        i = i + 1;
    }
    assert(providers@.take(i as int) =~= providers@);
    out
}

/// A button of an inline keyboard.
pub struct KeyboardButton {
    pub text: String,
    pub callback_data: String,
}

/// Number of keyboard pages for `n` models.
pub open spec fn total_pages(n: int) -> int {
    (n + MODELS_PER_PAGE - 1) / MODELS_PER_PAGE as int
}

/// The rows of the model keyboard for a page: a back button, one button per model of
/// the page, a forward button; each row holds one button, as (text, callback data).
pub open spec fn keyboard_spec(models: Seq<ModelEntry>, page: int) -> Seq<(Seq<char>, Seq<char>)> {
    let tp = total_pages(models.len() as int);
    let start = page * MODELS_PER_PAGE;
    let end = if models.len() < start + MODELS_PER_PAGE {
        models.len() as int
    } else {
        start + MODELS_PER_PAGE
    };
    (if tp > 1 && page > 0 {
        seq![
            (
                seq!['\u{2B05}', '\u{FE0F}'] + " Page "@ + dec(page as nat),
                "modelpage:"@ + dec((page - 1) as nat),
            ),
        ]
    } else {
        Seq::empty()
    }) + models.subrange(start, end).map_values(
        |m: ModelEntry| (m.label@, "model:"@ + m.full_id@),
    ) + (if tp > 1 && page < tp - 1 {
        seq![
            (
                "Page "@ + dec((page + 2) as nat) + seq![' ', '\u{27A1}', '\u{FE0F}'],
                "modelpage:"@ + dec((page + 1) as nat),
            ),
        ]
    } else {
        Seq::empty()
    })
}

/// The picker shows the models of the page in order, with a back button on every page
/// but the first (when there is more than one page) and a forward button exactly when
/// models remain after the page: no button leads to a page without models.
pub proof fn law_keyboard_pages(models: Seq<ModelEntry>, page: int)
    requires
        0 <= page,
        page * 6 <= models.len(),
    ensures
        ({
            let n = models.len() as int;
            let start = page * 6;
            let shown = if n - start < 6 {
                n - start
            } else {
                6
            };
            let back = page > 0 && n > 6;
            let fwd = (page + 1) * 6 < n;
            let b: int = if back {
                1
            } else {
                0
            };
            let k = keyboard_spec(models, page);
            &&& k.len() == b + shown + if fwd {
                1int
            } else {
                0
            }
            &&& back ==> k[0].1 == "modelpage:"@ + dec((page - 1) as nat)
            &&& forall|i: int|
                0 <= i < shown ==> #[trigger] k[b + i] == (
                    models[start + i].label@,
                    "model:"@ + models[start + i].full_id@,
                )
            &&& fwd ==> k[k.len() - 1].1 == "modelpage:"@ + dec((page + 1) as nat)
        }),
{
    let n = models.len() as int;
    let tp = total_pages(n);
    assert(tp == (n + 5) / 6);
    assert((tp > 1) == (n > 6)) by (nonlinear_arith)
        requires
            tp == (n + 5) / 6,
            n >= 0,
    ;
    assert((tp > 1 && page < tp - 1) == ((page + 1) * 6 < n)) by (nonlinear_arith)
        requires
            tp == (n + 5) / 6,
            n >= 0,
            page >= 0,
    ;
}

/// The views of keyboard rows of one button each.
pub open spec fn button_views(rows: Seq<Vec<KeyboardButton>>) -> Seq<(Seq<char>, Seq<char>)> {
    rows.map_values(|r: Vec<KeyboardButton>| (r@[0].text@, r@[0].callback_data@))
}

fn one_button(text: Vec<char>, data: Vec<char>) -> (r: Vec<KeyboardButton>)
    ensures
        r@.len() == 1,
        r@[0].text@ == text@,
        r@[0].callback_data@ == data@,
{
    let mut row: Vec<KeyboardButton> = Vec::new();
    row.push(KeyboardButton { text: string_of(&text), callback_data: string_of(&data) });
    row
}

/// The label of the stop button.
pub open spec fn stop_label() -> Seq<char> {
    seq!['\u{23F9}', ' ', 'S', 't', 'o', 'p']
}

/// The keyboard of a progress message: one button that stops the prompt of the
/// session (`stop:` and the session id).
pub fn stop_button(session_id: &str) -> (r: Vec<Vec<KeyboardButton>>)
    ensures
        r@.len() == 1,
        r@[0]@.len() == 1,
        r@[0]@[0].text@ == stop_label(),
        r@[0]@[0].callback_data@ == seq!['s', 't', 'o', 'p', ':'] + session_id@,
{
    let label: Vec<char> = vec!['\u{23F9}', ' ', 'S', 't', 'o', 'p'];
    let mut data: Vec<char> = vec!['s', 't', 'o', 'p', ':'];
    extend_str(&mut data, session_id);
    let mut rows: Vec<Vec<KeyboardButton>> = Vec::new();
    rows.push(one_button(label, data));
    rows
}

/// The paged inline keyboard for choosing a model.
pub fn build_model_keyboard(models: &Vec<ModelEntry>, page: usize) -> (r: Vec<Vec<KeyboardButton>>)
    requires
        page * MODELS_PER_PAGE <= models@.len(),
    ensures
        forall|i: int| 0 <= i < r@.len() ==> (#[trigger] r@[i])@.len() == 1,
        button_views(r@) == keyboard_spec(models@, page as int),
{
    let n = models.len();
    let tp = n / MODELS_PER_PAGE + if n % MODELS_PER_PAGE == 0 {
        0
    } else {
        1
    };
    assert(tp == total_pages(n as int)) by (nonlinear_arith)
        requires
            tp == n / 6 + if n % 6 == 0 {
                0int
            } else {
                1int
            },
    {}
    let start = page * MODELS_PER_PAGE;
    let end = if n - start < MODELS_PER_PAGE {
        n
    } else {
        start + MODELS_PER_PAGE
    };
    let mut rows: Vec<Vec<KeyboardButton>> = Vec::new();
    let ghost spec = keyboard_spec(models@, page as int);
    let ghost front = if tp > 1 && page > 0 {
        seq![
            (
                seq!['\u{2B05}', '\u{FE0F}'] + " Page "@ + dec(page as nat),
                "modelpage:"@ + dec((page - 1) as nat),
            ),
        ]
    } else {
        Seq::<(Seq<char>, Seq<char>)>::empty()
    };
    if tp > 1 && page > 0 {
        let mut t: Vec<char> = Vec::new();
        t.push('\u{2B05}');
        t.push('\u{FE0F}');
        extend_str(&mut t, " Page ");
        push_dec(&mut t, page as u64);
        let mut d: Vec<char> = Vec::new();
        extend_str(&mut d, "modelpage:");
        push_dec(&mut d, (page - 1) as u64);
        assert(t@ =~= seq!['\u{2B05}', '\u{FE0F}'] + " Page "@ + dec(page as nat));
        assert(d@ =~= "modelpage:"@ + dec((page - 1) as nat));
        rows.push(one_button(t, d));
    }
    assert(button_views(rows@) =~= front);
    let ghost mids = models@.subrange(start as int, end as int).map_values(
        |m: ModelEntry| (m.label@, "model:"@ + m.full_id@),
    );
    let mut k = start;
    while k < end
        invariant
            start <= k <= end <= n,
            n == models@.len(),
            mids == models@.subrange(start as int, end as int).map_values(
                |m: ModelEntry| (m.label@, "model:"@ + m.full_id@),
            ),
            mids.len() == end - start,
            forall|i: int| 0 <= i < rows@.len() ==> (#[trigger] rows@[i])@.len() == 1,
            button_views(rows@) == front + mids.take(k - start),
        decreases end - k,
    {
        let m = &models[k];
        let label = crate::text::chars_of(m.label.as_str());
        let mut d: Vec<char> = Vec::new();
        extend_str(&mut d, "model:");
        extend_str(&mut d, m.full_id.as_str());
        let ghost before = rows@;
        assert(d@ =~= "model:"@ + m.full_id@);
        rows.push(one_button(label, d));
        assert(models@.subrange(start as int, end as int)[k - start] == *m);
        assert(mids[k - start] == (m.label@, "model:"@ + m.full_id@));
        assert(button_views(rows@) =~= button_views(before).push(mids[k - start]));
        assert(mids.take(k + 1 - start) =~= mids.take(k - start).push(mids[k - start]));
        k = k + 1;
    }
    assert(mids.take(end - start) =~= mids);
    if tp > 1 && page < tp - 1 {
        let mut t: Vec<char> = Vec::new();
        extend_str(&mut t, "Page ");
        push_dec(&mut t, (page + 2) as u64);
        t.push(' ');
        t.push('\u{27A1}');
        t.push('\u{FE0F}');
        let mut d: Vec<char> = Vec::new();
        extend_str(&mut d, "modelpage:");
        push_dec(&mut d, (page + 1) as u64);
        assert(t@ =~= "Page "@ + dec((page + 2) as nat) + seq![' ', '\u{27A1}', '\u{FE0F}']);
        assert(d@ =~= "modelpage:"@ + dec((page + 1) as nat));
        let ghost before = rows@;
        rows.push(one_button(t, d));
        assert(button_views(rows@) =~= button_views(before).push(
            ("Page "@ + dec((page + 2) as nat) + seq![' ', '\u{27A1}', '\u{FE0F}'],
            "modelpage:"@ + dec((page + 1) as nat)),
        ));
    }
    assert(button_views(rows@) =~= spec);
    rows
}

} // verus!
