//! The opencode server's objects: sessions, prompt parts, models and providers.
use vstd::prelude::*;
use crate::text::{chars_of, copy_str, string_of};
use crate::markdown::{find_char, lemma_next_of, next_of, slice_chars};

verus! {

/// A session.
pub struct Session {
    pub id: String,
    pub slug: Option<String>,
    pub version: Option<String>,
}

/// One part of a prompt: text, or a file given by a data URL.
pub struct PromptPart {
    pub part_type: String,
    pub text: Option<String>,
    pub mime: Option<String>,
    pub url: Option<String>,
    pub filename: Option<String>,
}

/// A model of a provider.
pub struct ModelRef {
    pub provider_id: String,
    pub model_id: String,
}

/// A provider and its models (in the order the server lists them).
pub struct Provider {
    pub id: String,
    pub name: Option<String>,
    pub env: Vec<String>,
    pub models: Vec<(String, ModelInfo)>,
}

/// A model's description.
pub struct ModelInfo {
    pub id: String,
    pub name: Option<String>,
    pub reasoning: bool,
    pub attachment: bool,
    pub modalities: Option<Modalities>,
}

/// The kinds of input a model accepts.
pub struct Modalities {
    pub input: Vec<String>,
}

/// The providers the server knows.
pub struct ProviderListResponse {
    pub all: Vec<Provider>,
}

/// `provider/model` split at the first slash; `None` without a slash.
pub fn parse_model_ref(m: &str) -> (r: Option<ModelRef>)
    ensures
        next_of(m@, 0, '/') >= m@.len() ==> r is None,
        next_of(m@, 0, '/') < m@.len() ==> (r matches Some(x) && x.provider_id@ == m@.take(
            next_of(m@, 0, '/'),
        ) && x.model_id@ == m@.skip(next_of(m@, 0, '/') + 1)),
{
    let v = chars_of(m);
    let slash = find_char(&v, 0, '/');
    proof {
        lemma_next_of(v@, 0, '/');
    }
    if slash >= v.len() {
        return None;
    }
    let p = slice_chars(&v, 0, slash);
    let q = slice_chars(&v, slash + 1, v.len());
    assert(p@ =~= m@.take(slash as int));
    assert(q@ =~= m@.skip(slash + 1));
    Some(ModelRef { provider_id: string_of(&p), model_id: string_of(&q) })
}

/// The text part of a prompt.
pub fn text_part(text: &str) -> (r: PromptPart)
    ensures
        r.part_type@ == "text"@,
        r.text matches Some(t) && t@ == text@,
        r.mime is None,
        r.url is None,
        r.filename is None,
{
    PromptPart {
        part_type: copy_str("text"),
        text: Some(copy_str(text)),
        mime: None,
        url: None,
        filename: None,
    }
}

/// The part of a prompt that carries an attached file.
pub fn file_part(file: &crate::download::AttachedFile) -> (r: PromptPart)
    ensures
        r.part_type@ == "file"@,
        r.text is None,
        r.mime matches Some(x) && x@ == file.mime@,
        r.url matches Some(x) && x@ == file.data_url@,
        r.filename matches Some(x) && x@ == file.filename@,
{
    PromptPart {
        part_type: copy_str("file"),
        text: None,
        mime: Some(copy_str(file.mime.as_str())),
        url: Some(copy_str(file.data_url.as_str())),
        filename: Some(copy_str(file.filename.as_str())),
    }
}

/// The parts of a prompt: the text, then one part per attached file.
pub fn prompt_parts(prompt: &str, files: &Vec<crate::download::AttachedFile>) -> (r: Vec<PromptPart>)
    ensures
        r@.len() == files@.len() + 1,
        r@[0].part_type@ == "text"@,
        r@[0].text matches Some(t) && t@ == prompt@,
        forall|i: int|
            0 <= i < files@.len() ==> (#[trigger] r@[i + 1]).part_type@ == "file"@ && (r@[i
                + 1].url matches Some(x) && x@ == files@[i].data_url@) && (r@[i + 1].mime matches Some(
                x,
            ) && x@ == files@[i].mime@) && (r@[i + 1].filename matches Some(x) && x@
                == files@[i].filename@) && r@[i + 1].text is None,
{
    let mut parts: Vec<PromptPart> = Vec::new();
    parts.push(text_part(prompt));
    let mut i: usize = 0;
    while i < files.len()
        invariant
            i <= files.len(),
            parts@.len() == i + 1,
            parts@[0].part_type@ == "text"@,
            parts@[0].text matches Some(t) && t@ == prompt@,
            forall|k: int|
                0 <= k < i ==> (#[trigger] parts@[k + 1]).part_type@ == "file"@ && (parts@[k
                    + 1].url matches Some(x) && x@ == files@[k].data_url@) && (parts@[k
                    + 1].mime matches Some(x) && x@ == files@[k].mime@) && (parts@[k
                    + 1].filename matches Some(x) && x@ == files@[k].filename@) && parts@[k
                    + 1].text is None,
        decreases files.len() - i,
    {
        parts.push(file_part(&files[i]));
        i = i + 1;
    }
    parts
}

} // verus!
