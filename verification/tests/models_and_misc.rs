use opencode_telegram_bot::config::resolve_config_paths;
use opencode_telegram_bot::download::{attach_file, data_url};
use opencode_telegram_bot::models::{build_model_keyboard, model_entries, ModelCache, ModelEntry};
use opencode_telegram_bot::opencode::{parse_model_ref, prompt_parts, Modalities, ModelInfo, Provider};
use opencode_telegram_bot::telegram::{api_base_url, file_url};

fn model(id: &str, reasoning: bool, image: bool, attachment: bool) -> (String, ModelInfo) {
    (
        id.to_string(),
        ModelInfo {
            id: id.to_string(),
            name: None,
            reasoning,
            attachment,
            modalities: Some(Modalities {
                input: if image { vec!["text".to_string(), "image".to_string()] } else { vec![] },
            }),
        },
    )
}

fn entries(n: usize) -> Vec<ModelEntry> {
    (0..n)
        .map(|i| ModelEntry { full_id: format!("p/m{}", i), label: format!("p/m{} x", i) })
        .collect()
}

#[test]
fn model_entries_follow_configured_providers() {
    let providers = vec![
        Provider {
            id: "open".to_string(),
            name: None,
            env: vec![],
            models: vec![model("a", true, true, true), model("b", false, false, false)],
        },
        Provider { id: "keyed".to_string(), name: None, env: vec!["KEY".to_string()], models: vec![model("c", false, true, false)] },
    ];
    let e = model_entries(&providers, &vec![]);
    assert_eq!(e.len(), 2);
    assert_eq!(e[0].full_id, "open/a");
    assert_eq!(e[0].label, "open/a \u{1F9E0}\u{1F5BC}\u{1F4CE}");
    assert_eq!(e[1].label, "open/b");
    let e = model_entries(&providers, &vec!["KEY".to_string()]);
    assert_eq!(e.len(), 3);
    assert_eq!(e[2].label, "keyed/c \u{1F5BC}");
}

#[test]
fn model_cache_keeps_list() {
    let mut c = ModelCache::new();
    assert!(c.cached().is_none());
    c.store(entries(2));
    assert_eq!(c.cached().unwrap().len(), 2);
}

fn rows(models: &Vec<ModelEntry>, page: usize) -> Vec<(String, String)> {
    build_model_keyboard(models, page)
        .into_iter()
        .map(|r| {
            assert_eq!(r.len(), 1);
            (r[0].text.clone(), r[0].callback_data.clone())
        })
        .collect()
}

#[test]
fn keyboard_single_page() {
    let m = entries(3);
    let r = rows(&m, 0);
    assert_eq!(r.len(), 3);
    assert_eq!(r[0], ("p/m0 x".to_string(), "model:p/m0".to_string()));
    assert!(rows(&vec![], 0).is_empty());
}

#[test]
fn keyboard_pages() {
    let m = entries(14);
    let first = rows(&m, 0);
    assert_eq!(first.len(), 7);
    assert_eq!(first[6], ("Page 2 \u{27A1}\u{FE0F}".to_string(), "modelpage:1".to_string()));
    let mid = rows(&m, 1);
    assert_eq!(mid.len(), 8);
    assert_eq!(mid[0], ("\u{2B05}\u{FE0F} Page 1".to_string(), "modelpage:0".to_string()));
    assert_eq!(mid[1].1, "model:p/m6");
    assert_eq!(mid[7], ("Page 3 \u{27A1}\u{FE0F}".to_string(), "modelpage:2".to_string()));
    let last = rows(&m, 2);
    assert_eq!(last.len(), 3);
    assert_eq!(last[0].1, "modelpage:1");
    assert_eq!(last[2].1, "model:p/m13");
}

#[test]
fn attachments_are_base64_data_urls() {
    let f = attach_file("image/png", "a.png", b"hi");
    assert_eq!(f.data_url, "data:image/png;base64,aGk=");
    assert_eq!((f.mime.as_str(), f.filename.as_str()), ("image/png", "a.png"));
    assert_eq!(attach_file("x/y", "n", &[0, 1, 2, 3]).data_url, "data:x/y;base64,AAECAw==");
    assert_eq!(data_url("text/plain", "QQ=="), "data:text/plain;base64,QQ==");
}

#[test]
fn model_refs() {
    let r = parse_model_ref("openai/gpt-4/x").unwrap();
    assert_eq!((r.provider_id.as_str(), r.model_id.as_str()), ("openai", "gpt-4/x"));
    assert!(parse_model_ref("nomodel").is_none());
    let r = parse_model_ref("/m").unwrap();
    assert_eq!((r.provider_id.as_str(), r.model_id.as_str()), ("", "m"));
}

#[test]
fn prompt_parts_text_then_files() {
    let files = vec![attach_file("image/png", "a.png", b"hi")];
    let parts = prompt_parts("hello", &files);
    assert_eq!(parts.len(), 2);
    assert_eq!(parts[0].part_type, "text");
    assert_eq!(parts[0].text.as_deref(), Some("hello"));
    assert_eq!(parts[1].part_type, "file");
    assert_eq!(parts[1].url.as_deref(), Some("data:image/png;base64,aGk="));
    assert_eq!(parts[1].filename.as_deref(), Some("a.png"));
    assert_eq!(parts[1].mime.as_deref(), Some("image/png"));
    assert!(parts[1].text.is_none());
}

#[test]
fn config_paths() {
    let p = resolve_config_paths(Some("/home/u"), None, None, None);
    assert_eq!(p.home_dir, "/home/u");
    assert_eq!(p.state_dir, "/home/u/.config/opencode_telegram_bot");
    assert_eq!(p.access_file, "/home/u/.config/opencode_telegram_bot/access.json");
    assert_eq!(p.approved_dir, "/home/u/.config/opencode_telegram_bot/approved");
    assert_eq!(p.opencode_config_path, "/home/u/.config/opencode/opencode.json");
    let p = resolve_config_paths(None, Some("/x"), Some("/state/"), Some("/oc.json"));
    assert_eq!(p.home_dir, "/tmp");
    assert_eq!(p.access_file, "/state/access.json");
    assert_eq!(p.opencode_config_path, "/oc.json");
    let p = resolve_config_paths(Some("/home/u/"), None, None, None);
    assert_eq!(p.state_dir, "/home/u/.config/opencode_telegram_bot");
}

#[test]
fn telegram_urls() {
    assert_eq!(file_url("TOKEN", "photos/a.jpg"), "https://api.telegram.org/file/botTOKEN/photos/a.jpg");
    assert_eq!(api_base_url("T"), "https://api.telegram.org/botT");
}
