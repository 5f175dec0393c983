//! Where the bot keeps its state, resolved from the environment's values.
use vstd::prelude::*;
use crate::text::{chars_of, copy_str, extend_chars, extend_str, string_of};

verus! {

/// The paths the bot uses.
pub struct ConfigPaths {
    pub home_dir: String,
    pub state_dir: String,
    pub access_file: String,
    pub approved_dir: String,
    pub opencode_config_path: String,
}

/// `Path::join` of a relative component on Unix: a separator is added unless the
/// base is empty or ends with one.
pub open spec fn path_join(a: Seq<char>, b: Seq<char>) -> Seq<char> {
    if a.len() == 0 {
        b
    } else if a.last() == '/' {
        a + b
    } else {
        a + seq!['/'] + b
    }
}

fn join_path(a: &str, b: &str) -> (r: String)
    ensures
        r@ == path_join(a@, b@),
{
    let av = chars_of(a);
    let mut out: Vec<char> = Vec::new();
    extend_chars(&mut out, &av);
    if av.len() > 0 && av[av.len() - 1] != '/' {
        out.push('/');
    }
    extend_str(&mut out, b);
    string_of(&out)
}

/// The value when set, else the default.
pub open spec fn or_default(v: Option<&str>, d: Seq<char>) -> Seq<char> {
    match v {
        Some(x) => x@,
        None => d,
    }
}

/// The configuration directory: `XDG_CONFIG_HOME`, else `.config` in the home directory.
pub open spec fn xdg_spec(home: Option<&str>, xdg_config: Option<&str>) -> Seq<char> {
    or_default(xdg_config, path_join(or_default(home, "/tmp"@), ".config"@))
}

/// Resolves the paths from the values of `HOME`, `XDG_CONFIG_HOME`,
/// `TELEGRAM_STATE_DIR` and `OPENCODE_CONFIG_PATH` (each `None` when unset).
pub fn resolve_config_paths(
    home: Option<&str>,
    xdg_config: Option<&str>,
    state_dir: Option<&str>,
    opencode_config: Option<&str>,
) -> (r: ConfigPaths)
    ensures
        r.home_dir@ == or_default(home, "/tmp"@),
        r.state_dir@ == or_default(state_dir, xdg_spec(home, xdg_config) + "/opencode_telegram_bot"@),
        r.access_file@ == path_join(r.state_dir@, "access.json"@),
        r.approved_dir@ == path_join(r.state_dir@, "approved"@),
        r.opencode_config_path@ == or_default(
            opencode_config,
            xdg_spec(home, xdg_config) + "/opencode/opencode.json"@,
        ),
{
    let home_dir = match home {
        Some(h) => copy_str(h),
        None => copy_str("/tmp"),
    };
    let xdg = match xdg_config {
        Some(x) => copy_str(x),
        None => join_path(home_dir.as_str(), ".config"),
    };
    let state = match state_dir {
        Some(s) => copy_str(s),
        None => {
            let mut v = chars_of(xdg.as_str());
            extend_str(&mut v, "/opencode_telegram_bot");
            string_of(&v)
        },
    };
    let access_file = join_path(state.as_str(), "access.json");
    let approved_dir = join_path(state.as_str(), "approved");
    let oc = match opencode_config {
        Some(o) => copy_str(o),
        None => {
            let mut v = chars_of(xdg.as_str());
            extend_str(&mut v, "/opencode/opencode.json");
            string_of(&v)
        },
    };
    ConfigPaths {
        home_dir,
        state_dir: state,
        access_file,
        approved_dir,
        opencode_config_path: oc,
    }
}

} // verus!
