//! Locations of the engine's configuration files.
use vstd::prelude::*;
use vstd::string::*;

verus! {

/// `part` appended to `base` as a relative path component: a separator goes
/// between them unless `base` is empty or already ends with one.
pub open spec fn join_path(base: Seq<char>, part: Seq<char>) -> Seq<char> {
    if base.len() == 0 || base.last() == '/' {
        base + part
    } else {
        base + seq!['/'] + part
    }
}

/// Appends a relative path component.
pub fn join(base: &str, part: &str) -> (r: String)
    ensures
        r@ == join_path(base@, part@),
{
    let n = base.unicode_len();
    let mut r = base.to_owned();
    if n > 0 && base.get_char(n - 1) != '/' {
        proof {
            reveal_strlit("/");
        }
        r.append("/");
    }
    r.append(part);
    r
}

/// The input settings file under the engine's manifest directory.
pub fn get_input_settings_path(manifest_dir: &str) -> (r: String)
    ensures
        r@ == join_path(join_path(manifest_dir@, "config"@), "input_settings.json"@),
{
    let config_dir = join(manifest_dir, "config");
    join(config_dir.as_str(), "input_settings.json")
}

} // verus!
