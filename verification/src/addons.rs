//! Reading the remote addon listing.
//!
//! The remote CLI prints the current addons as a JSON array of
//! objects, each naming its service under
//! `addon_service.cli_plugin_name`. The document is parsed by the
//! `json` crate behind trusted wrappers. Each wrapped call computes a
//! function of its arguments alone, so its result carries a name
//! (`parsed_json`, `json_member_of`, ...), and `addons_from_json`'s
//! contract says over those names exactly when each error comes back
//! and that success collects the plugin name of every array member,
//! in array order. The set reconciler is verified downstream on the
//! collected plain values.

use vstd::prelude::*;

verus! {

/// Why a remote addon listing was rejected as malformed.
#[derive(Clone, Copy, Debug, PartialEq, Eq, Structural)]
pub enum AddonsError {
    /// The text is not valid JSON.
    NotJson,
    /// The document is not a JSON array.
    NotArray,
    /// An entry of the array has no string under
    /// `addon_service.cli_plugin_name`.
    NoPluginName,
}

#[verifier::external_type_specification]
#[verifier::external_body]
pub struct ExJsonValue(json::JsonValue);

/// What `json::parse` makes of a text: the parsed value tree, `None`
/// when the text is not valid JSON. The result depends on the text
/// alone.
pub uninterp spec fn parsed_json(s: Seq<char>) -> Option<json::JsonValue>;

/// Whether a parsed value is a JSON array: what `JsonValue::is_array`
/// returns for it.
pub uninterp spec fn json_is_array_of(v: json::JsonValue) -> bool;

/// The member count a parsed value reports: what `JsonValue::len`
/// returns for it.
pub uninterp spec fn json_len_of(v: json::JsonValue) -> int;

/// The array member at an index: what indexing a parsed value by
/// `usize` returns (JSON null when out of range or not an array).
pub uninterp spec fn json_member_of(v: json::JsonValue, i: int) -> json::JsonValue;

/// The object member under a key: what indexing a parsed value by
/// `&str` returns (JSON null when absent or not an object).
pub uninterp spec fn json_field_of(v: json::JsonValue, key: Seq<char>) -> json::JsonValue;

/// The text of a parsed value: what `JsonValue::as_str` returns,
/// `None` for anything but a JSON string.
pub uninterp spec fn json_str_of(v: json::JsonValue) -> Option<Seq<char>>;

/// Relies on json::parse: turns a JSON document into a parsed value
/// tree, `None` when the text is not valid JSON.
#[verifier::external_body]
fn json_parse(s: &str) -> (r: Option<json::JsonValue>)
    ensures
        r == parsed_json(s@),
{
    json::parse(s).ok()
}

/// Relies on JsonValue::is_array: whether the value is a JSON array.
#[verifier::external_body]
fn json_is_array(v: &json::JsonValue) -> (r: bool)
    ensures
        r == json_is_array_of(*v),
{
    v.is_array()
}

/// Relies on JsonValue::len: the number of members of a JSON array or
/// object, zero for any other value.
#[verifier::external_body]
fn json_len(v: &json::JsonValue) -> (r: usize)
    ensures
        r as int == json_len_of(*v),
{
    v.len()
}

/// Relies on the `Index<usize>` impl of JsonValue: the array member
/// at an index, or JSON null when out of range.
#[verifier::external_body]
fn json_member<'a>(v: &'a json::JsonValue, i: usize) -> (r: &'a json::JsonValue)
    ensures
        *r == json_member_of(*v, i as int),
{
    &v[i]
}

/// Relies on the `Index<&str>` impl of JsonValue: the object member
/// under a key, or JSON null when absent.
#[verifier::external_body]
fn json_field<'a>(v: &'a json::JsonValue, key: &str) -> (r: &'a json::JsonValue)
    ensures
        *r == json_field_of(*v, key@),
{
    &v[key]
}

/// Relies on JsonValue::as_str: the text of a JSON string, `None` for
/// any other value.
#[verifier::external_body]
fn json_as_str(v: &json::JsonValue) -> (r: Option<String>)
    ensures
        match r {
            Some(s) => json_str_of(*v) == Some(s@),
            None => json_str_of(*v) is None,
        },
{
    match v.as_str() {
        Some(s) => Some(s.to_owned()),
        None => None,
    }
}

/// The service name an array member carries: the string under its
/// `addon_service.cli_plugin_name`, `None` when no string stands
/// there.
pub open spec fn plugin_name_of(member: json::JsonValue) -> Option<Seq<char>> {
    json_str_of(json_field_of(json_field_of(member, "addon_service"@), "cli_plugin_name"@))
}

/// The plugin names of the first `n` members of a parsed array, in
/// array order; `None` as soon as any of them carries no name.
pub open spec fn member_names_to(root: json::JsonValue, n: int) -> Option<Seq<Seq<char>>>
    decreases n,
{
    if n <= 0 {
        Some(Seq::empty())
    } else {
        match member_names_to(root, n - 1) {
            None => None,
            Some(prefix) => match plugin_name_of(json_member_of(root, n - 1)) {
                None => None,
                Some(name) => Some(prefix.push(name)),
            },
        }
    }
}

/// Once some member up to `k` lacks a name, every longer prefix does.
proof fn lemma_member_names_none_persists(root: json::JsonValue, k: int, n: int)
    requires
        0 <= k <= n,
        member_names_to(root, k) is None,
    ensures
        member_names_to(root, n) is None,
    decreases n - k,
{
    if k < n {
        lemma_member_names_none_persists(root, k, n - 1);
    }
}

/// Collects, from the remote addon listing, each addon's
/// `addon_service.cli_plugin_name`, in the order the array lists
/// them: `Ok` exactly when the text parses as an array whose every
/// member carries such a name, and each malformed shape of document
/// mapped to its error. The set reconciler, verified on the returned
/// plain values, decides what the names mean for convergence.
pub fn addons_from_json(doc: &str) -> (r: Result<Vec<String>, AddonsError>)
    ensures
        match r {
            Ok(names) => parsed_json(doc@) matches Some(root) && json_is_array_of(root)
                && member_names_to(root, json_len_of(root)) == Some(names.deep_view()),
            Err(AddonsError::NotJson) => parsed_json(doc@) is None,
            Err(AddonsError::NotArray) => parsed_json(doc@) matches Some(root)
                && !json_is_array_of(root),
            Err(AddonsError::NoPluginName) => parsed_json(doc@) matches Some(root)
                && json_is_array_of(root) && member_names_to(root, json_len_of(root)) is None,
        },
{
    let root = match json_parse(doc) {
        None => {
            return Err(AddonsError::NotJson);
        },
        Some(v) => v,
    };
    if !json_is_array(&root) {
        return Err(AddonsError::NotArray);
    }
    let n = json_len(&root);
    let mut names: Vec<String> = Vec::new();
    let mut i: usize = 0;
    proof {
        assert(names.deep_view() =~= Seq::<Seq<char>>::empty());
    }
    while i < n
        invariant
            i <= n,
            n as int == json_len_of(root),
            parsed_json(doc@) == Some(root),
            json_is_array_of(root),
            member_names_to(root, i as int) == Some(names.deep_view()),
        decreases n - i,
    {
        let ghost dv0 = names.deep_view();
        let member = json_member(&root, i);
        let service = json_field(member, "addon_service");
        let plugin = json_field(service, "cli_plugin_name");
        match json_as_str(plugin) {
            None => {
                proof {
                    assert(plugin_name_of(json_member_of(root, i as int)) is None);
                    assert(member_names_to(root, i as int + 1) is None);
                    lemma_member_names_none_persists(root, i as int + 1, n as int);
                }
                return Err(AddonsError::NoPluginName);
            },
            Some(name) => {
                proof {
                    assert(plugin_name_of(json_member_of(root, i as int)) == Some(name@));
                }
                names.push(name);
                proof {
                    assert(names.deep_view() =~= dv0.push(name@));
                    assert(member_names_to(root, i as int + 1) == Some(names.deep_view()));
                }
            },
        }
        i += 1;
    }
    Ok(names)
}

} // verus!
