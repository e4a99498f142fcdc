use vstd::prelude::*;

use crate::text::string_of;

verus! {

/// A value of a parsed TOML document.
#[derive(Debug)]
pub enum TomlValue {
    Str(String),
    Int(i64),
    Bool(bool),
    Array(Vec<TomlValue>),
    /// A table, as its entries in the order `toml` lists them.
    Table(Vec<(String, TomlValue)>),
    /// A float or a date-time.
    Other,
}

#[verifier::external_type_specification]
#[verifier::external_body]
pub struct ExTomlValue(toml::Value);

/// The table that `toml` parses `text` into, converted into [`TomlValue`]s;
/// `None` where `toml` refuses the text.
pub uninterp spec fn parsed_toml_table(text: Seq<char>) -> Option<Vec<(String, TomlValue)>>;

/// `str::parse::<toml::Table>` on `text`, each entry converted one for one
/// by [`toml_value`]. What `toml` makes of a text is not restated here: the
/// result is named, as a function of the text alone.
#[verifier::external_body]
fn parse_toml_table(text: &str) -> (r: Option<Vec<(String, TomlValue)>>)
    ensures
        r == parsed_toml_table(text@),
{
    let table = text.parse::<toml::Table>().ok()?;
    Some(table.iter().map(|(k, v)| (k.clone(), toml_value(v))).collect())
}

/// A `toml::Value` converted one for one into a [`TomlValue`], nested
/// arrays and tables included; floats and date-times become `Other`.
/// Nothing is claimed of it beyond what the name of [`parse_toml_table`]'s
/// result covers.
#[verifier::external_body]
fn toml_value(v: &toml::Value) -> TomlValue {
    match v {
        toml::Value::String(s) => TomlValue::Str(s.clone()),
        toml::Value::Integer(i) => TomlValue::Int(*i),
        toml::Value::Boolean(b) => TomlValue::Bool(*b),
        toml::Value::Array(a) => TomlValue::Array(a.iter().map(toml_value).collect()),
        toml::Value::Table(t) => TomlValue::Table(
            t.iter().map(|(k, v)| (k.clone(), toml_value(v))).collect(),
        ),
        _ => TomlValue::Other,
    }
}

/// The value under `key` in the table `t`: that of its first entry with
/// that key.
pub open spec fn toml_lookup(t: Seq<(String, TomlValue)>, key: Seq<char>) -> Option<TomlValue>
    decreases t.len(),
{
    if t.len() == 0 {
        None
    } else if t[0].0@ == key {
        Some(t[0].1)
    } else {
        toml_lookup(t.drop_first(), key)
    }
}

/// The name and path of an `[[example]]` item: both must be strings.
pub open spec fn example_entry(item: TomlValue) -> Option<(Seq<char>, Seq<char>)> {
    match item {
        TomlValue::Table(t) => match (toml_lookup(t@, "name"@), toml_lookup(t@, "path"@)) {
            (Some(TomlValue::Str(n)), Some(TomlValue::Str(p))) => Some((n@, p@)),
            _ => None,
        },
        _ => None,
    }
}

/// The names and paths of the `[[example]]` items `items`, in order; `None`
/// where one of them lacks a string name or path.
pub open spec fn entries_of(items: Seq<TomlValue>) -> Option<Seq<(Seq<char>, Seq<char>)>>
    decreases items.len(),
{
    if items.len() == 0 {
        Some(Seq::empty())
    } else {
        match (entries_of(items.drop_last()), example_entry(items.last())) {
            (Some(v), Some(e)) => Some(v.push(e)),
            _ => None,
        }
    }
}

/// The names and paths of the examples that a manifest table lists under
/// `[[example]]`, in order; `None` where it has no such array or an item
/// lacks a string name or path.
pub open spec fn manifest_entries(m: Seq<(String, TomlValue)>) -> Option<Seq<(Seq<char>, Seq<char>)>> {
    match toml_lookup(m, "example"@) {
        Some(TomlValue::Array(items)) => entries_of(items@),
        _ => None,
    }
}

/// The pairs `v` as pairs of character sequences.
pub open spec fn string_pairs(v: Seq<(String, String)>) -> Seq<(Seq<char>, Seq<char>)> {
    v.map_values(|p: (String, String)| (p.0@, p.1@))
}

/// The value under `key` in the table `t`.
fn lookup<'a>(t: &'a Vec<(String, TomlValue)>, key: &str) -> (r: Option<&'a TomlValue>)
    ensures
        match r {
            Some(v) => toml_lookup(t@, key@) == Some(*v),
            None => toml_lookup(t@, key@) is None,
        },
{
    let mut i: usize = 0;
    assert(t@.skip(0) =~= t@);
    while i < t.len()
        invariant
            i <= t@.len(),
            toml_lookup(t@, key@) == toml_lookup(t@.skip(i as int), key@),
        decreases t@.len() - i,
    {
        assert(t@.skip(i as int).drop_first() =~= t@.skip(i as int + 1));
        let e = &t[i];
        if string_of(e.0.as_str()) == string_of(key) {
            return Some(&e.1);
        }
        i += 1;
    }
    None
}

/// Where the items up to `k` already fail, all of them fail.
proof fn lemma_entries_fail_onward(items: Seq<TomlValue>, k: int)
    requires
        0 <= k <= items.len(),
        entries_of(items.take(k)) is None,
    ensures
        entries_of(items) is None,
    decreases items.len() - k,
{
    if k < items.len() {
        assert(items.take(k + 1).drop_last() =~= items.take(k));
        lemma_entries_fail_onward(items, k + 1);
    } else {
        assert(items.take(k) =~= items);
    }
}

/// The names and paths of the examples that the manifest table `manifest`
/// lists under `[[example]]`, in order; `None` where it has no such array
/// or one of its items is not a table with a string `name` and `path`.
pub fn example_entries(manifest: &Vec<(String, TomlValue)>) -> (r: Option<Vec<(String, String)>>)
    ensures
        match r {
            Some(v) => manifest_entries(manifest@) == Some(string_pairs(v@)),
            None => manifest_entries(manifest@) is None,
        },
{
    let items = match lookup(manifest, "example") {
        Some(TomlValue::Array(items)) => items,
        _ => return None,
    };
    let mut out: Vec<(String, String)> = Vec::new();
    let mut i: usize = 0;
    assert(items@.take(0) =~= Seq::<TomlValue>::empty());
    assert(string_pairs(out@) =~= Seq::<(Seq<char>, Seq<char>)>::empty());
    while i < items.len()
        invariant
            manifest_entries(manifest@) == entries_of(items@),
            i <= items@.len(),
            entries_of(items@.take(i as int)) == Some(string_pairs(out@)),
        decreases items@.len() - i,
    {
        assert(items@.take(i as int + 1).drop_last() =~= items@.take(i as int));
        assert(items@.take(i as int + 1).last() == items@[i as int]);
        let entry = match &items[i] {
            TomlValue::Table(t) => match (lookup(t, "name"), lookup(t, "path")) {
                (Some(TomlValue::Str(n)), Some(TomlValue::Str(p))) => Some((n.clone(), p.clone())),
                _ => None,
            },
            _ => None,
        };
        match entry {
            Some(e) => {
                let ghost before = out@;
                out.push(e);
                assert(string_pairs(out@) =~= string_pairs(before).push((e.0@, e.1@)));
            },
            None => {
                proof {
                    lemma_entries_fail_onward(items@, i as int + 1);
                }
                return None;
            },
        }
        i += 1;
    }
    assert(items@.take(i as int) =~= items@);
    Some(out)
}

/// The names and paths of the examples that the manifest text `text` lists
/// under `[[example]]`, in order; `None` where `toml` refuses the text, it
/// has no such array, or one of its items is not a table with a string
/// `name` and `path`.
pub fn manifest_examples(text: &str) -> (r: Option<Vec<(String, String)>>)
    ensures
        match parsed_toml_table(text@) {
            Some(t) => match r {
                Some(v) => manifest_entries(t@) == Some(string_pairs(v@)),
                None => manifest_entries(t@) is None,
            },
            None => r is None,
        },
{
    match parse_toml_table(text) {
        Some(t) => example_entries(&t),
        None => None,
    }
}

/// The package name that a manifest table gives: the string `name` of its
/// `[package]` table.
pub open spec fn manifest_package(m: Seq<(String, TomlValue)>) -> Option<Seq<char>> {
    match toml_lookup(m, "package"@) {
        Some(TomlValue::Table(p)) => match toml_lookup(p@, "name"@) {
            Some(TomlValue::Str(n)) => Some(n@),
            _ => None,
        },
        _ => None,
    }
}

/// The package name that the manifest text `text` gives; `None` where
/// `toml` refuses the text or it has no `[package]` table with a string
/// `name`.
pub fn manifest_package_name(text: &str) -> (r: Option<String>)
    ensures
        match parsed_toml_table(text@) {
            Some(t) => match r {
                Some(n) => manifest_package(t@) == Some(n@),
                None => manifest_package(t@) is None,
            },
            None => r is None,
        },
{
    let t = match parse_toml_table(text) {
        Some(t) => t,
        None => return None,
    };
    match lookup(&t, "package") {
        Some(TomlValue::Table(p)) => match lookup(p, "name") {
            Some(TomlValue::Str(n)) => Some(n.clone()),
            _ => None,
        },
        _ => None,
    }
}

} // verus!
