use vstd::prelude::*;

use crate::text::{string_of, views};

verus! {

/// Where a crate was found in the manifest of the crate being compiled:
/// the crate itself, or a dependency under the given name.
#[derive(Debug, Clone, PartialEq, Eq)]
pub enum FoundCrate {
    Itself,
    Name(String),
}

/// A path to an item: its segments, with a leading `::` when `absolute`.
#[derive(Debug, Clone, PartialEq, Eq)]
pub struct ItemPath {
    pub absolute: bool,
    pub segments: Vec<String>,
}

/// Whether `p` is the path with these segments.
pub open spec fn is_path(p: ItemPath, absolute: bool, segments: Seq<Seq<char>>) -> bool {
    p.absolute == absolute && views(p.segments@) == segments
}

/// The path by which generated code names the `ranim` crate: `crate`
/// inside `ranim` itself, `::name` where it is a dependency named `name`,
/// else `::ranim`.
pub open spec fn ranim_path_spec(found: Option<FoundCrate>, current: Option<Seq<char>>) -> (
    bool,
    Seq<Seq<char>>,
) {
    match found {
        Some(FoundCrate::Itself) => if current == Some("ranim"@) {
            (false, seq!["crate"@])
        } else {
            (true, seq!["ranim"@])
        },
        Some(FoundCrate::Name(n)) => (true, seq![n@]),
        None => (true, seq!["ranim"@]),
    }
}

/// The path to `ranim` has one segment, and is relative (`crate`) exactly
/// inside `ranim` itself; a dependency is named by the name it has in the
/// manifest, and `ranim` when it was not found.
pub proof fn lemma_ranim_path(found: Option<FoundCrate>, current: Option<Seq<char>>)
    ensures
        ranim_path_spec(found, current).1.len() == 1,
        !ranim_path_spec(found, current).0 <==> (found == Some(FoundCrate::Itself) && current
            == Some("ranim"@)),
        !ranim_path_spec(found, current).0 ==> ranim_path_spec(found, current).1[0] == "crate"@,
        found matches Some(FoundCrate::Name(n)) ==> ranim_path_spec(found, current).1[0] == n@,
        found is None ==> ranim_path_spec(found, current) == (true, seq!["ranim"@]),
{
}

/// Where `ranim-core` is not in the manifest but `ranim` is, as a dependency
/// or as the crate being compiled, the path to `ranim-core` is the path to
/// `ranim` followed by `core`; where neither is, it is the path to `ranim`.
pub proof fn lemma_core_path_through_ranim(ranim_found: Option<FoundCrate>, current: Option<Seq<char>>)
    ensures
        (ranim_found matches Some(FoundCrate::Name(_)) || (ranim_found == Some(FoundCrate::Itself) && current == Some(
            "ranim"@,
        ))) ==> ranim_core_path_spec(None, ranim_found, current) == (
            ranim_path_spec(ranim_found, current).0,
            ranim_path_spec(ranim_found, current).1.push("core"@),
        ),
        ranim_found is None ==> ranim_core_path_spec(None, ranim_found, current)
            == ranim_path_spec(ranim_found, current),
{
    assert(seq!["crate"@].push("core"@) =~= seq!["crate"@, "core"@]);
    if let Some(FoundCrate::Name(n)) = ranim_found {
        assert(seq![n@].push("core"@) =~= seq![n@, "core"@]);
    }
}

/// The path to the `ranim` crate, from where `ranim` was found in the
/// manifest (`None` when it was not) and the name of the crate being
/// compiled (`None` when it is not known).
pub fn ranim_path(found: &Option<FoundCrate>, current: Option<&str>) -> (p: ItemPath)
    ensures
        is_path(
            p,
            ranim_path_spec(*found, opt_str_view(current)).0,
            ranim_path_spec(*found, opt_str_view(current)).1,
        ),
{
    let mut segments: Vec<String> = Vec::new();
    let absolute = match found {
        Some(FoundCrate::Itself) => {
            let is_ranim = match current {
                Some(c) => string_of(c) == string_of("ranim"),
                None => false,
            };
            if is_ranim {
                segments.push(string_of("crate"));
                false
            } else {
                segments.push(string_of("ranim"));
                true
            }
        },
        Some(FoundCrate::Name(n)) => {
            segments.push(n.clone());
            true
        },
        None => {
            segments.push(string_of("ranim"));
            true
        },
    };
    let p = ItemPath { absolute, segments };
    assert(views(p.segments@) =~= ranim_path_spec(*found, opt_str_view(current)).1);
    p
}

/// The view of an optional string slice.
pub open spec fn opt_str_view(s: Option<&str>) -> Option<Seq<char>> {
    match s {
        Some(s) => Some(s@),
        None => None,
    }
}

/// The path by which generated code names the `ranim-core` crate: when
/// `ranim-core` is in the manifest, `crate` inside it and `::name` as a
/// dependency; else, when `ranim` is, `crate::core` inside it and
/// `::name::core` as a dependency; otherwise the path to `ranim`.
pub open spec fn ranim_core_path_spec(
    core_found: Option<FoundCrate>,
    ranim_found: Option<FoundCrate>,
    current: Option<Seq<char>>,
) -> (bool, Seq<Seq<char>>) {
    match core_found {
        Some(FoundCrate::Itself) => if current == Some("ranim-core"@) || current == Some(
            "ranim_core"@,
        ) {
            (false, seq!["crate"@])
        } else {
            ranim_path_spec(ranim_found, current)
        },
        Some(FoundCrate::Name(n)) => (true, seq![n@]),
        None => match ranim_found {
            Some(FoundCrate::Itself) => if current == Some("ranim"@) {
                (false, seq!["crate"@, "core"@])
            } else {
                ranim_path_spec(ranim_found, current)
            },
            Some(FoundCrate::Name(n)) => (true, seq![n@, "core"@]),
            None => ranim_path_spec(ranim_found, current),
        },
    }
}

/// The path to the `ranim-core` crate, from where `ranim-core` and
/// `ranim` were found in the manifest and the name of the crate being
/// compiled.
pub fn ranim_core_path(
    core_found: &Option<FoundCrate>,
    ranim_found: &Option<FoundCrate>,
    current: Option<&str>,
) -> (p: ItemPath)
    ensures
        is_path(
            p,
            ranim_core_path_spec(*core_found, *ranim_found, opt_str_view(current)).0,
            ranim_core_path_spec(*core_found, *ranim_found, opt_str_view(current)).1,
        ),
{
    let (is_ranim, is_core) = match current {
        Some(c) => (
            string_of(c) == string_of("ranim"),
            string_of(c) == string_of("ranim-core") || string_of(c) == string_of("ranim_core"),
        ),
        None => (false, false),
    };
    match core_found {
        Some(FoundCrate::Itself) => {
            if is_core {
                let mut segments: Vec<String> = Vec::new();
                segments.push(string_of("crate"));
                let p = ItemPath { absolute: false, segments };
                assert(views(p.segments@) =~= seq!["crate"@]);
                return p;
            }
        },
        Some(FoundCrate::Name(n)) => {
            let mut segments: Vec<String> = Vec::new();
            segments.push(n.clone());
            let p = ItemPath { absolute: true, segments };
            assert(views(p.segments@) =~= seq![n@]);
            return p;
        },
        None => {
            match ranim_found {
                Some(FoundCrate::Itself) => {
                    if is_ranim {
                        let mut segments: Vec<String> = Vec::new();
                        segments.push(string_of("crate"));
                        segments.push(string_of("core"));
                        let p = ItemPath { absolute: false, segments };
                        assert(views(p.segments@) =~= seq!["crate"@, "core"@]);
                        return p;
                    }
                },
                Some(FoundCrate::Name(n)) => {
                    let mut segments: Vec<String> = Vec::new();
                    segments.push(n.clone());
                    segments.push(string_of("core"));
                    let p = ItemPath { absolute: true, segments };
                    assert(views(p.segments@) =~= seq![n@, "core"@]);
                    return p;
                },
                None => {},
            }
        },
    }
    ranim_path(ranim_found, current)
}

/// The fields of a struct that a derive reads: named, a number of unnamed
/// ones, or none (a unit struct).
#[derive(Debug, Clone, PartialEq, Eq)]
pub enum FieldsShape {
    Named(Vec<String>),
    Unnamed(usize),
    Unit,
}

/// How generated code reaches one field: by its name or by its index.
#[derive(Debug, Clone, PartialEq, Eq)]
pub enum FieldAccess {
    Name(String),
    Index(usize),
}

/// Whether `a` reaches each field of `fields` in order; a unit struct has
/// no fields to reach, so it gets `None`.
pub open spec fn field_positions_spec(fields: FieldsShape, r: Option<Vec<FieldAccess>>) -> bool {
    match fields {
        FieldsShape::Named(names) => r matches Some(v) && v@.len() == names@.len() && forall|i: int|
            0 <= i < v@.len() ==> (#[trigger] v@[i] matches FieldAccess::Name(n) && n@
                == names@[i]@),
        FieldsShape::Unnamed(k) => r matches Some(v) && v@.len() == k && forall|i: int|
            0 <= i < v@.len() ==> #[trigger] v@[i] == FieldAccess::Index(i as usize),
        FieldsShape::Unit => r is None,
    }
}

/// The accessors of the fields of a struct, in order; `None` for a unit
/// struct.
pub fn get_field_positions(fields: &FieldsShape) -> (r: Option<Vec<FieldAccess>>)
    ensures
        field_positions_spec(*fields, r),
{
    match fields {
        FieldsShape::Named(names) => {
            let mut v: Vec<FieldAccess> = Vec::new();
            let mut i: usize = 0;
            while i < names.len()
                invariant
                    i <= names@.len(),
                    v@.len() == i,
                    forall|j: int|
                        0 <= j < i ==> (#[trigger] v@[j] matches FieldAccess::Name(n) && n@
                            == names@[j]@),
                decreases names@.len() - i,
            {
                v.push(FieldAccess::Name(names[i].clone()));
                i += 1;
            }
            Some(v)
        },
        FieldsShape::Unnamed(k) => {
            let mut v: Vec<FieldAccess> = Vec::new();
            let mut i: usize = 0;
            while i < *k
                invariant
                    i <= *k,
                    v@.len() == i,
                    forall|j: int| 0 <= j < i ==> #[trigger] v@[j] == FieldAccess::Index(j as usize),
                decreases *k - i,
            {
                v.push(FieldAccess::Index(i));
                i += 1;
            }
            Some(v)
        },
        FieldsShape::Unit => None,
    }
}

} // verus!
