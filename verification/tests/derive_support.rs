use ranim::derive_support::{
    get_field_positions, ranim_core_path, ranim_path, FieldAccess, FieldsShape, FoundCrate, ItemPath,
};

fn path(absolute: bool, segments: &[&str]) -> ItemPath {
    ItemPath { absolute, segments: segments.iter().map(|s| s.to_string()).collect() }
}

#[test]
fn ranim_is_named_by_where_it_was_found() {
    assert_eq!(ranim_path(&Some(FoundCrate::Itself), Some("ranim")), path(false, &["crate"]));
    assert_eq!(ranim_path(&Some(FoundCrate::Itself), Some("example")), path(true, &["ranim"]));
    assert_eq!(
        ranim_path(&Some(FoundCrate::Name("my_ranim".to_string())), Some("app")),
        path(true, &["my_ranim"])
    );
    assert_eq!(ranim_path(&None, None), path(true, &["ranim"]));
}

#[test]
fn ranim_core_is_found_directly_or_through_ranim() {
    let core = Some(FoundCrate::Name("ranim_core".to_string()));
    let ranim = Some(FoundCrate::Name("ranim".to_string()));
    assert_eq!(ranim_core_path(&core, &ranim, Some("app")), path(true, &["ranim_core"]));
    assert_eq!(
        ranim_core_path(&Some(FoundCrate::Itself), &None, Some("ranim_core")),
        path(false, &["crate"])
    );
    assert_eq!(
        ranim_core_path(&Some(FoundCrate::Itself), &None, Some("ranim-core")),
        path(false, &["crate"])
    );
    assert_eq!(ranim_core_path(&None, &ranim, Some("app")), path(true, &["ranim", "core"]));
    assert_eq!(
        ranim_core_path(&None, &Some(FoundCrate::Itself), Some("ranim")),
        path(false, &["crate", "core"])
    );
    assert_eq!(ranim_core_path(&None, &None, None), path(true, &["ranim"]));
    assert_eq!(
        ranim_core_path(&Some(FoundCrate::Itself), &ranim, Some("other")),
        path(true, &["ranim"])
    );
}

#[test]
fn field_positions_of_each_struct_shape() {
    let named = FieldsShape::Named(vec!["a".to_string(), "b".to_string()]);
    assert_eq!(
        get_field_positions(&named),
        Some(vec![FieldAccess::Name("a".to_string()), FieldAccess::Name("b".to_string())])
    );
    assert_eq!(
        get_field_positions(&FieldsShape::Unnamed(3)),
        Some(vec![FieldAccess::Index(0), FieldAccess::Index(1), FieldAccess::Index(2)])
    );
    assert_eq!(get_field_positions(&FieldsShape::Unit), None);
}
