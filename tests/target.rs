use didc_core::target::Target;

#[test]
fn known_tags_name_targets() {
    assert_eq!(Target::from_tag(&"ts".to_string()), Some(Target::TypeScript));
    assert_eq!(Target::from_tag(&"mo".to_string()), Some(Target::Motoko));
    assert_eq!(Target::from_tag(&"installed_did".to_string()), Some(Target::InstalledDid));
}

#[test]
fn unknown_tags_name_no_target() {
    assert_eq!(Target::from_tag(&"js".to_string()), None);
    assert_eq!(Target::from_tag(&"".to_string()), None);
    assert_eq!(Target::from_tag(&"TS".to_string()), None);
}
