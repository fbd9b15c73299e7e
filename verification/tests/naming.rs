use autocxx_core::types::{Namespace, TypeName};
use autocxx_core::api::{AdditionalNeed, Api, ConvertError, Use};

fn ns(segments: &[&str]) -> Namespace {
    Namespace::from_segments(segments.iter().map(|s| s.to_string()).collect())
}

fn plain_api(namespace: Namespace, id: &str) -> Api {
    Api {
        ns: namespace,
        id: id.to_string(),
        use_stmt: Use::Used,
        deps: Vec::new(),
        extern_c_mod_item: None,
        bridge_item: None,
        global_items: Vec::new(),
        additional_cpp: None,
        id_for_allowlist: None,
        bindgen_mod_item: None,
    }
}

#[test]
fn namespace_equality_is_exact_segment_equality() {
    assert!(ns(&["a", "b"]).matches_namespace(&ns(&["a", "b"])));
    assert!(!ns(&["a", "b"]).matches_namespace(&ns(&["a"])));
    assert!(!ns(&["a", "b"]).matches_namespace(&ns(&["a", "c"])));
    assert!(!ns(&["a", "b"]).matches_namespace(&ns(&["b", "a"])));
    assert!(Namespace::root().matches_namespace(&Namespace::root()));
    assert!(!Namespace::root().matches_namespace(&ns(&["a"])));
}

#[test]
fn typename_equality_needs_both_namespace_and_name() {
    let t1 = TypeName::new(&ns(&["outer"]), "Thing");
    let t2 = TypeName::new(&ns(&["outer"]), "Thing");
    let t3 = TypeName::new(&ns(&["outer"]), "Other");
    let t4 = TypeName::new(&ns(&["elsewhere"]), "Thing");
    assert!(t1.matches_typename(&t2));
    assert!(!t1.matches_typename(&t3));
    assert!(!t1.matches_typename(&t4));
    assert!(t1.clone_typename().matches_typename(&t1));
}

#[test]
fn typename_comes_from_own_identifier() {
    let mut api = plain_api(ns(&["outer"]), "Thing");
    api.use_stmt = Use::UsedWithAlias("Renamed".to_string());
    api.id_for_allowlist = Some("Overridden".to_string());
    let t = api.typename();
    assert_eq!(t.id, "Thing");
    assert!(t.ns.matches_namespace(&ns(&["outer"])));
}

#[test]
fn allowlist_name_prefers_explicit_override() {
    let mut api = plain_api(ns(&["outer"]), "Thing");
    api.use_stmt = Use::UsedWithAlias("Renamed".to_string());
    api.id_for_allowlist = Some("Overridden".to_string());
    let t = api.typename_for_allowlist();
    assert_eq!(t.id, "Overridden");
}

#[test]
fn allowlist_name_falls_back_to_alias() {
    let mut api = plain_api(ns(&["outer"]), "Thing");
    api.use_stmt = Use::UsedWithAlias("Renamed".to_string());
    let t = api.typename_for_allowlist();
    assert_eq!(t.id, "Renamed");
}

#[test]
fn allowlist_name_defaults_to_own_identifier() {
    let unused = plain_api(ns(&["outer"]), "Thing");
    let mut not_aliased = plain_api(ns(&["outer"]), "Thing");
    not_aliased.use_stmt = Use::Unused;
    assert_eq!(unused.typename_for_allowlist().id, "Thing");
    assert_eq!(not_aliased.typename_for_allowlist().id, "Thing");
}

#[test]
fn fragments_ride_along_without_affecting_names() {
    let mut api = plain_api(ns(&[]), "Gadget");
    api.bridge_item = Some(syn::parse_str::<syn::Item>("pub struct Gadget;").unwrap());
    api.extern_c_mod_item =
        Some(syn::parse_str::<syn::ForeignItem>("fn gadget_new() -> u32;").unwrap());
    api.global_items = vec![syn::parse_str::<syn::Item>("type X = u32;").unwrap()];
    api.additional_cpp = Some(AdditionalNeed { description: "helper".to_string() });
    assert_eq!(api.typename().id, "Gadget");
    assert_eq!(api.typename_for_allowlist().id, "Gadget");
}

#[test]
fn convert_error_messages_are_exact() {
    assert_eq!(
        ConvertError::NoContent.describe(),
        "The initial run of 'bindgen' did not generate any content. This might be because none of the requested items for generation could be converted."
    );
    assert_eq!(
        ConvertError::UnsafePODType("details".to_string()).describe(),
        "An item was requested using 'generate_pod' which was not safe to hold by value in Rust. details"
    );
    assert_eq!(
        ConvertError::UnexpectedForeignItem.describe(),
        "Bindgen generated some unexpected code in a foreign mod section. You may have specified something in a 'generate' directive which is not currently compatible with autocxx."
    );
    assert_eq!(
        ConvertError::UnexpectedOuterItem.describe(),
        "Bindgen generated some unexpected code in its outermost mod section. You may have specified something in a 'generate' directive which is not currently compatible with autocxx."
    );
    assert_eq!(
        ConvertError::UnexpectedItemInMod.describe(),
        "Bindgen generated some unexpected code in an inner namespace mod. You may have specified something in a 'generate' directive which is not currently compatible with autocxx."
    );
    assert_eq!(
        ConvertError::ComplexTypedefTarget("std::complex".to_string()).describe(),
        "autocxx was unable to produce a typdef pointing to the complex type std::complex."
    );
    assert_eq!(
        ConvertError::UnexpectedThisType.describe(),
        "Unexpected type for 'this'"
    );
}
