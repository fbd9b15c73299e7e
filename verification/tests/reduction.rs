use autocxx_core::types::{Namespace, TypeName};
use autocxx_core::api::{Api, ConvertError, Use};
use autocxx_core::reduce::{compute_retained, reduce};

fn root_name(id: &str) -> TypeName {
    TypeName::new(&Namespace::root(), id)
}

fn item(id: &str, deps: &[&str]) -> Api {
    Api {
        ns: Namespace::root(),
        id: id.to_string(),
        use_stmt: Use::Used,
        deps: deps.iter().map(|d| root_name(d)).collect(),
        extern_c_mod_item: None,
        bridge_item: None,
        global_items: Vec::new(),
        additional_cpp: None,
        id_for_allowlist: None,
        bindgen_mod_item: None,
    }
}

fn retained_ids(items: Vec<Api>, allowlist: &[&str]) -> Vec<String> {
    let allow: Vec<TypeName> = allowlist.iter().map(|a| root_name(a)).collect();
    match reduce(items, &allow) {
        Ok(kept) => {
            let mut ids: Vec<String> = kept.iter().map(|a| a.id.clone()).collect();
            ids.sort();
            ids
        }
        Err(e) => panic!("reduction unexpectedly failed: {:?}", e),
    }
}

#[test]
fn chain_is_retained_transitively_and_stragglers_dropped() {
    let items = vec![
        item("A", &["B"]),
        item("B", &["C"]),
        item("C", &[]),
        item("D", &["B", "C"]),
    ];
    assert_eq!(retained_ids(items, &["A"]), vec!["A", "B", "C"]);
}

#[test]
fn cycle_terminates_and_keeps_both_members() {
    let items = vec![item("A", &["B"]), item("B", &["A"])];
    assert_eq!(retained_ids(items, &["A"]), vec!["A", "B"]);
}

#[test]
fn unused_item_survives_as_dependency_of_used_item() {
    let mut support = item("Support", &[]);
    support.use_stmt = Use::Unused;
    let items = vec![item("Entry", &["Support"]), support];
    assert_eq!(retained_ids(items, &["Entry"]), vec!["Entry", "Support"]);
}

#[test]
fn placeholder_without_fragments_keeps_others_alive() {
    let items = vec![item("Entry", &["Mid"]), item("Mid", &["Leaf"]), item("Leaf", &[])];
    assert_eq!(retained_ids(items, &["Entry"]), vec!["Entry", "Leaf", "Mid"]);
}

#[test]
fn empty_candidate_set_escalates_no_content() {
    let allow = vec![root_name("A")];
    let r = reduce(Vec::new(), &allow);
    assert!(matches!(r, Err(ConvertError::NoContent)));
}

#[test]
fn allowlist_matching_nothing_escalates_no_content() {
    let items = vec![item("A", &[]), item("B", &[])];
    let allow = vec![root_name("Missing")];
    let r = reduce(items, &allow);
    assert!(matches!(r, Err(ConvertError::NoContent)));
}

#[test]
fn allowlist_entry_absent_from_candidates_contributes_nothing() {
    let items = vec![item("A", &[]), item("B", &[])];
    assert_eq!(retained_ids(items, &["A", "Missing"]), vec!["A"]);
}

#[test]
fn allowlist_matches_by_override_then_alias() {
    let mut overridden = item("Original", &[]);
    overridden.use_stmt = Use::UsedWithAlias("Alias".to_string());
    overridden.id_for_allowlist = Some("NativeName".to_string());
    let mut aliased = item("Hidden", &[]);
    aliased.use_stmt = Use::UsedWithAlias("Shown".to_string());
    let items = vec![overridden, aliased];
    assert_eq!(retained_ids(items, &["NativeName", "Shown"]), vec!["Hidden", "Original"]);

    let mut overridden2 = item("Original", &[]);
    overridden2.use_stmt = Use::UsedWithAlias("Alias".to_string());
    overridden2.id_for_allowlist = Some("NativeName".to_string());
    let r = reduce(vec![overridden2], &vec![root_name("Alias")]);
    assert!(matches!(r, Err(ConvertError::NoContent)));
}

#[test]
fn namespaces_keep_equal_bare_names_apart() {
    let inner = Namespace::from_segments(vec!["inner".to_string()]);
    let mut shadowed = item("Thing", &[]);
    shadowed.ns = inner;
    let items = vec![item("Thing", &[]), shadowed];
    let allow = vec![root_name("Thing")];
    let kept = reduce(items, &allow).unwrap();
    assert_eq!(kept.len(), 1);
    assert_eq!(kept[0].ns.segments.len(), 0);
}

#[test]
fn retained_set_ignores_candidate_ordering() {
    let build = |order: &[usize]| -> Vec<Api> {
        let all = [
            ("A", vec!["B"]),
            ("B", vec!["C"]),
            ("C", vec![]),
            ("D", vec!["A"]),
            ("E", vec!["E"]),
        ];
        order
            .iter()
            .map(|&i| {
                let (id, deps) = &all[i];
                let deps: Vec<&str> = deps.to_vec();
                item(id, &deps)
            })
            .collect()
    };
    let first = retained_ids(build(&[0, 1, 2, 3, 4]), &["A", "E"]);
    let second = retained_ids(build(&[4, 3, 2, 1, 0]), &["A", "E"]);
    let third = retained_ids(build(&[2, 0, 4, 1, 3]), &["A", "E"]);
    assert_eq!(first, vec!["A", "B", "C", "E"]);
    assert_eq!(first, second);
    assert_eq!(first, third);
}

#[test]
fn mark_phase_reports_flags_in_candidate_order() {
    let items = vec![item("A", &["B"]), item("B", &[]), item("D", &[])];
    let allow = vec![root_name("A")];
    let flags = compute_retained(&items, &allow);
    assert_eq!(flags, vec![true, true, false]);
}
