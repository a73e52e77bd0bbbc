use speki_cli::attributes::{
    attributes_for, attributes_for_class_only, fill_pattern, resolve_back_candidates,
};
use speki_cli::store::Store;
use speki_cli::transitions::set_parent_class;
use speki_cli::types::{AttributeId, BackSide, CardId, CardType, CoreError};

fn class(s: &mut Store, name: &str) -> CardId {
    s.create_card(
        CardType::Class {
            name: name.to_string(),
            back: BackSide::Text(String::new()),
            parent_class: None,
            is_event: false,
        },
        String::new(),
    )
    .unwrap()
}

fn instance(s: &mut Store, name: &str, class: CardId) -> CardId {
    s.create_card(
        CardType::Instance {
            name: name.to_string(),
            class,
        },
        String::new(),
    )
    .unwrap()
}

#[test]
fn attributes_for_unions_ancestors_deduplicated() {
    let mut s = Store::new();
    let parent = class(&mut s, "Parent");
    let child = class(&mut s, "Child");
    set_parent_class(&mut s, child, parent).unwrap();
    let on_parent = s.create_attribute("from parent {}".to_string(), parent, None).unwrap();
    let on_child = s.create_attribute("from child {}".to_string(), child, None).unwrap();
    let i = instance(&mut s, "i", child);
    let both = attributes_for(&s, child, i);
    assert!(both.contains(&on_parent));
    assert!(both.contains(&on_child));
    assert_eq!(both.len(), 2);
    let parent_only = attributes_for(&s, parent, i);
    assert!(parent_only.contains(&on_parent));
    assert!(!parent_only.contains(&on_child));
}

#[test]
fn attributes_for_class_only_ignores_inheritance() {
    let mut s = Store::new();
    let parent = class(&mut s, "Parent");
    let child = class(&mut s, "Child");
    set_parent_class(&mut s, child, parent).unwrap();
    let on_parent = s.create_attribute("p {}".to_string(), parent, None).unwrap();
    let on_child = s.create_attribute("c {}".to_string(), child, None).unwrap();
    let own = attributes_for_class_only(&s, child);
    assert_eq!(own, vec![on_child]);
    assert_eq!(attributes_for_class_only(&s, parent), vec![on_parent]);
}

#[test]
fn zero_patterns_is_an_empty_result() {
    let mut s = Store::new();
    let lonely = class(&mut s, "Lonely");
    let i = instance(&mut s, "i", lonely);
    assert!(attributes_for(&s, lonely, i).is_empty());
    assert!(attributes_for_class_only(&s, lonely).is_empty());
}

#[test]
fn unconstrained_pattern_restricts_nothing() {
    let mut s = Store::new();
    let c = class(&mut s, "C");
    let aid = s.create_attribute("free {}".to_string(), c, None).unwrap();
    assert_eq!(resolve_back_candidates(&s, aid).unwrap(), None);
}

#[test]
fn constrained_pattern_narrows_to_subclass_instances() {
    let mut s = Store::new();
    let city = class(&mut s, "City");
    let port = class(&mut s, "Port");
    set_parent_class(&mut s, port, city).unwrap();
    let other = class(&mut s, "Other");
    let paris = instance(&mut s, "Paris", city);
    let dover = instance(&mut s, "Dover", port);
    let stray = instance(&mut s, "stray", other);
    let capital = class(&mut s, "Capital");
    let aid = s
        .create_attribute("capital of {}".to_string(), capital, Some(city))
        .unwrap();
    let cands = resolve_back_candidates(&s, aid).unwrap().unwrap();
    assert!(cands.contains(&paris));
    assert!(cands.contains(&dover));
    assert!(!cands.contains(&stray));
    assert!(!cands.contains(&city));
    assert_eq!(cands.len(), 2);
}

#[test]
fn resolve_back_candidates_stale_attribute_fails() {
    let s = Store::new();
    let r = resolve_back_candidates(&s, AttributeId(3));
    assert_eq!(r.unwrap_err(), CoreError::ReferenceNotFound);
}

#[test]
fn fill_pattern_replaces_each_placeholder() {
    assert_eq!(fill_pattern("capital of {}", "France"), "capital of France");
    assert_eq!(fill_pattern("{} and {}", "x"), "x and x");
    assert_eq!(fill_pattern("no placeholder", "x"), "no placeholder");
    assert_eq!(fill_pattern("", "x"), "");
    assert_eq!(fill_pattern("{}", "alone"), "alone");
}

#[test]
fn pattern_inherited_once_parent_is_set() {
    // class "Capital" declares "capital of {}" constrained to "City";
    // instance "France" of class "Country" cannot use it until "Capital"
    // becomes the parent class of "Country".
    let mut s = Store::new();
    let city = class(&mut s, "City");
    let capital = class(&mut s, "Capital");
    let country = class(&mut s, "Country");
    let pattern = s
        .create_attribute("capital of {}".to_string(), capital, Some(city))
        .unwrap();
    let france = instance(&mut s, "France", country);
    let before = attributes_for(&s, country, france);
    assert!(!before.contains(&pattern));
    set_parent_class(&mut s, country, capital).unwrap();
    let after = attributes_for(&s, country, france);
    assert!(after.contains(&pattern));
    assert_eq!(after.iter().filter(|a| **a == pattern).count(), 1);
}
