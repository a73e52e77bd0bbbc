use speki_cli::hierarchy::{ancestor_chain, descendant_classes, parent_of, subclass_cards};
use speki_cli::store::Store;
use speki_cli::transitions::set_parent_class;
use speki_cli::types::{BackSide, CardId, CardType};

fn class(s: &mut Store, name: &str) -> CardId {
    s.create_card(
        CardType::Class {
            name: name.to_string(),
            back: BackSide::Text(String::new()),
            parent_class: None,
            is_event: false,
        },
        String::new(),
    )
    .unwrap()
}

fn instance(s: &mut Store, name: &str, class: CardId) -> CardId {
    s.create_card(
        CardType::Instance {
            name: name.to_string(),
            class,
        },
        String::new(),
    )
    .unwrap()
}

#[test]
fn chain_of_single_class() {
    let mut s = Store::new();
    let a = class(&mut s, "A");
    assert_eq!(ancestor_chain(&s, a), vec![a]);
    assert!(parent_of(&s, a).is_none());
}

#[test]
fn chain_follows_parents() {
    let mut s = Store::new();
    let a = class(&mut s, "A");
    let b = class(&mut s, "B");
    let c = class(&mut s, "C");
    set_parent_class(&mut s, a, b).unwrap();
    set_parent_class(&mut s, b, c).unwrap();
    assert_eq!(ancestor_chain(&s, a), vec![a, b, c]);
    assert_eq!(ancestor_chain(&s, b), vec![b, c]);
    assert_eq!(parent_of(&s, a), Some(b));
}

#[test]
fn chain_of_non_class_is_itself() {
    let mut s = Store::new();
    let a = class(&mut s, "A");
    let i = instance(&mut s, "i", a);
    assert_eq!(ancestor_chain(&s, i), vec![i]);
}

#[test]
fn cyclic_chain_terminates() {
    let mut s = Store::new();
    let a = class(&mut s, "A");
    let b = class(&mut s, "B");
    set_parent_class(&mut s, a, b).unwrap();
    set_parent_class(&mut s, b, a).unwrap();
    assert_eq!(ancestor_chain(&s, a), vec![a, b]);
    assert_eq!(ancestor_chain(&s, b), vec![b, a]);
}

#[test]
fn subclass_cards_includes_chains_of_any_length() {
    let mut s = Store::new();
    let top = class(&mut s, "Top");
    let mid = class(&mut s, "Mid");
    let low = class(&mut s, "Low");
    set_parent_class(&mut s, mid, top).unwrap();
    set_parent_class(&mut s, low, mid).unwrap();
    let direct = instance(&mut s, "direct", top);
    let via_mid = instance(&mut s, "via mid", mid);
    let via_low = instance(&mut s, "via low", low);
    let members = subclass_cards(&s, top);
    assert!(members.contains(&direct));
    assert!(members.contains(&via_mid));
    assert!(members.contains(&via_low));
    assert_eq!(members.len(), 3);
    let mid_members = subclass_cards(&s, mid);
    assert!(!mid_members.contains(&direct));
    assert!(mid_members.contains(&via_mid));
    assert!(mid_members.contains(&via_low));
}

#[test]
fn subclass_cards_excludes_unrelated_instances() {
    let mut s = Store::new();
    let a = class(&mut s, "A");
    let b = class(&mut s, "B");
    let ia = instance(&mut s, "of a", a);
    let ib = instance(&mut s, "of b", b);
    let members = subclass_cards(&s, a);
    assert!(members.contains(&ia));
    assert!(!members.contains(&ib));
    assert!(!members.contains(&a));
    assert_eq!(members.len(), 1);
}

#[test]
fn subclass_cards_terminates_on_cycle() {
    let mut s = Store::new();
    let a = class(&mut s, "A");
    let b = class(&mut s, "B");
    set_parent_class(&mut s, a, b).unwrap();
    set_parent_class(&mut s, b, a).unwrap();
    let ia = instance(&mut s, "of a", a);
    let members = subclass_cards(&s, b);
    assert_eq!(members, vec![ia]);
}

#[test]
fn descendant_closure_includes_the_class_itself() {
    let mut s = Store::new();
    let top = class(&mut s, "Top");
    let mid = class(&mut s, "Mid");
    let low = class(&mut s, "Low");
    let other = class(&mut s, "Other");
    set_parent_class(&mut s, mid, top).unwrap();
    set_parent_class(&mut s, low, mid).unwrap();
    let i = instance(&mut s, "i", mid);
    let down = descendant_classes(&s, top);
    assert!(down.contains(&top));
    assert!(down.contains(&mid));
    assert!(down.contains(&low));
    assert!(!down.contains(&other));
    assert!(!down.contains(&i));
    assert_eq!(down.len(), 3);
}

#[test]
fn each_member_appears_exactly_once() {
    let mut s = Store::new();
    let top = class(&mut s, "Top");
    let mid = class(&mut s, "Mid");
    set_parent_class(&mut s, mid, top).unwrap();
    let i = instance(&mut s, "i", mid);
    let members = subclass_cards(&s, top);
    assert_eq!(members.iter().filter(|x| **x == i).count(), 1);
}
