use speki_cli::store::Store;
use speki_cli::types::{new_card_type, str_is_blank, BackSide, CardId, CardType, CoreError};

fn class(s: &mut Store, name: &str) -> CardId {
    s.create_card(
        CardType::Class {
            name: name.to_string(),
            back: BackSide::Text(String::new()),
            parent_class: None,
            is_event: false,
        },
        String::new(),
    )
    .unwrap()
}

fn normal(s: &mut Store, front: &str, back: &str) -> CardId {
    s.create_card(
        CardType::Normal {
            front: front.to_string(),
            back: BackSide::Text(back.to_string()),
        },
        String::new(),
    )
    .unwrap()
}

#[test]
fn blank_front_cancels_new_card() {
    assert!(new_card_type("".to_string(), "answer".to_string()).is_none());
    assert!(new_card_type("  \n".to_string(), "answer".to_string()).is_none());
    assert!(str_is_blank(" \t "));
    assert!(!str_is_blank(" x "));
}

#[test]
fn blank_back_makes_an_unfinished_card() {
    match new_card_type("question".to_string(), "  ".to_string()) {
        Some(CardType::Unfinished { front }) => assert_eq!(front, "question"),
        _ => panic!("expected an unfinished card"),
    }
    match new_card_type("question".to_string(), "answer".to_string()) {
        Some(CardType::Normal { front, back }) => {
            assert_eq!(front, "question");
            assert!(matches!(back, BackSide::Text(t) if t == "answer"));
        }
        _ => panic!("expected a normal card"),
    }
}

#[test]
fn create_and_load_round_trip() {
    let mut s = Store::new();
    let id = normal(&mut s, "front text", "back text");
    assert_eq!(id, CardId(0));
    assert!(s.has_card(id));
    assert_eq!(s.card_count(), 1);
    let card = s.load(id).unwrap();
    assert_eq!(card.id, id);
    match &card.ty {
        CardType::Normal { front, back } => {
            assert_eq!(front, "front text");
            assert!(matches!(back, BackSide::Text(t) if t == "back text"));
        }
        _ => panic!("expected a normal card"),
    }
}

#[test]
fn load_stale_id_fails() {
    let s = Store::new();
    assert!(s.load(CardId(7)).is_none());
    assert!(!s.has_card(CardId(7)));
}

#[test]
fn create_card_rejects_dangling_references() {
    let mut s = Store::new();
    let r = s.create_card(
        CardType::Instance {
            name: "orphan".to_string(),
            class: CardId(99),
        },
        String::new(),
    );
    assert_eq!(r.unwrap_err(), CoreError::ReferenceNotFound);
    assert_eq!(s.card_count(), 0);
}

#[test]
fn mutate_type_preserves_id_and_category() {
    let mut s = Store::new();
    let id = s
        .create_card(
            CardType::Unfinished {
                front: "question".to_string(),
            },
            "folder".to_string(),
        )
        .unwrap();
    s.mutate_type(
        id,
        CardType::Statement {
            front: "a fact".to_string(),
        },
    )
    .unwrap();
    let card = s.load(id).unwrap();
    assert_eq!(card.id, id);
    assert_eq!(card.category, "folder");
    assert!(matches!(&card.ty, CardType::Statement { front } if front == "a fact"));
}

#[test]
fn mutate_type_rejects_self_parent() {
    let mut s = Store::new();
    let a = class(&mut s, "A");
    let r = s.mutate_type(
        a,
        CardType::Class {
            name: "A".to_string(),
            back: BackSide::Text(String::new()),
            parent_class: Some(a),
            is_event: false,
        },
    );
    assert_eq!(r.unwrap_err(), CoreError::InvalidTransition);
    // the card is untouched
    match &s.load(a).unwrap().ty {
        CardType::Class { parent_class, .. } => assert!(parent_class.is_none()),
        _ => panic!("expected a class card"),
    }
}

#[test]
fn add_dependency_updates_both_views() {
    let mut s = Store::new();
    let a = normal(&mut s, "a", "1");
    let b = normal(&mut s, "b", "2");
    s.add_dependency(a, b).unwrap();
    assert_eq!(s.dependencies_of(b), vec![a]);
    assert_eq!(s.cached_dependents_of(a), vec![b]);
    assert_eq!(s.dependencies_of(a), Vec::<CardId>::new());
    assert_eq!(s.cached_dependents_of(b), Vec::<CardId>::new());
}

#[test]
fn add_dependency_twice_is_idempotent() {
    let mut s = Store::new();
    let a = normal(&mut s, "a", "1");
    let b = normal(&mut s, "b", "2");
    s.add_dependency(a, b).unwrap();
    let deps_once = s.dependencies_of(b);
    let dependents_once = s.cached_dependents_of(a);
    s.add_dependency(a, b).unwrap();
    assert_eq!(s.dependencies_of(b), deps_once);
    assert_eq!(s.cached_dependents_of(a), dependents_once);
    assert_eq!(s.dependencies_of(b).len(), 1);
    assert_eq!(s.cached_dependents_of(a).len(), 1);
}

#[test]
fn add_dependency_tolerates_cycles() {
    let mut s = Store::new();
    let a = normal(&mut s, "a", "1");
    let b = normal(&mut s, "b", "2");
    s.add_dependency(a, b).unwrap();
    s.add_dependency(b, a).unwrap();
    s.add_dependency(a, a).unwrap();
    assert_eq!(s.dependencies_of(b), vec![a]);
    assert_eq!(s.dependencies_of(a), vec![b, a]);
    assert!(s.cached_dependents_of(a).contains(&b));
    assert!(s.cached_dependents_of(a).contains(&a));
}

#[test]
fn add_dependency_stale_id_fails() {
    let mut s = Store::new();
    let a = normal(&mut s, "a", "1");
    let r = s.add_dependency(a, CardId(9));
    assert_eq!(r.unwrap_err(), CoreError::ReferenceNotFound);
    let r = s.add_dependency(CardId(9), a);
    assert_eq!(r.unwrap_err(), CoreError::ReferenceNotFound);
    assert!(s.dependencies_of(a).is_empty());
}

#[test]
fn all_cards_and_classes() {
    let mut s = Store::new();
    let a = class(&mut s, "A");
    let n = normal(&mut s, "n", "1");
    let b = class(&mut s, "B");
    assert_eq!(s.all_cards(), vec![a, n, b]);
    let classes = s.all_classes();
    assert!(classes.contains(&a));
    assert!(classes.contains(&b));
    assert!(!classes.contains(&n));
    assert_eq!(classes.len(), 2);
}

#[test]
fn create_attribute_requires_class_card() {
    let mut s = Store::new();
    let a = class(&mut s, "A");
    let n = normal(&mut s, "n", "1");
    let aid = s
        .create_attribute("pattern {}".to_string(), a, None)
        .unwrap();
    let attr = s.load_attribute(aid).unwrap();
    assert_eq!(attr.pattern, "pattern {}");
    assert_eq!(attr.class, a);
    assert!(attr.back_type.is_none());
    let r = s.create_attribute("p".to_string(), n, None);
    assert_eq!(r.unwrap_err(), CoreError::InvalidTransition);
    let r = s.create_attribute("p".to_string(), CardId(44), None);
    assert_eq!(r.unwrap_err(), CoreError::ReferenceNotFound);
    assert_eq!(s.attr_count(), 1);
}
