use speki_cli::hierarchy::ancestor_chain;
use speki_cli::store::Store;
use speki_cli::transitions::{
    card_back, card_front, instance_dependencies, into_attribute_existing, into_attribute_fresh,
    into_class, into_event, into_instance, into_statement, new_attribute_pattern,
    set_parent_class,
};
use speki_cli::types::{BackSide, CardId, CardType, CoreError};

fn class(s: &mut Store, name: &str) -> CardId {
    s.create_card(
        CardType::Class {
            name: name.to_string(),
            back: BackSide::Text(String::new()),
            parent_class: None,
            is_event: false,
        },
        String::new(),
    )
    .unwrap()
}

fn instance(s: &mut Store, name: &str, class: CardId) -> CardId {
    s.create_card(
        CardType::Instance {
            name: name.to_string(),
            class,
        },
        String::new(),
    )
    .unwrap()
}

fn normal(s: &mut Store, front: &str, back: &str) -> CardId {
    s.create_card(
        CardType::Normal {
            front: front.to_string(),
            back: BackSide::Text(back.to_string()),
        },
        String::new(),
    )
    .unwrap()
}

#[test]
fn into_statement_takes_the_front() {
    let mut s = Store::new();
    let id = normal(&mut s, "the front", "the back");
    into_statement(&mut s, id).unwrap();
    assert!(matches!(&s.load(id).unwrap().ty, CardType::Statement { front } if front == "the front"));
    assert_eq!(
        into_statement(&mut s, CardId(9)).unwrap_err(),
        CoreError::ReferenceNotFound
    );
}

#[test]
fn into_event_takes_the_front() {
    let mut s = Store::new();
    let id = normal(&mut s, "it happened", "details");
    into_event(&mut s, id).unwrap();
    assert!(matches!(&s.load(id).unwrap().ty, CardType::Event { front } if front == "it happened"));
}

#[test]
fn into_class_keeps_front_and_back() {
    let mut s = Store::new();
    let id = normal(&mut s, "Animals", "living things");
    into_class(&mut s, id).unwrap();
    match &s.load(id).unwrap().ty {
        CardType::Class {
            name,
            back,
            parent_class,
            is_event,
        } => {
            assert_eq!(name, "Animals");
            assert!(matches!(back, BackSide::Text(t) if t == "living things"));
            assert!(parent_class.is_none());
            assert!(!*is_event);
        }
        _ => panic!("expected a class card"),
    }
}

#[test]
fn into_class_without_back_uses_empty_text() {
    let mut s = Store::new();
    let id = s
        .create_card(
            CardType::Unfinished {
                front: "half done".to_string(),
            },
            String::new(),
        )
        .unwrap();
    into_class(&mut s, id).unwrap();
    match &s.load(id).unwrap().ty {
        CardType::Class { back, .. } => {
            assert!(matches!(back, BackSide::Text(t) if t.is_empty()))
        }
        _ => panic!("expected a class card"),
    }
}

#[test]
fn into_instance_from_legal_sources() {
    let mut s = Store::new();
    let c = class(&mut s, "Country");
    let id = normal(&mut s, "France", "a country");
    into_instance(&mut s, id, c).unwrap();
    match &s.load(id).unwrap().ty {
        CardType::Instance { name, class } => {
            assert_eq!(name, "France");
            assert_eq!(*class, c);
        }
        _ => panic!("expected an instance card"),
    }
}

#[test]
fn into_instance_rejects_illegal_source_and_target() {
    let mut s = Store::new();
    let c = class(&mut s, "C");
    let i = instance(&mut s, "i", c);
    let n = normal(&mut s, "n", "b");
    // an instance is not a legal source
    assert_eq!(
        into_instance(&mut s, i, c).unwrap_err(),
        CoreError::InvalidTransition
    );
    // the target must be a class card
    assert_eq!(
        into_instance(&mut s, n, i).unwrap_err(),
        CoreError::InvalidTransition
    );
    // stale ids are fatal
    assert_eq!(
        into_instance(&mut s, CardId(50), c).unwrap_err(),
        CoreError::ReferenceNotFound
    );
    assert_eq!(
        into_instance(&mut s, n, CardId(50)).unwrap_err(),
        CoreError::ReferenceNotFound
    );
}

#[test]
fn set_parent_class_to_self_is_a_no_op() {
    let mut s = Store::new();
    let a = class(&mut s, "A");
    assert_eq!(ancestor_chain(&s, a), vec![a]);
    set_parent_class(&mut s, a, a).unwrap();
    assert_eq!(ancestor_chain(&s, a), vec![a]);
    match &s.load(a).unwrap().ty {
        CardType::Class { parent_class, .. } => assert!(parent_class.is_none()),
        _ => panic!("expected a class card"),
    }
}

#[test]
fn set_parent_class_rejections() {
    let mut s = Store::new();
    let a = class(&mut s, "A");
    let n = normal(&mut s, "n", "b");
    assert_eq!(
        set_parent_class(&mut s, n, a).unwrap_err(),
        CoreError::InvalidTransition
    );
    assert_eq!(
        set_parent_class(&mut s, a, n).unwrap_err(),
        CoreError::InvalidTransition
    );
    assert_eq!(
        set_parent_class(&mut s, CardId(9), a).unwrap_err(),
        CoreError::ReferenceNotFound
    );
    assert_eq!(
        set_parent_class(&mut s, a, CardId(9)).unwrap_err(),
        CoreError::ReferenceNotFound
    );
}

#[test]
fn fresh_attribute_with_free_text_answer() {
    let mut s = Store::new();
    let c = class(&mut s, "Country");
    let i = instance(&mut s, "France", c);
    let aid = s.create_attribute("area of {}".to_string(), c, None).unwrap();
    let card = normal(&mut s, "area?", "643801 km2");
    into_attribute_fresh(
        &mut s,
        card,
        i,
        aid,
        BackSide::Text("643801 km2".to_string()),
    )
    .unwrap();
    match &s.load(card).unwrap().ty {
        CardType::Attribute {
            attribute,
            back,
            instance,
        } => {
            assert_eq!(*attribute, aid);
            assert_eq!(*instance, i);
            assert!(matches!(back, BackSide::Text(t) if t == "643801 km2"));
        }
        _ => panic!("expected an attribute card"),
    }
    // the display text asks the pattern's question about the instance
    assert_eq!(card_front(&s, card).unwrap(), "area of France");
}

#[test]
fn constrained_pattern_rejects_free_text() {
    let mut s = Store::new();
    let city = class(&mut s, "City");
    let country = class(&mut s, "Country");
    let france = instance(&mut s, "France", country);
    let aid = s
        .create_attribute("capital of {}".to_string(), country, Some(city))
        .unwrap();
    let card = normal(&mut s, "capital?", "Paris");
    let r = into_attribute_fresh(
        &mut s,
        card,
        france,
        aid,
        BackSide::Text("Paris".to_string()),
    );
    assert_eq!(r.unwrap_err(), CoreError::InvalidTransition);
    // the card is unchanged
    assert!(matches!(&s.load(card).unwrap().ty, CardType::Normal { .. }));
}

#[test]
fn constrained_pattern_accepts_a_subclass_instance() {
    let mut s = Store::new();
    let city = class(&mut s, "City");
    let country = class(&mut s, "Country");
    let france = instance(&mut s, "France", country);
    let paris = instance(&mut s, "Paris", city);
    let aid = s
        .create_attribute("capital of {}".to_string(), country, Some(city))
        .unwrap();
    let card = normal(&mut s, "capital?", "unused");
    into_attribute_fresh(&mut s, card, france, aid, BackSide::Card(paris)).unwrap();
    match &s.load(card).unwrap().ty {
        CardType::Attribute { back, .. } => {
            assert!(matches!(back, BackSide::Card(c) if *c == paris))
        }
        _ => panic!("expected an attribute card"),
    }
    // but a card outside the required class is refused
    let other = normal(&mut s, "other", "x");
    let card2 = normal(&mut s, "capital?", "y");
    let r = into_attribute_fresh(&mut s, card2, france, aid, BackSide::Card(other));
    assert_eq!(r.unwrap_err(), CoreError::InvalidTransition);
}

#[test]
fn existing_with_zero_instance_dependencies_is_rejected() {
    let mut s = Store::new();
    let card = normal(&mut s, "q", "a");
    let r = into_attribute_existing(&mut s, card, None, None);
    assert_eq!(r.unwrap_err(), CoreError::InvalidTransition);
}

#[test]
fn existing_with_one_instance_dependency_auto_selects() {
    let mut s = Store::new();
    let c = class(&mut s, "C");
    let i = instance(&mut s, "only", c);
    let aid = s.create_attribute("p {}".to_string(), c, None).unwrap();
    let card = normal(&mut s, "q", "a");
    s.add_dependency(i, card).unwrap();
    assert_eq!(instance_dependencies(&s, card), vec![i]);
    // no explicit instance choice is needed
    into_attribute_existing(&mut s, card, None, Some(aid)).unwrap();
    match &s.load(card).unwrap().ty {
        CardType::Attribute {
            attribute,
            back,
            instance,
        } => {
            assert_eq!(*attribute, aid);
            assert_eq!(*instance, i);
            // the card's own answer is kept
            assert!(matches!(back, BackSide::Text(t) if t == "a"));
        }
        _ => panic!("expected an attribute card"),
    }
}

#[test]
fn existing_with_two_instance_dependencies_needs_a_choice() {
    let mut s = Store::new();
    let c = class(&mut s, "C");
    let i1 = instance(&mut s, "first", c);
    let i2 = instance(&mut s, "second", c);
    let aid = s.create_attribute("p {}".to_string(), c, None).unwrap();
    let card = normal(&mut s, "q", "a");
    s.add_dependency(i1, card).unwrap();
    s.add_dependency(i2, card).unwrap();
    // without a choice: a cancellation, no state change
    let r = into_attribute_existing(&mut s, card, None, Some(aid));
    assert_eq!(r.unwrap_err(), CoreError::UserCancelled);
    assert!(matches!(&s.load(card).unwrap().ty, CardType::Normal { .. }));
    // an explicit choice goes through
    into_attribute_existing(&mut s, card, Some(i2), Some(aid)).unwrap();
    match &s.load(card).unwrap().ty {
        CardType::Attribute { instance, .. } => assert_eq!(*instance, i2),
        _ => panic!("expected an attribute card"),
    }
}

#[test]
fn existing_without_patterns_or_pattern_choice() {
    let mut s = Store::new();
    let c = class(&mut s, "C");
    let i = instance(&mut s, "only", c);
    let card = normal(&mut s, "q", "a");
    s.add_dependency(i, card).unwrap();
    // no pattern exists for the class
    let r = into_attribute_existing(&mut s, card, None, None);
    assert_eq!(r.unwrap_err(), CoreError::InvalidTransition);
    // a pattern exists but none was chosen
    let _aid = s.create_attribute("p {}".to_string(), c, None).unwrap();
    let r = into_attribute_existing(&mut s, card, None, None);
    assert_eq!(r.unwrap_err(), CoreError::UserCancelled);
}

#[test]
fn existing_card_answer_must_respect_the_constraint() {
    let mut s = Store::new();
    let city = class(&mut s, "City");
    let country = class(&mut s, "Country");
    let france = instance(&mut s, "France", country);
    let aid = s
        .create_attribute("capital of {}".to_string(), country, Some(city))
        .unwrap();
    // the card's answer is free text, but the pattern demands a City card
    let card = normal(&mut s, "capital?", "Paris");
    s.add_dependency(france, card).unwrap();
    let r = into_attribute_existing(&mut s, card, None, Some(aid));
    assert_eq!(r.unwrap_err(), CoreError::InvalidTransition);
    // with a City card as answer the same retyping goes through
    let paris = instance(&mut s, "Paris", city);
    let card2 = s
        .create_card(
            CardType::Normal {
                front: "capital?".to_string(),
                back: BackSide::Card(paris),
            },
            String::new(),
        )
        .unwrap();
    s.add_dependency(france, card2).unwrap();
    into_attribute_existing(&mut s, card2, None, Some(aid)).unwrap();
    match &s.load(card2).unwrap().ty {
        CardType::Attribute { back, .. } => {
            assert!(matches!(back, BackSide::Card(c) if *c == paris))
        }
        _ => panic!("expected an attribute card"),
    }
}

#[test]
fn new_attribute_pattern_on_an_instance() {
    let mut s = Store::new();
    let c = class(&mut s, "Country");
    let i = instance(&mut s, "France", c);
    let aid = new_attribute_pattern(&mut s, i, "anthem of {}".to_string(), None).unwrap();
    let attr = s.load_attribute(aid).unwrap();
    assert_eq!(attr.pattern, "anthem of {}");
    assert_eq!(attr.class, c);
    // the card itself keeps its type
    assert!(matches!(&s.load(i).unwrap().ty, CardType::Instance { .. }));
    // a non-instance card cannot declare patterns
    let n = normal(&mut s, "n", "b");
    assert_eq!(
        new_attribute_pattern(&mut s, n, "p".to_string(), None).unwrap_err(),
        CoreError::InvalidTransition
    );
    assert_eq!(
        new_attribute_pattern(&mut s, CardId(77), "p".to_string(), None).unwrap_err(),
        CoreError::ReferenceNotFound
    );
}

#[test]
fn card_front_and_back_queries() {
    let mut s = Store::new();
    let id = normal(&mut s, "front", "back");
    assert_eq!(card_front(&s, id).unwrap(), "front");
    assert!(matches!(card_back(&s, id), Some(BackSide::Text(t)) if t == "back"));
    let u = s
        .create_card(
            CardType::Unfinished {
                front: "open".to_string(),
            },
            String::new(),
        )
        .unwrap();
    assert!(card_back(&s, u).is_none());
    assert!(card_front(&s, CardId(40)).is_none());
}
