use predator_prey::entity_type::{EntityType, str_equal};

#[test]
fn predator_name_is_predator() {
    assert_eq!(EntityType::Predator.to_string(), "predator");
}

#[test]
fn prey_name_is_prey() {
    assert_eq!(EntityType::Prey.to_string(), "prey");
}

#[test]
fn names_read_back_to_their_kind() {
    assert_eq!(EntityType::from_string("predator"), EntityType::Predator);
    assert_eq!(EntityType::from_string("prey"), EntityType::Prey);
}

#[test]
fn naming_round_trip() {
    for t in EntityType::vector() {
        assert_eq!(EntityType::from_string(&t.to_string()), t);
    }
    for name in EntityType::string_vector() {
        assert_eq!(EntityType::from_string(&name).to_string(), name);
    }
}

#[test]
fn string_vector_lists_predator_then_prey() {
    assert_eq!(EntityType::string_vector(), vec!["predator".to_string(), "prey".to_string()]);
}

#[test]
fn vector_lists_prey_then_predator() {
    assert_eq!(EntityType::vector(), vec![EntityType::Prey, EntityType::Predator]);
}

#[test]
fn kinds_have_distinct_names() {
    assert_ne!(EntityType::Predator.to_string(), EntityType::Prey.to_string());
}

#[test]
fn str_equal_compares_characters() {
    assert!(str_equal("prey", "prey"));
    assert!(!str_equal("prey", "pray"));
    assert!(!str_equal("prey", "preys"));
    assert!(str_equal("", ""));
}
