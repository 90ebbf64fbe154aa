use predator_prey::commands::{parse_nn_input, NnInput};
use predator_prey::entity_type::EntityType;

#[test]
fn vision_of_prey() {
    assert_eq!(parse_nn_input("vision prey"), Some(NnInput::Vision(EntityType::Prey)));
}

#[test]
fn vision_of_predators() {
    assert_eq!(parse_nn_input("vision predator"), Some(NnInput::Vision(EntityType::Predator)));
}

#[test]
fn constant_input() {
    assert_eq!(parse_nn_input("c 0.5"), Some(NnInput::Constant("0.5".to_string())));
}

#[test]
fn later_words_are_ignored() {
    assert_eq!(parse_nn_input("c 1 2"), Some(NnInput::Constant("1".to_string())));
    assert_eq!(parse_nn_input("vision prey now"), Some(NnInput::Vision(EntityType::Prey)));
}

#[test]
fn double_space_gives_empty_argument() {
    assert_eq!(parse_nn_input("c  1"), Some(NnInput::Constant("".to_string())));
}

#[test]
fn missing_argument_is_rejected() {
    assert_eq!(parse_nn_input("c"), None);
    assert_eq!(parse_nn_input("vision"), None);
    assert_eq!(parse_nn_input(""), None);
}

#[test]
fn unknown_kind_is_rejected() {
    assert_eq!(parse_nn_input("vision cat"), None);
}

#[test]
fn unknown_command_is_rejected() {
    assert_eq!(parse_nn_input("smell prey"), None);
}
