use predator_prey::entity_type::EntityType;
use predator_prey::roster::Roster;

fn sorted(mut v: Vec<u64>) -> Vec<u64> {
    v.sort();
    v
}

#[test]
fn new_numbers_entities_in_order() {
    let r = Roster::new(&vec![(EntityType::Prey, 3), (EntityType::Predator, 2)]);
    assert_eq!(sorted(r.get_entity_ids_of_type(EntityType::Prey)), vec![0, 1, 2]);
    assert_eq!(sorted(r.get_entity_ids_of_type(EntityType::Predator)), vec![3, 4]);
    assert_eq!(r.next_unused_entity_id(), 5);
    assert!(r.ids_below_counter());
}

#[test]
fn new_with_no_entities_is_empty() {
    let r = Roster::new(&vec![]);
    assert!(r.get_entity_ids_of_type(EntityType::Prey).is_empty());
    assert!(r.get_entity_ids_of_type(EntityType::Predator).is_empty());
    assert_eq!(r.next_unused_entity_id(), 0);
}

#[test]
fn counts_per_kind() {
    let r = Roster::new(&vec![(EntityType::Predator, 4), (EntityType::Prey, 7)]);
    let c = r.entity_type_counts();
    assert_eq!(c.predator, 4);
    assert_eq!(c.prey, 7);
    assert_eq!(c.get(EntityType::Predator), 4);
    assert_eq!(c.get(EntityType::Prey), 7);
}

#[test]
fn new_entity_id_is_counter_plus_one() {
    let mut r = Roster::new(&vec![(EntityType::Prey, 3)]);
    assert_eq!(r.get_new_entity_id(), 4);
    assert_eq!(r.next_unused_entity_id(), 4);
    assert_eq!(r.get_new_entity_id(), 5);
    assert_eq!(r.next_unused_entity_id(), 5);
}

#[test]
fn new_entity_id_is_fresh() {
    let mut r = Roster::new(&vec![(EntityType::Prey, 2), (EntityType::Predator, 2)]);
    let id = r.get_new_entity_id();
    assert!(!r.get_entity_ids_of_type(EntityType::Prey).contains(&id));
    assert!(!r.get_entity_ids_of_type(EntityType::Predator).contains(&id));
}

#[test]
fn load_keeps_saved_ids_and_counter() {
    let r = Roster::load(&vec![(10, EntityType::Prey), (3, EntityType::Predator), (7, EntityType::Prey)], 12);
    assert_eq!(sorted(r.get_entity_ids_of_type(EntityType::Prey)), vec![7, 10]);
    assert_eq!(sorted(r.get_entity_ids_of_type(EntityType::Predator)), vec![3]);
    assert_eq!(r.next_unused_entity_id(), 12);
    assert!(r.ids_below_counter());
}

#[test]
fn load_later_entry_wins() {
    let r = Roster::load(&vec![(1, EntityType::Prey), (1, EntityType::Predator)], 1);
    assert!(r.get_entity_ids_of_type(EntityType::Prey).is_empty());
    assert_eq!(r.get_entity_ids_of_type(EntityType::Predator), vec![1]);
}

#[test]
fn load_detects_ids_above_counter() {
    let r = Roster::load(&vec![(1, EntityType::Prey), (9, EntityType::Prey)], 5);
    assert!(!r.ids_below_counter());
}
