use std::collections::HashMap;
use predator_prey::entity_type::EntityType;
use predator_prey::roster::Roster;
use predator_prey::rules::{fittest, prey_predator_collisions, Birth, Contact, Death, Standing};

fn sorted(mut v: Vec<u64>) -> Vec<u64> {
    v.sort();
    v
}

fn standing(id: u64, alive: bool, can_reproduce: bool) -> Standing {
    Standing { id, alive, can_reproduce }
}

fn contact(id0: u64, type0: EntityType, id1: u64, type1: EntityType) -> Contact {
    Contact { id0, type0, id1, type1 }
}

#[test]
fn fittest_orders_by_key() {
    let ids = fittest(&vec![(1, 30), (2, -10), (3, 5), (4, 0)]);
    assert_eq!(ids, vec![2, 4, 3, 1]);
}

#[test]
fn fittest_keeps_ties_in_input_order() {
    let ids = fittest(&vec![(9, 1), (3, 0), (5, 1), (7, 0), (1, 1)]);
    assert_eq!(ids, vec![3, 7, 9, 5, 1]);
}

#[test]
fn fittest_of_nothing_is_nothing() {
    assert!(fittest(&vec![]).is_empty());
}

#[test]
fn fittest_is_a_permutation() {
    let input = vec![(10, 3), (11, -2), (12, 3), (13, 8), (14, -2), (15, 0)];
    let ids = fittest(&input);
    assert_eq!(sorted(ids.clone()), vec![10, 11, 12, 13, 14, 15]);
    assert_eq!(ids, vec![11, 14, 15, 10, 12, 13]);
}

#[test]
fn collision_pairs_prey_with_predator() {
    let pairs = prey_predator_collisions(&vec![
        contact(5, EntityType::Prey, 2, EntityType::Predator),
        contact(6, EntityType::Predator, 1, EntityType::Prey),
    ]);
    assert_eq!(pairs.len(), 2);
    assert_eq!(pairs[&5], 2);
    assert_eq!(pairs[&1], 6);
}

#[test]
fn collision_first_predator_wins() {
    let pairs = prey_predator_collisions(&vec![
        contact(8, EntityType::Prey, 3, EntityType::Predator),
        contact(8, EntityType::Prey, 4, EntityType::Predator),
    ]);
    assert_eq!(pairs.len(), 1);
    assert_eq!(pairs[&8], 3);
}

#[test]
fn collision_ignores_same_kind_and_mirrored_pairs() {
    let pairs = prey_predator_collisions(&vec![
        contact(2, EntityType::Prey, 1, EntityType::Prey),
        contact(1, EntityType::Prey, 2, EntityType::Predator),
        contact(3, EntityType::Predator, 3, EntityType::Prey),
        contact(4, EntityType::Predator, 0, EntityType::Predator),
    ]);
    assert!(pairs.is_empty());
}

#[test]
fn dead_entities_die_down_to_minimum() {
    // prey 0..4; least fit last. Entities 4, 3 and 1 are dead; minimum 3.
    let mut r = Roster::new(&vec![(EntityType::Prey, 5)]);
    let ranked = vec![
        standing(0, true, false),
        standing(1, false, false),
        standing(2, true, false),
        standing(3, false, false),
        standing(4, false, false),
    ];
    let out = r.spawn_and_death_rules(EntityType::Prey, &ranked, [3, 10], &HashMap::new());
    assert_eq!(out.deaths, vec![Death { id: 4, eaten_by: None }, Death { id: 3, eaten_by: None }]);
    assert!(out.births.is_empty());
    assert_eq!(out.population, 3);
    assert_eq!(sorted(r.get_entity_ids_of_type(EntityType::Prey)), vec![0, 1, 2]);
}

#[test]
fn nobody_dies_at_minimum() {
    let mut r = Roster::new(&vec![(EntityType::Prey, 2)]);
    let ranked = vec![standing(0, false, false), standing(1, false, false)];
    let out = r.spawn_and_death_rules(EntityType::Prey, &ranked, [2, 10], &HashMap::new());
    assert!(out.deaths.is_empty());
    assert_eq!(out.population, 2);
}

#[test]
fn caught_prey_is_eaten() {
    let mut r = Roster::new(&vec![(EntityType::Prey, 3), (EntityType::Predator, 1)]);
    let mut caught = HashMap::new();
    caught.insert(1u64, 3u64);
    let ranked = vec![standing(0, true, false), standing(1, true, false), standing(2, true, false)];
    let out = r.spawn_and_death_rules(EntityType::Prey, &ranked, [0, 10], &caught);
    assert_eq!(out.deaths, vec![Death { id: 1, eaten_by: Some(3) }]);
    assert_eq!(out.population, 2);
    assert_eq!(sorted(r.get_entity_ids_of_type(EntityType::Prey)), vec![0, 2]);
    assert_eq!(r.get_entity_ids_of_type(EntityType::Predator), vec![3]);
}

#[test]
fn catches_do_not_kill_predators() {
    let mut r = Roster::new(&vec![(EntityType::Predator, 2)]);
    let mut caught = HashMap::new();
    caught.insert(0u64, 1u64);
    let ranked = vec![standing(0, true, false), standing(1, true, false)];
    let out = r.spawn_and_death_rules(EntityType::Predator, &ranked, [0, 10], &caught);
    assert!(out.deaths.is_empty());
    assert_eq!(out.population, 2);
}

#[test]
fn fittest_reproduce_up_to_maximum() {
    let mut r = Roster::new(&vec![(EntityType::Prey, 4)]);
    let ranked = vec![
        standing(2, true, true),
        standing(0, true, false),
        standing(3, true, true),
        standing(1, true, true),
    ];
    let out = r.spawn_and_death_rules(EntityType::Prey, &ranked, [0, 6], &HashMap::new());
    assert!(out.deaths.is_empty());
    assert_eq!(out.births, vec![Birth { parent: 2, child: 5 }, Birth { parent: 3, child: 6 }]);
    assert_eq!(out.population, 6);
    assert_eq!(r.next_unused_entity_id(), 6);
    assert_eq!(sorted(r.get_entity_ids_of_type(EntityType::Prey)), vec![0, 1, 2, 3, 5, 6]);
}

#[test]
fn nobody_reproduces_at_maximum() {
    let mut r = Roster::new(&vec![(EntityType::Prey, 2)]);
    let ranked = vec![standing(0, true, true), standing(1, true, true)];
    let out = r.spawn_and_death_rules(EntityType::Prey, &ranked, [0, 2], &HashMap::new());
    assert!(out.births.is_empty());
    assert_eq!(r.next_unused_entity_id(), 2);
}

#[test]
fn the_dead_do_not_reproduce() {
    let mut r = Roster::new(&vec![(EntityType::Predator, 3)]);
    let ranked = vec![
        standing(0, true, true),
        standing(1, true, false),
        standing(2, false, true),
    ];
    let out = r.spawn_and_death_rules(EntityType::Predator, &ranked, [1, 10], &HashMap::new());
    assert_eq!(out.deaths, vec![Death { id: 2, eaten_by: None }]);
    assert_eq!(out.births, vec![Birth { parent: 0, child: 4 }]);
    assert_eq!(out.population, 3);
    assert_eq!(sorted(r.get_entity_ids_of_type(EntityType::Predator)), vec![0, 1, 4]);
}

#[test]
fn unremoved_dead_may_still_reproduce() {
    // At the minimum nobody is removed, so a dead entity able to reproduce does.
    let mut r = Roster::new(&vec![(EntityType::Prey, 1)]);
    let ranked = vec![standing(0, false, true)];
    let out = r.spawn_and_death_rules(EntityType::Prey, &ranked, [1, 5], &HashMap::new());
    assert!(out.deaths.is_empty());
    assert_eq!(out.births, vec![Birth { parent: 0, child: 2 }]);
}

#[test]
fn turn_leaves_other_kind_alone() {
    let mut r = Roster::new(&vec![(EntityType::Prey, 2), (EntityType::Predator, 2)]);
    let ranked = vec![standing(2, false, false), standing(3, true, true)];
    let out = r.spawn_and_death_rules(EntityType::Predator, &ranked, [0, 3], &HashMap::new());
    assert_eq!(out.deaths, vec![Death { id: 2, eaten_by: None }]);
    assert_eq!(out.births, vec![Birth { parent: 3, child: 5 }]);
    assert_eq!(sorted(r.get_entity_ids_of_type(EntityType::Prey)), vec![0, 1]);
    let counts = r.entity_type_counts();
    assert_eq!(counts.predator, out.population);
    assert_eq!(counts.prey, 2);
}

#[test]
fn whole_step_keeps_both_kinds_within_limits() {
    // prey 0..3 (limits [2, 4]); predators 4, 5 (limits [1, 3]); prey 3 caught by 5.
    let mut r = Roster::new(&vec![(EntityType::Prey, 4), (EntityType::Predator, 2)]);
    let mut caught = HashMap::new();
    caught.insert(3u64, 5u64);
    let prey = vec![
        standing(0, true, true),
        standing(1, false, true),
        standing(2, true, true),
        standing(3, true, false),
    ];
    let prey_out = r.spawn_and_death_rules(EntityType::Prey, &prey, [2, 4], &caught);
    assert_eq!(prey_out.deaths, vec![Death { id: 3, eaten_by: Some(5) }, Death { id: 1, eaten_by: None }]);
    assert_eq!(prey_out.births, vec![Birth { parent: 0, child: 7 }, Birth { parent: 2, child: 8 }]);
    let predators = vec![standing(5, true, true), standing(4, false, true)];
    let predator_out = r.spawn_and_death_rules(EntityType::Predator, &predators, [1, 3], &caught);
    assert_eq!(predator_out.deaths, vec![Death { id: 4, eaten_by: None }]);
    assert_eq!(predator_out.births, vec![Birth { parent: 5, child: 9 }]);
    let counts = r.entity_type_counts();
    assert_eq!(counts.prey, 4);
    assert_eq!(counts.predator, 2);
    assert_eq!(r.next_unused_entity_id(), 9);
    assert_eq!(sorted(r.get_entity_ids_of_type(EntityType::Prey)), vec![0, 2, 7, 8]);
    assert_eq!(sorted(r.get_entity_ids_of_type(EntityType::Predator)), vec![5, 9]);
    assert!(r.ids_below_counter());
}
