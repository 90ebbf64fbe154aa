//! Rules of a predator/prey evolution simulation: entity kinds and their names,
//! the roster of living entities and the identifiers handed out to newborns,
//! the fitness ranking, the catching of prey, and the death and birth rules
//! that keep each population between its limits.

pub mod entity_type;
pub mod roster;
pub mod rules;
pub mod commands;
pub mod routes;
pub mod resources;
