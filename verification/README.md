# predator_prey

A predator/prey evolution simulation: entities steered by small neural
networks move on a torus, prey are caught by predators, the dead are removed
and the fit reproduce, each population kept between its limits. A web front
end watches the simulation.

The rules are a Verus library under `src/`, proved against their contracts:

- `entity_type`: the two kinds and their names.
- `roster`: which entities are alive and of which kind, the counter that
  hands out newborn identifiers, and one kind's turn of the death and birth
  rules.
- `rules`: the fitness ranking (a stable sort), the pairing of caught prey
  with predators, and the specification of the death and birth rules with
  their laws.
- `commands`: the network input commands of the settings.
- `routes`, `resources`: the front end's routing and the resource paths.

`app/` holds the program around it: floating-point movement, vision and
breeding of entities, the neural networks, settings and saves in JSON, the
HTTP server and the command line.
