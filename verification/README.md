# narrative_field

Narrative structure modelled as vector-field operations: plot points are
positions, arcs are trajectories, tension is potential energy, a resolution is
a stable fixed point, and a narrator is a change of perspective.

## Layout

- `src/` — the verified library, checked by Verus. `runs` holds the iteration
  that drives a narrative forward: `trajectory` records every state reached by
  applying a step again and again, and `iterate` gives the state the run ends
  in. Their contracts state the length of a run, its first state and how each
  state follows from the one before; the proof functions beside them show that
  runs of a deterministic step agree, that a shorter run is a prefix of a
  longer one, that two stretches of a run join into one, and that `iterate`
  ends where `trajectory` ends.
- `app/` — the narrative types themselves (`PlotPoint`, `Arc`, `Tension`,
  `Resolution`, `Narrator`). They compute with `f64` throughout, so they are
  ordinary Rust outside the verified part. `Resolution::trajectory` and
  `Resolution::resolve_tension` hand their floating-point step to
  `runs::trajectory` and `runs::iterate`.
- `tests/` — tests of the library, including the trajectory and resolution
  scenarios with the floating-point step written as a closure.
