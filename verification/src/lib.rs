//! Narrative field: the iteration structure behind trajectories and resolution.
//!
//! A narrative state evolves by repeatedly applying one step: a point moves
//! toward a resolution's fixed point, a tension decays.  The module `runs`
//! holds the verified part of that evolution, whatever a state is made of:
//! recording every state of a run (`trajectory`) and computing the state a
//! run ends in (`iterate`).
pub mod runs;
