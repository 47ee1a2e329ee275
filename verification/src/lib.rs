pub mod algo;
pub mod bonding_events;
pub mod conservation;
pub mod determinism;
pub mod events;
pub mod formula;
pub mod molecule;
pub mod noise_laws;
pub mod options;
pub mod pairs;
pub mod reaction;
pub mod scheduler;
pub mod states;
pub mod text;
pub mod trajectory;
