pub mod types;
pub mod model;
pub mod icao;
pub mod generator;
pub mod layout;

pub use types::{AircraftID, Sec, WakeCategory};
pub use model::{Aircraft, Instance};
pub use icao::{icao_sep_seconds, SeparationMap};
pub use generator::{generate_feasible_instance, GenerateError};
