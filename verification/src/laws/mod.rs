//! What holds of the parsers and generators together.
pub mod bounds;
pub mod datetimes;
pub mod digits;
pub mod idempotence;
pub mod inversion;
pub mod json_round_trip;
pub mod keys;
pub mod literals;
pub mod numbers;
pub mod paths;
pub mod rebuild;
pub mod strings;
pub mod superset;
pub mod wellformed;
pub mod words;
