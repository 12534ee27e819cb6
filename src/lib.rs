//! Statistics on memory-cell decay: parses the tester's log blocks into
//! records and aggregates them into corruption fractions and flip rates.

pub mod text;
pub mod record;
pub mod loader;
pub mod delays;
pub mod flip;
pub mod corrupt;
pub mod laws;
pub mod roundtrip;
pub mod report;
