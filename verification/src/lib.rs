//! Sentrix: aircraft state as ASTERIX CAT-062 tracks.
//!
//! The library reads operational flight plans in the LIDO layout, builds flight
//! plans from them and either replays these as a function of time or flies them
//! with kinematic agents; it also reads the state vectors of the OpenSky Network.
//! What comes out is what a CAT-062 record says of each flight.
//!
//! Quantities are integers in fixed point: knots, feet, degrees, seconds and the
//! like count millionths, positions billionths of a minute of arc, distances
//! billionths of a nautical mile. Great circles, clocks, files and sockets are
//! left to the program around the library.

pub mod agent;
pub mod cli;
pub mod fetch;
pub mod laws;
pub mod live;
pub mod number;
pub mod opensky;
pub mod replay;
pub mod shared;
pub mod simulation;
pub mod text;
