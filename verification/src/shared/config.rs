//! Configuration of a run.

use vstd::prelude::*;

verus! {

/// Geographic bounding box for filtering aircraft, in millionths of a degree.
#[derive(Debug, Clone, Copy, PartialEq, Eq, Structural)]
pub struct BoundingBox {
    pub min_lat: i64,
    pub max_lat: i64,
    pub min_lon: i64,
    pub max_lon: i64,
}

/// Main configuration structure
#[derive(Debug)]
pub struct Config {
    /// Polling interval in seconds
    pub poll_interval_secs: u64,
    /// Bounding box for geographic filtering
    pub bounding_box: BoundingBox,
    /// ASTERIX data source identifier
    pub asterix: AsterixConfig,
    /// UDP output configuration
    pub udp: UdpConfig,
    /// Simulation mode settings
    pub simulation: SimulationConfig,
}

/// ASTERIX-specific configuration
#[derive(Debug, Clone, Copy)]
pub struct AsterixConfig {
    /// System Area Code
    pub sac: u8,
    /// System Identification Code
    pub sic: u8,
}

/// UDP output configuration
#[derive(Debug)]
pub struct UdpConfig {
    /// Destination address (IP:port)
    pub destination: String,
}

/// Identity overrides for the simulated aircraft.
///
/// Where one is unset the value of the briefing is used, and a fallback for a
/// briefing without a flight plan section.
#[derive(Debug)]
pub struct SimulationConfig {
    /// Callsign published in the target identification
    pub callsign: Option<String>,
    /// 24-bit Mode-S address in hexadecimal (also seeds the track number)
    pub icao_address: Option<String>,
}

impl Default for SimulationConfig {
    /// No overrides.
    fn default() -> (r: Self)
        ensures
            r.callsign is None,
            r.icao_address is None,
    {
        SimulationConfig { callsign: None, icao_address: None }
    }
}

/// Polling interval, in seconds, where the configuration gives none.
pub fn default_poll_interval() -> (r: u64)
    ensures
        r == 10,
{
    10
}

} // verus!
