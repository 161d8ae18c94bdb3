# sentrix

Aircraft state as ASTERIX CAT-062 tracks over UDP, from three sources:

- **live**: state vectors polled from the [OpenSky Network](https://opensky-network.org/);
- **replay**: one or more SimBrief operational flight plans in the LIDO layout, played back
  as a function of time (`sentrix --simulate <briefing>...`);
- **agent**: the same flight plans flown by kinematic agents.

## Layout

- `src/` is the library, verified with [Verus](https://github.com/verus-lang/verus).
  - `text`, `number`: lines, words, columns and numbers of a text; fixed-point quantities.
  - `shared::lido`: the sections of a briefing (flight log, flight plan, routing, runway
    analysis, winds aloft).
  - `shared::plan`: speed profiles of departure and arrival, the timeline, the flight plan.
  - `shared::cat062`, `shared::identity`, `shared::notice`, `shared::summary`: fallback
    identities, track numbers, records, what is told of a flight.
  - `shared::geo`, `shared::config`: angles and legs; configuration.
  - `replay`: sampling a plan, ticks of a replay. `simulation`: a plan with its sampler.
  - `agent`: aircraft, their rate limiters and leg sequencing; performance data in the
    OpenAP WRAP format (never shipped).
  - `opensky`, `fetch`, `live`: requests, tokens and answers of the OpenSky Network, the steps
    of a fetch, and the records made of states.
  - `cli`: command line arguments.
- `app/` is the program: files, sockets, HTTP, clocks, JSON and TOML, great-circle geometry,
  and the encoding of records with [libasterix](https://github.com/algonents/libasterix).
- `tests/` are tests of the library.

## Units

The library computes with integers. Knots, feet, feet per minute, degrees of direction,
degrees Celsius, metres and seconds count millionths; positions count billionths of a minute
of arc, distances billionths of a nautical mile. Numbers in a text are cut off after the last
place, and held at a hundred billion units (two billion in performance data, a hundred
million degrees for the position of a state vector). Winds
aloft and performance data may also be infinite or not a number; elsewhere `inf` is held like a
large number, and `nan` stands for no quantity.

Great circles need floating point. The program computes them: a `Leg` (length and initial
bearing) from each waypoint to the next for a plan, and for a step of an agent the leg to the
active waypoint and the position that is reached.

## What is proved

Every function states in its contract what it returns. Beyond that the library proves, among
others:

- A briefing keeps its route: speed profiles move no waypoint, and the points that they add
  lie strictly between the ends of the first and the last leg
  (`shared::plan::briefing_plan_keeps_route`).
- A timeline starts at zero and never goes back, and a leg takes its length over the average
  of the speeds at its ends (`plan_points_are_plan`, `leg_takes_its_time`).
- A replay is a pure function of time, is on the one leg that holds the moment, and holds the
  last position after arrival (`replay::sampler`, `replay::run`).
- Every flight publishes its own track number, with up to 4096 flights without fail
  (`shared::cat062::remap_separates`, `remap_succeeds_up_to_all`).
- Turn, speed and climb of an agent are limited, and none overshoots its target
  (`agent::aircraft`).

## Configuration

`conf/sentrix.toml`:

```toml
poll_interval_secs = 5

[bounding_box]
min_lat = 45.8
max_lat = 47.8
min_lon = 5.9
max_lon = 10.5

[asterix]
sac = 1
sic = 1

[udp]
destination = "127.0.0.1:4000"

# Optional overrides; by default identity comes from the briefing
[simulation]
#callsign = "SIM001"
#icao_address = "4b1234"
```

Live mode needs OpenSky credentials, in `OPENSKY_CLIENT_ID` and `OPENSKY_CLIENT_SECRET` or in
`conf/credentials.json` (`client_id`, `client_secret`).
