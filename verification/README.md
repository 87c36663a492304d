# maploc

2D time-of-flight mapping and localization for a small walking robot, verified
with Verus: occupancy grid and distance field, scan matching, submaps and their
composite, relocalization by search and by particle filter, a waypoint follower,
and the formats and protocols around them.

The logic is in `src/` and every function of it is verified. Numbers are IEEE 754
patterns (`single`, `double`) with arithmetic of their own that is proved to
round as the standard says (`rounding`, `arith`, `conversion`, `double_arith`),
so contracts speak of exact results; `accuracy` and `turning` say how far these
are off the reals. Cosines, sines, arc tangents, exponentials and logarithms are
functions that the caller supplies (`function`): every contract holds whatever
they are.

| Module | What it holds |
|--------|---------------|
| `grid`, `line`, `distance`, `beams` | log-odds grid, beams through it, distance to the nearest wall |
| `map_format`, `session`, `replay` | maps, sessions and recorded logs as bytes |
| `pose`, `submap`, `global_render`, `pose_graph` | poses, local maps, their union and their graph |
| `scan_matcher`, `relocalize` | matching a scan to the map; searching the whole map |
| `mcl`, `cloud`, `random` | particle filter, statistics of its cloud, random draws |
| `mount`, `zone_geometry` | sensor geometry, and what holds of it for accurate trigonometry |
| `accumulator`, `follower` | buffering of scans, following a path |
| `wire`, `stream` | framed protocol; state of the telemetry and goal servers |

Outside the proofs are the functions that call the `rand` and `bincode` crates
(`random`, `session`); what is believed of each stands above it.

`app/` is ordinary Rust around the library: native floating point, normal noise,
files and sockets. `tests/` runs the library on concrete values.
