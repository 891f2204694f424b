# hcr

A service around a programmable robot arm that cuts hair: players write block
programs, a simulator replays them against voxel hairstyles, and the service
scores the runs, ranks competitive rounds and adapts practice sessions to the
player's ability.

The library in `src/` is written and verified with Verus. It holds the service's data
and rules. Numbers are doubles held by their bits, and rounded as the machine rounds
them; exponentials, logarithms and roots, an item's information and a draw by weight
are the caller's:

| Modules | What they state |
| --- | --- |
| `domain`, `cutter`, `meta`, `api`, `round`, `wire` | the data of challenges, submissions, sessions, rounds and errors |
| `number`, `rounding`, `text`, `table`, `voxels` | numbers by their bits, correctly rounded sums, products and quotients, texts, ordered maps, sets of cells |
| `signature`, `crypto`, `itemref` | canonical documents and their signatures, sealed item references |
| `bank`, `item`, `blueprint`, `exposure`, `content`, `mastery` | which items may be served, weighed, drawn and recorded, and what counts as success |
| `calibration`, `likelihood`, `difficulty`, `features`, `generator`, `shell`, `starter`, `seed` | refitting parameters, generating winnable items |
| `catalog`, `replay`, `session`, `rounds`, `usage`, `service` | the service's state and what every request does to it |
| `binding`, `cors`, `deploy`, `clock`, `error` | routing, statuses, headers, configuration, time |

Functions whose names start with `law_` are properties of the library as a whole.

`app/` is the server: HTTP, files, environment, JSON, the adaptive engine's
floating point, and the simulator, which runs as a separate command. `tests/`
exercises the library with the crates it is built on.
