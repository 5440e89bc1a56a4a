# hanleng_nianchi

A local ice-core depth → age modelling service. The library in `src/` holds
the rules of the model, verified with Verus; `app/` is the HTTP service, the
SQLite store and the floating-point solver around it.

## Library (`src/`)

| module        | what it holds |
| ------------- | ------------- |
| `binary64`    | IEEE-754 comparisons on `f64` bit patterns (depths and ages travel as `u64` bits) |
| `model`       | segments, markers, exchange states, solve inputs; segment and marker validation, the non-overlap check |
| `fixtures`    | the seeded workspace (segments, markers, exchange group, default seed and draw count) |
| `evidence`    | the acceptance evidence list and the rules of evidence edits (ids, gap moves, σ, redistribution, swapping soft markers, settings) |
| `edits`       | marker and segment patches, with validation and the draw-count rule |
| `groups`      | exchange groups: depth order and the rotation of distributions |
| `deps`        | which markers and gaps each node's and edge's quantiles depend on |
| `conflict`    | the hard markers and gaps named by a chain of violated bounds |
| `incremental` | change keys between two solve inputs and the reuse verdict on every quantile row |
| `exchange`    | bundle header check and the verdicts of a verified re-import |
| `rng`         | FNV-1a tags, SplitMix64 seeding and the xoshiro256** stream |
| `time`        | UTC calendar arithmetic and `YYYY-MM-DDTHH:MM:SSZ` formatting |
| `text`        | white space, lexicographic order, ordered string sets, decimal digits |

## Service (`app/`)

`app/main.rs` parses `--listen ADDR --db PATH [--reset]`, opens the store
(seeding the fixture when it is empty) and serves the JSON API. The solver's
floating-point parts (node layout, envelopes, Dykstra projection, quantiles)
and the sampler's distributions live there and call the library for the
exchange rotation, dependency sets, conflict members, change keys and reuse
verdicts.
