# Timberborn auto splitter

A LiveSplit auto splitter for Timberborn that reads the game's state out of its
memory, as a Verus library: what it decides is stated in contracts and proved.

Every tick the splitter is shown the process it is attached to -- its memory, its
ranges, what its Mono runtime says of its classes -- and says what it asks of the
host: a line in the log, a start, a split. It never touches the game, and it never
drives the timer of a run it did not see begin.

| Path | |
|---|---|
| `src/` | the library |
| `tests/` | its tests, most of them against worlds built from fixtures |
| `app/` | the module the auto splitting runtime loads, and the tools that capture and record a running game |

## The library

| Module | |
|---|---|
| `attach`, `splitter`, `watch` | finding the game, getting ready, watching a run |
| `scene`, `run_start`, `buildings`, `wonder` | what is watched: loads, the run start, the buildings, the wonder |
| `scan`, `table`, `singletons`, `service`, `locate` | finding objects in memory |
| `collections`, `metadata`, `memory`, `probe` | reading what is found |
| `clock`, `floats`, `timer`, `status`, `settings`, `note` | the game's time, and what the host is asked for |
| `world`, `drive`, `conduct` | a host to run the splitter in, and what holds of a whole session |
| `fixture`, `json` | a game version's layout, and worlds built from it |
| `snapshot`, `scenario`, `capture`, `record`, `requirement`, `freeze`, `live`, `install` | captures and recordings of a running game |

What is promised of the library as a whole stands in public proof functions: that
a split fires once and on time (`buildings`, `wonder`), that a save or a game
already under way starts no run (`run_start`), that a conclusive scan misses
nothing (`scan::absence`) and a finished one is in order (`scan::order`), that a
capture reads back (`snapshot`) and so does a fixture (`fixture`), that no session
drives the timer improperly (`conduct`), and the like.

## What is trusted

`serde_json` parses and quotes JSON (`json`), and std pushes a character onto a
string and quotes a text (`text`). Everything else is proved.

`asr`, which `app/` reaches the host and the Mono runtime through, is not on the
registry.
