# mlatd

The logic of an MLAT server for the mlat-client protocol, verified with Verus.

- `src/` is the library. Verus proves every function in it against its contract.
  What it takes on trust of `serde_json`, `hex` and std stands in a few marked
  declarations, each with a comment that says what is claimed.
- `tests/` runs the library on concrete values.
- `app/` is the program around it: command line, sockets, files, timers and
  floating point.

## Modules

| module | what it holds |
|---|---|
| `handshake`, `session`, `message`, `traffic` | a connection: its handshake, what each event and line calls for, what the client is asked to send |
| `state` | one shard: its model and what every operation keeps |
| `state::slots`, `state::intake` | receivers coming and going; reported frames and sync pairs |
| `state::sweep`, `cluster` | groups whose window has passed; reference election, conversion, clusters |
| `state::publish`, `state::verdict` | which solves are made; which fixes are refused, scored or published |
| `state::report`, `export` | what monitoring is told, by shard and merged |
| `state::laws`, `state::history`, `state::rounds` | what holds of a shard whatever its receivers send, whoever comes and goes, and however many report one sync pair |
| `output`, `lines` | who gets what; rows, feed messages and client messages |
| `bias`, `tally`, `mapping`, `frames`, `json` | receiver biases, fading counts, the public map, frames as text, documents |
| `calendar`, `moments`, `order` | UTC dates and times; that their texts rise with time and read back |
| `table`, `rows`, `listing`, `hash`, `text`, `binary`, `clock`, `geo` | building blocks |

## Numbers

The library computes with whole numbers. The output clock counts nanoseconds,
receiver clocks count femtoseconds, learned biases count attoseconds, and lengths
count micrometres. Where a number is shown with decimals, the double nearest to
it is what is rounded (`binary`). Counts that fade are reckoned as doubles are,
digit by digit, without floating point. Coordinates pass through unread, by their
bits.

What is remembered by slot carries the generation of the slot's holder, so that
nothing of a connection that has ended counts for the next one in its slot.

A shard does not run the pair clock models or the solver. It says what is to be
trained, converted or solved; the caller does that and hands back what came out.
