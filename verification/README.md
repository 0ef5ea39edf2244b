# result_verifier

Several providers run the same batch of commands. This library collects what
they return, puts it to a vote, names those that deviate, judges how badly they
deviate and says what it costs them. Beside that it keeps the books on stakes,
rewards, penalties, commitments and disputes.

Every function of `src/` is verified with Verus but the wrappers around outside
crates, which are named below.

| Module | What it holds |
| --- | --- |
| `consensus` | the vote: more than two thirds must agree |
| `result_collector`, `service` | submissions of a task, verdicts, offenses |
| `requestor` | gathering answers and voting on them without a service |
| `result_comparator` | comparison command by command |
| `result_validator` | format, usage, cost and times of a single result |
| `severity`, `slashing`, `offense` | how bad an offense is and what it costs |
| `attack_tests`, `attack_checks` | scenarios of attacks and a report on them |
| `ledger`, `staking`, `api` | the books, the operations on them, the replies |
| `command`, `node`, `digest`, `time` | results of commands, identities, fingerprints, instants |
| `fixed`, `text`, `ordered_map`, `views`, `error` | numbers, text, maps, copies, errors |

Public proof functions whose names begin with `law_` state what holds of the
library as a whole.

- Amounts, shares and factors are whole millionths.
- Maps keep the order in which keys arrived.
- A function that reads the clock has a sibling, with a name that ends in `_at`,
  that takes the time as an argument.
- JSON, SHA-256, hexadecimal text and RFC 3339 times come from `serde_json` with
  `ya-client-model`, `sha2`, `hex` and `chrono`. The wrappers that call them are
  `commands_to_json`, `commands_from_json` and `output_to_json` in `command`,
  `sha256` and `hex_encode` in `digest`, `to_rfc3339` and `utc_now` in `time`.
  What is taken for granted of the outside functions stands above them.

`app/` is the actor, the HTTP endpoints, the database and the network around the
library. `tests/` holds the tests.
