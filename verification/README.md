# aptos_indexer

Follows the ledger of an Aptos node and reports to an endpoint what the endpoint asked for: events
and resources of given types, and items of given tables.

`src/` is the library, verified with Verus:

- `transaction` holds transactions as they come in, `processing_result` the reports that go out;
- `selection` finds in a transaction what is asked for;
- `batch` makes the reports on a batch of transactions, for either indexer;
- `http` is the indexer that reports over HTTP: its tailer, the moving average of its speed, and
  the state of its loop;
- `ws` is the indexer that reports over a websocket: its tailer, and the types it looks for;
- `round` and `sort` put what several tasks found together into one request;
- `sequences` and `strings` are what the others need of these;
- `json`, `time` and `ws::runtime` hold all that is taken on trust: that a copy of a JSON value is
  that value, the clock, and the reading of URLs.

`app/` runs the two indexers: it fetches transactions, turns them into the library's types, runs the
processor tasks, and sends the requests. `tests/` runs the library.

What the functions promise stands in their `ensures`; what holds of them together stands in the
public proof functions whose names begin with `law_`.
