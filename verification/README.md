# fast_ordered_buffer

Runs the futures of a stream with bounded concurrency and hands their outputs
out in the order the stream produced the futures, holding back outputs that
finish early.

- `src/` is the verified library. `order` keeps the ids: futures get
  consecutive ids, finished outputs are held back in a list sorted by id, and
  only the output whose id is due next is ever handed out. `poll` turns one
  poll of the buffer into a sequence of events and actions (poll the source,
  start a future, poll the running futures, return a value, end, or wait), and
  proves what each step decides. With a limit `m`, one poll starts at most
  `m` futures and asks to be polled again when it leaves a freed slot. `trace` proves what whole runs of polls
  hand out: the outputs in source order, all of them by the end, one per poll
  once the source is done and nothing runs, and as many as the size hint says. `buffer` holds the adapter value and the
  `FobStreamExt` extension trait that configures it.
- `app/` is the async runtime side: the pinned `Stream` adapter that polls the
  source and a `FuturesUnordered`, feeds the events to the verified state and
  carries out its actions, and forwards `Sink`.
- `tests/` drive the verified state through a small simulated runtime.
