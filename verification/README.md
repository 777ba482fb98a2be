# unbounded_storage

Verified core of a content-addressed storage node.

- `src/bufferpool`: the buffer pool. Pages of a fixed backing are shared
  between the readers of a stripe, fetched at most once at a time, and handed
  back when nobody holds them. `pool` holds the state, `fetch` the steps of a
  single-flight fetch, `chunks` the splitter and the range fetch, `stream` the
  windows of a stream. `pool_laws` and `byte_laws` state what holds over any
  sequence of calls.
- `src/storage`: cache keys, the admission filter (`admission`) and the
  per-key fill gate (`singleflight`, with its laws in `gate_laws`).
- `src/mercury`: binding of a fabric transport.
- `src/table`, `src/text`, `src/power`, `src/wakers`: small helpers.

Nothing in `src` waits, locks or touches memory it does not own: the state
machines hand out what has to be done and take the outcome back. `app` is the
runtime around them: futures, wakers, locks and raw pages. `tests` drives the
core by hand.

The one outside crate that the core calls is `smallvec`, for the reply list of
a bulk get (`src/bufferpool/replies.rs`). What is believed of it without proof
is stated there, on the functions that call it.
