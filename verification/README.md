# mdstack

A market-data stack: a price-time-priority matching engine that publishes a batched
feed over two arms, and everything a consumer needs to rebuild the order books from it.
The library is written in Rust and verified with Verus: what each operation does is
stated in its contract and proved.

## Layout

- `src/` is the library.
  - Books: `model` says what a book is; `reference` is the plain book, `mbo` (over
    `ladder`, `order_map` and `tick`) the fast one; `view`, `books`, `fast` and `shelf`
    hold sets of them; `apply`, `rebuild` and `digest` say what messages and snapshots
    do to them and when two of them agree.
  - Feed: `message`, `feed`, `arbitration` and `account`, `recovery`, `handler`.
  - Replay: `protocol`, `store`, `client`, `uplink`.
  - Engine: `engine`, `priority`, `orderpath`, `generator`, `rng`, `runner`.
  - Shared memory: `ring`, `poke`.
  - Measuring: `histogram`, `tsc`, `hostcheck`, `hostinfo`, `alloc_guard`, `corpus`.
  - Settings and text: `config`, `transport`, `text`, `lines`, `bytes`, `describe`.
- `tests/` runs the library on concrete values.
- `app/` is the programs around it: sockets, files, the clock, the command line, and
  the encoding of messages, which is the `wire` crate's.

## What is stated

Books are modelled as the orders that rest and the queue at each price. A public
function states its result and its effect on that model for every input it takes. What
holds across functions is stated by the proof functions whose names begin with `law_`:
a snapshot restores a book with its queues, the fast book and the reference book agree,
a consumer that applies the feed has the publisher's books, matching leaves no book
crossed, arbitration delivers in order and accounts for every message, what is written
to a stream reads back.

Numbers that only tell what has happened wrap around. Floating point is not used in the
library: probabilities are counts out of 2^53, and times are nanoseconds.
