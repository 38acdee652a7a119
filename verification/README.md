# Widecast

A broadcast channel for large numbers of subscribers, verified with
[Verus](https://github.com/verus-lang/verus).

One sender broadcasts values to any number of receivers. Values are kept in a ring
buffer until they are overwritten; a receiver that falls behind is told how many it
has missed and goes on with the oldest one held.

- `src/` is the library. Each part of it has a type whose operations state their
  whole outcome over a mathematical view, and the laws that relate them are proved
  as `lemma_` functions next to it:
  - `arcbuf`, `shared`, `sender`, `receiver`: the broadcast channel;
  - `spsc`: a growing single-producer single-consumer queue and its channel;
  - `masswake`: waking many tasks at once, with a queue of wakers per thread;
  - `queue`: a queue of wakers in blocks;
  - `fifo`, `ring`: what queues promise, and the arithmetic of ring buffers;
  - `bench`, `text`, `thread_id`: what the benchmark decides and reports.
- `tests/` runs the library.
- `app/` is the benchmark: the command line, the tasks and the clock.

The handles of a channel share its state through a lock. What the other handles do
between two operations is not known, so the contracts of the handles say what holds
in any state that the lock admits; the types behind the lock say the rest.

A channel is closed by calling `close`, or by dropping a handle that it needs: the
others see that it is gone. Dropping runs no code of the library, though. Tasks that
already wait are woken by `close` and `into_state` only, and what is left in a channel
is freed by the last handle on which `into_state` is called. The handles in `app/`
call it when they are dropped.
