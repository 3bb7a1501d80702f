# forge-infer

A minimal inference server core, verified with Verus: a paged key/value cache,
continuous batching with preemption, and speculative decoding over a swappable
model.

## Layout

- `src/` is the verified library.
  - `paged_cache` allocates cache blocks; `cache_laws` states what it promises.
  - `policy` defines what one scheduling iteration decides, as mathematics;
    `scheduler` carries it out; `scheduler_laws` states what holds across calls.
  - `engine` drives scheduler and model; `engine_laws` shows that every request
    gets exactly the tokens that decoding it alone would give, and that a run
    finishes; `capacity_laws` shows that a run needs no more cache than its peak.
  - `model` holds the `Model` trait, greedy decoding and the deterministic
    `TinyTransformer`; `model_laws` states its properties.
  - `speculative` is the draft-then-verify loop; `speculative_laws` shows when it
    is exact and that it is repeatable.
  - `tokeniser` is a reversible byte-level codec.
  - `server` computes what the HTTP endpoints answer.
  - `bench` is the benchmark workload.
  - `arith` has the shared arithmetic.
- `tests/` runs the library.
- `app/` is the program around it: the HTTP server, and the benchmark under the
  argument `bench`. Floating point stands here: the softmax, the acceptance test
  and the printed rates.

## Conventions

Logits are carried as the bit patterns of single-precision numbers, and rates as
exact fractions. Contracts speak of views: a scheduler is a `SchedView`, its cache
a `CacheView`, a request a `SeqView`.

A model is trusted to keep the contract of its trait: `forward` is a function of
the context. The calls that the library trusts are `String::from_utf8_lossy` and
`Arc::clone`.
