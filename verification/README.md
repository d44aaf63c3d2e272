# tailbench

Measures and scores the latency tail of a service under open-loop load.

Three processes take part. The load generator dispatches requests on a schedule
that is fixed before the run starts, whatever the service does. The program
under test calls the downstreams that a request requires and folds what they
return into a digest. The downstream cluster answers each call with a value and
after a delay that depend on the seed and the call site alone.

A request succeeds if it is answered by its deadline, every required downstream
was called, and the digest matches. Whatever else becomes of it, it enters the
latency population at the penalty, so failing cannot improve the tail. The
headline is `cvar_99`, the mean of the worst hundredth.

## Layout

- `src/` is the library, verified with Verus: schedules, draws, scoring,
  aggregation, framing, and the decisions of each process.
- `app/` is the program around it: sockets, clocks, files, and the logarithms,
  roots and powers that the draws need.
- `tests/` runs the library.

Numbers are IEEE 754 doubles. `binary64`, `rounding`, `arithmetic` and
`conversion` define them over the integers, and the operations are proved to
round as the standard says; the contracts of everything that computes with them
are exact down to the last bit.

What must hold of the whole is stated as proof functions beside the code that it
is about, among others:

- `tail`: failing never improves a percentile or the headline; below one percent
  of failures the 99th percentile does not depend on the penalty, above it is
  the penalty, and each failure adds its full penalty to the headline.
- `budget`: a valid scenario's penalty exceeds its budget also once both are
  measured, so that giving up never pays.
- `precision`: rounding moves a number by at most one part in 2^53, or half of
  the smallest one.
- `normal`: the median is 0, and mirrored probabilities have opposite quantiles.
- `ranks`: percentiles are read at the nearest rank, and tails are the worst
  share of the values, rounded up.
- `oracle`: what a success is; calls may come in any order, and extra calls are
  allowed.
- `load_generator`: a generator that lags gives the service no extra time; every
  scheduled request has exactly one record.
- `rng`, `digest`: no two call sites share a seed, no two requests a nonce.
- `wire`: what is framed is read back.
- `calendar`: stamps sort by time.

Trusted without proof: the ChaCha generator of `rand_chacha` and the uniform
integers of `rand` (`rng`), and `String::push` of the standard library
(`loadgen`).
