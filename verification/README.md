# tatara

Verified core of a shogi NNUE training toolkit.

- `src/` is the library. Its contracts are proved by Verus: reading and filtering training records,
  shuffle windows, batches and loaders, ordered rescoring with resumable score sidecars, the feature
  maps, the network formats, and the decisions around building and running.
- `tests/` runs the library on concrete values.
- `app/` is ordinary Rust around it: files, threads, processes, arguments and floating point.

Work that waits for something outside (a read, a channel, a decoded position) is a state machine in
the library: the caller performs the action it is given and hands back what happened.

What the proofs take on trust are the few functions marked `external_body`: UTF-8 validation of the
standard library (`yo.rs`), SHA-256 (`digest.rs`) and the JSON object and printer (`fingerprint.rs`).

The packed position encoding, LEB128 tensors and the network header come from the caller; nothing
here fixes them. Of the numbering of pieces, `bona.rs` fixes the planes of the kings and how many
numbers each kind in hand has; the rest of it comes from the caller too.
The commands of `app/` that need them take them from `Parts` in `app/main.rs`, and end with an error
where a part is not linked in.
