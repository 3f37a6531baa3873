# symbios_audio

Deterministic algorithmic audio synthesis, written and proved in Verus.

A patch is a graph of nodes: oscillators, noise, envelopes, filters,
low-frequency oscillators, mixers, gates, chorus and reverb.  Baking a patch
yields a mono buffer; mixing a recipe down places many bakes on a timeline and
folds the tail of a loop into its start.  Patches and recipes can be clamped
to an envelope, bred with each other, and encoded as WAV.

## Layout

- `src/` is the library.  Every function states what it returns; baking is a
  mathematical function of the patch, the sample rate and the duration.
- `app/` wraps the library for plain `f32`: documents on the wire, the outside
  trait for evolution, warnings on the log.
- `tests/` runs the library.

## Numbers

Samples are bit patterns of the 32-bit floating-point format.  Their
operations are defined on integers in `src/rounding.rs`, `src/arith.rs` and
`src/float.rs` and round as the format prescribes, so a buffer is the same to
the bit on every machine.  Sine, cosine, hyperbolic tangent and powers of two
are handed in by the caller: the buffer is a function of these, too.  All that
the mixdown asks of the hyperbolic tangent is that it is never beyond one.

## What is taken on trust

One function: a word of the ChaCha8 stream (`src/stream.rs`), of which nothing
is claimed but that it depends on the seed and the position alone.

## Where to read

The contracts of `bake` and `bake_sequence` go through `bake::baked` and
`mixdown::mixed`.  Statements that hold of the library as a whole are the
functions named `law_`: that listing order does not matter to a bake, that a
graph has one evaluation order, that a loop's seam joins neighbours, that
clamping leaves what lies inside alone, that WAV blobs read back, that lines
with feedback stay bounded.
