# pack_encoder

Encoder for pack files: a header, objects one behind the other, and a checksum. An object
is stored whole, or as a delta against an object of its kind that stands a little before
it.

- `src/` is the encoder, written and proved in Verus. It takes entries as lists, gives the
  pack as a list of chunks, and takes the delta formats as functions. `src/reading.rs`,
  `src/laws.rs` and `src/arrival.rs` state what holds of whole packs, first of all that a reader finds in a pack
  what went into it.
- `tests/` runs the encoder on concrete entries.
- `app/` puts the encoder between channels and files.
