# replai

Deterministic, bounded line editing for terminal REPLs, verified with Verus.

- `src/text.rs` — permitted text (no control characters but LF and TAB),
  UTF-8 byte lengths and boundaries, and the std conversions the library uses.
- `src/graphemes.rs` — extended grapheme cluster starts from the
  `unicode-segmentation` crate, the one outside call of the editor.
- `src/editor.rs` — `Editor`: UTF-8 byte-bounded text, a cursor on extended
  grapheme boundaries, grapheme-wise movement and deletion, atomic replacement, and
  explicit, bounded history with draft-preserving recall. Every operation is
  specified as a function of the abstract `EditorView`.
- `src/input.rs` — `Decoder`: incremental decoding of terminal bytes into keys,
  with bounded UTF-8 and escape staging and atomic bracketed paste.
- `src/interaction.rs` — the decisions of a terminal interaction: what each
  decoded key does to the editor and which event it yields, validation and
  layout of host output, usable terminal dimensions, the terminal lifecycle,
  the restoration sequence and the reporting of cleanup failures.
- `src/codes.rs` — the numeric status and event codes of the C interface,
  their diagnostics, and the check of a configuration record.

`app/` is the Linux terminal adapter (`Interaction`): descriptors, reads,
writes and mode changes through `rustix`, with every decision taken by the
library. Its rows are not wrapped to the terminal width.

`tests/` exercises the library on concrete inputs.
