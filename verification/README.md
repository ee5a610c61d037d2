# migjorn

Verified building blocks for reading and rewriting MCNP input decks.

- `src/parser_utils/`: skipping blanks and comments, reading signed and
  unsigned integers with the span of their text, finding the text of a
  floating-point number, writing integers as decimal text, writing spanned
  values back among the source bytes, and padding scientific exponents.
  `round_trip.rs` proves that written integers read back and that integers
  read from canonical text write back as that text; `spanned.rs` proves that
  writing the values of a card in order reproduces the source with each span
  replaced by the new text (and the source itself when nothing changed).
- `src/cell_card.rs`, `src/surface_card.rs`, `src/data_card.rs`,
  `src/model.rs`: the cards that carry identifiers, and their views.
- `src/model/renumbering.rs`: renumbering cells, surfaces, materials,
  transformations and universes within a range, with executable tests of
  the overflow conditions they require; `renumbering_laws.rs` proves that an
  offset of zero changes nothing, that moving a range and moving it back
  restores the model, and that references keep naming the same card.
- `app/`: the command-line front end (argument parsing with `clap`) and the
  floating-point conversions, which the verified library does not hold.
