# vocage

A flashcard library: cards are kept in tab-separated text files (a header
row of column names, one card per line, `#` comment lines kept), sorted
into decks that come due again after per-deck intervals.

Layout:

- `src/` — the library, written in Verus, every function with its contract:
  - `text.rs` — whitespace, trimming, splitting, joining, decimal numbers,
    and reading unsigned integers, each with the model it follows;
  - `session.rs` — the session configuration, read from flags or applied
    from parsed command-line settings;
  - `card.rs` — cards: reading and writing their line, moving between
    decks, deciding which are shown, and the text shown for each side;
  - `data.rs` — a data set: reading a file's text, writing it back, and
    choosing the next or a random card;
  - `clock.rs` — moments in UTC and the system clock;
  - `laws.rs` — what holds across functions (written data reads back,
    promotion is capped, demotion undoes promotion, ...).
- `tests/` — tests on concrete values.
- `app/` — files, standard output and the `clap` command-line definition.
