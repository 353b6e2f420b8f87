# term_string

Strings with terminal styling attached: a `TermString` is a sequence of
pieces, each a text with a `TermStyle` of its own.

- `src/style.rs`: `TermStyle` (one slot per kind of terminal attribute),
  its constructors, `reset`, `or_style`, `add_style`, `+`, and the list of
  attributes it sets; with laws on how styles combine.
- `src/string.rs`: `TermString`, modelled as a sequence of (style, text)
  pieces: construction, byte length, emptiness, plain text, appending text
  or styled strings (blank pieces dropped, equal styles merged), restyling,
  and laws on what appending keeps.
- `app/lib.rs`: writing to terminals through the `term` crate and checking
  for ttys through `isatty`; what is written comes from the library.
- `tests/`: the documented examples and edge cases, run against the library.
