# fxi

Indexed code search whose rules are proved with Verus: the query language, how
queries are planned and narrowed by trigrams, what a search finds and in what
order, the rules of a daemon that keeps indexes loaded and follows changes of
files, the command line and the interactive screen.

- `src/` is the library. `query/` has the grammar of queries (`grammar`), the
  parser that is proved to follow it (`parser`), plans, searches and ranking;
  `server/` the rules of the daemon; `tui/` those of the screen; `cli` and
  `output` those of the command line. Modules whose names end in `laws` state
  what holds of several functions together. One of them is that narrowing by an
  index loses no match, where the index lists every trigram of its files and the
  words of the query stand in a file but for the case of ASCII letters, which
  covers ASCII words and files and words as they are written. A match that
  only Unicode's lower case makes may be lost.
- `tests/` are ordinary tests of the library.
- `app/` is the program around it: files, sockets, the terminal, and scores in
  floating point.

What comes from other crates stands behind small functions marked
`external_body`, each with a comment that says what is relied on.
