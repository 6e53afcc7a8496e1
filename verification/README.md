# glossa

Tools for constructed languages, with their behaviour stated in contracts and proved by Verus.

## Layout

- `src/` — the verified library.
  - `diakritikos` — placing diacritics in the slots around a character: every diacritic where it
    can be drawn, and among all such placements one of least cost.
  - `episemos` — context-free grammars: rewriting a word by a production, and parsing a word
    into every syntax tree the grammar gives it.
  - `metaphrastees` — finite automata (NFA, ε-NFA, DFA), compiling one kind into another without
    changing the language accepted, and merging automata.
  - `phonetikos` — phones (vowels and consonants) and their IPA grapheme clusters; lenition and
    fortition.
  - `phonologia` — phonemes and the conditions under which an allophone is used.
  - `suntaxis` — source locations and spans, and the lexer of the grammar notation.
  - `paideia` — the locations of a site's pages, the walk through a site's directories, the plan
    for building a site on disk, escaping text for HTML and Markdown, writing sections,
    lists and tables, and writing plain text with indentation and collapsed blank lines.
  - `zographia` — sizing a canvas within its parent element.
  - `text` — writing characters and numbers into strings.
- `tests/` — tests run against the compiled library.
- `app/` — what runs outside the verified library: building a site on disk, and the canvas in a
  web page.
