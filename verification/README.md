# pulse_pyhocon

A HOCON parser and substitution resolver, verified with Verus, behind a Python extension
module that stands in for pyhocon's `ConfigFactory.parse_string` on the inputs it handles.
Whatever it does not handle (or cannot resolve exactly as pyhocon would) it reports as
unsupported, and the Python side hands the text to pyhocon.

## Layout

- `src/` — the verified library.
  - `text`, `scalar`, `lexer`: characters, scalar typing, tokens (keys, quoted strings,
    substitutions, comments).
  - `parser`, `assemble`, `inclusion`: the reader, from text to a tree of values; dotted keys,
    deep merges and included files are applied as they are met.
  - `merge`: the deep merge and self-references.
  - `resolve`: substitutions, concatenations and their rendering.
  - `document`: reading and resolving whole documents.
  - `keyed`, `tables`, `braced`, `laws`: properties of the library as a whole (objects never
    hold a key twice; supplying more included files changes no reading that did not ask for
    them; a document reads the same between braces; what merging, concatenation and
    substitution give).
- `tests/` — tests of the library.
- `app/` — the Python module (PyO3): reads included files and the environment, renders
  floating-point literals, and converts the resolved tree into Python objects.

Included files are read by the caller: when a document includes a file that the supplied
table lacks, reading ends with `HoconError::NeedFile`; the caller reads the file, adds it to
the table and reads the document again.
