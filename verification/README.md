# genechart

Family-tree charts from GEDCOM 5.5.1 files. The library (`src/`) is written in Verus:
every function carries a contract over a mathematical model of its data, and Verus
proves that the code meets it. The command-line program (`app/`) reads the files,
calls the library and prints the chart as text.

## Library modules

- `genrep` — the genealogical representation: individuals and families, looked up by ID.
- `parser` — GEDCOM parsing as a line-by-line state machine (`parser::line` for one
  line), merging of further GEDCOM files through alias files (`parser::merge`), and the
  scope of a chart: descendants, ancestors or the whole forest (`parser::scope`).
- `layout` — the simple indented layout (`layout::simple`), its text rendering
  (`layout::text_chart`) and the shared helpers of the other layouts (`layout::common`,
  `boxes`, `boxed_couples`, `fancy`).
- `pref_tree` — preference documents as nested tables, merged key by key, with the
  trace lines of the merge and the detection of unknown keys; `pref_text` — the
  preference texts parsed as TOML (through the `toml` crate) into such trees, and all
  sources loaded from their texts in order of priority.
- `preferences`, `prefs_dump`, `photos`, `trace`, `timestamp`, `scene`, `text`, `util` —
  preference settings and `--pref` splitting, the colour fields of a preference dump,
  the photo index, diagnostics switches, calendar dates, label attributes and text
  helpers.

Besides the contracts, the library proves laws that relate its functions, among them:
parsing links every husband and wife to their families and keeps every ID unique;
scoping changes nothing but the
scope flags, always keeps the root and keeps to the generation limit; merging keeps the
main file's values and never duplicates a link; a later preference document overrides an
earlier one and leaves what it does not mention, and a later preference source wins
over an earlier one; the trees of a forest lie apart, larger trees first; the date
computed from a day count is the calendar date that many days after 1970-01-01.

## Layout of the crate

- `src/` — the verified library.
- `tests/` — tests of the library on concrete values.
- `app/` — the command-line program: arguments, reading files, output.
