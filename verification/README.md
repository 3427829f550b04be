# winnow

Winnow writes YARA rules for stripped Rust malware. It takes the author
functions that `unhusk` attributes to a sample, reads their bytes from the ELF
file, and emits:

- a Tier 2 rule: the author panic-path strings and exact call-site code atoms;
- with `--tier1`, a Tier 1 rule when it is earned: masked code atoms reduced
  against a benign corpus, and rare non-panic strings from *other* functions.

## Layout

- `src/` is the library, written in Verus. Every executable function carries a
  contract that Verus proves; the laws the library keeps are public proof
  functions next to the code they are about.
  - `x86` decodes instructions with `iced-x86` into plain facts.
  - `elfview` reads sections and relative relocations with `object`.
  - `mask`, `code`, `behavior` derive masked atoms, call-site atoms and
    behavioral strings from a function's bytes.
  - `rarity` searches the benign corpus (with `memchr`) and reduces atoms.
  - `plan` makes the decisions of a run (including when to refuse a
    sample); `emit` writes rule text; `ingest` holds the census, its address
    parser, and which `unhusk` binary to run next; `digest` fingerprints
    the sample with `sha2`; `order` and `text` are small helpers.
- `app/` is the command-line program: it spawns `unhusk` as the library
  directs, reads files, reports and writes the rules.
- `tests/` runs the library on concrete inputs.
