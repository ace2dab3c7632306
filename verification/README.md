# fancy_json

A small JSON reader and writer with no dependencies, whose grammar, value
tree and writers are verified with Verus.

- Integers stay integers: a literal's shape picks `Number::PosInt`,
  `Number::NegInt` or `Number::Float`, and an integer outside `u64`/`i64` is
  refused unless `ParseOptions::with_lossy_big_integers` asks for a float.
- The reader is strict RFC 8259 and refuses nesting past a cap
  (`DEFAULT_MAX_DEPTH`); the writers and `Value::dispose` use explicit
  worklists, not recursion.
- `Value` has no `Drop` of its own: an ordinary drop recurses once per level
  of nesting, so a value built in code with very deep nesting can overflow
  the stack when dropped. Release such a value with `Value::dispose`.
- `to_string` keeps insertion order, `to_string_pretty` indents,
  `to_string_canonical` sorts keys at every depth.

A float is held as its shortest round-trip decimal rendering (`FloatText`).
`FloatText::new` checks only the text's shape, so the caller hands it the
`Display` text of a finite `f64`; another text of that shape is kept, and
written, as given.
Turning a literal into that rendering is float arithmetic, which the library
leaves to its caller: `parse_step` reads a document against a table of
renderings and names the float literals the table does not cover. `app/`
holds `parse` and `parse_with`, which run that loop with `f64`, the float
conversions, and `Display` for errors.

## Layout

| file | what it holds |
|---|---|
| `src/value.rs` | the model (`JsonValue`), `Value`, `Number`, `FloatText`, `Object`; equality laws and object lookup laws |
| `src/access.rs` | reading a `Value` by kind, `From` impls, `Value::dispose`, `Value::is_well_formed` |
| `src/grammar.rs` | the reader's grammar as spec functions |
| `src/strict.rs` | a declarative RFC 8259 grammar, and the law that the reader accepts nothing outside it |
| `src/complete.rs` | laws: the reader accepts every such text it can represent, and a cap at the text's nesting accepts it |
| `src/parse.rs` | the reader, `parse_step`, `ParseOptions` |
| `src/render.rs` | each writer's text as spec functions |
| `src/write.rs` | the three writers |
| `src/error.rs` | `Error`, `ErrorKind`, positions in characters and bytes |
| `src/written.rs`, `src/escapes.rs` | what each piece of a writer's text reads back as |
| `src/readback.rs` | law: a writer's text reads back as the value |
| `src/sorting.rs` | the key order and the canonical sort |
| `src/canonical.rs` | laws: canonical output depends on the value alone and determines it, and is a fixed point |
| `src/layouts.rs` | law: indented output is compact output plus whitespace outside strings |
| `src/options.rs` | laws: a higher cap or lossy big integers never change an accepted document; a lower cap only refuses for depth |
| `src/text.rs` | characters of strings, and the std calls with trusted contracts |
