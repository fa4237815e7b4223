# m1-can

Export a MoTeC M1 project's `.m1dbc` CAN databases as standard Vector `.dbc` files,
and tell when a committed export is stale. The logic is a Verus library: what each
function returns is stated in its contract and proved.

## Layout

| Path | What it holds |
| --- | --- |
| `src/config.rs` | the `[dbc]` section of `m1-tools.toml`: which files are exported, and where |
| `src/xml.rs` | an XML document as plain values |
| `src/m1dbc.rs`, `src/names.rs` | from a document to messages, signals and notes on what was left out |
| `src/writer.rs` | the text of a `.dbc` |
| `src/roundtrip.rs` | reading `.dbc` text back with an independent parser |
| `src/report.rs` | the report on an export, the comparison with a committed one, the outcome of a run |
| `src/text.rs`, `src/number.rs`, `src/order.rs` | characters, numbers in text, the order of strings |
| `app/` | the `m1-can` command: arguments, files, rounding of scales and offsets |
| `tests/` | tests of the library |

Three outside crates are called from `src/`, each behind a function whose contract is
taken on trust: `roxmltree` parses XML, `toml` parses the config, `can-dbc` reads a
written file back. Two functions of the standard library are trusted in the same way: the
`{:?}` form of a string and `String::push`. Each contract on an outside crate gives the result a name as a function of the text; the
functions beside them take such a result as a plain value and are proved for every one.

The laws of the library are the public proof functions whose names begin with `law_`.

## Configuration

```toml
[dbc]
src_dir = "UQR-EV/01.00/dbc"   # where the .m1dbc sources live
out_dir = "dbc"                # where the .dbc exports go

# source .m1dbc stem -> output .dbc stem
[dbc.exports]
"Balls3EV25" = "Balls3EV25"
"SBG DBC" = "SBG"
```

Both directories are relative to the directory that holds `m1-tools.toml`. Stems are
bare file names, and no two pairs share an output stem.

## Use

```sh
m1-can export           # regenerate the .dbc exports
m1-can export --check   # are they up to date? (writes nothing)
```

| Exit code | Meaning |
| --- | --- |
| `0` | written; or with `--check`, everything in sync; or nothing to export |
| `1` | a count or round-trip mismatch, or a committed export that is out of date |
| `2` | the config, a source, or a generated file could not be read or parsed |
