//! Reading the `[dbc]` section of a config file.

use m1_can::config::{
    check_stem, is_absolute, load_dbc_config, read_dbc_config, DbcConfig, Setting, System,
    CONFIG_FILE,
};
use m1_can::order::{comes_no_later, sort_pairs};
use m1_can::ExportError;
use std::path::PathBuf;

/// The shape of a config, as documented.
const DOCUMENTED_EXAMPLE: &str = r#"[dbc]
src_dir = "UQR-EV/01.00/dbc"
out_dir = "dbc"

# source .m1dbc stem -> output .dbc stem
[dbc.exports]
"SBG DBC" = "SBG"
"Balls3EV25" = "Balls3EV25"
"#;

/// How messages name the config file.
fn path() -> String {
    format!("/repo/{CONFIG_FILE}")
}

fn load(text: &str) -> Result<Option<DbcConfig>, ExportError> {
    load_dbc_config(text, &path(), PathBuf::from("/repo"), System::Unix)
}

fn refusal(text: &str) -> String {
    match load(text).expect_err("an invalid [dbc] section must be an error") {
        ExportError::Config(message) => message,
        err => panic!("expected a config error, got {err:?}"),
    }
}

/// Assert the error names both the offending file and the offending key.
fn assert_config_error(text: &str, key: &str) {
    let message = refusal(text);
    assert!(
        message.contains(CONFIG_FILE),
        "the error must name the offending file: {message}"
    );
    assert!(
        message.contains(key),
        "the error must name the offending key {key}: {message}"
    );
}

/// A section that is sound but for its exports.
fn with_exports(lines: &str) -> String {
    format!("[dbc]\nsrc_dir = \"src\"\nout_dir = \"dbc\"\n\n[dbc.exports]\n{lines}\n")
}

fn text(s: &str) -> Setting {
    Setting::Text(s.to_string())
}

fn table(entries: Vec<(&str, Setting)>) -> Vec<(String, Setting)> {
    entries
        .into_iter()
        .map(|(key, setting)| (key.to_string(), setting))
        .collect()
}

#[test]
fn the_documented_example_parses_to_both_pairs_sorted() {
    let cfg = load(DOCUMENTED_EXAMPLE)
        .expect("the documented example must load")
        .expect("a [dbc] section is present");
    assert_eq!(cfg.src_dir, "UQR-EV/01.00/dbc");
    assert_eq!(cfg.out_dir, "dbc");
    assert_eq!(
        cfg.exports,
        vec![
            ("Balls3EV25".to_string(), "Balls3EV25".to_string()),
            ("SBG DBC".to_string(), "SBG".to_string()),
        ],
        "pairs must come back sorted by source stem, not in document order"
    );
    assert_eq!(
        cfg.root,
        PathBuf::from("/repo"),
        "root is the directory holding m1-tools.toml"
    );
}

#[test]
fn a_config_without_a_dbc_section_is_a_clean_no_op() {
    assert_eq!(
        load("[format]\nindent_style = \"tab\"\n"),
        Ok(None),
        "a repo that does not export DBCs must not be an error"
    );
    assert_eq!(load(""), Ok(None));
}

#[test]
fn a_missing_src_dir_is_an_error() {
    assert_config_error(
        "[dbc]\nout_dir = \"dbc\"\n\n[dbc.exports]\n\"A\" = \"A\"\n",
        "src_dir",
    );
}

#[test]
fn a_missing_out_dir_is_an_error() {
    assert_config_error(
        "[dbc]\nsrc_dir = \"src\"\n\n[dbc.exports]\n\"A\" = \"A\"\n",
        "out_dir",
    );
}

#[test]
fn an_empty_exports_table_is_an_error() {
    assert_config_error(
        "[dbc]\nsrc_dir = \"src\"\nout_dir = \"dbc\"\n\n[dbc.exports]\n",
        "exports",
    );
}

#[test]
fn a_missing_exports_table_is_an_error() {
    assert_config_error("[dbc]\nsrc_dir = \"src\"\nout_dir = \"dbc\"\n", "exports");
}

#[test]
fn a_src_dir_of_the_wrong_type_is_an_error() {
    assert_config_error(
        "[dbc]\nsrc_dir = 7\nout_dir = \"dbc\"\n\n[dbc.exports]\n\"A\" = \"A\"\n",
        "src_dir",
    );
}

#[test]
fn an_export_value_of_the_wrong_type_is_an_error() {
    assert_config_error(&with_exports("\"A\" = 7"), "A");
}

/// A path replaces its base when it is joined with an absolute one, so an absolute
/// output stem would make a check write outside its scratch directory.
#[test]
fn an_absolute_output_stem_is_refused() {
    // A TOML *literal* string: no escape processing, so the backslashes of a Windows
    // path survive as themselves.
    assert_config_error(&with_exports("\"A\" = '/tmp/m1dbc-escape/Sample'"), "A");
    assert_config_error(&with_exports("\"A\" = 'C:\\m1dbc-escape\\Sample'"), "A");
}

#[test]
fn an_output_stem_that_climbs_out_of_its_directory_is_refused() {
    assert_config_error(&with_exports("\"A\" = \"../A\""), "A");
}

#[test]
fn an_output_stem_that_is_only_a_parent_reference_is_refused() {
    // No separator and not absolute, so a "contains a separator" test would let this
    // through; `dbc/..` is the directory itself.
    assert_config_error(&with_exports("\"A\" = \"..\""), "A");
}

#[test]
fn a_source_stem_naming_a_subdirectory_is_refused() {
    // The source side is joined the same way, so it gets the same rule: a stem names
    // one file in `src_dir`, not a path from it.
    assert_config_error(&with_exports("\"nested/A\" = \"A\""), "nested/A");
}

#[test]
fn an_empty_output_stem_is_refused() {
    assert_config_error(&with_exports("\"A\" = \"\""), "A");
}

/// Two sources writing one file: the second export would replace the first, and a
/// check would compare both against the survivor.
#[test]
fn config_two_sources_sharing_an_output_stem_are_refused() {
    let message = refusal(&with_exports(
        "\"Alpha DBC\" = \"Shared\"\n\"Beta DBC\" = \"Shared\"",
    ));
    for named in ["Alpha DBC", "Beta DBC", "Shared", CONFIG_FILE] {
        assert!(
            message.contains(named),
            "the error must name both source stems and the file, missing {named}: {message}"
        );
    }
}

#[test]
fn an_empty_src_dir_is_refused() {
    assert_config_error(
        "[dbc]\nsrc_dir = \"\"\nout_dir = \"dbc\"\n\n[dbc.exports]\n\"A\" = \"A\"\n",
        "src_dir",
    );
}

#[test]
fn an_empty_out_dir_is_refused() {
    assert_config_error(
        "[dbc]\nsrc_dir = \"src\"\nout_dir = \"\"\n\n[dbc.exports]\n\"A\" = \"A\"\n",
        "out_dir",
    );
}

#[test]
fn an_absolute_out_dir_is_refused() {
    // An absolute directory would discard the repo root that the rest of the section
    // is written against.
    assert_config_error(
        "[dbc]\nsrc_dir = \"src\"\nout_dir = '/tmp/m1dbc-elsewhere'\n\n[dbc.exports]\n\"A\" = \"A\"\n",
        "out_dir",
    );
}

#[test]
fn a_dbc_key_that_is_not_a_table_is_an_error() {
    assert_config_error("dbc = \"yes\"\n", "dbc");
}

#[test]
fn unparseable_toml_is_an_error_rather_than_a_no_op() {
    let err = load("[dbc\nsrc_dir =\n").expect_err("a broken config must never read as absent");
    assert!(
        err.message().contains(CONFIG_FILE),
        "the error must name the offending file: {}",
        err.message()
    );
    assert!(err.message().starts_with("cannot parse /repo/m1-tools.toml: "));
}

#[test]
fn every_refusal_reads_exactly_like_this() {
    let dirs = "[dbc]\nsrc_dir = \"src\"\nout_dir = \"dbc\"\n";
    for (text, expected) in [
        ("dbc = \"yes\"\n".to_string(), "dbc must be a table, got string"),
        ("dbc = [1]\n".to_string(), "dbc must be a table, got array"),
        ("[dbc]\n".to_string(), "[dbc] src_dir is missing"),
        (
            "[dbc]\nsrc_dir = 1.5\n".to_string(),
            "dbc.src_dir must be a string, got float",
        ),
        (
            "[dbc]\nsrc_dir = {}\n".to_string(),
            "dbc.src_dir must be a string, got table",
        ),
        (
            "[dbc]\nsrc_dir = \"src\"\nout_dir = \"/a\\\"b\"\n".to_string(),
            "[dbc] out_dir \"/a\\\"b\" must be a non-empty path relative to the directory holding m1-tools.toml",
        ),
        (
            dirs.to_string(),
            "[dbc.exports] is missing; list at least one source stem = output stem pair",
        ),
        (
            format!("{dirs}exports = {{}}\n"),
            "[dbc.exports] is empty; list at least one source stem = output stem pair",
        ),
        (
            format!("{dirs}exports = true\n"),
            "dbc.exports must be a table, got boolean",
        ),
        (
            with_exports("\"A\" = 2020-01-01"),
            "dbc.exports.A must be a string, got datetime",
        ),
        (
            with_exports("\"A\" = 7"),
            "dbc.exports.A must be a string, got integer",
        ),
        (
            with_exports("\"..\" = \"A\""),
            "[dbc.exports] source stem \"..\" must be a bare file stem — one name, not empty, not absolute, and with no `/`, `\\` or `..`",
        ),
        (
            with_exports("\"A\" = 'x\\y'"),
            "[dbc.exports] output stem for \"A\", \"x\\\\y\" must be a bare file stem — one name, not empty, not absolute, and with no `/`, `\\` or `..`",
        ),
        (
            with_exports("\"B\" = \"S\"\n\"A\" = \"S\""),
            "[dbc.exports] \"A\" and \"B\" both export to \"S\"; output stems must be unique or one export overwrites the other",
        ),
    ] {
        assert_eq!(refusal(&text), format!("{}: {expected}", path()), "{text}");
    }
}

#[test]
fn the_first_thing_wrong_is_the_one_reported() {
    // `src_dir` comes before `out_dir`, which comes before the exports.
    assert!(refusal("[dbc]\nout_dir = 7\n").ends_with("[dbc] src_dir is missing"));
    assert!(refusal("[dbc]\nsrc_dir = \"a\"\nout_dir = 7\n").contains("out_dir"));
    // A value of the wrong type is reported before what is wrong with its key.
    assert!(refusal(&with_exports("\"a/b\" = 7")).contains("must be a string"));
}

#[test]
fn a_stem_is_one_file_name() {
    for stem in ["A", "PDM P14", "a..b", "...", ".hidden", "x.", "°"] {
        assert_eq!(check_stem(&path(), "source stem", stem, System::Unix), Ok(()), "{stem}");
    }
    for stem in ["", ".", "..", "/", "/A", "A/", "A/.", "./A", "a/../b", "\\", "..\\x", "C:\\x"] {
        assert!(check_stem(&path(), "source stem", stem, System::Unix).is_err(), "{stem}");
    }
}

#[test]
fn what_is_absolute_depends_on_the_system() {
    for (dir, unix, windows) in [
        ("", false, false),
        ("dbc", false, false),
        ("a/b", false, false),
        ("/", true, false),
        ("/x", true, false),
        ("\\x", false, false),
        ("C:", false, false),
        ("C:x", false, false),
        ("C:\\x", false, true),
        ("c:/", false, true),
        ("1:/", false, false),
        ("\\\\server\\share", false, true),
        ("\\\\server\\share\\x", false, true),
        ("\\\\server", false, false),
        ("\\\\server\\\\x", false, false),
        ("\\\\", false, false),
        ("\\\\.\\COM42", false, true),
        ("\\\\?\\x", false, true),
        ("//server/share", true, true),
    ] {
        assert_eq!(is_absolute(dir, System::Unix), unix, "{dir}");
        assert_eq!(is_absolute(dir, System::Windows), windows, "{dir}");
        // One of the two is the system that this runs on.
        let here = if PathBuf::from("C:\\").is_absolute() { windows } else { unix };
        assert_eq!(PathBuf::from(dir).is_absolute(), here, "{dir}");
    }
}

#[test]
fn a_directory_or_a_stem_is_refused_by_the_rules_of_the_system() {
    let with_dir = |dir: &str, system: System| {
        let text = format!(
            "[dbc]\nsrc_dir = '{dir}'\nout_dir = \"dbc\"\n\n[dbc.exports]\nA = \"B\"\n"
        );
        load_dbc_config(&text, &path(), PathBuf::from("/repo"), system)
    };
    assert!(with_dir("/x", System::Unix).is_err());
    assert!(with_dir("/x", System::Windows).is_ok());
    assert!(with_dir("C:\\x", System::Unix).is_ok());
    assert_eq!(
        with_dir("C:\\x", System::Windows),
        Err(ExportError::Config(format!(
            "{}: [dbc] src_dir \"C:\\\\x\" must be a non-empty path relative to the directory holding m1-tools.toml",
            path()
        )))
    );
    for stem in ["C:", "C:x"] {
        assert!(check_stem(&path(), "source stem", stem, System::Unix).is_ok());
        assert!(check_stem(&path(), "source stem", stem, System::Windows).is_err());
    }
    for stem in ["A", "a..b", "1:", "CC:", ":"] {
        assert!(check_stem(&path(), "source stem", stem, System::Windows).is_ok());
    }
    for stem in ["", ".", "..", "a/b", "a\\b"] {
        assert!(check_stem(&path(), "source stem", stem, System::Windows).is_err());
    }
}

#[test]
fn a_stem_of_plain_characters_is_quoted_as_it_stands() {
    let plain: String = (' '..='~').filter(|c| !"\"'\\".contains(*c)).collect();
    let err = check_stem("c.toml", "source stem", &plain, System::Unix).expect_err("it holds a /");
    assert!(err
        .message()
        .starts_with(&format!("c.toml: [dbc.exports] source stem \"{plain}\" must be ")));
}

#[test]
fn a_directory_may_have_several_components() {
    for dir in ["dbc", "a/b/c", "./dbc", "../dbc", "."] {
        let cfg = load(&format!(
            "[dbc]\nsrc_dir = \"{dir}\"\nout_dir = \"{dir}\"\n[dbc.exports]\nA = \"B\"\n"
        ))
        .expect("a relative directory is legal")
        .expect("a [dbc] section is present");
        assert_eq!((cfg.src_dir.as_str(), cfg.out_dir.as_str()), (dir, dir));
    }
}

#[test]
fn a_plain_document_is_read_like_a_parsed_one() {
    let exports = table(vec![("Zeta", text("Z")), ("Alpha", text("A"))]);
    let document = table(vec![
        ("format", Setting::Other("boolean".to_string())),
        (
            "dbc",
            Setting::Table(table(vec![
                ("exports", Setting::Table(exports)),
                ("out_dir", text("out")),
                ("src_dir", text("src")),
            ])),
        ),
    ]);
    assert_eq!(
        read_dbc_config(&document, "c.toml", PathBuf::from("/r"), System::Unix),
        Ok(Some(DbcConfig {
            src_dir: "src".to_string(),
            out_dir: "out".to_string(),
            exports: vec![
                ("Alpha".to_string(), "A".to_string()),
                ("Zeta".to_string(), "Z".to_string()),
            ],
            root: PathBuf::from("/r"),
        }))
    );
    assert_eq!(
        read_dbc_config(&table(vec![]), "c.toml", PathBuf::from("/r"), System::Unix),
        Ok(None)
    );
    assert_eq!(
        read_dbc_config(
            &table(vec![("dbc", Setting::Other("integer".to_string()))]),
            "c.toml",
            PathBuf::from("/r"),
            System::Unix
        ),
        Err(ExportError::Config(
            "c.toml: dbc must be a table, got integer".to_string()
        ))
    );
}

#[test]
fn the_order_of_the_exports_in_the_file_does_not_matter() {
    let forwards = load(&with_exports("A = \"1\"\nB = \"2\"\nC = \"3\""));
    let backwards = load(&with_exports("C = \"3\"\nB = \"2\"\nA = \"1\""));
    assert!(matches!(forwards, Ok(Some(_))));
    assert_eq!(forwards, backwards);
}

#[test]
fn source_stems_strictly_increase_and_a_repeated_key_is_no_toml() {
    let cfg = load(&with_exports("b = \"1\"\na = \"2\"\n\"a b\" = \"3\"\nB = \"4\""))
        .expect("must load")
        .expect("a [dbc] section is present");
    let sources: Vec<&str> = cfg.exports.iter().map(|(s, _)| s.as_str()).collect();
    assert_eq!(sources, ["B", "a", "a b", "b"]);
    assert!(cfg.exports.windows(2).all(|w| w[0].0 < w[1].0));
    assert!(refusal(&with_exports("a = \"1\"\na = \"2\"")).starts_with("cannot parse "));
}

#[test]
fn strings_are_ordered_as_the_standard_library_orders_them() {
    let samples = ["", "A", "AB", "B", "a", "ab", "é", "z", "°", "\u{ffff}", "\u{10000}"];
    for a in samples {
        for b in samples {
            assert_eq!(comes_no_later(a, b), a <= b, "{a:?} {b:?}");
        }
    }
}

#[test]
fn pairs_are_sorted_by_the_first_string_and_then_by_the_second() {
    let mut pairs: Vec<(String, String)> = [("b", "2"), ("a", "9"), ("b", "1"), ("", "x"), ("a", "9")]
        .iter()
        .map(|(x, y)| (x.to_string(), y.to_string()))
        .collect();
    let sorted = sort_pairs(pairs.clone());
    pairs.sort();
    assert_eq!(sorted, pairs);
}
