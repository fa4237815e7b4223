//! The report on an export, the comparison with a committed one, and how a run ends.

use m1_can::m1dbc::{parse_m1dbc, M1DbcFile};
use m1_can::report::{
    compare_committed, normalise_newlines, overall, pair_outcome, relative, report_counts,
    verify_written, written_counts, Verdict,
};
use m1_can::writer::write_dbc;
use m1_can::{ExportError, Outcome};

/// A small database as M1-Build stores one: Windows-1252, with the degree sign as
/// the single byte `0xB0`, and no declared encoding.
const SAMPLE: &[u8] = b"<ComponentStream>
 <List>
  <Component Classname=\"BuiltIn.CAN.DBC\" Name=\"Sample DBC\"/>
  <Component Classname=\"BuiltIn.CAN.Message\" Name=\"Sample DBC.Status\" Sender=\"ECU\">
   <Props CANId=\"3FD\" IdType=\"Standard\" DLC=\"8\"/>
  </Component>
  <Component Classname=\"BuiltIn.CAN.Signal\" Name=\"Sample DBC.Status.Yaw Rate\">
   <Props StartBit=\"0\" Length=\"10\" Type=\"s16\" Multiplier=\"5.00000000000000000e-01\" Offset=\"-1.00000000000000000e+02\">
    <Locale><Default Unit=\"\xB0/s\"/></Locale>
   </Props>
  </Component>
  <Component Classname=\"BuiltIn.CAN.Signal\" Name=\"Sample DBC.Status.Ready\">
   <Props StartBit=\"A\" Type=\"bool\"/>
  </Component>
  <Component Classname=\"BuiltIn.CAN.Message\" Name=\"Sample DBC.VECTOR INDEPENDENT SIG MSG\">
   <Props CANId=\"40000000\" IdType=\"Extended\" DLC=\"0\"/>
  </Component>
  <Component Classname=\"BuiltIn.CAN.Signal\" Name=\"Sample DBC.VECTOR INDEPENDENT SIG MSG.Orphan\">
   <Props StartBit=\"0\" Length=\"8\"/>
  </Component>
  <Component Classname=\"BuiltIn.CAN.Message\" Name=\"Sample DBC.No Id\">
   <Props DLC=\"8\"/>
  </Component>
 </List>
</ComponentStream>
";

/// The text of Windows-1252 bytes. Below `0x80` and from `0xA0` up, a byte is the
/// code point of its character, and the bytes used here all are.
fn decoded(bytes: &[u8]) -> String {
    bytes.iter().map(|&b| char::from(b)).collect()
}

fn sample() -> M1DbcFile {
    parse_m1dbc(&decoded(SAMPLE), "Sample DBC").expect("the sample must parse")
}

fn components(path: &str) -> Vec<String> {
    path.split('/').map(str::to_string).collect()
}

#[test]
fn the_report_puts_every_count_and_every_skipped_component_on_a_line() {
    let file = sample();
    let verdict = verify_written("Sample", &file, &write_dbc(&file)).expect("it must read back");
    assert_eq!(
        verdict.lines,
        "=== Sample ===\n  \
         source .m1dbc   : 3 messages, 3 signals\n  \
         convertible     : 1 messages, 2 signals (source minus skipped)\n  \
         written .dbc    : 1 messages, 2 signals\n  \
         round-tripped   : 1 messages, 2 signals\n  \
         skipped         : 4\n    \
         - BuiltIn.CAN.DBC 'Sample DBC' (not a CAN frame)\n    \
         - message 'Sample DBC.VECTOR INDEPENDENT SIG MSG' (VECTOR independent-signal container; \
         not representable by cantools, discarded on DBC load)\n    \
         - signal 'Sample DBC.VECTOR INDEPENDENT SIG MSG.Orphan' (in VECTOR independent-signal \
         container)\n    \
         - message 'Sample DBC.No Id' (no CANId)\n"
    );
    assert_eq!(verdict.outcome, Outcome::Success);
}

#[test]
fn a_source_with_nothing_to_skip_says_so() {
    let xml = "<ComponentStream><List/></ComponentStream>";
    let file = parse_m1dbc(xml, "Mod").expect("must parse");
    let verdict = report_counts("Mod", &file, (0, 0));
    assert_eq!(
        verdict.lines,
        "=== Mod ===\n  \
         source .m1dbc   : 0 messages, 0 signals\n  \
         convertible     : 0 messages, 0 signals (source minus skipped)\n  \
         written .dbc    : 0 messages, 0 signals\n  \
         round-tripped   : 0 messages, 0 signals\n  \
         skipped         : none\n"
    );
    assert_eq!(verdict.outcome, Outcome::Success);
}

#[test]
fn each_count_that_disagrees_has_its_line() {
    let mut file = sample();
    assert_eq!(written_counts(&file), (1, 2));

    let wrong = report_counts("Sample", &file, (1, 3));
    assert!(wrong
        .lines
        .ends_with("  - message 'Sample DBC.No Id' (no CANId)\n  !! round-trip mismatch vs written .dbc\n"));
    assert_eq!(wrong.outcome, Outcome::Mismatch);

    file.totals.convertible_signals = 5;
    let wrong = report_counts("Sample", &file, (1, 2));
    assert!(wrong
        .lines
        .ends_with("(no CANId)\n  !! written .dbc count != convertible source count\n"));
    assert_eq!(wrong.outcome, Outcome::Mismatch);

    let wrong = report_counts("Sample", &file, (0, 2));
    assert!(wrong.lines.ends_with(
        "  !! written .dbc count != convertible source count\n  !! round-trip mismatch vs written .dbc\n"
    ));
    assert_eq!(wrong.outcome, Outcome::Mismatch);
}

#[test]
fn a_written_file_that_is_no_database_is_an_error() {
    let err = verify_written("Sample", &sample(), "this is not a CAN database\n")
        .expect_err("nothing about it can be trusted");
    assert!(matches!(err, ExportError::Dbc(ref m) if !m.is_empty()), "{err:?}");
    assert!(err.message().starts_with("invalid .dbc text: "));
}

#[test]
fn a_freshly_written_export_is_in_sync() {
    let text = write_dbc(&sample());
    assert_eq!(
        compare_committed(&text, Some(&text), "dbc/Sample.dbc", "src/Sample DBC.m1dbc"),
        Verdict {
            lines: "  in sync         : yes\n".to_string(),
            outcome: Outcome::Success,
        }
    );
}

#[test]
fn a_check_passes_right_after_an_export() {
    let file = sample();
    let text = write_dbc(&file);
    let exported = verify_written("Sample", &file, &text).expect("it must read back");
    assert_eq!(overall(&vec![exported.outcome]), Outcome::Success);
    assert_eq!(write_dbc(&sample()), text, "a second export writes the same");
    let compared = compare_committed(&text, Some(&text), "o", "s");
    assert_eq!(
        overall(&vec![pair_outcome(exported.outcome, Some(compared.outcome))]),
        Outcome::Success
    );
}

#[test]
fn a_pair_ends_as_its_counts_or_as_its_comparison_where_that_is_worse() {
    let (good, bad) = (Outcome::Success, Outcome::Mismatch);
    assert_eq!(pair_outcome(good, None), good);
    assert_eq!(pair_outcome(bad, None), bad);
    assert_eq!(pair_outcome(good, Some(bad)), bad);
    assert_eq!(pair_outcome(bad, Some(good)), bad);
    assert_eq!(pair_outcome(good, Some(good)), good);
}

#[test]
fn a_committed_export_that_was_edited_is_out_of_sync() {
    let text = write_dbc(&sample());
    let edited = text.replace("Status", "Statuz");
    assert_eq!(
        compare_committed(&text, Some(&edited), "dbc/Sample.dbc", "src/Sample DBC.m1dbc"),
        Verdict {
            lines: "  !! dbc/Sample.dbc is out of sync with src/Sample DBC.m1dbc — run: m1-can export\n"
                .to_string(),
            outcome: Outcome::Mismatch,
        }
    );
}

#[test]
fn line_endings_are_not_drift() {
    let text = write_dbc(&sample());
    for stored in [text.replace('\n', "\r\n"), text.replace('\n', "\r")] {
        assert_eq!(
            compare_committed(&text, Some(&stored), "o", "s").outcome,
            Outcome::Success
        );
    }
    let longer = format!("{text}\n");
    assert_eq!(
        compare_committed(&text, Some(&longer), "o", "s").outcome,
        Outcome::Mismatch,
        "a blank line more is a difference in the text"
    );
}

#[test]
fn a_missing_committed_export_is_out_of_date() {
    let text = write_dbc(&sample());
    assert_eq!(
        compare_committed(&text, None, "o", "s").outcome,
        Outcome::Mismatch
    );
    assert_eq!(compare_committed("", None, "o", "s").outcome, Outcome::Success);
}

#[test]
fn every_line_ending_becomes_a_line_feed() {
    for (text, expected) in [
        ("", ""),
        ("a\nb", "a\nb"),
        ("a\r\nb\r\n", "a\nb\n"),
        ("a\rb\r", "a\nb\n"),
        ("\r\r\n\n\r", "\n\n\n\n"),
        ("°\r\n", "°\n"),
    ] {
        assert_eq!(normalise_newlines(text), expected, "{text:?}");
        assert_eq!(
            normalise_newlines(text),
            text.replace("\r\n", "\n").replace('\r', "\n")
        );
        assert_eq!(normalise_newlines(&normalise_newlines(text)), expected);
    }
}

#[test]
fn a_path_below_the_root_is_reported_from_there() {
    let root = components("repo/ev");
    assert_eq!(
        relative(&components("repo/ev/dbc/Sample.dbc"), &root),
        components("dbc/Sample.dbc")
    );
    assert_eq!(
        relative(&components("repo/evx/Sample.dbc"), &root),
        components("repo/evx/Sample.dbc")
    );
    assert_eq!(relative(&components("repo"), &root), components("repo"));
    assert!(relative(&root, &root).is_empty());
}

#[test]
fn the_worst_outcome_decides_the_exit_code() {
    assert_eq!(overall(&vec![]), Outcome::Success);
    assert_eq!(
        overall(&vec![Outcome::Success, Outcome::Mismatch, Outcome::Success]),
        Outcome::Mismatch
    );
    assert_eq!(
        overall(&vec![Outcome::Failed, Outcome::Mismatch, Outcome::Success]),
        Outcome::Failed
    );
    assert_eq!(
        [Outcome::Success, Outcome::Mismatch, Outcome::Failed].map(Outcome::code),
        [0, 1, 2]
    );
    let all = [Outcome::Success, Outcome::Mismatch, Outcome::Failed];
    for a in all {
        for b in all {
            assert_eq!(a <= b, a.code() <= b.code());
            assert_eq!(a == b, a.code() == b.code());
            assert_eq!(a.cmp(&b), a.code().cmp(&b.code()));
            assert_eq!(a.max(b), a.worst(b));
            assert_eq!(a.max(b).code(), a.code().max(b.code()));
        }
    }
    assert_eq!(Outcome::Success.worst(Outcome::Failed), Outcome::Failed);
    assert_eq!(Outcome::Failed.worst(Outcome::Mismatch), Outcome::Failed);
}
