//! Reading `.m1dbc` text.

use m1_can::m1dbc::{parse_m1dbc, M1DbcFile, SourceCounts};
use m1_can::names::sanitize;
use m1_can::ExportError;

/// A small database as M1-Build stores one: Windows-1252, with the degree sign as
/// the single byte `0xB0`, and no declared encoding.
const SAMPLE: &[u8] = b"<ComponentStream>
 <List>
  <Component Classname=\"BuiltIn.CAN.DBC\" Name=\"Sample DBC\"/>
  <Component Classname=\"BuiltIn.CAN.Message\" Name=\"Sample DBC.Status\" Sender=\"ECU\">
   <Props CANId=\"3FD\" IdType=\"Standard\" DLC=\"8\"/>
  </Component>
  <Component Classname=\"BuiltIn.CAN.Signal\" Name=\"Sample DBC.Status.Yaw Rate\">
   <Props StartBit=\"0\" Length=\"10\" Type=\"s16\" Multiplier=\"5.00000000000000000e-01\" Offset=\"-1.00000000000000000e+02\">
    <Locale><Default Unit=\"\xB0/s\"/></Locale>
   </Props>
  </Component>
  <Component Classname=\"BuiltIn.CAN.Signal\" Name=\"Sample DBC.Status.Ready\">
   <Props StartBit=\"A\" Type=\"bool\"/>
  </Component>
  <Component Classname=\"BuiltIn.CAN.Message\" Name=\"Sample DBC.VECTOR INDEPENDENT SIG MSG\">
   <Props CANId=\"40000000\" IdType=\"Extended\" DLC=\"0\"/>
  </Component>
  <Component Classname=\"BuiltIn.CAN.Signal\" Name=\"Sample DBC.VECTOR INDEPENDENT SIG MSG.Orphan\">
   <Props StartBit=\"0\" Length=\"8\"/>
  </Component>
  <Component Classname=\"BuiltIn.CAN.Message\" Name=\"Sample DBC.No Id\">
   <Props DLC=\"8\"/>
  </Component>
 </List>
</ComponentStream>
";

/// The text of Windows-1252 bytes. Below `0x80` and from `0xA0` up, a byte is the
/// code point of its character, and the bytes used here all are.
fn decoded(bytes: &[u8]) -> String {
    bytes.iter().map(|&b| char::from(b)).collect()
}

/// The number that a text stands for.
fn number(text: &str) -> f64 {
    text.parse().expect("a number")
}

fn sample() -> M1DbcFile {
    parse_m1dbc(&decoded(SAMPLE), "Sample DBC").expect("the sample fixture must parse")
}

#[test]
fn the_fixture_is_stored_as_windows_1252_with_no_encoding_declaration() {
    // A bare 0xB0 (degree sign) is invalid UTF-8, so the bytes have to be decoded
    // before they are parsed.
    assert!(
        SAMPLE.windows(2).any(|w| w == [0xB0, b'/']),
        "fixture must carry the degree sign as the single byte 0xB0"
    );
    assert!(
        !SAMPLE.windows(9).any(|w| w == b"encoding="),
        "no declared encoding: real .m1dbc files open with <?xml version=\"1.0\"?> \
         and name no encoding, so the bytes alone decide (this fixture goes \
         further and omits the declaration entirely — see \
         parses_a_document_carrying_the_real_files_xml_declaration)"
    );
}

/// Real `.m1dbc` files open with `<?xml version="1.0"?>`; every fixture in
/// this module starts at an element, so nothing else feeds the parser a
/// prolog-bearing document.
#[test]
fn parses_a_document_carrying_the_real_files_xml_declaration() {
    let xml = format!("<?xml version=\"1.0\"?>\n{NESTED}");
    let f = parse_m1dbc(&xml, "Mod").expect("a declaration must not stop the parse");
    assert_eq!(f.messages.len(), 1, "messages: {:?}", f.messages);
    assert_eq!(f.messages[0].name, "Frame");
    assert_eq!(f.messages[0].signals.len(), 3);
}

#[test]
fn decodes_the_windows_1252_degree_byte_into_a_unit_string() {
    let f = sample();
    assert_eq!(
        f.messages[0].signals[0].unit.as_deref(),
        Some("°/s"),
        "0xB0 must decode to U+00B0, not U+FFFD"
    );
}

#[test]
fn keeps_only_the_one_convertible_message_from_the_fixture() {
    let f = sample();
    assert_eq!(f.messages.len(), 1, "messages: {:?}", f.messages);
    let m = &f.messages[0];
    assert_eq!(
        m.name, "Status",
        "file prefix must be stripped and sanitized"
    );
    assert_eq!(m.frame_id, 0x3FD, "CANId is hexadecimal");
    assert!(
        !m.is_extended,
        "IdType=\"Standard\" is not an extended frame"
    );
    assert_eq!(m.dlc, 8, "DLC is decimal");
    assert_eq!(
        m.sender, "ECU",
        "Sender lives on the Component, not the Props"
    );
}

#[test]
fn parses_both_signals_in_document_order() {
    let f = sample();
    let sigs = &f.messages[0].signals;
    assert_eq!(sigs.len(), 2, "signals: {sigs:?}");

    let yaw = &sigs[0];
    assert_eq!(
        yaw.name, "Yaw_Rate",
        "signal name is the segment after the last '.'"
    );
    assert_eq!(yaw.start_bit, 0);
    assert_eq!(yaw.length, 16, "Length=\"10\" is hexadecimal");
    assert!(yaw.little_endian, "Endian defaults to Little");
    assert!(yaw.is_signed, "Type=\"s16\" starts with 's'");
    assert!(!yaw.is_float);
    assert_eq!(number(&yaw.scale), 0.5);
    assert_eq!(number(&yaw.offset), -100.0);
    assert_eq!(yaw.unit.as_deref(), Some("°/s"));
    assert_eq!(yaw.receiver, "Vector__XXX", "absent Receivers defaults");

    let ready = &sigs[1];
    assert_eq!(ready.name, "Ready");
    assert_eq!(ready.start_bit, 10, "StartBit=\"A\" is hexadecimal");
    assert_eq!(ready.length, 1, "Type=\"bool\" forces length 1");
    assert!(!ready.is_signed);
    assert!(!ready.is_float);
    assert_eq!(number(&ready.scale), 1.0, "absent Multiplier defaults to 1");
    assert_eq!(number(&ready.offset), 0.0, "absent Offset defaults to 0");
    assert_eq!(ready.unit, None, "no <Locale><Default Unit>");
}

#[test]
fn counts_the_source_and_the_convertible_subset() {
    let f = sample();
    assert_eq!(
        f.totals,
        SourceCounts {
            total_messages: 3,
            total_signals: 3,
            convertible_messages: 1,
            convertible_signals: 2,
        },
        "the container and the no-CANId message are both inconvertible"
    );
}

#[test]
fn convertible_counts_equal_what_was_actually_kept() {
    // The invariant the `--check` report leans on: everything counted as
    // convertible is a message/signal the writer will emit.
    let f = sample();
    assert_eq!(f.totals.convertible_messages, f.messages.len());
    assert_eq!(
        f.totals.convertible_signals,
        f.messages.iter().map(|m| m.signals.len()).sum::<usize>()
    );
}

#[test]
fn records_one_skip_note_per_dropped_component_in_document_order() {
    let f = sample();
    assert_eq!(
        f.skipped,
        vec![
            "BuiltIn.CAN.DBC 'Sample DBC' (not a CAN frame)".to_string(),
            "message 'Sample DBC.VECTOR INDEPENDENT SIG MSG' (VECTOR independent-signal \
             container; not representable by cantools, discarded on DBC load)"
                .to_string(),
            "signal 'Sample DBC.VECTOR INDEPENDENT SIG MSG.Orphan' (in VECTOR \
             independent-signal container)"
                .to_string(),
            "message 'Sample DBC.No Id' (no CANId)".to_string(),
        ],
        "every dropped component has its note, in document order"
    );
}

#[test]
fn sanitize_matches_the_python_reference_table() {
    for (input, expected) in [
        ("Sample DBC.Status", "Status"),
        ("DBC.Weird--Name!", "Weird_Name"),
        ("", "Unnamed"),
        ("9Lives", "_9Lives"),
    ] {
        assert_eq!(
            sanitize(input, "Sample DBC"),
            expected,
            "sanitize({input:?}, \"Sample DBC\")"
        );
    }
}

#[test]
fn sanitize_strips_only_the_first_matching_prefix() {
    // Only the first prefix that matches is taken off, so a name that starts
    // with BOTH prefixes keeps the second one.
    assert_eq!(sanitize("Mod.DBC.Thing", "Mod"), "DBC_Thing");
}

const NESTED: &str = r#"<DBC>
 <ComponentStream>
  <List>
   <Component Classname="BuiltIn.CAN.Message" Name="Mod.Frame">
<Props CANId="1A" IdType="Extended" DLC="10"/>
   </Component>
   <Component Classname="BuiltIn.CAN.Signal" Name="Mod.Frame.A" Receivers="Logger">
<Props StartBit="B" Length="F" Type="" Endian="Big"/>
   </Component>
   <Component Classname="BuiltIn.CAN.Signal" Name="Mod.Frame.B" Endian="Big">
<Props Type="f32" Length="20"/>
   </Component>
   <Component Classname="BuiltIn.CAN.Signal" Name="Mod.Frame.C">
<Props Type="bool" Length="20"/>
   </Component>
  </List>
 </ComponentStream>
</DBC>
"#;

#[test]
fn finds_components_under_a_nested_component_stream() {
    // Real .m1dbc files wrap the stream in a <DBC> root; the fixture is a
    // bare <ComponentStream>. Both must work.
    let f = parse_m1dbc(NESTED, "Mod").expect("must parse");
    assert_eq!(f.messages.len(), 1);
    assert_eq!(f.messages[0].name, "Frame");
}

#[test]
fn applies_every_attribute_default_and_variant() {
    let f = parse_m1dbc(NESTED, "Mod").expect("must parse");
    let m = &f.messages[0];
    assert_eq!(m.frame_id, 0x1A);
    assert!(m.is_extended, "IdType=\"Extended\"");
    assert_eq!(m.dlc, 10, "DLC=\"10\" is DECIMAL ten, not hex sixteen");
    assert_eq!(m.sender, "Vector__XXX", "absent Sender defaults");

    let a = &m.signals[0];
    assert_eq!(a.start_bit, 11, "StartBit=\"B\"");
    assert_eq!(a.length, 15, "Length=\"F\"");
    assert!(!a.is_signed, "Type=\"\" falls back to u32");
    assert!(!a.is_float);
    assert!(!a.little_endian, "Props Endian=\"Big\"");
    assert_eq!(a.receiver, "Logger");

    let b = &m.signals[1];
    assert_eq!(b.start_bit, 0, "absent StartBit defaults to 0");
    assert_eq!(b.length, 0x20, "Length=\"20\" is hexadecimal");
    assert!(b.is_float, "Type=\"f32\" starts with 'f'");
    assert!(!b.is_signed);
    assert!(!b.little_endian, "Component Endian=\"Big\"");

    let c = &m.signals[2];
    assert_eq!(c.length, 1, "bool ignores the Length attribute entirely");
    assert!(c.little_endian, "absent Endian defaults to Little");
}

#[test]
fn drops_a_signal_whose_parent_message_is_absent() {
    let xml = r#"<ComponentStream><List>
   <Component Classname="BuiltIn.CAN.Signal" Name="Mod.Ghost.Sig"><Props/></Component>
</List></ComponentStream>"#;
    let f = parse_m1dbc(&xml, "Mod").expect("must parse");
    assert!(f.messages.is_empty());
    assert_eq!(f.totals.total_signals, 1);
    assert_eq!(
        f.totals.convertible_signals, 0,
        "a signal with no surviving parent message is never written"
    );
}

#[test]
fn a_signal_whose_message_is_absent_is_noted() {
    let xml = r#"<ComponentStream><List><Component Classname="BuiltIn.CAN.Signal" Name="Mod.Ghost.Sig"><Props/></Component></List></ComponentStream>"#;
    let f = parse_m1dbc(xml, "Mod").expect("must parse");
    assert!(f.messages.is_empty());
    assert_eq!(
        f.totals,
        SourceCounts {
            total_messages: 0,
            total_signals: 1,
            convertible_messages: 0,
            convertible_signals: 0,
        }
    );
    assert_eq!(
        f.skipped,
        vec!["signal 'Mod.Ghost.Sig' (its message is not exported)".to_string()],
        "one note per dropped component"
    );
}

#[test]
fn a_dropped_signal_is_noted_at_its_own_place() {
    // The signal of a message without a `CANId` comes before that message, the other
    // signal is attached to a message that follows it.
    let xml = r#"<ComponentStream><List>
   <Component Classname="BuiltIn.CAN.DBC" Name="Mod"/>
   <Component Classname="BuiltIn.CAN.Signal" Name="Mod.Bare.Sig"><Props/></Component>
   <Component Classname="BuiltIn.CAN.Signal" Name="Mod.Good.Sig"><Props/></Component>
   <Component Classname="BuiltIn.CAN.Message" Name="Mod.Bare"><Props/></Component>
   <Component Classname="BuiltIn.CAN.Message" Name="Mod.Good"><Props CANId="1"/></Component>
</List></ComponentStream>"#;
    let f = parse_m1dbc(xml, "Mod").expect("must parse");
    assert_eq!(
        f.skipped,
        vec![
            "BuiltIn.CAN.DBC 'Mod' (not a CAN frame)".to_string(),
            "signal 'Mod.Bare.Sig' (its message is not exported)".to_string(),
            "message 'Mod.Bare' (no CANId)".to_string(),
        ]
    );
    assert_eq!(f.messages.len(), 1);
    assert_eq!(f.messages[0].signals.len(), 1);
    // Five components: three notes, one message, one attached signal.
    assert_eq!(f.totals.total_messages, 2);
    assert_eq!(f.totals.convertible_messages, 1);
    assert_eq!(f.totals.total_signals, 2);
    assert_eq!(f.totals.convertible_signals, 1);
}

#[test]
fn attaches_a_signal_that_precedes_its_message() {
    let xml = r#"<ComponentStream><List>
   <Component Classname="BuiltIn.CAN.Signal" Name="Mod.Late.Sig"><Props Length="4"/></Component>
   <Component Classname="BuiltIn.CAN.Message" Name="Mod.Late"><Props CANId="7"/></Component>
</List></ComponentStream>"#;
    let f = parse_m1dbc(&xml, "Mod").expect("must parse");
    assert_eq!(f.messages.len(), 1);
    assert_eq!(f.messages[0].signals.len(), 1, "the <List> is unordered");
    assert_eq!(f.messages[0].dlc, 8, "absent DLC defaults to 8");
}

#[test]
fn a_component_with_no_classname_is_noted_as_unknown() {
    let xml = r#"<ComponentStream><List><Component Name="Odd"/></List></ComponentStream>"#;
    let f = parse_m1dbc(&xml, "Mod").expect("must parse");
    assert_eq!(
        f.skipped,
        vec!["unknown 'Odd' (not a CAN frame)".to_string()]
    );
}

#[test]
fn rejects_input_that_is_not_xml() {
    let err = parse_m1dbc("not xml at all", "Mod").expect_err("must refuse");
    assert!(
        matches!(err, ExportError::Xml(_)),
        "expected an Xml error, got {err:?}"
    );
}

#[test]
fn rejects_a_can_id_that_is_not_hexadecimal() {
    let xml = r#"<ComponentStream><List>
   <Component Classname="BuiltIn.CAN.Message" Name="Mod.Bad"><Props CANId="3FQ"/></Component>
</List></ComponentStream>"#;
    assert_eq!(
        parse_m1dbc(&xml, "Mod"),
        Err(ExportError::Invalid(
            "message 'Mod.Bad': CANId \"3FQ\" is not a hexadecimal integer".to_string()
        )),
        "refuse rather than guess"
    );
}

#[test]
fn rejects_a_dlc_that_is_not_decimal() {
    let xml = r#"<ComponentStream><List>
   <Component Classname="BuiltIn.CAN.Message" Name="Mod.Bad"><Props CANId="7" DLC="A"/></Component>
</List></ComponentStream>"#;
    assert_eq!(
        parse_m1dbc(&xml, "Mod"),
        Err(ExportError::Invalid(
            "message 'Mod.Bad': DLC \"A\" is not a decimal integer".to_string()
        )),
        "DLC is the one decimal field; \"A\" must not silently mean 10"
    );
}

#[test]
fn rejects_a_multiplier_that_is_not_a_number() {
    let xml = r#"<ComponentStream><List>
   <Component Classname="BuiltIn.CAN.Message" Name="Mod.M"><Props CANId="7"/></Component>
   <Component Classname="BuiltIn.CAN.Signal" Name="Mod.M.S"><Props Multiplier=""/></Component>
</List></ComponentStream>"#;
    assert_eq!(
        parse_m1dbc(&xml, "Mod"),
        Err(ExportError::Invalid(
            "signal 'Mod.M.S': Multiplier \"\" is not a number".to_string()
        ))
    );
}

#[test]
fn rejects_a_component_with_no_props() {
    let xml = r#"<ComponentStream><List>
   <Component Classname="BuiltIn.CAN.Message" Name="Mod.Bare"/>
</List></ComponentStream>"#;
    assert_eq!(
        parse_m1dbc(&xml, "Mod"),
        Err(ExportError::Invalid(
            "message 'Mod.Bare': missing <Props>".to_string()
        ))
    );
}

#[test]
fn parses_full_precision_scale_without_rounding() {
    // Files store Multiplier/Offset in %.17e form; these are f32
    // values widened to f64 and must survive verbatim.
    let xml = r#"<ComponentStream><List>
   <Component Classname="BuiltIn.CAN.Message" Name="Mod.M"><Props CANId="7"/></Component>
   <Component Classname="BuiltIn.CAN.Signal" Name="Mod.M.S">
<Props Multiplier="1.74532925199432955e-03" Offset="0.00000000000000000e+00"/>
   </Component>
</List></ComponentStream>"#;
    let f = parse_m1dbc(&xml, "Mod").expect("must parse");
    assert_eq!(number(&f.messages[0].signals[0].scale), 0.0017453292519943296);
    assert_eq!(number(&f.messages[0].signals[0].offset), 0.0);
}

#[test]
fn export_error_displays_a_lowercase_sentence() {
    assert_eq!(
        ExportError::Xml("bad".into()).message(),
        "invalid .m1dbc XML: bad"
    );
    assert_eq!(ExportError::Invalid("boom".into()).message(), "boom");
    // Every variant, so a new one cannot be added without deciding how it
    // reads. `Dbc` wraps a third-party parser's diagnosis, which is the one
    // place the crate's one-sentence rule bends: the prefix is still a
    // lowercase sentence opener, the detail is the parser's own.
    assert_eq!(
        ExportError::Dbc("bad".into()).message(),
        "invalid .dbc text: bad"
    );
    assert_eq!(
        ExportError::Config("m1-tools.toml: [dbc] src_dir is missing".into()).message(),
        "m1-tools.toml: [dbc] src_dir is missing"
    );
}
