//! Rendering a database as `.dbc` text.

use m1_can::m1dbc::{parse_m1dbc, M1DbcFile, M1Message, M1Signal, SourceCounts};
use m1_can::writer::{emitted_id, nodes, write_dbc};

/// A small database as M1-Build stores one: Windows-1252, with the degree sign as
/// the single byte `0xB0`, and no declared encoding.
const SAMPLE: &[u8] = b"<ComponentStream>
 <List>
  <Component Classname=\"BuiltIn.CAN.DBC\" Name=\"Sample DBC\"/>
  <Component Classname=\"BuiltIn.CAN.Message\" Name=\"Sample DBC.Status\" Sender=\"ECU\">
   <Props CANId=\"3FD\" IdType=\"Standard\" DLC=\"8\"/>
  </Component>
  <Component Classname=\"BuiltIn.CAN.Signal\" Name=\"Sample DBC.Status.Yaw Rate\">
   <Props StartBit=\"0\" Length=\"10\" Type=\"s16\" Multiplier=\"5.00000000000000000e-01\" Offset=\"-1.00000000000000000e+02\">
    <Locale><Default Unit=\"\xB0/s\"/></Locale>
   </Props>
  </Component>
  <Component Classname=\"BuiltIn.CAN.Signal\" Name=\"Sample DBC.Status.Ready\">
   <Props StartBit=\"A\" Type=\"bool\"/>
  </Component>
  <Component Classname=\"BuiltIn.CAN.Message\" Name=\"Sample DBC.VECTOR INDEPENDENT SIG MSG\">
   <Props CANId=\"40000000\" IdType=\"Extended\" DLC=\"0\"/>
  </Component>
  <Component Classname=\"BuiltIn.CAN.Signal\" Name=\"Sample DBC.VECTOR INDEPENDENT SIG MSG.Orphan\">
   <Props StartBit=\"0\" Length=\"8\"/>
  </Component>
  <Component Classname=\"BuiltIn.CAN.Message\" Name=\"Sample DBC.No Id\">
   <Props DLC=\"8\"/>
  </Component>
 </List>
</ComponentStream>
";

/// The text of Windows-1252 bytes. Below `0x80` and from `0xA0` up, a byte is the
/// code point of its character, and the bytes used here all are.
fn decoded(bytes: &[u8]) -> String {
    bytes.iter().map(|&b| char::from(b)).collect()
}

/// Round every scale and offset to the nearest machine number, and show each in the
/// shortest form that reads back as that number.
fn rendered(mut file: M1DbcFile) -> M1DbcFile {
    for message in &mut file.messages {
        for signal in &mut message.signals {
            signal.scale = shortest(&signal.scale);
            signal.offset = shortest(&signal.offset);
        }
    }
    file
}

fn shortest(text: &str) -> String {
    text.parse::<f64>().expect("a number").to_string()
}

fn sample() -> M1DbcFile {
    rendered(parse_m1dbc(&decoded(SAMPLE), "Sample DBC").expect("the sample fixture must parse"))
}

/// An unsigned little-endian integer signal with no unit — the baseline the
/// per-field tests vary one attribute at a time from.
fn sig(name: &str, start_bit: u16, length: u16) -> M1Signal {
    M1Signal {
        name: name.to_string(),
        start_bit,
        length,
        little_endian: true,
        is_signed: false,
        is_float: false,
        scale: "1".to_string(),
        offset: "0".to_string(),
        unit: None,
        receiver: "Vector__XXX".to_string(),
    }
}

/// A standard-frame 8-byte message from an unnamed sender.
fn msg(name: &str, frame_id: u32, signals: Vec<M1Signal>) -> M1Message {
    M1Message {
        name: name.to_string(),
        frame_id,
        is_extended: false,
        dlc: 8,
        sender: "Vector__XXX".to_string(),
        signals,
    }
}

/// Wrap messages in a file. The counts are irrelevant to the writer — it
/// renders [`M1DbcFile::messages`] and nothing else.
fn file(messages: Vec<M1Message>) -> M1DbcFile {
    M1DbcFile {
        messages,
        skipped: Vec::new(),
        totals: SourceCounts {
            total_messages: 0,
            total_signals: 0,
            convertible_messages: 0,
            convertible_signals: 0,
        },
    }
}

#[test]
fn writes_the_fixture_message_block_with_its_signals_in_source_order() {
    let out = write_dbc(&sample());
    // Source order, not start-bit order: `Yaw Rate` (bit 0) precedes
    // `Ready` (bit 0xA) because that is how the `.m1dbc` lists them.
    let block = "BO_ 1021 Status: 8 ECU\n\
                 \x20SG_ Yaw_Rate : 0|16@1- (0.5,-100) [0|0] \"°/s\" Vector__XXX\n\
                 \x20SG_ Ready : 10|1@1+ (1,0) [0|0] \"\" Vector__XXX\n";
    assert!(
        out.contains(block),
        "expected block:\n{block}\n--- got ---\n{out}"
    );
    assert_eq!(
        out.matches("BO_ ").count(),
        1,
        "the fixture has exactly one convertible message: {out}"
    );
}

#[test]
fn two_calls_on_the_same_file_produce_identical_output() {
    let f = sample();
    assert_eq!(
        write_dbc(&f),
        write_dbc(&f),
        "the writer must be a pure function of its input"
    );
}

#[test]
fn an_extended_frame_emits_its_id_with_bit_31_set() {
    let mut m = msg("Frame", 0x18FF50E5, vec![sig("Sig", 0, 8)]);
    m.is_extended = true;
    let out = write_dbc(&file(vec![m]));
    let id = 0x18FF50E5u32 | 0x8000_0000;
    assert!(
        out.contains(&format!("BO_ {id} Frame: 8 Vector__XXX\n")),
        "extended ids carry the DBC extended-frame flag: {out}"
    );
}

#[test]
fn a_standard_frame_emits_its_can_id_as_plain_decimal() {
    let out = write_dbc(&file(vec![msg("Frame", 0x3FD, vec![])]));
    assert!(
        out.contains("BO_ 1021 Frame: 8 Vector__XXX\n"),
        "standard ids are written unmodified: {out}"
    );
}

/// Names longer than the 32 characters some DBC tools truncate to are written
/// whole, with no `SystemSignalLongSymbol` attribute block to carry the full
/// spelling.
#[test]
fn identifiers_longer_than_thirty_two_characters_are_written_whole() {
    let message = "Battery_Management_Cell_Voltage_Summary";
    let signal = "Cell_Voltage_Minimum_Across_All_Modules";
    assert!(
        message.len() > 32 && signal.len() > 32,
        "the test names must exceed the 32-character truncation point"
    );

    let out = write_dbc(&file(vec![msg(message, 0x100, vec![sig(signal, 0, 16)])]));
    assert!(
        out.contains(&format!("BO_ 256 {message}: 8 Vector__XXX\n")),
        "the message name must appear in full: {out}"
    );
    assert!(
        out.contains(&format!(
            " SG_ {signal} : 0|16@1+ (1,0) [0|0] \"\" Vector__XXX\n"
        )),
        "the signal name must appear in full: {out}"
    );
    assert!(
        !out.contains("SystemSignalLongSymbol"),
        "long names are the format, not an attribute-table workaround: {out}"
    );
}

#[test]
fn every_file_opens_with_the_canonical_header() {
    let out = write_dbc(&file(vec![]));
    assert!(
        out.starts_with("VERSION \"\"\n\n\nNS_ :\n\tNS_DESC_\n"),
        "header must be tab-indented and start with VERSION: {out:?}"
    );
    assert!(
        out.contains("\n\tSG_MUL_VAL_\n\nBS_:\n\nBU_:\n"),
        "the NS_ list ends at SG_MUL_VAL_, then BS_: and BU_: : {out:?}"
    );
    assert_eq!(
        out.matches("SIG_VALTYPE_").count(),
        1,
        "the only SIG_VALTYPE_ in a float-free file is the NS_ entry: {out}"
    );
}

#[test]
fn bu_lists_each_named_node_once_in_first_appearance_order() {
    let mut a = msg("A", 1, vec![sig("S1", 0, 8), sig("S2", 8, 8)]);
    a.sender = "Dash".to_string();
    a.signals[0].receiver = "Logger".to_string();
    a.signals[1].receiver = "Dash".to_string();
    let mut b = msg("B", 2, vec![sig("S3", 0, 8)]);
    b.sender = "PDM".to_string();
    let out = write_dbc(&file(vec![a, b]));
    assert!(
        out.contains("\nBU_: Dash Logger PDM\n"),
        "senders and receivers, deduped, in first-appearance order: {out}"
    );
}

#[test]
fn bu_is_bare_when_every_node_is_the_placeholder() {
    let out = write_dbc(&file(vec![msg("A", 1, vec![sig("S", 0, 8)])]));
    assert!(
        out.contains("\nBU_:\n"),
        "Vector__XXX is a placeholder, not a node: {out}"
    );
}

#[test]
fn a_blank_line_separates_the_header_and_every_message_block() {
    let out = write_dbc(&file(vec![
        msg("A", 1, vec![sig("S1", 0, 8)]),
        msg("B", 2, vec![sig("S2", 0, 8)]),
    ]));
    assert!(
        out.ends_with(
            "BU_:\n\
             \n\
             BO_ 1 A: 8 Vector__XXX\n\
             \x20SG_ S1 : 0|8@1+ (1,0) [0|0] \"\" Vector__XXX\n\
             \n\
             BO_ 2 B: 8 Vector__XXX\n\
             \x20SG_ S2 : 0|8@1+ (1,0) [0|0] \"\" Vector__XXX\n"
        ),
        "one blank line before each block, one trailing newline: {out:?}"
    );
}

#[test]
fn endianness_and_signedness_render_in_the_byte_order_field() {
    let mut s = sig("S", 4, 12);
    s.little_endian = false;
    s.is_signed = true;
    let out = write_dbc(&file(vec![msg("A", 1, vec![s])]));
    assert!(
        out.contains(" SG_ S : 4|12@0- (1,0) [0|0] \"\" Vector__XXX\n"),
        "@0 is big-endian, - is signed: {out}"
    );
}

#[test]
fn scale_and_offset_use_shortest_round_trip_formatting() {
    let mut s = sig("S", 0, 16);
    // Straight from a `Multiplier="1.99999995529651642e-02"` — an
    // f32-precision value widened to f64. It must not be rounded.
    s.scale = 0.019999999552965164f64.to_string();
    s.offset = (-0.5f64).to_string();
    let out = write_dbc(&file(vec![msg("A", 1, vec![s])]));
    assert!(
        out.contains(" (0.019999999552965164,-0.5) "),
        "full f64 precision, no forced .0 suffix: {out}"
    );
}

#[test]
fn float_signals_get_sig_valtype_lines_after_every_message_block() {
    let mut single = sig("Single", 0, 32);
    single.is_float = true;
    let mut double = sig("Double", 32, 64);
    double.is_float = true;
    let mut m = msg("Floats", 0x18FF50E5, vec![single, double]);
    m.is_extended = true;
    let out = write_dbc(&file(vec![m]));
    let id = 0x18FF50E5u32 | 0x8000_0000;
    assert!(
        out.ends_with(&format!(
            "\nSIG_VALTYPE_ {id} Single : 1;\nSIG_VALTYPE_ {id} Double : 2;\n"
        )),
        "32-bit floats are type 1, 64-bit type 2, keyed by the BO_ id: {out}"
    );
}

#[test]
fn a_float_of_an_unrepresentable_width_gets_no_sig_valtype_line() {
    // DBC knows only IEEE single and double; a MoTeC `Type="f16"` has no
    // extended value type, so it is written as a plain integer signal
    // rather than guessing one.
    let mut half = sig("Half", 0, 16);
    half.is_float = true;
    let out = write_dbc(&file(vec![msg("A", 1, vec![half])]));
    assert!(
        !out.contains("SIG_VALTYPE_ 1 "),
        "no extended value type for a 16-bit float: {out}"
    );
    assert!(
        out.contains(" SG_ Half : 0|16@1+ (1,0) [0|0] \"\" Vector__XXX\n"),
        "the signal itself is still written: {out}"
    );
}

#[test]
fn output_is_lf_only_and_ends_with_exactly_one_newline() {
    let out = write_dbc(&sample());
    assert!(!out.contains('\r'), "no CR bytes may be emitted: {out:?}");
    assert!(out.ends_with('\n'), "must end with a newline: {out:?}");
    assert!(
        !out.ends_with("\n\n"),
        "must not end with a blank line: {out:?}"
    );
}

/// The whole file, byte for byte.
///
/// Every other test here pins one line or one field; this one pins the
/// layout as a unit — all 28 `NS_` entries, the `BU_` line, and the blank
/// lines between blocks — so no part of the output can drift unnoticed.
#[test]
fn the_sample_fixture_renders_to_exactly_this_file() {
    let expected = r#"VERSION ""


NS_ :
	NS_DESC_
	CM_
	BA_DEF_
	BA_
	VAL_
	CAT_DEF_
	CAT_
	FILTER
	BA_DEF_DEF_
	EV_DATA_
	ENVVAR_DATA_
	SGTYPE_
	SGTYPE_VAL_
	BA_DEF_SGTYPE_
	BA_SGTYPE_
	SIG_TYPE_REF_
	VAL_TABLE_
	SIG_GROUP_
	SIG_VALTYPE_
	SIGTYPE_VALTYPE_
	BO_TX_BU_
	BA_DEF_REL_
	BA_REL_
	BA_DEF_DEF_REL_
	BU_SG_REL_
	BU_EV_REL_
	BU_BO_REL_
	SG_MUL_VAL_

BS_:

BU_: ECU

BO_ 1021 Status: 8 ECU
 SG_ Yaw_Rate : 0|16@1- (0.5,-100) [0|0] "°/s" Vector__XXX
 SG_ Ready : 10|1@1+ (1,0) [0|0] "" Vector__XXX
"#;
    assert_eq!(write_dbc(&sample()), expected);
}

#[test]
fn a_standard_and_an_extended_frame_never_share_their_written_id() {
    let standard = msg("A", 0x100, vec![]);
    let mut extended = msg("B", 0x100, vec![]);
    extended.is_extended = true;
    assert_eq!(emitted_id(&standard), 0x100);
    assert_eq!(emitted_id(&extended), 0x8000_0100);
}

#[test]
fn the_placeholder_is_no_node_and_no_node_is_listed_twice() {
    let mut a = msg("A", 1, vec![sig("S1", 0, 8), sig("S2", 8, 8)]);
    a.signals[0].receiver = "Dash".to_string();
    a.signals[1].receiver = "Dash".to_string();
    let mut b = msg("B", 2, vec![]);
    b.sender = "Dash".to_string();
    assert_eq!(nodes(&file(vec![a, b])), ["Dash"]);
    assert!(nodes(&file(vec![msg("A", 1, vec![])])).is_empty());
}
