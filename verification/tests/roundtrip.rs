//! Reading `.dbc` text back with an independent parser.

use can_dbc::Dbc;
use m1_can::m1dbc::{parse_m1dbc, M1DbcFile, M1Message, M1Signal, SourceCounts};
use m1_can::roundtrip::{frame_counts, roundtrip_counts, Findings, INDEPENDENT_SIG_MSG};
use m1_can::writer::write_dbc;
use m1_can::ExportError;

/// A small database as M1-Build stores one: Windows-1252, with the degree sign as
/// the single byte `0xB0`, and no declared encoding.
const SAMPLE: &[u8] = b"<ComponentStream>
 <List>
  <Component Classname=\"BuiltIn.CAN.DBC\" Name=\"Sample DBC\"/>
  <Component Classname=\"BuiltIn.CAN.Message\" Name=\"Sample DBC.Status\" Sender=\"ECU\">
   <Props CANId=\"3FD\" IdType=\"Standard\" DLC=\"8\"/>
  </Component>
  <Component Classname=\"BuiltIn.CAN.Signal\" Name=\"Sample DBC.Status.Yaw Rate\">
   <Props StartBit=\"0\" Length=\"10\" Type=\"s16\" Multiplier=\"5.00000000000000000e-01\" Offset=\"-1.00000000000000000e+02\">
    <Locale><Default Unit=\"\xB0/s\"/></Locale>
   </Props>
  </Component>
  <Component Classname=\"BuiltIn.CAN.Signal\" Name=\"Sample DBC.Status.Ready\">
   <Props StartBit=\"A\" Type=\"bool\"/>
  </Component>
  <Component Classname=\"BuiltIn.CAN.Message\" Name=\"Sample DBC.VECTOR INDEPENDENT SIG MSG\">
   <Props CANId=\"40000000\" IdType=\"Extended\" DLC=\"0\"/>
  </Component>
  <Component Classname=\"BuiltIn.CAN.Signal\" Name=\"Sample DBC.VECTOR INDEPENDENT SIG MSG.Orphan\">
   <Props StartBit=\"0\" Length=\"8\"/>
  </Component>
  <Component Classname=\"BuiltIn.CAN.Message\" Name=\"Sample DBC.No Id\">
   <Props DLC=\"8\"/>
  </Component>
 </List>
</ComponentStream>
";

/// The text of Windows-1252 bytes. Below `0x80` and from `0xA0` up, a byte is the
/// code point of its character, and the bytes used here all are.
fn decoded(bytes: &[u8]) -> String {
    bytes.iter().map(|&b| char::from(b)).collect()
}

/// Round every scale and offset to the nearest machine number, and show each in the
/// shortest form that reads back as that number.
fn rendered(mut file: M1DbcFile) -> M1DbcFile {
    for message in &mut file.messages {
        for signal in &mut message.signals {
            signal.scale = shortest(&signal.scale);
            signal.offset = shortest(&signal.offset);
        }
    }
    file
}

fn shortest(text: &str) -> String {
    text.parse::<f64>().expect("a number").to_string()
}

fn sample() -> M1DbcFile {
    rendered(parse_m1dbc(&decoded(SAMPLE), "Sample DBC").expect("the sample fixture must parse"))
}

/// A hand-written database carrying one real message and the independent-
/// signal container, so a count that failed to drop the container would come
/// back as `(2, 3)` rather than `(1, 2)`.
const WITH_INDEPENDENT_SIG_MSG: &str = "VERSION \"\"

NS_ :

BS_:

BU_: ECU

BO_ 256 Real: 8 ECU
 SG_ A : 0|8@1+ (1,0) [0|0] \"\" Vector__XXX
 SG_ B : 8|8@1+ (1,0) [0|0] \"\" Vector__XXX

BO_ 3221225472 VECTOR__INDEPENDENT_SIG_MSG: 0 Vector__XXX
 SG_ Orphan : 0|8@1+ (1,0) [0|0] \"\" Vector__XXX
";

#[test]
fn the_fixture_render_reads_back_as_one_message_and_two_signals() {
    let file = sample();
    let dbc = write_dbc(&file);
    assert_eq!(
        roundtrip_counts(&dbc),
        Ok((1, 2)),
        "an independent parser must see what the writer emitted:\n{dbc}"
    );
}

/// An IEEE float signal — the writer's baseline otherwise: little-endian,
/// unsigned, unit-less, no named receiver.
fn float_signal(name: &str, start_bit: u16, length: u16) -> M1Signal {
    M1Signal {
        name: name.to_string(),
        start_bit,
        length,
        little_endian: true,
        is_signed: false,
        is_float: true,
        scale: "1".to_string(),
        offset: "0".to_string(),
        unit: None,
        receiver: "Vector__XXX".to_string(),
    }
}

/// The two constructs the sample does not have — a 29-bit identifier and the
/// `SIG_VALTYPE_` section — checked against the independent parser.
#[test]
fn an_extended_frame_carrying_ieee_floats_reads_back_intact() {
    let file = M1DbcFile {
        messages: vec![M1Message {
            name: "Floats".to_string(),
            frame_id: 0x18FF_50E5,
            is_extended: true,
            dlc: 8,
            sender: "Vector__XXX".to_string(),
            signals: vec![
                float_signal("Single", 0, 32),
                float_signal("Double", 32, 64),
            ],
        }],
        skipped: Vec::new(),
        totals: SourceCounts {
            total_messages: 1,
            total_signals: 2,
            convertible_messages: 1,
            convertible_signals: 2,
        },
    };
    let dbc = write_dbc(&file);
    assert_eq!(
        roundtrip_counts(&dbc),
        Ok((1, 2)),
        "an extended frame and its float signals must survive the trip:\n{dbc}"
    );

    // The counts alone would still pass if the identifier came back wrong or
    // the `SIG_VALTYPE_` lines were dropped, so check both directly.
    let parsed = Dbc::try_from(dbc.as_str()).expect("the rendered database must parse");
    assert_eq!(
        parsed.messages[0].id.raw(),
        0x18FF_50E5 | 0x8000_0000,
        "bit 31 marks the frame extended and the lower 29 bits are the id:\n{dbc}"
    );
    assert_eq!(
        parsed.signal_extended_value_type_list.len(),
        2,
        "one SIG_VALTYPE_ line per float signal must be read back:\n{dbc}"
    );
}

#[test]
fn the_independent_signal_container_is_left_out_of_both_counts() {
    // Without this guard the test would still pass if `can-dbc` dropped the
    // container itself, and would prove nothing about our filtering.
    let parsed =
        Dbc::try_from(WITH_INDEPENDENT_SIG_MSG).expect("the hand-written database must parse");
    assert_eq!(
        parsed.messages.len(),
        2,
        "the parser hands us the container; dropping it is this module's job"
    );
    assert_eq!(
        roundtrip_counts(WITH_INDEPENDENT_SIG_MSG),
        Ok((1, 2)),
        "VECTOR__INDEPENDENT_SIG_MSG is a container, not a frame"
    );
}

#[test]
fn the_container_is_recognised_by_name_because_its_id_does_not_survive_parsing() {
    // `can-dbc` masks an extended identifier to its lower 29 bits, so the
    // `0xC0000000` written above comes back as `0x80000000`. An id-based
    // filter would silently never fire; the name is what we can rely on.
    let parsed =
        Dbc::try_from(WITH_INDEPENDENT_SIG_MSG).expect("the hand-written database must parse");
    let container = parsed
        .messages
        .iter()
        .find(|m| m.name == INDEPENDENT_SIG_MSG)
        .expect("the container must be present under its conventional name");
    assert_ne!(
        container.id.raw(),
        0xC000_0000,
        "if this ever holds, an id check would be a viable filter too"
    );
}

#[test]
fn signals_are_totalled_across_every_message() {
    let dbc = "VERSION \"\"

BS_:

BU_:

BO_ 1 A: 8 Vector__XXX
 SG_ S1 : 0|8@1+ (1,0) [0|0] \"\" Vector__XXX

BO_ 2 B: 8 Vector__XXX
 SG_ S2 : 0|8@1+ (1,0) [0|0] \"\" Vector__XXX
 SG_ S3 : 8|8@1+ (1,0) [0|0] \"\" Vector__XXX
";
    assert_eq!(roundtrip_counts(dbc), Ok((2, 3)));
}

#[test]
fn a_database_with_no_messages_counts_nothing() {
    assert_eq!(
        roundtrip_counts("VERSION \"\"\n\nBS_:\n\nBU_:\n"),
        Ok((0, 0))
    );
}

#[test]
fn text_that_is_not_a_dbc_is_an_error_rather_than_a_panic() {
    let err = roundtrip_counts("this is not a CAN database\n")
        .expect_err("unparseable text must not be reported as an empty database");
    assert!(
        matches!(err, ExportError::Dbc(ref m) if !m.is_empty()),
        "the parser's own diagnosis must be carried through: {err:?}"
    );
}

#[test]
fn the_container_counts_for_nothing_wherever_it_stands() {
    let named = |names: &[&str]| names.iter().map(|n| n.to_string()).collect::<Vec<_>>();
    let findings = Findings {
        messages: named(&["A", INDEPENDENT_SIG_MSG, "B"]),
        owners: named(&[INDEPENDENT_SIG_MSG, "B", "B", INDEPENDENT_SIG_MSG]),
    };
    assert_eq!(frame_counts(&findings), (2, 2));
    let empty = Findings { messages: Vec::new(), owners: Vec::new() };
    assert_eq!(frame_counts(&empty), (0, 0));
}

#[test]
fn a_name_that_only_resembles_the_container_is_a_frame() {
    let findings = Findings {
        messages: vec!["VECTOR__INDEPENDENT_SIG_MSG_2".to_string()],
        owners: vec!["vector__independent_sig_msg".to_string()],
    };
    assert_eq!(frame_counts(&findings), (1, 1));
}
