//! Names, numbers and components at the edges of what a `.m1dbc` may hold.

use m1_can::m1dbc::{parse_dec, parse_hex, parse_m1dbc, read_m1dbc, M1DbcFile};
use m1_can::names::{message_local_name, parent_name, sanitize, signal_local_name};
use m1_can::number::{decimal_text, float_text, read_unsigned};
use m1_can::xml::{XmlDocument, XmlNode};
use m1_can::ExportError;

/// A document with some components.
fn stream(components: &str) -> String {
    format!("<ComponentStream><List>{components}</List></ComponentStream>")
}

fn parse(components: &str) -> Result<M1DbcFile, ExportError> {
    parse_m1dbc(&stream(components), "Mod")
}

fn message(name: &str, props: &str) -> String {
    format!(r#"<Component Classname="BuiltIn.CAN.Message" Name="{name}"><Props {props}/></Component>"#)
}

fn signal(name: &str, props: &str) -> String {
    format!(r#"<Component Classname="BuiltIn.CAN.Signal" Name="{name}"><Props {props}/></Component>"#)
}

fn invalid(components: &str) -> String {
    match parse(components).expect_err("must refuse") {
        ExportError::Invalid(message) => message,
        err => panic!("expected an invalid component, got {err:?}"),
    }
}

#[test]
fn a_repeated_message_keeps_its_place_and_takes_the_later_values() {
    let file = parse(&[
        message("Mod.A", r#"CANId="1""#),
        message("Mod.B", r#"CANId="2""#),
        signal("Mod.A.S", ""),
        message("Mod.A", r#"CANId="3""#),
    ]
    .concat())
    .expect("must parse");
    let ids: Vec<(&str, u32)> = file
        .messages
        .iter()
        .map(|m| (m.name.as_str(), m.frame_id))
        .collect();
    assert_eq!(ids, [("A", 3), ("B", 2)]);
    assert_eq!(file.messages[0].signals.len(), 1);
    assert_eq!(file.totals.total_messages, 3);
    assert_eq!(file.totals.convertible_messages, 2);
}

#[test]
fn messages_and_signals_mix_in_any_order() {
    let (a, b) = (
        message("Mod.A", r#"CANId="1""#),
        message("Mod.B", r#"CANId="2""#),
    );
    let (s, t) = (signal("Mod.B.S", ""), signal("Mod.A.T", ""));
    let expected = parse(&format!("{a}{b}{s}{t}")).expect("must parse");
    for mixed in [
        format!("{s}{t}{a}{b}"),
        format!("{a}{s}{b}{t}"),
        format!("{s}{a}{t}{b}"),
    ] {
        assert_eq!(parse(&mixed).expect("must parse"), expected);
    }
    // Notes keep to the components that they are about, so only their order differs.
    let (x, y) = (signal("Mod.C.X", ""), message("Mod.D", ""));
    let one = parse(&format!("{x}{y}{a}{b}{s}{t}")).expect("must parse");
    let other = parse(&format!("{a}{y}{x}{s}{b}{t}")).expect("must parse");
    assert_eq!(one.messages, other.messages);
    assert_eq!(one.totals, other.totals);
    assert_eq!(one.skipped.len(), 2);
    assert_eq!(one.skipped.iter().rev().collect::<Vec<_>>(), other.skipped.iter().collect::<Vec<_>>());
}

#[test]
fn the_first_invalid_component_is_the_one_reported() {
    let bad = message("Mod.First", r#"CANId="xyz""#);
    let worse = message("Mod.Second", r#"CANId="""#);
    assert_eq!(
        invalid(&format!("{}{bad}{worse}", message("Mod.Good", r#"CANId="1""#))),
        "message 'Mod.First': CANId \"xyz\" is not a hexadecimal integer"
    );
}

#[test]
fn each_number_of_a_signal_is_refused_with_its_own_name() {
    for (props, expected) in [
        (
            r#"Length="10000""#,
            "signal 'M.S': Length \"10000\" is not a hexadecimal integer",
        ),
        (
            r#"StartBit="-1""#,
            "signal 'M.S': StartBit \"-1\" is not a hexadecimal integer",
        ),
        (
            r#"Multiplier="1,5""#,
            "signal 'M.S': Multiplier \"1,5\" is not a number",
        ),
        (r#"Offset="0x1""#, "signal 'M.S': Offset \"0x1\" is not a number"),
    ] {
        assert_eq!(invalid(&signal("M.S", props)), expected);
    }
    assert_eq!(
        invalid(r#"<Component Classname="BuiltIn.CAN.Signal" Name="M.S"/>"#),
        "signal 'M.S': missing <Props>"
    );
}

#[test]
fn a_signal_in_the_container_is_skipped_before_its_props_are_read() {
    let file = parse(
        r#"<Component Classname="BuiltIn.CAN.Signal" Name="Mod.VECTOR INDEPENDENT SIG MSG.X"/>
           <Component Classname="BuiltIn.CAN.Message" Name="Mod.VECTOR INDEPENDENT SIG MSG"/>"#,
    )
    .expect("must parse");
    assert_eq!(file.skipped.len(), 2);
    assert_eq!(file.totals.convertible_messages, 0);
    assert_eq!(file.totals.convertible_signals, 0);
}

#[test]
fn the_unit_is_that_of_the_first_default_that_has_one() {
    let with_locale = |inner: &str| {
        let file = parse(&format!(
            r#"{}<Component Classname="BuiltIn.CAN.Signal" Name="Mod.A.S"><Props>{inner}</Props></Component>"#,
            message("Mod.A", r#"CANId="1""#)
        ))
        .expect("must parse");
        file.messages[0].signals[0].unit.clone()
    };
    assert_eq!(
        with_locale(r#"<Locale><Default/><Default Unit="V"/></Locale><Locale><Default Unit="A"/></Locale>"#),
        Some("V".to_string())
    );
    assert_eq!(
        with_locale(r#"<Locale><Default Unit=""/><Default Unit="V"/></Locale>"#),
        None,
        "an empty unit is no unit, and ends the search"
    );
    assert_eq!(with_locale(r#"<Default Unit="V"/>"#), None);
}

#[test]
fn numbers_may_stand_among_white_space() {
    let file = parse(&[
        message("Mod.A", r#"CANId=" 1a " DLC=" +8 ""#),
        signal("Mod.A.S", r#"Multiplier=" 2.5 " Type=" s8 " Length="8""#),
    ]
    .concat())
    .expect("must parse");
    assert_eq!(file.messages[0].frame_id, 0x1A);
    assert_eq!(file.messages[0].dlc, 8);
    assert_eq!(file.messages[0].signals[0].scale, "2.5");
    assert!(file.messages[0].signals[0].is_signed);
}

#[test]
fn every_exported_scale_and_offset_is_a_number_on_one_line() {
    let file = parse(&[
        message("Mod.A", r#"CANId="1""#),
        signal("Mod.A.S", ""),
        signal("Mod.A.T", "Multiplier=\"&#10;1e3&#13;\" Offset=\"-inf\""),
    ]
    .concat())
    .expect("must parse");
    let numbers: Vec<&str> = file.messages[0]
        .signals
        .iter()
        .flat_map(|s| [s.scale.as_str(), s.offset.as_str()])
        .collect();
    assert_eq!(numbers, ["1", "0", "1e3", "-inf"]);
    assert!(numbers.iter().all(|n| float_text(n) && n.parse::<f64>().is_ok()));
}

#[test]
fn a_document_of_plain_values_is_read_like_a_parsed_one() {
    let node = |name: &str, attributes: &[(&str, &str)], children: &[usize]| XmlNode {
        name: name.to_string(),
        attributes: attributes
            .iter()
            .map(|(n, v)| (n.to_string(), v.to_string()))
            .collect(),
        children: children.to_vec(),
    };
    let document = XmlDocument {
        nodes: vec![
            node("", &[], &[1]),
            node("ComponentStream", &[], &[2]),
            node("List", &[], &[3]),
            node(
                "Component",
                &[("Classname", "BuiltIn.CAN.Message"), ("Name", "Mod.A")],
                &[4],
            ),
            node("Props", &[("CANId", "7ff")], &[]),
        ],
    };
    let file = read_m1dbc(&document, "Mod").expect("must read");
    assert_eq!(
        file,
        parse(&message("Mod.A", r#"CANId="7ff""#)).expect("must parse")
    );
    assert_eq!(file.messages[0].frame_id, 0x7FF);
    // A position past the end names no node.
    let dangling = XmlDocument {
        nodes: vec![node("ComponentStream", &[], &[9])],
    };
    let file = read_m1dbc(&dangling, "Mod").expect("must read");
    assert!(file.messages.is_empty() && file.skipped.is_empty());
}

#[test]
fn every_name_becomes_an_identifier_and_stays_one() {
    for (name, expected) in [
        ("Mod.", "Unnamed"),
        ("___", "Unnamed"),
        ("a b  c", "a_b_c"),
        ("a__b", "a_b"),
        ("_x_", "x"),
        ("7", "_7"),
        ("é", "Unnamed"),
        ("Modx", "Modx"),
        ("DBC.DBC.x", "DBC_x"),
    ] {
        let once = sanitize(name, "Mod");
        assert_eq!(once, expected, "{name}");
        assert_eq!(sanitize(&once, "Other"), once, "{name}");
    }
}

#[test]
fn names_are_split_at_the_last_dot() {
    assert_eq!(parent_name("Mod.A.B"), "Mod.A");
    assert_eq!(signal_local_name("Mod.A.B"), "B");
    assert_eq!(parent_name("Plain"), "Plain");
    assert_eq!(signal_local_name("Plain"), "Plain");
    assert_eq!(signal_local_name("Mod."), "");
    assert_eq!(message_local_name("Mod.A.B", "Mod"), "A.B");
    assert_eq!(message_local_name("Mod", "Mod"), "Mod");
}

#[test]
fn unsigned_numbers_read_as_the_standard_library_reads_them() {
    for text in [
        "", "+", "-", "0", "+0", "-0", "00", "1f", "1F", "1g", "ffffffff", "100000000", "+ 1", " 1",
        "٣", "0x1",
    ] {
        assert_eq!(
            read_unsigned(text, 16, u32::MAX),
            u32::from_str_radix(text, 16).ok(),
            "{text:?}"
        );
        assert_eq!(
            read_unsigned(text, 10, 255),
            text.parse::<u8>().ok().map(u32::from),
            "{text:?}"
        );
    }
}

#[test]
fn a_hexadecimal_value_has_to_fit() {
    assert_eq!(parse_hex("ffff", "signal", "S", "Length", 0xFFFF), Ok(0xFFFF));
    assert_eq!(
        parse_hex("10000", "signal", "S", "Length", 0xFFFF),
        Err(ExportError::Invalid(
            "signal 'S': Length \"10000\" is not a hexadecimal integer".to_string()
        ))
    );
    assert_eq!(parse_dec("255", "message", "M", "DLC"), Ok(255));
    assert_eq!(
        parse_dec("256", "message", "M", "DLC"),
        Err(ExportError::Invalid(
            "message 'M': DLC \"256\" is not a decimal integer".to_string()
        ))
    );
}

#[test]
fn decimal_numbers_are_shown_as_the_standard_library_shows_them() {
    for n in [0, 7, 10, 1021, 99_999, u64::from(u32::MAX), u64::MAX] {
        assert_eq!(decimal_text(n), n.to_string());
        let read_back = read_unsigned(&decimal_text(n), 10, u32::MAX);
        assert_eq!(read_back, u32::try_from(n).ok());
    }
}

#[test]
fn a_text_is_a_number_exactly_when_the_standard_library_reads_one() {
    for text in [
        "", ".", "+", "-", "e5", "1", "-1", "+1", "1.", ".5", "1.5", "1..5", "1.5.5", "1e5", "1E5",
        "1e+5", "1e-5", "1e", "1e+", "1e5.", ".e5", "1.e5", ".5e5", "inf", "-inf", "+inf", "INF",
        "infinity", "-Infinity", "nan", "NaN", "-nan", "infinit", "nano", "0x1", "1_0", "1 ", " 1",
        "--1", "+-1", "1e1e1", "٣", "5.00000000000000000e-01", "1e400", "1e-400",
    ] {
        assert_eq!(float_text(text), text.parse::<f64>().is_ok(), "{text:?}");
    }
}
