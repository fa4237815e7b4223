//! Turn a MoTeC `.m1dbc` CAN database into a neutral in-memory model.
//!
//! A `.m1dbc` is XML: a flat `<ComponentStream><List>` of `<Component>` elements,
//! each tagged with a `Classname`. Messages and their signals may appear in any
//! order, and a signal is tied to its message only by name
//! (`"<message name>.<signal name>"`).
//!
//! `CANId`, `StartBit` and `Length` are hexadecimal, `DLC` alone is decimal;
//! `Sender`, `Receivers` and sometimes `Endian` sit on the `<Component>`, not on
//! its `<Props>`.
//!
//! Components that a `.dbc` cannot represent are dropped and each is noted in
//! [`M1DbcFile::skipped`]. Anything malformed is an [`ExportError`].
//!
//! `Multiplier` and `Offset` are kept as texts that denote a number. Rounding one
//! to a machine float and rendering that is the caller's part.

use crate::names::{
    identifier, is_identifier, law_sanitized_names_are_identifiers, message_local_name,
    message_name, parent_name, sanitize, signal_local_name,
};
use crate::number::{bounded_value, float_text, is_float_text, is_mantissa, read_unsigned};
use crate::order::lemma_same_items_mapped;
use crate::text::{
    after_last_dot, before_last_dot, debug_text, ends_with, is_digit, quoted, same, starts_with,
    trim, trimmed,
};
use crate::xml::{
    all_children_named, attribute_of, children_named, nodes_named, value_or_empty, Node,
    XmlDocument,
};
use crate::{ExportError, Fault};
use vstd::prelude::*;

verus! {

/// `Classname` of a CAN frame component.
pub const MSG_CLASS: &'static str = "BuiltIn.CAN.Message";

/// `Classname` of a CAN signal component.
pub const SIG_CLASS: &'static str = "BuiltIn.CAN.Signal";

/// How the name of the container ends that holds signals of no real message. It
/// does not fit the 29-bit frame identifiers and a DBC reader discards it, so it
/// is skipped.
pub const INDEPENDENT_SIG_MSG_SUFFIX: &'static str = "VECTOR INDEPENDENT SIG MSG";

/// DBC's placeholder node name, used where a component names no node.
pub const DEFAULT_NODE: &'static str = "Vector__XXX";

/// One parsed `.m1dbc`: what can be exported, what was dropped, and the counts
/// that let a caller verify that the two add up.
#[derive(Debug, Clone, PartialEq, Eq)]
pub struct M1DbcFile {
    /// Convertible messages in document order, each with its signals.
    pub messages: Vec<M1Message>,
    /// One note per dropped component, in document order.
    pub skipped: Vec<String>,
    /// Counts taken by a second, independent walk of the source.
    pub totals: SourceCounts,
}

/// Message and signal counts for a source `.m1dbc`.
///
/// The `convertible_*` fields re-derive the skip rules from scratch rather than
/// measure [`M1DbcFile::messages`], so they cross-check the parser.
#[derive(Debug, Clone, Copy, PartialEq, Eq)]
pub struct SourceCounts {
    /// Every message component in the file.
    pub total_messages: usize,
    /// Every signal component in the file.
    pub total_signals: usize,
    /// Messages that survive the skip rules.
    pub convertible_messages: usize,
    /// Signals of a surviving message.
    pub convertible_signals: usize,
}

/// A CAN frame.
#[derive(Debug, Clone, PartialEq, Eq)]
pub struct M1Message {
    /// DBC identifier: the component's name without the file prefix, sanitized.
    pub name: String,
    /// `CANId`, from hexadecimal.
    pub frame_id: u32,
    /// `IdType="Extended"`: a 29-bit rather than an 11-bit identifier.
    pub is_extended: bool,
    /// `DLC`, from decimal: the frame's length in bytes.
    pub dlc: u8,
    /// The transmitting node.
    pub sender: String,
    /// The frame's signals, in document order.
    pub signals: Vec<M1Signal>,
}

/// A signal within a frame.
#[derive(Debug, Clone, PartialEq, Eq)]
pub struct M1Signal {
    /// DBC identifier: the segment after the last `.`, sanitized.
    pub name: String,
    /// `StartBit`, from hexadecimal.
    pub start_bit: u16,
    /// Width in bits, from hexadecimal; 1 for a `bool`.
    pub length: u16,
    /// `Endian="Little"`, which is the default.
    pub little_endian: bool,
    /// The `Type` begins with `s`.
    pub is_signed: bool,
    /// The `Type` begins with `f`.
    pub is_float: bool,
    /// The text of `Multiplier`, default `1`: what a `.dbc` shows as the scale.
    pub scale: String,
    /// The text of `Offset`, default `0`: what a `.dbc` shows as the offset.
    pub offset: String,
    /// The display unit, if any.
    pub unit: Option<String>,
    /// The receiving node.
    pub receiver: String,
}

// ---------------------------------------------------------------------------
// Views
// ---------------------------------------------------------------------------

/// The values of an [`M1DbcFile`].
#[verifier::ext_equal]
pub struct Database {
    pub messages: Seq<Message>,
    pub skipped: Seq<Seq<char>>,
    pub totals: Counts,
}

/// The values of a [`SourceCounts`].
pub struct Counts {
    pub total_messages: nat,
    pub total_signals: nat,
    pub convertible_messages: nat,
    pub convertible_signals: nat,
}

/// The values of an [`M1Message`].
#[verifier::ext_equal]
pub struct Message {
    pub name: Seq<char>,
    pub frame_id: u32,
    pub is_extended: bool,
    pub dlc: u8,
    pub sender: Seq<char>,
    pub signals: Seq<Signal>,
}

/// The values of an [`M1Signal`].
#[verifier::ext_equal]
pub struct Signal {
    pub name: Seq<char>,
    pub start_bit: u16,
    pub length: u16,
    pub little_endian: bool,
    pub is_signed: bool,
    pub is_float: bool,
    pub scale: Seq<char>,
    pub offset: Seq<char>,
    pub unit: Option<Seq<char>>,
    pub receiver: Seq<char>,
}

impl DeepView for M1DbcFile {
    type V = Database;

    open spec fn deep_view(&self) -> Database {
        Database {
            messages: self.messages.deep_view(),
            skipped: self.skipped.deep_view(),
            totals: self.totals.deep_view(),
        }
    }
}

impl DeepView for SourceCounts {
    type V = Counts;

    open spec fn deep_view(&self) -> Counts {
        Counts {
            total_messages: self.total_messages as nat,
            total_signals: self.total_signals as nat,
            convertible_messages: self.convertible_messages as nat,
            convertible_signals: self.convertible_signals as nat,
        }
    }
}

impl DeepView for M1Message {
    type V = Message;

    open spec fn deep_view(&self) -> Message {
        Message {
            name: self.name@,
            frame_id: self.frame_id,
            is_extended: self.is_extended,
            dlc: self.dlc,
            sender: self.sender@,
            signals: self.signals.deep_view(),
        }
    }
}

impl DeepView for M1Signal {
    type V = Signal;

    open spec fn deep_view(&self) -> Signal {
        Signal {
            name: self.name@,
            start_bit: self.start_bit,
            length: self.length,
            little_endian: self.little_endian,
            is_signed: self.is_signed,
            is_float: self.is_float,
            scale: self.scale@,
            offset: self.offset@,
            unit: self.unit.deep_view(),
            receiver: self.receiver@,
        }
    }
}

// ---------------------------------------------------------------------------
// Attributes
// ---------------------------------------------------------------------------

/// The complaint about an attribute that does not hold a number.
pub open spec fn bad_number_fault(
    kind: Seq<char>,
    name: Seq<char>,
    attr: Seq<char>,
    quoted_raw: Seq<char>,
    what: Seq<char>,
) -> Fault {
    Fault::Invalid(
        kind + " '"@ + name + "': "@ + attr + " "@ + quoted_raw + " is not "@ + what,
    )
}

/// The complaint about a component without `<Props>`.
pub open spec fn missing_props_fault(kind: Seq<char>, name: Seq<char>) -> Fault {
    Fault::Invalid(kind + " '"@ + name + "': missing <Props>"@)
}

/// A hexadecimal attribute of at most `limit`, or the complaint about it.
pub open spec fn hex_attribute(
    raw: Seq<char>,
    kind: Seq<char>,
    name: Seq<char>,
    attr: Seq<char>,
    limit: nat,
) -> Result<nat, Fault> {
    match bounded_value(trimmed(raw), 16, limit) {
        Some(v) => Ok(v),
        None => Err(
            bad_number_fault(kind, name, attr, debug_text(raw), "a hexadecimal integer"@),
        ),
    }
}

/// A decimal attribute of at most 255, or the complaint about it.
pub open spec fn dec_attribute(
    raw: Seq<char>,
    kind: Seq<char>,
    name: Seq<char>,
    attr: Seq<char>,
) -> Result<nat, Fault> {
    match bounded_value(trimmed(raw), 10, 255) {
        Some(v) => Ok(v),
        None => Err(bad_number_fault(kind, name, attr, debug_text(raw), "a decimal integer"@)),
    }
}

/// The text of an attribute that denotes a floating-point number, the default
/// where the attribute is absent, or the complaint about it.
pub open spec fn float_attribute(
    raw: Option<Seq<char>>,
    default: Seq<char>,
    name: Seq<char>,
    attr: Seq<char>,
) -> Result<Seq<char>, Fault> {
    match raw {
        None => Ok(default),
        Some(v) => if is_float_text(trimmed(v)) {
            Ok(trimmed(v))
        } else {
            Err(bad_number_fault("signal"@, name, attr, debug_text(v), "a number"@))
        },
    }
}

/// A value that is not empty.
pub open spec fn unless_empty(value: Option<Seq<char>>) -> Option<Seq<char>> {
    match value {
        Some(v) => if v.len() == 0 {
            None
        } else {
            Some(v)
        },
        None => None,
    }
}

/// A value, or a default where there is none.
pub open spec fn or_else(value: Option<Seq<char>>, default: Seq<char>) -> Seq<char> {
    match value {
        Some(v) => v,
        None => default,
    }
}

/// The error about an attribute that does not hold a number: the kind of the
/// component, its name, the attribute, its value in quotes and what it should be.
pub fn bad_number(kind: &str, name: &str, attr: &str, quoted_raw: &str, what: &str) -> (r:
    ExportError)
    ensures
        r.deep_view() == bad_number_fault(kind@, name@, attr@, quoted_raw@, what@),
{
    let mut s = kind.to_owned();
    s.append(" '");
    s.append(name);
    s.append("': ");
    s.append(attr);
    s.append(" ");
    s.append(quoted_raw);
    s.append(" is not ");
    s.append(what);
    ExportError::Invalid(s)
}

/// `CANId`, `StartBit` and `Length` are base 16.
///
/// `limit` is the largest value that the field can hold; a larger number is as
/// bad as no number.
pub fn parse_hex(raw: &str, kind: &str, name: &str, attr: &str, limit: u32) -> (r: Result<
    u32,
    ExportError,
>)
    ensures
        match r {
            Ok(v) => hex_attribute(raw@, kind@, name@, attr@, limit as nat) == Ok::<nat, Fault>(
                v as nat,
            ),
            Err(e) => hex_attribute(raw@, kind@, name@, attr@, limit as nat) == Err::<nat, Fault>(
                e.deep_view(),
            ),
        },
{
    match read_unsigned(trim(raw), 16, limit) {
        Some(v) => Ok(v),
        None => Err(bad_number(kind, name, attr, quoted(raw).as_str(), "a hexadecimal integer")),
    }
}

/// `DLC` is the one numeric attribute stored in base 10.
pub fn parse_dec(raw: &str, kind: &str, name: &str, attr: &str) -> (r: Result<u8, ExportError>)
    ensures
        match r {
            Ok(v) => dec_attribute(raw@, kind@, name@, attr@) == Ok::<nat, Fault>(v as nat),
            Err(e) => dec_attribute(raw@, kind@, name@, attr@) == Err::<nat, Fault>(
                e.deep_view(),
            ),
        },
{
    match read_unsigned(trim(raw), 10, 255) {
        Some(v) => Ok(v as u8),
        None => Err(bad_number(kind, name, attr, quoted(raw).as_str(), "a decimal integer")),
    }
}

/// `Multiplier` and `Offset`: an absent attribute takes the default, a present one
/// must denote a floating-point number.
pub fn parse_float(raw: Option<&str>, default: &str, name: &str, attr: &str) -> (r: Result<
    String,
    ExportError,
>)
    ensures
        match r {
            Ok(v) => float_attribute(raw.deep_view(), default@, name@, attr@) == Ok::<
                Seq<char>,
                Fault,
            >(v@),
            Err(e) => float_attribute(raw.deep_view(), default@, name@, attr@) == Err::<
                Seq<char>,
                Fault,
            >(e.deep_view()),
        },
{
    match raw {
        None => Ok(default.to_owned()),
        Some(v) => {
            let number = trim(v);
            if float_text(number) {
                Ok(number.to_owned())
            } else {
                Err(bad_number("signal", name, attr, quoted(v).as_str(), "a number"))
            }
        },
    }
}

/// Treat an empty attribute as absent.
pub fn non_empty(value: Option<&str>) -> (r: Option<&str>)
    ensures
        r.deep_view() == unless_empty(value.deep_view()),
{
    match value {
        Some(v) => if v.is_empty() {
            None
        } else {
            Some(v)
        },
        None => None,
    }
}

/// A node name, falling back to DBC's placeholder.
pub fn or_default_node(value: Option<&str>) -> (r: String)
    ensures
        r@ == or_else(unless_empty(value.deep_view()), DEFAULT_NODE@),
{
    match non_empty(value) {
        Some(v) => v.to_owned(),
        None => DEFAULT_NODE.to_owned(),
    }
}

// ---------------------------------------------------------------------------
// Components
// ---------------------------------------------------------------------------

/// The components of a document: each `<Component>` of each `<List>` of each
/// `<ComponentStream>`, the streams at any depth.
pub open spec fn components(doc: Seq<Node>) -> Seq<usize> {
    all_children_named(
        doc,
        all_children_named(doc, nodes_named(doc, "ComponentStream"@), "List"@),
        "Component"@,
    )
}

/// The class of a component, empty where it has none.
pub open spec fn class_of(doc: Seq<Node>, c: usize) -> Seq<char> {
    value_or_empty(attribute_of(doc, c, "Classname"@))
}

/// The full name of a component, empty where it has none.
pub open spec fn name_of(doc: Seq<Node>, c: usize) -> Seq<char> {
    value_or_empty(attribute_of(doc, c, "Name"@))
}

/// The first `<Props>` child of a component.
pub open spec fn first_props(doc: Seq<Node>, c: usize) -> Option<usize> {
    let props = children_named(doc, c, "Props"@);
    if props.len() == 0 {
        None
    } else {
        Some(props[0])
    }
}

/// A message or signal name that is the independent-signal container's.
pub open spec fn is_container(name: Seq<char>) -> bool {
    (INDEPENDENT_SIG_MSG_SUFFIX@).is_suffix_of(name)
}

/// What a component comes to.
pub enum Item {
    /// A message that can be exported, under its full name.
    Message(Seq<char>, Message),
    /// A signal, under its full name and with that of the message it claims.
    Signal(Seq<char>, Seq<char>, Signal),
    /// A component that is left out, with the note about it.
    Skipped(Seq<char>),
    /// A component that makes the file unusable.
    Invalid(Fault),
}

/// A message component.
pub open spec fn message_item(doc: Seq<Node>, c: usize, stem: Seq<char>) -> Item {
    let name = name_of(doc, c);
    if is_container(name) {
        Item::Skipped(
            "message '"@ + name
                + "' (VECTOR independent-signal container; not representable by cantools, discarded on DBC load)"@,
        )
    } else {
        match first_props(doc, c) {
            None => Item::Invalid(missing_props_fault("message"@, name)),
            Some(p) => match attribute_of(doc, p, "CANId"@) {
                None => Item::Skipped("message '"@ + name + "' (no CANId)"@),
                Some(id) => match hex_attribute(id, "message"@, name, "CANId"@, u32::MAX as nat) {
                    Err(e) => Item::Invalid(e),
                    Ok(frame_id) => match dec_attribute(
                        or_else(attribute_of(doc, p, "DLC"@), "8"@),
                        "message"@,
                        name,
                        "DLC"@,
                    ) {
                        Err(e) => Item::Invalid(e),
                        Ok(dlc) => Item::Message(
                            name,
                            Message {
                                name: identifier(message_name(name, stem), stem),
                                frame_id: frame_id as u32,
                                is_extended: or_else(attribute_of(doc, p, "IdType"@), "Standard"@)
                                    == "Extended"@,
                                dlc: dlc as u8,
                                sender: or_else(
                                    unless_empty(attribute_of(doc, c, "Sender"@)),
                                    DEFAULT_NODE@,
                                ),
                                signals: Seq::empty(),
                            },
                        ),
                    },
                },
            },
        }
    }
}

/// The type of a signal: its `Type` without outer white space, `u32` where that
/// is empty.
pub open spec fn signal_type(doc: Seq<Node>, p: usize) -> Seq<char> {
    or_else(unless_empty(Some(trimmed(value_or_empty(attribute_of(doc, p, "Type"@))))), "u32"@)
}

/// The first `Unit` among some nodes.
pub open spec fn first_unit(doc: Seq<Node>, nodes: Seq<usize>) -> Option<Seq<char>>
    decreases nodes.len(),
{
    if nodes.len() == 0 {
        None
    } else {
        match attribute_of(doc, nodes.first(), "Unit"@) {
            Some(unit) => Some(unit),
            None => first_unit(doc, nodes.drop_first()),
        }
    }
}

/// The display unit of a signal: that of the first `<Locale><Default>` with a
/// `Unit`, where it is not empty.
pub open spec fn unit_of(doc: Seq<Node>, p: usize) -> Option<Seq<char>> {
    unless_empty(
        first_unit(
            doc,
            all_children_named(doc, children_named(doc, p, "Locale"@), "Default"@),
        ),
    )
}

/// The byte order of a signal, on its `<Props>` or else on the component.
pub open spec fn endian_of(doc: Seq<Node>, c: usize, p: usize) -> Seq<char> {
    match unless_empty(attribute_of(doc, p, "Endian"@)) {
        Some(endian) => endian,
        None => or_else(unless_empty(attribute_of(doc, c, "Endian"@)), "Little"@),
    }
}

/// A signal component that is not in the container.
pub open spec fn signal_of(doc: Seq<Node>, c: usize, stem: Seq<char>) -> Result<Signal, Fault> {
    let name = name_of(doc, c);
    match first_props(doc, c) {
        None => Err(missing_props_fault("signal"@, name)),
        Some(p) => {
            let kind = signal_type(doc, p);
            let is_bool = kind == "bool"@;
            let length = if is_bool {
                Ok(1nat)
            } else {
                hex_attribute(
                    or_else(attribute_of(doc, p, "Length"@), "1"@),
                    "signal"@,
                    name,
                    "Length"@,
                    u16::MAX as nat,
                )
            };
            let start_bit = hex_attribute(
                or_else(attribute_of(doc, p, "StartBit"@), "0"@),
                "signal"@,
                name,
                "StartBit"@,
                u16::MAX as nat,
            );
            let scale = float_attribute(
                attribute_of(doc, p, "Multiplier"@),
                "1"@,
                name,
                "Multiplier"@,
            );
            let offset = float_attribute(attribute_of(doc, p, "Offset"@), "0"@, name, "Offset"@);
            match (length, start_bit, scale, offset) {
                (Ok(length), Ok(start_bit), Ok(scale), Ok(offset)) => Ok(
                    Signal {
                        name: identifier(after_last_dot(name), stem),
                        start_bit: start_bit as u16,
                        length: length as u16,
                        little_endian: endian_of(doc, c, p) == "Little"@,
                        is_signed: !is_bool && kind.len() > 0 && kind[0] == 's',
                        is_float: !is_bool && kind.len() > 0 && kind[0] == 'f',
                        scale,
                        offset,
                        unit: unit_of(doc, p),
                        receiver: or_else(
                            unless_empty(attribute_of(doc, c, "Receivers"@)),
                            DEFAULT_NODE@,
                        ),
                    },
                ),
                (Err(e), _, _, _) => Err(e),
                (_, Err(e), _, _) => Err(e),
                (_, _, Err(e), _) => Err(e),
                (_, _, _, Err(e)) => Err(e),
            }
        },
    }
}

/// What a component comes to, by its class.
pub open spec fn item_of(doc: Seq<Node>, c: usize, stem: Seq<char>) -> Item {
    let class = class_of(doc, c);
    let name = name_of(doc, c);
    let parent = before_last_dot(name);
    if class == MSG_CLASS@ {
        message_item(doc, c, stem)
    } else if class == SIG_CLASS@ {
        if is_container(parent) {
            Item::Skipped("signal '"@ + name + "' (in VECTOR independent-signal container)"@)
        } else {
            match signal_of(doc, c, stem) {
                Ok(signal) => Item::Signal(name, parent, signal),
                Err(e) => Item::Invalid(e),
            }
        }
    } else {
        let what = or_else(unless_empty(Some(class)), "unknown"@);
        Item::Skipped(what + " '"@ + name + "' (not a CAN frame)"@)
    }
}

/// The `<Props>` child that every CAN component must have.
pub fn props_of(doc: &XmlDocument, c: usize, kind: &str, name: &str) -> (r: Result<
    usize,
    ExportError,
>)
    ensures
        match r {
            Ok(p) => first_props(doc.deep_view(), c) == Some(p),
            Err(e) => first_props(doc.deep_view(), c) is None && e.deep_view()
                == missing_props_fault(kind@, name@),
        },
{
    let props = doc.children_named(c, "Props");
    if props.len() > 0 {
        return Ok(props[0]);
    }
    let mut s = kind.to_owned();
    s.append(" '");
    s.append(name);
    s.append("': missing <Props>");
    Err(ExportError::Invalid(s))
}

/// A value, or a default where there is none.
fn value_or<'a>(value: Option<&'a str>, default: &'a str) -> (r: &'a str)
    ensures
        r@ == or_else(value.deep_view(), default@),
{
    match value {
        Some(v) => v,
        None => default,
    }
}

/// The display unit of a signal.
fn read_unit(doc: &XmlDocument, p: usize) -> (r: Option<String>)
    ensures
        r.deep_view() == unit_of(doc.deep_view(), p),
{
    let locales = doc.children_named(p, "Locale");
    let defaults = doc.all_children_named(&locales, "Default");
    let mut k: usize = 0;
    proof {
        assert(defaults@.skip(0) == defaults@);
    }
    while k < defaults.len()
        invariant
            k <= defaults.len(),
            first_unit(doc.deep_view(), defaults@) == first_unit(
                doc.deep_view(),
                defaults@.skip(k as int),
            ),
            unit_of(doc.deep_view(), p) == unless_empty(first_unit(doc.deep_view(), defaults@)),
        decreases defaults.len() - k,
    {
        proof {
            assert(defaults@.skip(k as int).drop_first() == defaults@.skip(k + 1));
        }
        let unit = doc.attribute(defaults[k], "Unit");
        if unit.is_some() {
            return crate::text::owned(non_empty(unit));
        }
        k = k + 1;
    }
    None
}

/// Build one [`M1Signal`] from a signal component.
pub fn build_signal(doc: &XmlDocument, c: usize, file_stem: &str) -> (r: Result<
    M1Signal,
    ExportError,
>)
    ensures
        match r {
            Ok(signal) => signal_of(doc.deep_view(), c, file_stem@) == Ok::<Signal, Fault>(
                signal.deep_view(),
            ),
            Err(e) => signal_of(doc.deep_view(), c, file_stem@) == Err::<Signal, Fault>(
                e.deep_view(),
            ),
        },
{
    let full_name = doc.attribute_or_empty(c, "Name");
    let p = match props_of(doc, c, "signal", full_name) {
        Ok(p) => p,
        Err(e) => {
            return Err(e);
        },
    };
    let given_type = trim(doc.attribute_or_empty(p, "Type"));
    let kind = if given_type.is_empty() {
        "u32"
    } else {
        given_type
    };
    let is_bool = same(kind, "bool");
    let mut length: u32 = 1;
    if !is_bool {
        let raw = value_or(doc.attribute(p, "Length"), "1");
        match parse_hex(raw, "signal", full_name, "Length", 65535) {
            Ok(v) => {
                length = v;
            },
            Err(e) => {
                return Err(e);
            },
        }
    }
    let raw_start = value_or(doc.attribute(p, "StartBit"), "0");
    let start_bit = match parse_hex(raw_start, "signal", full_name, "StartBit", 65535) {
        Ok(v) => v,
        Err(e) => {
            return Err(e);
        },
    };
    let scale = match parse_float(doc.attribute(p, "Multiplier"), "1", full_name, "Multiplier") {
        Ok(v) => v,
        Err(e) => {
            return Err(e);
        },
    };
    let offset = match parse_float(doc.attribute(p, "Offset"), "0", full_name, "Offset") {
        Ok(v) => v,
        Err(e) => {
            return Err(e);
        },
    };
    let endian = match non_empty(doc.attribute(p, "Endian")) {
        Some(endian) => endian,
        None => value_or(non_empty(doc.attribute(c, "Endian")), "Little"),
    };
    let is_signed = !is_bool && starts_with(kind, 's');
    let is_float = !is_bool && starts_with(kind, 'f');
    Ok(
        M1Signal {
            name: sanitize(signal_local_name(full_name), file_stem),
            start_bit: start_bit as u16,
            length: length as u16,
            little_endian: same(endian, "Little"),
            is_signed,
            is_float,
            scale,
            offset,
            unit: read_unit(doc, p),
            receiver: or_default_node(doc.attribute(c, "Receivers")),
        },
    )
}

/// What a component comes to, where it is not unusable.
enum Part {
    Message(String, M1Message),
    Signal(String, String, M1Signal),
    Skipped(String),
}

impl DeepView for Part {
    type V = Item;

    closed spec fn deep_view(&self) -> Item {
        match self {
            Part::Message(name, message) => Item::Message(name@, message.deep_view()),
            Part::Signal(name, parent, signal) => Item::Signal(
                name@,
                parent@,
                signal.deep_view(),
            ),
            Part::Skipped(note) => Item::Skipped(note@),
        }
    }
}

/// `before`, `name` in single quotes with a space in front, and `after`.
fn note(before: &str, name: &str, after: &str) -> (r: String)
    ensures
        r@ == before@ + " '"@ + name@ + after@,
{
    let mut s = before.to_owned();
    s.append(" '");
    s.append(name);
    s.append(after);
    s
}

/// Read a message component.
fn read_message(doc: &XmlDocument, c: usize, file_stem: &str) -> (r: Result<Part, ExportError>)
    ensures
        match r {
            Ok(part) => message_item(doc.deep_view(), c, file_stem@) == part.deep_view(),
            Err(e) => message_item(doc.deep_view(), c, file_stem@) == Item::Invalid(
                e.deep_view(),
            ),
        },
{
    let name = doc.attribute_or_empty(c, "Name");
    proof {
        reveal_strlit("message");
        reveal_strlit(" '");
        reveal_strlit("message '");
        assert("message"@ + " '"@ == "message '"@);
    }
    if ends_with(name, INDEPENDENT_SIG_MSG_SUFFIX) {
        return Ok(
            Part::Skipped(
                note(
                    "message",
                    name,
                    "' (VECTOR independent-signal container; not representable by cantools, discarded on DBC load)",
                ),
            ),
        );
    }
    let p = match props_of(doc, c, "message", name) {
        Ok(p) => p,
        Err(e) => {
            return Err(e);
        },
    };
    let can_id = match doc.attribute(p, "CANId") {
        Some(can_id) => can_id,
        None => {
            return Ok(Part::Skipped(note("message", name, "' (no CANId)")));
        },
    };
    let frame_id = match parse_hex(can_id, "message", name, "CANId", u32::MAX) {
        Ok(v) => v,
        Err(e) => {
            return Err(e);
        },
    };
    let raw_dlc = value_or(doc.attribute(p, "DLC"), "8");
    let dlc = match parse_dec(raw_dlc, "message", name, "DLC") {
        Ok(v) => v,
        Err(e) => {
            return Err(e);
        },
    };
    let id_type = value_or(doc.attribute(p, "IdType"), "Standard");
    let message = M1Message {
        name: sanitize(message_local_name(name, file_stem), file_stem),
        frame_id,
        is_extended: same(id_type, "Extended"),
        dlc,
        sender: or_default_node(doc.attribute(c, "Sender")),
        signals: Vec::new(),
    };
    proof {
        assert(message.signals.deep_view() == Seq::<Signal>::empty());
    }
    Ok(Part::Message(name.to_owned(), message))
}

/// Read a component.
fn read_component(doc: &XmlDocument, c: usize, file_stem: &str) -> (r: Result<Part, ExportError>)
    ensures
        match r {
            Ok(part) => item_of(doc.deep_view(), c, file_stem@) == part.deep_view(),
            Err(e) => item_of(doc.deep_view(), c, file_stem@) == Item::Invalid(e.deep_view()),
        },
{
    let class = doc.attribute_or_empty(c, "Classname");
    if same(class, MSG_CLASS) {
        return read_message(doc, c, file_stem);
    }
    let name = doc.attribute_or_empty(c, "Name");
    if same(class, SIG_CLASS) {
        let parent = parent_name(name);
        if ends_with(parent, INDEPENDENT_SIG_MSG_SUFFIX) {
            proof {
                reveal_strlit("signal");
                reveal_strlit(" '");
                reveal_strlit("signal '");
                assert("signal"@ + " '"@ == "signal '"@);
            }
            return Ok(
                Part::Skipped(note("signal", name, "' (in VECTOR independent-signal container)")),
            );
        }
        return match build_signal(doc, c, file_stem) {
            Ok(signal) => Ok(Part::Signal(name.to_owned(), parent.to_owned(), signal)),
            Err(e) => Err(e),
        };
    }
    let what = value_or(non_empty(Some(class)), "unknown");
    Ok(Part::Skipped(note(what, name, "' (not a CAN frame)")))
}

// ---------------------------------------------------------------------------
// The whole file
// ---------------------------------------------------------------------------

/// What each of some components comes to.
pub open spec fn items_of(doc: Seq<Node>, comps: Seq<usize>, stem: Seq<char>) -> Seq<Item> {
    Seq::new(comps.len(), |i: int| item_of(doc, comps[i], stem))
}

/// What makes the file unusable: the first invalid component.
pub open spec fn first_invalid(items: Seq<Item>) -> Option<Fault>
    decreases items.len(),
{
    if items.len() == 0 {
        None
    } else {
        match first_invalid(items.drop_last()) {
            Some(e) => Some(e),
            None => match items.last() {
                Item::Invalid(e) => Some(e),
                _ => None,
            },
        }
    }
}

/// The note about a signal whose message is not exported.
pub open spec fn stray_note(name: Seq<char>) -> Seq<char> {
    "signal '"@ + name + "' (its message is not exported)"@
}

/// The note about what a component comes to, where it is not exported. `names` are
/// the full names of the messages that are.
pub open spec fn note_on(item: Item, names: Seq<Seq<char>>) -> Option<Seq<char>> {
    match item {
        Item::Skipped(text) => Some(text),
        Item::Signal(name, parent, _) => if names.contains(parent) {
            None
        } else {
            Some(stray_note(name))
        },
        _ => None,
    }
}

/// The notes about the components that are not exported, in order.
pub open spec fn notes_among(items: Seq<Item>, names: Seq<Seq<char>>) -> Seq<Seq<char>>
    decreases items.len(),
{
    if items.len() == 0 {
        Seq::empty()
    } else {
        match note_on(items.last(), names) {
            Some(text) => notes_among(items.drop_last(), names).push(text),
            None => notes_among(items.drop_last(), names),
        }
    }
}

/// The full names of the messages, each once, in order of first appearance.
pub open spec fn message_names(items: Seq<Item>) -> Seq<Seq<char>>
    decreases items.len(),
{
    if items.len() == 0 {
        Seq::empty()
    } else {
        let before = message_names(items.drop_last());
        match items.last() {
            Item::Message(name, _) => if before.contains(name) {
                before
            } else {
                before.push(name)
            },
            _ => before,
        }
    }
}

/// The message with a full name: the last one, where the name is repeated.
pub open spec fn latest_message(items: Seq<Item>, name: Seq<char>) -> Option<Message>
    decreases items.len(),
{
    if items.len() == 0 {
        None
    } else {
        match items.last() {
            Item::Message(n, message) if n == name => Some(message),
            _ => latest_message(items.drop_last(), name),
        }
    }
}

/// The signals with the messages they claim, in order.
pub open spec fn claims(items: Seq<Item>) -> Seq<(Seq<char>, Signal)>
    decreases items.len(),
{
    if items.len() == 0 {
        Seq::empty()
    } else {
        match items.last() {
            Item::Signal(_, parent, signal) => claims(items.drop_last()).push((parent, signal)),
            _ => claims(items.drop_last()),
        }
    }
}

/// The signals that claim a message, in order.
pub open spec fn claimed_by(claims: Seq<(Seq<char>, Signal)>, name: Seq<char>) -> Seq<Signal>
    decreases claims.len(),
{
    if claims.len() == 0 {
        Seq::empty()
    } else if claims.last().0 == name {
        claimed_by(claims.drop_last(), name).push(claims.last().1)
    } else {
        claimed_by(claims.drop_last(), name)
    }
}

/// The message with a full name and the signals that claim it.
pub open spec fn complete_message(items: Seq<Item>, name: Seq<char>) -> Message {
    Message {
        signals: claimed_by(claims(items), name),
        ..latest_message(items, name)->0
    }
}

/// The messages to export: one for each full name, in order of first appearance,
/// with the signals that claim it. A signal that claims none of them is left out.
pub open spec fn exported(items: Seq<Item>) -> Seq<Message> {
    Seq::new(
        message_names(items).len(),
        |i: int| complete_message(items, message_names(items)[i]),
    )
}

/// How many signals some messages have.
pub open spec fn signal_total(messages: Seq<Message>) -> nat
    decreases messages.len(),
{
    if messages.len() == 0 {
        0
    } else {
        signal_total(messages.drop_last()) + messages.last().signals.len()
    }
}

/// A component that will be written as a message.
pub open spec fn is_convertible(doc: Seq<Node>, c: usize) -> bool {
    &&& class_of(doc, c) == MSG_CLASS@
    &&& !is_container(name_of(doc, c))
    &&& first_props(doc, c) matches Some(p) && attribute_of(doc, p, "CANId"@) is Some
}

/// The names of the components that will be written as messages, each once.
pub open spec fn convertible_names(doc: Seq<Node>, comps: Seq<usize>) -> Seq<Seq<char>>
    decreases comps.len(),
{
    if comps.len() == 0 {
        Seq::empty()
    } else {
        let before = convertible_names(doc, comps.drop_last());
        let c = comps.last();
        if is_convertible(doc, c) && !before.contains(name_of(doc, c)) {
            before.push(name_of(doc, c))
        } else {
            before
        }
    }
}

/// How many of some components have a class.
pub open spec fn class_count(doc: Seq<Node>, comps: Seq<usize>, class: Seq<char>) -> nat
    decreases comps.len(),
{
    if comps.len() == 0 {
        0
    } else {
        class_count(doc, comps.drop_last(), class) + if class_of(doc, comps.last()) == class {
            1nat
        } else {
            0nat
        }
    }
}

/// A signal component that belongs to one of some messages.
pub open spec fn is_signal_of(doc: Seq<Node>, c: usize, messages: Seq<Seq<char>>) -> bool {
    class_of(doc, c) == SIG_CLASS@ && messages.contains(before_last_dot(name_of(doc, c)))
}

/// How many of some components are signals of one of some messages.
pub open spec fn signal_count(doc: Seq<Node>, comps: Seq<usize>, messages: Seq<Seq<char>>) -> nat
    decreases comps.len(),
{
    if comps.len() == 0 {
        0
    } else {
        signal_count(doc, comps.drop_last(), messages) + if is_signal_of(
            doc,
            comps.last(),
            messages,
        ) {
            1nat
        } else {
            0nat
        }
    }
}

/// The counts of a source.
pub open spec fn source_counts(doc: Seq<Node>, comps: Seq<usize>) -> Counts {
    let names = convertible_names(doc, comps);
    Counts {
        total_messages: class_count(doc, comps, MSG_CLASS@),
        total_signals: class_count(doc, comps, SIG_CLASS@),
        convertible_messages: names.len(),
        convertible_signals: signal_count(doc, comps, names),
    }
}

/// What a document holds: a database, or what makes it unusable.
pub open spec fn database_of(doc: Seq<Node>, stem: Seq<char>) -> Result<Database, Fault> {
    let comps = components(doc);
    let items = items_of(doc, comps, stem);
    match first_invalid(items) {
        Some(e) => Err(e),
        None => Ok(
            Database {
                messages: exported(items),
                skipped: notes_among(items, message_names(items)),
                totals: source_counts(doc, comps),
            },
        ),
    }
}

/// Where a name stands in a list.
pub(crate) fn position_of(names: &Vec<String>, name: &str) -> (r: Option<usize>)
    ensures
        match r {
            Some(i) => i < names.len() && names.deep_view()[i as int] == name@,
            None => !names.deep_view().contains(name@),
        },
{
    let mut i: usize = 0;
    while i < names.len()
        invariant
            i <= names.len(),
            forall|j: int| 0 <= j < i ==> names.deep_view()[j] != name@,
        decreases names.len() - i,
    {
        if same(names[i].as_str(), name) {
            return Some(i);
        }
        i = i + 1;
    }
    None
}

/// Whether a component will be written as a message.
fn convertible(doc: &XmlDocument, c: usize) -> (r: bool)
    ensures
        r == is_convertible(doc.deep_view(), c),
{
    if !same(doc.attribute_or_empty(c, "Classname"), MSG_CLASS) {
        return false;
    }
    if ends_with(doc.attribute_or_empty(c, "Name"), INDEPENDENT_SIG_MSG_SUFFIX) {
        return false;
    }
    let props = doc.children_named(c, "Props");
    props.len() > 0 && doc.attribute(props[0], "CANId").is_some()
}

/// Count the source components, re-deriving the skip rules independently of what
/// [`read_m1dbc`] builds.
pub fn count_source(doc: &XmlDocument, components: &Vec<usize>) -> (r: SourceCounts)
    ensures
        r.deep_view() == source_counts(doc.deep_view(), components@),
{
    let ghost d = doc.deep_view();
    let ghost comps = components@;
    let mut total_messages: usize = 0;
    let mut total_signals: usize = 0;
    let mut names: Vec<String> = Vec::new();
    let mut k: usize = 0;
    proof {
        assert(comps.take(0) == Seq::<usize>::empty());
        assert(names.deep_view() == Seq::<Seq<char>>::empty());
    }
    while k < components.len()
        invariant
            k <= components.len(),
            d == doc.deep_view(),
            comps == components@,
            total_messages == class_count(d, comps.take(k as int), MSG_CLASS@),
            total_signals == class_count(d, comps.take(k as int), SIG_CLASS@),
            total_messages <= k,
            total_signals <= k,
            names.deep_view() == convertible_names(d, comps.take(k as int)),
            names.len() <= k,
        decreases components.len() - k,
    {
        let c = components[k];
        proof {
            assert(comps.take(k + 1).drop_last() == comps.take(k as int));
            assert(comps.take(k + 1).last() == c);
        }
        let class = doc.attribute_or_empty(c, "Classname");
        if same(class, MSG_CLASS) {
            total_messages = total_messages + 1;
        }
        if same(class, SIG_CLASS) {
            total_signals = total_signals + 1;
        }
        if convertible(doc, c) {
            let name = doc.attribute_or_empty(c, "Name");
            if position_of(&names, name).is_none() {
                let ghost before = names.deep_view();
                names.push(name.to_owned());
                assert(names.deep_view() == before.push(name@));
            }
        }
        k = k + 1;
    }
    let mut convertible_signals: usize = 0;
    k = 0;
    proof {
        assert(comps.take(components.len() as int) == comps);
    }
    while k < components.len()
        invariant
            k <= components.len(),
            d == doc.deep_view(),
            comps == components@,
            convertible_signals == signal_count(d, comps.take(k as int), names.deep_view()),
            convertible_signals <= k,
        decreases components.len() - k,
    {
        let c = components[k];
        proof {
            assert(comps.take(k + 1).drop_last() == comps.take(k as int));
            assert(comps.take(k + 1).last() == c);
        }
        if same(doc.attribute_or_empty(c, "Classname"), SIG_CLASS) {
            let parent = parent_name(doc.attribute_or_empty(c, "Name"));
            if position_of(&names, parent).is_some() {
                convertible_signals = convertible_signals + 1;
            }
        }
        k = k + 1;
    }
    SourceCounts {
        total_messages,
        total_signals,
        convertible_messages: names.len(),
        convertible_signals,
    }
}

/// An invalid component stays the first one when others follow.
proof fn lemma_invalid_stays(items: Seq<Item>, n: int)
    requires
        0 <= n <= items.len(),
        first_invalid(items.take(n)) is Some,
    ensures
        first_invalid(items) == first_invalid(items.take(n)),
    decreases items.len(),
{
    if n < items.len() {
        assert(items.drop_last().take(n) == items.take(n));
        lemma_invalid_stays(items.drop_last(), n);
    } else {
        assert(items.take(n) == items);
    }
}

/// No message name is listed twice.
proof fn lemma_message_names_are_distinct(items: Seq<Item>)
    ensures
        message_names(items).no_duplicates(),
    decreases items.len(),
{
    if items.len() > 0 {
        lemma_message_names_are_distinct(items.drop_last());
    }
}

/// The notes that may have to be made, in order: each with the message that makes it
/// needless by being exported, if one does.
spec fn remarks_of(items: Seq<Item>) -> Seq<(Option<Seq<char>>, Seq<char>)>
    decreases items.len(),
{
    if items.len() == 0 {
        Seq::empty()
    } else {
        let before = remarks_of(items.drop_last());
        match items.last() {
            Item::Skipped(text) => before.push((None, text)),
            Item::Signal(name, parent, _) => before.push((Some(parent), stray_note(name))),
            _ => before,
        }
    }
}

/// Those of some notes that no exported message makes needless.
spec fn needed(
    remarks: Seq<(Option<Seq<char>>, Seq<char>)>,
    names: Seq<Seq<char>>,
) -> Seq<Seq<char>>
    decreases remarks.len(),
{
    if remarks.len() == 0 {
        Seq::empty()
    } else {
        let before = needed(remarks.drop_last(), names);
        match remarks.last().0 {
            Some(parent) if names.contains(parent) => before,
            _ => before.push(remarks.last().1),
        }
    }
}

proof fn lemma_needed_remarks(items: Seq<Item>, names: Seq<Seq<char>>)
    ensures
        needed(remarks_of(items), names) == notes_among(items, names),
    decreases items.len(),
{
    if items.len() > 0 {
        let before = remarks_of(items.drop_last());
        lemma_needed_remarks(items.drop_last(), names);
        if remarks_of(items).len() > before.len() {
            assert(remarks_of(items).drop_last() == before);
        }
    }
}

/// What the components of a file come to, with nothing attached yet.
struct Collected {
    /// The full names of the messages.
    names: Vec<String>,
    /// The messages, without signals.
    messages: Vec<M1Message>,
    /// The signals, each with the full name of the message that it claims.
    waiting: Vec<(String, M1Signal)>,
    /// The notes that may have to be made.
    remarks: Vec<(Option<String>, String)>,
}

impl Collected {
    /// This is what some items come to.
    spec fn holds(self, items: Seq<Item>) -> bool {
        &&& self.names.deep_view() == message_names(items)
        &&& self.messages.len() == self.names.len()
        &&& forall|j: int|
            0 <= j < self.messages.len() ==> #[trigger] latest_message(
                items,
                self.names.deep_view()[j],
            ) == Some(self.messages.deep_view()[j])
        &&& self.waiting.deep_view() == claims(items)
        &&& self.remarks.deep_view() == remarks_of(items)
    }

    /// Nothing yet.
    fn new() -> (r: Collected)
        ensures
            r.holds(Seq::empty()),
    {
        let r = Collected {
            names: Vec::new(),
            messages: Vec::new(),
            waiting: Vec::new(),
            remarks: Vec::new(),
        };
        proof {
            assert(r.names.deep_view() == Seq::<Seq<char>>::empty());
            assert(r.waiting.deep_view() == Seq::<(Seq<char>, Signal)>::empty());
            assert(r.remarks.deep_view() == Seq::<(Option<Seq<char>>, Seq<char>)>::empty());
        }
        r
    }

    /// Take in one more message. A repeated name keeps its place and takes the later
    /// message.
    fn put_message(&mut self, name: String, message: M1Message, Ghost(items): Ghost<Seq<Item>>)
        requires
            old(self).holds(items),
        ensures
            final(self).holds(items.push(Item::Message(name@, message.deep_view()))),
    {
        let ghost value = message.deep_view();
        let ghost given = name@;
        let ghost now = items.push(Item::Message(given, value));
        let ghost old_names = self.names.deep_view();
        let ghost old_messages = self.messages.deep_view();
        proof {
            assert(now.drop_last() == items);
            lemma_message_names_are_distinct(items);
            lemma_message_names_are_distinct(now);
        }
        match position_of(&self.names, name.as_str()) {
            Some(i) => {
                self.messages[i] = message;
                proof {
                    assert(self.messages.deep_view() == old_messages.update(i as int, value));
                    assert(old_names.contains(given));
                }
            },
            None => {
                self.messages.push(message);
                self.names.push(name);
                proof {
                    assert(self.messages.deep_view() == old_messages.push(value));
                    assert(self.names.deep_view() == old_names.push(given));
                }
            },
        }
        proof {
            assert forall|j: int| 0 <= j < self.messages.len() implies #[trigger] latest_message(
                now,
                self.names.deep_view()[j],
            ) == Some(self.messages.deep_view()[j]) by {
                if j < old_names.len() {
                    assert(self.names.deep_view()[j] == old_names[j]);
                    assert(latest_message(items, old_names[j]) == Some(old_messages[j]));
                }
            }
        }
    }

    /// Take in what one more component comes to.
    fn put(&mut self, part: Part, Ghost(items): Ghost<Seq<Item>>)
        requires
            old(self).holds(items),
        ensures
            final(self).holds(items.push(part.deep_view())),
    {
        let ghost now = items.push(part.deep_view());
        let ghost old_waiting = self.waiting.deep_view();
        let ghost old_remarks = self.remarks.deep_view();
        proof {
            assert(now.drop_last() == items);
        }
        match part {
            Part::Message(name, message) => self.put_message(name, message, Ghost(items)),
            Part::Signal(name, parent, signal) => {
                let ghost claim = (parent@, signal.deep_view());
                let text = note("signal", name.as_str(), "' (its message is not exported)");
                let ghost remark = (Some(parent@), text@);
                self.remarks.push((Some(parent.as_str().to_owned()), text));
                self.waiting.push((parent, signal));
                proof {
                    reveal_strlit("signal");
                    reveal_strlit(" '");
                    reveal_strlit("signal '");
                    assert("signal"@ + " '"@ == "signal '"@);
                    assert(self.remarks.deep_view() == old_remarks.push(remark));
                    assert(self.waiting.deep_view() == old_waiting.push(claim));
                    assert(forall|n: Seq<char>| #[trigger]
                        latest_message(now, n) == latest_message(items, n));
                }
            },
            Part::Skipped(text) => {
                let ghost remark = (None::<Seq<char>>, text@);
                self.remarks.push((None, text));
                proof {
                    assert(self.remarks.deep_view() == old_remarks.push(remark));
                    assert(forall|n: Seq<char>| #[trigger]
                        latest_message(now, n) == latest_message(items, n));
                }
            },
        }
    }
}

/// Go through the components once. The list is unordered, so signals wait with the
/// name of the message that they claim until every message is known.
fn collect(doc: &XmlDocument, found: &Vec<usize>, file_stem: &str) -> (r: Result<
    Collected,
    ExportError,
>)
    ensures
        match r {
            Ok(collected) => first_invalid(items_of(doc.deep_view(), found@, file_stem@)) is None
                && collected.holds(items_of(doc.deep_view(), found@, file_stem@)),
            Err(e) => first_invalid(items_of(doc.deep_view(), found@, file_stem@)) == Some(
                e.deep_view(),
            ),
        },
{
    let ghost items = items_of(doc.deep_view(), found@, file_stem@);
    let mut collected = Collected::new();
    let mut k: usize = 0;
    proof {
        assert(items.take(0) == Seq::<Item>::empty());
    }
    while k < found.len()
        invariant
            k <= found.len(),
            items == items_of(doc.deep_view(), found@, file_stem@),
            first_invalid(items.take(k as int)) is None,
            collected.holds(items.take(k as int)),
        decreases found.len() - k,
    {
        let ghost before = items.take(k as int);
        proof {
            assert(items.take(k + 1) == before.push(items[k as int]));
            assert(items.take(k + 1).drop_last() == before);
        }
        match read_component(doc, found[k], file_stem) {
            Ok(part) => collected.put(part, Ghost(before)),
            Err(e) => {
                proof {
                    lemma_invalid_stays(items, k + 1);
                }
                return Err(e);
            },
        }
        k = k + 1;
    }
    proof {
        assert(items.take(items.len() as int) == items);
    }
    Ok(collected)
}

/// Give each message the signals that claim it, in order.
fn attach(names: &Vec<String>, messages: Vec<M1Message>, waiting: Vec<(String, M1Signal)>) -> (r:
    Vec<M1Message>)
    requires
        names.deep_view().no_duplicates(),
        messages.len() == names.len(),
        forall|j: int|
            0 <= j < messages.len() ==> (#[trigger] messages.deep_view()[j]).signals == Seq::<
                Signal,
            >::empty(),
    ensures
        r.len() == messages.len(),
        forall|j: int|
            0 <= j < r.len() ==> (#[trigger] r.deep_view()[j]) == (Message {
                signals: claimed_by(waiting.deep_view(), names.deep_view()[j]),
                ..messages.deep_view()[j]
            }),
{
    let ghost bare = messages.deep_view();
    let ghost all = waiting.deep_view();
    let ghost listed = names.deep_view();
    let mut messages = messages;
    proof {
        assert(all.take(0) == Seq::<(Seq<char>, Signal)>::empty());
    }
    for claim in it: waiting
        invariant
            it.seq().len() == all.len(),
            forall|j: int| 0 <= j < all.len() ==> (#[trigger] it.seq()[j]).deep_view() == all[j],
            listed == names.deep_view(),
            listed.no_duplicates(),
            messages.len() == names.len() == bare.len(),
            forall|j: int|
                0 <= j < messages.len() ==> (#[trigger] messages.deep_view()[j]) == (Message {
                    signals: claimed_by(all.take(it.index() as int), listed[j]),
                    ..bare[j]
                }),
    {
        let ghost n = it.index() as int;
        let ghost old_messages = messages.deep_view();
        proof {
            assert(claim.deep_view() == all[n]);
            assert(all.take(n + 1).drop_last() == all.take(n));
        }
        let (parent, signal) = claim;
        if let Some(i) = position_of(names, parent.as_str()) {
            let ghost old_signals = messages[i as int].signals.deep_view();
            messages[i].signals.push(signal);
            proof {
                assert(messages[i as int].signals.deep_view() == old_signals.push(all[n].1));
                assert forall|j: int| 0 <= j < messages.len() implies (
                #[trigger] messages.deep_view()[j]) == (Message {
                    signals: claimed_by(all.take(n + 1), listed[j]),
                    ..bare[j]
                }) by {
                    assert(old_messages[j] == Message {
                        signals: claimed_by(all.take(n), listed[j]),
                        ..bare[j]
                    });
                    if j != i {
                        assert(listed[j] != listed[i as int]);
                    }
                }
            }
        }
    }
    proof {
        assert(all.take(all.len() as int) == all);
    }
    messages
}

/// Keep the notes that no exported message makes needless.
fn settle(remarks: Vec<(Option<String>, String)>, names: &Vec<String>) -> (r: Vec<String>)
    ensures
        r.deep_view() == needed(remarks.deep_view(), names.deep_view()),
{
    let ghost all = remarks.deep_view();
    let ghost listed = names.deep_view();
    let mut notes: Vec<String> = Vec::new();
    proof {
        assert(all.take(0) == Seq::<(Option<Seq<char>>, Seq<char>)>::empty());
        assert(notes.deep_view() == Seq::<Seq<char>>::empty());
    }
    for remark in it: remarks
        invariant
            it.seq().len() == all.len(),
            forall|j: int| 0 <= j < all.len() ==> (#[trigger] it.seq()[j]).deep_view() == all[j],
            listed == names.deep_view(),
            notes.deep_view() == needed(all.take(it.index() as int), listed),
    {
        let ghost n = it.index() as int;
        let ghost before = notes.deep_view();
        proof {
            assert(remark.deep_view() == all[n]);
            assert(all.take(n + 1).drop_last() == all.take(n));
        }
        let (parent, text) = remark;
        let needless = match &parent {
            Some(parent) => {
                let place = position_of(names, parent.as_str());
                proof {
                    if let Some(i) = place {
                        assert(listed[i as int] == parent@);
                    }
                }
                place.is_some()
            },
            None => false,
        };
        if !needless {
            let ghost given = text@;
            notes.push(text);
            assert(notes.deep_view() == before.push(given));
        }
    }
    proof {
        assert(all.take(all.len() as int) == all);
    }
    notes
}

/// Read a parsed `.m1dbc`.
///
/// `file_stem` is the source file's name without its extension. Every component
/// name is qualified with it, so it is stripped from message and signal names to
/// give the bare DBC identifiers.
pub fn read_m1dbc(doc: &XmlDocument, file_stem: &str) -> (r: Result<M1DbcFile, ExportError>)
    ensures
        match r {
            Ok(file) => database_of(doc.deep_view(), file_stem@) == Ok::<Database, Fault>(
                file.deep_view(),
            ),
            Err(e) => database_of(doc.deep_view(), file_stem@) == Err::<Database, Fault>(
                e.deep_view(),
            ),
        },
{
    let streams = doc.nodes_named("ComponentStream");
    let lists = doc.all_children_named(&streams, "List");
    let found = doc.all_children_named(&lists, "Component");
    let ghost d = doc.deep_view();
    let ghost items = items_of(d, found@, file_stem@);
    let collected = match collect(doc, &found, file_stem) {
        Ok(collected) => collected,
        Err(e) => {
            return Err(e);
        },
    };
    let Collected { names, messages, waiting, remarks } = collected;
    let ghost bare = messages.deep_view();
    let ghost listed = names.deep_view();
    proof {
        lemma_message_names_are_distinct(items);
        assert forall|j: int| 0 <= j < messages.len() implies (
        #[trigger] messages.deep_view()[j]).signals == Seq::<Signal>::empty() by {
            assert(latest_message(items, listed[j]) == Some(bare[j]));
            lemma_latest_is_bare(d, found@, file_stem@, listed[j]);
        }
    }
    let messages = attach(&names, messages, waiting);
    let skipped = settle(remarks, &names);
    let totals = count_source(doc, &found);
    proof {
        lemma_needed_remarks(items, listed);
        assert forall|j: int| 0 <= j < messages.len() implies #[trigger] messages.deep_view()[j]
            == exported(items)[j] by {
            assert(latest_message(items, listed[j]) == Some(bare[j]));
        }
        assert(messages.deep_view() == exported(items));
    }
    Ok(M1DbcFile { messages, skipped, totals })
}

/// A message component has no signals of its own.
proof fn lemma_latest_is_bare(doc: Seq<Node>, comps: Seq<usize>, stem: Seq<char>, name: Seq<char>)
    ensures
        latest_message(items_of(doc, comps, stem), name) matches Some(m) ==> m.signals
            == Seq::<Signal>::empty(),
    decreases comps.len(),
{
    if comps.len() > 0 {
        let items = items_of(doc, comps, stem);
        assert(items.drop_last() == items_of(doc, comps.drop_last(), stem));
        lemma_latest_is_bare(doc, comps.drop_last(), stem, name);
    }
}

/// Read the text of a `.m1dbc`.
pub fn parse_m1dbc(text: &str, file_stem: &str) -> (r: Result<M1DbcFile, ExportError>)
    ensures
        match crate::xml::xml_document(text@) {
            Err(e) => r matches Err(error) && error.deep_view() == Fault::Xml(e),
            Ok(doc) => match r {
                Ok(file) => database_of(doc, file_stem@) == Ok::<Database, Fault>(
                    file.deep_view(),
                ),
                Err(error) => database_of(doc, file_stem@) == Err::<Database, Fault>(
                    error.deep_view(),
                ),
            },
        },
{
    match crate::xml::parse_xml(text) {
        Ok(doc) => read_m1dbc(&doc, file_stem),
        Err(e) => Err(ExportError::Xml(e)),
    }
}

// ---------------------------------------------------------------------------
// Laws
// ---------------------------------------------------------------------------

/// How many signals claim one of some messages, message by message.
spec fn claimed_total(claims: Seq<(Seq<char>, Signal)>, names: Seq<Seq<char>>) -> nat
    decreases names.len(),
{
    if names.len() == 0 {
        0
    } else {
        claimed_total(claims, names.drop_last()) + claimed_by(claims, names.last()).len()
    }
}

/// The components before the last one come to what they come to.
pub(crate) proof fn lemma_items_of_fewer(doc: Seq<Node>, comps: Seq<usize>, stem: Seq<char>)
    requires
        comps.len() > 0,
    ensures
        items_of(doc, comps, stem).drop_last() == items_of(doc, comps.drop_last(), stem),
        items_of(doc, comps, stem).last() == item_of(doc, comps.last(), stem),
{
}

/// The parser keeps the messages that the counting walk calls convertible.
pub(crate) proof fn lemma_names_agree(doc: Seq<Node>, comps: Seq<usize>, stem: Seq<char>)
    requires
        first_invalid(items_of(doc, comps, stem)) is None,
    ensures
        message_names(items_of(doc, comps, stem)) == convertible_names(doc, comps),
    decreases comps.len(),
{
    if comps.len() > 0 {
        lemma_items_of_fewer(doc, comps, stem);
        lemma_names_agree(doc, comps.drop_last(), stem);
    }
}

/// No convertible name is the container's, and none is listed twice.
pub(crate) proof fn lemma_convertible_names(doc: Seq<Node>, comps: Seq<usize>)
    ensures
        convertible_names(doc, comps).no_duplicates(),
        forall|i: int|
            0 <= i < convertible_names(doc, comps).len() ==> !is_container(
                #[trigger] convertible_names(doc, comps)[i],
            ),
    decreases comps.len(),
{
    if comps.len() > 0 {
        lemma_convertible_names(doc, comps.drop_last());
        let before = convertible_names(doc, comps.drop_last());
        let names = convertible_names(doc, comps);
        assert forall|i: int| 0 <= i < names.len() implies !is_container(#[trigger] names[i]) by {
            if i < before.len() {
                assert(names[i] == before[i]);
            }
        }
    }
}

/// One more claim counts for the one message that it names, if that is listed.
proof fn lemma_one_more_claim(
    claims: Seq<(Seq<char>, Signal)>,
    claim: (Seq<char>, Signal),
    names: Seq<Seq<char>>,
)
    requires
        names.no_duplicates(),
    ensures
        claimed_total(claims.push(claim), names) == claimed_total(claims, names)
            + if names.contains(claim.0) {
            1nat
        } else {
            0nat
        },
    decreases names.len(),
{
    assert(claims.push(claim).drop_last() == claims);
    if names.len() > 0 {
        let fewer = names.drop_last();
        lemma_one_more_claim(claims, claim, fewer);
        if names.last() == claim.0 {
            if fewer.contains(claim.0) {
                let i = choose|i: int| 0 <= i < fewer.len() && fewer[i] == claim.0;
                assert(names[i] == names[names.len() - 1]);
            }
            assert(names[names.len() - 1] == claim.0);
        } else {
            if names.contains(claim.0) {
                let i = choose|i: int| 0 <= i < names.len() && names[i] == claim.0;
                assert(fewer[i] == claim.0);
            }
            if fewer.contains(claim.0) {
                let i = choose|i: int| 0 <= i < fewer.len() && fewer[i] == claim.0;
                assert(names[i] == claim.0);
            }
        }
    }
}

/// Where nothing is claimed, nothing is counted.
proof fn lemma_no_claims(names: Seq<Seq<char>>)
    ensures
        claimed_total(Seq::empty(), names) == 0,
    decreases names.len(),
{
    if names.len() > 0 {
        lemma_no_claims(names.drop_last());
    }
}

/// The signals that claim a listed message are those that the counting walk
/// counts.
proof fn lemma_claims_counted(
    doc: Seq<Node>,
    comps: Seq<usize>,
    stem: Seq<char>,
    names: Seq<Seq<char>>,
)
    requires
        first_invalid(items_of(doc, comps, stem)) is None,
        names.no_duplicates(),
        forall|i: int| 0 <= i < names.len() ==> !is_container(#[trigger] names[i]),
    ensures
        claimed_total(claims(items_of(doc, comps, stem)), names) == signal_count(
            doc,
            comps,
            names,
        ),
    decreases comps.len(),
{
    if comps.len() == 0 {
        lemma_no_claims(names);
    } else {
        let items = items_of(doc, comps, stem);
        lemma_items_of_fewer(doc, comps, stem);
        lemma_claims_counted(doc, comps.drop_last(), stem, names);
        let c = comps.last();
        let parent = before_last_dot(name_of(doc, c));
        reveal_strlit("BuiltIn.CAN.Message");
        reveal_strlit("BuiltIn.CAN.Signal");
        assert(MSG_CLASS@.len() != SIG_CLASS@.len());
        if let Item::Signal(_, claimed, signal) = items.last() {
            lemma_one_more_claim(claims(items.drop_last()), (claimed, signal), names);
        }
        if names.contains(parent) {
            let i = choose|i: int| 0 <= i < names.len() && names[i] == parent;
            assert(!is_container(names[i]));
        }
    }
}

/// The signals of the first messages are those that claim them.
proof fn lemma_exported_total(items: Seq<Item>, n: int)
    requires
        0 <= n <= message_names(items).len(),
    ensures
        signal_total(exported(items).take(n)) == claimed_total(
            claims(items),
            message_names(items).take(n),
        ),
    decreases n,
{
    if n > 0 {
        lemma_exported_total(items, n - 1);
        assert(exported(items).take(n).drop_last() == exported(items).take(n - 1));
        assert(message_names(items).take(n).drop_last() == message_names(items).take(n - 1));
    }
}

/// Every file that is accepted keeps exactly the messages and signals that the
/// independent count calls convertible: what is written equals what is
/// convertible.
pub proof fn law_written_equals_convertible(doc: Seq<Node>, stem: Seq<char>)
    ensures
        database_of(doc, stem) matches Ok(file) ==> {
            &&& file.messages.len() == file.totals.convertible_messages
            &&& signal_total(file.messages) == file.totals.convertible_signals
        },
{
    if database_of(doc, stem) is Ok {
        let comps = components(doc);
        let items = items_of(doc, comps, stem);
        let names = message_names(items);
        lemma_names_agree(doc, comps, stem);
        lemma_convertible_names(doc, comps);
        lemma_claims_counted(doc, comps, stem, names);
        lemma_exported_total(items, names.len() as int);
        assert(exported(items).take(names.len() as int) == exported(items));
        assert(names.take(names.len() as int) == names);
    }
}

/// A component that is not exported: the container of independent signals, a message
/// without a `CANId`, a signal whose message is not exported, or anything that is
/// neither a message nor a signal. `kept` are the full names of the exported messages.
pub open spec fn is_left_out(doc: Seq<Node>, c: usize, kept: Seq<Seq<char>>) -> bool {
    let name = name_of(doc, c);
    if class_of(doc, c) == MSG_CLASS@ {
        is_container(name) || (first_props(doc, c) matches Some(p) && attribute_of(
            doc,
            p,
            "CANId"@,
        ) is None)
    } else {
        class_of(doc, c) == SIG_CLASS@ ==> !kept.contains(before_last_dot(name))
    }
}

/// Those of some components that are not exported, in order.
pub open spec fn left_out(doc: Seq<Node>, comps: Seq<usize>, kept: Seq<Seq<char>>) -> Seq<usize>
    decreases comps.len(),
{
    if comps.len() == 0 {
        Seq::empty()
    } else if is_left_out(doc, comps.last(), kept) {
        left_out(doc, comps.drop_last(), kept).push(comps.last())
    } else {
        left_out(doc, comps.drop_last(), kept)
    }
}

/// The messages with their full names, in order.
pub open spec fn message_list(items: Seq<Item>) -> Seq<(Seq<char>, Message)>
    decreases items.len(),
{
    if items.len() == 0 {
        Seq::empty()
    } else {
        match items.last() {
            Item::Message(name, message) => message_list(items.drop_last()).push((name, message)),
            _ => message_list(items.drop_last()),
        }
    }
}

proof fn lemma_notes(doc: Seq<Node>, comps: Seq<usize>, stem: Seq<char>, kept: Seq<Seq<char>>)
    requires
        first_invalid(items_of(doc, comps, stem)) is None,
        forall|i: int| 0 <= i < kept.len() ==> !is_container(#[trigger] kept[i]),
    ensures
        notes_among(items_of(doc, comps, stem), kept) == left_out(doc, comps, kept).map_values(
            |c: usize| note_on(item_of(doc, c, stem), kept)->0,
        ),
        left_out(doc, comps, kept).len() + message_list(items_of(doc, comps, stem)).len()
            + signal_count(doc, comps, kept) == comps.len(),
    decreases comps.len(),
{
    let note = |c: usize| note_on(item_of(doc, c, stem), kept)->0;
    if comps.len() == 0 {
        assert(left_out(doc, comps, kept).map_values(note) == Seq::<Seq<char>>::empty());
    } else {
        lemma_items_of_fewer(doc, comps, stem);
        lemma_notes(doc, comps.drop_last(), stem, kept);
        let before = left_out(doc, comps.drop_last(), kept);
        let parent = before_last_dot(name_of(doc, comps.last()));
        assert(before.push(comps.last()).map_values(note) == before.map_values(note).push(
            note(comps.last()),
        ));
        reveal_strlit("BuiltIn.CAN.Message");
        reveal_strlit("BuiltIn.CAN.Signal");
        assert(MSG_CLASS@.len() != SIG_CLASS@.len());
        if kept.contains(parent) {
            let i = choose|i: int| 0 <= i < kept.len() && kept[i] == parent;
            assert(!is_container(kept[i]));
        }
    }
}

/// A database has exactly one note for each component that is not exported, in
/// document order. The notes, the messages that can be exported and the signals that
/// are attached to one make up the whole list of components.
pub proof fn law_every_component_left_out_is_noted(doc: Seq<Node>, stem: Seq<char>)
    ensures
        database_of(doc, stem) matches Ok(file) ==> {
            let comps = components(doc);
            let kept = convertible_names(doc, comps);
            &&& file.skipped == left_out(doc, comps, kept).map_values(
                |c: usize| note_on(item_of(doc, c, stem), kept)->0,
            )
            &&& file.skipped.len() + message_list(items_of(doc, comps, stem)).len() + signal_total(
                file.messages,
            ) == comps.len()
        },
{
    if database_of(doc, stem) is Ok {
        let comps = components(doc);
        lemma_names_agree(doc, comps, stem);
        lemma_convertible_names(doc, comps);
        lemma_notes(doc, comps, stem, convertible_names(doc, comps));
        law_written_equals_convertible(doc, stem);
    }
}

proof fn lemma_exported_names(doc: Seq<Node>, comps: Seq<usize>, stem: Seq<char>)
    ensures
        forall|name: Seq<char>|
            (#[trigger] latest_message(items_of(doc, comps, stem), name)) matches Some(message)
                ==> is_identifier(message.name),
        forall|i: int|
            0 <= i < claims(items_of(doc, comps, stem)).len() ==> is_identifier(
                (#[trigger] claims(items_of(doc, comps, stem))[i]).1.name,
            ),
        forall|i: int|
            0 <= i < claims(items_of(doc, comps, stem)).len() ==> !is_container(
                (#[trigger] claims(items_of(doc, comps, stem))[i]).0,
            ),
    decreases comps.len(),
{
    if comps.len() > 0 {
        let items = items_of(doc, comps, stem);
        let before = items_of(doc, comps.drop_last(), stem);
        let name = name_of(doc, comps.last());
        lemma_items_of_fewer(doc, comps, stem);
        lemma_exported_names(doc, comps.drop_last(), stem);
        law_sanitized_names_are_identifiers(message_name(name, stem), stem);
        law_sanitized_names_are_identifiers(after_last_dot(name), stem);
        assert forall|n: Seq<char>| true implies (#[trigger] latest_message(items, n)) matches Some(
            message,
        ) ==> is_identifier(message.name) by {
            assert(latest_message(before, n) matches Some(message) ==> is_identifier(message.name));
        }
        assert forall|i: int| 0 <= i < claims(items).len() implies is_identifier(
            (#[trigger] claims(items)[i]).1.name,
        ) && !is_container(claims(items)[i].0) by {
            if i < claims(before).len() {
                assert(claims(items)[i] == claims(before)[i]);
            }
        }
    }
}

proof fn lemma_claimed_are_claims(claims: Seq<(Seq<char>, Signal)>, name: Seq<char>, i: int)
    requires
        0 <= i < claimed_by(claims, name).len(),
    ensures
        exists|k: int|
            0 <= k < claims.len() && (#[trigger] claims[k]).1 == claimed_by(claims, name)[i],
    decreases claims.len(),
{
    if claims.len() > 0 {
        let before = claimed_by(claims.drop_last(), name);
        if claims.last().0 == name && i == before.len() {
            assert(claims[claims.len() - 1].1 == claimed_by(claims, name)[i]);
        } else {
            lemma_claimed_are_claims(claims.drop_last(), name, i);
            let k = choose|k: int|
                0 <= k < claims.drop_last().len() && (#[trigger] claims.drop_last()[k]).1
                    == before[i];
            assert(claims[k].1 == claimed_by(claims, name)[i]);
        }
    }
}

pub(crate) proof fn lemma_names_have_messages(items: Seq<Item>, i: int)
    requires
        0 <= i < message_names(items).len(),
    ensures
        latest_message(items, message_names(items)[i]) is Some,
    decreases items.len(),
{
    if items.len() > 0 {
        let before = message_names(items.drop_last());
        if i < before.len() {
            lemma_names_have_messages(items.drop_last(), i);
        }
    }
}

/// Every message and every signal of a database has a valid DBC identifier for its
/// name, whatever the source calls it.
pub proof fn law_exported_names_are_identifiers(doc: Seq<Node>, stem: Seq<char>)
    ensures
        database_of(doc, stem) matches Ok(file) ==> {
            &&& forall|i: int|
                0 <= i < file.messages.len() ==> is_identifier((#[trigger] file.messages[i]).name)
            &&& forall|i: int, k: int|
                0 <= i < file.messages.len() && 0 <= k < file.messages[i].signals.len()
                    ==> is_identifier((#[trigger] file.messages[i].signals[k]).name)
        },
{
    if let Ok(file) = database_of(doc, stem) {
        let items = items_of(doc, components(doc), stem);
        lemma_exported_names(doc, components(doc), stem);
        assert forall|i: int| 0 <= i < file.messages.len() implies is_identifier(
            (#[trigger] file.messages[i]).name,
        ) by {
            lemma_names_have_messages(items, i);
            assert(latest_message(items, message_names(items)[i]) is Some);
        }
        assert forall|i: int, k: int|
            0 <= i < file.messages.len() && 0 <= k
                < file.messages[i].signals.len() implies is_identifier(
            (#[trigger] file.messages[i].signals[k]).name,
        ) by {
            lemma_claimed_are_claims(claims(items), message_names(items)[i], k);
        }
    }
}

proof fn lemma_default_numbers()
    ensures
        is_float_text("1"@),
        is_float_text("0"@),
{
    reveal_strlit("1");
    reveal_strlit("0");
    assert(is_digit("1"@[0]));
    assert(is_digit("0"@[0]));
    assert(is_mantissa("1"@));
    assert(is_mantissa("0"@));
}

proof fn lemma_claimed_numbers(doc: Seq<Node>, comps: Seq<usize>, stem: Seq<char>)
    ensures
        forall|i: int|
            0 <= i < claims(items_of(doc, comps, stem)).len() ==> has_numbers(
                (#[trigger] claims(items_of(doc, comps, stem))[i]).1,
            ),
    decreases comps.len(),
{
    if comps.len() > 0 {
        let items = items_of(doc, comps, stem);
        let before = items_of(doc, comps.drop_last(), stem);
        lemma_items_of_fewer(doc, comps, stem);
        lemma_claimed_numbers(doc, comps.drop_last(), stem);
        lemma_default_numbers();
        assert forall|i: int| 0 <= i < claims(items).len() implies has_numbers(
            (#[trigger] claims(items)[i]).1,
        ) by {
            if i < claims(before).len() {
                assert(claims(items)[i] == claims(before)[i]);
            }
        }
    }
}

/// The scale and the offset of a signal denote numbers.
pub open spec fn has_numbers(signal: Signal) -> bool {
    is_float_text(signal.scale) && is_float_text(signal.offset)
}

/// The scale and the offset of every signal of a database denote numbers, whatever the
/// source says.
pub proof fn law_exported_scales_and_offsets_are_numbers(doc: Seq<Node>, stem: Seq<char>)
    ensures
        database_of(doc, stem) matches Ok(file) ==> forall|i: int, k: int|
            0 <= i < file.messages.len() && 0 <= k < file.messages[i].signals.len()
                ==> has_numbers(#[trigger] file.messages[i].signals[k]),
{
    if let Ok(file) = database_of(doc, stem) {
        let items = items_of(doc, components(doc), stem);
        lemma_claimed_numbers(doc, components(doc), stem);
        assert forall|i: int, k: int|
            0 <= i < file.messages.len() && 0 <= k
                < file.messages[i].signals.len() implies has_numbers(
            #[trigger] file.messages[i].signals[k],
        ) by {
            lemma_claimed_are_claims(claims(items), message_names(items)[i], k);
        }
    }
}

/// The container of independent signals is never exported: no exported message has
/// its full name, and no signal that claims it is kept.
pub proof fn law_the_container_is_never_exported(doc: Seq<Node>, stem: Seq<char>)
    ensures
        database_of(doc, stem) is Ok ==> {
            &&& forall|i: int|
                0 <= i < message_names(items_of(doc, components(doc), stem)).len()
                    ==> !is_container(
                    #[trigger] message_names(items_of(doc, components(doc), stem))[i],
                )
            &&& forall|i: int|
                0 <= i < claims(items_of(doc, components(doc), stem)).len() ==> !is_container(
                    (#[trigger] claims(items_of(doc, components(doc), stem))[i]).0,
                )
        },
{
    if database_of(doc, stem) is Ok {
        lemma_names_agree(doc, components(doc), stem);
        lemma_convertible_names(doc, components(doc));
        lemma_exported_names(doc, components(doc), stem);
    }
}

/// The items that are messages, and nothing else.
spec fn as_items(messages: Seq<(Seq<char>, Message)>) -> Seq<Item> {
    messages.map_values(|m: (Seq<char>, Message)| Item::Message(m.0, m.1))
}

proof fn lemma_messages_alone(items: Seq<Item>)
    ensures
        message_names(items) == message_names(as_items(message_list(items))),
        forall|name: Seq<char>| #[trigger]
            latest_message(items, name) == latest_message(as_items(message_list(items)), name),
    decreases items.len(),
{
    if items.len() > 0 {
        let before = items.drop_last();
        lemma_messages_alone(before);
        let list = as_items(message_list(items));
        if items.last() is Message {
            assert(list.drop_last() == as_items(message_list(before)));
            assert(list.last() == items.last());
        }
        assert forall|name: Seq<char>| #[trigger]
            latest_message(items, name) == latest_message(list, name) by {
            assert(latest_message(before, name) == latest_message(
                as_items(message_list(before)),
                name,
            ));
        }
    }
}

/// What is exported depends on the messages in their order and on the signals in
/// theirs.
proof fn lemma_exported_depends(a: Seq<Item>, b: Seq<Item>)
    requires
        message_list(a) == message_list(b),
        claims(a) == claims(b),
    ensures
        exported(a) == exported(b),
        message_names(a) == message_names(b),
{
    lemma_messages_alone(a);
    lemma_messages_alone(b);
    assert forall|i: int| 0 <= i < exported(a).len() implies #[trigger] exported(a)[i] == exported(
        b,
    )[i] by {
        let name = message_names(a)[i];
        assert(latest_message(a, name) == latest_message(b, name));
    }
}

/// What there is to know of a component: its class and full name, whether it counts
/// as a convertible message, and what it comes to.
pub struct Facts {
    pub class: Seq<char>,
    pub name: Seq<char>,
    pub convertible: bool,
    pub item: Item,
}

/// What there is to know of some components.
pub open spec fn facts_of(doc: Seq<Node>, comps: Seq<usize>, stem: Seq<char>) -> Seq<Facts> {
    Seq::new(
        comps.len(),
        |i: int|
            Facts {
                class: class_of(doc, comps[i]),
                name: name_of(doc, comps[i]),
                convertible: is_convertible(doc, comps[i]),
                item: item_of(doc, comps[i], stem),
            },
    )
}

/// Those of some components that have a class, in order.
pub open spec fn of_class(facts: Seq<Facts>, class: Seq<char>) -> Seq<Facts> {
    facts.filter(|f: Facts| f.class == class)
}

/// Only a message component counts as a convertible message or comes to a message,
/// and only a signal component comes to a signal.
spec fn are_facts(facts: Seq<Facts>) -> bool {
    forall|i: int|
        0 <= i < facts.len() ==> {
            &&& (#[trigger] facts[i]).convertible ==> facts[i].class == MSG_CLASS@
            &&& facts[i].item is Message ==> facts[i].class == MSG_CLASS@
            &&& facts[i].item is Signal ==> facts[i].class == SIG_CLASS@
        }
}

/// What some components come to.
spec fn items_in(facts: Seq<Facts>) -> Seq<Item> {
    facts.map_values(|f: Facts| f.item)
}

/// The names of the convertible messages, each once.
spec fn names_in(facts: Seq<Facts>) -> Seq<Seq<char>>
    decreases facts.len(),
{
    if facts.len() == 0 {
        Seq::empty()
    } else {
        let before = names_in(facts.drop_last());
        if facts.last().convertible && !before.contains(facts.last().name) {
            before.push(facts.last().name)
        } else {
            before
        }
    }
}

/// How many of some signal components belong to one of some messages.
spec fn signals_in(facts: Seq<Facts>, names: Seq<Seq<char>>) -> nat
    decreases facts.len(),
{
    if facts.len() == 0 {
        0
    } else {
        signals_in(facts.drop_last(), names) + if names.contains(
            before_last_dot(facts.last().name),
        ) {
            1nat
        } else {
            0nat
        }
    }
}

proof fn lemma_one_more_of_class(facts: Seq<Facts>, class: Seq<char>)
    requires
        facts.len() > 0,
    ensures
        of_class(facts, class) == (if facts.last().class == class {
            of_class(facts.drop_last(), class).push(facts.last())
        } else {
            of_class(facts.drop_last(), class)
        }),
{
    reveal(Seq::filter);
}

/// What is exported and counted of some components is that of their messages alone
/// and of their signals alone.
proof fn lemma_facts_by_class(facts: Seq<Facts>)
    requires
        are_facts(facts),
    ensures
        message_list(items_in(facts)) == message_list(items_in(of_class(facts, MSG_CLASS@))),
        claims(items_in(facts)) == claims(items_in(of_class(facts, SIG_CLASS@))),
        names_in(facts) == names_in(of_class(facts, MSG_CLASS@)),
    decreases facts.len(),
{
    let messages = of_class(facts, MSG_CLASS@);
    let signals = of_class(facts, SIG_CLASS@);
    if facts.len() == 0 {
        reveal(Seq::filter);
        assert(messages == facts && signals == facts);
    } else {
        let before = facts.drop_last();
        let last = facts.last();
        assert forall|i: int| 0 <= i < before.len() implies {
            &&& (#[trigger] before[i]).convertible ==> before[i].class == MSG_CLASS@
            &&& before[i].item is Message ==> before[i].class == MSG_CLASS@
            &&& before[i].item is Signal ==> before[i].class == SIG_CLASS@
        } by {
            assert(before[i] == facts[i]);
        }
        assert(last == facts[facts.len() - 1]);
        lemma_facts_by_class(before);
        lemma_one_more_of_class(facts, MSG_CLASS@);
        lemma_one_more_of_class(facts, SIG_CLASS@);
        assert(items_in(facts).drop_last() == items_in(before));
        assert(items_in(facts).last() == last.item);
        if last.class == MSG_CLASS@ {
            assert(messages.drop_last() == of_class(before, MSG_CLASS@));
            assert(items_in(messages).drop_last() == items_in(of_class(before, MSG_CLASS@)));
            assert(items_in(messages).last() == last.item);
        }
        if last.class == SIG_CLASS@ {
            assert(signals.drop_last() == of_class(before, SIG_CLASS@));
            assert(items_in(signals).drop_last() == items_in(of_class(before, SIG_CLASS@)));
            assert(items_in(signals).last() == last.item);
        }
    }
}

/// The counts of a source are those of what there is to know of its components.
proof fn lemma_facts_count(doc: Seq<Node>, comps: Seq<usize>, stem: Seq<char>, names: Seq<Seq<char>>)
    ensures
        are_facts(facts_of(doc, comps, stem)),
        items_in(facts_of(doc, comps, stem)) == items_of(doc, comps, stem),
        convertible_names(doc, comps) == names_in(facts_of(doc, comps, stem)),
        class_count(doc, comps, MSG_CLASS@) == of_class(
            facts_of(doc, comps, stem),
            MSG_CLASS@,
        ).len(),
        class_count(doc, comps, SIG_CLASS@) == of_class(
            facts_of(doc, comps, stem),
            SIG_CLASS@,
        ).len(),
        signal_count(doc, comps, names) == signals_in(
            of_class(facts_of(doc, comps, stem), SIG_CLASS@),
            names,
        ),
    decreases comps.len(),
{
    let facts = facts_of(doc, comps, stem);
    reveal_strlit("BuiltIn.CAN.Message");
    reveal_strlit("BuiltIn.CAN.Signal");
    assert(MSG_CLASS@.len() != SIG_CLASS@.len());
    assert(items_in(facts) == items_of(doc, comps, stem));
    if comps.len() == 0 {
        reveal(Seq::filter);
    } else {
        let before = facts_of(doc, comps.drop_last(), stem);
        assert(facts.drop_last() == before);
        lemma_facts_count(doc, comps.drop_last(), stem, names);
        lemma_one_more_of_class(facts, MSG_CLASS@);
        lemma_one_more_of_class(facts, SIG_CLASS@);
        let signals = of_class(facts, SIG_CLASS@);
        if facts.last().class == SIG_CLASS@ {
            assert(signals.drop_last() == of_class(before, SIG_CLASS@));
        }
    }
}

proof fn lemma_notes_of_both(a: Seq<Item>, b: Seq<Item>, names: Seq<Seq<char>>)
    ensures
        notes_among(a + b, names) == notes_among(a, names) + notes_among(b, names),
    decreases b.len(),
{
    if b.len() == 0 {
        assert(a + b == a);
        assert(notes_among(a, names) + Seq::<Seq<char>>::empty() == notes_among(a, names));
    } else {
        lemma_notes_of_both(a, b.drop_last(), names);
        assert((a + b).drop_last() == a + b.drop_last());
    }
}

/// One item more makes its note more, wherever it stands.
proof fn lemma_notes_without(items: Seq<Item>, i: int, names: Seq<Seq<char>>)
    requires
        0 <= i < items.len(),
    ensures
        notes_among(items, names).to_multiset() == (match note_on(items[i], names) {
            Some(text) => notes_among(items.remove(i), names).to_multiset().insert(text),
            None => notes_among(items.remove(i), names).to_multiset(),
        }),
{
    let front = items.take(i);
    let back = items.skip(i + 1);
    let before = notes_among(front, names);
    let after = notes_among(back, names);
    assert(items.take(i + 1).drop_last() == front);
    assert(items == items.take(i + 1) + back);
    assert(items.remove(i) == front + back);
    lemma_notes_of_both(items.take(i + 1), back, names);
    lemma_notes_of_both(front, back, names);
    if let Some(text) = note_on(items[i], names) {
        let at = before.len() as int;
        assert(before.push(text) + after == (before + after).insert(at, text));
        vstd::seq_lib::to_multiset_insert(before + after, at, text);
    }
}

/// The same items make the same notes, though not in the same order.
proof fn lemma_same_items_noted(a: Seq<Item>, b: Seq<Item>, names: Seq<Seq<char>>)
    requires
        a.to_multiset() == b.to_multiset(),
    ensures
        notes_among(a, names).to_multiset() == notes_among(b, names).to_multiset(),
    decreases a.len(),
{
    broadcast use vstd::seq_lib::group_to_multiset_ensures;

    assert(a.len() == a.to_multiset().len());
    assert(b.len() == b.to_multiset().len());
    if a.len() == 0 {
        assert(a == b);
    } else {
        let n = a.len() - 1;
        let x = a[n];
        assert(a.contains(x));
        assert(a.to_multiset().count(x) > 0);
        assert(b.contains(x));
        let i = choose|i: int| 0 <= i < b.len() && b[i] == x;
        assert(a.remove(n).to_multiset() == a.to_multiset().remove(x));
        assert(b.remove(i).to_multiset() == b.to_multiset().remove(x));
        lemma_same_items_noted(a.remove(n), b.remove(i), names);
        lemma_notes_without(a, n, names);
        lemma_notes_without(b, i, names);
    }
}

proof fn lemma_first_invalid(items: Seq<Item>)
    ensures
        first_invalid(items) is None <==> (forall|i: int|
            0 <= i < items.len() ==> !((#[trigger] items[i]) is Invalid)),
    decreases items.len(),
{
    if items.len() > 0 {
        let before = items.drop_last();
        lemma_first_invalid(before);
        if first_invalid(items) is None {
            assert forall|i: int| 0 <= i < items.len() implies !((
            #[trigger] items[i]) is Invalid) by {
                if i < before.len() {
                    assert(!(before[i] is Invalid));
                }
            }
        } else {
            if first_invalid(before) is Some {
                let i = choose|i: int| 0 <= i < before.len() && (#[trigger] before[i]) is Invalid;
                assert(items[i] is Invalid);
            } else {
                assert(items[items.len() - 1] is Invalid);
            }
        }
    }
}

proof fn lemma_same_items_accepted(a: Seq<Item>, b: Seq<Item>)
    requires
        a.to_multiset() == b.to_multiset(),
        first_invalid(a) is None,
    ensures
        first_invalid(b) is None,
{
    broadcast use vstd::seq_lib::group_to_multiset_ensures;

    lemma_first_invalid(a);
    lemma_first_invalid(b);
    assert forall|i: int| 0 <= i < b.len() implies !((#[trigger] b[i]) is Invalid) by {
        assert(b.contains(b[i]));
        assert(b.to_multiset().count(b[i]) > 0);
        assert(a.contains(b[i]));
        let k = choose|k: int| 0 <= k < a.len() && a[k] == b[i];
        assert(!(a[k] is Invalid));
    }
}

/// Messages and signals may stand in any order among each other. Of two documents
/// with the same components, the messages in the same order and the signals in the
/// same order, both are accepted or neither is; what is exported and every count are
/// then the same, and so are the notes, though not their order.
pub proof fn law_messages_and_signals_mix_in_any_order(
    left: Seq<Node>,
    right: Seq<Node>,
    stem: Seq<char>,
)
    requires
        ({
            let a = facts_of(left, components(left), stem);
            let b = facts_of(right, components(right), stem);
            &&& a.to_multiset() == b.to_multiset()
            &&& of_class(a, MSG_CLASS@) == of_class(b, MSG_CLASS@)
            &&& of_class(a, SIG_CLASS@) == of_class(b, SIG_CLASS@)
        }),
    ensures
        database_of(left, stem) is Ok <==> database_of(right, stem) is Ok,
        database_of(left, stem) matches Ok(f) ==> (database_of(right, stem) matches Ok(g) ==> {
            &&& f.messages == g.messages
            &&& f.totals == g.totals
            &&& f.skipped.to_multiset() == g.skipped.to_multiset()
        }),
{
    let a = facts_of(left, components(left), stem);
    let b = facts_of(right, components(right), stem);
    let names = names_in(a);
    lemma_facts_count(left, components(left), stem, names);
    lemma_facts_count(right, components(right), stem, names);
    lemma_facts_by_class(a);
    lemma_facts_by_class(b);
    lemma_same_items_mapped(a, b, |f: Facts| f.item);
    lemma_exported_depends(items_in(a), items_in(b));
    lemma_same_items_noted(items_in(a), items_in(b), message_names(items_in(a)));
    if first_invalid(items_in(a)) is None {
        lemma_same_items_accepted(items_in(a), items_in(b));
    }
    if first_invalid(items_in(b)) is None {
        lemma_same_items_accepted(items_in(b), items_in(a));
    }
}

} // verus!
