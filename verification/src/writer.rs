//! Render a parsed `.m1dbc` as standard Vector `.dbc` text.
//!
//! [`write_dbc`] is a function of the messages alone, so any difference between
//! two exports is a difference between two sources. Messages come out in source
//! order and each message's signals in the order in which the source lists them.
//! The minimum/maximum field is always `[0|0]`, because the source stores neither,
//! and names are written whole, however long.

use crate::m1dbc::{M1DbcFile, M1Message, M1Signal, Message, Signal, DEFAULT_NODE};
use crate::m1dbc::position_of;
use crate::number::{
    all_digits, decimal, decimal_text, is_exponent, is_exponent_mark, is_float_text, is_mantissa,
    is_plain_number, lower, without_sign,
};
use crate::text::{is_digit, same};
use vstd::prelude::*;

verus! {

/// Everything ahead of the `BU_` line: the version stub, the `NS_` table of
/// keywords that a reader should expect, and the empty bit-timing section.
pub const HEADER: &'static str = "VERSION \"\"


NS_ :
\tNS_DESC_
\tCM_
\tBA_DEF_
\tBA_
\tVAL_
\tCAT_DEF_
\tCAT_
\tFILTER
\tBA_DEF_DEF_
\tEV_DATA_
\tENVVAR_DATA_
\tSGTYPE_
\tSGTYPE_VAL_
\tBA_DEF_SGTYPE_
\tBA_SGTYPE_
\tSIG_TYPE_REF_
\tVAL_TABLE_
\tSIG_GROUP_
\tSIG_VALTYPE_
\tSIGTYPE_VALTYPE_
\tBO_TX_BU_
\tBA_DEF_REL_
\tBA_REL_
\tBA_DEF_DEF_REL_
\tBU_SG_REL_
\tBU_EV_REL_
\tBU_BO_REL_
\tSG_MUL_VAL_

BS_:

";

// ---------------------------------------------------------------------------
// The layout
// ---------------------------------------------------------------------------

/// The nodes that some signals name, in order.
pub open spec fn receivers(signals: Seq<Signal>) -> Seq<Seq<char>> {
    Seq::new(signals.len(), |i: int| signals[i].receiver)
}

/// Every mention of a node, in order: for each message its sender, and then its
/// signals' receivers.
pub open spec fn mentions(messages: Seq<Message>) -> Seq<Seq<char>>
    decreases messages.len(),
{
    if messages.len() == 0 {
        Seq::empty()
    } else {
        mentions(messages.drop_last()).push(messages.last().sender) + receivers(
            messages.last().signals,
        )
    }
}

/// The nodes to declare for some mentions: each once, in order of first
/// appearance, and never the placeholder.
pub open spec fn declared(mentions: Seq<Seq<char>>) -> Seq<Seq<char>>
    decreases mentions.len(),
{
    if mentions.len() == 0 {
        Seq::empty()
    } else {
        let before = declared(mentions.drop_last());
        let node = mentions.last();
        if node == DEFAULT_NODE@ || before.contains(node) {
            before
        } else {
            before.push(node)
        }
    }
}

/// Some node names, each with a space in front.
pub open spec fn node_list(nodes: Seq<Seq<char>>) -> Seq<char>
    decreases nodes.len(),
{
    if nodes.len() == 0 {
        Seq::empty()
    } else {
        node_list(nodes.drop_last()) + " "@ + nodes.last()
    }
}

/// The identifier on a message's `BO_` line: bit 31 marks a 29-bit identifier.
pub open spec fn dbc_id(message: Message) -> u32 {
    if message.is_extended {
        message.frame_id | 0x8000_0000
    } else {
        message.frame_id
    }
}

/// One ` SG_ ` line: `@1` and `@0` are little and big endian, `+` and `-` unsigned
/// and signed, and the unit is quoted even when there is none.
pub open spec fn signal_text(signal: Signal) -> Seq<char> {
    " SG_ "@ + signal.name + " : "@ + decimal(signal.start_bit as nat) + "|"@ + decimal(
        signal.length as nat,
    ) + (if signal.little_endian {
        "@1"@
    } else {
        "@0"@
    }) + (if signal.is_signed {
        "-"@
    } else {
        "+"@
    }) + " ("@ + signal.scale + ","@ + signal.offset + ") [0|0] \""@ + (match signal.unit {
        Some(unit) => unit,
        None => Seq::empty(),
    }) + "\" "@ + signal.receiver + "\n"@
}

/// The lines of some signals.
pub open spec fn signals_text(signals: Seq<Signal>) -> Seq<char>
    decreases signals.len(),
{
    if signals.len() == 0 {
        Seq::empty()
    } else {
        signals_text(signals.drop_last()) + signal_text(signals.last())
    }
}

/// The block of a message: a blank line, its `BO_` line and its signals' lines.
pub open spec fn message_text(message: Message) -> Seq<char> {
    "\nBO_ "@ + decimal(dbc_id(message) as nat) + " "@ + message.name + ": "@ + decimal(
        message.dlc as nat,
    ) + " "@ + message.sender + "\n"@ + signals_text(message.signals)
}

/// The blocks of some messages.
pub open spec fn messages_text(messages: Seq<Message>) -> Seq<char>
    decreases messages.len(),
{
    if messages.len() == 0 {
        Seq::empty()
    } else {
        messages_text(messages.drop_last()) + message_text(messages.last())
    }
}

/// The extended value type of a signal: 1 for IEEE single precision, 2 for double.
/// A float of any other width has none.
pub open spec fn value_type(signal: Signal) -> Option<u8> {
    if !signal.is_float {
        None
    } else if signal.length == 32 {
        Some(1)
    } else if signal.length == 64 {
        Some(2)
    } else {
        None
    }
}

/// The `SIG_VALTYPE_` line of a signal that has an extended value type.
pub open spec fn value_type_text(message: Message, signal: Signal) -> Seq<char> {
    match value_type(signal) {
        Some(code) => "SIG_VALTYPE_ "@ + decimal(dbc_id(message) as nat) + " "@ + signal.name
            + " : "@ + decimal(code as nat) + ";\n"@,
        None => Seq::empty(),
    }
}

/// The `SIG_VALTYPE_` lines of some signals of a message.
pub open spec fn value_types_text(message: Message, signals: Seq<Signal>) -> Seq<char>
    decreases signals.len(),
{
    if signals.len() == 0 {
        Seq::empty()
    } else {
        value_types_text(message, signals.drop_last()) + value_type_text(message, signals.last())
    }
}

/// The `SIG_VALTYPE_` lines of some messages.
pub open spec fn all_value_types_text(messages: Seq<Message>) -> Seq<char>
    decreases messages.len(),
{
    if messages.len() == 0 {
        Seq::empty()
    } else {
        all_value_types_text(messages.drop_last()) + value_types_text(
            messages.last(),
            messages.last().signals,
        )
    }
}

/// The section of extended value types: a blank line and the lines, or nothing at
/// all.
pub open spec fn value_section(messages: Seq<Message>) -> Seq<char> {
    let lines = all_value_types_text(messages);
    if lines.len() == 0 {
        Seq::empty()
    } else {
        "\n"@ + lines
    }
}

/// The text of a `.dbc` with some messages: the header, the node list, the message
/// blocks and the extended value types.
pub open spec fn dbc_text(messages: Seq<Message>) -> Seq<char> {
    HEADER@ + "BU_:"@ + node_list(declared(mentions(messages))) + "\n"@ + messages_text(messages)
        + value_section(messages)
}

// ---------------------------------------------------------------------------
// Writing
// ---------------------------------------------------------------------------

/// Put a node behind the others, unless it is there already or the placeholder.
fn declare(found: &mut Vec<String>, node: &str)
    ensures
        final(found).deep_view() == (if node@ == DEFAULT_NODE@ || old(
            found,
        ).deep_view().contains(node@) {
            old(found).deep_view()
        } else {
            old(found).deep_view().push(node@)
        }),
{
    if !same(node, DEFAULT_NODE) && position_of(found, node).is_none() {
        let ghost before = found.deep_view();
        found.push(node.to_owned());
        assert(found.deep_view() == before.push(node@));
    } else {
        proof {
            if node@ != DEFAULT_NODE@ {
                let names = found.deep_view();
                assert(exists|i: int| 0 <= i < names.len() && names[i] == node@);
            }
        }
    }
}

/// Every named node, deduplicated, in first-appearance order: for each message in
/// source order its sender, and then its signals' receivers.
pub fn nodes(file: &M1DbcFile) -> (r: Vec<String>)
    ensures
        r.deep_view() == declared(mentions(file.deep_view().messages)),
{
    let ghost messages = file.deep_view().messages;
    let mut found: Vec<String> = Vec::new();
    let mut i: usize = 0;
    proof {
        assert(messages.take(0) == Seq::<Message>::empty());
        assert(found.deep_view() == Seq::<Seq<char>>::empty());
    }
    while i < file.messages.len()
        invariant
            i <= file.messages.len(),
            messages == file.messages.deep_view(),
            found.deep_view() == declared(mentions(messages.take(i as int))),
        decreases file.messages.len() - i,
    {
        let message = &file.messages[i];
        let ghost before = mentions(messages.take(i as int));
        let ghost named = receivers(messages[i as int].signals);
        let ghost with_sender = before.push(messages[i as int].sender);
        declare(&mut found, message.sender.as_str());
        let mut k: usize = 0;
        proof {
            assert(messages[i as int] == message.deep_view());
            assert(messages.take(i + 1).drop_last() == messages.take(i as int));
            assert(with_sender.drop_last() == before);
            assert(with_sender + named.take(0) == with_sender);
        }
        while k < message.signals.len()
            invariant
                k <= message.signals.len(),
                named == receivers(message.signals.deep_view()),
                found.deep_view() == declared(with_sender + named.take(k as int)),
            decreases message.signals.len() - k,
        {
            let receiver = message.signals[k].receiver.as_str();
            proof {
                assert(named[k as int] == receiver@);
                assert((with_sender + named.take(k + 1)).drop_last() == with_sender + named.take(
                    k as int,
                ));
            }
            declare(&mut found, receiver);
            k = k + 1;
        }
        proof {
            assert(named.take(named.len() as int) == named);
            assert(mentions(messages.take(i + 1)) == with_sender + named);
        }
        i = i + 1;
    }
    proof {
        assert(messages.take(messages.len() as int) == messages);
    }
    found
}

/// One ` SG_ ` line.
pub fn signal_line(signal: &M1Signal) -> (r: String)
    ensures
        r@ == signal_text(signal.deep_view()),
{
    let mut s = " SG_ ".to_owned();
    s.append(signal.name.as_str());
    s.append(" : ");
    s.append(decimal_text(signal.start_bit as u64).as_str());
    s.append("|");
    s.append(decimal_text(signal.length as u64).as_str());
    s.append(if signal.little_endian {
        "@1"
    } else {
        "@0"
    });
    s.append(if signal.is_signed {
        "-"
    } else {
        "+"
    });
    s.append(" (");
    s.append(signal.scale.as_str());
    s.append(",");
    s.append(signal.offset.as_str());
    s.append(") [0|0] \"");
    let ghost before = s@;
    if let Some(unit) = &signal.unit {
        s.append(unit.as_str());
    }
    assert(s@ == before + (match signal.deep_view().unit {
        Some(unit) => unit,
        None => Seq::empty(),
    }));
    s.append("\" ");
    s.append(signal.receiver.as_str());
    s.append("\n");
    s
}

/// The identifier written on a message's `BO_` line, and on any `SIG_VALTYPE_`
/// line that refers back to it.
pub fn emitted_id(message: &M1Message) -> (r: u32)
    ensures
        r == dbc_id(message.deep_view()),
{
    if message.is_extended {
        message.frame_id | 0x8000_0000
    } else {
        message.frame_id
    }
}

/// The `SIG_VALTYPE_` code for a signal, or `None` where it needs no such line.
pub fn extended_value_type(signal: &M1Signal) -> (r: Option<u8>)
    ensures
        r == value_type(signal.deep_view()),
{
    if !signal.is_float {
        return None;
    }
    if signal.length == 32 {
        Some(1)
    } else if signal.length == 64 {
        Some(2)
    } else {
        None
    }
}

/// Write the block of a message.
fn write_message(out: &mut String, message: &M1Message)
    ensures
        final(out)@ == old(out)@ + message_text(message.deep_view()),
{
    let ghost start = out@;
    let ghost signals = message.signals.deep_view();
    out.append("\nBO_ ");
    out.append(decimal_text(emitted_id(message) as u64).as_str());
    out.append(" ");
    out.append(message.name.as_str());
    out.append(": ");
    out.append(decimal_text(message.dlc as u64).as_str());
    out.append(" ");
    out.append(message.sender.as_str());
    out.append("\n");
    let ghost head = out@;
    let mut k: usize = 0;
    proof {
        assert(signals.take(0) == Seq::<Signal>::empty());
        assert(head + Seq::<char>::empty() == head);
    }
    while k < message.signals.len()
        invariant
            k <= message.signals.len(),
            signals == message.signals.deep_view(),
            out@ == head + signals_text(signals.take(k as int)),
        decreases message.signals.len() - k,
    {
        proof {
            assert(signals.take(k + 1).drop_last() == signals.take(k as int));
        }
        out.append(signal_line(&message.signals[k]).as_str());
        assert(out@ == head + signals_text(signals.take(k + 1)));
        k = k + 1;
    }
    proof {
        assert(signals.take(signals.len() as int) == signals);
        assert(out@ == start + message_text(message.deep_view()));
    }
}

/// Write the `SIG_VALTYPE_` lines of a message.
fn write_value_types(out: &mut String, message: &M1Message)
    ensures
        final(out)@ == old(out)@ + value_types_text(
            message.deep_view(),
            message.deep_view().signals,
        ),
{
    let ghost start = out@;
    let ghost signals = message.signals.deep_view();
    let mut k: usize = 0;
    proof {
        assert(signals.take(0) == Seq::<Signal>::empty());
        assert(start + Seq::<char>::empty() == start);
    }
    while k < message.signals.len()
        invariant
            k <= message.signals.len(),
            signals == message.signals.deep_view(),
            out@ == start + value_types_text(message.deep_view(), signals.take(k as int)),
        decreases message.signals.len() - k,
    {
        let signal = &message.signals[k];
        proof {
            assert(signals.take(k + 1).drop_last() == signals.take(k as int));
            assert(signals.take(k + 1).last() == signal.deep_view());
        }
        let ghost before = out@;
        if let Some(code) = extended_value_type(signal) {
            out.append("SIG_VALTYPE_ ");
            out.append(decimal_text(emitted_id(message) as u64).as_str());
            out.append(" ");
            out.append(signal.name.as_str());
            out.append(" : ");
            out.append(decimal_text(code as u64).as_str());
            out.append(";\n");
        }
        proof {
            assert(out@ == before + value_type_text(message.deep_view(), signal.deep_view()));
            assert(out@ == start + value_types_text(message.deep_view(), signals.take(k + 1)));
        }
        k = k + 1;
    }
    proof {
        assert(signals.take(signals.len() as int) == signals);
    }
}

/// Render a file as the text of a Vector `.dbc`.
///
/// The output is the canonical header, a `BU_` node list, one blank-line-separated
/// block per message, and finally a `SIG_VALTYPE_` line for every float signal
/// that can have one. The scale and offset of a signal are written as they stand.
pub fn write_dbc(file: &M1DbcFile) -> (r: String)
    ensures
        r@ == dbc_text(file.deep_view().messages),
{
    let ghost messages = file.deep_view().messages;
    let mut out = HEADER.to_owned();
    out.append("BU_:");
    let ghost start = out@;
    let names = nodes(file);
    let ghost listed = names.deep_view();
    let mut i: usize = 0;
    proof {
        assert(listed.take(0) == Seq::<Seq<char>>::empty());
        assert(start + Seq::<char>::empty() == start);
    }
    while i < names.len()
        invariant
            i <= names.len(),
            listed == names.deep_view(),
            out@ == start + node_list(listed.take(i as int)),
        decreases names.len() - i,
    {
        proof {
            assert(listed.take(i + 1).drop_last() == listed.take(i as int));
        }
        out.append(" ");
        out.append(names[i].as_str());
        assert(out@ == start + node_list(listed.take(i + 1)));
        i = i + 1;
    }
    out.append("\n");
    let ghost head = out@;
    proof {
        assert(listed.take(listed.len() as int) == listed);
        assert(messages.take(0) == Seq::<Message>::empty());
        assert(head + Seq::<char>::empty() == head);
    }
    i = 0;
    while i < file.messages.len()
        invariant
            i <= file.messages.len(),
            messages == file.messages.deep_view(),
            out@ == head + messages_text(messages.take(i as int)),
        decreases file.messages.len() - i,
    {
        proof {
            assert(messages.take(i + 1).drop_last() == messages.take(i as int));
        }
        write_message(&mut out, &file.messages[i]);
        assert(out@ == head + messages_text(messages.take(i + 1)));
        i = i + 1;
    }

    // Extended value types are a section of the file, so they follow every message
    // block rather than stand in the block that they describe.
    let mut lines = String::new();
    i = 0;
    while i < file.messages.len()
        invariant
            i <= file.messages.len(),
            messages == file.messages.deep_view(),
            lines@ == all_value_types_text(messages.take(i as int)),
        decreases file.messages.len() - i,
    {
        proof {
            assert(messages.take(i + 1).drop_last() == messages.take(i as int));
        }
        write_value_types(&mut lines, &file.messages[i]);
        i = i + 1;
    }
    proof {
        assert(messages.take(messages.len() as int) == messages);
    }
    let ghost body = out@;
    if !lines.as_str().is_empty() {
        out.append("\n");
        out.append(lines.as_str());
    }
    proof {
        assert(out@ == body + value_section(messages));
    }
    out
}

// ---------------------------------------------------------------------------
// Laws
// ---------------------------------------------------------------------------

/// No character of a text ends a line or returns the carriage.
pub open spec fn is_single_line(s: Seq<char>) -> bool {
    forall|i: int| 0 <= i < s.len() ==> s[i] != '\n' && s[i] != '\r'
}

/// The texts of a signal are single lines.
pub open spec fn signal_is_single_line(signal: Signal) -> bool {
    &&& is_single_line(signal.name)
    &&& is_single_line(signal.scale)
    &&& is_single_line(signal.offset)
    &&& (signal.unit matches Some(unit) ==> is_single_line(unit))
    &&& is_single_line(signal.receiver)
}

/// The texts of a message and of its signals are single lines.
pub open spec fn message_is_single_line(message: Message) -> bool {
    &&& is_single_line(message.name)
    &&& is_single_line(message.sender)
    &&& forall|i: int|
        0 <= i < message.signals.len() ==> signal_is_single_line(#[trigger] message.signals[i])
}

/// Every text of some messages is a single line.
pub open spec fn are_single_line(messages: Seq<Message>) -> bool {
    forall|i: int| 0 <= i < messages.len() ==> message_is_single_line(#[trigger] messages[i])
}

/// A text without a carriage return.
pub open spec fn has_no_carriage_return(s: Seq<char>) -> bool {
    forall|i: int| 0 <= i < s.len() ==> s[i] != '\r'
}

/// A text of whole lines, the last of which is not blank. Nothing at all qualifies.
pub open spec fn ends_in_text(s: Seq<char>) -> bool {
    s.len() == 0 || (s.len() >= 2 && s.last() == '\n' && s[s.len() - 2] != '\n')
}

/// A text of whole lines.
pub open spec fn is_whole(s: Seq<char>) -> bool {
    s.len() == 0 || s.last() == '\n'
}

proof fn lemma_header()
    ensures
        HEADER@.len() > 0,
        has_no_carriage_return(HEADER@),
{
    reveal_strlit(
        "VERSION \"\"


NS_ :
\tNS_DESC_
\tCM_
\tBA_DEF_
\tBA_
\tVAL_
\tCAT_DEF_
\tCAT_
\tFILTER
\tBA_DEF_DEF_
\tEV_DATA_
\tENVVAR_DATA_
\tSGTYPE_
\tSGTYPE_VAL_
\tBA_DEF_SGTYPE_
\tBA_SGTYPE_
\tSIG_TYPE_REF_
\tVAL_TABLE_
\tSIG_GROUP_
\tSIG_VALTYPE_
\tSIGTYPE_VALTYPE_
\tBO_TX_BU_
\tBA_DEF_REL_
\tBA_REL_
\tBA_DEF_DEF_REL_
\tBU_SG_REL_
\tBU_EV_REL_
\tBU_BO_REL_
\tSG_MUL_VAL_

BS_:

",
    );
}

proof fn lemma_decimal_is_single_line(n: nat)
    ensures
        is_single_line(decimal(n)),
    decreases n,
{
    if n >= 10 {
        lemma_decimal_is_single_line(n / 10);
    }
}

proof fn lemma_literals()
    ensures
        is_single_line("BU_:"@),
        is_single_line(" "@),
        is_single_line(" SG_ "@),
        is_single_line(" : "@),
        is_single_line("|"@),
        is_single_line("@1"@),
        is_single_line("@0"@),
        is_single_line("-"@),
        is_single_line("+"@),
        is_single_line(" ("@),
        is_single_line(","@),
        is_single_line(") [0|0] \""@),
        is_single_line("\" "@),
        is_single_line(": "@),
        is_single_line("SIG_VALTYPE_ "@),
        " "@.len() > 0,
        "\" "@.len() > 0,
        "BU_:"@.len() > 0,
        "\n"@ == seq!['\n'],
        "\nBO_ "@.len() > 0,
        has_no_carriage_return("\nBO_ "@),
        ";\n"@ == seq![';', '\n'],
{
    reveal_strlit("BU_:");
    reveal_strlit(" ");
    reveal_strlit(" SG_ ");
    reveal_strlit(" : ");
    reveal_strlit("|");
    reveal_strlit("@1");
    reveal_strlit("@0");
    reveal_strlit("-");
    reveal_strlit("+");
    reveal_strlit(" (");
    reveal_strlit(",");
    reveal_strlit(") [0|0] \"");
    reveal_strlit("\" ");
    reveal_strlit(": ");
    reveal_strlit("SIG_VALTYPE_ ");
    reveal_strlit("\n");
    reveal_strlit("\nBO_ ");
    reveal_strlit(";\n");
}

proof fn lemma_signal_line(signal: Signal)
    ensures
        signal_text(signal).len() > 0,
        signal_text(signal).last() == '\n',
        signal_is_single_line(signal) ==> ends_in_text(signal_text(signal))
            && has_no_carriage_return(signal_text(signal)),
{
    lemma_literals();
    lemma_decimal_is_single_line(signal.start_bit as nat);
    lemma_decimal_is_single_line(signal.length as nat);
}

proof fn lemma_signal_lines(signals: Seq<Signal>)
    ensures
        is_whole(signals_text(signals)),
        (forall|i: int| 0 <= i < signals.len() ==> signal_is_single_line(#[trigger] signals[i]))
            ==> ends_in_text(signals_text(signals)) && has_no_carriage_return(
            signals_text(signals),
        ),
    decreases signals.len(),
{
    if signals.len() > 0 {
        let before = signals.drop_last();
        lemma_signal_lines(before);
        lemma_signal_line(signals.last());
        if forall|i: int| 0 <= i < signals.len() ==> signal_is_single_line(#[trigger] signals[i]) {
            assert forall|i: int| 0 <= i < before.len() implies signal_is_single_line(
                #[trigger] before[i],
            ) by {
                assert(before[i] == signals[i]);
            }
            assert(signal_is_single_line(signals[signals.len() - 1]));
        }
    }
}

proof fn lemma_message_block(message: Message)
    ensures
        message_text(message).len() > 0,
        message_text(message).last() == '\n',
        message_is_single_line(message) ==> ends_in_text(message_text(message))
            && has_no_carriage_return(message_text(message)),
{
    lemma_literals();
    lemma_decimal_is_single_line(dbc_id(message) as nat);
    lemma_decimal_is_single_line(message.dlc as nat);
    lemma_signal_lines(message.signals);
}

proof fn lemma_message_blocks(messages: Seq<Message>)
    ensures
        is_whole(messages_text(messages)),
        are_single_line(messages) ==> ends_in_text(messages_text(messages))
            && has_no_carriage_return(messages_text(messages)),
    decreases messages.len(),
{
    if messages.len() > 0 {
        let before = messages.drop_last();
        lemma_message_blocks(before);
        lemma_message_block(messages.last());
        if are_single_line(messages) {
            assert forall|i: int| 0 <= i < before.len() implies message_is_single_line(
                #[trigger] before[i],
            ) by {
                assert(before[i] == messages[i]);
            }
            assert(message_is_single_line(messages[messages.len() - 1]));
        }
    }
}

proof fn lemma_value_type_lines(message: Message, signals: Seq<Signal>)
    ensures
        is_whole(value_types_text(message, signals)),
        ends_in_text(value_types_text(message, signals)),
        (forall|i: int| 0 <= i < signals.len() ==> signal_is_single_line(#[trigger] signals[i]))
            ==> has_no_carriage_return(value_types_text(message, signals)),
    decreases signals.len(),
{
    if signals.len() > 0 {
        let before = signals.drop_last();
        lemma_value_type_lines(message, before);
        lemma_literals();
        lemma_decimal_is_single_line(dbc_id(message) as nat);
        if let Some(code) = value_type(signals.last()) {
            lemma_decimal_is_single_line(code as nat);
        }
        if forall|i: int| 0 <= i < signals.len() ==> signal_is_single_line(#[trigger] signals[i]) {
            assert forall|i: int| 0 <= i < before.len() implies signal_is_single_line(
                #[trigger] before[i],
            ) by {
                assert(before[i] == signals[i]);
            }
            assert(signal_is_single_line(signals[signals.len() - 1]));
        }
    }
}

proof fn lemma_all_value_type_lines(messages: Seq<Message>)
    ensures
        ends_in_text(all_value_types_text(messages)),
        are_single_line(messages) ==> has_no_carriage_return(all_value_types_text(messages)),
    decreases messages.len(),
{
    if messages.len() > 0 {
        let before = messages.drop_last();
        lemma_all_value_type_lines(before);
        lemma_value_type_lines(messages.last(), messages.last().signals);
        if are_single_line(messages) {
            assert forall|i: int| 0 <= i < before.len() implies message_is_single_line(
                #[trigger] before[i],
            ) by {
                assert(before[i] == messages[i]);
            }
            assert(message_is_single_line(messages[messages.len() - 1]));
        }
    }
}

proof fn lemma_mentions_are_single_line(messages: Seq<Message>)
    requires
        are_single_line(messages),
    ensures
        forall|i: int|
            0 <= i < mentions(messages).len() ==> is_single_line(#[trigger] mentions(messages)[i]),
    decreases messages.len(),
{
    if messages.len() > 0 {
        let before = messages.drop_last();
        assert forall|i: int| 0 <= i < before.len() implies message_is_single_line(
            #[trigger] before[i],
        ) by {
            assert(before[i] == messages[i]);
        }
        lemma_mentions_are_single_line(before);
        let last = messages[messages.len() - 1];
        assert(message_is_single_line(last));
        let m = mentions(before).len() as int;
        assert forall|i: int| 0 <= i < mentions(messages).len() implies is_single_line(
            #[trigger] mentions(messages)[i],
        ) by {
            if i < m {
                assert(mentions(messages)[i] == mentions(before)[i]);
            } else if i > m {
                assert(mentions(messages)[i] == last.signals[i - m - 1].receiver);
                assert(signal_is_single_line(last.signals[i - m - 1]));
            }
        }
    }
}

proof fn lemma_node_list(nodes: Seq<Seq<char>>)
    requires
        forall|i: int| 0 <= i < nodes.len() ==> is_single_line(#[trigger] nodes[i]),
    ensures
        is_single_line(node_list(nodes)),
    decreases nodes.len(),
{
    if nodes.len() > 0 {
        assert forall|i: int| 0 <= i < nodes.drop_last().len() implies is_single_line(
            #[trigger] nodes.drop_last()[i],
        ) by {
            assert(nodes.drop_last()[i] == nodes[i]);
        }
        lemma_node_list(nodes.drop_last());
        lemma_literals();
        assert(is_single_line(nodes[nodes.len() - 1]));
    }
}

/// The nodes of a `BU_` line: none is listed twice, the placeholder is never
/// listed, and every other node that a message names as its sender or a signal as
/// its receiver is listed, as is nothing else.
pub proof fn law_declared_nodes(mentions: Seq<Seq<char>>)
    ensures
        declared(mentions).no_duplicates(),
        !declared(mentions).contains(DEFAULT_NODE@),
        forall|node: Seq<char>| #[trigger]
            declared(mentions).contains(node) <==> node != DEFAULT_NODE@ && mentions.contains(node),
    decreases mentions.len(),
{
    if mentions.len() > 0 {
        let before = mentions.drop_last();
        law_declared_nodes(before);
        let node = mentions.last();
        assert forall|other: Seq<char>| #[trigger]
            declared(mentions).contains(other) <==> other != DEFAULT_NODE@ && mentions.contains(
                other,
            ) by {
            if mentions.contains(other) && other != node {
                let i = choose|i: int| 0 <= i < mentions.len() && mentions[i] == other;
                assert(before[i] == other);
                assert(before.contains(other));
            }
            if before.contains(other) {
                let i = choose|i: int| 0 <= i < before.len() && before[i] == other;
                assert(mentions[i] == other);
            }
            assert(mentions[mentions.len() - 1] == node);
            if declared(before).contains(other) {
                let i = choose|i: int|
                    0 <= i < declared(before).len() && declared(before)[i] == other;
                assert(declared(mentions)[i] == other);
            }
            if node != DEFAULT_NODE@ && !declared(before).contains(node) {
                assert(declared(mentions)[declared(before).len() as int] == node);
            }
            if declared(mentions).contains(other) && other != node {
                let i = choose|i: int|
                    0 <= i < declared(mentions).len() && declared(mentions)[i] == other;
                assert(declared(before)[i] == other);
            }
        }
    }
}

/// A written file ends with a line feed. Where no name, unit or number holds a line
/// break, it holds no carriage return at all and does not end with a blank line.
pub proof fn law_written_text_ends_with_one_newline(messages: Seq<Message>)
    ensures
        dbc_text(messages).len() > 1,
        dbc_text(messages).last() == '\n',
        are_single_line(messages) ==> has_no_carriage_return(dbc_text(messages))
            && dbc_text(messages)[dbc_text(messages).len() - 2] != '\n',
{
    let names = declared(mentions(messages));
    lemma_header();
    lemma_literals();
    lemma_message_blocks(messages);
    lemma_all_value_type_lines(messages);
    if are_single_line(messages) {
        lemma_mentions_are_single_line(messages);
        law_declared_nodes(mentions(messages));
        assert forall|i: int| 0 <= i < names.len() implies is_single_line(#[trigger] names[i]) by {
            assert(names.contains(names[i]));
            assert(mentions(messages).contains(names[i]));
        }
        lemma_node_list(names);
    }
    let head = HEADER@ + "BU_:"@ + node_list(names) + "\n"@;
    assert(is_whole(head));
    assert(are_single_line(messages) ==> ends_in_text(head) && has_no_carriage_return(head));
    let body = head + messages_text(messages);
    assert(is_whole(body));
    assert(are_single_line(messages) ==> ends_in_text(body) && has_no_carriage_return(body));
    let section = value_section(messages);
    assert(is_whole(section));
    assert(ends_in_text(section));
    assert(are_single_line(messages) ==> has_no_carriage_return(section));
    assert(dbc_text(messages) == body + section);
}

/// A text that denotes a number is a single line.
pub proof fn law_numbers_are_single_lines(s: Seq<char>)
    requires
        is_float_text(s),
    ensures
        is_single_line(s),
{
    let body = without_sign(s);
    reveal_strlit("inf");
    reveal_strlit("infinity");
    reveal_strlit("nan");
    assert(is_single_line(body)) by {
        if is_plain_number(body) {
            if is_mantissa(body) {
                lemma_mantissa_is_single_line(body);
            } else {
                let e = choose|e: int|
                    0 <= e < body.len() && is_exponent_mark(#[trigger] body[e]) && is_mantissa(
                        body.take(e),
                    ) && is_exponent(body.skip(e + 1));
                let digits = without_sign(body.skip(e + 1));
                lemma_mantissa_is_single_line(body.take(e));
                assert(is_single_line(digits)) by {
                    assert forall|i: int| 0 <= i < digits.len() implies digits[i] != '\n'
                        && digits[i] != '\r' by {
                        assert(is_digit(digits[i]));
                    }
                }
                assert forall|i: int| 0 <= i < body.len() implies body[i] != '\n' && body[i]
                    != '\r' by {
                    let after = body.skip(e + 1);
                    if i < e {
                        assert(body[i] == body.take(e)[i]);
                    } else if i > e {
                        assert(body[i] == after[i - e - 1]);
                        if after.len() > digits.len() && i > e + 1 {
                            assert(after[i - e - 1] == digits[i - e - 2]);
                        } else if after.len() == digits.len() {
                            assert(after[i - e - 1] == digits[i - e - 1]);
                        }
                    }
                }
            }
        } else {
            assert forall|i: int| 0 <= i < body.len() implies body[i] != '\n' && body[i]
                != '\r' by {
                assert(lower(body[i]) != '\n' && lower(body[i]) != '\r');
            }
        }
    }
    assert forall|i: int| 0 <= i < s.len() implies s[i] != '\n' && s[i] != '\r' by {
        if body.len() < s.len() {
            if i > 0 {
                assert(s[i] == body[i - 1]);
            }
        }
    }
}

proof fn lemma_mantissa_is_single_line(s: Seq<char>)
    requires
        is_mantissa(s),
    ensures
        is_single_line(s),
{
    assert forall|i: int| 0 <= i < s.len() implies s[i] != '\n' && s[i] != '\r' by {
        if all_digits(s) {
            assert(is_digit(s[i]));
        } else {
            let d = choose|d: int|
                0 <= d < s.len() && #[trigger] s[d] == '.' && all_digits(s.take(d)) && all_digits(
                    s.skip(d + 1),
                ) && s.len() > 1;
            if i < d {
                assert(s.take(d)[i] == s[i]);
                assert(is_digit(s.take(d)[i]));
            } else if i > d {
                assert(s.skip(d + 1)[i - d - 1] == s[i]);
                assert(is_digit(s.skip(d + 1)[i - d - 1]));
            }
        }
    }
}

/// Identifiers that leave bit 31 clear are told apart on the `BO_` line by value and by
/// kind: an extended frame never shares its written identifier with a standard one.
pub proof fn law_written_ids_tell_frames_apart(a: Message, b: Message)
    requires
        a.frame_id < 0x8000_0000,
        b.frame_id < 0x8000_0000,
    ensures
        dbc_id(a) == dbc_id(b) <==> a.frame_id == b.frame_id && a.is_extended == b.is_extended,
        a.is_extended ==> dbc_id(a) == a.frame_id + 0x8000_0000,
        !a.is_extended ==> dbc_id(a) == a.frame_id,
{
    let x = a.frame_id;
    let y = b.frame_id;
    assert(x < 0x8000_0000u32 ==> x | 0x8000_0000u32 == x + 0x8000_0000) by (bit_vector);
    assert(y < 0x8000_0000u32 ==> y | 0x8000_0000u32 == y + 0x8000_0000) by (bit_vector);
}

} // verus!
