//! What a written file says of its messages: laws that read the text of
//! [`writer`](crate::writer) back.

use crate::m1dbc::{Message, Signal};
use crate::number::{
    decimal, law_decimal_has_digits_only, law_decimal_reads_back, unsigned_value,
};
use crate::writer::{
    all_value_types_text, dbc_id, dbc_text, declared, law_declared_nodes, mentions, message_text,
    messages_text, node_list, signal_text, signals_text, value_section, value_type,
    value_type_text, value_types_text, HEADER,
};
use vstd::prelude::*;

verus! {

// ---------------------------------------------------------------------------
// Lines
// ---------------------------------------------------------------------------

/// The `BO_` line of a message reads back: behind `BO_` stands a number that is the
/// message's identifier in base 10, with bit 31 set for an extended frame, then its name,
/// and between the colon and the sender a number that is its length in base 10. Its signals
/// follow.
pub proof fn law_a_message_line_reads_back(message: Message) -> (r: (Seq<char>, Seq<char>))
    ensures
        message_text(message) == "\nBO_ "@ + r.0 + " "@ + message.name + ": "@ + r.1 + " "@
            + message.sender + "\n"@ + signals_text(message.signals),
        unsigned_value(r.0, 10) == Some((if message.is_extended {
            message.frame_id | 0x8000_0000u32
        } else {
            message.frame_id
        }) as nat),
        unsigned_value(r.1, 10) == Some(message.dlc as nat),
        is_number(r.0),
        is_number(r.1),
{
    let id = decimal(dbc_id(message) as nat);
    let dlc = decimal(message.dlc as nat);
    law_decimal_reads_back(dbc_id(message) as nat);
    law_decimal_reads_back(message.dlc as nat);
    law_decimal_has_digits_only(dbc_id(message) as nat);
    law_decimal_has_digits_only(message.dlc as nat);
    (id, dlc)
}

/// A text of decimal digits, of which there is at least one.
pub open spec fn is_number(s: Seq<char>) -> bool {
    s.len() > 0 && forall|i: int| 0 <= i < s.len() ==> '0' <= #[trigger] s[i] && s[i] <= '9'
}

/// The line of a signal reads back: its name, the numbers of its first bit and of its bits
/// in base 10, `@1` for a little-endian one and `@0` for another, `-` for a signed one and
/// `+` for another, the scale and the offset in brackets, the unit in quotes, and the
/// receiver.
pub proof fn law_a_signal_line_reads_back(signal: Signal) -> (r: (Seq<char>, Seq<char>))
    ensures
        signal_text(signal) == " SG_ "@ + signal.name + " : "@ + r.0 + "|"@ + r.1 + (
        if signal.little_endian {
            "@1"@
        } else {
            "@0"@
        }) + (if signal.is_signed {
            "-"@
        } else {
            "+"@
        }) + " ("@ + signal.scale + ","@ + signal.offset + ") [0|0] \""@ + (
        match signal.unit {
            Some(unit) => unit,
            None => Seq::empty(),
        }) + "\" "@ + signal.receiver + "\n"@,
        unsigned_value(r.0, 10) == Some(signal.start_bit as nat),
        unsigned_value(r.1, 10) == Some(signal.length as nat),
        is_number(r.0),
        is_number(r.1),
{
    law_decimal_reads_back(signal.start_bit as nat);
    law_decimal_reads_back(signal.length as nat);
    law_decimal_has_digits_only(signal.start_bit as nat);
    law_decimal_has_digits_only(signal.length as nat);
    (decimal(signal.start_bit as nat), decimal(signal.length as nat))
}

/// Only a float signal of 32 or 64 bits has a `SIG_VALTYPE_` line, which names its frame,
/// itself, and 1 or 2.
pub proof fn law_a_value_type_line_is_for_a_float(message: Message, signal: Signal) -> (r: Seq<
    char,
>)
    ensures
        unsigned_value(r, 10) == Some((if message.is_extended {
            message.frame_id | 0x8000_0000u32
        } else {
            message.frame_id
        }) as nat),
        is_number(r),
        signal.is_float && signal.length == 32 ==> value_type(signal) == Some(1u8)
            && value_type_text(message, signal) == "SIG_VALTYPE_ "@ + r + " "@ + signal.name
            + " : "@ + seq!['1'] + ";\n"@,
        signal.is_float && signal.length == 64 ==> value_type(signal) == Some(2u8)
            && value_type_text(message, signal) == "SIG_VALTYPE_ "@ + r + " "@ + signal.name
            + " : "@ + seq!['2'] + ";\n"@,
        !(signal.is_float && (signal.length == 32 || signal.length == 64)) ==> value_type(signal)
            is None && value_type_text(message, signal) == Seq::<char>::empty(),
{
    law_decimal_reads_back(dbc_id(message) as nat);
    law_decimal_has_digits_only(dbc_id(message) as nat);
    assert(decimal(1) == seq!['1']);
    assert(decimal(2) == seq!['2']);
    decimal(dbc_id(message) as nat)
}

/// Everything is written, once and in order: one message more is its block more behind the
/// others, one signal more its line more, and one float more its `SIG_VALTYPE_` line more.
pub proof fn law_everything_is_written_once_and_in_order(
    messages: Seq<Message>,
    message: Message,
    signals: Seq<Signal>,
    signal: Signal,
)
    ensures
        messages_text(Seq::empty()).len() == 0,
        messages_text(messages.push(message)) == messages_text(messages) + message_text(message),
        signals_text(Seq::empty()).len() == 0,
        signals_text(signals.push(signal)) == signals_text(signals) + signal_text(signal),
        value_types_text(message, Seq::empty()).len() == 0,
        value_types_text(message, signals.push(signal)) == value_types_text(message, signals)
            + value_type_text(message, signal),
        all_value_types_text(Seq::empty()).len() == 0,
        all_value_types_text(messages.push(message)) == all_value_types_text(messages)
            + value_types_text(message, message.signals),
{
    assert(messages.push(message).drop_last() == messages);
    assert(signals.push(signal).drop_last() == signals);
}

/// The nodes are listed in the order in which they are first named: for each message its
/// sender and then its signals' receivers. One mention more adds at most that one node, at
/// the end, and the list puts a space before each.
pub proof fn law_nodes_are_listed_as_they_are_first_named(
    messages: Seq<Message>,
    message: Message,
    named: Seq<Seq<char>>,
    node: Seq<char>,
)
    ensures
        mentions(Seq::empty()).len() == 0,
        mentions(messages.push(message)).len() == mentions(messages).len() + 1
            + message.signals.len(),
        forall|i: int|
            0 <= i < mentions(messages).len() ==> (#[trigger] mentions(messages.push(message))[i])
                == mentions(messages)[i],
        mentions(messages.push(message))[mentions(messages).len() as int] == message.sender,
        forall|i: int|
            0 <= i < message.signals.len() ==> mentions(messages.push(message))[mentions(
                messages,
            ).len() + 1 + i] == (#[trigger] message.signals[i]).receiver,
        declared(named.push(node)) == declared(named) || declared(named.push(node)) == declared(
            named,
        ).push(node),
        node_list(Seq::empty()).len() == 0,
        node_list(named.push(node)) == node_list(named) + " "@ + node,
{
    assert(messages.push(message).drop_last() == messages);
    assert(named.push(node).drop_last() == named);
}

/// A written file is the header, the list of nodes, the blocks of the messages, and, where
/// there is any, the lines of the extended value types behind a blank line.
pub proof fn law_a_written_file_has_these_parts(messages: Seq<Message>)
    ensures
        all_value_types_text(messages).len() == 0 ==> dbc_text(messages) == HEADER@ + "BU_:"@
            + node_list(declared(mentions(messages))) + "\n"@ + messages_text(messages),
        all_value_types_text(messages).len() > 0 ==> dbc_text(messages) == HEADER@ + "BU_:"@
            + node_list(declared(mentions(messages))) + "\n"@ + messages_text(messages) + "\n"@
            + all_value_types_text(messages),
{
    let front = HEADER@ + "BU_:"@ + node_list(declared(mentions(messages))) + "\n"@
        + messages_text(messages);
    assert(front + Seq::<char>::empty() == front);
    assert(front + ("\n"@ + all_value_types_text(messages)) == front + "\n"@
        + all_value_types_text(messages));
}

// ---------------------------------------------------------------------------
// The whole text
// ---------------------------------------------------------------------------

/// A text without a character.
pub open spec fn lacks(s: Seq<char>, c: char) -> bool {
    forall|i: int| 0 <= i < s.len() ==> #[trigger] s[i] != c
}

/// The unit of a signal as it is written.
pub open spec fn shown_unit(signal: Signal) -> Seq<char> {
    match signal.unit {
        Some(unit) => unit,
        None => Seq::empty(),
    }
}

/// The texts of a signal hold nothing that the line around them uses to part them.
pub open spec fn is_plain_signal(signal: Signal) -> bool {
    &&& lacks(signal.name, ' ')
    &&& lacks(signal.scale, ',')
    &&& lacks(signal.offset, ')')
    &&& lacks(shown_unit(signal), '"')
    &&& lacks(signal.receiver, '\n')
}

/// The texts of a message and of its signals hold nothing that the lines around them use to
/// part them, and its identifier leaves bit 31 clear.
pub open spec fn is_plain_message(message: Message) -> bool {
    &&& lacks(message.name, ':')
    &&& lacks(message.sender, '\n')
    &&& message.frame_id < 0x8000_0000
    &&& forall|i: int| 0 <= i < message.signals.len() ==> is_plain_signal(#[trigger] message.signals[i])
}

/// Two signals have every field alike that the line of a signal shows.
pub open spec fn is_same_line(a: Signal, b: Signal) -> bool {
    &&& a.name == b.name
    &&& a.start_bit == b.start_bit
    &&& a.length == b.length
    &&& a.little_endian == b.little_endian
    &&& a.is_signed == b.is_signed
    &&& a.scale == b.scale
    &&& a.offset == b.offset
    &&& shown_unit(a) == shown_unit(b)
    &&& a.receiver == b.receiver
}

/// Two messages have every field alike that the block of a message shows.
pub open spec fn is_same_block(a: Message, b: Message) -> bool {
    &&& a.name == b.name
    &&& a.frame_id == b.frame_id
    &&& a.is_extended == b.is_extended
    &&& a.dlc == b.dlc
    &&& a.sender == b.sender
    &&& a.signals.len() == b.signals.len()
    &&& forall|i: int|
        0 <= i < a.signals.len() ==> is_same_line(#[trigger] a.signals[i], b.signals[i])
}

proof fn lemma_cut(a: Seq<char>, x: Seq<char>, b: Seq<char>, y: Seq<char>, c: char)
    requires
        lacks(a, c),
        lacks(b, c),
        a + (seq![c] + x) == b + (seq![c] + y),
    ensures
        a == b,
        x == y,
{
    let left = a + (seq![c] + x);
    let right = b + (seq![c] + y);
    if a.len() < b.len() {
        assert(left[a.len() as int] == c);
        assert(right[a.len() as int] == b[a.len() as int]);
    }
    if b.len() < a.len() {
        assert(right[b.len() as int] == c);
        assert(left[b.len() as int] == a[b.len() as int]);
    }
    assert(a == left.take(a.len() as int));
    assert(b == right.take(b.len() as int));
    assert(x == left.skip(a.len() as int + 1));
    assert(y == right.skip(b.len() as int + 1));
}

proof fn lemma_same_front(p: Seq<char>, x: Seq<char>, q: Seq<char>, y: Seq<char>)
    requires
        p.len() == q.len(),
        p + x == q + y,
    ensures
        p == q,
        x == y,
{
    assert(p == (p + x).take(p.len() as int));
    assert(q == (q + y).take(q.len() as int));
    assert(x == (p + x).skip(p.len() as int));
    assert(y == (q + y).skip(q.len() as int));
}

proof fn lemma_number_lacks(n: nat, c: char)
    requires
        !('0' <= c && c <= '9'),
    ensures
        lacks(decimal(n), c),
{
    law_decimal_has_digits_only(n);
}

proof fn lemma_same_number(m: nat, n: nat)
    requires
        decimal(m) == decimal(n),
    ensures
        m == n,
{
    law_decimal_reads_back(m);
    law_decimal_reads_back(n);
}

spec fn order_mark(signal: Signal) -> char {
    if signal.little_endian {
        '1'
    } else {
        '0'
    }
}

spec fn sign_mark(signal: Signal) -> char {
    if signal.is_signed {
        '-'
    } else {
        '+'
    }
}

/// The end of a signal's line, from the unit on.
spec fn line_end(signal: Signal, tail: Seq<char>) -> Seq<char> {
    seq![' ', '[', '0', '|', '0', ']', ' ', '"'] + (shown_unit(signal) + (seq!['"'] + (seq![' '] + (
    signal.receiver + (seq!['\n'] + tail)))))
}

/// The middle of a signal's line, from the byte order on.
spec fn line_middle(signal: Signal, tail: Seq<char>) -> Seq<char> {
    seq![order_mark(signal), sign_mark(signal), ' ', '('] + (signal.scale + (seq![','] + (
    signal.offset + (seq![')'] + line_end(signal, tail)))))
}

/// A signal's line with a text behind it, part by part.
spec fn line_parts(signal: Signal, tail: Seq<char>) -> Seq<char> {
    seq![' ', 'S', 'G', '_', ' '] + (signal.name + (seq![' '] + (seq![':', ' '] + (decimal(
        signal.start_bit as nat,
    ) + (seq!['|'] + (decimal(signal.length as nat) + (seq!['@'] + line_middle(
        signal,
        tail,
    ))))))))
}

proof fn lemma_literals()
    ensures
        " SG_ "@ == seq![' ', 'S', 'G', '_', ' '],
        " : "@ == seq![' ', ':', ' '],
        "|"@ == seq!['|'],
        "@1"@ == seq!['@', '1'],
        "@0"@ == seq!['@', '0'],
        "-"@ == seq!['-'],
        "+"@ == seq!['+'],
        " ("@ == seq![' ', '('],
        ","@ == seq![','],
        ") [0|0] \""@ == seq![')', ' ', '[', '0', '|', '0', ']', ' ', '"'],
        "\" "@ == seq!['"', ' '],
        "\n"@ == seq!['\n'],
        "\nBO_ "@ == seq!['\n', 'B', 'O', '_', ' '],
        " "@ == seq![' '],
        ": "@ == seq![':', ' '],
{
    reveal_strlit(" SG_ ");
    reveal_strlit(" : ");
    reveal_strlit("|");
    reveal_strlit("@1");
    reveal_strlit("@0");
    reveal_strlit("-");
    reveal_strlit("+");
    reveal_strlit(" (");
    reveal_strlit(",");
    reveal_strlit(") [0|0] \"");
    reveal_strlit("\" ");
    reveal_strlit("\n");
    reveal_strlit("\nBO_ ");
    reveal_strlit(" ");
    reveal_strlit(": ");
}

/// A text behind a long one can be put behind its last part first.
proof fn lemma_shift(a: Seq<char>, b: Seq<char>, tail: Seq<char>)
    ensures
        a + b + tail == a + (b + tail),
{
    assert(a + b + tail == a + (b + tail));
}

proof fn lemma_line_parts(signal: Signal, tail: Seq<char>)
    ensures
        signal_text(signal) + tail == line_parts(signal, tail),
{
    lemma_literals();
    let order = if signal.little_endian {
        "@1"@
    } else {
        "@0"@
    };
    let sign = if signal.is_signed {
        "-"@
    } else {
        "+"@
    };
    let start = decimal(signal.start_bit as nat);
    let length = decimal(signal.length as nat);
    let unit = shown_unit(signal);
    let end = lemma_pieces_of_the_end(unit, signal.receiver, tail);
    let middle = lemma_pieces_of_the_middle(
        signal.scale,
        signal.offset,
        order_mark(signal),
        sign_mark(signal),
        end,
    );
    let p0 = " SG_ "@ + signal.name + " : "@ + start + "|"@ + length;
    let p1 = p0 + order + sign + " ("@ + signal.scale + ","@ + signal.offset;
    lemma_shift6(p1, ") [0|0] \""@, unit, "\" "@, signal.receiver, "\n"@, tail);
    lemma_shift6(p0, order, sign, " ("@, signal.scale, ","@, signal.offset + end);
    lemma_shift(p0 + order + sign + " ("@ + signal.scale + ","@, signal.offset, end);
    lemma_shift6(Seq::empty(), " SG_ "@, signal.name, " : "@, start, "|"@, length + middle);
    lemma_shift(" SG_ "@ + signal.name + " : "@ + start + "|"@, length, middle);
    assert(Seq::<char>::empty() + " SG_ "@ == " SG_ "@);
    let z = start + (seq!['|'] + (length + middle));
    assert(" : "@ + z == seq![' '] + (seq![':', ' '] + z));
    let all = " SG_ "@ + (signal.name + (" : "@ + (start + ("|"@ + (length + middle)))));
    assert(Seq::<char>::empty() + all == all);
}

proof fn lemma_shift6(
    front: Seq<char>,
    a: Seq<char>,
    b: Seq<char>,
    c: Seq<char>,
    d: Seq<char>,
    e: Seq<char>,
    tail: Seq<char>,
)
    ensures
        front + a + b + c + d + e + tail == front + (a + (b + (c + (d + (e + tail))))),
{
    lemma_shift(front + a + b + c + d, e, tail);
    lemma_shift(front + a + b + c, d, e + tail);
    lemma_shift(front + a + b, c, d + (e + tail));
    lemma_shift(front + a, b, c + (d + (e + tail)));
    lemma_shift(front, a, b + (c + (d + (e + tail))));
}

proof fn lemma_pieces_of_the_end(unit: Seq<char>, receiver: Seq<char>, tail: Seq<char>) -> (r: Seq<
    char,
>)
    ensures
        r == ") [0|0] \""@ + (unit + ("\" "@ + (receiver + ("\n"@ + tail)))),
        r == seq![')'] + (seq![' ', '[', '0', '|', '0', ']', ' ', '"'] + (unit + (seq!['"'] + (
        seq![' '] + (receiver + (seq!['\n'] + tail)))))),
{
    lemma_literals();
    let x = receiver + (seq!['\n'] + tail);
    assert("\" "@ + x == seq!['"'] + (seq![' '] + x));
    let y = unit + (seq!['"'] + (seq![' '] + x));
    assert(") [0|0] \""@ + y == seq![')'] + (seq![' ', '[', '0', '|', '0', ']', ' ', '"'] + y));
    ") [0|0] \""@ + y
}

proof fn lemma_pieces_of_the_middle(
    scale: Seq<char>,
    offset: Seq<char>,
    order: char,
    sign: char,
    end: Seq<char>,
) -> (r: Seq<char>)
    ensures
        r == seq!['@', order] + (seq![sign] + (" ("@ + (scale + (","@ + (offset + end))))),
        r == seq!['@'] + (seq![order, sign, ' ', '('] + (scale + (seq![','] + (offset + end)))),
{
    lemma_literals();
    let x = scale + (seq![','] + (offset + end));
    let r = seq!['@', order] + (seq![sign] + (" ("@ + x));
    assert(r == seq!['@'] + (seq![order, sign, ' ', '('] + x));
    r
}

proof fn lemma_signal_cut(a: Signal, x: Seq<char>, b: Signal, y: Seq<char>)
    requires
        is_plain_signal(a),
        is_plain_signal(b),
        signal_text(a) + x == signal_text(b) + y,
    ensures
        is_same_line(a, b),
        x == y,
{
    lemma_line_parts(a, x);
    lemma_line_parts(b, y);
    let head = seq![' ', 'S', 'G', '_', ' '];
    let colon = seq![':', ' '];
    let bits_a = decimal(a.length as nat) + (seq!['@'] + line_middle(a, x));
    let bits_b = decimal(b.length as nat) + (seq!['@'] + line_middle(b, y));
    let start_a = decimal(a.start_bit as nat) + (seq!['|'] + bits_a);
    let start_b = decimal(b.start_bit as nat) + (seq!['|'] + bits_b);
    lemma_same_front(
        head,
        a.name + (seq![' '] + (colon + start_a)),
        head,
        b.name + (seq![' '] + (colon + start_b)),
    );
    lemma_cut(a.name, colon + start_a, b.name, colon + start_b, ' ');
    lemma_same_front(colon, start_a, colon, start_b);
    lemma_number_lacks(a.start_bit as nat, '|');
    lemma_number_lacks(b.start_bit as nat, '|');
    lemma_cut(decimal(a.start_bit as nat), bits_a, decimal(b.start_bit as nat), bits_b, '|');
    lemma_same_number(a.start_bit as nat, b.start_bit as nat);
    lemma_number_lacks(a.length as nat, '@');
    lemma_number_lacks(b.length as nat, '@');
    lemma_cut(
        decimal(a.length as nat),
        line_middle(a, x),
        decimal(b.length as nat),
        line_middle(b, y),
        '@',
    );
    lemma_same_number(a.length as nat, b.length as nat);
    lemma_middle_cut(a, x, b, y);
}

proof fn lemma_middle_cut(a: Signal, x: Seq<char>, b: Signal, y: Seq<char>)
    requires
        is_plain_signal(a),
        is_plain_signal(b),
        line_middle(a, x) == line_middle(b, y),
    ensures
        a.little_endian == b.little_endian,
        a.is_signed == b.is_signed,
        a.scale == b.scale,
        a.offset == b.offset,
        shown_unit(a) == shown_unit(b),
        a.receiver == b.receiver,
        x == y,
{
    let marks_a = seq![order_mark(a), sign_mark(a), ' ', '('];
    let marks_b = seq![order_mark(b), sign_mark(b), ' ', '('];
    let offset_a = a.offset + (seq![')'] + line_end(a, x));
    let offset_b = b.offset + (seq![')'] + line_end(b, y));
    lemma_same_front(
        marks_a,
        a.scale + (seq![','] + offset_a),
        marks_b,
        b.scale + (seq![','] + offset_b),
    );
    assert(marks_a[0] == marks_b[0] && marks_a[1] == marks_b[1]);
    lemma_cut(a.scale, offset_a, b.scale, offset_b, ',');
    lemma_cut(a.offset, line_end(a, x), b.offset, line_end(b, y), ')');
    let range = seq![' ', '[', '0', '|', '0', ']', ' ', '"'];
    let receiver_a = a.receiver + (seq!['\n'] + x);
    let receiver_b = b.receiver + (seq!['\n'] + y);
    lemma_same_front(
        range,
        shown_unit(a) + (seq!['"'] + (seq![' '] + receiver_a)),
        range,
        shown_unit(b) + (seq!['"'] + (seq![' '] + receiver_b)),
    );
    lemma_cut(
        shown_unit(a),
        seq![' '] + receiver_a,
        shown_unit(b),
        seq![' '] + receiver_b,
        '"',
    );
    lemma_same_front(seq![' '], receiver_a, seq![' '], receiver_b);
    lemma_cut(a.receiver, x, b.receiver, y, '\n');
}

proof fn lemma_first_signal(signals: Seq<Signal>)
    requires
        signals.len() > 0,
    ensures
        signals_text(signals) == signal_text(signals[0]) + signals_text(signals.drop_first()),
    decreases signals.len(),
{
    let rest = signals.drop_first();
    if rest.len() == 0 {
        assert(signals.drop_last() == Seq::<Signal>::empty());
        assert(signals_text(rest) == Seq::<char>::empty());
        assert(signals_text(Seq::<Signal>::empty()) == Seq::<char>::empty());
        assert(signals.last() == signals[0]);
        assert(Seq::<char>::empty() + signal_text(signals[0]) == signal_text(signals[0])
            + Seq::<char>::empty());
    } else {
        lemma_first_signal(signals.drop_last());
        assert(signals.drop_last().drop_first() == rest.drop_last());
        assert(signals.drop_last()[0] == signals[0]);
        assert(signals.last() == rest.last());
        assert(signals_text(rest) == signals_text(rest.drop_last()) + signal_text(rest.last()));
        lemma_shift(
            signal_text(signals[0]),
            signals_text(rest.drop_last()),
            signal_text(rest.last()),
        );
    }
}

proof fn lemma_first_message(messages: Seq<Message>)
    requires
        messages.len() > 0,
    ensures
        messages_text(messages) == message_text(messages[0]) + messages_text(messages.drop_first()),
    decreases messages.len(),
{
    let rest = messages.drop_first();
    if rest.len() == 0 {
        assert(messages.drop_last() == Seq::<Message>::empty());
        assert(messages_text(rest) == Seq::<char>::empty());
        assert(messages_text(Seq::<Message>::empty()) == Seq::<char>::empty());
        assert(messages.last() == messages[0]);
        assert(Seq::<char>::empty() + message_text(messages[0]) == message_text(messages[0])
            + Seq::<char>::empty());
    } else {
        lemma_first_message(messages.drop_last());
        assert(messages.drop_last().drop_first() == rest.drop_last());
        assert(messages.drop_last()[0] == messages[0]);
        assert(messages.last() == rest.last());
        assert(messages_text(rest) == messages_text(rest.drop_last()) + message_text(rest.last()));
        lemma_shift(
            message_text(messages[0]),
            messages_text(rest.drop_last()),
            message_text(rest.last()),
        );
    }
}

/// A text that is empty or starts with a line feed.
spec fn starts_a_line(s: Seq<char>) -> bool {
    s.len() == 0 || s[0] == '\n'
}

proof fn lemma_signals_cut(a: Seq<Signal>, x: Seq<char>, b: Seq<Signal>, y: Seq<char>)
    requires
        forall|i: int| 0 <= i < a.len() ==> is_plain_signal(#[trigger] a[i]),
        forall|i: int| 0 <= i < b.len() ==> is_plain_signal(#[trigger] b[i]),
        starts_a_line(x),
        starts_a_line(y),
        signals_text(a) + x == signals_text(b) + y,
    ensures
        a.len() == b.len(),
        forall|i: int| 0 <= i < a.len() ==> is_same_line(#[trigger] a[i], b[i]),
        x == y,
    decreases a.len(),
{
    lemma_literals();
    if a.len() == 0 && b.len() == 0 {
        assert(Seq::<char>::empty() + x == x && Seq::<char>::empty() + y == y);
    } else if a.len() == 0 {
        lemma_first_signal(b);
        lemma_starts_with_a_space(b[0]);
        assert(Seq::<char>::empty() + x == x);
        assert((signals_text(b) + y)[0] == ' ');
    } else if b.len() == 0 {
        lemma_first_signal(a);
        lemma_starts_with_a_space(a[0]);
        assert(Seq::<char>::empty() + y == y);
        assert((signals_text(a) + x)[0] == ' ');
    } else {
        let more_a = a.drop_first();
        let more_b = b.drop_first();
        lemma_first_signal(a);
        lemma_first_signal(b);
        lemma_shift(signal_text(a[0]), signals_text(more_a), x);
        lemma_shift(signal_text(b[0]), signals_text(more_b), y);
        lemma_signal_cut(a[0], signals_text(more_a) + x, b[0], signals_text(more_b) + y);
        assert forall|i: int| 0 <= i < more_a.len() implies is_plain_signal(#[trigger] more_a[i]) by {
            assert(more_a[i] == a[i + 1]);
        }
        assert forall|i: int| 0 <= i < more_b.len() implies is_plain_signal(#[trigger] more_b[i]) by {
            assert(more_b[i] == b[i + 1]);
        }
        lemma_signals_cut(more_a, x, more_b, y);
        assert forall|i: int| 0 <= i < a.len() implies is_same_line(#[trigger] a[i], b[i]) by {
            if i > 0 {
                assert(is_same_line(more_a[i - 1], more_b[i - 1]));
            }
        }
    }
}

proof fn lemma_starts_with_a_space(signal: Signal)
    ensures
        signal_text(signal).len() > 0,
        signal_text(signal)[0] == ' ',
{
    lemma_line_parts(signal, Seq::empty());
    assert(signal_text(signal) + Seq::<char>::empty() == signal_text(signal));
    assert(line_parts(signal, Seq::empty())[0] == ' ');
}

/// A message's block with a text behind it, part by part.
spec fn block_parts(message: Message, tail: Seq<char>) -> Seq<char> {
    seq!['\n', 'B', 'O', '_', ' '] + (decimal(dbc_id(message) as nat) + (seq![' '] + (message.name
        + (seq![':'] + (seq![' '] + (decimal(message.dlc as nat) + (seq![' '] + (message.sender + (
    seq!['\n'] + (signals_text(message.signals) + tail))))))))))
}

proof fn lemma_block_parts(message: Message, tail: Seq<char>)
    ensures
        message_text(message) + tail == block_parts(message, tail),
{
    lemma_literals();
    let id = decimal(dbc_id(message) as nat);
    let dlc = decimal(message.dlc as nat);
    let a = "\nBO_ "@ + id + " "@ + message.name;
    let b = a + ": "@ + dlc + " "@ + message.sender;
    let x = signals_text(message.signals) + tail;
    assert(message_text(message) + tail == b + "\n"@ + x);
    let y = message.sender + (seq!['\n'] + x);
    assert(b + "\n"@ + x == a + ": "@ + dlc + " "@ + y);
    let z = seq![' '] + (dlc + (seq![' '] + y));
    assert(a + ": "@ + dlc + " "@ + y == a + (seq![':'] + z));
    assert(a + (seq![':'] + z) == "\nBO_ "@ + (id + (seq![' '] + (message.name + (seq![':'] + z)))));
}

proof fn lemma_block_cut(a: Message, x: Seq<char>, b: Message, y: Seq<char>)
    requires
        is_plain_message(a),
        is_plain_message(b),
        starts_a_line(x),
        starts_a_line(y),
        message_text(a) + x == message_text(b) + y,
    ensures
        is_same_block(a, b),
        x == y,
{
    lemma_block_parts(a, x);
    lemma_block_parts(b, y);
    let head = seq!['\n', 'B', 'O', '_', ' '];
    let tail_a = signals_text(a.signals) + x;
    let tail_b = signals_text(b.signals) + y;
    let sender_a = a.sender + (seq!['\n'] + tail_a);
    let sender_b = b.sender + (seq!['\n'] + tail_b);
    let dlc_a = decimal(a.dlc as nat) + (seq![' '] + sender_a);
    let dlc_b = decimal(b.dlc as nat) + (seq![' '] + sender_b);
    let name_a = a.name + (seq![':'] + (seq![' '] + dlc_a));
    let name_b = b.name + (seq![':'] + (seq![' '] + dlc_b));
    let id_a = decimal(dbc_id(a) as nat);
    let id_b = decimal(dbc_id(b) as nat);
    lemma_same_front(head, id_a + (seq![' '] + name_a), head, id_b + (seq![' '] + name_b));
    lemma_number_lacks(dbc_id(a) as nat, ' ');
    lemma_number_lacks(dbc_id(b) as nat, ' ');
    lemma_cut(id_a, name_a, id_b, name_b, ' ');
    lemma_same_number(dbc_id(a) as nat, dbc_id(b) as nat);
    crate::writer::law_written_ids_tell_frames_apart(a, b);
    lemma_cut(a.name, seq![' '] + dlc_a, b.name, seq![' '] + dlc_b, ':');
    lemma_same_front(seq![' '], dlc_a, seq![' '], dlc_b);
    lemma_number_lacks(a.dlc as nat, ' ');
    lemma_number_lacks(b.dlc as nat, ' ');
    lemma_cut(decimal(a.dlc as nat), sender_a, decimal(b.dlc as nat), sender_b, ' ');
    lemma_same_number(a.dlc as nat, b.dlc as nat);
    lemma_cut(a.sender, tail_a, b.sender, tail_b, '\n');
    lemma_signals_cut(a.signals, x, b.signals, y);
}

/// A text that is empty or starts as the section of extended value types does.
spec fn starts_the_section(s: Seq<char>) -> bool {
    s.len() == 0 || (s.len() >= 2 && s[0] == '\n' && s[1] == 'S')
}

proof fn lemma_block_starts(message: Message, tail: Seq<char>)
    ensures
        (message_text(message) + tail).len() >= 2,
        (message_text(message) + tail)[0] == '\n',
        (message_text(message) + tail)[1] == 'B',
{
    lemma_block_parts(message, tail);
    let parts = block_parts(message, tail);
    assert(parts[0] == '\n' && parts[1] == 'B');
}

proof fn lemma_blocks_start_a_line(messages: Seq<Message>, tail: Seq<char>)
    requires
        starts_the_section(tail),
    ensures
        starts_a_line(messages_text(messages) + tail),
        messages.len() > 0 ==> !starts_the_section(messages_text(messages) + tail),
{
    if messages.len() == 0 {
        assert(Seq::<char>::empty() + tail == tail);
    } else {
        let rest = messages_text(messages.drop_first());
        lemma_first_message(messages);
        lemma_shift(message_text(messages[0]), rest, tail);
        lemma_block_starts(messages[0], rest + tail);
    }
}

proof fn lemma_messages_cut(a: Seq<Message>, x: Seq<char>, b: Seq<Message>, y: Seq<char>)
    requires
        forall|i: int| 0 <= i < a.len() ==> is_plain_message(#[trigger] a[i]),
        forall|i: int| 0 <= i < b.len() ==> is_plain_message(#[trigger] b[i]),
        starts_the_section(x),
        starts_the_section(y),
        messages_text(a) + x == messages_text(b) + y,
    ensures
        a.len() == b.len(),
        forall|i: int| 0 <= i < a.len() ==> is_same_block(#[trigger] a[i], b[i]),
        x == y,
    decreases a.len(),
{
    lemma_blocks_start_a_line(a, x);
    lemma_blocks_start_a_line(b, y);
    if a.len() == 0 || b.len() == 0 {
        assert(Seq::<char>::empty() + x == x && Seq::<char>::empty() + y == y);
        assert(a.len() == 0 && b.len() == 0);
    } else {
        let more_a = a.drop_first();
        let more_b = b.drop_first();
        lemma_first_message(a);
        lemma_first_message(b);
        lemma_shift(message_text(a[0]), messages_text(more_a), x);
        lemma_shift(message_text(b[0]), messages_text(more_b), y);
        lemma_blocks_start_a_line(more_a, x);
        lemma_blocks_start_a_line(more_b, y);
        lemma_block_cut(a[0], messages_text(more_a) + x, b[0], messages_text(more_b) + y);
        assert forall|i: int| 0 <= i < more_a.len() implies is_plain_message(
            #[trigger] more_a[i],
        ) by {
            assert(more_a[i] == a[i + 1]);
        }
        assert forall|i: int| 0 <= i < more_b.len() implies is_plain_message(
            #[trigger] more_b[i],
        ) by {
            assert(more_b[i] == b[i + 1]);
        }
        lemma_messages_cut(more_a, x, more_b, y);
        assert forall|i: int| 0 <= i < a.len() implies is_same_block(#[trigger] a[i], b[i]) by {
            if i > 0 {
                assert(is_same_block(more_a[i - 1], more_b[i - 1]));
            }
        }
    }
}

proof fn lemma_section_starts(messages: Seq<Message>)
    ensures
        starts_the_section(value_section(messages)),
{
    let lines = all_value_types_text(messages);
    lemma_literals();
    if lines.len() > 0 {
        lemma_lines_start(messages);
        assert(value_section(messages)[1] == lines[0]);
    }
}

proof fn lemma_lines_start(messages: Seq<Message>)
    ensures
        all_value_types_text(messages).len() > 0 ==> all_value_types_text(messages)[0] == 'S',
    decreases messages.len(),
{
    if messages.len() > 0 {
        let before = all_value_types_text(messages.drop_last());
        lemma_lines_start(messages.drop_last());
        lemma_own_lines_start(messages.last(), messages.last().signals);
        if before.len() > 0 {
            assert(all_value_types_text(messages)[0] == before[0]);
        } else {
            assert(before == Seq::<char>::empty());
            assert(all_value_types_text(messages) == value_types_text(
                messages.last(),
                messages.last().signals,
            ));
        }
    }
}

proof fn lemma_own_lines_start(message: Message, signals: Seq<Signal>)
    ensures
        value_types_text(message, signals).len() > 0 ==> value_types_text(message, signals)[0]
            == 'S',
    decreases signals.len(),
{
    if signals.len() > 0 {
        let before = value_types_text(message, signals.drop_last());
        let line = value_type_text(message, signals.last());
        lemma_own_lines_start(message, signals.drop_last());
        reveal_strlit("SIG_VALTYPE_ ");
        if line.len() > 0 {
            assert(line[0] == 'S');
        }
        if before.len() > 0 {
            assert(value_types_text(message, signals)[0] == before[0]);
        } else {
            assert(before == Seq::<char>::empty());
            assert(value_types_text(message, signals) == line);
        }
    }
}

proof fn lemma_nodes_lack_line_ends(messages: Seq<Message>)
    requires
        forall|i: int| 0 <= i < messages.len() ==> is_plain_message(#[trigger] messages[i]),
    ensures
        lacks(node_list(declared(mentions(messages))), '\n'),
{
    let named = mentions(messages);
    lemma_mentions_lack(messages);
    law_declared_nodes(named);
    let nodes = declared(named);
    assert forall|i: int| 0 <= i < nodes.len() implies lacks(#[trigger] nodes[i], '\n') by {
        assert(nodes.contains(nodes[i]));
        assert(named.contains(nodes[i]));
        let k = choose|k: int| 0 <= k < named.len() && named[k] == nodes[i];
        assert(lacks(named[k], '\n'));
    }
    lemma_list_lacks(nodes);
}

proof fn lemma_list_lacks(nodes: Seq<Seq<char>>)
    requires
        forall|i: int| 0 <= i < nodes.len() ==> lacks(#[trigger] nodes[i], '\n'),
    ensures
        lacks(node_list(nodes), '\n'),
    decreases nodes.len(),
{
    lemma_literals();
    if nodes.len() > 0 {
        let before = nodes.drop_last();
        assert forall|i: int| 0 <= i < before.len() implies lacks(#[trigger] before[i], '\n') by {
            assert(before[i] == nodes[i]);
        }
        lemma_list_lacks(before);
        assert(lacks(nodes[nodes.len() - 1], '\n'));
    }
}

proof fn lemma_mentions_lack(messages: Seq<Message>)
    requires
        forall|i: int| 0 <= i < messages.len() ==> is_plain_message(#[trigger] messages[i]),
    ensures
        forall|i: int|
            0 <= i < mentions(messages).len() ==> lacks(#[trigger] mentions(messages)[i], '\n'),
    decreases messages.len(),
{
    if messages.len() > 0 {
        let before = messages.drop_last();
        let last = messages[messages.len() - 1];
        assert forall|i: int| 0 <= i < before.len() implies is_plain_message(
            #[trigger] before[i],
        ) by {
            assert(before[i] == messages[i]);
        }
        lemma_mentions_lack(before);
        assert(is_plain_message(last));
        let m = mentions(before).len() as int;
        assert forall|i: int| 0 <= i < mentions(messages).len() implies lacks(
            #[trigger] mentions(messages)[i],
            '\n',
        ) by {
            if i < m {
                assert(mentions(messages)[i] == mentions(before)[i]);
            } else if i > m {
                assert(mentions(messages)[i] == last.signals[i - m - 1].receiver);
                assert(is_plain_signal(last.signals[i - m - 1]));
            }
        }
    }
}

/// The written text determines the messages: two files with the same text have the same
/// messages in the same order, alike in every field that a block shows, down to each
/// signal. So messages that differ in their identifier, their length or any other of these
/// are written differently. It holds where no text has a character in it that parts it from
/// the next one on its line, and no identifier has bit 31 set.
pub proof fn law_the_text_determines_the_messages(a: Seq<Message>, b: Seq<Message>)
    requires
        forall|i: int| 0 <= i < a.len() ==> is_plain_message(#[trigger] a[i]),
        forall|i: int| 0 <= i < b.len() ==> is_plain_message(#[trigger] b[i]),
        dbc_text(a) == dbc_text(b),
    ensures
        a.len() == b.len(),
        forall|i: int| 0 <= i < a.len() ==> is_same_block(#[trigger] a[i], b[i]),
        all_value_types_text(a) == all_value_types_text(b),
{
    lemma_literals();
    let front = HEADER@ + "BU_:"@;
    let list_a = node_list(declared(mentions(a)));
    let list_b = node_list(declared(mentions(b)));
    let body_a = messages_text(a) + value_section(a);
    let body_b = messages_text(b) + value_section(b);
    assert(dbc_text(a) == front + (list_a + (seq!['\n'] + body_a)));
    assert(dbc_text(b) == front + (list_b + (seq!['\n'] + body_b)));
    lemma_same_front(
        front,
        list_a + (seq!['\n'] + body_a),
        front,
        list_b + (seq!['\n'] + body_b),
    );
    lemma_nodes_lack_line_ends(a);
    lemma_nodes_lack_line_ends(b);
    lemma_cut(list_a, body_a, list_b, body_b, '\n');
    lemma_section_starts(a);
    lemma_section_starts(b);
    lemma_messages_cut(a, value_section(a), b, value_section(b));
    let lines_a = all_value_types_text(a);
    let lines_b = all_value_types_text(b);
    if lines_a.len() > 0 && lines_b.len() > 0 {
        lemma_same_front("\n"@, lines_a, "\n"@, lines_b);
    } else {
        assert(lines_a == lines_b);
    }
}

} // verus!
