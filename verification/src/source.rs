//! What a database says of its source: laws that hold what [`m1dbc`](crate::m1dbc) reads
//! against the attributes of the components it was read from.

use crate::m1dbc::{
    bad_number_fault, claimed_by, claims, class_count, components, convertible_names, database_of,
    dec_attribute, first_invalid, first_props, float_attribute, hex_attribute, is_convertible,
    item_of, items_of, latest_message, lemma_convertible_names, lemma_items_of_fewer,
    lemma_names_agree, lemma_names_have_messages, message_names, missing_props_fault, note_on,
    notes_among, or_else, signal_count, signal_of, source_counts, unless_empty, Database, Item,
    Signal, MSG_CLASS, SIG_CLASS,
};
use crate::names::identifier;
use crate::number::{is_float_text, unsigned_value};
use crate::text::{after_last_dot, before_last_dot, debug_text, trimmed};
use crate::xml::{all_children_named, attribute_of, children_named, nodes_named, Node};
use crate::Fault;
use vstd::prelude::*;

verus! {

/// The `Name` of a component, empty where it has none.
pub open spec fn named(doc: Seq<Node>, c: usize) -> Seq<char> {
    match attribute_of(doc, c, "Name"@) {
        Some(name) => name,
        None => Seq::empty(),
    }
}

/// A message component.
pub open spec fn is_message(doc: Seq<Node>, c: usize) -> bool {
    attribute_of(doc, c, "Classname"@) == Some("BuiltIn.CAN.Message"@)
}

/// A signal component.
pub open spec fn is_signal(doc: Seq<Node>, c: usize) -> bool {
    attribute_of(doc, c, "Classname"@) == Some("BuiltIn.CAN.Signal"@)
}

/// A name that ends like that of the container of independent signals.
pub open spec fn ends_like_the_container(name: Seq<char>) -> bool {
    ("VECTOR INDEPENDENT SIG MSG"@).is_suffix_of(name)
}

/// A message component that can be exported: it is not the container, and its first
/// `<Props>` has a `CANId`.
pub open spec fn is_exportable(doc: Seq<Node>, c: usize) -> bool {
    &&& is_message(doc, c)
    &&& !ends_like_the_container(named(doc, c))
    &&& children_named(doc, c, "Props"@).len() > 0
    &&& attribute_of(doc, children_named(doc, c, "Props"@)[0], "CANId"@) is Some
}

proof fn lemma_classes(doc: Seq<Node>, c: usize)
    ensures
        crate::m1dbc::class_of(doc, c) == MSG_CLASS@ <==> is_message(doc, c),
        crate::m1dbc::class_of(doc, c) == SIG_CLASS@ <==> is_signal(doc, c),
        crate::m1dbc::name_of(doc, c) == named(doc, c),
        is_convertible(doc, c) <==> is_exportable(doc, c),
        !(is_message(doc, c) && is_signal(doc, c)),
{
    reveal_strlit("BuiltIn.CAN.Message");
    reveal_strlit("BuiltIn.CAN.Signal");
    assert(MSG_CLASS@.len() != SIG_CLASS@.len());
}

/// The components of a document are the `<Component>` children of `<List>` children of
/// `<ComponentStream>` elements, these at any depth, and nothing else.
pub proof fn law_components_are_those_of_the_streams(doc: Seq<Node>, c: usize)
    ensures
        components(doc).contains(c) <==> exists|s: usize, l: usize|
            #![trigger children_named(doc, s, "List"@).contains(l)]
            {
                &&& nodes_named(doc, "ComponentStream"@).contains(s)
                &&& children_named(doc, s, "List"@).contains(l)
                &&& children_named(doc, l, "Component"@).contains(c)
            },
{
    let streams = nodes_named(doc, "ComponentStream"@);
    let lists = all_children_named(doc, streams, "List"@);
    lemma_all_children(doc, lists, "Component"@, c);
    if components(doc).contains(c) {
        let l = choose|l: usize|
            lists.contains(l) && #[trigger] children_named(doc, l, "Component"@).contains(c);
        lemma_all_children(doc, streams, "List"@, l);
        let s = choose|s: usize|
            streams.contains(s) && #[trigger] children_named(doc, s, "List"@).contains(l);
        assert(children_named(doc, s, "List"@).contains(l));
    }
    if exists|s: usize, l: usize|
        #![trigger children_named(doc, s, "List"@).contains(l)]
        {
            &&& streams.contains(s)
            &&& children_named(doc, s, "List"@).contains(l)
            &&& children_named(doc, l, "Component"@).contains(c)
        } {
        let (s, l) = choose|s: usize, l: usize|
            #![trigger children_named(doc, s, "List"@).contains(l)]
            {
                &&& streams.contains(s)
                &&& children_named(doc, s, "List"@).contains(l)
                &&& children_named(doc, l, "Component"@).contains(c)
            };
        lemma_all_children(doc, streams, "List"@, l);
        assert(lists.contains(l));
        assert(children_named(doc, l, "Component"@).contains(c));
    }
}

proof fn lemma_all_children(doc: Seq<Node>, parents: Seq<usize>, name: Seq<char>, c: usize)
    ensures
        all_children_named(doc, parents, name).contains(c) <==> exists|p: usize|
            parents.contains(p) && #[trigger] children_named(doc, p, name).contains(c),
    decreases parents.len(),
{
    let all = all_children_named(doc, parents, name);
    if parents.len() > 0 {
        let before = parents.drop_last();
        let old_all = all_children_named(doc, before, name);
        let last = parents.last();
        let own = children_named(doc, last, name);
        lemma_all_children(doc, before, name, c);
        assert(parents[parents.len() - 1] == last);
        if all.contains(c) {
            let i = choose|i: int| 0 <= i < all.len() && all[i] == c;
            if i < old_all.len() {
                assert(old_all[i] == c);
                let p = choose|p: usize|
                    before.contains(p) && #[trigger] children_named(doc, p, name).contains(c);
                let j = choose|j: int| 0 <= j < before.len() && before[j] == p;
                assert(parents[j] == p);
                assert(parents.contains(p) && children_named(doc, p, name).contains(c));
            } else {
                assert(own[i - old_all.len()] == c);
                assert(parents.contains(last) && children_named(doc, last, name).contains(c));
            }
        }
        if exists|p: usize|
            parents.contains(p) && #[trigger] children_named(doc, p, name).contains(c) {
            let p = choose|p: usize|
                parents.contains(p) && #[trigger] children_named(doc, p, name).contains(c);
            let j = choose|j: int| 0 <= j < parents.len() && parents[j] == p;
            if j < before.len() {
                assert(before[j] == p);
                assert(old_all.contains(c));
                let i = choose|i: int| 0 <= i < old_all.len() && old_all[i] == c;
                assert(all[i] == c);
            } else {
                let i = choose|i: int| 0 <= i < own.len() && own[i] == c;
                assert(all[old_all.len() + i] == c);
            }
        }
    }
}

/// In a document with one stream of one list, the components are the `<Component>`
/// children of the list, in document order.
pub proof fn law_the_components_of_a_list_keep_their_order(doc: Seq<Node>, s: usize, l: usize)
    requires
        nodes_named(doc, "ComponentStream"@) == seq![s],
        children_named(doc, s, "List"@) == seq![l],
    ensures
        components(doc) == children_named(doc, l, "Component"@),
{
    let none = Seq::<usize>::empty();
    assert(seq![s].drop_last() == none && seq![l].drop_last() == none);
    assert(all_children_named(doc, none, "List"@) == none);
    assert(all_children_named(doc, none, "Component"@) == none);
    assert(none + seq![l] == seq![l]);
    assert(none + children_named(doc, l, "Component"@) == children_named(doc, l, "Component"@));
    assert(all_children_named(doc, seq![s], "List"@) == seq![l]);
    assert(all_children_named(doc, seq![l], "Component"@) == children_named(
        doc,
        l,
        "Component"@,
    ));
}

/// The full names of the exported messages are those of the exportable components: every
/// one of them, each once, in the order in which they first appear.
pub proof fn law_exported_messages_are_the_exportable_components(doc: Seq<Node>, comps: Seq<usize>)
    ensures
        convertible_names(doc, comps).no_duplicates(),
        forall|k: int|
            0 <= k < comps.len() && is_exportable(doc, #[trigger] comps[k]) ==> convertible_names(
                doc,
                comps,
            ).contains(named(doc, comps[k])),
        forall|i: int|
            0 <= i < convertible_names(doc, comps).len() ==> is_exportable_name(
                doc,
                comps,
                #[trigger] convertible_names(doc, comps)[i],
            ),
        forall|i: int, j: int|
            0 <= i < j < convertible_names(doc, comps).len() ==> appears_before(
                doc,
                comps,
                #[trigger] convertible_names(doc, comps)[i],
                #[trigger] convertible_names(doc, comps)[j],
            ),
    decreases comps.len(),
{
    let names = convertible_names(doc, comps);
    lemma_convertible_names(doc, comps);
    if comps.len() > 0 {
        let before = comps.drop_last();
        let earlier = convertible_names(doc, before);
        let n = comps.len() - 1;
        law_exported_messages_are_the_exportable_components(doc, before);
        lemma_classes(doc, comps.last());
        assert forall|k: int|
            0 <= k < comps.len() && is_exportable(doc, #[trigger] comps[k]) implies names.contains(
            named(doc, comps[k]),
        ) by {
            if k < n {
                assert(comps[k] == before[k]);
                assert(earlier.contains(named(doc, before[k])));
                let i = choose|i: int|
                    0 <= i < earlier.len() && earlier[i] == named(doc, before[k]);
                assert(names[i] == earlier[i]);
            } else if earlier.contains(named(doc, comps[k])) {
                let i = choose|i: int| 0 <= i < earlier.len() && earlier[i] == named(doc, comps[k]);
                assert(names[i] == earlier[i]);
            } else {
                assert(names[earlier.len() as int] == named(doc, comps[k]));
            }
        }
        assert forall|i: int| 0 <= i < names.len() implies is_exportable_name(
            doc,
            comps,
            #[trigger] names[i],
        ) by {
            if i < earlier.len() {
                assert(names[i] == earlier[i]);
                assert(is_exportable_name(doc, before, earlier[i]));
                let k = choose|k: int|
                    0 <= k < before.len() && is_exportable(doc, #[trigger] before[k]) && named(
                        doc,
                        before[k],
                    ) == earlier[i];
                assert(comps[k] == before[k]);
            } else {
                assert(is_exportable(doc, comps[n]));
            }
        }
        assert forall|i: int, j: int| 0 <= i < j < names.len() implies appears_before(
            doc,
            comps,
            #[trigger] names[i],
            #[trigger] names[j],
        ) by {
            if j < earlier.len() {
                assert(names[i] == earlier[i] && names[j] == earlier[j]);
                assert(appears_before(doc, before, earlier[i], earlier[j]));
                let k = choose|k: int|
                    is_first(doc, before, k, earlier[i]) && #[trigger] absent_up_to(
                        doc,
                        before,
                        k,
                        earlier[j],
                    );
                lemma_first_stays(doc, comps, k, names[i], names[j]);
            } else {
                assert(names[i] == earlier[i]);
                assert(is_exportable_name(doc, before, earlier[i]));
                let k0 = choose|k: int|
                    0 <= k < before.len() && is_exportable(doc, #[trigger] before[k]) && named(
                        doc,
                        before[k],
                    ) == earlier[i];
                let k = lemma_has_a_first(doc, before, k0, earlier[i]);
                assert forall|m: int| 0 <= m <= k implies !(is_exportable(
                    doc,
                    #[trigger] before[m],
                ) && named(doc, before[m]) == names[j]) by {
                    if is_exportable(doc, before[m]) && named(doc, before[m]) == names[j] {
                        assert(earlier.contains(names[j]));
                    }
                }
                assert(absent_up_to(doc, before, k, names[j]));
                lemma_first_stays(doc, comps, k, names[i], names[j]);
            }
        }
    }
}

/// A name belongs to an exportable component.
pub open spec fn is_exportable_name(doc: Seq<Node>, comps: Seq<usize>, name: Seq<char>) -> bool {
    exists|k: int|
        0 <= k < comps.len() && is_exportable(doc, #[trigger] comps[k]) && named(doc, comps[k])
            == name
}

/// A name belongs to an exportable component before another does.
pub open spec fn appears_before(
    doc: Seq<Node>,
    comps: Seq<usize>,
    a: Seq<char>,
    b: Seq<char>,
) -> bool {
    exists|k: int| is_first(doc, comps, k, a) && #[trigger] absent_up_to(doc, comps, k, b)
}

/// A name belongs to an exportable component at a place, and to none before it.
pub open spec fn is_first(doc: Seq<Node>, comps: Seq<usize>, k: int, name: Seq<char>) -> bool {
    &&& 0 <= k < comps.len()
    &&& is_exportable(doc, comps[k])
    &&& named(doc, comps[k]) == name
    &&& forall|m: int|
        0 <= m < k ==> !(is_exportable(doc, #[trigger] comps[m]) && named(doc, comps[m]) == name)
}

/// A name belongs to no exportable component up to a place.
pub open spec fn absent_up_to(doc: Seq<Node>, comps: Seq<usize>, k: int, name: Seq<char>) -> bool {
    forall|m: int|
        0 <= m <= k ==> !(is_exportable(doc, #[trigger] comps[m]) && named(doc, comps[m]) == name)
}

proof fn lemma_first_stays(
    doc: Seq<Node>,
    comps: Seq<usize>,
    k: int,
    a: Seq<char>,
    b: Seq<char>,
)
    requires
        comps.len() > 0,
        is_first(doc, comps.drop_last(), k, a),
        absent_up_to(doc, comps.drop_last(), k, b),
    ensures
        is_first(doc, comps, k, a) && absent_up_to(doc, comps, k, b),
{
    let before = comps.drop_last();
    assert(comps[k] == before[k]);
    assert forall|m: int| 0 <= m < k implies !(is_exportable(doc, #[trigger] comps[m]) && named(
        doc,
        comps[m],
    ) == a) by {
        assert(comps[m] == before[m]);
    }
    assert forall|m: int| 0 <= m <= k implies !(is_exportable(doc, #[trigger] comps[m]) && named(
        doc,
        comps[m],
    ) == b) by {
        assert(comps[m] == before[m]);
    }
}

proof fn lemma_has_a_first(doc: Seq<Node>, comps: Seq<usize>, k: int, name: Seq<char>) -> (r: int)
    requires
        0 <= k < comps.len(),
        is_exportable(doc, comps[k]),
        named(doc, comps[k]) == name,
    ensures
        is_first(doc, comps, r, name),
        r <= k,
    decreases k,
{
    if exists|m: int|
        0 <= m < k && is_exportable(doc, #[trigger] comps[m]) && named(doc, comps[m]) == name {
        let m = choose|m: int|
            0 <= m < k && is_exportable(doc, #[trigger] comps[m]) && named(doc, comps[m]) == name;
        lemma_has_a_first(doc, comps, m, name)
    } else {
        k
    }
}

proof fn lemma_latest(items: Seq<Item>, name: Seq<char>) -> (k: int)
    requires
        latest_message(items, name) is Some,
    ensures
        0 <= k < items.len(),
        items[k] == Item::Message(name, latest_message(items, name)->0),
        forall|j: int|
            k < j < items.len() ==> !((#[trigger] items[j]) matches Item::Message(n, _) && n
                == name),
    decreases items.len(),
{
    let n = items.len() - 1;
    if items.last() is Message && items.last()->Message_0 == name {
        n
    } else {
        let before = items.drop_last();
        let k = lemma_latest(before, name);
        assert(items[k] == before[k]);
        assert forall|j: int| k < j < items.len() implies !((#[trigger] items[j]) matches
            Item::Message(m, _) && m == name) by {
            if j < n {
                assert(items[j] == before[j]);
            }
        }
        k
    }
}

proof fn lemma_no_invalid(items: Seq<Item>, k: int)
    requires
        first_invalid(items) is None,
        0 <= k < items.len(),
    ensures
        !(items[k] is Invalid),
    decreases items.len(),
{
    if k < items.len() - 1 {
        lemma_no_invalid(items.drop_last(), k);
    }
}

/// An exported message says what its component says. `k` is where that component stands:
/// the last one that can be exported under the message's full name. The identifier is the
/// number that the `CANId` denotes in base 16, whatever its size; the length is the number
/// that the `DLC` denotes in base 10, or 8 where there is none; only the `IdType`
/// `Extended` makes it extended; and the sender is the one that is named, if one is.
pub proof fn law_a_message_says_what_its_component_says(
    doc: Seq<Node>,
    stem: Seq<char>,
    file: Database,
    i: int,
) -> (k: int)
    requires
        database_of(doc, stem) == Ok::<Database, Fault>(file),
        0 <= i < file.messages.len(),
    ensures
        file.messages.len() == convertible_names(doc, components(doc)).len(),
        0 <= k < components(doc).len(),
        ({
            let comps = components(doc);
            let name = convertible_names(doc, comps)[i];
            let c = comps[k];
            let p = children_named(doc, c, "Props"@)[0];
            let message = file.messages[i];
            &&& is_exportable(doc, c)
            &&& named(doc, c) == name
            &&& forall|j: int|
                k < j < comps.len() && is_exportable(doc, #[trigger] comps[j]) ==> named(
                    doc,
                    comps[j],
                ) != name
            &&& attribute_of(doc, p, "CANId"@) matches Some(id) && unsigned_value(trimmed(id), 16)
                == Some(message.frame_id as nat)
            &&& message.is_extended <==> attribute_of(doc, p, "IdType"@) == Some("Extended"@)
            &&& match attribute_of(doc, p, "DLC"@) {
                Some(dlc) => unsigned_value(trimmed(dlc), 10) == Some(message.dlc as nat),
                None => message.dlc == 8,
            }
            &&& match attribute_of(doc, c, "Sender"@) {
                Some(sender) => message.sender == (if sender.len() > 0 {
                    sender
                } else {
                    "Vector__XXX"@
                }),
                None => message.sender == "Vector__XXX"@,
            }
            &&& message.name == (if (stem + "."@).is_prefix_of(name) {
                identifier(name.skip((stem + "."@).len() as int), stem)
            } else {
                identifier(name, stem)
            })
        }),
{
    let comps = components(doc);
    let items = items_of(doc, comps, stem);
    lemma_names_agree(doc, comps, stem);
    lemma_names_have_messages(items, i);
    let name = message_names(items)[i];
    let k = lemma_latest(items, name);
    lemma_classes(doc, comps[k]);
    reveal_strlit("Extended");
    reveal_strlit("Standard");
    assert("Extended"@[0] != "Standard"@[0]);
    assert(items[k] == item_of(doc, comps[k], stem));
    lemma_eight();
    assert forall|j: int|
        k < j < comps.len() && is_exportable(doc, #[trigger] comps[j]) implies named(doc, comps[j])
        != name by {
        lemma_classes(doc, comps[j]);
        lemma_no_invalid(items, j);
        assert(items[j] == item_of(doc, comps[j], stem));
    }
    k
}

proof fn lemma_eight()
    ensures
        crate::number::bounded_value(trimmed("8"@), 10, 255) == Some(8nat),
{
    reveal_strlit("8");
    let s = "8"@;
    assert(trimmed(s) == s);
    assert(s.drop_last() == Seq::<char>::empty());
    assert(crate::number::digits_value(s.drop_last(), 10) == Some(0nat));
    assert(crate::number::digits_value(s, 10) == Some(8nat));
}

proof fn lemma_nought_and_one()
    ensures
        crate::number::bounded_value(trimmed("0"@), 16, u16::MAX as nat) == Some(0nat),
        crate::number::bounded_value(trimmed("1"@), 16, u16::MAX as nat) == Some(1nat),
{
    reveal_strlit("0");
    reveal_strlit("1");
    let s = "0"@;
    let t = "1"@;
    assert(trimmed(s) == s && trimmed(t) == t);
    assert(s.drop_last() == Seq::<char>::empty() && t.drop_last() == Seq::<char>::empty());
    assert(crate::number::digits_value(s.drop_last(), 16) == Some(0nat));
    assert(crate::number::digits_value(t.drop_last(), 16) == Some(0nat));
    assert(crate::number::digits_value(s, 16) == Some(0nat));
    assert(crate::number::digits_value(t, 16) == Some(1nat));
}

/// A signal says what its component says. `StartBit` and `Length` are the numbers that
/// their texts denote in base 16, so two signals with different ones never share them; the
/// type decides the rest of the value, and the unit is the first that a locale gives.
pub proof fn law_a_signal_says_what_its_component_says(
    doc: Seq<Node>,
    c: usize,
    stem: Seq<char>,
    signal: Signal,
)
    requires
        signal_of(doc, c, stem) == Ok::<Signal, Fault>(signal),
    ensures
        children_named(doc, c, "Props"@).len() > 0,
        ({
            let p = children_named(doc, c, "Props"@)[0];
            let kind = trimmed(
                match attribute_of(doc, p, "Type"@) {
                    Some(kind) => kind,
                    None => Seq::empty(),
                },
            );
            &&& signal.name == identifier(after_last_dot(named(doc, c)), stem)
            &&& match attribute_of(doc, p, "StartBit"@) {
                Some(start) => unsigned_value(trimmed(start), 16) == Some(
                    signal.start_bit as nat,
                ),
                None => signal.start_bit == 0,
            }
            &&& kind == "bool"@ ==> signal.length == 1 && !signal.is_signed && !signal.is_float
            &&& kind != "bool"@ ==> match attribute_of(doc, p, "Length"@) {
                Some(length) => unsigned_value(trimmed(length), 16) == Some(signal.length as nat),
                None => signal.length == 1,
            }
            &&& kind != "bool"@ ==> (signal.is_signed <==> kind.len() > 0 && kind[0] == 's')
            &&& kind != "bool"@ ==> (signal.is_float <==> kind.len() > 0 && kind[0] == 'f')
            &&& signal.little_endian <==> {
                let own = attribute_of(doc, p, "Endian"@);
                let outer = attribute_of(doc, c, "Endian"@);
                if own is Some && own->0.len() > 0 {
                    own->0 == "Little"@
                } else {
                    outer is None || outer->0.len() == 0 || outer->0 == "Little"@
                }
            }
            &&& match attribute_of(doc, p, "Multiplier"@) {
                Some(scale) => signal.scale == trimmed(scale) && is_float_text(signal.scale),
                None => signal.scale == "1"@,
            }
            &&& match attribute_of(doc, p, "Offset"@) {
                Some(offset) => signal.offset == trimmed(offset) && is_float_text(signal.offset),
                None => signal.offset == "0"@,
            }
            &&& match attribute_of(doc, c, "Receivers"@) {
                Some(receiver) => signal.receiver == (if receiver.len() > 0 {
                    receiver
                } else {
                    "Vector__XXX"@
                }),
                None => signal.receiver == "Vector__XXX"@,
            }
        }),
{
    lemma_classes(doc, c);
    lemma_nought_and_one();
    reveal_strlit("bool");
    reveal_strlit("u32");
    reveal_strlit("Little");
    assert("u32"@.len() != "bool"@.len());
}

/// The unit of a signal is that of the first `<Default>` of a `<Locale>` that has one. One
/// that is empty is no unit, and so is none at all.
pub proof fn law_the_unit_is_the_first_that_a_locale_gives(
    doc: Seq<Node>,
    c: usize,
    stem: Seq<char>,
    signal: Signal,
    k: int,
)
    requires
        signal_of(doc, c, stem) == Ok::<Signal, Fault>(signal),
    ensures
        ({
            let p = children_named(doc, c, "Props"@)[0];
            let defaults = all_children_named(doc, children_named(doc, p, "Locale"@), "Default"@);
            &&& 0 <= k < defaults.len() && attribute_of(doc, defaults[k], "Unit"@) is Some && (
            forall|j: int|
                0 <= j < k ==> attribute_of(doc, #[trigger] defaults[j], "Unit"@) is None)
                ==> signal.unit == (if attribute_of(doc, defaults[k], "Unit"@)->0.len() > 0 {
                attribute_of(doc, defaults[k], "Unit"@)
            } else {
                None
            })
            &&& (forall|j: int|
                0 <= j < defaults.len() ==> attribute_of(doc, #[trigger] defaults[j], "Unit"@)
                    is None) ==> signal.unit is None
        }),
{
    let p = children_named(doc, c, "Props"@)[0];
    let defaults = all_children_named(doc, children_named(doc, p, "Locale"@), "Default"@);
    if 0 <= k < defaults.len() && attribute_of(doc, defaults[k], "Unit"@) is Some && (forall|
        j: int,
    |
        0 <= j < k ==> attribute_of(doc, #[trigger] defaults[j], "Unit"@) is None) {
        lemma_first_unit(doc, defaults, k);
    }
    if forall|j: int|
        0 <= j < defaults.len() ==> attribute_of(doc, #[trigger] defaults[j], "Unit"@) is None {
        lemma_no_unit(doc, defaults);
    }
}

proof fn lemma_first_unit(doc: Seq<Node>, nodes: Seq<usize>, k: int)
    requires
        0 <= k < nodes.len(),
        attribute_of(doc, nodes[k], "Unit"@) is Some,
        forall|j: int| 0 <= j < k ==> attribute_of(doc, #[trigger] nodes[j], "Unit"@) is None,
    ensures
        crate::m1dbc::first_unit(doc, nodes) == attribute_of(doc, nodes[k], "Unit"@),
    decreases nodes.len(),
{
    if k > 0 {
        let rest = nodes.drop_first();
        assert(attribute_of(doc, nodes[0], "Unit"@) is None);
        assert forall|j: int| 0 <= j < k - 1 implies attribute_of(doc, #[trigger] rest[j], "Unit"@)
            is None by {
            assert(rest[j] == nodes[j + 1]);
        }
        lemma_first_unit(doc, rest, k - 1);
    }
}

proof fn lemma_no_unit(doc: Seq<Node>, nodes: Seq<usize>)
    requires
        forall|j: int|
            0 <= j < nodes.len() ==> attribute_of(doc, #[trigger] nodes[j], "Unit"@) is None,
    ensures
        crate::m1dbc::first_unit(doc, nodes) is None,
    decreases nodes.len(),
{
    if nodes.len() > 0 {
        let rest = nodes.drop_first();
        assert(attribute_of(doc, nodes[0], "Unit"@) is None);
        assert forall|j: int| 0 <= j < rest.len() implies attribute_of(
            doc,
            #[trigger] rest[j],
            "Unit"@,
        ) is None by {
            assert(rest[j] == nodes[j + 1]);
        }
        lemma_no_unit(doc, rest);
    }
}

/// The signal components that name a message, in order.
pub open spec fn signals_of(doc: Seq<Node>, comps: Seq<usize>, name: Seq<char>) -> Seq<usize> {
    comps.filter(|c: usize| is_signal(doc, c) && before_last_dot(named(doc, c)) == name)
}

proof fn lemma_claimed_components(
    doc: Seq<Node>,
    comps: Seq<usize>,
    stem: Seq<char>,
    name: Seq<char>,
)
    requires
        first_invalid(items_of(doc, comps, stem)) is None,
        !ends_like_the_container(name),
    ensures
        ({
            let mine = signals_of(doc, comps, name);
            let claimed = claimed_by(claims(items_of(doc, comps, stem)), name);
            &&& claimed.len() == mine.len()
            &&& forall|j: int|
                0 <= j < mine.len() ==> signal_of(doc, #[trigger] mine[j], stem) == Ok::<
                    Signal,
                    Fault,
                >(claimed[j])
        }),
    decreases comps.len(),
{
    reveal(Seq::filter);
    if comps.len() > 0 {
        let before = comps.drop_last();
        let c = comps.last();
        let items = items_of(doc, comps, stem);
        lemma_items_of_fewer(doc, comps, stem);
        lemma_claimed_components(doc, before, stem, name);
        lemma_classes(doc, c);
        let mine = signals_of(doc, comps, name);
        let earlier = signals_of(doc, before, name);
        let old_claims = claims(items.drop_last());
        assert(mine == (if is_signal(doc, c) && before_last_dot(named(doc, c)) == name {
            earlier.push(c)
        } else {
            earlier
        }));
        if let Item::Signal(_, parent, signal) = items.last() {
            assert(claims(items).drop_last() == old_claims);
        }
        let claimed = claimed_by(claims(items), name);
        let old_claimed = claimed_by(old_claims, name);
        assert forall|j: int| 0 <= j < mine.len() implies signal_of(doc, #[trigger] mine[j], stem)
            == Ok::<Signal, Fault>(claimed[j]) by {
            if j < earlier.len() {
                assert(mine[j] == earlier[j]);
                assert(claimed[j] == old_claimed[j]);
            }
        }
    }
}

/// An exported message has exactly the signals that name it, in document order: one for
/// each signal component whose name is the message's full name, a dot and one name more.
pub proof fn law_a_message_has_the_signals_that_name_it(
    doc: Seq<Node>,
    stem: Seq<char>,
    file: Database,
    i: int,
)
    requires
        database_of(doc, stem) == Ok::<Database, Fault>(file),
        0 <= i < file.messages.len(),
    ensures
        ({
            let mine = signals_of(
                doc,
                components(doc),
                convertible_names(doc, components(doc))[i],
            );
            &&& file.messages[i].signals.len() == mine.len()
            &&& forall|j: int|
                0 <= j < mine.len() ==> signal_of(doc, #[trigger] mine[j], stem) == Ok::<
                    Signal,
                    Fault,
                >(file.messages[i].signals[j])
        }),
{
    let comps = components(doc);
    lemma_names_agree(doc, comps, stem);
    lemma_convertible_names(doc, comps);
    let name = convertible_names(doc, comps)[i];
    assert(!crate::m1dbc::is_container(name));
    lemma_claimed_components(doc, comps, stem, name);
}

/// The bits of every signal of a database are where the source says. `c` is the component
/// of the signal: its `StartBit` and its `Length`, unless it is a `bool`, denote in base 16
/// where it starts and how long it is. So two signals of different start bits in the source
/// never share one.
pub proof fn law_the_bits_of_a_signal_are_where_the_source_says(
    doc: Seq<Node>,
    stem: Seq<char>,
    file: Database,
    i: int,
    j: int,
) -> (c: usize)
    requires
        database_of(doc, stem) == Ok::<Database, Fault>(file),
        0 <= i < file.messages.len(),
        0 <= j < file.messages[i].signals.len(),
    ensures
        ({
            let p = children_named(doc, c, "Props"@)[0];
            let signal = file.messages[i].signals[j];
            let kind = attribute_of(doc, p, "Type"@);
            &&& c == signals_of(
                doc,
                components(doc),
                convertible_names(doc, components(doc))[i],
            )[j]
            &&& match attribute_of(doc, p, "StartBit"@) {
                Some(start) => unsigned_value(trimmed(start), 16) == Some(
                    signal.start_bit as nat,
                ),
                None => signal.start_bit == 0,
            }
            &&& kind is Some && trimmed(kind->0) == "bool"@ ==> signal.length == 1
            &&& !(kind is Some && trimmed(kind->0) == "bool"@) ==> match attribute_of(
                doc,
                p,
                "Length"@,
            ) {
                Some(length) => unsigned_value(trimmed(length), 16) == Some(signal.length as nat),
                None => signal.length == 1,
            }
        }),
{
    let mine = signals_of(doc, components(doc), convertible_names(doc, components(doc))[i]);
    law_a_message_has_the_signals_that_name_it(doc, stem, file, i);
    assert(signal_of(doc, mine[j], stem) == Ok::<Signal, Fault>(file.messages[i].signals[j]));
    law_a_signal_says_what_its_component_says(doc, mine[j], stem, file.messages[i].signals[j]);
    reveal_strlit("bool");
    assert(trimmed(Seq::<char>::empty()) == Seq::<char>::empty());
    mine[j]
}

/// The text of an attribute denotes a number of at most `limit` in a radix, or there is
/// no such attribute.
pub open spec fn denotes(text: Option<Seq<char>>, radix: nat, limit: nat) -> bool {
    match text {
        Some(text) => unsigned_value(trimmed(text), radix) matches Some(v) && v <= limit,
        None => true,
    }
}

/// The text of an attribute denotes a floating-point number, or there is no such
/// attribute.
pub open spec fn denotes_a_float(text: Option<Seq<char>>) -> bool {
    match text {
        Some(text) => is_float_text(trimmed(text)),
        None => true,
    }
}

/// A component that can be read. A message other than the container needs `<Props>`, and
/// with a `CANId` there, a hexadecimal one and a decimal `DLC`. A signal of a message other
/// than the container needs `<Props>` with a hexadecimal `StartBit`, a hexadecimal `Length`
/// unless it is a `bool`, and numbers for a scale and an offset. Every attribute but the
/// `CANId` may be missing, and anything else can be read.
pub open spec fn is_readable(doc: Seq<Node>, c: usize) -> bool {
    let props = children_named(doc, c, "Props"@);
    let p = props[0];
    if is_message(doc, c) && !ends_like_the_container(named(doc, c)) {
        &&& props.len() > 0
        &&& attribute_of(doc, p, "CANId"@) is Some ==> denotes(
            attribute_of(doc, p, "CANId"@),
            16,
            0xffff_ffff,
        ) && denotes(attribute_of(doc, p, "DLC"@), 10, 255)
    } else if is_signal(doc, c) && !ends_like_the_container(before_last_dot(named(doc, c))) {
        &&& props.len() > 0
        &&& (attribute_of(doc, p, "Type"@) matches Some(kind) && trimmed(kind) == "bool"@)
            || denotes(attribute_of(doc, p, "Length"@), 16, 0xffff)
        &&& denotes(attribute_of(doc, p, "StartBit"@), 16, 0xffff)
        &&& denotes_a_float(attribute_of(doc, p, "Multiplier"@))
        &&& denotes_a_float(attribute_of(doc, p, "Offset"@))
    } else {
        true
    }
}

proof fn lemma_readable(doc: Seq<Node>, c: usize, stem: Seq<char>)
    ensures
        item_of(doc, c, stem) is Invalid <==> !is_readable(doc, c),
{
    lemma_classes(doc, c);
    lemma_eight();
    lemma_nought_and_one();
    reveal_strlit("bool");
    reveal_strlit("u32");
    assert("u32"@.len() != "bool"@.len());
    assert(trimmed(Seq::<char>::empty()) == Seq::<char>::empty());
}

/// A document is accepted exactly when every component of it can be read. Otherwise the
/// first that cannot is to blame.
pub proof fn law_a_document_is_refused_for_its_first_unreadable_component(
    doc: Seq<Node>,
    stem: Seq<char>,
)
    ensures
        database_of(doc, stem) is Ok <==> forall|k: int|
            0 <= k < components(doc).len() ==> is_readable(doc, #[trigger] components(doc)[k]),
        database_of(doc, stem) matches Err(fault) ==> exists|k: int|
            #![trigger components(doc)[k]]
            {
                &&& 0 <= k < components(doc).len()
                &&& item_of(doc, components(doc)[k], stem) == Item::Invalid(fault)
                &&& forall|j: int|
                    0 <= j < k ==> is_readable(doc, #[trigger] components(doc)[j])
            },
{
    let comps = components(doc);
    let items = items_of(doc, comps, stem);
    assert forall|k: int| 0 <= k < comps.len() implies (item_of(doc, #[trigger] comps[k], stem)
        is Invalid <==> !is_readable(doc, comps[k])) by {
        lemma_readable(doc, comps[k], stem);
    }
    match first_invalid(items) {
        None => {
            assert forall|k: int| 0 <= k < comps.len() implies is_readable(
                doc,
                #[trigger] comps[k],
            ) by {
                lemma_no_invalid(items, k);
                assert(items[k] == item_of(doc, comps[k], stem));
            }
        },
        Some(fault) => {
            let k = lemma_first_invalid_at(items);
            assert(items[k] == item_of(doc, comps[k], stem));
            assert forall|j: int| 0 <= j < k implies is_readable(doc, #[trigger] comps[j]) by {
                assert(!(items[j] is Invalid));
                assert(items[j] == item_of(doc, comps[j], stem));
            }
            assert(!is_readable(doc, comps[k]));
        },
    }
}

proof fn lemma_first_invalid_at(items: Seq<Item>) -> (k: int)
    requires
        first_invalid(items) is Some,
    ensures
        0 <= k < items.len(),
        items[k] == Item::Invalid(first_invalid(items)->0),
        forall|j: int| 0 <= j < k ==> !((#[trigger] items[j]) is Invalid),
    decreases items.len(),
{
    let before = items.drop_last();
    if first_invalid(before) is Some {
        let k = lemma_first_invalid_at(before);
        assert(items[k] == before[k]);
        assert forall|j: int| 0 <= j < k implies !((#[trigger] items[j]) is Invalid) by {
            assert(items[j] == before[j]);
        }
        k
    } else {
        let n = items.len() - 1;
        assert forall|j: int| 0 <= j < n implies !((#[trigger] items[j]) is Invalid) by {
            lemma_no_invalid(before, j);
            assert(items[j] == before[j]);
        }
        n
    }
}

/// What is said of a message component that cannot be read: its name, and the first of its
/// attributes that is at fault, with what it holds.
pub proof fn law_a_refusal_names_the_message_and_what_is_wrong(
    doc: Seq<Node>,
    c: usize,
    stem: Seq<char>,
)
    requires
        is_message(doc, c),
        !ends_like_the_container(named(doc, c)),
    ensures
        ({
            let props = children_named(doc, c, "Props"@);
            let p = props[0];
            let id = attribute_of(doc, p, "CANId"@);
            let dlc = attribute_of(doc, p, "DLC"@);
            let about = "message"@ + " '"@ + named(doc, c) + "': "@;
            &&& props.len() == 0 ==> item_of(doc, c, stem) == Item::Invalid(
                Fault::Invalid("message"@ + " '"@ + named(doc, c) + "': missing <Props>"@),
            )
            &&& props.len() > 0 && id is Some && !denotes(id, 16, 0xffff_ffff) ==> item_of(
                doc,
                c,
                stem,
            ) == Item::Invalid(
                Fault::Invalid(
                    about + "CANId"@ + " "@ + debug_text(id->0) + " is not "@
                        + "a hexadecimal integer"@,
                ),
            )
            &&& props.len() > 0 && id is Some && denotes(id, 16, 0xffff_ffff) && !denotes(
                dlc,
                10,
                255,
            ) ==> item_of(doc, c, stem) == Item::Invalid(
                Fault::Invalid(
                    about + "DLC"@ + " "@ + debug_text(dlc->0) + " is not "@
                        + "a decimal integer"@,
                ),
            )
        }),
{
    lemma_classes(doc, c);
    lemma_eight();
}

/// What is said of a signal component that cannot be read: its name, and the first of its
/// attributes that is at fault, with what it holds.
pub proof fn law_a_refusal_names_the_signal_and_what_is_wrong(
    doc: Seq<Node>,
    c: usize,
    stem: Seq<char>,
)
    requires
        is_signal(doc, c),
        !ends_like_the_container(before_last_dot(named(doc, c))),
    ensures
        ({
            let props = children_named(doc, c, "Props"@);
            let p = props[0];
            let is_bool = attribute_of(doc, p, "Type"@) matches Some(kind) && trimmed(kind)
                == "bool"@;
            let length = attribute_of(doc, p, "Length"@);
            let start = attribute_of(doc, p, "StartBit"@);
            let scale = attribute_of(doc, p, "Multiplier"@);
            let offset = attribute_of(doc, p, "Offset"@);
            let length_ok = is_bool || denotes(length, 16, 0xffff);
            let start_ok = denotes(start, 16, 0xffff);
            let about = "signal"@ + " '"@ + named(doc, c) + "': "@;
            &&& props.len() == 0 ==> item_of(doc, c, stem) == Item::Invalid(
                Fault::Invalid("signal"@ + " '"@ + named(doc, c) + "': missing <Props>"@),
            )
            &&& props.len() > 0 && !length_ok ==> item_of(doc, c, stem) == Item::Invalid(
                Fault::Invalid(
                    about + "Length"@ + " "@ + debug_text(length->0) + " is not "@
                        + "a hexadecimal integer"@,
                ),
            )
            &&& props.len() > 0 && length_ok && !start_ok ==> item_of(doc, c, stem)
                == Item::Invalid(
                Fault::Invalid(
                    about + "StartBit"@ + " "@ + debug_text(start->0) + " is not "@
                        + "a hexadecimal integer"@,
                ),
            )
            &&& props.len() > 0 && length_ok && start_ok && !denotes_a_float(scale) ==> item_of(
                doc,
                c,
                stem,
            ) == Item::Invalid(
                Fault::Invalid(
                    about + "Multiplier"@ + " "@ + debug_text(scale->0) + " is not "@
                        + "a number"@,
                ),
            )
            &&& props.len() > 0 && length_ok && start_ok && denotes_a_float(scale)
                && !denotes_a_float(offset) ==> item_of(doc, c, stem) == Item::Invalid(
                Fault::Invalid(
                    about + "Offset"@ + " "@ + debug_text(offset->0) + " is not "@ + "a number"@,
                ),
            )
        }),
{
    lemma_classes(doc, c);
    lemma_nought_and_one();
    reveal_strlit("bool");
    reveal_strlit("u32");
    assert("u32"@.len() != "bool"@.len());
    assert(trimmed(Seq::<char>::empty()) == Seq::<char>::empty());
}

/// A component that is left out of the export, where `kept` are the full names of the
/// exported messages.
pub open spec fn is_omitted(doc: Seq<Node>, c: usize, kept: Seq<Seq<char>>) -> bool {
    if is_message(doc, c) {
        !is_exportable(doc, c)
    } else if is_signal(doc, c) {
        !kept.contains(before_last_dot(named(doc, c)))
    } else {
        true
    }
}

/// What the note on an omitted component says: what it is, its name, and why it is left
/// out.
pub open spec fn reason(doc: Seq<Node>, c: usize) -> Seq<char> {
    if is_message(doc, c) && ends_like_the_container(named(doc, c)) {
        "message '"@ + named(doc, c)
            + "' (VECTOR independent-signal container; not representable by cantools, discarded on DBC load)"@
    } else if is_message(doc, c) {
        "message '"@ + named(doc, c) + "' (no CANId)"@
    } else if is_signal(doc, c) && ends_like_the_container(before_last_dot(named(doc, c))) {
        "signal '"@ + named(doc, c) + "' (in VECTOR independent-signal container)"@
    } else if is_signal(doc, c) {
        "signal '"@ + named(doc, c) + "' (its message is not exported)"@
    } else {
        (match attribute_of(doc, c, "Classname"@) {
            Some(class) => if class.len() > 0 {
                class
            } else {
                "unknown"@
            },
            None => "unknown"@,
        }) + " '"@ + named(doc, c) + "' (not a CAN frame)"@
    }
}

proof fn lemma_omitted(doc: Seq<Node>, c: usize, stem: Seq<char>, kept: Seq<Seq<char>>)
    requires
        is_readable(doc, c),
        forall|i: int| 0 <= i < kept.len() ==> !ends_like_the_container(#[trigger] kept[i]),
    ensures
        note_on(item_of(doc, c, stem), kept) == (if is_omitted(doc, c, kept) {
            Some(reason(doc, c))
        } else {
            None
        }),
{
    lemma_classes(doc, c);
    lemma_readable(doc, c, stem);
    let parent = before_last_dot(named(doc, c));
    if kept.contains(parent) {
        let i = choose|i: int| 0 <= i < kept.len() && kept[i] == parent;
        assert(!ends_like_the_container(kept[i]));
    }
}

proof fn lemma_notes_on_omitted(
    doc: Seq<Node>,
    comps: Seq<usize>,
    stem: Seq<char>,
    kept: Seq<Seq<char>>,
)
    requires
        first_invalid(items_of(doc, comps, stem)) is None,
        forall|i: int| 0 <= i < kept.len() ==> !ends_like_the_container(#[trigger] kept[i]),
    ensures
        notes_among(items_of(doc, comps, stem), kept) == comps.filter(
            |c: usize| is_omitted(doc, c, kept),
        ).map_values(|c: usize| reason(doc, c)),
    decreases comps.len(),
{
    reveal(Seq::filter);
    let omitted = comps.filter(|c: usize| is_omitted(doc, c, kept));
    let say = |c: usize| reason(doc, c);
    if comps.len() == 0 {
        assert(omitted.map_values(say) == Seq::<Seq<char>>::empty());
    } else {
        let before = comps.drop_last();
        let earlier = before.filter(|c: usize| is_omitted(doc, c, kept));
        let c = comps.last();
        lemma_items_of_fewer(doc, comps, stem);
        lemma_notes_on_omitted(doc, before, stem, kept);
        lemma_readable(doc, c, stem);
        lemma_no_invalid(items_of(doc, comps, stem), comps.len() - 1);
        lemma_omitted(doc, c, stem, kept);
        if is_omitted(doc, c, kept) {
            assert(omitted == earlier.push(c));
            assert(omitted.map_values(say) == earlier.map_values(say).push(say(c)));
        } else {
            assert(omitted == earlier);
        }
    }
}

/// Every component that is left out has a note, in document order, that says what it is,
/// what it is called and why it is left out, and there are no other notes.
pub proof fn law_the_notes_say_what_is_left_out_and_why(
    doc: Seq<Node>,
    stem: Seq<char>,
    file: Database,
)
    requires
        database_of(doc, stem) == Ok::<Database, Fault>(file),
    ensures
        file.skipped == components(doc).filter(
            |c: usize| is_omitted(doc, c, convertible_names(doc, components(doc))),
        ).map_values(|c: usize| reason(doc, c)),
{
    let comps = components(doc);
    let kept = convertible_names(doc, comps);
    lemma_names_agree(doc, comps, stem);
    lemma_convertible_names(doc, comps);
    assert forall|i: int| 0 <= i < kept.len() implies !ends_like_the_container(
        #[trigger] kept[i],
    ) by {
        assert(!crate::m1dbc::is_container(kept[i]));
    }
    lemma_notes_on_omitted(doc, comps, stem, kept);
}

/// The counts of a source are those of its components: all messages, all signals, the
/// names of the exportable messages, and the signals that belong to one of these.
pub proof fn law_the_counts_are_those_of_the_components(
    doc: Seq<Node>,
    stem: Seq<char>,
    file: Database,
)
    requires
        database_of(doc, stem) == Ok::<Database, Fault>(file),
    ensures
        ({
            let comps = components(doc);
            let kept = convertible_names(doc, comps);
            &&& file.totals.total_messages == comps.filter(|c: usize| is_message(doc, c)).len()
            &&& file.totals.total_signals == comps.filter(|c: usize| is_signal(doc, c)).len()
            &&& file.totals.convertible_messages == kept.len()
            &&& file.totals.convertible_signals == comps.filter(
                |c: usize| is_signal(doc, c) && kept.contains(before_last_dot(named(doc, c))),
            ).len()
        }),
{
    lemma_counts(doc, components(doc), convertible_names(doc, components(doc)));
}

proof fn lemma_counts(doc: Seq<Node>, comps: Seq<usize>, kept: Seq<Seq<char>>)
    ensures
        class_count(doc, comps, MSG_CLASS@) == comps.filter(|c: usize| is_message(doc, c)).len(),
        class_count(doc, comps, SIG_CLASS@) == comps.filter(|c: usize| is_signal(doc, c)).len(),
        signal_count(doc, comps, kept) == comps.filter(
            |c: usize| is_signal(doc, c) && kept.contains(before_last_dot(named(doc, c))),
        ).len(),
    decreases comps.len(),
{
    reveal(Seq::filter);
    if comps.len() > 0 {
        lemma_counts(doc, comps.drop_last(), kept);
        lemma_classes(doc, comps.last());
    }
}

/// The view of a file holds every field as it is: nothing that is read, written or counted
/// is hidden from the contracts.
pub proof fn law_the_view_of_a_file_is_the_file(
    file: crate::m1dbc::M1DbcFile,
    message: crate::m1dbc::M1Message,
    signal: crate::m1dbc::M1Signal,
)
    ensures
        file.deep_view().messages.len() == file.messages@.len(),
        forall|i: int|
            0 <= i < file.messages@.len() ==> (#[trigger] file.deep_view().messages[i])
                == file.messages@[i].deep_view(),
        file.deep_view().skipped.len() == file.skipped@.len(),
        forall|i: int|
            0 <= i < file.skipped@.len() ==> (#[trigger] file.deep_view().skipped[i])
                == file.skipped@[i]@,
        file.deep_view().totals.total_messages == file.totals.total_messages,
        file.deep_view().totals.total_signals == file.totals.total_signals,
        file.deep_view().totals.convertible_messages == file.totals.convertible_messages,
        file.deep_view().totals.convertible_signals == file.totals.convertible_signals,
        message.deep_view().name == message.name@,
        message.deep_view().frame_id == message.frame_id,
        message.deep_view().is_extended == message.is_extended,
        message.deep_view().dlc == message.dlc,
        message.deep_view().sender == message.sender@,
        message.deep_view().signals.len() == message.signals@.len(),
        forall|i: int|
            0 <= i < message.signals@.len() ==> (#[trigger] message.deep_view().signals[i])
                == message.signals@[i].deep_view(),
        signal.deep_view().name == signal.name@,
        signal.deep_view().start_bit == signal.start_bit,
        signal.deep_view().length == signal.length,
        signal.deep_view().little_endian == signal.little_endian,
        signal.deep_view().is_signed == signal.is_signed,
        signal.deep_view().is_float == signal.is_float,
        signal.deep_view().scale == signal.scale@,
        signal.deep_view().offset == signal.offset@,
        signal.deep_view().unit is Some <==> signal.unit is Some,
        signal.unit is Some ==> signal.deep_view().unit == Some(signal.unit->0@),
        signal.deep_view().receiver == signal.receiver@,
{
}

/// What the text of an attribute is read as. A hexadecimal one is accepted exactly when it
/// denotes a number up to the limit in base 16, white space at its ends aside, and is that
/// number; a decimal one likewise in base 10, up to 255; and the text of a number is taken
/// as it stands. The refusal names the component, the attribute and what it holds.
pub proof fn law_attributes_are_read_for_what_they_denote(
    raw: Seq<char>,
    default: Seq<char>,
    kind: Seq<char>,
    name: Seq<char>,
    attr: Seq<char>,
    limit: nat,
)
    ensures
        match unsigned_value(trimmed(raw), 16) {
            Some(v) => if v <= limit {
                hex_attribute(raw, kind, name, attr, limit) == Ok::<nat, Fault>(v)
            } else {
                hex_attribute(raw, kind, name, attr, limit) is Err
            },
            None => hex_attribute(raw, kind, name, attr, limit) is Err,
        },
        hex_attribute(raw, kind, name, attr, limit) matches Err(fault) ==> fault
            == Fault::Invalid(
            kind + " '"@ + name + "': "@ + attr + " "@ + debug_text(raw) + " is not "@
                + "a hexadecimal integer"@,
        ),
        match unsigned_value(trimmed(raw), 10) {
            Some(v) => if v <= 255 {
                dec_attribute(raw, kind, name, attr) == Ok::<nat, Fault>(v)
            } else {
                dec_attribute(raw, kind, name, attr) is Err
            },
            None => dec_attribute(raw, kind, name, attr) is Err,
        },
        dec_attribute(raw, kind, name, attr) matches Err(fault) ==> fault == Fault::Invalid(
            kind + " '"@ + name + "': "@ + attr + " "@ + debug_text(raw) + " is not "@
                + "a decimal integer"@,
        ),
        float_attribute(None, default, name, attr) == Ok::<Seq<char>, Fault>(default),
        is_float_text(trimmed(raw)) ==> float_attribute(Some(raw), default, name, attr) == Ok::<
            Seq<char>,
            Fault,
        >(trimmed(raw)),
        !is_float_text(trimmed(raw)) ==> float_attribute(Some(raw), default, name, attr) == Err::<
            Seq<char>,
            Fault,
        >(
            Fault::Invalid(
                "signal"@ + " '"@ + name + "': "@ + attr + " "@ + debug_text(raw) + " is not "@
                    + "a number"@,
            ),
        ),
{
}

/// An empty value counts as none, every other stands, and only where there is none does a
/// default take its place.
pub proof fn law_an_empty_value_counts_as_none(value: Seq<char>, default: Seq<char>)
    ensures
        unless_empty(None) is None,
        value.len() == 0 ==> unless_empty(Some(value)) is None,
        value.len() > 0 ==> unless_empty(Some(value)) == Some(value),
        or_else(None, default) == default,
        or_else(Some(value), default) == value,
{
}

/// The `<Props>` of a component is its first child of that name, and there is none exactly
/// when it has no such child.
pub proof fn law_the_first_props_count(doc: Seq<Node>, c: usize)
    ensures
        children_named(doc, c, "Props"@).len() == 0 ==> first_props(doc, c) is None,
        children_named(doc, c, "Props"@).len() > 0 ==> first_props(doc, c) == Some(
            children_named(doc, c, "Props"@)[0],
        ),
{
}

/// The complaints about a component name its kind, itself and what is wrong, with nothing
/// left out.
pub proof fn law_complaints_say_what_is_wrong(
    kind: Seq<char>,
    name: Seq<char>,
    attr: Seq<char>,
    quoted: Seq<char>,
    what: Seq<char>,
)
    ensures
        bad_number_fault(kind, name, attr, quoted, what) == Fault::Invalid(
            kind + " '"@ + name + "': "@ + attr + " "@ + quoted + " is not "@ + what,
        ),
        missing_props_fault(kind, name) == Fault::Invalid(
            kind + " '"@ + name + "': missing <Props>"@,
        ),
{
}

/// The counts of any components are those of the messages and signals among them, of the
/// names that can be exported, and of the signals that belong to one of these names.
pub proof fn law_components_are_counted_one_by_one(doc: Seq<Node>, comps: Seq<usize>)
    ensures
        ({
            let counts = source_counts(doc, comps);
            let kept = convertible_names(doc, comps);
            &&& counts.total_messages == comps.filter(|c: usize| is_message(doc, c)).len()
            &&& counts.total_signals == comps.filter(|c: usize| is_signal(doc, c)).len()
            &&& counts.convertible_messages == kept.len()
            &&& counts.convertible_signals == comps.filter(
                |c: usize| is_signal(doc, c) && kept.contains(before_last_dot(named(doc, c))),
            ).len()
        }),
{
    lemma_counts(doc, comps, convertible_names(doc, comps));
}

/// The components come stream by stream, in each stream list by list, and in each list as
/// they stand there: none is left out, moved or repeated.
pub proof fn law_components_come_list_by_list(doc: Seq<Node>)
    ensures
        components(doc) == nodes_named(doc, "ComponentStream"@).map_values(
            |s: usize| children_named(doc, s, "List"@),
        ).flatten().map_values(|l: usize| children_named(doc, l, "Component"@)).flatten(),
{
    let streams = nodes_named(doc, "ComponentStream"@);
    lemma_children_flattened(doc, streams, "List"@);
    let lists = all_children_named(doc, streams, "List"@);
    lemma_children_flattened(doc, lists, "Component"@);
}

proof fn lemma_children_flattened(doc: Seq<Node>, parents: Seq<usize>, name: Seq<char>)
    ensures
        all_children_named(doc, parents, name) == parents.map_values(
            |p: usize| children_named(doc, p, name),
        ).flatten(),
    decreases parents.len(),
{
    let each = |p: usize| children_named(doc, p, name);
    let found = parents.map_values(each);
    found.lemma_flatten_and_flatten_alt_are_equivalent();
    if parents.len() == 0 {
        assert(found.flatten_alt() == Seq::<usize>::empty());
    } else {
        let before = parents.drop_last();
        lemma_children_flattened(doc, before, name);
        before.map_values(each).lemma_flatten_and_flatten_alt_are_equivalent();
        assert(found.drop_last() == before.map_values(each));
        assert(found.last() == children_named(doc, parents.last(), name));
    }
}

} // verus!
