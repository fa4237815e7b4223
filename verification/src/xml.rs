//! A parsed XML document as plain values, and the lookups made in one.
//!
//! The document is the list of its nodes in document order; a node names its
//! children by their positions in that list. A position past the end names no
//! node, so every lookup is total.

use crate::text::same;
use vstd::prelude::*;

verus! {

/// One node of a document. Nodes that are not elements have an empty name and no
/// attributes. Of these only the root has children.
#[derive(Debug, PartialEq, Eq)]
pub struct XmlNode {
    /// The local name of the element.
    pub name: String,
    /// The attributes, each with its local name and its value.
    pub attributes: Vec<(String, String)>,
    /// Where the children stand in the document's list of nodes.
    pub children: Vec<usize>,
}

/// A document: its nodes in document order.
#[derive(Debug, PartialEq, Eq)]
pub struct XmlDocument {
    pub nodes: Vec<XmlNode>,
}

/// The characters of an [`XmlNode`].
#[verifier::ext_equal]
pub struct Node {
    pub name: Seq<char>,
    pub attributes: Seq<(Seq<char>, Seq<char>)>,
    pub children: Seq<usize>,
}

impl DeepView for XmlNode {
    type V = Node;

    open spec fn deep_view(&self) -> Node {
        Node {
            name: self.name@,
            attributes: self.attributes.deep_view(),
            children: self.children@,
        }
    }
}

impl DeepView for XmlDocument {
    type V = Seq<Node>;

    open spec fn deep_view(&self) -> Seq<Node> {
        self.nodes.deep_view()
    }
}

/// What `roxmltree` makes of a text: the nodes of the document, or its diagnosis.
pub uninterp spec fn xml_document(text: Seq<char>) -> Result<Seq<Node>, Seq<char>>;

/// Parse XML with `roxmltree::Document::parse`.
///
/// The nodes are those of `Document::descendants`, which starts at the root node
/// and goes by node identifiers from zero upwards, so the identifiers of a node's
/// children are their positions in the list. The contract names the result as a
/// function of the text and says nothing of what is well-formed XML.
#[verifier::external_body]
pub(crate) fn parse_xml(text: &str) -> (r: Result<XmlDocument, String>)
    ensures
        match r {
            Ok(document) => xml_document(text@) == Ok::<Seq<Node>, Seq<char>>(
                document.deep_view(),
            ),
            Err(e) => xml_document(text@) == Err::<Seq<Node>, Seq<char>>(e@),
        },
{
    let document = roxmltree::Document::parse(text).map_err(|e| e.to_string())?;
    let nodes = document.descendants().map(|n| XmlNode {
        name: n.tag_name().name().to_string(),
        attributes: n.attributes().map(|a| (a.name().to_string(), a.value().to_string())).collect(),
        children: n.children().map(|c| c.id().get_usize()).collect(),
    });
    Ok(XmlDocument { nodes: nodes.collect() })
}

/// The node at a position has a name.
pub open spec fn is_named(doc: Seq<Node>, i: usize, name: Seq<char>) -> bool {
    i < doc.len() && doc[i as int].name == name
}

/// Those of some positions at which a node has a name.
pub open spec fn named_among(doc: Seq<Node>, positions: Seq<usize>, name: Seq<char>) -> Seq<usize>
    decreases positions.len(),
{
    if positions.len() == 0 {
        Seq::empty()
    } else {
        let before = named_among(doc, positions.drop_last(), name);
        if is_named(doc, positions.last(), name) {
            before.push(positions.last())
        } else {
            before
        }
    }
}

/// The children of a node that have a name, in document order.
pub open spec fn children_named(doc: Seq<Node>, i: usize, name: Seq<char>) -> Seq<usize> {
    if i < doc.len() {
        named_among(doc, doc[i as int].children, name)
    } else {
        Seq::empty()
    }
}

/// The children that have a name, of each of some nodes in turn.
pub open spec fn all_children_named(doc: Seq<Node>, parents: Seq<usize>, name: Seq<char>) -> Seq<
    usize,
>
    decreases parents.len(),
{
    if parents.len() == 0 {
        Seq::empty()
    } else {
        all_children_named(doc, parents.drop_last(), name) + children_named(
            doc,
            parents.last(),
            name,
        )
    }
}

/// The first `n` positions of a document.
pub open spec fn positions(n: nat) -> Seq<usize> {
    Seq::new(n, |i: int| i as usize)
}

/// Every node of a document that has a name, in document order.
pub open spec fn nodes_named(doc: Seq<Node>, name: Seq<char>) -> Seq<usize> {
    named_among(doc, positions(doc.len()), name)
}

/// The value of the first attribute with a name.
pub open spec fn first_value(attributes: Seq<(Seq<char>, Seq<char>)>, name: Seq<char>) -> Option<
    Seq<char>,
>
    decreases attributes.len(),
{
    if attributes.len() == 0 {
        None
    } else if attributes.first().0 == name {
        Some(attributes.first().1)
    } else {
        first_value(attributes.drop_first(), name)
    }
}

/// The value of a node's first attribute with a name.
pub open spec fn attribute_of(doc: Seq<Node>, i: usize, name: Seq<char>) -> Option<Seq<char>> {
    if i < doc.len() {
        first_value(doc[i as int].attributes, name)
    } else {
        None
    }
}

impl XmlDocument {
    /// Whether the node at a position has a name.
    pub fn is_named(&self, i: usize, name: &str) -> (r: bool)
        ensures
            r == is_named(self.deep_view(), i, name@),
    {
        i < self.nodes.len() && same(self.nodes[i].name.as_str(), name)
    }

    /// Put the children of a node that have a name behind `found`.
    fn push_children_named(&self, i: usize, name: &str, found: &mut Vec<usize>)
        ensures
            final(found)@ == old(found)@ + children_named(self.deep_view(), i, name@),
    {
        let ghost before = found@;
        let ghost doc = self.deep_view();
        if i >= self.nodes.len() {
            assert(found@ == before + children_named(doc, i, name@));
            return;
        }
        let children = &self.nodes[i].children;
        let mut k: usize = 0;
        proof {
            assert(children@.take(0) == Seq::<usize>::empty());
            assert(found@ == before + named_among(doc, children@.take(0), name@));
        }
        while k < children.len()
            invariant
                k <= children.len(),
                doc == self.deep_view(),
                found@ == before + named_among(doc, children@.take(k as int), name@),
            decreases children.len() - k,
        {
            proof {
                assert(children@.take(k + 1).drop_last() == children@.take(k as int));
            }
            if self.is_named(children[k], name) {
                found.push(children[k]);
            }
            proof {
                assert(found@ == before + named_among(doc, children@.take(k + 1), name@));
            }
            k = k + 1;
        }
        proof {
            assert(children@.take(children@.len() as int) == children@);
        }
    }

    /// The children of a node that have a name, in document order.
    pub fn children_named(&self, i: usize, name: &str) -> (r: Vec<usize>)
        ensures
            r@ == children_named(self.deep_view(), i, name@),
    {
        let mut found: Vec<usize> = Vec::new();
        self.push_children_named(i, name, &mut found);
        found
    }

    /// The children that have a name, of each of some nodes in turn.
    pub fn all_children_named(&self, parents: &Vec<usize>, name: &str) -> (r: Vec<usize>)
        ensures
            r@ == all_children_named(self.deep_view(), parents@, name@),
    {
        let mut found: Vec<usize> = Vec::new();
        let mut k: usize = 0;
        proof {
            assert(parents@.take(0) == Seq::<usize>::empty());
        }
        while k < parents.len()
            invariant
                k <= parents.len(),
                found@ == all_children_named(self.deep_view(), parents@.take(k as int), name@),
            decreases parents.len() - k,
        {
            proof {
                assert(parents@.take(k + 1).drop_last() == parents@.take(k as int));
            }
            self.push_children_named(parents[k], name, &mut found);
            k = k + 1;
        }
        proof {
            assert(parents@.take(parents@.len() as int) == parents@);
        }
        found
    }

    /// Every node that has a name, in document order.
    pub fn nodes_named(&self, name: &str) -> (r: Vec<usize>)
        ensures
            r@ == nodes_named(self.deep_view(), name@),
    {
        let ghost doc = self.deep_view();
        let ghost all = positions(doc.len());
        let mut found: Vec<usize> = Vec::new();
        let mut k: usize = 0;
        proof {
            assert(all.take(0) == Seq::<usize>::empty());
        }
        while k < self.nodes.len()
            invariant
                k <= self.nodes.len(),
                doc == self.deep_view(),
                all == positions(doc.len()),
                found@ == named_among(doc, all.take(k as int), name@),
            decreases self.nodes.len() - k,
        {
            proof {
                assert(all.take(k + 1).drop_last() == all.take(k as int));
                assert(all.take(k + 1).last() == k);
            }
            if self.is_named(k, name) {
                found.push(k);
            }
            k = k + 1;
        }
        proof {
            assert(all.take(all.len() as int) == all);
        }
        found
    }

    /// The value of a node's first attribute with a name.
    pub fn attribute(&self, i: usize, name: &str) -> (r: Option<&str>)
        ensures
            r.deep_view() == attribute_of(self.deep_view(), i, name@),
    {
        if i >= self.nodes.len() {
            return None;
        }
        let attributes = &self.nodes[i].attributes;
        let ghost all = attributes.deep_view();
        let mut k: usize = 0;
        proof {
            assert(all.skip(0) == all);
        }
        while k < attributes.len()
            invariant
                k <= attributes.len(),
                all == attributes.deep_view(),
                attribute_of(self.deep_view(), i, name@) == first_value(all.skip(k as int), name@),
            decreases attributes.len() - k,
        {
            proof {
                let first = all.skip(k as int).first();
                assert(first.0 == attributes@[k as int].0@ && first.1 == attributes@[k as int].1@);
                assert(all.skip(k as int).drop_first() == all.skip(k + 1));
            }
            if same(attributes[k].0.as_str(), name) {
                return Some(attributes[k].1.as_str());
            }
            k = k + 1;
        }
        None
    }

    /// The value of a node's first attribute with a name, or an empty text.
    pub fn attribute_or_empty(&self, i: usize, name: &str) -> (r: &str)
        ensures
            r@ == value_or_empty(attribute_of(self.deep_view(), i, name@)),
    {
        match self.attribute(i, name) {
            Some(value) => value,
            None => {
                proof {
                    reveal_strlit("");
                    assert(""@ == Seq::<char>::empty());
                }
                ""
            },
        }
    }
}

/// A value, or an empty text where there is none.
pub open spec fn value_or_empty(value: Option<Seq<char>>) -> Seq<char> {
    match value {
        Some(value) => value,
        None => Seq::empty(),
    }
}

// ---------------------------------------------------------------------------
// Laws
// ---------------------------------------------------------------------------

proof fn lemma_named_among(doc: Seq<Node>, positions: Seq<usize>, name: Seq<char>)
    ensures
        named_among(doc, positions, name) == positions.filter(
            |c: usize| c < doc.len() && doc[c as int].name == name,
        ),
    decreases positions.len(),
{
    reveal(Seq::filter);
    if positions.len() > 0 {
        lemma_named_among(doc, positions.drop_last(), name);
    }
}

/// The children of a node that have a name are found, all of them and in their order, and
/// so are the nodes of the whole document.
pub proof fn law_nodes_are_found_by_name(doc: Seq<Node>, i: usize, name: Seq<char>)
    ensures
        i < doc.len() ==> children_named(doc, i, name) == doc[i as int].children.filter(
            |c: usize| c < doc.len() && doc[c as int].name == name,
        ),
        i >= doc.len() ==> children_named(doc, i, name).len() == 0,
        nodes_named(doc, name) == Seq::new(doc.len(), |k: int| k as usize).filter(
            |c: usize| c < doc.len() && doc[c as int].name == name,
        ),
{
    if i < doc.len() {
        lemma_named_among(doc, doc[i as int].children, name);
    }
    lemma_named_among(doc, positions(doc.len()), name);
    assert(positions(doc.len()) == Seq::new(doc.len(), |k: int| k as usize));
}

/// The children of several nodes are those of the first, then those of the next, and so
/// on.
pub proof fn law_children_come_parent_by_parent(
    doc: Seq<Node>,
    parents: Seq<usize>,
    p: usize,
    name: Seq<char>,
)
    ensures
        all_children_named(doc, Seq::empty(), name).len() == 0,
        all_children_named(doc, parents.push(p), name) == all_children_named(doc, parents, name)
            + children_named(doc, p, name),
{
    assert(parents.push(p).drop_last() == parents);
}

/// The value of an attribute is that of the first one with the name.
pub proof fn law_the_first_attribute_counts(doc: Seq<Node>, i: usize, name: Seq<char>, k: int)
    ensures
        i < doc.len() && 0 <= k < doc[i as int].attributes.len() && doc[i as int].attributes[k].0
            == name && (forall|j: int|
            0 <= j < k ==> (#[trigger] doc[i as int].attributes[j]).0 != name) ==> attribute_of(
            doc,
            i,
            name,
        ) == Some(doc[i as int].attributes[k].1),
        i < doc.len() && (forall|j: int|
            0 <= j < doc[i as int].attributes.len() ==> (
            #[trigger] doc[i as int].attributes[j]).0 != name) ==> attribute_of(doc, i, name) is None,
        i >= doc.len() ==> attribute_of(doc, i, name) is None,
        value_or_empty(Some(name)) == name,
        value_or_empty(None).len() == 0,
{
    if i < doc.len() {
        let attributes = doc[i as int].attributes;
        if 0 <= k < attributes.len() && attributes[k].0 == name && (forall|j: int|
            0 <= j < k ==> (#[trigger] attributes[j]).0 != name) {
            lemma_first_value(attributes, name, k);
        }
        if forall|j: int| 0 <= j < attributes.len() ==> (#[trigger] attributes[j]).0 != name {
            lemma_no_value(attributes, name);
        }
    }
}

proof fn lemma_first_value(attributes: Seq<(Seq<char>, Seq<char>)>, name: Seq<char>, k: int)
    requires
        0 <= k < attributes.len(),
        attributes[k].0 == name,
        forall|j: int| 0 <= j < k ==> (#[trigger] attributes[j]).0 != name,
    ensures
        first_value(attributes, name) == Some(attributes[k].1),
    decreases attributes.len(),
{
    if k > 0 {
        let rest = attributes.drop_first();
        assert(attributes[0].0 != name);
        assert forall|j: int| 0 <= j < k - 1 implies (#[trigger] rest[j]).0 != name by {
            assert(rest[j] == attributes[j + 1]);
        }
        lemma_first_value(rest, name, k - 1);
    }
}

proof fn lemma_no_value(attributes: Seq<(Seq<char>, Seq<char>)>, name: Seq<char>)
    requires
        forall|j: int| 0 <= j < attributes.len() ==> (#[trigger] attributes[j]).0 != name,
    ensures
        first_value(attributes, name) is None,
    decreases attributes.len(),
{
    if attributes.len() > 0 {
        let rest = attributes.drop_first();
        assert(attributes[0].0 != name);
        assert forall|j: int| 0 <= j < rest.len() implies (#[trigger] rest[j]).0 != name by {
            assert(rest[j] == attributes[j + 1]);
        }
        lemma_no_value(rest, name);
    }
}

/// The view of a node holds its name, its attributes and its children as they are.
pub proof fn law_the_view_of_a_node_is_the_node(node: XmlNode, document: XmlDocument)
    ensures
        node.deep_view().name == node.name@,
        node.deep_view().children == node.children@,
        node.deep_view().attributes.len() == node.attributes@.len(),
        forall|i: int|
            0 <= i < node.attributes@.len() ==> (#[trigger] node.deep_view().attributes[i]) == (
                node.attributes@[i].0@,
                node.attributes@[i].1@,
            ),
        document.deep_view().len() == document.nodes@.len(),
        forall|i: int|
            0 <= i < document.nodes@.len() ==> (#[trigger] document.deep_view()[i])
                == document.nodes@[i].deep_view(),
{
}

} // verus!
