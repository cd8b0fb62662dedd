//! XML documents as a flat list of nodes in document order, each knowing
//! the position of its parent, and the lookups that the readers need.
use vstd::prelude::*;

verus! {

/// One node of an XML document. Position `0` is the document itself.
#[derive(Clone, Debug)]
pub struct XmlNode {
    pub is_element: bool,
    pub tag: String,
    pub parent: Option<usize>,
    pub attributes: Vec<(String, String)>,
}

pub open spec fn attributes_view(a: Seq<(String, String)>) -> Seq<(Seq<char>, Seq<char>)> {
    a.map_values(|p: (String, String)| (p.0@, p.1@))
}

pub open spec fn node_view(n: XmlNode) -> (bool, Seq<char>, Option<usize>, Seq<(Seq<char>, Seq<char>)>) {
    (n.is_element, n.tag@, n.parent, attributes_view(n.attributes@))
}

/// The nodes of the XML document `text` in document order, or `None` when
/// `text` is not a well-formed document.
pub uninterp spec fn xml_nodes_of(text: Seq<char>) -> Option<Seq<(bool, Seq<char>, Option<usize>, Seq<(Seq<char>, Seq<char>)>)>>;

/// Relies on roxmltree::Document::parse, whose result depends on the text
/// alone, and on `descendants`, which lists the nodes in document order.
#[verifier::external_body]
pub fn parse_xml(text: &str) -> (r: Option<Vec<XmlNode>>)
    ensures
        r is Some <==> xml_nodes_of(text@) is Some,
        r matches Some(v) ==> v@.map_values(|n: XmlNode| node_view(n)) == xml_nodes_of(text@)->Some_0,
{
    let doc = roxmltree::Document::parse(text).ok()?;
    Some(doc.descendants().map(|n| XmlNode {
        is_element: n.is_element(),
        tag: n.tag_name().name().to_string(),
        parent: n.parent().map(|p| p.id().get_usize()),
        attributes: n.attributes().map(|a| (a.name().to_string(), a.value().to_string())).collect(),
    }).collect())
}

/// The decimal value of a string of digits.
pub open spec fn digits_value(s: Seq<char>) -> int
    decreases s.len(),
{
    if s.len() == 0 {
        0
    } else {
        digits_value(s.drop_last()) * 10 + (s.last() as int - '0' as int)
    }
}

pub open spec fn all_digits(s: Seq<char>) -> bool {
    forall|i: int| 0 <= i < s.len() ==> '0' <= #[trigger] s[i] <= '9'
}

/// What `u64`'s `from_str` reads from `s`: an optional `+` and at least one
/// decimal digit, whose value fits in 64 bits.
pub open spec fn u64_text(s: Seq<char>) -> Option<u64> {
    let d = if s.len() > 0 && s[0] == '+' { s.drop_first() } else { s };
    if d.len() > 0 && all_digits(d) && digits_value(d) <= u64::MAX {
        Some(digits_value(d) as u64)
    } else {
        None
    }
}

/// Relies on `<u64 as FromStr>::from_str`: an optional `+` sign and one or
/// more decimal digits, rejected when the value overflows.
#[verifier::external_body]
pub fn parse_u64(s: &String) -> (r: Option<u64>)
    ensures
        r == u64_text(s@),
{
    s.parse::<u64>().ok()
}

/// Whether `s` is the text `lit`.
pub fn text_is(s: &String, lit: &str) -> (r: bool)
    ensures
        r == (s@ == lit@),
{
    let t = lit.to_owned();
    s.eq(&t)
}

/// The element children of node `p` among the first `k` nodes, in order.
pub open spec fn children_upto(nodes: Seq<XmlNode>, p: usize, k: int) -> Seq<usize>
    decreases k,
{
    if k <= 0 || k > nodes.len() {
        Seq::empty()
    } else {
        let prev = children_upto(nodes, p, k - 1);
        if nodes[k - 1].is_element && nodes[k - 1].parent == Some(p) {
            prev.push((k - 1) as usize)
        } else {
            prev
        }
    }
}

/// A node has no more element children among the first `k` nodes than `k`.
pub proof fn lemma_children_count(nodes: Seq<XmlNode>, p: usize, k: int)
    ensures
        children_upto(nodes, p, k).len() <= if k < 0 { 0 } else { k },
    decreases k,
{
    if k > 0 && k <= nodes.len() {
        lemma_children_count(nodes, p, k - 1);
    }
}

pub open spec fn element_children(nodes: Seq<XmlNode>, p: usize) -> Seq<usize> {
    children_upto(nodes, p, nodes.len() as int)
}

/// The element children of node `p`, in document order.
pub fn children(nodes: &Vec<XmlNode>, p: usize) -> (r: Vec<usize>)
    ensures
        r@ == element_children(nodes@, p),
        forall|k: int| 0 <= k < r@.len() ==> #[trigger] r@[k] < nodes@.len(),
{
    let mut r: Vec<usize> = Vec::new();
    let mut i: usize = 0;
    while i < nodes.len()
        invariant
            i <= nodes@.len(),
            r@ == children_upto(nodes@, p, i as int),
            forall|k: int| 0 <= k < r@.len() ==> #[trigger] r@[k] < i,
        decreases nodes@.len() - i,
    {
        if nodes[i].is_element && nodes[i].parent == Some(p) {
            r.push(i);
        }
        i += 1;
    }
    r
}

/// The value of the last attribute named `name` among the first `k`.
pub open spec fn attribute_upto(attrs: Seq<(String, String)>, name: Seq<char>, k: int) -> Option<Seq<char>>
    decreases k,
{
    if k <= 0 || k > attrs.len() {
        None
    } else if attrs[k - 1].0@ == name {
        Some(attrs[k - 1].1@)
    } else {
        attribute_upto(attrs, name, k - 1)
    }
}

/// The value of attribute `name` of a node (the last, should it repeat).
pub open spec fn attribute_of(n: XmlNode, name: Seq<char>) -> Option<Seq<char>> {
    attribute_upto(n.attributes@, name, n.attributes@.len() as int)
}

/// The value of attribute `name` of `n`.
pub fn attribute(n: &XmlNode, name: &str) -> (r: Option<String>)
    ensures
        r is Some <==> attribute_of(*n, name@) is Some,
        r matches Some(v) ==> attribute_of(*n, name@) == Some(v@),
{
    let mut found: Option<String> = None;
    let mut i: usize = 0;
    while i < n.attributes.len()
        invariant
            i <= n.attributes@.len(),
            found is Some <==> attribute_upto(n.attributes@, name@, i as int) is Some,
            found matches Some(v) ==> attribute_upto(n.attributes@, name@, i as int) == Some(v@),
        decreases n.attributes@.len() - i,
    {
        if text_is(&n.attributes[i].0, name) {
            found = Some(n.attributes[i].1.clone());
        }
        i += 1;
    }
    found
}

} // verus!
