//! The elements of an OSM extract, and reading them out of its bytes.

use crate::decimal::{decimal_e7, decimal_i64, parse_e7, parse_i64};
use crate::error::Error;
use crate::osm::{NodeID, OsmID, RelationID, WayID};
use crate::tags::{collected, str_eq, Tags};
use vstd::prelude::*;
use vstd::string::StringSliceAdditionalSpecFns;
use vstd::utf8::{decode_utf8, valid_utf8};

verus! {

/// One element of an OSM extract. A node holds its longitude and latitude in ten-millionths of
/// a degree.
#[derive(Debug)]
#[allow(inconsistent_fields)]
pub enum Element {
    Node { id: NodeID, lon: i32, lat: i32, tags: Tags },
    Way { id: WayID, node_ids: Vec<NodeID>, tags: Tags },
    /// The members of a relation come with their roles. A relation read out of PBF has none:
    /// there the members are not looked at.
    Relation { id: RelationID, tags: Tags, members: Vec<(String, OsmID)> },
}

/// Whether the bytes start like an XML document: with `<?xml`, in letters of either case.
pub open spec fn looks_like_xml(bytes: Seq<u8>) -> bool {
    &&& bytes.len() >= 5
    &&& bytes[0] == 0x3c
    &&& bytes[1] == 0x3f
    &&& (bytes[2] == 0x78 || bytes[2] == 0x58)
    &&& (bytes[3] == 0x6d || bytes[3] == 0x4d)
    &&& (bytes[4] == 0x6c || bytes[4] == 0x4c)
}

/// Whether the bytes start like an XML document: with `<?xml`, in letters of either case.
pub fn is_xml(input_bytes: &[u8]) -> (xml: bool)
    ensures
        xml == looks_like_xml(input_bytes@),
{
    if input_bytes.len() < 5 {
        return false;
    }
    input_bytes[0] == 0x3c && input_bytes[1] == 0x3f && (input_bytes[2] == 0x78 || input_bytes[2]
        == 0x58) && (input_bytes[3] == 0x6d || input_bytes[3] == 0x4d) && (input_bytes[4] == 0x6c
        || input_bytes[4] == 0x4c)
}

/// `std::str::from_utf8`: the text whose encoding the bytes are, if they are valid UTF-8.
#[verifier::external_body]
fn utf8(bytes: &[u8]) -> (text: Option<&str>)
    ensures
        text is Some <==> valid_utf8(bytes@),
        text matches Some(t) ==> t.spec_bytes() == bytes@,
{
    std::str::from_utf8(bytes).ok()
}

/// An attribute of a node of an XML document: its name without a prefix, and its value.
#[derive(Debug)]
pub struct XmlAttribute {
    pub name: String,
    pub value: String,
}

/// A node of an XML document: whether it is an element, its name without a prefix, the place
/// of its parent among the nodes, and its attributes.
#[derive(Debug)]
pub struct XmlNode {
    pub is_element: bool,
    pub name: String,
    pub parent: Option<usize>,
    pub attributes: Vec<XmlAttribute>,
}

/// The nodes of the document that `roxmltree` reads out of a text, in the order of the
/// document, if it reads one.
pub uninterp spec fn xml_tree(text: Seq<char>) -> Option<Seq<XmlNode>>;

/// `roxmltree::Document::parse`, and `Document::descendants` on what it returns: every node of
/// the document in the order of the document, the root first, each with the place of its
/// parent in that order; `None` where the text is no XML document.
#[verifier::external_body]
fn xml_nodes(text: &str) -> (nodes: Option<Vec<XmlNode>>)
    ensures
        nodes is Some <==> xml_tree(text@) is Some,
        nodes matches Some(v) ==> xml_tree(text@) == Some(v@),
{
    let doc = roxmltree::Document::parse(text).ok()?;
    let attribute = |a: roxmltree::Attribute| XmlAttribute {
        name: a.name().to_string(),
        value: a.value().to_string(),
    };
    let node = |n: roxmltree::Node| XmlNode {
        is_element: n.is_element(),
        name: n.tag_name().name().to_string(),
        parent: n.parent().map(|p| p.id().get_usize()),
        attributes: n.attributes().map(attribute).collect(),
    };
    Some(doc.descendants().map(node).collect())
}

/// The value of the attribute `name` of a node: that of the first attribute with the name,
/// whatever its namespace, if there is one.
pub open spec fn attribute_of(attributes: Seq<XmlAttribute>, name: Seq<char>, n: nat) -> Option<Seq<char>>
    decreases n,
{
    if n == 0 {
        None
    } else {
        let before = attribute_of(attributes, name, (n - 1) as nat);
        if before is Some {
            before
        } else if attributes[n - 1].name@ == name {
            Some(attributes[n - 1].value@)
        } else {
            None
        }
    }
}

/// The value of the attribute `name` of a node.
pub fn attribute<'a>(node: &'a XmlNode, name: &str) -> (value: Option<&'a String>)
    ensures
        value is Some <==> attribute_of(node.attributes@, name@, node.attributes@.len()) is Some,
        value matches Some(v) ==> attribute_of(node.attributes@, name@, node.attributes@.len())
            == Some(v@),
{
    let mut i: usize = 0;
    while i < node.attributes.len()
        invariant
            i <= node.attributes@.len(),
            attribute_of(node.attributes@, name@, i as nat) is None,
        decreases node.attributes@.len() - i,
    {
        if str_eq(node.attributes[i].name.as_str(), name) {
            proof {
                lemma_attribute_found(node.attributes@, name@, (i + 1) as nat, node.attributes@.len());
            }
            return Some(&node.attributes[i].value);
        }
        i += 1;
    }
    None
}

proof fn lemma_attribute_found(attributes: Seq<XmlAttribute>, name: Seq<char>, n: nat, m: nat)
    requires
        n <= m <= attributes.len(),
        attribute_of(attributes, name, n) is Some,
    ensures
        attribute_of(attributes, name, m) == attribute_of(attributes, name, n),
    decreases m - n,
{
    if n < m {
        lemma_attribute_found(attributes, name, n, (m - 1) as nat);
    }
}

/// The node `j` is a child of the node `i` with the name `name`.
pub open spec fn child_named(nodes: Seq<XmlNode>, i: int, j: int, name: Seq<char>) -> bool {
    nodes[j].parent == Some(i as usize) && nodes[j].name@ == name
}

/// The attribute `name` of the node, read as a number.
pub open spec fn number_of(node: XmlNode, name: Seq<char>) -> Option<i64> {
    match attribute_of(node.attributes@, name, node.attributes@.len()) {
        Some(text) => decimal_i64(vstd::utf8::encode_utf8(text)),
        None => None,
    }
}

/// What a walk over the children finds: nothing wrong so far, or something wrong.
pub enum Read<T> {
    Good(T),
    Bad,
}

/// The tags that the first `n` nodes give the node `i`: one for each child named `tag`, a later
/// one in place of an earlier one with the same key. Bad where such a child lacks its key or
/// its value.
pub open spec fn tags_read(nodes: Seq<XmlNode>, i: int, n: nat) -> Read<Map<Seq<char>, Seq<char>>>
    decreases n,
{
    if n == 0 {
        Read::Good(Map::empty())
    } else {
        let j = n - 1;
        match tags_read(nodes, i, (n - 1) as nat) {
            Read::Bad => Read::Bad,
            Read::Good(tags) => if child_named(nodes, i, j, "tag"@) {
                match (
                    attribute_of(nodes[j].attributes@, "k"@, nodes[j].attributes@.len()),
                    attribute_of(nodes[j].attributes@, "v"@, nodes[j].attributes@.len()),
                ) {
                    (Some(k), Some(v)) => Read::Good(tags.insert(k, v)),
                    _ => Read::Bad,
                }
            } else {
                Read::Good(tags)
            },
        }
    }
}

/// The nodes of the way `i` that the first `n` nodes of the document name: one for each child
/// named `nd`. Bad where such a child names no node.
pub open spec fn refs_read(nodes: Seq<XmlNode>, i: int, n: nat) -> Read<Seq<NodeID>>
    decreases n,
{
    if n == 0 {
        Read::Good(Seq::empty())
    } else {
        let j = n - 1;
        match refs_read(nodes, i, (n - 1) as nat) {
            Read::Bad => Read::Bad,
            Read::Good(refs) => if child_named(nodes, i, j, "nd"@) {
                match number_of(nodes[j], "ref"@) {
                    Some(id) => Read::Good(refs.push(NodeID(id))),
                    None => Read::Bad,
                }
            } else {
                Read::Good(refs)
            },
        }
    }
}

/// The member that a child of a relation names: `None` where its kind is none of node, way and
/// relation; bad where it lacks its kind, its reference or its role.
pub open spec fn member_read(node: XmlNode) -> Read<Option<(Seq<char>, OsmID)>> {
    match (
        attribute_of(node.attributes@, "type"@, node.attributes@.len()),
        number_of(node, "ref"@),
        attribute_of(node.attributes@, "role"@, node.attributes@.len()),
    ) {
        (Some(kind), id, role) => if kind == "node"@ || kind == "way"@ || kind == "relation"@ {
            match (id, role) {
                (Some(id), Some(role)) => Read::Good(
                    Some(
                        (
                            role,
                            if kind == "node"@ {
                                OsmID::Node(NodeID(id))
                            } else if kind == "way"@ {
                                OsmID::Way(WayID(id))
                            } else {
                                OsmID::Relation(RelationID(id))
                            },
                        ),
                    ),
                ),
                _ => Read::Bad,
            }
        } else {
            Read::Good(None)
        },
        (None, _, _) => Read::Bad,
    }
}

/// The members of the relation `i` that the first `n` nodes of the document name: one for each
/// child named `member` whose kind is known.
pub open spec fn members_read(nodes: Seq<XmlNode>, i: int, n: nat) -> Read<Seq<(Seq<char>, OsmID)>>
    decreases n,
{
    if n == 0 {
        Read::Good(Seq::empty())
    } else {
        let j = n - 1;
        match members_read(nodes, i, (n - 1) as nat) {
            Read::Bad => Read::Bad,
            Read::Good(members) => if child_named(nodes, i, j, "member"@) {
                match member_read(nodes[j]) {
                    Read::Good(Some(m)) => Read::Good(members.push(m)),
                    Read::Good(None) => Read::Good(members),
                    Read::Bad => Read::Bad,
                }
            } else {
                Read::Good(members)
            },
        }
    }
}

/// The roles and the members of a relation, as sequences.
pub open spec fn members_view(members: Seq<(String, OsmID)>) -> Seq<(Seq<char>, OsmID)> {
    Seq::new(members.len(), |k: int| (members[k].0@, members[k].1))
}

/// The node `i` of the document is an OSM element.
pub open spec fn is_osm_element(nodes: Seq<XmlNode>, i: int) -> bool {
    nodes[i].is_element && (nodes[i].name@ == "node"@ || nodes[i].name@ == "way"@ || nodes[i].name@
        == "relation"@)
}

/// The element `e` is what the node `i` of the document describes.
pub open spec fn element_read(nodes: Seq<XmlNode>, i: int, e: Element) -> bool {
    let n = nodes.len();
    if nodes[i].name@ == "node"@ {
        &&& e matches Element::Node { id, lon, lat, tags }
        &&& Some(id.0) == number_of(nodes[i], "id"@)
        &&& lon_of(nodes[i]) == Some(lon)
        &&& lat_of(nodes[i]) == Some(lat)
        &&& tags_read(nodes, i, n) == Read::Good(tags@)
    } else if nodes[i].name@ == "way"@ {
        &&& e matches Element::Way { id, node_ids, tags }
        &&& Some(id.0) == number_of(nodes[i], "id"@)
        &&& tags_read(nodes, i, n) == Read::Good(tags@)
        &&& refs_read(nodes, i, n) == Read::Good(node_ids@)
    } else {
        &&& e matches Element::Relation { id, tags, members }
        &&& Some(id.0) == number_of(nodes[i], "id"@)
        &&& tags_read(nodes, i, n) == Read::Good(tags@)
        &&& members_read(nodes, i, n) == Read::Good(members_view(members@))
    }
}

/// The longitude of a node, in ten-millionths of a degree.
pub open spec fn lon_of(node: XmlNode) -> Option<i32> {
    match attribute_of(node.attributes@, "lon"@, node.attributes@.len()) {
        Some(text) => decimal_e7(vstd::utf8::encode_utf8(text)),
        None => None,
    }
}

/// The latitude of a node, in ten-millionths of a degree.
pub open spec fn lat_of(node: XmlNode) -> Option<i32> {
    match attribute_of(node.attributes@, "lat"@, node.attributes@.len()) {
        Some(text) => decimal_e7(vstd::utf8::encode_utf8(text)),
        None => None,
    }
}

/// The node `i` of the document is an OSM element that is not well formed: it lacks its
/// identifier or, for a node, its place, or one of its children lacks what it must have.
pub open spec fn malformed_at(nodes: Seq<XmlNode>, i: int) -> bool {
    let n = nodes.len();
    is_osm_element(nodes, i) && {
        ||| number_of(nodes[i], "id"@) is None
        ||| tags_read(nodes, i, n) is Bad
        ||| nodes[i].name@ == "node"@ && (lon_of(nodes[i]) is None || lat_of(nodes[i]) is None)
        ||| nodes[i].name@ == "way"@ && refs_read(nodes, i, n) is Bad
        ||| nodes[i].name@ == "relation"@ && members_read(nodes, i, n) is Bad
    }
}

/// The places among the first `n` nodes of the document of the OSM elements.
pub open spec fn element_places(nodes: Seq<XmlNode>, n: nat) -> Seq<int>
    decreases n,
{
    if n == 0 {
        Seq::empty()
    } else {
        let before = element_places(nodes, (n - 1) as nat);
        if is_osm_element(nodes, n - 1) {
            before.push(n - 1)
        } else {
            before
        }
    }
}

fn is_child(nodes: &Vec<XmlNode>, i: usize, j: usize, name: &str) -> (yes: bool)
    requires
        j < nodes@.len(),
    ensures
        yes == child_named(nodes@, i as int, j as int, name@),
{
    match nodes[j].parent {
        Some(p) => p == i && str_eq(nodes[j].name.as_str(), name),
        None => false,
    }
}

fn number(node: &XmlNode, name: &str) -> (n: Option<i64>)
    ensures
        n == number_of(*node, name@),
{
    match attribute(node, name) {
        Some(text) => parse_i64(text.as_str()),
        None => None,
    }
}

/// Reads the tags of an element of the document off its children. `None` where a child named
/// `tag` lacks its key or its value.
pub fn read_tags(nodes: &Vec<XmlNode>, i: usize) -> (tags: Option<Tags>)
    ensures
        match tags {
            Some(t) => tags_read(nodes@, i as int, nodes@.len()) == Read::Good(t@),
            None => tags_read(nodes@, i as int, nodes@.len()) is Bad,
        },
{
    let mut tags = Tags::empty();
    let mut j: usize = 0;
    while j < nodes.len()
        invariant
            j <= nodes@.len(),
            tags_read(nodes@, i as int, j as nat) == Read::Good(tags@),
        decreases nodes@.len() - j,
    {
        if is_child(nodes, i, j, "tag") {
            match (attribute(&nodes[j], "k"), attribute(&nodes[j], "v")) {
                (Some(k), Some(v)) => {
                    tags.insert(k.as_str(), v.as_str());
                },
                _ => {
                    proof {
                        lemma_tags_stay_bad(nodes@, i as int, (j + 1) as nat, nodes@.len());
                    }
                    return None;
                },
            }
        }
        j += 1;
    }
    Some(tags)
}

proof fn lemma_tags_stay_bad(nodes: Seq<XmlNode>, i: int, n: nat, m: nat)
    requires
        n <= m <= nodes.len(),
        tags_read(nodes, i, n) is Bad,
    ensures
        tags_read(nodes, i, m) is Bad,
    decreases m - n,
{
    if n < m {
        lemma_tags_stay_bad(nodes, i, n, (m - 1) as nat);
    }
}

proof fn lemma_refs_stay_bad(nodes: Seq<XmlNode>, i: int, n: nat, m: nat)
    requires
        n <= m <= nodes.len(),
        refs_read(nodes, i, n) is Bad,
    ensures
        refs_read(nodes, i, m) is Bad,
    decreases m - n,
{
    if n < m {
        lemma_refs_stay_bad(nodes, i, n, (m - 1) as nat);
    }
}

proof fn lemma_members_stay_bad(nodes: Seq<XmlNode>, i: int, n: nat, m: nat)
    requires
        n <= m <= nodes.len(),
        members_read(nodes, i, n) is Bad,
    ensures
        members_read(nodes, i, m) is Bad,
    decreases m - n,
{
    if n < m {
        lemma_members_stay_bad(nodes, i, n, (m - 1) as nat);
    }
}

fn read_refs(nodes: &Vec<XmlNode>, i: usize) -> (refs: Option<Vec<NodeID>>)
    ensures
        match refs {
            Some(r) => refs_read(nodes@, i as int, nodes@.len()) == Read::Good(r@),
            None => refs_read(nodes@, i as int, nodes@.len()) is Bad,
        },
{
    let mut refs: Vec<NodeID> = Vec::new();
    let mut j: usize = 0;
    while j < nodes.len()
        invariant
            j <= nodes@.len(),
            refs_read(nodes@, i as int, j as nat) == Read::Good(refs@),
        decreases nodes@.len() - j,
    {
        if is_child(nodes, i, j, "nd") {
            match number(&nodes[j], "ref") {
                Some(id) => {
                    refs.push(NodeID(id));
                },
                None => {
                    proof {
                        lemma_refs_stay_bad(nodes@, i as int, (j + 1) as nat, nodes@.len());
                    }
                    return None;
                },
            }
        }
        j += 1;
    }
    Some(refs)
}

fn read_member(node: &XmlNode) -> (member: Option<Option<(String, OsmID)>>)
    ensures
        match member {
            Some(Some(m)) => member_read(*node) == Read::Good(Some((m.0@, m.1))),
            Some(None) => member_read(*node) == Read::<Option<(Seq<char>, OsmID)>>::Good(None),
            None => member_read(*node) is Bad,
        },
{
    let kind = match attribute(node, "type") {
        Some(kind) => kind,
        None => {
            return None;
        },
    };
    let is_node = str_eq(kind.as_str(), "node");
    let is_way = str_eq(kind.as_str(), "way");
    let is_relation = str_eq(kind.as_str(), "relation");
    if !(is_node || is_way || is_relation) {
        return Some(None);
    }
    let id = match number(node, "ref") {
        Some(id) => id,
        None => {
            return None;
        },
    };
    let role = match attribute(node, "role") {
        Some(role) => role.clone(),
        None => {
            return None;
        },
    };
    let member = if is_node {
        OsmID::Node(NodeID(id))
    } else if is_way {
        OsmID::Way(WayID(id))
    } else {
        OsmID::Relation(RelationID(id))
    };
    Some(Some((role, member)))
}

fn read_members(nodes: &Vec<XmlNode>, i: usize) -> (members: Option<Vec<(String, OsmID)>>)
    ensures
        match members {
            Some(m) => members_read(nodes@, i as int, nodes@.len()) == Read::Good(members_view(m@)),
            None => members_read(nodes@, i as int, nodes@.len()) is Bad,
        },
{
    let mut members: Vec<(String, OsmID)> = Vec::new();
    let mut j: usize = 0;
    assert(members_view(members@) =~= Seq::<(Seq<char>, OsmID)>::empty());
    while j < nodes.len()
        invariant
            j <= nodes@.len(),
            members_read(nodes@, i as int, j as nat) == Read::Good(members_view(members@)),
        decreases nodes@.len() - j,
    {
        if is_child(nodes, i, j, "member") {
            match read_member(&nodes[j]) {
                Some(Some(m)) => {
                    let ghost before = members_view(members@);
                    let ghost item = (m.0@, m.1);
                    members.push(m);
                    assert(members_view(members@) =~= before.push(item));
                },
                Some(None) => {},
                None => {
                    proof {
                        lemma_members_stay_bad(nodes@, i as int, (j + 1) as nat, nodes@.len());
                    }
                    return None;
                },
            }
        }
        j += 1;
    }
    Some(members)
}

/// Reads the OSM element that the node `i` of the document describes. `None` where the element
/// is not well formed.
pub fn read_element(nodes: &Vec<XmlNode>, i: usize) -> (element: Option<Element>)
    requires
        i < nodes@.len(),
        is_osm_element(nodes@, i as int),
    ensures
        match element {
            Some(e) => element_read(nodes@, i as int, e) && !malformed_at(nodes@, i as int),
            None => malformed_at(nodes@, i as int),
        },
{
    proof {
        reveal_strlit("node");
        reveal_strlit("way");
        reveal_strlit("relation");
        assert("node"@.len() == 4 && "way"@.len() == 3 && "relation"@.len() == 8);
    }
    let id = match number(&nodes[i], "id") {
        Some(id) => id,
        None => {
            return None;
        },
    };
    let tags = match read_tags(nodes, i) {
        Some(tags) => tags,
        None => {
            return None;
        },
    };
    if str_eq(nodes[i].name.as_str(), "node") {
        let lon = match attribute(&nodes[i], "lon") {
            Some(text) => parse_e7(text.as_str()),
            None => None,
        };
        let lat = match attribute(&nodes[i], "lat") {
            Some(text) => parse_e7(text.as_str()),
            None => None,
        };
        match (lon, lat) {
            (Some(lon), Some(lat)) => Some(Element::Node { id: NodeID(id), lon, lat, tags }),
            _ => None,
        }
    } else if str_eq(nodes[i].name.as_str(), "way") {
        match read_refs(nodes, i) {
            Some(node_ids) => Some(Element::Way { id: WayID(id), node_ids, tags }),
            None => None,
        }
    } else {
        match read_members(nodes, i) {
            Some(members) => Some(Element::Relation { id: RelationID(id), tags, members }),
            None => None,
        }
    }
}

/// What reading the elements out of a document comes to: one element for each node of the
/// document that describes one, in the order of the document; or `InputMalformed` where one of
/// them is not well formed.
pub open spec fn elements_read(nodes: Seq<XmlNode>, read: Result<Vec<Element>, Error>) -> bool {
    let places = element_places(nodes, nodes.len());
    match read {
        Ok(elements) => {
            &&& elements@.len() == places.len()
            &&& forall|k: int|
                0 <= k < places.len() ==> element_read(nodes, places[k], #[trigger] elements@[k])
            &&& forall|i: int| 0 <= i < nodes.len() ==> !#[trigger] malformed_at(nodes, i)
        },
        Err(e) => {
            &&& e == Error::InputMalformed
            &&& exists|i: int| 0 <= i < nodes.len() && #[trigger] malformed_at(nodes, i)
        },
    }
}

/// Reads the OSM elements out of the nodes of an XML document.
pub fn elements_from_xml(nodes: &Vec<XmlNode>) -> (read: Result<Vec<Element>, Error>)
    ensures
        elements_read(nodes@, read),
{
    let mut elements: Vec<Element> = Vec::new();
    let mut i: usize = 0;
    while i < nodes.len()
        invariant
            i <= nodes@.len(),
            elements@.len() == element_places(nodes@, i as nat).len(),
            forall|k: int|
                0 <= k < elements@.len() ==> element_read(
                    nodes@,
                    element_places(nodes@, i as nat)[k],
                    #[trigger] elements@[k],
                ),
            forall|j: int| 0 <= j < i ==> !#[trigger] malformed_at(nodes@, j),
        decreases nodes@.len() - i,
    {
        let wanted = nodes[i].is_element && (str_eq(nodes[i].name.as_str(), "node") || str_eq(
            nodes[i].name.as_str(),
            "way",
        ) || str_eq(nodes[i].name.as_str(), "relation"));
        if wanted {
            match read_element(nodes, i) {
                Some(e) => {
                    let ghost before = elements@;
                    elements.push(e);
                    proof {
                        let places = element_places(nodes@, (i + 1) as nat);
                        assert forall|k: int| 0 <= k < elements@.len() implies element_read(
                            nodes@,
                            places[k],
                            #[trigger] elements@[k],
                        ) by {
                            if k < before.len() {
                                assert(elements@[k] == before[k]);
                            }
                        }
                    }
                },
                None => {
                    return Err(Error::InputMalformed);
                },
            }
        }
        i += 1;
    }
    Ok(elements)
}

/// What reading an XML extract comes to: the elements that the document describes; or
/// `InputMalformed` where the bytes are no text, the text is no XML document, or an element of
/// the document is not well formed.
pub open spec fn xml_parsed(bytes: Seq<u8>, read: Result<Vec<Element>, Error>) -> bool {
    if !valid_utf8(bytes) || xml_tree(decode_utf8(bytes)) is None {
        read == Err::<Vec<Element>, Error>(Error::InputMalformed)
    } else {
        elements_read(xml_tree(decode_utf8(bytes)).unwrap(), read)
    }
}

/// Reads the elements out of an extract in OSM XML.
pub fn parse_xml(input_bytes: &[u8]) -> (read: Result<Vec<Element>, Error>)
    ensures
        xml_parsed(input_bytes@, read),
{
    let text = match utf8(input_bytes) {
        Some(text) => text,
        None => {
            return Err(Error::InputMalformed);
        },
    };
    proof {
        vstd::utf8::encode_utf8_decode_utf8(text@);
    }
    let nodes = match xml_nodes(text) {
        Some(nodes) => nodes,
        None => {
            return Err(Error::InputMalformed);
        },
    };
    elements_from_xml(&nodes)
}

/// A node as a decoder of PBF hands it out: its identifier, its longitude and latitude in
/// ten-millionths of a degree, and its tags.
#[derive(Debug)]
pub struct RawNode {
    pub id: i64,
    pub lon: i32,
    pub lat: i32,
    pub tags: Vec<(String, String)>,
}

/// A way as a decoder of PBF hands it out.
#[derive(Debug)]
pub struct RawWay {
    pub id: i64,
    pub refs: Vec<i64>,
    pub tags: Vec<(String, String)>,
}

/// The kind of element that a member of a relation is.
#[derive(Clone, Copy, Debug, PartialEq, Eq, Structural)]
pub enum MemberKind {
    Node,
    Way,
    Relation,
}

/// A member of a relation as a decoder of PBF hands it out. The role is `None` where the
/// extract does not hold the text that the member names as its role.
#[derive(Debug)]
pub struct RawMember {
    pub role: Option<String>,
    pub kind: MemberKind,
    pub id: i64,
}

/// A relation as a decoder of PBF hands it out.
#[derive(Debug)]
pub struct RawRelation {
    pub id: i64,
    pub tags: Vec<(String, String)>,
    pub members: Vec<RawMember>,
}

/// An element as a decoder of PBF hands it out.
#[derive(Debug)]
pub enum RawElement {
    Node(RawNode),
    Way(RawWay),
    Relation(RawRelation),
}

/// The nodes among the first `n` elements, in their order.
pub open spec fn nodes_among(all: Seq<RawElement>, n: nat) -> Seq<RawNode>
    decreases n,
{
    if n == 0 {
        Seq::empty()
    } else {
        let before = nodes_among(all, (n - 1) as nat);
        match all[n - 1] {
            RawElement::Node(node) => before.push(node),
            _ => before,
        }
    }
}

/// The ways among the first `n` elements, in their order.
pub open spec fn ways_among(all: Seq<RawElement>, n: nat) -> Seq<RawWay>
    decreases n,
{
    if n == 0 {
        Seq::empty()
    } else {
        let before = ways_among(all, (n - 1) as nat);
        match all[n - 1] {
            RawElement::Way(way) => before.push(way),
            _ => before,
        }
    }
}

/// The relations among the first `n` elements, in their order.
pub open spec fn relations_among(all: Seq<RawElement>, n: nat) -> Seq<RawRelation>
    decreases n,
{
    if n == 0 {
        Seq::empty()
    } else {
        let before = relations_among(all, (n - 1) as nat);
        match all[n - 1] {
            RawElement::Relation(relation) => before.push(relation),
            _ => before,
        }
    }
}

/// The identifiers of nodes that the numbers are.
pub open spec fn node_ids_of(refs: Seq<i64>) -> Seq<NodeID> {
    Seq::new(refs.len(), |k: int| NodeID(refs[k]))
}

/// The member that a raw member is; `None` where it has no role.
pub open spec fn member_of(m: RawMember) -> Option<(Seq<char>, OsmID)> {
    match m.role {
        Some(role) => Some(
            (
                role@,
                match m.kind {
                    MemberKind::Node => OsmID::Node(NodeID(m.id)),
                    MemberKind::Way => OsmID::Way(WayID(m.id)),
                    MemberKind::Relation => OsmID::Relation(RelationID(m.id)),
                },
            ),
        ),
        None => None,
    }
}

/// Every member has a role.
pub open spec fn roles_known(members: Seq<RawMember>) -> bool {
    forall|k: int| 0 <= k < members.len() ==> (#[trigger] members[k]).role is Some
}

/// Every member of every relation among the elements has a role.
pub open spec fn all_roles_known(all: Seq<RawElement>) -> bool {
    forall|k: int|
        0 <= k < all.len() ==> (#[trigger] all[k] matches RawElement::Relation(relation)
            ==> roles_known(relation.members@))
}

/// The element is the raw node.
pub open spec fn is_raw_node(e: Element, raw: RawNode) -> bool {
    &&& e matches Element::Node { id, lon, lat, tags }
    &&& id.0 == raw.id
    &&& lon == raw.lon
    &&& lat == raw.lat
    &&& tags@ == collected(raw.tags@, raw.tags@.len())
}

/// The element is the raw way.
pub open spec fn is_raw_way(e: Element, raw: RawWay) -> bool {
    &&& e matches Element::Way { id, node_ids, tags }
    &&& id.0 == raw.id
    &&& node_ids@ == node_ids_of(raw.refs@)
    &&& tags@ == collected(raw.tags@, raw.tags@.len())
}

/// The element is the raw relation, with its members in their order.
pub open spec fn is_raw_relation(e: Element, raw: RawRelation) -> bool {
    &&& e matches Element::Relation { id, tags, members }
    &&& id.0 == raw.id
    &&& tags@ == collected(raw.tags@, raw.tags@.len())
    &&& members@.len() == raw.members@.len()
    &&& forall|k: int|
        0 <= k < raw.members@.len() ==> Some(((#[trigger] members@[k]).0@, members@[k].1))
            == member_of(raw.members@[k])
}

/// The elements are the nodes, then the ways, then the relations, each as an element.
pub open spec fn assembled(
    nodes: Seq<RawNode>,
    ways: Seq<RawWay>,
    relations: Seq<RawRelation>,
    elements: Seq<Element>,
) -> bool {
    &&& elements.len() == nodes.len() + ways.len() + relations.len()
    &&& forall|k: int| 0 <= k < nodes.len() ==> is_raw_node(#[trigger] elements[k], nodes[k])
    &&& forall|k: int|
        0 <= k < ways.len() ==> is_raw_way(#[trigger] elements[nodes.len() + k], ways[k])
    &&& forall|k: int|
        0 <= k < relations.len() ==> is_raw_relation(
            #[trigger] elements[nodes.len() + ways.len() + k],
            relations[k],
        )
}

fn node_element(raw: &RawNode) -> (e: Element)
    ensures
        is_raw_node(e, *raw),
{
    Element::Node { id: NodeID(raw.id), lon: raw.lon, lat: raw.lat, tags: Tags::collect(&raw.tags) }
}

fn way_element(raw: &RawWay) -> (e: Element)
    ensures
        is_raw_way(e, *raw),
{
    let mut node_ids: Vec<NodeID> = Vec::new();
    let mut r: usize = 0;
    while r < raw.refs.len()
        invariant
            r <= raw.refs@.len(),
            node_ids@ == node_ids_of(raw.refs@.take(r as int)),
        decreases raw.refs@.len() - r,
    {
        node_ids.push(NodeID(raw.refs[r]));
        assert(node_ids@ =~= node_ids_of(raw.refs@.take(r + 1)));
        r += 1;
    }
    assert(raw.refs@.take(r as int) =~= raw.refs@);
    Element::Way { id: WayID(raw.id), node_ids, tags: Tags::collect(&raw.tags) }
}

fn relation_element(raw: &RawRelation) -> (e: Option<Element>)
    ensures
        e is Some <==> roles_known(raw.members@),
        e matches Some(relation) ==> is_raw_relation(relation, *raw),
{
    let mut members: Vec<(String, OsmID)> = Vec::new();
    let mut k: usize = 0;
    while k < raw.members.len()
        invariant
            k <= raw.members@.len(),
            members@.len() == k,
            forall|j: int| 0 <= j < k ==> (#[trigger] raw.members@[j]).role is Some,
            forall|j: int|
                0 <= j < k ==> Some(((#[trigger] members@[j]).0@, members@[j].1)) == member_of(
                    raw.members@[j],
                ),
        decreases raw.members@.len() - k,
    {
        let role = match &raw.members[k].role {
            Some(role) => role.clone(),
            None => {
                return None;
            },
        };
        let id = match raw.members[k].kind {
            MemberKind::Node => OsmID::Node(NodeID(raw.members[k].id)),
            MemberKind::Way => OsmID::Way(WayID(raw.members[k].id)),
            MemberKind::Relation => OsmID::Relation(RelationID(raw.members[k].id)),
        };
        members.push((role, id));
        k += 1;
    }
    Some(Element::Relation { id: RelationID(raw.id), tags: Tags::collect(&raw.tags), members })
}

/// What the elements that were decoded out of an extract in PBF come to: the nodes in their
/// order, then the ways, then the relations, each as an element; or `InputMalformed` where a
/// member of a relation has no role.
pub open spec fn pbf_read(decoded: Seq<RawElement>, read: Result<Vec<Element>, Error>) -> bool {
    match read {
        Ok(elements) => {
            &&& all_roles_known(decoded)
            &&& assembled(
                nodes_among(decoded, decoded.len()),
                ways_among(decoded, decoded.len()),
                relations_among(decoded, decoded.len()),
                elements@,
            )
        },
        Err(e) => e == Error::InputMalformed && !all_roles_known(decoded),
    }
}

/// Puts the elements together that were decoded out of an extract in PBF: the nodes, then the
/// ways, then the relations.
pub fn parse_pbf(decoded: &Vec<RawElement>) -> (read: Result<Vec<Element>, Error>)
    ensures
        pbf_read(decoded@, read),
{
    let n = decoded.len();
    let mut elements: Vec<Element> = Vec::new();
    let mut k: usize = 0;
    while k < n
        invariant
            k <= n,
            n == decoded@.len(),
            assembled(nodes_among(decoded@, k as nat), Seq::empty(), Seq::empty(), elements@),
        decreases n - k,
    {
        match &decoded[k] {
            RawElement::Node(raw) => {
                elements.push(node_element(raw));
            },
            _ => {},
        }
        k += 1;
    }
    let ghost ns = nodes_among(decoded@, n as nat);
    let mut k: usize = 0;
    while k < n
        invariant
            k <= n,
            n == decoded@.len(),
            assembled(ns, ways_among(decoded@, k as nat), Seq::empty(), elements@),
        decreases n - k,
    {
        let ghost before = elements@;
        match &decoded[k] {
            RawElement::Way(raw) => {
                elements.push(way_element(raw));
                proof {
                    let found = ways_among(decoded@, k as nat);
                    assert forall|j: int| 0 <= j < found.len() implies is_raw_way(
                        #[trigger] elements@[ns.len() + j],
                        found[j],
                    ) by {
                        assert(elements@[ns.len() + j] == before[ns.len() + j]);
                    }
                }
            },
            _ => {},
        }
        k += 1;
    }
    let ghost ws = ways_among(decoded@, n as nat);
    let mut k: usize = 0;
    while k < n
        invariant
            k <= n,
            n == decoded@.len(),
            assembled(ns, ws, relations_among(decoded@, k as nat), elements@),
            forall|j: int|
                0 <= j < k ==> (#[trigger] decoded@[j] matches RawElement::Relation(relation)
                    ==> roles_known(relation.members@)),
        decreases n - k,
    {
        let ghost before = elements@;
        match &decoded[k] {
            RawElement::Relation(raw) => {
                match relation_element(raw) {
                    Some(relation) => {
                        elements.push(relation);
                    },
                    None => {
                        assert(decoded@[k as int] matches RawElement::Relation(r) && !roles_known(
                            r.members@,
                        ));
                        return Err(Error::InputMalformed);
                    },
                }
                proof {
                    let found = relations_among(decoded@, k as nat);
                    assert forall|j: int| 0 <= j < ws.len() implies is_raw_way(
                        #[trigger] elements@[ns.len() + j],
                        ws[j],
                    ) by {
                        assert(elements@[ns.len() + j] == before[ns.len() + j]);
                    }
                    assert forall|j: int| 0 <= j < found.len() implies is_raw_relation(
                        #[trigger] elements@[ns.len() + ws.len() + j],
                        found[j],
                    ) by {
                        assert(elements@[ns.len() + ws.len() + j] == before[ns.len() + ws.len() + j]);
                    }
                }
            },
            _ => {},
        }
        k += 1;
    }
    Ok(elements)
}

/// What reading an extract comes to. Bytes that start like an XML document are read as XML.
/// Other bytes are taken for PBF, and the elements that were decoded out of them are put
/// together; where none could be decoded, the extract is malformed.
pub open spec fn parsed_as(
    bytes: Seq<u8>,
    decoded: Option<Seq<RawElement>>,
    read: Result<Vec<Element>, Error>,
) -> bool {
    if looks_like_xml(bytes) {
        xml_parsed(bytes, read)
    } else {
        match decoded {
            Some(all) => pbf_read(all, read),
            None => read == Err::<Vec<Element>, Error>(Error::InputMalformed),
        }
    }
}

/// The elements that were decoded, as a sequence.
pub open spec fn decoded_view(decoded: Option<&Vec<RawElement>>) -> Option<Seq<RawElement>> {
    match decoded {
        Some(all) => Some(all@),
        None => None,
    }
}

/// Reads the elements out of an extract: as XML where the bytes start like an XML document, as
/// PBF otherwise. The nodes come before the ways and the ways before the relations.
///
/// The library reads XML itself. Of an extract in PBF it takes what a decoder has handed out,
/// in `decoded`: `None` where the decoder could not read the bytes. For bytes that start like
/// XML, `decoded` is not looked at.
pub fn parse(input_bytes: &[u8], decoded: Option<&Vec<RawElement>>) -> (read: Result<Vec<Element>, Error>)
    ensures
        parsed_as(input_bytes@, decoded_view(decoded), read),
{
    if is_xml(input_bytes) {
        parse_xml(input_bytes)
    } else {
        match decoded {
            Some(all) => parse_pbf(all),
            None => Err(Error::InputMalformed),
        }
    }
}

/// Reads the elements out of an extract in OSM XML.
pub fn parse_osm(input_bytes: &[u8]) -> (read: Result<Vec<Element>, Error>)
    ensures
        xml_parsed(input_bytes@, read),
{
    parse_xml(input_bytes)
}

} // verus!
