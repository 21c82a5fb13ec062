use severance::decimal::{parse_e7, parse_i64};
use severance::error::Error;
use severance::osm::{NodeID, OsmID, RelationID, WayID};
use severance::osm_reader::{
    is_xml, parse, parse_osm, parse_pbf, parse_xml, Element, MemberKind, RawElement, RawMember,
    RawNode, RawRelation, RawWay,
};

#[test]
fn is_xml_looks_at_first_five_bytes() {
    assert!(is_xml(b"<?xml version=\"1.0\"?><osm/>"));
    assert!(is_xml(b"<?XML"));
    assert!(is_xml(b"<?xMl something"));
    assert!(!is_xml(b"<?xm"));
    assert!(!is_xml(b""));
    assert!(!is_xml(b" <?xml"));
    assert!(!is_xml(b"<osm>"));
    assert!(!is_xml(&[0, 0, 0, 13, 10]));
}

const EXTRACT: &str = r#"<?xml version="1.0" encoding="UTF-8"?>
<osm version="0.6">
  <bounds minlat="51.0" minlon="-0.2" maxlat="51.1" maxlon="-0.1"/>
  <node id="1" lat="51.5007" lon="-0.1246">
    <tag k="highway" v="crossing"/>
    <tag k="crossing" v="traffic_signals"/>
  </node>
  <node id="2" lat="51.50075" lon="0.12461234567"/>
  <node id="-3" lat="-51" lon="+7."/>
  <way id="10">
    <nd ref="1"/>
    <nd ref="2"/>
    <nd ref="-3"/>
    <tag k="highway" v="primary"/>
    <tag k="name" v="A &amp; B"/>
  </way>
  <relation id="20">
    <member type="node" ref="1" role="stop"/>
    <member type="way" ref="10" role=""/>
    <member type="relation" ref="21" role="sub"/>
    <member type="changeset" ref="5" role="odd"/>
    <tag k="type" v="route"/>
  </relation>
</osm>
"#;

#[test]
fn parse_xml_reads_elements_in_order() {
    let elements = parse_xml(EXTRACT.as_bytes()).unwrap();
    assert_eq!(elements.len(), 5);
    match &elements[0] {
        Element::Node { id, lon, lat, tags } => {
            assert_eq!(*id, NodeID(1));
            assert_eq!(*lon, -1_246_000);
            assert_eq!(*lat, 515_007_000);
            assert_eq!(tags.len(), 2);
            assert!(tags.is("highway", "crossing"));
            assert!(tags.is("crossing", "traffic_signals"));
        }
        other => panic!("not a node: {other:?}"),
    }
    match &elements[1] {
        Element::Node { id, lon, lat, tags } => {
            assert_eq!(*id, NodeID(2));
            assert_eq!(*lon, 1_246_123);
            assert_eq!(*lat, 515_007_500);
            assert_eq!(tags.len(), 0);
        }
        other => panic!("not a node: {other:?}"),
    }
    match &elements[2] {
        Element::Node { id, lon, lat, .. } => {
            assert_eq!(*id, NodeID(-3));
            assert_eq!(*lon, 70_000_000);
            assert_eq!(*lat, -510_000_000);
        }
        other => panic!("not a node: {other:?}"),
    }
    match &elements[3] {
        Element::Way { id, node_ids, tags } => {
            assert_eq!(*id, WayID(10));
            assert_eq!(node_ids, &vec![NodeID(1), NodeID(2), NodeID(-3)]);
            assert!(tags.is("highway", "primary"));
            assert!(tags.is("name", "A & B"));
        }
        other => panic!("not a way: {other:?}"),
    }
    match &elements[4] {
        Element::Relation { id, tags, members } => {
            assert_eq!(*id, RelationID(20));
            assert!(tags.is("type", "route"));
            assert_eq!(
                members,
                &vec![
                    ("stop".to_string(), OsmID::Node(NodeID(1))),
                    ("".to_string(), OsmID::Way(WayID(10))),
                    ("sub".to_string(), OsmID::Relation(RelationID(21))),
                ]
            );
        }
        other => panic!("not a relation: {other:?}"),
    }
}

#[test]
fn parse_picks_xml_by_header() {
    let elements = parse(EXTRACT.as_bytes(), None).unwrap();
    assert_eq!(elements.len(), 5);
    let elements = parse_osm(EXTRACT.as_bytes()).unwrap();
    assert_eq!(elements.len(), 5);
}

#[test]
fn malformed_xml_is_rejected() {
    assert_eq!(parse_xml(b"<?xml version=\"1.0\"?><osm><node id=\"1\"").err(), Some(Error::InputMalformed));
    assert_eq!(parse_xml(&[0xff, 0xfe, 0x00]).err(), Some(Error::InputMalformed));
    // no identifier
    assert_eq!(
        parse_xml(b"<osm><node lat=\"1\" lon=\"2\"/></osm>").err(),
        Some(Error::InputMalformed)
    );
    // an identifier that is no number
    assert_eq!(
        parse_xml(b"<osm><node id=\"one\" lat=\"1\" lon=\"2\"/></osm>").err(),
        Some(Error::InputMalformed)
    );
    // no longitude
    assert_eq!(parse_xml(b"<osm><node id=\"1\" lat=\"1\"/></osm>").err(), Some(Error::InputMalformed));
    // a latitude that is no number
    assert_eq!(
        parse_xml(b"<osm><node id=\"1\" lat=\"north\" lon=\"2\"/></osm>").err(),
        Some(Error::InputMalformed)
    );
    // a tag without a value
    assert_eq!(
        parse_xml(b"<osm><way id=\"1\"><tag k=\"highway\"/></way></osm>").err(),
        Some(Error::InputMalformed)
    );
    // a reference that is no number
    assert_eq!(
        parse_xml(b"<osm><way id=\"1\"><nd ref=\"x\"/></way></osm>").err(),
        Some(Error::InputMalformed)
    );
    // a member without a role
    assert_eq!(
        parse_xml(b"<osm><relation id=\"1\"><member type=\"way\" ref=\"2\"/></relation></osm>").err(),
        Some(Error::InputMalformed)
    );
    // a member without a kind
    assert_eq!(
        parse_xml(b"<osm><relation id=\"1\"><member ref=\"2\" role=\"\"/></relation></osm>").err(),
        Some(Error::InputMalformed)
    );
}

#[test]
fn xml_without_elements_is_empty() {
    assert_eq!(parse_xml(b"<osm><bounds/><note>hello</note></osm>").unwrap().len(), 0);
}

#[test]
fn parse_e7_reads_decimal_degrees() {
    assert_eq!(parse_e7("0"), Some(0));
    assert_eq!(parse_e7("51.5"), Some(515_000_000));
    assert_eq!(parse_e7("-0.1276"), Some(-1_276_000));
    assert_eq!(parse_e7("+12.3456789"), Some(123_456_789));
    assert_eq!(parse_e7("12.34567891"), Some(123_456_789));
    assert_eq!(parse_e7("12.34567899999"), Some(123_456_789));
    assert_eq!(parse_e7("-12.34567899999"), Some(-123_456_789));
    assert_eq!(parse_e7(".5"), Some(5_000_000));
    assert_eq!(parse_e7("7."), Some(70_000_000));
    assert_eq!(parse_e7("-0"), Some(0));
    assert_eq!(parse_e7("007.100"), Some(71_000_000));
    assert_eq!(parse_e7("214.7483647"), Some(2_147_483_647));
    assert_eq!(parse_e7("-214.7483647"), Some(-2_147_483_647));
    assert_eq!(parse_e7("214.7483648"), None);
    assert_eq!(parse_e7("215"), None);
    assert_eq!(parse_e7("99999999999999999999999999"), None);
    assert_eq!(parse_e7(""), None);
    assert_eq!(parse_e7("-"), None);
    assert_eq!(parse_e7("."), None);
    assert_eq!(parse_e7("-."), None);
    assert_eq!(parse_e7("1e5"), None);
    assert_eq!(parse_e7("1.2.3"), None);
    assert_eq!(parse_e7(" 1"), None);
    assert_eq!(parse_e7("1 "), None);
    assert_eq!(parse_e7("1,5"), None);
    assert_eq!(parse_e7("--1"), None);
    assert_eq!(parse_e7("1.5x"), None);
}

#[test]
fn parse_i64_reads_whole_numbers() {
    assert_eq!(parse_i64("0"), Some(0));
    assert_eq!(parse_i64("42"), Some(42));
    assert_eq!(parse_i64("-42"), Some(-42));
    assert_eq!(parse_i64("+42"), Some(42));
    assert_eq!(parse_i64("-0"), Some(0));
    assert_eq!(parse_i64("007"), Some(7));
    assert_eq!(parse_i64("9223372036854775807"), Some(i64::MAX));
    assert_eq!(parse_i64("-9223372036854775808"), Some(i64::MIN));
    assert_eq!(parse_i64("9223372036854775808"), None);
    assert_eq!(parse_i64("-9223372036854775809"), None);
    assert_eq!(parse_i64("99999999999999999999999999999"), None);
    assert_eq!(parse_i64(""), None);
    assert_eq!(parse_i64("-"), None);
    assert_eq!(parse_i64("+"), None);
    assert_eq!(parse_i64("1.0"), None);
    assert_eq!(parse_i64(" 1"), None);
    assert_eq!(parse_i64("1 "), None);
    assert_eq!(parse_i64("0x10"), None);
    assert_eq!(parse_i64("--1"), None);
    assert_eq!(parse_i64("1e3"), None);
    // the same as the standard library reads
    for text in ["0", "-17", "+5", "", "-", "12a", "9223372036854775808", "٣"] {
        assert_eq!(parse_i64(text), text.parse::<i64>().ok());
    }
}

#[test]
fn osm_ids_show_as_urls() {
    assert_eq!(NodeID(42).url(), "https://www.openstreetmap.org/node/42");
    assert_eq!(WayID(1120402115).url(), "https://www.openstreetmap.org/way/1120402115");
    assert_eq!(RelationID(-7).url(), "https://www.openstreetmap.org/relation/-7");
    assert_eq!(OsmID::Node(NodeID(1)).url(), "https://www.openstreetmap.org/node/1");
    assert_eq!(OsmID::Way(WayID(2)).url(), "https://www.openstreetmap.org/way/2");
    assert_eq!(OsmID::Relation(RelationID(3)).url(), "https://www.openstreetmap.org/relation/3");
    assert_eq!(OsmID::Way(WayID(2)).inner(), 2);
    assert_eq!(OsmID::Node(NodeID(i64::MIN)).inner(), i64::MIN);
    assert_eq!(
        NodeID(i64::MIN).url(),
        "https://www.openstreetmap.org/node/-9223372036854775808"
    );
    assert_eq!(NodeID(i64::MAX).url(), "https://www.openstreetmap.org/node/9223372036854775807");
    assert_eq!(NodeID(0).url(), "https://www.openstreetmap.org/node/0");
    assert_eq!(WayID(-10).url(), "https://www.openstreetmap.org/way/-10");
    assert_eq!(WayID(1_000_000).url(), "https://www.openstreetmap.org/way/1000000");
}

// A small encoder for the wire format of protocol buffers, to write PBF extracts by hand.

fn varint(mut n: u64, out: &mut Vec<u8>) {
    while n >= 0x80 {
        out.push((n as u8 & 0x7f) | 0x80);
        n >>= 7;
    }
    out.push(n as u8);
}

fn zigzag(n: i64) -> u64 {
    ((n << 1) ^ (n >> 63)) as u64
}

fn field_varint(field: u64, n: u64, out: &mut Vec<u8>) {
    varint(field << 3, out);
    varint(n, out);
}

fn field_bytes(field: u64, bytes: &[u8], out: &mut Vec<u8>) {
    varint((field << 3) | 2, out);
    varint(bytes.len() as u64, out);
    out.extend_from_slice(bytes);
}

fn packed(numbers: &[u64]) -> Vec<u8> {
    let mut out = Vec::new();
    for n in numbers {
        varint(*n, &mut out);
    }
    out
}

fn string_table(strings: &[&str]) -> Vec<u8> {
    let mut out = Vec::new();
    for s in strings {
        field_bytes(1, s.as_bytes(), &mut out);
    }
    out
}

fn blob(kind: &str, data: &[u8]) -> Vec<u8> {
    let mut body = Vec::new();
    field_bytes(1, data, &mut body);
    field_varint(2, data.len() as u64, &mut body);
    let mut header = Vec::new();
    field_bytes(1, kind.as_bytes(), &mut header);
    field_varint(3, body.len() as u64, &mut header);
    let mut out = Vec::new();
    out.extend_from_slice(&(header.len() as u32).to_be_bytes());
    out.extend_from_slice(&header);
    out.extend_from_slice(&body);
    out
}

fn block(strings: &[&str], groups: &[Vec<u8>]) -> Vec<u8> {
    let mut out = Vec::new();
    field_bytes(1, &string_table(strings), &mut out);
    for g in groups {
        field_bytes(2, g, &mut out);
    }
    out
}

fn text((key, value): (&str, &str)) -> (String, String) {
    (key.to_string(), value.to_string())
}

fn member(m: osmpbf::RelMember) -> RawMember {
    RawMember {
        role: m.role().ok().map(str::to_string),
        kind: match m.member_type {
            osmpbf::RelMemberType::Node => MemberKind::Node,
            osmpbf::RelMemberType::Way => MemberKind::Way,
            osmpbf::RelMemberType::Relation => MemberKind::Relation,
        },
        id: m.member_id,
    }
}

/// What `osmpbf` hands out for the bytes, in its order.
fn decode(bytes: &[u8]) -> Option<Vec<RawElement>> {
    let mut out = Vec::new();
    let read = osmpbf::ElementReader::new(bytes).for_each(|element| {
        out.push(match element {
            osmpbf::Element::Node(n) => RawElement::Node(RawNode {
                id: n.id(),
                lon: n.decimicro_lon(),
                lat: n.decimicro_lat(),
                tags: n.tags().map(text).collect(),
            }),
            osmpbf::Element::DenseNode(n) => RawElement::Node(RawNode {
                id: n.id(),
                lon: n.decimicro_lon(),
                lat: n.decimicro_lat(),
                tags: n.tags().map(text).collect(),
            }),
            osmpbf::Element::Way(w) => RawElement::Way(RawWay {
                id: w.id(),
                refs: w.refs().collect(),
                tags: w.tags().map(text).collect(),
            }),
            osmpbf::Element::Relation(r) => RawElement::Relation(RawRelation {
                id: r.id(),
                tags: r.tags().map(text).collect(),
                members: r.members().map(member).collect(),
            }),
        })
    });
    read.ok().map(|_| out)
}

fn read_pbf(bytes: &[u8]) -> Result<Vec<Element>, Error> {
    parse(bytes, decode(bytes).as_ref())
}

fn pbf_extract(role_sid: u64, first_kind: u64) -> Vec<u8> {
    let strings = ["", "highway", "crossing", "primary", "stop", "name", "Mill Lane"];
    // a node with the identifier 7 at 51.5° north, 0.125° west, tagged highway=crossing
    let mut node = Vec::new();
    field_varint(1, zigzag(7), &mut node);
    field_bytes(2, &packed(&[1]), &mut node);
    field_bytes(3, &packed(&[2]), &mut node);
    field_varint(8, zigzag(515_000_000), &mut node);
    field_varint(9, zigzag(-1_250_000), &mut node);
    let mut nodes = Vec::new();
    field_bytes(1, &node, &mut nodes);
    // three dense nodes with the identifiers 8, 9 and 12; the second is tagged
    let mut dense = Vec::new();
    field_bytes(1, &packed(&[zigzag(8), zigzag(1), zigzag(3)]), &mut dense);
    field_bytes(8, &packed(&[zigzag(10), zigzag(10), zigzag(-30)]), &mut dense);
    field_bytes(9, &packed(&[zigzag(-5), zigzag(0), zigzag(5)]), &mut dense);
    field_bytes(10, &packed(&[0, 5, 6, 0, 0]), &mut dense);
    let mut dense_group = Vec::new();
    field_bytes(2, &dense, &mut dense_group);
    // a way through the nodes 7, 8, 9, tagged highway=primary
    let mut way = Vec::new();
    field_varint(1, 30, &mut way);
    field_bytes(2, &packed(&[1]), &mut way);
    field_bytes(3, &packed(&[3]), &mut way);
    field_bytes(8, &packed(&[zigzag(7), zigzag(1), zigzag(1)]), &mut way);
    let mut ways = Vec::new();
    field_bytes(3, &way, &mut ways);
    // a relation with the node 7 and the way 30 as members
    let mut relation = Vec::new();
    field_varint(1, 40, &mut relation);
    field_bytes(8, &packed(&[role_sid, 0]), &mut relation);
    field_bytes(9, &packed(&[zigzag(7), zigzag(23)]), &mut relation);
    field_bytes(10, &packed(&[first_kind, 1]), &mut relation);
    let mut relations = Vec::new();
    field_bytes(4, &relation, &mut relations);
    blob("OSMData", &block(&strings, &[nodes, dense_group, ways, relations]))
}

#[test]
fn parse_pbf_reads_elements_in_order() {
    let bytes = pbf_extract(4, 0);
    assert!(!is_xml(&bytes));
    let elements = read_pbf(&bytes).unwrap();
    assert_eq!(elements.len(), 6);
    match &elements[0] {
        Element::Node { id, lon, lat, tags } => {
            assert_eq!(*id, NodeID(7));
            assert_eq!(*lon, -1_250_000);
            assert_eq!(*lat, 515_000_000);
            assert_eq!(tags.len(), 1);
            assert!(tags.is("highway", "crossing"));
        }
        other => panic!("not a node: {other:?}"),
    }
    match &elements[1] {
        Element::Node { id, lon, lat, tags } => {
            assert_eq!(*id, NodeID(8));
            assert_eq!(*lon, -5);
            assert_eq!(*lat, 10);
            assert_eq!(tags.len(), 0);
        }
        other => panic!("not a node: {other:?}"),
    }
    match &elements[2] {
        Element::Node { id, lon, lat, tags } => {
            assert_eq!(*id, NodeID(9));
            assert_eq!(*lon, -5);
            assert_eq!(*lat, 20);
            assert!(tags.is("name", "Mill Lane"));
        }
        other => panic!("not a node: {other:?}"),
    }
    match &elements[3] {
        Element::Node { id, lon, lat, .. } => {
            assert_eq!(*id, NodeID(12));
            assert_eq!(*lon, 0);
            assert_eq!(*lat, -10);
        }
        other => panic!("not a node: {other:?}"),
    }
    match &elements[4] {
        Element::Way { id, node_ids, tags } => {
            assert_eq!(*id, WayID(30));
            assert_eq!(node_ids, &vec![NodeID(7), NodeID(8), NodeID(9)]);
            assert!(tags.is("highway", "primary"));
        }
        other => panic!("not a way: {other:?}"),
    }
    match &elements[5] {
        Element::Relation { id, tags, members } => {
            assert_eq!(*id, RelationID(40));
            assert_eq!(tags.len(), 0);
            assert_eq!(
                members,
                &vec![
                    ("stop".to_string(), OsmID::Node(NodeID(7))),
                    ("".to_string(), OsmID::Way(WayID(30))),
                ]
            );
        }
        other => panic!("not a relation: {other:?}"),
    }
    // the header decides: these bytes are read as PBF
    assert_eq!(parse_pbf(&decode(&bytes).unwrap()).unwrap().len(), 6);
}

#[test]
fn pbf_member_without_role_is_rejected() {
    // the role names a string that the extract does not hold
    assert_eq!(read_pbf(&pbf_extract(99, 0)).err(), Some(Error::InputMalformed));
    // the first member is a relation
    match &read_pbf(&pbf_extract(4, 2)).unwrap()[5] {
        Element::Relation { members, .. } => {
            assert_eq!(members[0], ("stop".to_string(), OsmID::Relation(RelationID(7))));
        }
        other => panic!("not a relation: {other:?}"),
    }
}

#[test]
fn pbf_nodes_keep_the_order_of_the_extract() {
    let ids: Vec<i64> = read_pbf(&pbf_extract(4, 0))
        .unwrap()
        .iter()
        .filter_map(|e| match e {
            Element::Node { id, .. } => Some(id.0),
            _ => None,
        })
        .collect();
    assert_eq!(ids, vec![7, 8, 9, 12]);
}

fn raw_world(role: Option<&str>) -> Vec<RawElement> {
    let tags = |k: &str, v: &str| vec![(k.to_string(), v.to_string())];
    vec![
        // the way stands first here, and comes out after the nodes all the same
        RawElement::Way(RawWay { id: 5, refs: vec![1, 1], tags: tags("highway", "path") }),
        RawElement::Node(RawNode { id: 1, lon: 2, lat: 3, tags: vec![] }),
        RawElement::Relation(RawRelation {
            id: 9,
            tags: tags("type", "route"),
            members: vec![
                RawMember { role: Some("via".to_string()), kind: MemberKind::Way, id: 5 },
                RawMember { role: role.map(str::to_string), kind: MemberKind::Node, id: 1 },
            ],
        }),
        RawElement::Node(RawNode { id: 4, lon: -2, lat: -3, tags: tags("a", "b") }),
    ]
}

#[test]
fn decoded_elements_are_put_in_order() {
    let elements = parse_pbf(&raw_world(Some(""))).unwrap();
    assert_eq!(elements.len(), 4);
    assert!(matches!(&elements[0], Element::Node { id, lon: 2, lat: 3, .. } if *id == NodeID(1)));
    assert!(matches!(&elements[1], Element::Node { id, lon: -2, lat: -3, tags } if *id == NodeID(4) && tags.is("a", "b")));
    match &elements[2] {
        Element::Way { id, node_ids, tags } => {
            assert_eq!(*id, WayID(5));
            assert_eq!(node_ids, &vec![NodeID(1), NodeID(1)]);
            assert!(tags.is("highway", "path"));
        }
        other => panic!("not a way: {other:?}"),
    }
    match &elements[3] {
        Element::Relation { id, tags, members } => {
            assert_eq!(*id, RelationID(9));
            assert!(tags.is("type", "route"));
            assert_eq!(
                members,
                &vec![
                    ("via".to_string(), OsmID::Way(WayID(5))),
                    ("".to_string(), OsmID::Node(NodeID(1))),
                ]
            );
        }
        other => panic!("not a relation: {other:?}"),
    }
    // a member without a role
    assert_eq!(parse_pbf(&raw_world(None)).err(), Some(Error::InputMalformed));
    assert_eq!(parse_pbf(&vec![]).unwrap().len(), 0);
}

#[test]
fn the_first_bytes_decide_the_format() {
    // bytes that start like XML are read as XML, whatever was decoded
    let elements = parse(EXTRACT.as_bytes(), Some(&raw_world(None))).unwrap();
    assert_eq!(elements.len(), parse_xml(EXTRACT.as_bytes()).unwrap().len());
    // other bytes are taken for PBF: what was decoded is put together
    assert_eq!(parse(b"<osm></osm>", Some(&raw_world(Some("x")))).unwrap().len(), 4);
    assert_eq!(parse(b"<osm></osm>", Some(&raw_world(None))).err(), Some(Error::InputMalformed));
    // nothing could be decoded
    assert_eq!(parse(b"<osm></osm>", None).err(), Some(Error::InputMalformed));
    assert_eq!(parse(&[], None).err(), Some(Error::InputMalformed));
}

#[test]
fn malformed_pbf_is_rejected() {
    assert_eq!(read_pbf(&[0, 0, 0, 5, 1, 2, 3]).err(), Some(Error::InputMalformed));
    assert_eq!(read_pbf(b"<osm></osm>").err(), Some(Error::InputMalformed));
    let mut cut = pbf_extract(4, 0);
    cut.truncate(cut.len() - 10);
    assert_eq!(read_pbf(&cut).err(), Some(Error::InputMalformed));
}

#[test]
fn empty_pbf_has_no_elements() {
    assert_eq!(read_pbf(&[]).unwrap().len(), 0);
}

#[test]
fn error_messages() {
    assert_eq!(Error::InputMalformed.message(), "the input is not valid OSM data");
    assert_eq!(Error::EmptyArea.message(), "the area holds no walking network");
    assert_eq!(Error::NotSnappable.message(), "no road is near the point");
    assert_eq!(Error::NoPath.message(), "no path leads from the start to the end");
    assert_eq!(
        Error::DegenerateInput.message(),
        "the start and the end are the same intersection"
    );
    assert_eq!(Error::UnknownProfile.message(), "no profile has this name");
}

#[test]
fn attributes_are_found_by_their_local_name() {
    let text = r#"<?xml version="1.0"?>
<osm xmlns:x="http://example.org/x">
  <node x:id="5" lat="1.5" x:lon="-2.5" lon="3.5"/>
</osm>"#;
    let elements = parse_xml(text.as_bytes()).unwrap();
    assert_eq!(elements.len(), 1);
    match &elements[0] {
        Element::Node { id, lon, lat, .. } => {
            assert_eq!(*id, NodeID(5));
            // the first attribute of the name, whatever its prefix
            assert_eq!(*lon, -25_000_000);
            assert_eq!(*lat, 15_000_000);
        }
        other => panic!("not a node: {other:?}"),
    }
}
