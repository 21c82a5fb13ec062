//! Identifiers of OpenStreetMap elements.

use vstd::prelude::*;
use vstd::string::StringExecFns;

verus! {

/// The character that writes a digit.
pub open spec fn digit_char(d: nat) -> char {
    if d == 0 {
        '0'
    } else if d == 1 {
        '1'
    } else if d == 2 {
        '2'
    } else if d == 3 {
        '3'
    } else if d == 4 {
        '4'
    } else if d == 5 {
        '5'
    } else if d == 6 {
        '6'
    } else if d == 7 {
        '7'
    } else if d == 8 {
        '8'
    } else {
        '9'
    }
}

/// The decimal digits of a number, the most significant first.
pub open spec fn digits(n: nat) -> Seq<char>
    decreases n,
{
    if n < 10 {
        seq![digit_char(n)]
    } else {
        digits(n / 10).push(digit_char(n % 10))
    }
}

/// A number written in decimal digits, with a minus sign where it is less than nothing.
pub open spec fn decimal_text(n: i64) -> Seq<char> {
    if n < 0 {
        seq!['-'] + digits((-n) as nat)
    } else {
        digits(n as nat)
    }
}

/// The digits that the first `k` items of `low_first` write when they are read from the last
/// to the first.
spec fn written(low_first: Seq<u8>, k: nat) -> Seq<char>
    decreases k,
{
    if k == 0 {
        Seq::empty()
    } else {
        seq![digit_char(low_first[k - 1] as nat)] + written(low_first, (k - 1) as nat)
    }
}

proof fn lemma_written_push(low_first: Seq<u8>, d: u8, k: nat)
    requires
        k <= low_first.len(),
    ensures
        written(low_first.push(d), k) == written(low_first, k),
    decreases k,
{
    if k > 0 {
        lemma_written_push(low_first, d, (k - 1) as nat);
    }
}

fn digit_text(d: u8) -> (text: &'static str)
    requires
        d < 10,
    ensures
        text@ == seq![digit_char(d as nat)],
{
    proof {
        reveal_strlit("0");
        reveal_strlit("1");
        reveal_strlit("2");
        reveal_strlit("3");
        reveal_strlit("4");
        reveal_strlit("5");
        reveal_strlit("6");
        reveal_strlit("7");
        reveal_strlit("8");
        reveal_strlit("9");
    }
    let text = match d {
        0 => "0",
        1 => "1",
        2 => "2",
        3 => "3",
        4 => "4",
        5 => "5",
        6 => "6",
        7 => "7",
        8 => "8",
        _ => "9",
    };
    assert(text@ =~= seq![digit_char(d as nat)]);
    text
}

/// Writes a number in decimal digits behind a text.
pub fn append_decimal(text: &mut String, n: i64)
    ensures
        final(text)@ == old(text)@ + decimal_text(n),
{
    let mut rest: u64 = if n < 0 {
        proof {
            reveal_strlit("-");
        }
        text.append("-");
        assert(text@ =~= old(text)@ + seq!['-']);
        (-(n as i128)) as u64
    } else {
        n as u64
    };
    let ghost start = text@;
    let ghost size = rest;
    let mut low_first: Vec<u8> = Vec::new();
    while rest >= 10
        invariant
            forall|j: int| 0 <= j < low_first@.len() ==> low_first@[j] < 10,
            digits(size as nat) == digits(rest as nat) + written(low_first@, low_first@.len()),
        decreases rest,
    {
        let d = (rest % 10) as u8;
        proof {
            lemma_written_push(low_first@, d, low_first@.len());
            assert(digits(rest as nat) + written(low_first@, low_first@.len()) =~= digits(
                (rest / 10) as nat,
            ) + (seq![digit_char(d as nat)] + written(low_first@, low_first@.len())));
        }
        low_first.push(d);
        rest = rest / 10;
    }
    proof {
        lemma_written_push(low_first@, rest as u8, low_first@.len());
    }
    low_first.push(rest as u8);
    assert(digits(size as nat) =~= written(low_first@, low_first@.len()));
    let mut k: usize = low_first.len();
    while k > 0
        invariant
            k <= low_first@.len(),
            forall|j: int| 0 <= j < low_first@.len() ==> low_first@[j] < 10,
            text@ + written(low_first@, k as nat) == start + written(low_first@, low_first@.len()),
        decreases k,
    {
        let ghost before = text@;
        text.append(digit_text(low_first[k - 1]));
        assert(text@ + written(low_first@, (k - 1) as nat) =~= before + written(
            low_first@,
            k as nat,
        ));
        k -= 1;
    }
    assert(text@ =~= start + digits(size as nat));
    assert(text@ =~= old(text)@ + decimal_text(n));
}

/// The identifier of an OSM node.
#[derive(Clone, Copy, Debug, PartialEq, Eq, Structural, Hash)]
pub struct NodeID(pub i64);

/// The identifier of an OSM way.
#[derive(Clone, Copy, Debug, PartialEq, Eq, Structural, Hash)]
pub struct WayID(pub i64);

/// The identifier of an OSM relation.
#[derive(Clone, Copy, Debug, PartialEq, Eq, Structural, Hash)]
pub struct RelationID(pub i64);

/// The identifier of any OSM element.
#[derive(Clone, Copy, Debug, PartialEq, Eq, Structural, Hash)]
pub enum OsmID {
    Node(NodeID),
    Way(WayID),
    Relation(RelationID),
}

impl NodeID {
    /// Where the node is shown on openstreetmap.org.
    pub fn url(&self) -> (url: String)
        ensures
            url@ == "https://www.openstreetmap.org/node/"@ + decimal_text(self.0),
    {
        let mut url = String::from_str("https://www.openstreetmap.org/node/");
        append_decimal(&mut url, self.0);
        url
    }
}

impl WayID {
    /// Where the way is shown on openstreetmap.org.
    pub fn url(&self) -> (url: String)
        ensures
            url@ == "https://www.openstreetmap.org/way/"@ + decimal_text(self.0),
    {
        let mut url = String::from_str("https://www.openstreetmap.org/way/");
        append_decimal(&mut url, self.0);
        url
    }
}

impl RelationID {
    /// Where the relation is shown on openstreetmap.org.
    pub fn url(&self) -> (url: String)
        ensures
            url@ == "https://www.openstreetmap.org/relation/"@ + decimal_text(self.0),
    {
        let mut url = String::from_str("https://www.openstreetmap.org/relation/");
        append_decimal(&mut url, self.0);
        url
    }
}

impl OsmID {
    /// Where the element is shown on openstreetmap.org.
    pub fn url(&self) -> (url: String)
        ensures
            url@ == match *self {
                OsmID::Node(n) => "https://www.openstreetmap.org/node/"@ + decimal_text(n.0),
                OsmID::Way(w) => "https://www.openstreetmap.org/way/"@ + decimal_text(w.0),
                OsmID::Relation(r) => "https://www.openstreetmap.org/relation/"@ + decimal_text(r.0),
            },
    {
        match self {
            OsmID::Node(n) => n.url(),
            OsmID::Way(w) => w.url(),
            OsmID::Relation(r) => r.url(),
        }
    }

    /// The number behind the identifier, whatever kind of element it names.
    pub open spec fn number(self) -> i64 {
        match self {
            OsmID::Node(n) => n.0,
            OsmID::Way(w) => w.0,
            OsmID::Relation(r) => r.0,
        }
    }

    /// The number behind the identifier.
    pub fn inner(&self) -> (n: i64)
        ensures
            n == self.number(),
    {
        match self {
            OsmID::Node(n) => n.0,
            OsmID::Way(w) => w.0,
            OsmID::Relation(r) => r.0,
        }
    }
}

} // verus!
