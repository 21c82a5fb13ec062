//! Classifying a tagged way as a kind of road, under a regional profile.

use crate::tags::{tag_has, tag_is, tag_is_any, Tags};
use vstd::prelude::*;

verus! {

/// How pedestrians are let across at a crossing.
#[derive(Clone, Copy, Debug, PartialEq, Eq, Structural)]
pub enum CrossingKind {
    Signalized,
    Zebra,
    Other,
}

/// What a road is to somebody on foot.
#[derive(Clone, Copy, Debug, PartialEq, Eq, Structural)]
pub enum RoadKind {
    /// Sidewalks and other ways made for walking.
    Footway,
    /// A tagged crossing.
    Crossing(CrossingKind),
    /// A big road that can only be crossed at crossings.
    Severance,
    /// Any other road that lets pedestrians walk along it and cross it anywhere.
    WithTraffic,
}

/// The regional rules by which ways are classified.
#[derive(Clone, Copy, Debug, PartialEq, Eq, Structural)]
pub enum Profile {
    SeparateWays,
    SidewalksOnHighways,
    USA,
    USAShoulders,
}

/// The kind of crossing that the tags describe.
pub open spec fn crossing_kind(tags: Map<Seq<char>, Seq<char>>) -> CrossingKind {
    if tag_is(tags, "crossing"@, "traffic_signals"@) {
        CrossingKind::Signalized
    } else if tag_is(tags, "crossing"@, "uncontrolled"@) {
        CrossingKind::Zebra
    } else {
        CrossingKind::Other
    }
}

/// The way is no road at all: not a highway, not yet built, or an area.
pub open spec fn not_a_road(tags: Map<Seq<char>, Seq<char>>) -> bool {
    ||| !tag_has(tags, "highway"@)
    ||| tag_is_any(tags, "highway"@, seq!["construction", "proposed"])
    ||| tag_is(tags, "area"@, "yes"@)
}

/// The way is made for walking.
pub open spec fn explicit_footway(tags: Map<Seq<char>, Seq<char>>) -> bool {
    tag_is_any(tags, "highway"@, seq!["footway", "steps", "path", "track", "corridor"])
}

/// The way is a cycleway that lets pedestrians on.
pub open spec fn shared_cycleway(tags: Map<Seq<char>, Seq<char>>) -> bool {
    tag_is(tags, "highway"@, "cycleway"@) && tag_is(tags, "foot"@, "yes"@)
}

/// The way is tagged as a crossing.
pub open spec fn tagged_crossing(tags: Map<Seq<char>, Seq<char>>) -> bool {
    tag_is(tags, "highway"@, "crossing"@) || tag_has(tags, "crossing"@)
}

/// The highway classes that are severances everywhere.
pub open spec fn big_road(tags: Map<Seq<char>, Seq<char>>) -> bool {
    tag_is_any(
        tags,
        "highway"@,
        seq!["motorway", "motorway_link", "trunk", "trunk_link", "primary", "primary_link"],
    )
}

/// The highway classes that are severances under the USA profiles.
pub open spec fn big_road_usa(tags: Map<Seq<char>, Seq<char>>) -> bool {
    tag_is_any(
        tags,
        "highway"@,
        seq![
            "motorway",
            "motorway_link",
            "trunk",
            "trunk_link",
            "primary",
            "primary_link",
            "secondary",
            "secondary_link",
            "tertiary",
            "tertiary_link",
        ],
    )
}

/// The way says that its sidewalks are mapped as ways of their own.
pub open spec fn separate_sidewalk(tags: Map<Seq<char>, Seq<char>>) -> bool {
    ||| tag_is(tags, "sidewalk"@, "separate"@)
    ||| tag_is(tags, "sidewalk:left"@, "separate"@)
    ||| tag_is(tags, "sidewalk:right"@, "separate"@)
    ||| tag_is(tags, "sidewalk:both"@, "separate"@)
}

/// The way is a pedestrian street, or a road with a sidewalk tagged on it.
pub open spec fn walkable_road(tags: Map<Seq<char>, Seq<char>>) -> bool {
    tag_is(tags, "highway"@, "pedestrian"@) || tag_is_any(
        tags,
        "sidewalk"@,
        seq!["both", "right", "left"],
    )
}

/// A smaller road without sidewalk tags, on which walking is not forbidden.
pub open spec fn small_road(tags: Map<Seq<char>, Seq<char>>) -> bool {
    tag_is_any(
        tags,
        "highway"@,
        seq![
            "secondary",
            "secondary_link",
            "tertiary",
            "tertiary_link",
            "residential",
            "unclassified",
            "service",
            "living_street",
        ],
    ) && !tag_is(tags, "foot"@, "no"@)
}

/// The kind of a road under the USA profile, once footways and crossings are dealt with.
pub open spec fn usa_kind(tags: Map<Seq<char>, Seq<char>>) -> RoadKind {
    if big_road_usa(tags) {
        RoadKind::Severance
    } else {
        RoadKind::WithTraffic
    }
}

/// The kind of a road under the USA profile that counts shoulders and cycle streets as walkable.
pub open spec fn usa_shoulders_kind(tags: Map<Seq<char>, Seq<char>>) -> RoadKind {
    if usa_kind(tags) == RoadKind::Severance && (tag_is(tags, "cycleway"@, "shoulder"@) || tag_is(
        tags,
        "cyclestreet"@,
        "yes"@,
    )) {
        RoadKind::WithTraffic
    } else {
        usa_kind(tags)
    }
}

/// The kind of a road outside the USA, once footways and crossings are dealt with. `guess` says
/// whether smaller roads without sidewalk tags are taken to be walkable.
pub open spec fn elsewhere_kind(tags: Map<Seq<char>, Seq<char>>, guess: bool) -> Option<RoadKind> {
    if big_road(tags) {
        Some(RoadKind::Severance)
    } else if separate_sidewalk(tags) {
        None
    } else if walkable_road(tags) {
        Some(RoadKind::WithTraffic)
    } else if small_road(tags) {
        if guess {
            Some(RoadKind::WithTraffic)
        } else {
            None
        }
    } else {
        Some(RoadKind::Severance)
    }
}

/// The kind of road that `profile` makes of a way with the tags `tags`, or `None` where the way
/// has no place in the walking network.
pub open spec fn classify(profile: Profile, tags: Map<Seq<char>, Seq<char>>) -> Option<RoadKind> {
    if not_a_road(tags) {
        None
    } else if explicit_footway(tags) {
        if tag_is(tags, "footway"@, "crossing"@) {
            Some(RoadKind::Crossing(crossing_kind(tags)))
        } else {
            Some(RoadKind::Footway)
        }
    } else if shared_cycleway(tags) {
        Some(RoadKind::Footway)
    } else if tagged_crossing(tags) {
        Some(RoadKind::Crossing(crossing_kind(tags)))
    } else {
        match profile {
            Profile::USA => Some(usa_kind(tags)),
            Profile::USAShoulders => Some(usa_shoulders_kind(tags)),
            Profile::SeparateWays => elsewhere_kind(tags, false),
            Profile::SidewalksOnHighways => elsewhere_kind(tags, true),
        }
    }
}

impl CrossingKind {
    /// Reads the kind of a crossing off its tags.
    pub fn from_tags(tags: &Tags) -> (kind: CrossingKind)
        ensures
            kind == crossing_kind(tags@),
    {
        if tags.is("crossing", "traffic_signals") {
            return CrossingKind::Signalized;
        }
        if tags.is("crossing", "uncontrolled") {
            return CrossingKind::Zebra;
        }
        CrossingKind::Other
    }

    /// The name of the kind, as it is shown to users.
    pub fn name(&self) -> (name: &'static str)
        ensures
            name@ == match *self {
                CrossingKind::Signalized => "Signalized"@,
                CrossingKind::Zebra => "Zebra"@,
                CrossingKind::Other => "Other"@,
            },
    {
        match self {
            CrossingKind::Signalized => "Signalized",
            CrossingKind::Zebra => "Zebra",
            CrossingKind::Other => "Other",
        }
    }
}

impl RoadKind {
    /// The name of the kind, as it is shown to users.
    pub fn name(&self) -> (name: &'static str)
        ensures
            name@ == match *self {
                RoadKind::Footway => "Footway"@,
                RoadKind::Crossing(CrossingKind::Signalized) => "Crossing(Signalized)"@,
                RoadKind::Crossing(CrossingKind::Zebra) => "Crossing(Zebra)"@,
                RoadKind::Crossing(CrossingKind::Other) => "Crossing(Other)"@,
                RoadKind::Severance => "Severance"@,
                RoadKind::WithTraffic => "WithTraffic"@,
            },
    {
        match self {
            RoadKind::Footway => "Footway",
            RoadKind::Crossing(CrossingKind::Signalized) => "Crossing(Signalized)",
            RoadKind::Crossing(CrossingKind::Zebra) => "Crossing(Zebra)",
            RoadKind::Crossing(CrossingKind::Other) => "Crossing(Other)",
            RoadKind::Severance => "Severance",
            RoadKind::WithTraffic => "WithTraffic",
        }
    }
}

pub(crate) fn has_separate_sidewalk(tags: &Tags) -> (r: bool)
    ensures
        r == separate_sidewalk(tags@),
{
    tags.is("sidewalk", "separate") || tags.is("sidewalk:left", "separate") || tags.is(
        "sidewalk:right",
        "separate",
    ) || tags.is("sidewalk:both", "separate")
}

/// Classifies a road under the USA profile. Footways and crossings are dealt with before.
pub fn usa(tags: &Tags) -> (kind: RoadKind)
    ensures
        kind == usa_kind(tags@),
{
    let big = vec![
        "motorway",
        "motorway_link",
        "trunk",
        "trunk_link",
        "primary",
        "primary_link",
        "secondary",
        "secondary_link",
        "tertiary",
        "tertiary_link",
    ];
    assert(big@ =~= seq![
        "motorway",
        "motorway_link",
        "trunk",
        "trunk_link",
        "primary",
        "primary_link",
        "secondary",
        "secondary_link",
        "tertiary",
        "tertiary_link",
    ]);
    if tags.is_any("highway", big) {
        return RoadKind::Severance;
    }
    RoadKind::WithTraffic
}

/// Classifies a road under the USA profile that counts shoulders and cycle streets as walkable.
pub fn usa_shoulders(tags: &Tags) -> (kind: RoadKind)
    ensures
        kind == usa_shoulders_kind(tags@),
{
    let kind = usa(tags);
    match kind {
        RoadKind::Severance => {
            if tags.is("cycleway", "shoulder") || tags.is("cyclestreet", "yes") {
                return RoadKind::WithTraffic;
            }
            kind
        },
        _ => kind,
    }
}

fn elsewhere(tags: &Tags, guess: bool) -> (kind: Option<RoadKind>)
    ensures
        kind == elsewhere_kind(tags@, guess),
{
    let big = vec!["motorway", "motorway_link", "trunk", "trunk_link", "primary", "primary_link"];
    assert(big@ =~= seq![
        "motorway",
        "motorway_link",
        "trunk",
        "trunk_link",
        "primary",
        "primary_link",
    ]);
    if tags.is_any("highway", big) {
        return Some(RoadKind::Severance);
    }
    if has_separate_sidewalk(tags) {
        return None;
    }
    let sides = vec!["both", "right", "left"];
    assert(sides@ =~= seq!["both", "right", "left"]);
    if tags.is("highway", "pedestrian") || tags.is_any("sidewalk", sides) {
        return Some(RoadKind::WithTraffic);
    }
    let small = vec![
        "secondary",
        "secondary_link",
        "tertiary",
        "tertiary_link",
        "residential",
        "unclassified",
        "service",
        "living_street",
    ];
    assert(small@ =~= seq![
        "secondary",
        "secondary_link",
        "tertiary",
        "tertiary_link",
        "residential",
        "unclassified",
        "service",
        "living_street",
    ]);
    if tags.is_any("highway", small) && !tags.is("foot", "no") {
        return if guess {
            Some(RoadKind::WithTraffic)
        } else {
            None
        };
    }
    Some(RoadKind::Severance)
}

impl Profile {
    /// Classifies an OSM way as a kind of road. `None` means that the way is left out of the
    /// walking network altogether.
    pub fn classify(self, tags: &Tags) -> (kind: Option<RoadKind>)
        ensures
            kind == classify(self, tags@),
    {
        let unbuilt = vec!["construction", "proposed"];
        assert(unbuilt@ =~= seq!["construction", "proposed"]);
        if !tags.has("highway") || tags.is_any("highway", unbuilt) || tags.is("area", "yes") {
            return None;
        }
        let walking = vec!["footway", "steps", "path", "track", "corridor"];
        assert(walking@ =~= seq!["footway", "steps", "path", "track", "corridor"]);
        if tags.is_any("highway", walking) {
            if tags.is("footway", "crossing") {
                return Some(RoadKind::Crossing(CrossingKind::from_tags(tags)));
            }
            return Some(RoadKind::Footway);
        }
        if tags.is("highway", "cycleway") && tags.is("foot", "yes") {
            return Some(RoadKind::Footway);
        }
        if tags.is("highway", "crossing") || tags.has("crossing") {
            return Some(RoadKind::Crossing(CrossingKind::from_tags(tags)));
        }
        match self {
            Profile::USA => Some(usa(tags)),
            Profile::USAShoulders => Some(usa_shoulders(tags)),
            Profile::SeparateWays => elsewhere(tags, false),
            Profile::SidewalksOnHighways => elsewhere(tags, true),
        }
    }

    /// Whether a way with these tags is kept in the walking network.
    pub fn keeps(self, tags: &Tags) -> (kept: bool)
        ensures
            kept == classify(self, tags@) is Some,
    {
        self.classify(tags).is_some()
    }
}

} // verus!
