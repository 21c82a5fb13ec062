use severance::profiles::{usa, usa_shoulders, CrossingKind, Profile, RoadKind};
use severance::tags::Tags;

fn tags(kv: Vec<&str>) -> Tags {
    let mut tags = Tags::empty();
    for pair in kv {
        let parts = pair.split('=').collect::<Vec<_>>();
        tags.insert(parts[0], parts[1]);
    }
    tags
}

#[test]
fn test_usa() {
    assert_eq!(
        Profile::USA.classify(&tags(vec!["highway=tertiary", "sidewalk=no",])),
        Some(RoadKind::Severance)
    );

    assert_eq!(
        Profile::USA.classify(&tags(vec!["highway=secondary", "maxspeed=40 mph",])),
        Some(RoadKind::Severance)
    );
}

#[test]
fn tags_predicates() {
    let t = tags(vec!["highway=primary", "name=High Street"]);
    assert!(t.has("highway"));
    assert!(!t.has("sidewalk"));
    assert!(t.is("highway", "primary"));
    assert!(!t.is("highway", "trunk"));
    assert!(!t.is("sidewalk", "primary"));
    assert!(t.is_any("highway", vec!["trunk", "primary"]));
    assert!(!t.is_any("highway", vec!["trunk", "motorway"]));
    assert!(!t.is_any("highway", vec![]));
    assert!(t.has_any(vec!["foo", "name"]));
    assert!(!t.has_any(vec!["foo", "bar"]));
    assert_eq!(t.get("name").map(|s| s.as_str()), Some("High Street"));
    assert_eq!(t.get("ref"), None);
    assert_eq!(t.len(), 2);
}

#[test]
fn tags_insert_replaces_value() {
    let mut t = tags(vec!["highway=primary", "foot=yes"]);
    t.insert("highway", "footway");
    assert_eq!(t.len(), 2);
    assert!(t.is("highway", "footway"));
    assert!(t.is("foot", "yes"));
    assert_eq!(t.key_at(0).as_str(), "highway");
    assert_eq!(t.value_at(0).as_str(), "footway");
    let copy = t.copy();
    assert!(copy.is("highway", "footway"));
    assert_eq!(copy.len(), 2);
}

#[test]
fn tags_collect_later_value_wins() {
    let entries = vec![
        ("a".to_string(), "1".to_string()),
        ("b".to_string(), "2".to_string()),
        ("a".to_string(), "3".to_string()),
    ];
    let t = Tags::collect(&entries);
    assert_eq!(t.len(), 2);
    assert!(t.is("a", "3"));
    assert!(t.is("b", "2"));
}

#[test]
fn not_a_road_is_excluded() {
    for profile in [
        Profile::SeparateWays,
        Profile::SidewalksOnHighways,
        Profile::USA,
        Profile::USAShoulders,
    ] {
        assert_eq!(profile.classify(&tags(vec!["building=yes"])), None);
        assert_eq!(profile.classify(&tags(vec!["highway=proposed"])), None);
        assert_eq!(profile.classify(&tags(vec!["highway=construction"])), None);
        assert_eq!(profile.classify(&tags(vec!["highway=pedestrian", "area=yes"])), None);
        assert!(!profile.keeps(&tags(vec!["highway=proposed"])));
    }
}

#[test]
fn footways_and_crossings() {
    for profile in [
        Profile::SeparateWays,
        Profile::SidewalksOnHighways,
        Profile::USA,
        Profile::USAShoulders,
    ] {
        for h in ["footway", "steps", "path", "track", "corridor"] {
            let plain = format!("highway={h}");
            assert_eq!(profile.classify(&tags(vec![plain.as_str()])), Some(RoadKind::Footway));
            assert_eq!(
                profile.classify(&tags(vec![plain.as_str(), "footway=crossing"])),
                Some(RoadKind::Crossing(CrossingKind::Other))
            );
        }
        assert_eq!(
            profile.classify(&tags(vec![
                "highway=footway",
                "footway=crossing",
                "crossing=traffic_signals"
            ])),
            Some(RoadKind::Crossing(CrossingKind::Signalized))
        );
        assert_eq!(
            profile.classify(&tags(vec![
                "highway=footway",
                "footway=crossing",
                "crossing=uncontrolled"
            ])),
            Some(RoadKind::Crossing(CrossingKind::Zebra))
        );
        assert_eq!(
            profile.classify(&tags(vec!["highway=cycleway", "foot=yes"])),
            Some(RoadKind::Footway)
        );
        assert_eq!(
            profile.classify(&tags(vec!["highway=crossing"])),
            Some(RoadKind::Crossing(CrossingKind::Other))
        );
        assert_eq!(
            profile.classify(&tags(vec!["highway=residential", "crossing=marked"])),
            Some(RoadKind::Crossing(CrossingKind::Other))
        );
        assert!(profile.keeps(&tags(vec!["highway=footway"])));
    }
}

#[test]
fn big_roads_are_severances() {
    for profile in [Profile::SeparateWays, Profile::SidewalksOnHighways] {
        for h in ["motorway", "motorway_link", "trunk", "trunk_link", "primary", "primary_link"] {
            let t = format!("highway={h}");
            assert_eq!(profile.classify(&tags(vec![t.as_str()])), Some(RoadKind::Severance));
            assert_eq!(
                profile.classify(&tags(vec![t.as_str(), "sidewalk=separate"])),
                Some(RoadKind::Severance)
            );
        }
    }
}

#[test]
fn separate_sidewalks_are_excluded() {
    for profile in [Profile::SeparateWays, Profile::SidewalksOnHighways] {
        for k in ["sidewalk", "sidewalk:left", "sidewalk:right", "sidewalk:both"] {
            let t = format!("{k}=separate");
            assert_eq!(profile.classify(&tags(vec!["highway=residential", t.as_str()])), None);
        }
    }
}

#[test]
fn roads_with_sidewalks_are_with_traffic() {
    for profile in [Profile::SeparateWays, Profile::SidewalksOnHighways] {
        assert_eq!(
            profile.classify(&tags(vec!["highway=pedestrian"])),
            Some(RoadKind::WithTraffic)
        );
        for side in ["both", "right", "left"] {
            let t = format!("sidewalk={side}");
            assert_eq!(
                profile.classify(&tags(vec!["highway=secondary", t.as_str()])),
                Some(RoadKind::WithTraffic)
            );
        }
    }
}

#[test]
fn small_roads_depend_on_profile() {
    for h in [
        "secondary",
        "secondary_link",
        "tertiary",
        "tertiary_link",
        "residential",
        "unclassified",
        "service",
        "living_street",
    ] {
        let t = format!("highway={h}");
        assert_eq!(Profile::SeparateWays.classify(&tags(vec![t.as_str()])), None);
        assert_eq!(
            Profile::SidewalksOnHighways.classify(&tags(vec![t.as_str()])),
            Some(RoadKind::WithTraffic)
        );
        assert_eq!(
            Profile::SeparateWays.classify(&tags(vec![t.as_str(), "foot=no"])),
            Some(RoadKind::Severance)
        );
        assert_eq!(
            Profile::SidewalksOnHighways.classify(&tags(vec![t.as_str(), "foot=no"])),
            Some(RoadKind::Severance)
        );
    }
}

#[test]
fn unknown_highways_fall_back_to_severance() {
    assert_eq!(
        Profile::SeparateWays.classify(&tags(vec!["highway=bus_guideway"])),
        Some(RoadKind::Severance)
    );
    assert_eq!(
        Profile::SidewalksOnHighways.classify(&tags(vec!["highway=raceway"])),
        Some(RoadKind::Severance)
    );
}

#[test]
fn usa_profiles() {
    assert_eq!(
        Profile::USA.classify(&tags(vec!["highway=residential"])),
        Some(RoadKind::WithTraffic)
    );
    assert_eq!(
        Profile::USA.classify(&tags(vec!["highway=motorway_link"])),
        Some(RoadKind::Severance)
    );
    assert_eq!(
        Profile::USAShoulders.classify(&tags(vec!["highway=tertiary"])),
        Some(RoadKind::Severance)
    );
    assert_eq!(
        Profile::USAShoulders.classify(&tags(vec!["highway=tertiary", "cycleway=shoulder"])),
        Some(RoadKind::WithTraffic)
    );
    assert_eq!(
        Profile::USAShoulders.classify(&tags(vec!["highway=primary", "cyclestreet=yes"])),
        Some(RoadKind::WithTraffic)
    );
    assert_eq!(
        Profile::USAShoulders.classify(&tags(vec!["highway=residential", "cyclestreet=yes"])),
        Some(RoadKind::WithTraffic)
    );
    assert_eq!(usa(&tags(vec!["highway=trunk"])), RoadKind::Severance);
    assert_eq!(usa(&tags(vec!["highway=service"])), RoadKind::WithTraffic);
    assert_eq!(usa_shoulders(&tags(vec!["highway=trunk"])), RoadKind::Severance);
    assert_eq!(
        usa_shoulders(&tags(vec!["highway=trunk", "cycleway=shoulder"])),
        RoadKind::WithTraffic
    );
}

#[test]
fn classify_is_a_function_of_tags_and_profile() {
    let a = tags(vec!["highway=residential", "sidewalk=left", "name=A"]);
    let b = tags(vec!["name=A", "sidewalk=left", "highway=residential"]);
    for profile in [
        Profile::SeparateWays,
        Profile::SidewalksOnHighways,
        Profile::USA,
        Profile::USAShoulders,
    ] {
        assert_eq!(profile.classify(&a), profile.classify(&a));
        assert_eq!(profile.classify(&a), profile.classify(&b));
    }
}

#[test]
fn crossing_kind_from_tags() {
    assert_eq!(
        CrossingKind::from_tags(&tags(vec!["crossing=traffic_signals"])),
        CrossingKind::Signalized
    );
    assert_eq!(CrossingKind::from_tags(&tags(vec!["crossing=uncontrolled"])), CrossingKind::Zebra);
    assert_eq!(CrossingKind::from_tags(&tags(vec!["crossing=marked"])), CrossingKind::Other);
    assert_eq!(CrossingKind::from_tags(&tags(vec!["highway=crossing"])), CrossingKind::Other);
}

#[test]
fn kind_names() {
    assert_eq!(RoadKind::Footway.name(), "Footway");
    assert_eq!(RoadKind::Crossing(CrossingKind::Signalized).name(), "Crossing(Signalized)");
    assert_eq!(RoadKind::Crossing(CrossingKind::Zebra).name(), "Crossing(Zebra)");
    assert_eq!(RoadKind::Crossing(CrossingKind::Other).name(), "Crossing(Other)");
    assert_eq!(RoadKind::Severance.name(), "Severance");
    assert_eq!(RoadKind::WithTraffic.name(), "WithTraffic");
    assert_eq!(CrossingKind::Zebra.name(), "Zebra");
    assert_eq!(CrossingKind::Signalized.name(), "Signalized");
    assert_eq!(CrossingKind::Other.name(), "Other");
}
