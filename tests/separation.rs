use runway_instances::generator::generate_feasible_instance;
use runway_instances::{icao_sep_seconds, Aircraft, AircraftID, Instance, Sec, WakeCategory};

const TABLE: [(WakeCategory, WakeCategory, i32); 9] = [
    (WakeCategory::Heavy, WakeCategory::Heavy, 96),
    (WakeCategory::Heavy, WakeCategory::Medium, 96),
    (WakeCategory::Heavy, WakeCategory::Light, 109),
    (WakeCategory::Medium, WakeCategory::Heavy, 69),
    (WakeCategory::Medium, WakeCategory::Medium, 69),
    (WakeCategory::Medium, WakeCategory::Light, 82),
    (WakeCategory::Light, WakeCategory::Heavy, 60),
    (WakeCategory::Light, WakeCategory::Medium, 60),
    (WakeCategory::Light, WakeCategory::Light, 69),
];

fn aircraft(id: u32, wake: WakeCategory) -> Aircraft {
    Aircraft {
        id: AircraftID(id),
        time_window: (Sec(0), Sec(0)),
        ctot_window: (Sec(0), Sec(0)),
        ready_time: Sec(0),
        taxi_delay: Sec(0),
        wake,
    }
}

#[test]
fn separation_table_is_exact() {
    for (leader, follower, expected) in TABLE {
        assert_eq!(icao_sep_seconds(leader, follower), expected);
    }
}

#[test]
fn separation_is_not_symmetric() {
    assert_eq!(icao_sep_seconds(WakeCategory::Heavy, WakeCategory::Light), 109);
    assert_eq!(icao_sep_seconds(WakeCategory::Light, WakeCategory::Heavy), 60);
}

#[test]
fn separation_map_entries_in_pair_order() {
    let inst = Instance(vec![
        aircraft(7, WakeCategory::Heavy),
        aircraft(3, WakeCategory::Light),
    ]);
    let map = inst.build_separation_map();
    assert_eq!(map.len(), 4);
    let entries = map.entries();
    assert_eq!(entries[0], ((AircraftID(7), AircraftID(7)), Sec(0)));
    assert_eq!(entries[1], ((AircraftID(7), AircraftID(3)), Sec(109)));
    assert_eq!(entries[2], ((AircraftID(3), AircraftID(7)), Sec(60)));
    assert_eq!(entries[3], ((AircraftID(3), AircraftID(3)), Sec(0)));
}

#[test]
fn separation_map_lookup_by_identity() {
    let inst = Instance(vec![
        aircraft(0, WakeCategory::Medium),
        aircraft(1, WakeCategory::Light),
        aircraft(2, WakeCategory::Heavy),
    ]);
    let map = inst.build_separation_map();
    assert_eq!(map.get(AircraftID(0), AircraftID(1)), Some(Sec(82)));
    assert_eq!(map.get(AircraftID(2), AircraftID(0)), Some(Sec(96)));
    assert_eq!(map.get(AircraftID(1), AircraftID(1)), Some(Sec(0)));
    assert_eq!(map.get(AircraftID(1), AircraftID(5)), None);
}

#[test]
fn separation_map_of_empty_instance() {
    let map = Instance(Vec::new()).build_separation_map();
    assert_eq!(map.len(), 0);
    assert_eq!(map.get(AircraftID(0), AircraftID(0)), None);
}

#[test]
fn separation_map_of_five_generated_aircraft() {
    let (inst, _) = generate_feasible_instance(5, Some(11)).unwrap();
    let map = inst.build_separation_map();
    assert_eq!(map.len(), 25);
    let entries = map.entries();
    let zeros = entries.iter().filter(|e| e.1 == Sec(0)).count();
    assert_eq!(zeros, 5);
    for (a, ac_a) in inst.0.iter().enumerate() {
        for (b, ac_b) in inst.0.iter().enumerate() {
            let ((la, lb), sep) = entries[a * 5 + b];
            assert_eq!((la, lb), (ac_a.id, ac_b.id));
            if a == b {
                assert_eq!(sep, Sec(0));
            } else {
                assert!(TABLE.iter().any(|t| t.2 == sep.0));
                assert_eq!(sep.0, icao_sep_seconds(ac_a.wake, ac_b.wake));
            }
        }
    }
}

#[test]
fn sec_arithmetic() {
    assert_eq!(Sec(100) + Sec(25), Sec(125));
    assert_eq!(Sec(100) - Sec(125), Sec(-25));
    assert_eq!(Sec::from(42), Sec(42));
}
