use runway_instances::generator::{
    build_instance_from_draws, generate_feasible_instance, Draws, GenerateError,
};
use runway_instances::{icao_sep_seconds, AircraftID, Sec, WakeCategory};

fn minimum_draws(wake: Vec<WakeCategory>, order: Vec<usize>) -> Draws {
    let n = wake.len();
    Draws {
        base_step: 120,
        global_start: 300,
        ready_jitter: vec![0; n],
        taxi_delay: vec![15; n],
        wake,
        order,
        extra_gap: vec![30; n - 1],
        time_width: vec![1500; n],
        pre_ready: vec![0; n],
    }
}

fn check_invariants(inst: &[runway_instances::Aircraft], times: &[Sec]) {
    assert_eq!(inst.len(), times.len());
    for (i, a) in inst.iter().enumerate() {
        assert_eq!(a.id, AircraftID(i as u32));
        assert_eq!(a.ctot_window.1 .0 - a.ctot_window.0 .0, 900);
        let width = a.time_window.1 .0 - a.time_window.0 .0;
        assert!((1500..=2100).contains(&width));
        assert!(a.ready_time.0 <= a.time_window.0 .0);
        assert!(a.ready_time.0 >= 60);
        assert!(a.time_window.0 .0 >= 60);
        assert!(a.ctot_window.0 .0 >= 60);
        assert!(times[i].0 >= 60);
        assert_eq!(a.ctot_window.0 .0 + 450, times[i].0);
        assert!((15..=45).contains(&a.taxi_delay.0));
    }
}

#[test]
fn zero_aircraft_is_rejected() {
    assert!(matches!(generate_feasible_instance(0, Some(1)), Err(GenerateError::NoAircraft)));
    assert!(matches!(generate_feasible_instance(0, None), Err(GenerateError::NoAircraft)));
}

#[test]
fn single_aircraft_scenario() {
    let d = minimum_draws(vec![WakeCategory::Light], vec![0]);
    let (inst, times) = build_instance_from_draws(&d);
    assert_eq!(inst.0.len(), 1);
    let a = inst.0[0];
    // released at 300 + 15 = 315; the ready time 315 - 750 is lifted to 60
    assert_eq!(times, vec![Sec(810)]);
    assert_eq!(a.time_window, (Sec(60), Sec(1560)));
    assert_eq!(a.ctot_window, (Sec(360), Sec(1260)));
    assert_eq!(a.ready_time, Sec(60));
    assert_eq!(a.taxi_delay, Sec(15));
    assert_eq!(a.wake, WakeCategory::Light);
}

#[test]
fn single_aircraft_generated() {
    for seed in 0..20u64 {
        let (inst, times) = generate_feasible_instance(1, Some(seed)).unwrap();
        assert_eq!(inst.0.len(), 1);
        check_invariants(&inst.0, &times);
    }
}

#[test]
fn minimum_draws_respect_separation() {
    let wake = vec![WakeCategory::Heavy, WakeCategory::Light, WakeCategory::Medium];
    let d = minimum_draws(wake.clone(), vec![2, 1, 0]);
    let (inst, times) = build_instance_from_draws(&d);
    assert_eq!(times, vec![Sec(1012), Sec(922), Sec(810)]);
    let order = [2usize, 1, 0];
    for k in 1..3 {
        let (i, j) = (order[k - 1], order[k]);
        let gap = times[j].0 - times[i].0;
        assert!(gap >= icao_sep_seconds(wake[i], wake[j]));
    }
    check_invariants(&inst.0, &times);
}

#[test]
fn minimum_draws_release_binds() {
    let wake = vec![WakeCategory::Heavy, WakeCategory::Light, WakeCategory::Medium];
    let d = minimum_draws(wake, vec![0, 1, 2]);
    let (inst, times) = build_instance_from_draws(&d);
    assert_eq!(times, vec![Sec(810), Sec(960), Sec(1080)]);
    assert_eq!(inst.0[0].time_window, (Sec(60), Sec(1560)));
    assert_eq!(inst.0[1].ready_time, Sec(210));
}

#[test]
fn odd_width_and_pre_ready() {
    let mut d = minimum_draws(vec![WakeCategory::Medium, WakeCategory::Heavy], vec![1, 0]);
    d.time_width = vec![2101 - 2, 1501];
    d.pre_ready = vec![300, 10];
    d.extra_gap = vec![120];
    let (inst, times) = build_instance_from_draws(&d);
    // releases 315 and 435; aircraft 1 leaves at 435, aircraft 0 at 435 + 96 + 120
    let raw = [651, 435];
    let ready_raw = [651 - 1049 - 300, 435 - 750 - 10];
    let offset = 60 - ready_raw.iter().min().unwrap();
    assert_eq!(offset, 758);
    assert_eq!(times, vec![Sec(raw[0] + offset), Sec(raw[1] + offset)]);
    assert_eq!(inst.0[0].time_window.1 .0 - inst.0[0].time_window.0 .0, 2098);
    assert_eq!(inst.0[1].time_window.1 .0 - inst.0[1].time_window.0 .0, 1500);
    check_invariants(&inst.0, &times);
}

#[test]
fn late_release_needs_smaller_shift() {
    let mut d = minimum_draws(vec![WakeCategory::Light], vec![0]);
    d.global_start = 600;
    d.base_step = 180;
    d.ready_jitter = vec![90];
    d.taxi_delay = vec![45];
    let (inst, times) = build_instance_from_draws(&d);
    // release 735, ready 735 - 750 = -15, lifted by 75
    assert_eq!(times, vec![Sec(810)]);
    assert_eq!(inst.0[0].ready_time, Sec(60));
}

#[test]
fn same_draws_same_instance() {
    let wake = vec![WakeCategory::Light, WakeCategory::Heavy, WakeCategory::Heavy, WakeCategory::Medium];
    let d = minimum_draws(wake, vec![3, 0, 2, 1]);
    let (a, ta) = build_instance_from_draws(&d);
    let (b, tb) = build_instance_from_draws(&d);
    assert_eq!(a.0, b.0);
    assert_eq!(ta, tb);
}

#[test]
fn same_seed_same_instance() {
    let (a, ta) = generate_feasible_instance(40, Some(5)).unwrap();
    let (b, tb) = generate_feasible_instance(40, Some(5)).unwrap();
    assert_eq!(a.0, b.0);
    assert_eq!(ta, tb);
    let (c, tc) = generate_feasible_instance(40, None).unwrap();
    let (d, td) = generate_feasible_instance(40, Some(0)).unwrap();
    assert_eq!(c.0, d.0);
    assert_eq!(tc, td);
}

#[test]
fn generated_instances_keep_invariants() {
    for seed in 0..10u64 {
        let (inst, times) = generate_feasible_instance(40, Some(seed)).unwrap();
        assert_eq!(inst.0.len(), 40);
        check_invariants(&inst.0, &times);
        let mut sorted: Vec<i32> = times.iter().map(|t| t.0).collect();
        sorted.sort();
        for w in sorted.windows(2) {
            assert!(w[1] - w[0] >= 60 + 30);
        }
    }
}

#[test]
fn generated_wakes_vary() {
    let (inst, _) = generate_feasible_instance(60, Some(3)).unwrap();
    for w in [WakeCategory::Heavy, WakeCategory::Medium, WakeCategory::Light] {
        assert!(inst.0.iter().any(|a| a.wake == w));
    }
}

#[test]
fn generated_departure_order_is_shuffled() {
    let (_, times) = generate_feasible_instance(40, Some(5)).unwrap();
    assert!(times.windows(2).any(|w| w[1] < w[0]));
}

#[test]
fn takeoff_times_order_like_seconds() {
    assert!(Sec(5) < Sec(7));
    assert_eq!([Sec(9), Sec(3), Sec(4)].iter().min(), Some(&Sec(3)));
}
