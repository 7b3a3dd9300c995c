use runway_instances::layout::assign_rows_from_schedule;
use runway_instances::{Aircraft, AircraftID, Sec, WakeCategory};

fn interval(id: u32, ready: i32, end: i32) -> Aircraft {
    Aircraft {
        id: AircraftID(id),
        time_window: (Sec(ready), Sec(end)),
        ctot_window: (Sec(ready), Sec(ready)),
        ready_time: Sec(ready),
        taxi_delay: Sec(20),
        wake: WakeCategory::Medium,
    }
}

#[test]
fn rows_reuse_the_first_free_row() {
    let ac = vec![
        interval(0, 100, 500),
        interval(1, 200, 300),
        interval(2, 300, 700),
        interval(3, 100, 150),
    ];
    assert_eq!(assign_rows_from_schedule(&ac), vec![0, 1, 1, 1]);
}

#[test]
fn overlapping_intervals_get_new_rows() {
    let ac = vec![interval(0, 0, 1000), interval(1, 10, 1000), interval(2, 20, 1000)];
    assert_eq!(assign_rows_from_schedule(&ac), vec![0, 1, 2]);
}

#[test]
fn rows_of_no_aircraft() {
    assert_eq!(assign_rows_from_schedule(&[]), Vec::<usize>::new());
}

#[test]
fn rows_of_generated_instance_do_not_overlap() {
    let (inst, _) = runway_instances::generate_feasible_instance(30, Some(9)).unwrap();
    let rows = assign_rows_from_schedule(&inst.0);
    for i in 0..inst.0.len() {
        for j in 0..inst.0.len() {
            if i != j && rows[i] == rows[j] {
                let (a, b) = (&inst.0[i], &inst.0[j]);
                assert!(a.time_window.1 .0 <= b.ready_time.0 || b.time_window.1 .0 <= a.ready_time.0);
            }
        }
    }
}
