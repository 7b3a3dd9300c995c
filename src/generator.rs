use vstd::prelude::*;
use rand::{Rng, SeedableRng};
use rand::rngs::StdRng;
use rand::seq::{IndexedRandom, SliceRandom};
use crate::types::{AircraftID, Sec, WakeCategory};
use crate::model::{lemma_positions_cover, lists_position, Aircraft, Instance};
use crate::icao::{icao_sep, pair_entry, lemma_pair_index_bound, SeparationMap};

verus! {

/// Every temporal value of a generated instance ends at least this many
/// seconds after the epoch.
pub const MIN_MARGIN: i32 = 60;

/// Half the width of every CTOT window, in seconds.
pub const CTOT_HALF_WIDTH: i32 = 450;

/// Largest instance the generator accepts: its separation map holds one
/// entry per ordered pair of aircraft.
pub const MAX_AIRCRAFT: usize = 65535;

/// The random values that one generation consumes, in the order they are
/// drawn. `extra_gap[k - 1]` is the gap drawn for the `k`-th departure of
/// `order`; every other vector is indexed by aircraft.
pub struct Draws {
    pub base_step: i32,
    pub global_start: i32,
    pub ready_jitter: Vec<i32>,
    pub taxi_delay: Vec<i32>,
    pub wake: Vec<WakeCategory>,
    pub order: Vec<usize>,
    pub extra_gap: Vec<i32>,
    pub time_width: Vec<i32>,
    pub pre_ready: Vec<i32>,
}

impl Draws {
    /// Number of aircraft the draws are for.
    pub open spec fn count(&self) -> nat {
        self.wake@.len()
    }

    /// Each value lies in the range it is drawn from, and `order` is a
    /// permutation of the aircraft positions.
    pub open spec fn wf(&self) -> bool {
        let n = self.count();
        &&& 1 <= n <= MAX_AIRCRAFT
        &&& 120 <= self.base_step <= 180
        &&& 300 <= self.global_start <= 600
        &&& self.ready_jitter@.len() == n
        &&& self.taxi_delay@.len() == n
        &&& self.order@.len() == n
        &&& self.extra_gap@.len() == n - 1
        &&& self.time_width@.len() == n
        &&& self.pre_ready@.len() == n
        &&& forall|i: int| 0 <= i < n ==> 0 <= #[trigger] self.ready_jitter@[i] <= self.base_step / 2
        &&& forall|i: int| 0 <= i < n ==> 15 <= #[trigger] self.taxi_delay@[i] <= 45
        &&& forall|k: int| 0 <= k < n ==> #[trigger] self.order@[k] < n
        &&& self.order@.no_duplicates()
        &&& forall|k: int| 0 <= k < n - 1 ==> 30 <= #[trigger] self.extra_gap@[k] <= 120
        &&& forall|i: int| 0 <= i < n ==> 1500 <= #[trigger] self.time_width@[i] <= 2100
        &&& forall|i: int| 0 <= i < n ==> 0 <= #[trigger] self.pre_ready@[i] <= 300
    }

    /// Ready time of aircraft `i` as first spread over the horizon; it only
    /// serves to order the departures and is overwritten afterwards.
    pub open spec fn initial_ready(&self, i: int) -> int {
        self.global_start + i * self.base_step + self.ready_jitter@[i]
    }

    /// Earliest moment aircraft `i` can reach the runway.
    pub open spec fn release(&self, i: int) -> int {
        self.initial_ready(i) + self.taxi_delay@[i]
    }

    /// Takeoff time of the `k`-th departure of `order`, before normalisation.
    pub open spec fn sequence_time(&self, k: nat) -> int
        decreases k,
    {
        if k == 0 {
            self.release(self.order@[0] as int)
        } else {
            let i = self.order@[k - 1];
            let j = self.order@[k as int];
            let after_leader = self.sequence_time((k - 1) as nat) + icao_sep(
                self.wake@[i as int],
                self.wake@[j as int],
            );
            let earliest = if after_leader >= self.release(j as int) {
                after_leader
            } else {
                self.release(j as int)
            };
            earliest + self.extra_gap@[k - 1]
        }
    }
}

/// Aircraft `i` before its windows are derived.
pub open spec fn initial_aircraft(d: Draws, i: int) -> Aircraft {
    Aircraft {
        id: AircraftID(i as u32),
        time_window: (Sec(0), Sec(0)),
        ctot_window: (Sec(0), Sec(0)),
        ready_time: Sec(d.initial_ready(i) as i32),
        taxi_delay: Sec(d.taxi_delay@[i]),
        wake: d.wake@[i],
    }
}

/// Aircraft `i` with its windows centred on takeoff time `t`.
pub open spec fn derived_aircraft(d: Draws, i: int, t: int) -> Aircraft {
    let half = d.time_width@[i] / 2;
    Aircraft {
        id: AircraftID(i as u32),
        time_window: (Sec((t - half) as i32), Sec((t + half) as i32)),
        ctot_window: (Sec((t - CTOT_HALF_WIDTH) as i32), Sec((t + CTOT_HALF_WIDTH) as i32)),
        ready_time: Sec((t - half - d.pre_ready@[i]) as i32),
        taxi_delay: Sec(d.taxi_delay@[i]),
        wake: d.wake@[i],
    }
}

/// `(inst, times)` is what generation makes of the draws `d`: the sequenced
/// takeoff times shifted by one non-negative offset, each aircraft's windows
/// centred on its time, every ready time at least `MIN_MARGIN`, and a shift
/// only where it brings the earliest ready time to exactly `MIN_MARGIN`.
pub open spec fn is_generated_from(d: Draws, inst: Seq<Aircraft>, times: Seq<Sec>) -> bool {
    let n = d.count();
    let shift = times[d.order@[0] as int].0 - d.sequence_time(0);
    &&& inst.len() == n
    &&& times.len() == n
    &&& shift >= 0
    &&& forall|k: int|
        0 <= k < n ==> #[trigger] times[d.order@[k] as int].0 == d.sequence_time(k as nat) + shift
    &&& forall|i: int| 0 <= i < n ==> MIN_MARGIN <= #[trigger] times[i].0 <= 30_001_500
    &&& forall|i: int| 0 <= i < n ==> #[trigger] inst[i] == derived_aircraft(d, i, times[i].0 as int)
    &&& forall|i: int| 0 <= i < n ==> #[trigger] inst[i].ready_time.0 >= MIN_MARGIN
    &&& shift > 0 ==> exists|i: int| 0 <= i < n && #[trigger] inst[i].ready_time.0 == MIN_MARGIN
}

/// The aircraft with their initial spread-out ready times.
fn initial_aircraft_list(d: &Draws) -> (r: Vec<Aircraft>)
    requires
        d.wf(),
    ensures
        r@.len() == d.count(),
        forall|i: int| 0 <= i < d.count() ==> #[trigger] r@[i] == initial_aircraft(*d, i),
{
    let n = d.wake.len();
    let mut aircraft: Vec<Aircraft> = Vec::new();
    let mut i: usize = 0;
    while i < n
        invariant
            d.wf(),
            n == d.count(),
            i <= n,
            aircraft@.len() == i,
            forall|m: int| 0 <= m < i ==> #[trigger] aircraft@[m] == initial_aircraft(*d, m),
        decreases n - i,
    {
        proof {
            lemma_release_bounds(*d, i as int);
            assert(0 <= i as int * d.base_step <= 65535 * 180) by (nonlinear_arith)
                requires
                    0 <= i < 65535,
                    120 <= d.base_step <= 180,
            ;
        }
        let ready = d.global_start + (i as i32) * d.base_step + d.ready_jitter[i];
        aircraft.push(
            Aircraft {
                id: AircraftID(i as u32),
                time_window: (Sec(0), Sec(0)),
                ctot_window: (Sec(0), Sec(0)),
                ready_time: Sec(ready),
                taxi_delay: Sec(d.taxi_delay[i]),
                wake: d.wake[i],
            },
        );
        i = i + 1;
    }
    aircraft
}

/// Takeoff times that respect the separation between each pair of
/// consecutive departures of `d.order`, indexed by aircraft.
fn sequence_takeoffs(d: &Draws, aircraft: &Vec<Aircraft>, sep: &SeparationMap) -> (r: Vec<Sec>)
    requires
        d.wf(),
        aircraft@.len() == d.count(),
        forall|i: int| 0 <= i < d.count() ==> #[trigger] aircraft@[i] == initial_aircraft(*d, i),
        sep.built_from(aircraft@),
    ensures
        r@.len() == d.count(),
        forall|k: int| 0 <= k < d.count() ==> #[trigger] r@[d.order@[k] as int].0 == d.sequence_time(k as nat),
        forall|i: int| 0 <= i < d.count() ==> 0 <= #[trigger] r@[i].0 <= 30_000_000,
{
    let n = d.wake.len();
    let mut times: Vec<Sec> = Vec::new();
    let mut i: usize = 0;
    while i < n
        invariant
            i <= n,
            times@.len() == i,
            forall|m: int| 0 <= m < i ==> #[trigger] times@[m].0 == 0,
        decreases n - i,
    {
        times.push(Sec(0));
        i = i + 1;
    }
    let first = d.order[0];
    proof {
        lemma_release_bounds(*d, first as int);
    }
    let mut current: i32 = aircraft[first].ready_time.0 + aircraft[first].taxi_delay.0;
    times.set(first, Sec(current));
    let mut k: usize = 1;
    while k < n
        invariant
            d.wf(),
            n == d.count(),
            1 <= k <= n,
            aircraft@.len() == n,
            forall|i: int| 0 <= i < n ==> #[trigger] aircraft@[i] == initial_aircraft(*d, i),
            sep.built_from(aircraft@),
            times@.len() == n,
            current == d.sequence_time((k - 1) as nat),
            forall|m: int| 0 <= m < k ==> #[trigger] times@[d.order@[m] as int].0 == d.sequence_time(m as nat),
            forall|i: int| 0 <= i < n ==> 0 <= #[trigger] times@[i].0 <= 30_000_000,
        decreases n - k,
    {
        let i = d.order[k - 1];
        let j = d.order[k];
        proof {
            lemma_sequence_bounds(*d, (k - 1) as nat);
            lemma_sequence_bounds(*d, k as nat);
            lemma_release_bounds(*d, j as int);
            lemma_pair_index_bound(i as int, j as int, n as int);
            assert(d.order@[k - 1] != d.order@[k as int]);
            let e = i * n + j;
            assert(sep@[e] == pair_entry(aircraft@[e / n as int], aircraft@[e % n as int]));
        }
        let s = sep.between(i, j);
        let release_j = aircraft[j].ready_time.0 + aircraft[j].taxi_delay.0;
        let gap = d.extra_gap[k - 1];
        let after_leader = if current >= times[i].0 + s.0 {
            current
        } else {
            times[i].0 + s.0
        };
        let earliest = if after_leader >= release_j {
            after_leader
        } else {
            release_j
        };
        current = earliest + gap;
        times.set(j, Sec(current));
        k = k + 1;
    }
    times
}

/// Centres each aircraft's windows on its takeoff time and sets its final
/// ready time before the hard window opens.
fn derive_windows(d: &Draws, aircraft: &mut Vec<Aircraft>, times: &Vec<Sec>)
    requires
        d.wf(),
        old(aircraft)@.len() == d.count(),
        forall|i: int| 0 <= i < d.count() ==> #[trigger] old(aircraft)@[i] == initial_aircraft(*d, i),
        times@.len() == d.count(),
        forall|i: int| 0 <= i < d.count() ==> 0 <= #[trigger] times@[i].0 <= 30_000_000,
    ensures
        final(aircraft)@.len() == d.count(),
        forall|i: int| 0 <= i < d.count() ==> #[trigger] final(aircraft)@[i] == derived_aircraft(*d, i, times@[i].0 as int),
{
    let n = aircraft.len();
    let mut i: usize = 0;
    while i < n
        invariant
            d.wf(),
            n == d.count(),
            i <= n,
            aircraft@.len() == n,
            times@.len() == n,
            forall|m: int| 0 <= m < n ==> 0 <= #[trigger] times@[m].0 <= 30_000_000,
            forall|m: int| 0 <= m < i ==> #[trigger] aircraft@[m] == derived_aircraft(*d, m, times@[m].0 as int),
            forall|m: int| i <= m < n ==> #[trigger] aircraft@[m] == initial_aircraft(*d, m),
        decreases n - i,
    {
        let t = times[i].0;
        let half = d.time_width[i] / 2;
        let pre = d.pre_ready[i];
        let ac = aircraft[i];
        aircraft.set(
            i,
            Aircraft {
                id: ac.id,
                time_window: (Sec(t - half), Sec(t + half)),
                ctot_window: (Sec(t - CTOT_HALF_WIDTH), Sec(t + CTOT_HALF_WIDTH)),
                ready_time: Sec(t - half - pre),
                taxi_delay: ac.taxi_delay,
                wake: ac.wake,
            },
        );
        i = i + 1;
    }
}

/// The earliest of every aircraft's ready time, hard-window start and CTOT
/// start, and of every takeoff time; it is always some aircraft's ready time.
fn earliest_value(d: &Draws, aircraft: &Vec<Aircraft>, times: &Vec<Sec>) -> (r: i32)
    requires
        d.wf(),
        aircraft@.len() == d.count(),
        times@.len() == d.count(),
        forall|i: int| 0 <= i < d.count() ==> 0 <= #[trigger] times@[i].0 <= 30_000_000,
        forall|i: int| 0 <= i < d.count() ==> #[trigger] aircraft@[i] == derived_aircraft(*d, i, times@[i].0 as int),
    ensures
        forall|i: int| 0 <= i < d.count() ==> r <= #[trigger] aircraft@[i].ready_time.0,
        exists|i: int| 0 <= i < d.count() && r == #[trigger] aircraft@[i].ready_time.0,
        -1400 <= r <= 30_000_000,
{
    let n = aircraft.len();
    let mut earliest: i32 = aircraft[0].ready_time.0;
    let mut i: usize = 0;
    while i < n
        invariant
            d.wf(),
            n == d.count(),
            i <= n,
            aircraft@.len() == n,
            times@.len() == n,
            forall|m: int| 0 <= m < n ==> 0 <= #[trigger] times@[m].0 <= 30_000_000,
            forall|m: int| 0 <= m < n ==> #[trigger] aircraft@[m] == derived_aircraft(*d, m, times@[m].0 as int),
            forall|m: int| 0 <= m < i ==> earliest <= #[trigger] aircraft@[m].ready_time.0,
            exists|m: int| 0 <= m < n && earliest == #[trigger] aircraft@[m].ready_time.0,
        decreases n - i,
    {
        let a = aircraft[i];
        proof {
            assert(aircraft@[i as int] == derived_aircraft(*d, i as int, times@[i as int].0 as int));
        }
        if a.ready_time.0 < earliest {
            earliest = a.ready_time.0;
        }
        if a.time_window.0.0 < earliest {
            earliest = a.time_window.0.0;
        }
        if a.ctot_window.0.0 < earliest {
            earliest = a.ctot_window.0.0;
        }
        if times[i].0 < earliest {
            earliest = times[i].0;
        }
        i = i + 1;
    }
    proof {
        let m = choose|m: int| 0 <= m < n && earliest == #[trigger] aircraft@[m].ready_time.0;
        assert(aircraft@[m] == derived_aircraft(*d, m, times@[m].0 as int));
    }
    earliest
}

/// Adds `offset` to every takeoff time and to every temporal field.
fn shift_all(d: &Draws, aircraft: &mut Vec<Aircraft>, times: &mut Vec<Sec>, offset: i32)
    requires
        d.wf(),
        0 <= offset <= 1500,
        old(aircraft)@.len() == d.count(),
        old(times)@.len() == d.count(),
        forall|i: int| 0 <= i < d.count() ==> 0 <= #[trigger] old(times)@[i].0 <= 30_000_000,
        forall|i: int| 0 <= i < d.count() ==> #[trigger] old(aircraft)@[i] == derived_aircraft(*d, i, old(times)@[i].0 as int),
    ensures
        final(aircraft)@.len() == d.count(),
        final(times)@.len() == d.count(),
        forall|i: int| 0 <= i < d.count() ==> #[trigger] final(times)@[i].0 == old(times)@[i].0 + offset,
        forall|i: int| 0 <= i < d.count() ==> #[trigger] final(aircraft)@[i] == derived_aircraft(*d, i, final(times)@[i].0 as int),
{
    let n = times.len();
    let ghost before = times@;
    let mut i: usize = 0;
    while i < n
        invariant
            d.wf(),
            n == d.count(),
            0 <= offset <= 1500,
            i <= n,
            aircraft@.len() == n,
            times@.len() == n,
            before.len() == n,
            forall|m: int| 0 <= m < n ==> 0 <= #[trigger] before[m].0 <= 30_000_000,
            forall|m: int| 0 <= m < i ==> #[trigger] times@[m].0 == before[m].0 + offset,
            forall|m: int| i <= m < n ==> #[trigger] times@[m] == before[m],
            forall|m: int| 0 <= m < i ==> #[trigger] aircraft@[m] == derived_aircraft(*d, m, times@[m].0 as int),
            forall|m: int| i <= m < n ==> #[trigger] aircraft@[m] == derived_aircraft(*d, m, before[m].0 as int),
        decreases n - i,
    {
        let t = times[i].0;
        times.set(i, Sec(t + offset));
        let a = aircraft[i];
        aircraft.set(
            i,
            Aircraft {
                id: a.id,
                time_window: (Sec(a.time_window.0.0 + offset), Sec(a.time_window.1.0 + offset)),
                ctot_window: (Sec(a.ctot_window.0.0 + offset), Sec(a.ctot_window.1.0 + offset)),
                ready_time: Sec(a.ready_time.0 + offset),
                taxi_delay: a.taxi_delay,
                wake: a.wake,
            },
        );
        i = i + 1;
    }
}

/// Builds the instance that the draws `d` describe: sequence the departures
/// in `d.order`, derive each aircraft's windows around its takeoff time, then
/// shift everything so that no temporal value falls below `MIN_MARGIN`.
pub fn build_instance_from_draws(d: &Draws) -> (r: (Instance, Vec<Sec>))
    requires
        d.wf(),
    ensures
        is_generated_from(*d, r.0@, r.1@),
{
    let initial = Instance(initial_aircraft_list(d));
    proof {
        let n = d.count() as int;
        assert(n * n <= 65535 * 65535) by (nonlinear_arith)
            requires
                0 <= n <= 65535,
        ;
    }
    let sep = initial.build_separation_map();
    let mut aircraft = initial.0;
    let mut times = sequence_takeoffs(d, &aircraft, &sep);
    derive_windows(d, &mut aircraft, &times);
    let ghost raw = times@;
    let ghost raw_aircraft = aircraft@;
    let earliest = earliest_value(d, &aircraft, &times);
    let offset = if earliest < MIN_MARGIN {
        MIN_MARGIN - earliest
    } else {
        0
    };
    if offset > 0 {
        shift_all(d, &mut aircraft, &mut times, offset);
    }
    proof {
        let n = d.count();
        assert(times@[d.order@[0] as int].0 == raw[d.order@[0] as int].0 + offset);
        assert forall|i: int| 0 <= i < n implies #[trigger] aircraft@[i].ready_time.0 >= MIN_MARGIN by {
            assert(aircraft@[i] == derived_aircraft(*d, i, times@[i].0 as int));
            assert(raw_aircraft[i] == derived_aircraft(*d, i, raw[i].0 as int));
            assert(earliest <= raw_aircraft[i].ready_time.0);
        }
        assert forall|i: int| 0 <= i < n implies MIN_MARGIN <= #[trigger] times@[i].0 <= 30_001_500 by {
            assert(aircraft@[i] == derived_aircraft(*d, i, times@[i].0 as int));
            assert(aircraft@[i].ready_time.0 >= MIN_MARGIN);
        }
        if offset > 0 {
            let m = choose|m: int| 0 <= m < n && earliest == #[trigger] raw_aircraft[m].ready_time.0;
            assert(raw_aircraft[m] == derived_aircraft(*d, m, raw[m].0 as int));
            assert(aircraft@[m] == derived_aircraft(*d, m, times@[m].0 as int));
            assert(aircraft@[m].ready_time.0 == MIN_MARGIN);
        }
    }
    (Instance(aircraft), times)
}

/// Why an instance could not be generated.
#[derive(Clone, Copy, Debug, PartialEq, Eq, Structural)]
pub enum GenerateError {
    /// An instance needs at least one aircraft.
    NoAircraft,
}

/// rand's standard generator, carried through without looking inside.
#[verifier::external_type_specification]
#[verifier::external_body]
pub struct ExStdRng(StdRng);

/// Relies on rand's `SeedableRng::seed_from_u64` for a generator whose
/// stream is fixed by `seed`.
#[verifier::external_body]
fn seeded_rng(seed: u64) -> StdRng {
    StdRng::seed_from_u64(seed)
}

/// Relies on rand's `Rng::random_range`: a value of the inclusive range,
/// which it panics on only when the range is empty.
#[verifier::external_body]
fn draw_between(rng: &mut StdRng, lo: i32, hi: i32) -> (r: i32)
    requires
        lo <= hi,
    ensures
        lo <= r <= hi,
{
    rng.random_range(lo..=hi)
}

/// Relies on rand's `IndexedRandom::choose`: `None` for an empty slice,
/// otherwise one of its items.
#[verifier::external_body]
fn choose_wake(rng: &mut StdRng, wakes: &[WakeCategory]) -> (r: Option<WakeCategory>)
    ensures
        wakes@.len() == 0 <==> r is None,
        r matches Some(w) ==> wakes@.contains(w),
{
    wakes.choose(rng).copied()
}

/// Relies on rand's `SliceRandom::shuffle`: the items are permuted in place.
#[verifier::external_body]
fn shuffle_positions(v: &mut Vec<usize>, rng: &mut StdRng)
    ensures
        final(v)@.to_multiset() == old(v)@.to_multiset(),
{
    v.shuffle(rng)
}

/// Draws the random values for `n` aircraft from `rng`, in the order the
/// generator consumes them.
fn draw_all(n: usize, rng: &mut StdRng) -> (r: Draws)
    requires
        1 <= n <= MAX_AIRCRAFT,
    ensures
        r.wf(),
        r.count() == n,
{
    let base_step = draw_between(rng, 120, 180);
    let global_start = draw_between(rng, 300, 600);
    let jitter_max = if base_step / 2 > 1 {
        base_step / 2
    } else {
        1
    };
    let wakes = vec![WakeCategory::Heavy, WakeCategory::Medium, WakeCategory::Light];
    let mut ready_jitter: Vec<i32> = Vec::new();
    let mut taxi_delay: Vec<i32> = Vec::new();
    let mut wake: Vec<WakeCategory> = Vec::new();
    let mut i: usize = 0;
    while i < n
        invariant
            i <= n,
            120 <= base_step <= 180,
            jitter_max == base_step / 2,
            wakes@.len() == 3,
            ready_jitter@.len() == i,
            taxi_delay@.len() == i,
            wake@.len() == i,
            forall|m: int| 0 <= m < i ==> 0 <= #[trigger] ready_jitter@[m] <= base_step / 2,
            forall|m: int| 0 <= m < i ==> 15 <= #[trigger] taxi_delay@[m] <= 45,
        decreases n - i,
    {
        ready_jitter.push(draw_between(rng, 0, jitter_max));
        taxi_delay.push(draw_between(rng, 15, 45));
        wake.push(choose_wake(rng, wakes.as_slice()).unwrap());
        i = i + 1;
    }
    let mut order: Vec<usize> = Vec::new();
    let mut i: usize = 0;
    while i < n
        invariant
            i <= n,
            order@.len() == i,
            forall|m: int| 0 <= m < i ==> #[trigger] order@[m] == m,
        decreases n - i,
    {
        order.push(i);
        i = i + 1;
    }
    let ghost positions = order@;
    shuffle_positions(&mut order, rng);
    proof {
        lemma_shuffled_positions(positions, order@, n as int);
    }
    let mut extra_gap: Vec<i32> = Vec::new();
    let mut k: usize = 1;
    while k < n
        invariant
            1 <= k <= n,
            extra_gap@.len() == k - 1,
            forall|m: int| 0 <= m < k - 1 ==> 30 <= #[trigger] extra_gap@[m] <= 120,
        decreases n - k,
    {
        extra_gap.push(draw_between(rng, 30, 120));
        k = k + 1;
    }
    let mut time_width: Vec<i32> = Vec::new();
    let mut pre_ready: Vec<i32> = Vec::new();
    let mut i: usize = 0;
    while i < n
        invariant
            i <= n,
            time_width@.len() == i,
            pre_ready@.len() == i,
            forall|m: int| 0 <= m < i ==> 1500 <= #[trigger] time_width@[m] <= 2100,
            forall|m: int| 0 <= m < i ==> 0 <= #[trigger] pre_ready@[m] <= 300,
        decreases n - i,
    {
        time_width.push(draw_between(rng, 1500, 2100));
        pre_ready.push(draw_between(rng, 0, 300));
        i = i + 1;
    }
    Draws {
        base_step,
        global_start,
        ready_jitter,
        taxi_delay,
        wake,
        order,
        extra_gap,
        time_width,
        pre_ready,
    }
}

/// A permutation of `0..n` holds each position below `n` once.
proof fn lemma_shuffled_positions(positions: Seq<usize>, shuffled: Seq<usize>, n: int)
    requires
        positions.len() == n,
        forall|m: int| 0 <= m < n ==> #[trigger] positions[m] == m,
        shuffled.to_multiset() == positions.to_multiset(),
    ensures
        shuffled.len() == n,
        shuffled.no_duplicates(),
        forall|k: int| 0 <= k < n ==> #[trigger] shuffled[k] < n,
{
    vstd::seq_lib::to_multiset_len(positions);
    vstd::seq_lib::to_multiset_len(shuffled);
    positions.lemma_multiset_has_no_duplicates();
    shuffled.lemma_multiset_has_no_duplicates_conv();
    assert forall|k: int| 0 <= k < n implies #[trigger] shuffled[k] < n by {
        let x = shuffled[k];
        vstd::seq_lib::to_multiset_contains(shuffled, x);
        vstd::seq_lib::to_multiset_contains(positions, x);
        assert(shuffled.contains(x));
        let m = choose|m: int| 0 <= m < n && positions[m] == x;
    }
}

/// Generates a feasible instance of `n` aircraft from a random stream seeded
/// by `seed` (0 when absent), together with each aircraft's takeoff time.
pub fn generate_feasible_instance(n: usize, seed: Option<u64>) -> (r: Result<(Instance, Vec<Sec>), GenerateError>)
    requires
        n <= MAX_AIRCRAFT,
    ensures
        n == 0 <==> r == Err::<(Instance, Vec<Sec>), GenerateError>(GenerateError::NoAircraft),
        r matches Ok((inst, times)) ==> generated_from_some_draws(n as nat, inst@, times@),
{
    if n == 0 {
        return Err(GenerateError::NoAircraft);
    }
    let mut rng = seeded_rng(
        match seed {
            Some(s) => s,
            None => 0,
        },
    );
    let d = draw_all(n, &mut rng);
    let (inst, times) = build_instance_from_draws(&d);
    proof {
        assert(d.wf() && d.count() == n && is_generated_from(d, inst@, times@));
        assert(generated_from_some_draws(n as nat, inst@, times@));
    }
    Ok((inst, times))
}

/// `(inst, times)` is what generation makes of some valid draws for `n`
/// aircraft.
pub open spec fn generated_from_some_draws(n: nat, inst: Seq<Aircraft>, times: Seq<Sec>) -> bool {
    exists|d: Draws| d.wf() && d.count() == n && #[trigger] is_generated_from(d, inst, times)
}

/// Whatever the draws, a generated instance keeps its window widths and
/// its margin: CTOT windows 900 seconds wide, hard windows 1500 to 2100
/// seconds wide and opened no earlier than the ready time, and every
/// temporal value at least `MIN_MARGIN`.
pub proof fn lemma_generated_instance_invariants(n: nat, inst: Seq<Aircraft>, times: Seq<Sec>)
    requires
        generated_from_some_draws(n, inst, times),
    ensures
        inst.len() == n,
        times.len() == n,
        forall|i: int| 0 <= i < n ==> #[trigger] inst[i].id == AircraftID(i as u32),
        forall|i: int| 0 <= i < n ==> #[trigger] inst[i].ctot_window.1.0 - inst[i].ctot_window.0.0 == 900,
        forall|i: int| 0 <= i < n ==> 1500 <= #[trigger] inst[i].time_window.1.0 - inst[i].time_window.0.0 <= 2100,
        forall|i: int| 0 <= i < n ==> #[trigger] inst[i].ready_time.0 <= inst[i].time_window.0.0,
        forall|i: int| 0 <= i < n ==> MIN_MARGIN <= #[trigger] inst[i].ready_time.0,
        forall|i: int| 0 <= i < n ==> MIN_MARGIN <= #[trigger] inst[i].time_window.0.0,
        forall|i: int| 0 <= i < n ==> MIN_MARGIN <= #[trigger] inst[i].ctot_window.0.0,
        forall|i: int| 0 <= i < n ==> MIN_MARGIN <= #[trigger] times[i].0,
{
    let d = choose|d: Draws| d.wf() && d.count() == n && #[trigger] is_generated_from(d, inst, times);
    lemma_window_widths(d, inst, times);
    lemma_margin(d, inst, times);
    assert forall|i: int| 0 <= i < n implies #[trigger] inst[i].id == AircraftID(i as u32) by {
        assert(inst[i] == derived_aircraft(d, i, times[i].0 as int));
    }
}

/// Aircraft `i` takes a place in the departure order.
spec fn departs(d: Draws, i: int) -> bool {
    exists|k: int| 0 <= k < d.count() && #[trigger] d.order@[k] == i
}

/// Every aircraft position appears in the departure order.
proof fn lemma_order_covers(d: Draws)
    requires
        d.wf(),
    ensures
        forall|i: int| 0 <= i < d.count() ==> #[trigger] departs(d, i),
{
    lemma_positions_cover(d.order@);
    assert forall|i: int| 0 <= i < d.count() implies #[trigger] departs(d, i) by {
        assert(lists_position(d.order@, i));
    }
}

/// The `k`-th departure against the one before it.
proof fn lemma_departure_step(d: Draws, inst: Seq<Aircraft>, times: Seq<Sec>, k: int)
    requires
        d.wf(),
        is_generated_from(d, inst, times),
        1 <= k < d.count(),
    ensures
        times[d.order@[k] as int].0 >= times[d.order@[k - 1] as int].0 + icao_sep(
            inst[d.order@[k - 1] as int].wake,
            inst[d.order@[k] as int].wake,
        ),
        times[d.order@[k] as int].0 >= d.release(d.order@[k] as int),
{
    let shift = times[d.order@[0] as int].0 - d.sequence_time(0);
    let i = d.order@[k - 1] as int;
    let j = d.order@[k] as int;
    assert(times[i].0 == d.sequence_time((k - 1) as nat) + shift);
    assert(times[j].0 == d.sequence_time(k as nat) + shift);
    assert(inst[i] == derived_aircraft(d, i, times[i].0 as int));
    assert(inst[j] == derived_aircraft(d, j, times[j].0 as int));
}

/// Each departure of the chosen order leaves at least the ICAO separation
/// after the one before it, and no aircraft departs before its initial ready
/// time plus its taxi delay.
pub proof fn lemma_sequence_feasible(d: Draws, inst: Seq<Aircraft>, times: Seq<Sec>)
    requires
        d.wf(),
        is_generated_from(d, inst, times),
    ensures
        forall|k: int|
            1 <= k < d.count() ==> #[trigger] times[d.order@[k] as int].0 >= times[d.order@[k - 1] as int].0
                + icao_sep(inst[d.order@[k - 1] as int].wake, inst[d.order@[k] as int].wake),
        forall|k: int| 0 <= k < d.count() ==> #[trigger] times[d.order@[k] as int].0 >= d.release(d.order@[k] as int),
{
    assert forall|k: int| 1 <= k < d.count() implies #[trigger] times[d.order@[k] as int].0 >= times[d.order@[k - 1] as int].0
        + icao_sep(inst[d.order@[k - 1] as int].wake, inst[d.order@[k] as int].wake) by {
        lemma_departure_step(d, inst, times, k);
    }
    assert forall|k: int| 0 <= k < d.count() implies #[trigger] times[d.order@[k] as int].0 >= d.release(d.order@[k] as int) by {
        if k > 0 {
            lemma_departure_step(d, inst, times, k);
        }
    }
}

/// Every CTOT window is 900 seconds wide, every hard window between 1500 and
/// 2100 seconds, and every ready time comes no later than its hard window's
/// start.
pub proof fn lemma_window_widths(d: Draws, inst: Seq<Aircraft>, times: Seq<Sec>)
    requires
        d.wf(),
        is_generated_from(d, inst, times),
    ensures
        forall|i: int| 0 <= i < inst.len() ==> #[trigger] inst[i].ctot_window.1.0 - inst[i].ctot_window.0.0 == 900,
        forall|i: int|
            0 <= i < inst.len() ==> 1500 <= #[trigger] inst[i].time_window.1.0 - inst[i].time_window.0.0 <= 2100,
        forall|i: int| 0 <= i < inst.len() ==> #[trigger] inst[i].ready_time.0 <= inst[i].time_window.0.0,
{
    assert forall|i: int| 0 <= i < inst.len() implies #[trigger] inst[i] == derived_aircraft(d, i, times[i].0 as int) by {
        assert(MIN_MARGIN <= times[i].0 <= 30_001_500);
    }
}

/// Every ready time, hard-window start, CTOT start and takeoff time is at
/// least `MIN_MARGIN`.
pub proof fn lemma_margin(d: Draws, inst: Seq<Aircraft>, times: Seq<Sec>)
    requires
        d.wf(),
        is_generated_from(d, inst, times),
    ensures
        forall|i: int| 0 <= i < inst.len() ==> MIN_MARGIN <= #[trigger] inst[i].ready_time.0,
        forall|i: int| 0 <= i < inst.len() ==> MIN_MARGIN <= #[trigger] inst[i].time_window.0.0,
        forall|i: int| 0 <= i < inst.len() ==> MIN_MARGIN <= #[trigger] inst[i].ctot_window.0.0,
        forall|i: int| 0 <= i < times.len() ==> MIN_MARGIN <= #[trigger] times[i].0,
{
    assert forall|i: int| 0 <= i < inst.len() implies MIN_MARGIN <= #[trigger] inst[i].time_window.0.0
        && MIN_MARGIN <= inst[i].ctot_window.0.0 by {
        assert(MIN_MARGIN <= times[i].0 <= 30_001_500);
        assert(inst[i] == derived_aircraft(d, i, times[i].0 as int));
        assert(inst[i].ready_time.0 >= MIN_MARGIN);
    }
    assert forall|i: int| 0 <= i < inst.len() implies MIN_MARGIN <= #[trigger] inst[i].ctot_window.0.0 by {
        assert(MIN_MARGIN <= inst[i].time_window.0.0);
        assert(MIN_MARGIN <= times[i].0 <= 30_001_500);
        assert(inst[i] == derived_aircraft(d, i, times[i].0 as int));
    }
}

/// The same draws always give the same instance and the same takeoff times.
pub proof fn lemma_generation_deterministic(
    d: Draws,
    inst1: Seq<Aircraft>,
    times1: Seq<Sec>,
    inst2: Seq<Aircraft>,
    times2: Seq<Sec>,
)
    requires
        d.wf(),
        is_generated_from(d, inst1, times1),
        is_generated_from(d, inst2, times2),
    ensures
        inst1 == inst2,
        times1 == times2,
{
    let n = d.count() as int;
    let shift1 = times1[d.order@[0] as int].0 - d.sequence_time(0);
    let shift2 = times2[d.order@[0] as int].0 - d.sequence_time(0);
    lemma_order_covers(d);
    assert forall|i: int| 0 <= i < n implies #[trigger] times1[i].0 - times2[i].0 == shift1 - shift2 by {
        assert(departs(d, i));
        let k = choose|k: int| 0 <= k < n && #[trigger] d.order@[k] == i;
        assert(times1[d.order@[k] as int].0 == d.sequence_time(k as nat) + shift1);
        assert(times2[d.order@[k] as int].0 == d.sequence_time(k as nat) + shift2);
    }
    assert forall|i: int| 0 <= i < n implies #[trigger] inst1[i].ready_time.0 - inst2[i].ready_time.0 == shift1 - shift2 by {
        assert(times1[i].0 - times2[i].0 == shift1 - shift2);
        assert(MIN_MARGIN <= times1[i].0 <= 30_001_500);
        assert(MIN_MARGIN <= times2[i].0 <= 30_001_500);
        assert(inst1[i] == derived_aircraft(d, i, times1[i].0 as int));
        assert(inst2[i] == derived_aircraft(d, i, times2[i].0 as int));
    }
    if shift1 < shift2 {
        let i = choose|i: int| 0 <= i < n && #[trigger] inst2[i].ready_time.0 == MIN_MARGIN;
        assert(inst1[i].ready_time.0 - inst2[i].ready_time.0 == shift1 - shift2);
        assert(inst1[i].ready_time.0 >= MIN_MARGIN);
    }
    if shift2 < shift1 {
        let i = choose|i: int| 0 <= i < n && #[trigger] inst1[i].ready_time.0 == MIN_MARGIN;
        assert(inst1[i].ready_time.0 - inst2[i].ready_time.0 == shift1 - shift2);
        assert(inst2[i].ready_time.0 >= MIN_MARGIN);
    }
    assert(shift1 == shift2);
    assert forall|i: int| 0 <= i < n implies #[trigger] times1[i] == times2[i] by {
        assert(times1[i].0 - times2[i].0 == shift1 - shift2);
    }
    assert(times1 =~= times2);
    assert forall|i: int| 0 <= i < n implies #[trigger] inst1[i] == inst2[i] by {
        assert(times1[i] == times2[i]);
        assert(inst1[i] == derived_aircraft(d, i, times1[i].0 as int));
        assert(inst2[i] == derived_aircraft(d, i, times2[i].0 as int));
    }
    assert(inst1 =~= inst2);
}

proof fn lemma_release_bounds(d: Draws, i: int)
    requires
        d.wf(),
        0 <= i < d.count(),
    ensures
        300 <= d.initial_ready(i) <= 11_900_000,
        315 <= d.release(i) <= 12_000_000,
{
    let s = d.base_step as int;
    assert(0 <= i * s <= 65535 * 180) by (nonlinear_arith)
        requires
            0 <= i < 65535,
            120 <= s <= 180,
    ;
}

proof fn lemma_sequence_bounds(d: Draws, k: nat)
    requires
        d.wf(),
        k < d.count(),
    ensures
        315 <= d.sequence_time(k) <= 12_000_000 + 229 * k,
    decreases k,
{
    lemma_release_bounds(d, d.order@[k as int] as int);
    if k > 0 {
        lemma_sequence_bounds(d, (k - 1) as nat);
    }
}

} // verus!
