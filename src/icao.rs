use vstd::prelude::*;
use crate::types::{AircraftID, Sec, WakeCategory};
use crate::model::{Aircraft, Instance};
use itertools::Itertools;

verus! {

/// The ICAO minimum departure separation, in seconds, when `follower`
/// takes off after `leader`.
pub open spec fn icao_sep(leader: WakeCategory, follower: WakeCategory) -> int {
    match (leader, follower) {
        (WakeCategory::Heavy, WakeCategory::Heavy) => 96,
        (WakeCategory::Heavy, WakeCategory::Medium) => 96,
        (WakeCategory::Heavy, WakeCategory::Light) => 109,
        (WakeCategory::Medium, WakeCategory::Heavy) => 69,
        (WakeCategory::Medium, WakeCategory::Medium) => 69,
        (WakeCategory::Medium, WakeCategory::Light) => 82,
        (WakeCategory::Light, WakeCategory::Heavy) => 60,
        (WakeCategory::Light, WakeCategory::Medium) => 60,
        (WakeCategory::Light, WakeCategory::Light) => 69,
    }
}

/// Minimum separation in seconds between a leading and a following departure.
pub fn icao_sep_seconds(leader: WakeCategory, follower: WakeCategory) -> (r: i32)
    ensures
        r == icao_sep(leader, follower),
{
    match (leader, follower) {
        (WakeCategory::Heavy, WakeCategory::Heavy) => 96,
        (WakeCategory::Heavy, WakeCategory::Medium) => 96,
        (WakeCategory::Heavy, WakeCategory::Light) => 109,
        (WakeCategory::Medium, WakeCategory::Heavy) => 69,
        (WakeCategory::Medium, WakeCategory::Medium) => 69,
        (WakeCategory::Medium, WakeCategory::Light) => 82,
        (WakeCategory::Light, WakeCategory::Heavy) => 60,
        (WakeCategory::Light, WakeCategory::Medium) => 60,
        (WakeCategory::Light, WakeCategory::Light) => 69,
    }
}

} // verus!

verus! {

/// Relies on itertools' `cartesian_product`: every pair of the two ranges,
/// with the first component varying slowest.
#[verifier::external_body]
fn index_pairs(n: usize) -> (r: Vec<(usize, usize)>)
    requires
        n * n <= usize::MAX,
    ensures
        r@.len() == n * n,
        forall|k: int| 0 <= k < n * n ==> #[trigger] r@[k] == ((k / n as int) as usize, (k % n as int) as usize),
{
    (0..n).cartesian_product(0..n).collect()
}

/// The separation required between every ordered pair of an instance's
/// aircraft, keyed by their identities.
pub struct SeparationMap {
    n: usize,
    entries: Vec<((AircraftID, AircraftID), Sec)>,
}

/// The entry for leader `a` and follower `b`: zero when they share an
/// identity, the ICAO minimum for their categories otherwise.
pub open spec fn pair_entry(a: Aircraft, b: Aircraft) -> ((AircraftID, AircraftID), Sec) {
    ((a.id, b.id), Sec(if a.id == b.id { 0 } else { icao_sep(a.wake, b.wake) as i32 }))
}

impl View for SeparationMap {
    type V = Seq<((AircraftID, AircraftID), Sec)>;

    closed spec fn view(&self) -> Seq<((AircraftID, AircraftID), Sec)> {
        self.entries@
    }
}

impl SeparationMap {
    /// The number of aircraft the map was built over.
    pub closed spec fn size(&self) -> nat {
        self.n as nat
    }

    /// The map holds one entry for each ordered pair of `ac`, the pair at
    /// positions `i` and `j` at index `i * n + j`.
    pub open spec fn built_from(&self, ac: Seq<Aircraft>) -> bool {
        &&& self.size() == ac.len()
        &&& self@.len() == ac.len() * ac.len()
        &&& forall|k: int|
            0 <= k < self@.len() ==> #[trigger] self@[k] == pair_entry(
                ac[k / ac.len() as int],
                ac[k % ac.len() as int],
            )
    }

    /// Number of entries: one per ordered pair of aircraft.
    pub fn len(&self) -> (r: usize)
        ensures
            r == self@.len(),
    {
        self.entries.len()
    }

    /// All entries, in order of leader position, then follower position.
    pub fn entries(&self) -> (r: &[((AircraftID, AircraftID), Sec)])
        ensures
            r@ == self@,
    {
        self.entries.as_slice()
    }

    /// The separation stored for `(leader, follower)`: the first entry with
    /// that key, or `None` when the pair is absent.
    pub fn get(&self, leader: AircraftID, follower: AircraftID) -> (r: Option<Sec>)
        ensures
            r is None <==> forall|k: int| 0 <= k < self@.len() ==> #[trigger] self@[k].0 != (leader, follower),
            r matches Some(s) ==> exists|k: int|
                0 <= k < self@.len() && #[trigger] self@[k] == ((leader, follower), s) && forall|m: int|
                    0 <= m < k ==> #[trigger] self@[m].0 != (leader, follower),
    {
        let mut k: usize = 0;
        while k < self.entries.len()
            invariant
                k <= self@.len(),
                forall|m: int| 0 <= m < k ==> #[trigger] self@[m].0 != (leader, follower),
            decreases self@.len() - k,
        {
            let e = self.entries[k];
            if e.0.0 == leader && e.0.1 == follower {
                assert(self@[k as int] == ((leader, follower), e.1));
                return Some(e.1);
            }
            k = k + 1;
        }
        None
    }

    /// The separation between the aircraft at positions `leader` and
    /// `follower` of the instance the map was built from.
    pub fn between(&self, leader: usize, follower: usize) -> (r: Sec)
        requires
            self@.len() == self.size() * self.size(),
            leader < self.size(),
            follower < self.size(),
        ensures
            r == self@[leader * self.size() + follower].1,
    {
        let total = self.entries.len();
        proof {
            lemma_pair_index_bound(leader as int, follower as int, self.n as int);
            assert(leader * self.n <= leader * self.n + follower);
        }
        self.entries[leader * self.n + follower].1
    }
}

/// Position `i * n + j` lies within an `n` by `n` table and decomposes back
/// into `i` and `j`.
pub proof fn lemma_pair_index_bound(i: int, j: int, n: int)
    requires
        0 <= i < n,
        0 <= j < n,
    ensures
        0 <= i * n + j < n * n,
        (i * n + j) / n == i,
        (i * n + j) % n == j,
{
    assert(0 <= i * n + j < n * n) by (nonlinear_arith)
        requires
            0 <= i < n,
            0 <= j < n,
    ;
    vstd::arithmetic::div_mod::lemma_fundamental_div_mod_converse(i * n + j, n, i, j);
}

/// A position below `n * n` splits into a row and a column below `n`.
pub proof fn lemma_pair_index_split(k: int, n: int)
    requires
        0 <= n,
        0 <= k < n * n,
    ensures
        n > 0,
        0 <= k / n < n,
        0 <= k % n < n,
{
    assert(n > 0) by (nonlinear_arith)
        requires
            0 <= n,
            0 <= k < n * n,
    ;
    vstd::arithmetic::div_mod::lemma_fundamental_div_mod(k, n);
    vstd::arithmetic::div_mod::lemma_div_pos_is_pos(k, n);
    vstd::arithmetic::div_mod::lemma_mod_pos_bound(k, n);
    let q = k / n;
    let r = k % n;
    assert(q < n) by (nonlinear_arith)
        requires
            k == n * q + r,
            0 <= r,
            k < n * n,
            n > 0,
    ;
}

/// In a separation map every aircraft is paired with itself at separation
/// zero, and any entry whose two identities coincide holds zero.
pub proof fn lemma_self_separation_zero(ac: Seq<Aircraft>, m: SeparationMap)
    requires
        m.built_from(ac),
    ensures
        forall|i: int|
            0 <= i < ac.len() ==> #[trigger] m@[i * ac.len() + i] == ((ac[i].id, ac[i].id), Sec(0)),
        forall|k: int| 0 <= k < m@.len() && #[trigger] m@[k].0.0 == m@[k].0.1 ==> m@[k].1 == Sec(0),
{
    let n = ac.len() as int;
    assert forall|i: int| 0 <= i < n implies #[trigger] m@[i * n + i] == ((ac[i].id, ac[i].id), Sec(0)) by {
        lemma_pair_index_bound(i, i, n);
    }
    assert forall|k: int| 0 <= k < m@.len() && #[trigger] m@[k].0.0 == m@[k].0.1 implies m@[k].1 == Sec(0) by {
        lemma_pair_index_split(k, n);
    }
}

impl Instance {
    /// Builds the separation required between every ordered pair of aircraft:
    /// zero for an aircraft with itself, the ICAO minimum otherwise.
    pub fn build_separation_map(&self) -> (r: SeparationMap)
        requires
            self@.len() * self@.len() <= usize::MAX,
        ensures
            r.built_from(self@),
    {
        let n = self.0.len();
        let pairs = index_pairs(n);
        let mut entries: Vec<((AircraftID, AircraftID), Sec)> = Vec::new();
        let mut k: usize = 0;
        while k < pairs.len()
            invariant
                n == self@.len(),
                pairs@.len() == n * n,
                forall|m: int| 0 <= m < n * n ==> #[trigger] pairs@[m] == ((m / n as int) as usize, (m % n as int) as usize),
                k <= pairs@.len(),
                entries@.len() == k,
                forall|m: int|
                    0 <= m < k ==> #[trigger] entries@[m] == pair_entry(
                        self@[m / n as int],
                        self@[m % n as int],
                    ),
            decreases pairs@.len() - k,
        {
            let (i, j) = pairs[k];
            proof {
                lemma_pair_index_split(k as int, n as int);
            }
            let a = self.0[i];
            let b = self.0[j];
            let sep = if a.id.0 == b.id.0 {
                Sec(0)
            } else {
                Sec(icao_sep_seconds(a.wake, b.wake))
            };
            entries.push(((a.id, b.id), sep));
            k = k + 1;
        }
        SeparationMap { n, entries }
    }
}

} // verus!
