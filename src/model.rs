use vstd::prelude::*;
use crate::types::{AircraftID, Sec, WakeCategory};

verus! {

/// One departing aircraft with its time-window and CTOT constraints.
#[derive(Clone, Copy, Debug, Eq, Hash)]
pub struct Aircraft {
    pub id: AircraftID,
    pub time_window: (Sec, Sec),
    pub ctot_window: (Sec, Sec),
    pub ready_time: Sec,
    pub taxi_delay: Sec,
    pub wake: WakeCategory,
}

impl PartialEq for Aircraft {
    fn eq(&self, o: &Aircraft) -> (r: bool) {
        self.id == o.id && self.time_window.0 == o.time_window.0 && self.time_window.1
            == o.time_window.1 && self.ctot_window.0 == o.ctot_window.0 && self.ctot_window.1
            == o.ctot_window.1 && self.ready_time == o.ready_time && self.taxi_delay
            == o.taxi_delay && self.wake == o.wake
    }
}

impl vstd::std_specs::cmp::PartialEqSpecImpl for Aircraft {
    open spec fn obeys_eq_spec() -> bool {
        true
    }

    open spec fn eq_spec(&self, o: &Aircraft) -> bool {
        *self == *o
    }
}

/// A runway-sequencing problem instance: aircraft in identity order.
pub struct Instance(pub Vec<Aircraft>);

impl View for Instance {
    type V = Seq<Aircraft>;

    open spec fn view(&self) -> Seq<Aircraft> {
        self.0@
    }
}

impl Instance {
    /// No two aircraft of the instance share an identity.
    pub open spec fn ids_unique(&self) -> bool {
        forall|i: int, j: int|
            0 <= i < self@.len() && 0 <= j < self@.len() && i != j ==> #[trigger] self@[i].id
                != #[trigger] self@[j].id
    }
}

/// Position `i` occurs in `s`.
pub open spec fn lists_position(s: Seq<usize>, i: int) -> bool {
    exists|k: int| 0 <= k < s.len() && #[trigger] s[k] == i
}

/// A sequence of distinct positions below its own length lists every such
/// position.
pub proof fn lemma_positions_cover(s: Seq<usize>)
    requires
        s.no_duplicates(),
        forall|k: int| 0 <= k < s.len() ==> #[trigger] s[k] < s.len(),
    ensures
        forall|i: int| 0 <= i < s.len() ==> #[trigger] lists_position(s, i),
{
    let n = s.len() as int;
    let t = s.map_values(|x: usize| x as int);
    assert(t.no_duplicates()) by {
        assert forall|a: int, b: int| 0 <= a < n && 0 <= b < n && a != b implies t[a] != t[b] by {
            assert(s[a] != s[b]);
        }
    }
    t.unique_seq_to_set();
    vstd::set_lib::lemma_int_range(0, n);
    let range = vstd::set_lib::set_int_range(0, n);
    assert(t.to_set().subset_of(range)) by {
        assert forall|x: int| t.to_set().contains(x) implies range.contains(x) by {
            let k = choose|k: int| 0 <= k < t.len() && t[k] == x;
        }
    }
    vstd::set_lib::lemma_subset_equality(t.to_set(), range);
    assert forall|i: int| 0 <= i < n implies #[trigger] lists_position(s, i) by {
        assert(range.contains(i));
        assert(t.to_set().contains(i));
        let k = choose|k: int| 0 <= k < t.len() && t[k] == i;
        assert(s[k] == i);
    }
}

} // verus!
