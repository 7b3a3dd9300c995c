use vstd::prelude::*;

verus! {

/// A time value in whole seconds from an arbitrary epoch.
#[derive(Clone, Copy, Debug, PartialEq, Eq, Structural, PartialOrd, Ord, Hash)]
pub struct Sec(pub i32);

/// An aircraft's identity within an instance.
#[derive(Clone, Copy, Debug, PartialEq, Eq, Structural, Hash)]
pub struct AircraftID(pub u32);

/// ICAO wake-turbulence category.
#[derive(Clone, Copy, Debug, PartialEq, Eq, Structural, Hash)]
pub enum WakeCategory {
    Heavy,
    Medium,
    Light,
}

impl std::ops::Add for Sec {
    type Output = Sec;

    fn add(self, rhs: Sec) -> (r: Sec) {
        Sec(self.0 + rhs.0)
    }
}

impl vstd::std_specs::ops::AddSpecImpl for Sec {
    open spec fn obeys_add_spec() -> bool {
        true
    }

    open spec fn add_req(self, rhs: Sec) -> bool {
        i32::MIN <= self.0 + rhs.0 <= i32::MAX
    }

    open spec fn add_spec(self, rhs: Sec) -> Sec {
        Sec((self.0 + rhs.0) as i32)
    }
}

impl std::ops::Sub for Sec {
    type Output = Sec;

    fn sub(self, rhs: Sec) -> (r: Sec) {
        Sec(self.0 - rhs.0)
    }
}

impl vstd::std_specs::ops::SubSpecImpl for Sec {
    open spec fn obeys_sub_spec() -> bool {
        true
    }

    open spec fn sub_req(self, rhs: Sec) -> bool {
        i32::MIN <= self.0 - rhs.0 <= i32::MAX
    }

    open spec fn sub_spec(self, rhs: Sec) -> Sec {
        Sec((self.0 - rhs.0) as i32)
    }
}

impl From<i32> for Sec {
    fn from(s: i32) -> (r: Sec) {
        Sec(s)
    }
}

impl vstd::std_specs::convert::FromSpecImpl<i32> for Sec {
    open spec fn obeys_from_spec() -> bool {
        true
    }

    open spec fn from_spec(s: i32) -> Sec {
        Sec(s)
    }
}

} // verus!
