use crate::birthday::{Birthday, DAYS_IN_YEAR};
use crate::detect::days_of;
use crate::random::{mix, pick_in, state_after, FastRng};
use vstd::prelude::*;

verus! {

/// Largest number of birthdays in one set.
pub const MAX_BIRTHDAYS: u8 = 100;

/// The day drawn from a generator whose state is `state`.
pub open spec fn drawn_day(state: u64) -> u16 {
    pick_in(0, DAYS_IN_YEAR, state)
}

/// The `n` days drawn one after another from a generator whose state is `state`.
pub open spec fn days_drawn(state: u64, n: nat) -> Seq<u16> {
    Seq::new(n, |i: int| drawn_day(state_after(state, i as nat)))
}

/// The birthdays sampled for one trial, in sampling order.
pub struct BirthdayStorage {
    birthdays: Vec<Birthday>,
}

impl View for BirthdayStorage {
    type V = Seq<u16>;

    closed spec fn view(&self) -> Seq<u16> {
        days_of(self.birthdays@)
    }
}

impl BirthdayStorage {
    /// `count` birthdays drawn by rand's thread-local generator.
    pub fn new(count: u8) -> (r: BirthdayStorage)
        requires
            1 <= count <= MAX_BIRTHDAYS,
        ensures
            r@.len() == count,
            forall|i: int| 0 <= i < r@.len() ==> r@[i] < DAYS_IN_YEAR,
    {
        let mut birthdays: Vec<Birthday> = Vec::new();
        let mut n: u8 = 0;
        while n < count
            invariant
                n <= count,
                birthdays@.len() == n,
                forall|i: int| 0 <= i < n ==> birthdays@[i]@ < DAYS_IN_YEAR,
            decreases count - n,
        {
            birthdays.push(Birthday::random());
            n = n + 1;
        }
        BirthdayStorage { birthdays }
    }

    /// `count` birthdays drawn one after another from `rng`.
    pub fn sample(count: u8, rng: &mut FastRng) -> (r: BirthdayStorage)
        requires
            1 <= count <= MAX_BIRTHDAYS,
        ensures
            r@ == days_drawn(old(rng)@, count as nat),
            final(rng)@ == state_after(old(rng)@, count as nat),
    {
        let ghost start = rng@;
        let mut birthdays: Vec<Birthday> = Vec::new();
        let mut n: u8 = 0;
        while n < count
            invariant
                n <= count,
                rng@ == state_after(start, n as nat),
                birthdays@.len() == n,
                days_of(birthdays@) =~= days_drawn(start, n as nat),
            decreases count - n,
        {
            let b = Birthday::randomm(rng);
            let ghost before = birthdays@;
            birthdays.push(b);
            proof {
                assert(b@ == drawn_day(state_after(start, n as nat)));
                assert(state_after(start, (n + 1) as nat) == mix(state_after(start, n as nat)));
            }
            n = n + 1;
            assert forall|i: int| 0 <= i < n implies days_of(birthdays@)[i] == days_drawn(start, n as nat)[i] by {
                if i < n - 1 {
                    assert(birthdays@[i] == before[i]);
                    assert(days_of(before)[i] == days_drawn(start, (n - 1) as nat)[i]);
                }
            }
            assert(days_of(birthdays@) =~= days_drawn(start, n as nat));
        }
        BirthdayStorage { birthdays }
    }

    /// The birthdays in sampling order.
    pub fn as_slice(&self) -> (r: &[Birthday])
        ensures
            days_of(r@) == self@,
    {
        self.birthdays.as_slice()
    }
}

} // verus!
