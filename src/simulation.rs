use crate::birthday::{Birthday, DAYS_IN_YEAR};
use crate::detect::{all_distinct, days_of, has_duplicate};
use crate::random::{state_after, FastRng};
use crate::storage::{days_drawn, BirthdayStorage, MAX_BIRTHDAYS};
use vstd::prelude::*;

verus! {

/// Inputs that the simulation rejects.
#[derive(Clone, Copy, Debug, PartialEq, Eq, Structural)]
pub enum SimulationError {
    /// The number of birthdays per set is outside `[1, 100]`.
    OutOfRangeCount,
    /// The number of trials is not positive.
    InvalidTrialCount,
}

/// Outcome of a simulation: how many trials ran and how many had a collision.
#[derive(Clone, Copy, Debug, PartialEq, Eq, Structural)]
pub struct SimulationResult {
    pub trials: u64,
    pub collisions: u64,
}

/// A number of birthdays per set that the simulation accepts.
pub open spec fn valid_count(count: int) -> bool {
    1 <= count <= MAX_BIRTHDAYS
}

/// Number of collisions over `trials` consecutive sets of `count` days drawn
/// from a generator whose state is `state`.
pub open spec fn collisions_from(state: u64, count: nat, trials: nat) -> nat
    decreases trials,
{
    if trials == 0 {
        0
    } else {
        (if all_distinct(days_drawn(state, count)) { 0nat } else { 1nat })
            + collisions_from(state_after(state, count), count, (trials - 1) as nat)
    }
}

/// Number of collisions over the consecutive blocks of `count` days of `days`;
/// a shorter remainder at the end is not a block.
pub open spec fn collisions_in(days: Seq<u16>, count: nat) -> nat
    decreases days.len(),
{
    if count == 0 || days.len() < count {
        0
    } else {
        (if all_distinct(days.take(count as int)) { 0nat } else { 1nat })
            + collisions_in(days.skip(count as int), count)
    }
}

proof fn lemma_state_after_add(state: u64, a: nat, b: nat)
    ensures
        state_after(state, a + b) == state_after(state_after(state, a), b),
    decreases b,
{
    if b > 0 {
        lemma_state_after_add(state, a, (b - 1) as nat);
        assert(state_after(state, a + b) == crate::random::mix(state_after(state, (a + b - 1) as nat)));
    }
}

proof fn lemma_collisions_in_append(s: Seq<u16>, b: Seq<u16>, c: nat, k: nat)
    requires
        c > 0,
        s.len() == c * k,
        b.len() == c,
    ensures
        collisions_in(s + b, c) == collisions_in(s, c) + (if all_distinct(b) { 0nat } else { 1nat }),
    decreases k,
{
    if k == 0 {
        assert(s.len() == 0) by (nonlinear_arith)
            requires
                s.len() == c * k,
                k == 0,
        ;
        assert(s + b =~= b);
        assert(b.take(c as int) =~= b);
        assert(b.skip(c as int).len() == 0);
        assert(collisions_in(b.skip(c as int), c) == 0);
        assert(collisions_in(s, c) == 0);
        assert(collisions_in(b, c) == (if all_distinct(b) { 0nat } else { 1nat })
            + collisions_in(b.skip(c as int), c));
    } else {
        assert(s.len() >= c && s.len() - c == c * (k - 1)) by (nonlinear_arith)
            requires
                s.len() == c * k,
                k > 0,
                c > 0,
        ;
        assert((s + b).take(c as int) =~= s.take(c as int));
        assert((s + b).skip(c as int) =~= s.skip(c as int) + b);
        lemma_collisions_in_append(s.skip(c as int), b, c, (k - 1) as nat);
        assert(collisions_in(s, c) == (if all_distinct(s.take(c as int)) { 0nat } else { 1nat })
            + collisions_in(s.skip(c as int), c));
        assert(collisions_in(s + b, c) == (if all_distinct((s + b).take(c as int)) { 0nat } else { 1nat })
            + collisions_in((s + b).skip(c as int), c));
    }
}

proof fn lemma_one_is_distinct(s: Seq<u16>)
    requires
        s.len() <= 1,
    ensures
        all_distinct(s),
{
}

/// With one birthday per set no trial has a collision, whatever the
/// generator's state and the number of trials.
pub proof fn lemma_single_birthday_never_collides(state: u64, trials: nat)
    ensures
        collisions_from(state, 1, trials) == 0,
    decreases trials,
{
    if trials > 0 {
        lemma_one_is_distinct(days_drawn(state, 1));
        lemma_single_birthday_never_collides(state_after(state, 1), (trials - 1) as nat);
    }
}

/// With one birthday per set no block of a given sequence of days has a
/// collision.
pub proof fn lemma_single_birthday_blocks_never_collide(days: Seq<u16>)
    ensures
        collisions_in(days, 1) == 0,
    decreases days.len(),
{
    if days.len() >= 1 {
        lemma_one_is_distinct(days.take(1));
        lemma_single_birthday_blocks_never_collide(days.skip(1));
    }
}

/// A set of `count` days drawn from `rng`; sets outside `[1, 100]` are refused.
pub fn sample_set(count: u64, rng: &mut FastRng) -> (r: Result<BirthdayStorage, SimulationError>)
    ensures
        r is Ok <==> valid_count(count as int),
        count > MAX_BIRTHDAYS ==> r is Err,
        r is Err ==> r == Err::<BirthdayStorage, SimulationError>(SimulationError::OutOfRangeCount)
            && final(rng)@ == old(rng)@,
        r matches Ok(s) ==> {
            &&& s@ == days_drawn(old(rng)@, count as nat)
            &&& s@.len() == count
            &&& forall|i: int| 0 <= i < s@.len() ==> #[trigger] s@[i] < DAYS_IN_YEAR
            &&& final(rng)@ == state_after(old(rng)@, count as nat)
        },
{
    if count < 1 || count > MAX_BIRTHDAYS as u64 {
        return Err(SimulationError::OutOfRangeCount);
    }
    let s = BirthdayStorage::sample(count as u8, rng);
    Ok(s)
}

/// Runs `trials` trials of `count` birthdays drawn from `rng` and counts those
/// with a collision.
pub fn run_trials(count: u8, trials: u64, rng: &mut FastRng) -> (r: u64)
    requires
        valid_count(count as int),
    ensures
        r == collisions_from(old(rng)@, count as nat, trials as nat),
        r <= trials,
        final(rng)@ == state_after(old(rng)@, (count * trials) as nat),
{
    let ghost start = rng@;
    let mut matches: u64 = 0;
    let mut t: u64 = 0;
    while t < trials
        invariant
            valid_count(count as int),
            t <= trials,
            matches <= t,
            rng@ == state_after(start, (count * t) as nat),
            matches + collisions_from(rng@, count as nat, (trials - t) as nat)
                == collisions_from(start, count as nat, trials as nat),
        decreases trials - t,
    {
        let ghost before = rng@;
        let storage = BirthdayStorage::sample(count, rng);
        if has_duplicate(storage.as_slice()) {
            matches = matches + 1;
        }
        proof {
            lemma_state_after_add(start, (count * t) as nat, count as nat);
            assert(count * t + count == count * (t + 1)) by (nonlinear_arith);
        }
        t = t + 1;
    }
    matches
}

/// Estimates the chance of a shared birthday among `count` people over
/// `trials` trials drawn from `rng`.
pub fn estimate_probability(count: u64, trials: u64, rng: &mut FastRng) -> (r: Result<
    SimulationResult,
    SimulationError,
>)
    ensures
        !valid_count(count as int) ==> r == Err::<SimulationResult, SimulationError>(
            SimulationError::OutOfRangeCount,
        ),
        valid_count(count as int) && trials == 0 ==> r == Err::<SimulationResult, SimulationError>(
            SimulationError::InvalidTrialCount,
        ),
        r is Err ==> final(rng)@ == old(rng)@,
        r is Ok ==> final(rng)@ == state_after(old(rng)@, (count * trials) as nat),
        valid_count(count as int) && trials > 0 ==> r == Ok::<SimulationResult, SimulationError>(
            (SimulationResult {
                trials,
                collisions: collisions_from(old(rng)@, count as nat, trials as nat) as u64,
            }),
        ),
        r matches Ok(res) ==> res.collisions <= res.trials,
        count == 1 ==> (r matches Ok(res) ==> res.collisions == 0),
{
    if count < 1 || count > MAX_BIRTHDAYS as u64 {
        return Err(SimulationError::OutOfRangeCount);
    }
    if trials == 0 {
        return Err(SimulationError::InvalidTrialCount);
    }
    let ghost start = rng@;
    let collisions = run_trials(count as u8, trials, rng);
    proof {
        if count == 1 {
            lemma_single_birthday_never_collides(start, trials as nat);
        }
    }
    Ok(SimulationResult { trials, collisions })
}

/// Estimates the chance of a shared birthday from days already drawn: each
/// consecutive block of `count` entries of `draws` is one trial.
pub fn estimate_from_draws(count: u64, draws: &[Birthday]) -> (r: Result<
    SimulationResult,
    SimulationError,
>)
    ensures
        !valid_count(count as int) ==> r == Err::<SimulationResult, SimulationError>(
            SimulationError::OutOfRangeCount,
        ),
        valid_count(count as int) && (draws@.len() == 0 || (draws@.len() as int) % (count as int) != 0)
            ==> r == Err::<SimulationResult, SimulationError>(SimulationError::InvalidTrialCount),
        valid_count(count as int) && draws@.len() > 0 && (draws@.len() as int) % (count as int) == 0 ==> r
            == Ok::<SimulationResult, SimulationError>(
            (SimulationResult {
                trials: ((draws@.len() as int) / (count as int)) as u64,
                collisions: collisions_in(days_of(draws@), count as nat) as u64,
            }),
        ),
        r matches Ok(res) ==> res.collisions <= res.trials,
        count == 1 ==> (r matches Ok(res) ==> res.collisions == 0),
{
    if count < 1 || count > MAX_BIRTHDAYS as u64 {
        return Err(SimulationError::OutOfRangeCount);
    }
    let len = draws.len();
    let size = count as usize;
    if len == 0 || len % size != 0 {
        return Err(SimulationError::InvalidTrialCount);
    }
    let trials = len / size;
    let ghost days = days_of(draws@);
    proof {
        assert(len == trials * size) by (nonlinear_arith)
            requires
                len % size == 0,
                trials == len / size,
                size > 0,
        ;
    }
    let mut matches: u64 = 0;
    let mut t: usize = 0;
    let mut pos: usize = 0;
    assert(days.skip(0) =~= days);
    while t < trials
        invariant
            1 <= size <= MAX_BIRTHDAYS,
            size == count,
            len == draws@.len(),
            len == trials * size,
            days == days_of(draws@),
            t <= trials,
            pos == t * size,
            matches <= t,
            matches + collisions_in(days.skip(pos as int), size as nat) == collisions_in(days, size as nat),
        decreases trials - t,
    {
        proof {
            assert(pos + size <= len) by (nonlinear_arith)
                requires
                    pos == t * size,
                    len == trials * size,
                    t < trials,
                    size > 0,
            ;
        }
        let mut block: Vec<Birthday> = Vec::new();
        let mut k: usize = 0;
        while k < size
            invariant
                pos + size <= len,
                len == draws@.len(),
                k <= size,
                block@ == draws@.subrange(pos as int, pos + k),
            decreases size - k,
        {
            block.push(draws[pos + k]);
            k = k + 1;
            assert(block@ =~= draws@.subrange(pos as int, pos + k));
        }
        if has_duplicate(block.as_slice()) {
            matches = matches + 1;
        }
        proof {
            let rest = days.skip(pos as int);
            assert(days_of(block@) =~= rest.take(size as int));
            assert(rest.skip(size as int) =~= days.skip(pos + size));
        }
        pos = pos + size;
        t = t + 1;
        proof {
            assert(pos == t * size) by (nonlinear_arith)
                requires
                    pos == (t - 1) * size + size,
            ;
        }
    }
    proof {
        assert(days.skip(pos as int).len() == 0);
        if count == 1 {
            lemma_single_birthday_blocks_never_collide(days);
        }
    }
    Ok(SimulationResult { trials: trials as u64, collisions: matches })
}

/// Runs `trials` trials of `num_birthdays` birthdays drawn by rand's
/// thread-local generator and counts those with a collision. Each trial draws
/// a fresh set; laid end to end, the sets form one sequence of days whose
/// consecutive blocks of `num_birthdays` entries are the trials.
pub fn run_simulations(num_birthdays: u8, trials: u32) -> (r: u32)
    requires
        valid_count(num_birthdays as int),
        trials > 0,
    ensures
        exists|d: Seq<u16>|
            {
                &&& d.len() == num_birthdays as int * trials as int
                &&& forall|i: int| 0 <= i < d.len() ==> #[trigger] d[i] < DAYS_IN_YEAR
                &&& r as int == #[trigger] collisions_in(d, num_birthdays as nat)
            },
        r <= trials,
        num_birthdays == 1 ==> r == 0,
{
    let ghost c = num_birthdays as nat;
    let ghost mut d: Seq<u16> = Seq::empty();
    let mut matches: u32 = 0;
    let mut n: u32 = 0;
    while n < trials
        invariant
            valid_count(num_birthdays as int),
            c == num_birthdays as nat,
            n <= trials,
            matches <= n,
            d.len() == c * n,
            forall|i: int| 0 <= i < d.len() ==> #[trigger] d[i] < DAYS_IN_YEAR,
            matches as int == collisions_in(d, c),
        decreases trials - n,
    {
        let storage = BirthdayStorage::new(num_birthdays);
        let found = has_duplicate(storage.as_slice());
        proof {
            let b = storage@;
            lemma_collisions_in_append(d, b, c, n as nat);
            assert((d + b).len() == c * (n + 1)) by (nonlinear_arith)
                requires
                    (d + b).len() == d.len() + c,
                    d.len() == c * n,
            ;
            d = d + b;
        }
        if found {
            matches = matches + 1;
        }
        n = n + 1;
    }
    proof {
        if num_birthdays == 1 {
            lemma_single_birthday_blocks_never_collide(d);
        }
    }
    matches
}

impl SimulationResult {
    /// The share of trials with a collision, in hundredths of a percent,
    /// rounded down (`10000` is 100%).
    pub fn percent_hundredths(&self) -> (r: u64)
        requires
            self.trials > 0,
            self.collisions <= self.trials,
        ensures
            r as int == (self.collisions as int) * 10000 / (self.trials as int),
            r <= 10000,
    {
        let scaled = self.collisions as u128 * 10000;
        let r = scaled / self.trials as u128;
        proof {
            assert(r <= 10000) by (nonlinear_arith)
                requires
                    r == scaled / self.trials as u128,
                    scaled as int == self.collisions as int * 10000,
                    self.collisions <= self.trials,
                    self.trials > 0,
            ;
        }
        r as u64
    }
}

} // verus!
