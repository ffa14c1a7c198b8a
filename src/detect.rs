use crate::birthday::{Birthday, DAYS_IN_YEAR};
use vstd::prelude::*;

verus! {

/// The days of the year held by a sequence of birthdays, in order.
pub open spec fn days_of(s: Seq<Birthday>) -> Seq<u16> {
    s.map_values(|b: Birthday| b@)
}

/// Entry `i` of `s` repeats a day seen at an earlier position.
pub open spec fn repeats_earlier(s: Seq<u16>, i: int) -> bool {
    exists|j: int| 0 <= j < i && s[j] == s[i]
}

/// All entries of `s` are pairwise distinct.
pub open spec fn all_distinct(s: Seq<u16>) -> bool {
    forall|i: int, j: int| 0 <= i < j < s.len() ==> s[i] != s[j]
}

/// Day `d` occurs among the first `n` entries of `s`.
pub open spec fn seen_in(s: Seq<u16>, n: int, d: int) -> bool {
    exists|j: int| 0 <= j < n && s[j] == d
}

/// Bit `d` of a bitset stored as 64-bit words, lowest bit first.
pub open spec fn bit_set(words: Seq<u64>, d: int) -> bool {
    words[d / 64] & (1u64 << ((d % 64) as u64)) != 0
}

proof fn lemma_set_bit(x: u64, b: u64, c: u64)
    requires
        b < 64,
        c < 64,
    ensures
        ((x | (1u64 << b)) & (1u64 << c) != 0) <==> (b == c || x & (1u64 << c) != 0),
{
    assert(((x | (1u64 << b)) & (1u64 << c) != 0) <==> (b == c || x & (1u64 << c) != 0))
        by (bit_vector)
        requires
            b < 64,
            c < 64,
    ;
}

proof fn lemma_zero_word(c: u64)
    requires
        c < 64,
    ensures
        0u64 & (1u64 << c) == 0,
{
    assert(0u64 & (1u64 << c) == 0) by (bit_vector);
}

/// The first birthday, in order, whose day already occurred earlier, with its
/// position; `None` when all days are distinct.
pub fn detect_collision(birthdays: &[Birthday]) -> (r: Option<(usize, Birthday)>)
    ensures
        r is None <==> all_distinct(days_of(birthdays@)),
        r matches Some((i, b)) ==> {
            &&& i < birthdays@.len()
            &&& birthdays@[i as int] == b
            &&& repeats_earlier(days_of(birthdays@), i as int)
            &&& forall|k: int| 0 <= k < i ==> !repeats_earlier(days_of(birthdays@), k)
        },
{
    let ghost s = days_of(birthdays@);
    let mut seen: [u64; 6] = [0u64; 6];
    proof {
        assert forall|d: int| 0 <= d < DAYS_IN_YEAR implies !bit_set(seen@, d) by {
            lemma_zero_word((d % 64) as u64);
        }
    }
    let mut i: usize = 0;
    while i < birthdays.len()
        invariant
            i <= birthdays@.len(),
            s == days_of(birthdays@),
            seen@.len() == 6,
            forall|d: int| 0 <= d < DAYS_IN_YEAR ==> (bit_set(seen@, d) <==> seen_in(s, i as int, d)),
            forall|k: int| 0 <= k < i ==> !repeats_earlier(s, k),
        decreases birthdays@.len() - i,
    {
        let birthday = birthdays[i];
        let day = birthday.day_of_year() as usize;
        let word = day / 64;
        let bit = day % 64;
        let mask = 1u64 << (bit as u64);
        assert(s[i as int] == day);
        if seen[word] & mask != 0 {
            proof {
                assert(seen_in(s, i as int, day as int));
                let j = choose|j: int| 0 <= j < i && s[j] == day;
                assert(s[j] == s[i as int]);
            }
            return Some((i, birthday));
        }
        let ghost old_seen = seen@;
        seen[word] = seen[word] | mask;
        proof {
            assert forall|d: int| 0 <= d < DAYS_IN_YEAR implies (bit_set(seen@, d) <==> seen_in(s, i + 1, d)) by {
                assert(seen_in(s, i + 1, d) <==> (seen_in(s, i as int, d) || d == day)) by {
                    if seen_in(s, i + 1, d) && d != day {
                        let j = choose|j: int| 0 <= j < i + 1 && s[j] == d;
                        assert(seen_in(s, i as int, d));
                    }
                    if seen_in(s, i as int, d) {
                        let j = choose|j: int| 0 <= j < i && s[j] == d;
                        assert(0 <= j < i + 1 && s[j] == d);
                    }
                    if d == day {
                        assert(s[i as int] == d);
                    }
                }
                if d / 64 == word as int {
                    assert(seen@[d / 64] == old_seen[d / 64] | mask);
                    lemma_set_bit(old_seen[d / 64], bit as u64, (d % 64) as u64);
                    assert((d % 64 == bit as int) <==> d == day);
                } else {
                    assert(seen@[d / 64] == old_seen[d / 64]);
                    assert(d != day);
                }
            }
            assert(!repeats_earlier(s, i as int)) by {
                if repeats_earlier(s, i as int) {
                    let j = choose|j: int| 0 <= j < i && s[j] == s[i as int];
                    assert(seen_in(s, i as int, day as int));
                }
            }
        }
        i = i + 1;
    }
    proof {
        assert forall|a: int, b: int| 0 <= a < b < s.len() implies s[a] != s[b] by {
            if s[a] == s[b] {
                assert(repeats_earlier(s, b));
            }
        }
    }
    None
}

/// The first birthday, in order, whose day already occurred earlier.
pub fn find_duplicate(birthdays: &[Birthday]) -> (r: Option<Birthday>)
    ensures
        r is None <==> all_distinct(days_of(birthdays@)),
        r matches Some(b) ==> exists|i: int| {
            &&& 0 <= i < birthdays@.len()
            &&& birthdays@[i] == b
            &&& repeats_earlier(days_of(birthdays@), i)
            &&& forall|k: int| 0 <= k < i ==> !repeats_earlier(days_of(birthdays@), k)
        },
{
    match detect_collision(birthdays) {
        Some((i, b)) => {
            assert(birthdays@[i as int] == b);
            Some(b)
        },
        None => None,
    }
}

/// Whether two of the birthdays fall on the same day.
pub fn has_duplicate(birthdays: &[Birthday]) -> (r: bool)
    ensures
        r == !all_distinct(days_of(birthdays@)),
{
    find_duplicate(birthdays).is_some()
}

} // verus!
