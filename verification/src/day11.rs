//! Stones with numbers that change with every blink: a 0 becomes a 1, a
//! number with an even number of digits splits into its two halves, and
//! any other number is multiplied by 2024.

use crate::util::text::chars_of;
use crate::util::text::number_up_to;
use crate::util::text::parse_up_to;
use crate::util::text::split_words;
use crate::util::text::views;
use crate::util::text::words;
use std::collections::HashMap;
use vstd::prelude::*;

verus! {

/// The number of decimal digits of `e`.
pub open spec fn digits(e: nat) -> nat
    decreases e,
{
    if e < 10 {
        1
    } else {
        1 + digits(e / 10)
    }
}

/// Ten to the power of `k`.
pub open spec fn ten_to(k: nat) -> nat
    decreases k,
{
    if k == 0 {
        1
    } else {
        10 * ten_to((k - 1) as nat)
    }
}

/// The number that the first half of the digits of `e` denotes.
pub open spec fn upper_half(e: nat) -> nat {
    e / ten_to(digits(e) / 2)
}

/// The number that the second half of the digits of `e` denotes.
pub open spec fn lower_half(e: nat) -> nat {
    e % ten_to(digits(e) / 2)
}

/// The number of stones that one stone with the number `e` becomes
/// within `n` blinks.
pub open spec fn stones(e: nat, n: nat) -> nat
    decreases n,
{
    if n == 0 {
        1
    } else if e == 0 {
        stones(1, (n - 1) as nat)
    } else if digits(e) % 2 == 0 {
        stones(upper_half(e), (n - 1) as nat) + stones(lower_half(e), (n - 1) as nat)
    } else {
        stones(e * 2024, (n - 1) as nat)
    }
}

/// The number of stones that one stone with the number `e` becomes
/// within `n` blinks, as far as it can be told with numbers up to `limit`:
/// `None` where the number of a stone or a number of stones on the way is
/// larger.
pub open spec fn counted(e: nat, n: nat, limit: nat) -> Option<nat>
    decreases n,
{
    if n == 0 {
        Some(1)
    } else if e == 0 {
        counted(1, (n - 1) as nat, limit)
    } else if digits(e) % 2 == 0 {
        match (
            counted(upper_half(e), (n - 1) as nat, limit),
            counted(lower_half(e), (n - 1) as nat, limit),
        ) {
            (Some(a), Some(b)) => if a + b <= limit {
                Some(a + b)
            } else {
                None
            },
            _ => None,
        }
    } else if e * 2024 <= limit {
        counted(e * 2024, (n - 1) as nat, limit)
    } else {
        None
    }
}

/// What is counted with a limit is the number of stones.
pub proof fn lemma_counted_is_stones(e: nat, n: nat, limit: nat)
    ensures
        counted(e, n, limit) is Some ==> counted(e, n, limit) == Some(stones(e, n)),
    decreases n,
{
    if n > 0 && counted(e, n, limit) is Some {
        let m = (n - 1) as nat;
        if e == 0 {
            lemma_counted_is_stones(1, m, limit);
        } else if digits(e) % 2 == 0 {
            let left = upper_half(e);
            let right = lower_half(e);
            lemma_counted_is_stones(left, m, limit);
            lemma_counted_is_stones(right, m, limit);
            assert(counted(left, m, limit) is Some && counted(right, m, limit) is Some);
            assert(stones(e, n) == stones(left, m) + stones(right, m));
        } else {
            lemma_counted_is_stones(e * 2024, m, limit);
            assert(stones(e, n) == stones(e * 2024, m));
        }
    }
}

/// The number of decimal digits of `e`.
pub fn count_digits(e: usize) -> (r: u32)
    ensures
        r == digits(e as nat),
        1 <= r <= 20,
{
    let mut r: u32 = 1;
    let mut rest: usize = e;
    proof {
        lemma_digits_limit(e as nat);
    }
    while rest >= 10
        invariant
            r + digits(rest as nat) == digits(e as nat) + 1,
            1 <= r,
            r + digits(rest as nat) <= 21,
        decreases rest,
    {
        proof {
            lemma_digits_limit(rest as nat);
        }
        rest = rest / 10;
        r = r + 1;
    }
    proof {
        lemma_digits_limit(e as nat);
    }
    r
}

/// A number of at most 64 bits has at most 20 digits.
pub proof fn lemma_digits_limit(e: nat)
    requires
        e <= 0xffff_ffff_ffff_ffff,
    ensures
        digits(e) <= 20,
{
    reveal_with_fuel(digits, 21);
}

/// Ten to the power of `k`.
pub fn power_of_ten(k: u32) -> (r: u64)
    requires
        k <= 10,
    ensures
        r == ten_to(k as nat),
        1 <= r <= 10_000_000_000,
{
    let mut r: u64 = 1;
    let mut i: u32 = 0;
    proof {
        lemma_ten_to_grows(0, k as nat);
    }
    while i < k
        invariant
            i <= k <= 10,
            r == ten_to(i as nat),
            1 <= r,
            r <= ten_to(10),
            ten_to(10) == 10_000_000_000,
            ten_to(i as nat) <= ten_to(k as nat) <= ten_to(10),
        decreases k - i,
    {
        proof {
            lemma_ten_to_grows((i + 1) as nat, k as nat);
        }
        r = r * 10;
        i = i + 1;
    }
    r
}

/// A larger exponent gives no smaller power.
pub proof fn lemma_ten_to_grows(a: nat, b: nat)
    requires
        a <= b <= 10,
    ensures
        ten_to(a) <= ten_to(b) <= ten_to(10),
        ten_to(10) == 10_000_000_000,
        1 <= ten_to(a),
    decreases b - a,
{
    reveal_with_fuel(ten_to, 11);
    if a < b {
        lemma_ten_to_grows((a + 1) as nat, b);
    }
}

/// The counts that are known already, by the number of the stone and the
/// number of blinks.
pub struct BlinkCache {
    known: HashMap<u128, usize>,
}

/// The key under which the count for the stone `e` and `n` blinks is kept.
pub open spec fn key_of(e: nat, n: nat) -> nat {
    e * 256 + n
}

impl BlinkCache {
    /// Whether every count that is kept is right.
    pub closed spec fn wf(&self) -> bool {
        forall|e: nat, n: nat|
            e <= usize::MAX && n <= 255 && self.known@.contains_key(
                #[trigger] key_of(e, n) as u128,
            ) ==> counted(e, n, usize::MAX as nat) == Some(
                self.known@[key_of(e, n) as u128] as nat,
            )
    }

    /// The cache that knows nothing yet.
    pub fn new() -> (r: BlinkCache)
        ensures
            r.wf(),
    {
        BlinkCache { known: HashMap::new() }
    }
}

/// The number of stones that one stone with the number `element` becomes
/// within `iterations` blinks, or `None` where the number of a stone or
/// the number of stones grows too large on the way. Counts that are found
/// are kept in the cache.
pub fn blink(element: usize, iterations: u8, cache: &mut BlinkCache) -> (r: Option<usize>)
    requires
        old(cache).wf(),
    ensures
        final(cache).wf(),
        match r {
            Some(c) => counted(element as nat, iterations as nat, usize::MAX as nat) == Some(
                c as nat,
            ),
            None => counted(element as nat, iterations as nat, usize::MAX as nat) is None,
        },
    decreases iterations,
{
    if iterations == 0 {
        return Some(1);
    }
    let key: u128 = (element as u128) * 256 + (iterations as u128);
    proof {
        broadcast use vstd::std_specs::hash::group_hash_axioms;

        assert(key == key_of(element as nat, iterations as nat));
    }
    match cache.known.get(&key) {
        Some(c) => {
            return Some(*c);
        },
        None => {},
    }
    let count: Option<usize> = if element == 0 {
        blink(1, iterations - 1, cache)
    } else {
        let d = count_digits(element);
        if d % 2 == 0 {
            let p = power_of_ten(d / 2) as u128;
            proof {
                let x = element as int;
                let q = p as int;
                assert(0 <= x % q <= x && 0 <= x / q <= x) by (nonlinear_arith)
                    requires
                        x >= 0,
                        q > 0,
                ;
            }
            let left = ((element as u128) / p) as usize;
            let right = ((element as u128) % p) as usize;
            proof {
                assert(left == upper_half(element as nat));
                assert(right == lower_half(element as nat));
            }
            let a = blink(left, iterations - 1, cache);
            let b = blink(right, iterations - 1, cache);
            match (a, b) {
                (Some(a), Some(b)) => a.checked_add(b),
                _ => None,
            }
        } else {
            match element.checked_mul(2024) {
                Some(next) => blink(next, iterations - 1, cache),
                None => None,
            }
        }
    };
    match count {
        Some(c) => {
            let ghost before = cache.known@;
            cache.known.insert(key, c);
            proof {
                broadcast use vstd::std_specs::hash::group_hash_axioms;

                assert(cache.known@ == before.insert(key, c));
                assert forall|e: nat, n: nat|
                    e <= usize::MAX && n <= 255 && cache.known@.contains_key(
                        #[trigger] key_of(e, n) as u128,
                    ) implies counted(e, n, usize::MAX as nat) == Some(
                    cache.known@[key_of(e, n) as u128] as nat,
                ) by {
                    if key_of(e, n) as u128 == key {
                        assert(e == element && n == iterations);
                    } else {
                        assert(before.contains_key(key_of(e, n) as u128));
                    }
                }
            }
        },
        None => {},
    }
    count
}

/// The stones in a row.
pub struct MagicStones {
    pub stones: Vec<usize>,
}

/// The numbers that the words of a text denote, or `None` where a word
/// denotes no number that fits.
pub open spec fn numbers_of(ws: Seq<Seq<char>>) -> Option<Seq<usize>>
    decreases ws.len(),
{
    if ws.len() == 0 {
        Some(Seq::empty())
    } else {
        match (numbers_of(ws.drop_last()), number_up_to(ws.last(), usize::MAX as nat)) {
            (Some(before), Some(n)) => Some(before.push(n as usize)),
            _ => None,
        }
    }
}

/// Where all words denote numbers, so do the first of them.
pub proof fn lemma_numbers_of_prefix(ws: Seq<Seq<char>>, k: int)
    requires
        0 <= k <= ws.len(),
        numbers_of(ws) is Some,
    ensures
        numbers_of(ws.take(k)) is Some,
    decreases ws.len(),
{
    if k == ws.len() {
        assert(ws.take(k) =~= ws);
    } else {
        lemma_numbers_of_prefix(ws.drop_last(), k);
        assert(ws.drop_last().take(k) =~= ws.take(k));
    }
}

/// What the stones become within `n` blinks, all counted together with
/// numbers up to `limit`.
pub open spec fn counted_all(stones_: Seq<usize>, n: nat, limit: nat) -> Option<nat>
    decreases stones_.len(),
{
    if stones_.len() == 0 {
        Some(0)
    } else {
        match (
            counted_all(stones_.drop_last(), n, limit),
            counted(stones_.last() as nat, n, limit),
        ) {
            (Some(a), Some(b)) => if a + b <= limit {
                Some(a + b)
            } else {
                None
            },
            _ => None,
        }
    }
}

impl MagicStones {
    /// Reads the numbers of the stones, the words of a text, unless a word
    /// is no number that fits.
    pub fn parse(value: &str) -> (r: Option<MagicStones>)
        ensures
            match r {
                Some(m) => numbers_of(split_words(value@)) == Some(m.stones@),
                None => numbers_of(split_words(value@)) is None,
            },
    {
        let chars = chars_of(value);
        let ws = words(&chars);
        let mut stones: Vec<usize> = Vec::new();
        let mut i: usize = 0;
        while i < ws.len()
            invariant
                i <= ws.len(),
                views(ws@) == split_words(value@),
                numbers_of(views(ws@).take(i as int)) == Some(stones@),
            decreases ws.len() - i,
        {
            proof {
                assert(views(ws@).take(i + 1).drop_last() =~= views(ws@).take(i as int));
                assert(views(ws@).take(i + 1).last() == ws[i as int]@);
            }
            match parse_up_to(&ws[i], usize::MAX as u128) {
                Some(n) => {
                    stones.push(n as usize);
                },
                None => {
                    proof {
                        if numbers_of(views(ws@)) is Some {
                            lemma_numbers_of_prefix(views(ws@), i + 1);
                        }
                    }
                    return None;
                },
            }
            i = i + 1;
        }
        proof {
            assert(views(ws@).take(ws.len() as int) =~= views(ws@));
        }
        Some(MagicStones { stones })
    }

    /// The number of stones after `iterations` blinks, counted one stone
    /// after the other, or `None` where a number grows too large.
    pub fn count(&self, iterations: u8) -> (r: Option<usize>)
        ensures
            match r {
                Some(c) => counted_all(self.stones@, iterations as nat, usize::MAX as nat) == Some(
                    c as nat,
                ),
                None => counted_all(self.stones@, iterations as nat, usize::MAX as nat) is None,
            },
    {
        let mut cache = BlinkCache::new();
        let mut sum: usize = 0;
        let mut i: usize = 0;
        while i < self.stones.len()
            invariant
                i <= self.stones.len(),
                cache.wf(),
                counted_all(self.stones@.take(i as int), iterations as nat, usize::MAX as nat)
                    == Some(sum as nat),
            decreases self.stones.len() - i,
        {
            proof {
                assert(self.stones@.take(i + 1).drop_last() =~= self.stones@.take(i as int));
                assert(self.stones@.take(i + 1).last() == self.stones[i as int]);
            }
            let next = match blink(self.stones[i], iterations, &mut cache) {
                Some(c) => sum.checked_add(c),
                None => None,
            };
            match next {
                Some(s) => {
                    sum = s;
                },
                None => {
                    proof {
                        lemma_counted_all_prefix(
                            self.stones@,
                            i + 1,
                            iterations as nat,
                            usize::MAX as nat,
                        );
                    }
                    return None;
                },
            }
            i = i + 1;
        }
        proof {
            assert(self.stones@.take(self.stones.len() as int) =~= self.stones@);
        }
        Some(sum)
    }
}

/// Where the first stones cannot be counted, all cannot.
pub proof fn lemma_counted_all_prefix(stones_: Seq<usize>, k: int, n: nat, limit: nat)
    requires
        0 <= k <= stones_.len(),
        counted_all(stones_.take(k), n, limit) is None,
    ensures
        counted_all(stones_, n, limit) is None,
    decreases stones_.len(),
{
    if k == stones_.len() {
        assert(stones_.take(k) =~= stones_);
    } else {
        assert(stones_.drop_last().take(k) =~= stones_.take(k));
        lemma_counted_all_prefix(stones_.drop_last(), k, n, limit);
    }
}

} // verus!
