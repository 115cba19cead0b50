//! The best moment to sell: the four changes of the price in a row after
//! which all buyers together pay most.

use crate::day22::part1::evolved;
use crate::day22::part1::evolved_times;
use crate::day22::part1::parse_secrets;
use crate::day22::part1::secrets_of;
use crate::day22::part1::Secret;
use crate::day22::part1::MAX_SECRET;
use crate::day22::part1::PRUNE_VAL;
use crate::util::text::split_lines;
use crate::util::text::trimmed;
use vstd::prelude::*;

verus! {

/// The last four values that were pushed, oldest first, and how many
/// values it holds.
#[derive(Clone, Copy, Debug, PartialEq, Eq, Hash)]
pub struct Window {
    pub data: [i8; 4],
    pub len: usize,
}

/// The values of a window after one more value: while the window is not
/// full the value takes the next free place; then the oldest value leaves
/// and the others move up.
pub open spec fn pushed(data: Seq<i8>, len: nat, value: i8) -> Seq<i8> {
    if len < 4 {
        data.update(len as int, value)
    } else {
        seq![data[1], data[2], data[3], value]
    }
}

impl Window {
    /// The empty window.
    pub fn new() -> (w: Window)
        ensures
            w.len == 0,
            w.data@ == seq![0i8, 0i8, 0i8, 0i8],
    {
        Window { data: [0; 4], len: 0 }
    }

    /// Pushes a value into the window.
    pub fn push(&mut self, value: i8)
        requires
            old(self).len <= 4,
        ensures
            final(self).data@ == pushed(old(self).data@, old(self).len as nat, value),
            final(self).len == if old(self).len < 4 {
                old(self).len + 1
            } else {
                4
            },
    {
        if self.len < 4 {
            self.data[self.len] = value;
            self.len = self.len + 1;
        } else {
            self.data = [self.data[1], self.data[2], self.data[3], value];
        }
        proof {
            assert(self.data@ =~= pushed(old(self).data@, old(self).len as nat, value));
        }
    }

    /// The four places of the window.
    pub fn as_array(&self) -> (r: [i8; 4])
        ensures
            r == self.data,
    {
        self.data
    }
}

/// The last decimal digit of a secret: the price that it stands for.
pub fn digit(secret: &Secret) -> (d: i8)
    ensures
        d == secret.0 % 10,
{
    (secret.v() % 10) as i8
}

/// The number of rounds that the secret of a buyer evolves.
pub const ROUNDS: u32 = 2000;

/// The price that a buyer with the first secret `v` offers after `i`
/// rounds.
pub open spec fn price(v: u64, i: nat) -> int {
    (evolved_times(v, i) % 10) as int
}

/// The change of the price in round `i`: the price before, less the price
/// after.
pub open spec fn change(v: u64, i: nat) -> int {
    price(v, (i - 1) as nat) - price(v, i)
}

/// Whether the four changes up to round `i` are `a`, `b`, `c` and `d`.
pub open spec fn window_is(v: u64, i: nat, a: int, b: int, c: int, d: int) -> bool {
    i >= 4 && change(v, (i - 3) as nat) == a && change(v, (i - 2) as nat) == b && change(
        v,
        (i - 1) as nat,
    ) == c && change(v, i) == d
}

/// Whether the four changes occur in a row within the first `n` rounds.
pub open spec fn occurs(v: u64, n: nat, a: int, b: int, c: int, d: int) -> bool
    decreases n,
{
    n >= 4 && (occurs(v, (n - 1) as nat, a, b, c, d) || window_is(v, n, a, b, c, d))
}

/// What the buyer pays who sells within the first `n` rounds as soon as
/// the four changes have occurred in a row: the price after the last of
/// them, or nothing where they do not occur.
pub open spec fn gain(v: u64, n: nat, a: int, b: int, c: int, d: int) -> int
    decreases n,
{
    if n < 4 {
        0
    } else if occurs(v, (n - 1) as nat, a, b, c, d) {
        gain(v, (n - 1) as nat, a, b, c, d)
    } else if window_is(v, n, a, b, c, d) {
        price(v, n)
    } else {
        0
    }
}

/// What all buyers pay together.
pub open spec fn total(secrets: Seq<u64>, a: int, b: int, c: int, d: int) -> int
    decreases secrets.len(),
{
    if secrets.len() == 0 {
        0
    } else {
        total(secrets.drop_last(), a, b, c, d) + gain(secrets.last(), ROUNDS as nat, a, b, c, d)
    }
}

/// Whether `r` is the most that all buyers pay together for any four
/// changes in a row.
pub open spec fn most(secrets: Seq<u64>, r: int) -> bool {
    &&& exists|a: int, b: int, c: int, d: int| #[trigger] total(secrets, a, b, c, d) == r
    &&& forall|a: int, b: int, c: int, d: int| #[trigger] total(secrets, a, b, c, d) <= r
}

/// Whether a change is one that prices can make.
pub open spec fn small(a: int) -> bool {
    -9 <= a <= 9
}

/// The place of four changes in the tables.
pub open spec fn place(a: int, b: int, c: int, d: int) -> int {
    (((a + 9) * 19 + (b + 9)) * 19 + (c + 9)) * 19 + (d + 9)
}

/// The number of places in the tables.
pub const PLACES: usize = 130321;

/// A price is a digit, and a change is the difference of two digits.
pub proof fn lemma_change_small(v: u64, i: nat)
    ensures
        0 <= price(v, i) <= 9,
        small(change(v, i)),
{
}

/// Four changes of which one is not small never occur, and gain nothing.
pub proof fn lemma_never(v: u64, n: nat, a: int, b: int, c: int, d: int)
    requires
        !(small(a) && small(b) && small(c) && small(d)),
    ensures
        !occurs(v, n, a, b, c, d),
        gain(v, n, a, b, c, d) == 0,
    decreases n,
{
    if n >= 4 {
        lemma_never(v, (n - 1) as nat, a, b, c, d);
        lemma_change_small(v, (n - 3) as nat);
        lemma_change_small(v, (n - 2) as nat);
        lemma_change_small(v, (n - 1) as nat);
        lemma_change_small(v, n);
    }
}

/// No buyer pays more than 9, and none pays less than nothing.
pub proof fn lemma_gain_small(v: u64, n: nat, a: int, b: int, c: int, d: int)
    ensures
        0 <= gain(v, n, a, b, c, d) <= 9,
    decreases n,
{
    if n >= 4 {
        lemma_gain_small(v, (n - 1) as nat, a, b, c, d);
    }
}

/// Four changes that are not small gain nothing from any buyer.
pub proof fn lemma_total_never(secrets: Seq<u64>, a: int, b: int, c: int, d: int)
    requires
        !(small(a) && small(b) && small(c) && small(d)),
    ensures
        total(secrets, a, b, c, d) == 0,
    decreases secrets.len(),
{
    if secrets.len() > 0 {
        lemma_total_never(secrets.drop_last(), a, b, c, d);
        lemma_never(secrets.last(), ROUNDS as nat, a, b, c, d);
    }
}

/// What the tables hold while the buyer `v` is looked at: `totals` is what
/// the buyers before paid plus what this buyer pays within `n` rounds, and
/// `stamps` tells for which changes this buyer has sold already.
#[verifier::opaque]
pub open spec fn tallied(
    before: Seq<u64>,
    v: u64,
    n: nat,
    mark: u32,
    totals: Seq<u32>,
    stamps: Seq<u32>,
) -> bool {
    &&& totals.len() == PLACES
    &&& stamps.len() == PLACES
    &&& forall|a: int, b: int, c: int, d: int|
        #![trigger place(a, b, c, d)]
        small(a) && small(b) && small(c) && small(d) ==> (totals[place(a, b, c, d)]
            == total(before, a, b, c, d) + gain(v, n, a, b, c, d)) && (stamps[place(a, b, c, d)]
            == mark <==> occurs(v, n, a, b, c, d)) && stamps[place(a, b, c, d)] <= mark
}

/// Before the first round of a buyer the tables hold what the buyers
/// before paid.
pub proof fn lemma_tally_start(before: Seq<u64>, v: u64, mark: u32, totals: Seq<u32>, stamps: Seq<u32>)
    requires
        totals.len() == PLACES,
        stamps.len() == PLACES,
        forall|a: int, b: int, c: int, d: int|
            #![trigger place(a, b, c, d)]
            small(a) && small(b) && small(c) && small(d) ==> totals[place(a, b, c, d)]
                == total(before, a, b, c, d) && stamps[place(a, b, c, d)] < mark,
    ensures
        tallied(before, v, 0, mark, totals, stamps),
{
    reveal(tallied);
    assert forall|a: int, b: int, c: int, d: int|
        #![trigger place(a, b, c, d)]
        small(a) && small(b) && small(c) && small(d) implies (totals[place(a, b, c, d)]
        == total(before, a, b, c, d) + gain(v, 0, a, b, c, d)) && (stamps[place(a, b, c, d)]
        == mark <==> occurs(v, 0, a, b, c, d)) && stamps[place(a, b, c, d)] <= mark by {}
}

/// A round in which fewer than four changes are known changes nothing.
pub proof fn lemma_tally_early(
    before: Seq<u64>,
    v: u64,
    n: nat,
    mark: u32,
    totals: Seq<u32>,
    stamps: Seq<u32>,
)
    requires
        1 <= n < 4,
        tallied(before, v, (n - 1) as nat, mark, totals, stamps),
    ensures
        tallied(before, v, n, mark, totals, stamps),
{
    reveal(tallied);
    assert forall|a: int, b: int, c: int, d: int|
        #![trigger place(a, b, c, d)]
        small(a) && small(b) && small(c) && small(d) implies (totals[place(a, b, c, d)]
        == total(before, a, b, c, d) + gain(v, n, a, b, c, d)) && (stamps[place(a, b, c, d)]
        == mark <==> occurs(v, n, a, b, c, d)) && stamps[place(a, b, c, d)] <= mark by {
        assert(gain(v, (n - 1) as nat, a, b, c, d) == 0);
    }
}

/// What a round in which four changes are known does to the tables: the
/// buyer sells for the price of the round unless the buyer has sold for
/// the same changes before.
pub proof fn lemma_tally_step(
    before: Seq<u64>,
    v: u64,
    n: nat,
    mark: u32,
    totals0: Seq<u32>,
    stamps0: Seq<u32>,
    totals1: Seq<u32>,
    stamps1: Seq<u32>,
    a0: int,
    b0: int,
    c0: int,
    d0: int,
)
    requires
        n >= 4,
        tallied(before, v, (n - 1) as nat, mark, totals0, stamps0),
        window_is(v, n, a0, b0, c0, d0),
        small(a0) && small(b0) && small(c0) && small(d0),
        0 <= place(a0, b0, c0, d0) < PLACES,
        if stamps0[place(a0, b0, c0, d0)] != mark {
            stamps1 == stamps0.update(place(a0, b0, c0, d0), mark) && totals1 == totals0.update(
                place(a0, b0, c0, d0),
                (totals0[place(a0, b0, c0, d0)] + price(v, n)) as u32,
            ) && totals0[place(a0, b0, c0, d0)] + price(v, n) <= u32::MAX
        } else {
            stamps1 == stamps0 && totals1 == totals0
        },
    ensures
        tallied(before, v, n, mark, totals1, stamps1),
{
    reveal(tallied);
    lemma_change_small(v, n);
    assert forall|a: int, b: int, c: int, d: int|
        #![trigger place(a, b, c, d)]
        small(a) && small(b) && small(c) && small(d) implies (totals1[place(a, b, c, d)]
        == total(before, a, b, c, d) + gain(v, n, a, b, c, d)) && (stamps1[place(a, b, c, d)]
        == mark <==> occurs(v, n, a, b, c, d)) && stamps1[place(a, b, c, d)] <= mark by {
        lemma_place(a, b, c, d, a0, b0, c0, d0);
        assert(totals0[place(a, b, c, d)] == total(before, a, b, c, d) + gain(
            v,
            (n - 1) as nat,
            a,
            b,
            c,
            d,
        ));
    }
}

/// What the tables hold once a buyer has been looked at.
pub proof fn lemma_tally_end(
    before: Seq<u64>,
    v: u64,
    mark: u32,
    totals: Seq<u32>,
    stamps: Seq<u32>,
    a: int,
    b: int,
    c: int,
    d: int,
)
    requires
        tallied(before, v, ROUNDS as nat, mark, totals, stamps),
        small(a) && small(b) && small(c) && small(d),
    ensures
        totals[place(a, b, c, d)] == total(before.push(v), a, b, c, d),
        totals[place(a, b, c, d)] <= total(before, a, b, c, d) + 9,
        stamps[place(a, b, c, d)] <= mark,
{
    reveal(tallied);
    lemma_gain_small(v, ROUNDS as nat, a, b, c, d);
    assert(before.push(v).drop_last() =~= before);
    assert(totals[place(a, b, c, d)] == total(before, a, b, c, d) + gain(
        v,
        ROUNDS as nat,
        a,
        b,
        c,
        d,
    ));
}

/// What the table of totals holds for the four last changes while a buyer
/// is looked at leaves room for one more price.
pub proof fn lemma_tally_room(
    before: Seq<u64>,
    v: u64,
    n: nat,
    mark: u32,
    totals: Seq<u32>,
    stamps: Seq<u32>,
    a: int,
    b: int,
    c: int,
    d: int,
    bound: int,
)
    requires
        tallied(before, v, n, mark, totals, stamps),
        small(a) && small(b) && small(c) && small(d),
        total(before, a, b, c, d) <= bound,
    ensures
        totals.len() == PLACES,
        stamps.len() == PLACES,
        0 <= place(a, b, c, d) < PLACES,
        stamps[place(a, b, c, d)] != mark ==> totals[place(a, b, c, d)] <= bound,
        totals[place(a, b, c, d)] <= bound + 9,
{
    reveal(tallied);
    lemma_place(a, b, c, d, a, b, c, d);
    lemma_gain_small(v, n, a, b, c, d);
    assert(totals[place(a, b, c, d)] == total(before, a, b, c, d) + gain(v, n, a, b, c, d));
    if !occurs(v, n, a, b, c, d) {
        lemma_no_gain(v, n, a, b, c, d);
    }
}

/// Changes that have not occurred gain nothing.
pub proof fn lemma_no_gain(v: u64, n: nat, a: int, b: int, c: int, d: int)
    requires
        !occurs(v, n, a, b, c, d),
    ensures
        gain(v, n, a, b, c, d) == 0,
    decreases n,
{
    if n >= 4 {
        lemma_no_gain(v, (n - 1) as nat, a, b, c, d);
    }
}

/// The place of four small changes lies in the tables, and different
/// changes have different places.
pub proof fn lemma_place(a: int, b: int, c: int, d: int, e: int, f: int, g: int, h: int)
    requires
        small(a) && small(b) && small(c) && small(d),
        small(e) && small(f) && small(g) && small(h),
    ensures
        0 <= place(a, b, c, d) < PLACES,
        place(a, b, c, d) == place(e, f, g, h) ==> a == e && b == f && c == g && d == h,
{
}

/// Looks at one buyer: adds to the totals what the buyer pays for each
/// four changes in a row.
pub fn tally_buyer(totals: &mut Vec<u32>, stamps: &mut Vec<u32>, v: u64, mark: u32, Ghost(before): Ghost<Seq<u64>>)
    requires
        v <= MAX_SECRET,
        1 <= mark <= 0x1000_0000,
        old(totals).len() == PLACES,
        old(stamps).len() == PLACES,
        forall|a: int, b: int, c: int, d: int|
            #![trigger place(a, b, c, d)]
            small(a) && small(b) && small(c) && small(d) ==> old(totals)[place(a, b, c, d)] == total(before, a, b, c, d) && old(totals)[place(a, b, c, d)] <= 9 * (mark - 1)
                && old(stamps)[place(a, b, c, d)] < mark,
    ensures
        final(totals).len() == PLACES,
        final(stamps).len() == PLACES,
        forall|a: int, b: int, c: int, d: int|
            #![trigger place(a, b, c, d)]
            small(a) && small(b) && small(c) && small(d) ==> final(totals)[place(a, b, c, d)] == total(before.push(v), a, b, c, d) && final(totals)[place(a, b, c, d)] <= 9
                * mark && final(stamps)[place(a, b, c, d)] < mark + 1,
{
    let mut secret = Secret::new(v);
    let mut window = Window::new();
    let mut i: u32 = 0;
    let ghost totals_before = totals@;
    proof {
        lemma_tally_start(before, v, mark, totals@, stamps@);
    }
    while i < ROUNDS
        invariant
            i <= ROUNDS,
            v <= MAX_SECRET,
            1 <= mark <= 0x1000_0000,
            secret.0 == evolved_times(v, i as nat),
            secret.0 <= MAX_SECRET,
            window.len == if i < 4 {
                i as usize
            } else {
                4
            },
            forall|k: int|
                0 <= k < window.len ==> #[trigger] window.data[k] == change(
                    v,
                    (i - window.len + 1 + k) as nat,
                ),
            tallied(before, v, i as nat, mark, totals@, stamps@),
            totals_before.len() == PLACES,
            forall|a: int, b: int, c: int, d: int|
                #![trigger place(a, b, c, d)]
                small(a) && small(b) && small(c) && small(d) ==> totals_before[place(a, b, c, d)] == total(before, a, b, c, d) && totals_before[place(a, b, c, d)] <= 9 * (mark
                    - 1),
        decreases ROUNDS - i,
    {
        let last_digit = digit(&secret);
        secret.evolve();
        let new_digit = digit(&secret);
        proof {
            lemma_evolved_next(v, i as nat);
            assert(last_digit == price(v, i as nat));
            assert(new_digit == price(v, (i + 1) as nat));
            lemma_change_small(v, (i + 1) as nat);
        }
        let ghost window0 = window;
        window.push(last_digit - new_digit);
        i = i + 1;
        proof {
            assert forall|k: int| 0 <= k < window.len implies #[trigger] window.data[k] == change(
                v,
                (i - window.len + 1 + k) as nat,
            ) by {
                if window0.len < 4 {
                    if k < window0.len {
                        assert(window.data[k] == window0.data[k]);
                    }
                } else {
                    if k < 3 {
                        assert(window.data[k] == window0.data[k + 1]);
                    }
                }
            }
        }
        if window.len >= 4 {
            let w = window.as_array();
            let (a0, b0, c0, d0) = (w[0], w[1], w[2], w[3]);
            let ghost totals0 = totals@;
            let ghost stamps0 = stamps@;
            proof {
                assert(a0 == window.data[0] && b0 == window.data[1] && c0 == window.data[2] && d0
                    == window.data[3]);
                lemma_change_small(v, (i - 3) as nat);
                lemma_change_small(v, (i - 2) as nat);
                lemma_change_small(v, (i - 1) as nat);
                lemma_change_small(v, i as nat);
                assert(window_is(v, i as nat, a0 as int, b0 as int, c0 as int, d0 as int));
                lemma_place(
                    a0 as int,
                    b0 as int,
                    c0 as int,
                    d0 as int,
                    a0 as int,
                    b0 as int,
                    c0 as int,
                    d0 as int,
                );
                assert(totals_before[place(a0 as int, b0 as int, c0 as int, d0 as int)] == total(
                    before,
                    a0 as int,
                    b0 as int,
                    c0 as int,
                    d0 as int,
                ));
                lemma_tally_room(
                    before,
                    v,
                    (i - 1) as nat,
                    mark,
                    totals0,
                    stamps0,
                    a0 as int,
                    b0 as int,
                    c0 as int,
                    d0 as int,
                    9 * (mark - 1),
                );
            }
            let k: usize = ((((a0 as i32 + 9) * 19 + (b0 as i32 + 9)) * 19 + (c0 as i32 + 9)) * 19
                + (d0 as i32 + 9)) as usize;
            if stamps[k] != mark {
                stamps.set(k, mark);
                let sum: u32 = totals[k] + new_digit as u32;
                totals.set(k, sum);
            }
            proof {
                lemma_tally_step(
                    before,
                    v,
                    i as nat,
                    mark,
                    totals0,
                    stamps0,
                    totals@,
                    stamps@,
                    a0 as int,
                    b0 as int,
                    c0 as int,
                    d0 as int,
                );
            }
        } else {
            proof {
                lemma_tally_early(before, v, i as nat, mark, totals@, stamps@);
            }
        }
    }
    proof {
        assert forall|a: int, b: int, c: int, d: int|
            #![trigger place(a, b, c, d)]
            small(a) && small(b) && small(c) && small(d) implies totals@[place(a, b, c, d)] == total(before.push(v), a, b, c, d) && totals@[place(a, b, c, d)] <= 9 * mark
            && stamps@[place(a, b, c, d)] < mark + 1 by {
            lemma_tally_end(before, v, mark, totals@, stamps@, a, b, c, d);
            assert(totals_before[place(a, b, c, d)] == total(before, a, b, c, d));
        }
        reveal(tallied);
    }
}

/// The most that all buyers pay together when they sell as soon as the
/// same four changes of their price have occurred in a row, within 2000
/// rounds. Every line of the text that denotes a number up to
/// `MAX_SECRET` is the first secret of a buyer; there must be fewer than
/// 2^28 buyers.
pub fn solve_day_22_part_02(input: &str) -> (r: u32)
    requires
        secrets_of(split_lines(trimmed(input@))).len() < 0x1000_0000,
    ensures
        most(secrets_of(split_lines(trimmed(input@))), r as int),
{
    let secrets = parse_secrets(input);
    let mut totals: Vec<u32> = vec![0u32; PLACES];
    let mut stamps: Vec<u32> = vec![0u32; PLACES];
    let mut j: usize = 0;
    proof {
        assert forall|a: int, b: int, c: int, d: int|
            #![trigger place(a, b, c, d)]
            small(a) && small(b) && small(c) && small(d) implies totals@[place(a, b, c, d)] == total(secrets@.take(0), a, b, c, d) && totals@[place(a, b, c, d)] <= 9 * 0
            && stamps@[place(a, b, c, d)] < 1 by {
            lemma_place(a, b, c, d, a, b, c, d);
        }
    }
    while j < secrets.len()
        invariant
            j <= secrets.len() < 0x1000_0000,
            forall|i: int| 0 <= i < secrets.len() ==> secrets[i] <= MAX_SECRET,
            totals.len() == PLACES,
            stamps.len() == PLACES,
            forall|a: int, b: int, c: int, d: int|
                #![trigger place(a, b, c, d)]
                small(a) && small(b) && small(c) && small(d) ==> totals[place(a, b, c, d)] == total(secrets@.take(j as int), a, b, c, d) && totals[place(a, b, c, d)] <= 9
                    * j && stamps[place(a, b, c, d)] < j + 1,
        decreases secrets.len() - j,
    {
        proof {
            assert(secrets@.take(j + 1) =~= secrets@.take(j as int).push(secrets[j as int]));
        }
        tally_buyer(
            &mut totals,
            &mut stamps,
            secrets[j],
            (j + 1) as u32,
            Ghost(secrets@.take(j as int)),
        );
        j = j + 1;
    }
    let ghost all = secrets@;
    proof {
        assert(secrets@.take(secrets.len() as int) =~= all);
    }
    let mut best: u32 = totals[0];
    let mut best_at: usize = 0;
    let mut k: usize = 1;
    while k < PLACES
        invariant
            1 <= k <= PLACES,
            totals.len() == PLACES,
            best_at < PLACES,
            best == totals[best_at as int],
            forall|i: int| 0 <= i < k ==> totals[i] <= best,
        decreases PLACES - k,
    {
        if totals[k] > best {
            best = totals[k];
            best_at = k;
        }
        k = k + 1;
    }
    proof {
        let q = best_at as int;
        let (a, b, c, d) = (q / 6859 - 9, (q / 361) % 19 - 9, (q / 19) % 19 - 9, q % 19 - 9);
        assert(small(a) && small(b) && small(c) && small(d) && place(a, b, c, d) == q);
        assert(total(all, a, b, c, d) == best);
        assert forall|a: int, b: int, c: int, d: int| #[trigger] total(all, a, b, c, d)
            <= best by {
            if small(a) && small(b) && small(c) && small(d) {
                lemma_place(a, b, c, d, a, b, c, d);
                assert(totals@[place(a, b, c, d)] == total(all, a, b, c, d));
            } else {
                lemma_total_never(all, a, b, c, d);
            }
        }
    }
    best
}

/// One more round is one round after the rounds before.
pub proof fn lemma_evolved_next(v: u64, i: nat)
    ensures
        evolved_times(v, i + 1) == evolved(evolved_times(v, i)),
        i > 0 ==> evolved_times(v, i) < PRUNE_VAL,
    decreases i,
{
    if i > 0 {
        lemma_evolved_next(evolved(v), (i - 1) as nat);
        crate::day22::part1::lemma_evolved_times_small(v, i);
    } else {
        assert(evolved_times(evolved(v), 0) == evolved(v));
    }
}

} // verus!
