//! The evolution of a secret number, and the sum of the secrets of all
//! buyers after two thousand rounds.

use crate::util::text::chars_of;
use crate::util::text::lines;
use crate::util::text::number_up_to;
use crate::util::text::parse_up_to;
use crate::util::text::split_lines;
use crate::util::text::trim;
use crate::util::text::trimmed;
use crate::util::text::views;
use vstd::prelude::*;
use vstd::std_specs::ops::DivSpecImpl;
use vstd::std_specs::ops::MulSpecImpl;

verus! {

/// Pruning keeps a secret below this number.
pub const PRUNE_VAL: u64 = 16777216;

/// The largest secret that a round of evolution accepts.
pub const MAX_SECRET: u64 = 0x3ff_ffff_ffff_ffff;

/// A secret number.
#[derive(Debug, Clone, Copy, PartialEq, Eq, Structural)]
pub struct Secret(pub u64);

/// A secret mixed with another number.
pub open spec fn mixed(v: u64, other: u64) -> u64 {
    v ^ other
}

/// A secret after pruning.
pub open spec fn pruned(v: u64) -> u64 {
    v % PRUNE_VAL
}

/// A secret after one round: mixed with its 64-fold and pruned, mixed with
/// its 32nd part and pruned, mixed with its 2048-fold and pruned.
pub open spec fn evolved(v: u64) -> u64 {
    let a = pruned(mixed(v, (v * 64) as u64));
    let b = pruned(mixed(a, a / 32));
    pruned(mixed(b, (b * 2048) as u64))
}

/// A secret after `n` rounds.
pub open spec fn evolved_times(v: u64, n: nat) -> u64
    decreases n,
{
    if n == 0 {
        v
    } else {
        evolved_times(evolved(v), (n - 1) as nat)
    }
}

impl Secret {
    /// The secret with the value `v`.
    pub fn new(v: u64) -> (s: Secret)
        ensures
            s.0 == v,
    {
        Secret(v)
    }

    /// Mixes `other` into the secret.
    pub fn mix(&mut self, other: u64) -> (r: Secret)
        ensures
            final(self).0 == mixed(old(self).0, other),
            r == *final(self),
    {
        self.0 = self.0 ^ other;
        *self
    }

    /// Prunes the secret.
    pub fn prune(&mut self) -> (r: Secret)
        ensures
            final(self).0 == pruned(old(self).0),
            r == *final(self),
    {
        self.0 = self.0 % PRUNE_VAL;
        *self
    }

    /// The number that the secret is.
    pub fn v(&self) -> (r: u64)
        ensures
            r == self.0,
    {
        self.0
    }

    /// One round of evolution.
    pub fn evolve(&mut self) -> (r: Secret)
        requires
            old(self).0 <= MAX_SECRET,
        ensures
            final(self).0 == evolved(old(self).0),
            final(self).0 < PRUNE_VAL,
            r == *final(self),
    {
        let first: u64 = *self * 64;
        self.mix(first);
        self.prune();
        let second: u64 = *self / 32;
        self.mix(second);
        self.prune();
        let third: u64 = *self * 2048;
        self.mix(third);
        self.prune()
    }

    /// `n` rounds of evolution.
    pub fn evolve_n_times(&mut self, n: u32) -> (r: Secret)
        requires
            old(self).0 <= MAX_SECRET,
        ensures
            final(self).0 == evolved_times(old(self).0, n as nat),
            r == *final(self),
    {
        let mut left = n;
        while left > 0
            invariant
                self.0 <= MAX_SECRET,
                evolved_times(self.0, left as nat) == evolved_times(old(self).0, n as nat),
            decreases left,
        {
            self.evolve();
            left = left - 1;
        }
        *self
    }
}

impl core::ops::Mul<u64> for Secret {
    type Output = u64;

    fn mul(self, rhs: u64) -> (r: u64) {
        self.0 * rhs
    }
}

impl MulSpecImpl<u64> for Secret {
    open spec fn obeys_mul_spec() -> bool {
        true
    }

    open spec fn mul_req(self, rhs: u64) -> bool {
        self.0 * rhs <= u64::MAX
    }

    open spec fn mul_spec(self, rhs: u64) -> u64 {
        (self.0 * rhs) as u64
    }
}

impl core::ops::Div<u64> for Secret {
    type Output = u64;

    fn div(self, rhs: u64) -> (r: u64) {
        self.0 / rhs
    }
}

impl DivSpecImpl<u64> for Secret {
    open spec fn obeys_div_spec() -> bool {
        true
    }

    open spec fn div_req(self, rhs: u64) -> bool {
        rhs != 0
    }

    open spec fn div_spec(self, rhs: u64) -> u64 {
        self.0 / rhs
    }
}

/// The first secrets of the buyers: the lines of the text that denote a
/// number up to `MAX_SECRET`, in their order. Other lines are passed over.
pub open spec fn secrets_of(rows: Seq<Seq<char>>) -> Seq<u64>
    decreases rows.len(),
{
    if rows.len() == 0 {
        Seq::empty()
    } else {
        let before = secrets_of(rows.drop_last());
        match number_up_to(rows.last(), MAX_SECRET as nat) {
            Some(n) => before.push(n as u64),
            None => before,
        }
    }
}

/// The sum of the secrets after `n` rounds each.
pub open spec fn sum_after(secrets: Seq<u64>, n: nat) -> nat
    decreases secrets.len(),
{
    if secrets.len() == 0 {
        0
    } else {
        sum_after(secrets.drop_last(), n) + evolved_times(secrets.last(), n) as nat
    }
}

/// Reads the first secrets of the buyers, one per line.
pub fn parse_secrets(input: &str) -> (r: Vec<u64>)
    ensures
        r@ == secrets_of(split_lines(trimmed(input@))),
        forall|i: int| 0 <= i < r.len() ==> r[i] <= MAX_SECRET,
{
    let chars = chars_of(input);
    let body = trim(&chars);
    let rows = lines(&body);
    let mut r: Vec<u64> = Vec::new();
    let mut i: usize = 0;
    while i < rows.len()
        invariant
            i <= rows.len(),
            r@ == secrets_of(views(rows@).take(i as int)),
            forall|j: int| 0 <= j < r.len() ==> r[j] <= MAX_SECRET,
        decreases rows.len() - i,
    {
        proof {
            assert(views(rows@).take(i + 1).drop_last() =~= views(rows@).take(i as int));
            assert(views(rows@).take(i + 1).last() == rows[i as int]@);
        }
        match parse_up_to(&rows[i], MAX_SECRET as u128) {
            Some(n) => {
                r.push(n as u64);
            },
            None => {},
        }
        i = i + 1;
    }
    proof {
        assert(views(rows@).take(rows.len() as int) =~= views(rows@));
    }
    r
}

/// A secret that has evolved at least once is below `PRUNE_VAL`.
pub proof fn lemma_evolved_times_small(v: u64, n: nat)
    requires
        n > 0,
    ensures
        evolved_times(v, n) < PRUNE_VAL,
    decreases n,
{
    if n > 1 {
        lemma_evolved_times_small(evolved(v), (n - 1) as nat);
    } else {
        assert(evolved_times(evolved(v), 0) == evolved(v));
    }
}

/// The sum of the secrets of all buyers after 2000 rounds each. Every line
/// of the text that denotes a number up to `MAX_SECRET` is the first secret
/// of a buyer. There must be no more than 2^32 buyers.
pub fn solve_day_22_part_01(input: &str) -> (r: u64)
    requires
        secrets_of(split_lines(trimmed(input@))).len() <= 0x1_0000_0000,
    ensures
        r == sum_after(secrets_of(split_lines(trimmed(input@))), 2000),
{
    let secrets = parse_secrets(input);
    let mut sum: u64 = 0;
    let mut i: usize = 0;
    while i < secrets.len()
        invariant
            i <= secrets.len() <= 0x1_0000_0000,
            forall|j: int| 0 <= j < secrets.len() ==> secrets[j] <= MAX_SECRET,
            sum == sum_after(secrets@.take(i as int), 2000),
            sum <= i * PRUNE_VAL,
        decreases secrets.len() - i,
    {
        proof {
            assert(secrets@.take(i + 1).drop_last() =~= secrets@.take(i as int));
            lemma_evolved_times_small(secrets[i as int], 2000);
        }
        let mut secret = Secret::new(secrets[i]);
        let end = secret.evolve_n_times(2000).v();
        sum = sum + end;
        i = i + 1;
    }
    proof {
        assert(secrets@.take(secrets.len() as int) =~= secrets@);
    }
    sum
}

} // verus!
