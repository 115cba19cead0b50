//! Two lists of numbers side by side: how far they are apart, and how
//! similar they are.

use crate::util::text::chars_of;
use crate::util::text::number_up_to;
use crate::util::text::parse_up_to;
use crate::util::text::split_words;
use crate::util::text::words;
use crate::util::text::views;
use vstd::pervasive::unreached;
use vstd::prelude::*;
use vstd::relations::sorted_by;
use vstd::relations::total_ordering;
use vstd::seq_lib::lemma_sorted_unique;

verus! {

/// The order of numbers by size.
pub open spec fn leq() -> spec_fn(u32, u32) -> bool {
    |a: u32, b: u32| a <= b
}

/// Whether a line holds a pair of numbers: its two words, which must be
/// all its words, denote numbers of at most 32 bits.
pub open spec fn is_pair(line: Seq<char>) -> bool {
    let ws = split_words(line);
    ws.len() == 2 && number_up_to(ws[0], u32::MAX as nat) is Some && number_up_to(
        ws[1],
        u32::MAX as nat,
    ) is Some
}

/// The first number of a line.
pub open spec fn left_of(line: Seq<char>) -> u32 {
    number_up_to(split_words(line)[0], u32::MAX as nat)->0 as u32
}

/// The second number of a line.
pub open spec fn right_of(line: Seq<char>) -> u32 {
    number_up_to(split_words(line)[1], u32::MAX as nat)->0 as u32
}

/// Whether every line holds a pair of numbers.
pub open spec fn all_pairs(rows: Seq<Seq<char>>) -> bool {
    forall|i: int| 0 <= i < rows.len() ==> is_pair(#[trigger] rows[i])
}

/// The first numbers of the lines.
pub open spec fn lefts(rows: Seq<Seq<char>>) -> Seq<u32> {
    Seq::new(rows.len(), |i: int| left_of(rows[i]))
}

/// The second numbers of the lines.
pub open spec fn rights(rows: Seq<Seq<char>>) -> Seq<u32> {
    Seq::new(rows.len(), |i: int| right_of(rows[i]))
}

/// The texts of a sequence of strings.
pub open spec fn texts(input: Seq<String>) -> Seq<Seq<char>> {
    Seq::new(input.len(), |i: int| input[i]@)
}

/// Reads the pair of numbers of a line.
pub fn parse_pair(line: &str) -> (r: Option<(u32, u32)>)
    ensures
        match r {
            Some((a, b)) => is_pair(line@) && a == left_of(line@) && b == right_of(line@),
            None => !is_pair(line@),
        },
{
    let chars = chars_of(line);
    let ws = words(&chars);
    if ws.len() != 2 {
        return None;
    }
    proof {
        assert(views(ws@)[0] == ws[0]@);
        assert(views(ws@)[1] == ws[1]@);
    }
    match (parse_up_to(&ws[0], u32::MAX as u128), parse_up_to(&ws[1], u32::MAX as u128)) {
        (Some(a), Some(b)) => Some((a as u32, b as u32)),
        _ => None,
    }
}

/// The two lists that the lines hold side by side. Every line must hold a
/// pair of numbers.
pub fn get_lists_from_input(input: Vec<String>) -> (r: (Vec<u32>, Vec<u32>))
    requires
        all_pairs(texts(input@)),
    ensures
        r.0@ == lefts(texts(input@)),
        r.1@ == rights(texts(input@)),
{
    let mut l1: Vec<u32> = Vec::new();
    let mut l2: Vec<u32> = Vec::new();
    let mut i: usize = 0;
    while i < input.len()
        invariant
            i <= input.len(),
            all_pairs(texts(input@)),
            l1@ == lefts(texts(input@)).take(i as int),
            l2@ == rights(texts(input@)).take(i as int),
        decreases input.len() - i,
    {
        proof {
            assert(is_pair(texts(input@)[i as int]));
        }
        match parse_pair(input[i].as_str()) {
            Some((a, b)) => {
                l1.push(a);
                l2.push(b);
            },
            None => unreached(),
        }
        proof {
            assert(lefts(texts(input@)).take(i + 1) =~= lefts(texts(input@)).take(i as int).push(
                lefts(texts(input@))[i as int],
            ));
            assert(rights(texts(input@)).take(i + 1) =~= rights(texts(input@)).take(
                i as int,
            ).push(rights(texts(input@))[i as int]));
        }
        i = i + 1;
    }
    proof {
        assert(lefts(texts(input@)).take(input.len() as int) =~= lefts(texts(input@)));
        assert(rights(texts(input@)).take(input.len() as int) =~= rights(texts(input@)));
    }
    (l1, l2)
}

/// The numbers of a list in ascending order.
pub fn sorted(v: &Vec<u32>) -> (r: Vec<u32>)
    ensures
        r@ == v@.sort_by(leq()),
        r.len() == v.len(),
{
    let mut r: Vec<u32> = Vec::new();
    let mut i: usize = 0;
    proof {
        assert(v@.take(0) =~= r@);
    }
    while i < v.len()
        invariant
            i <= v.len(),
            sorted_by(r@, leq()),
            r@.to_multiset() == v@.take(i as int).to_multiset(),
            r.len() == i,
        decreases v.len() - i,
    {
        let x = v[i];
        let mut at: usize = 0;
        while at < r.len() && r[at] <= x
            invariant
                at <= r.len(),
                forall|k: int| 0 <= k < at ==> r[k] <= x,
            decreases r.len() - at,
        {
            at = at + 1;
        }
        let ghost before = r@;
        r.insert(at, x);
        proof {
            broadcast use vstd::seq_lib::group_to_multiset_ensures;

            assert(v@.take(i + 1) =~= v@.take(i as int).push(x));
            assert forall|a: int, b: int| 0 <= a < b < r@.len() implies #[trigger] leq()(
                r@[a],
                r@[b],
            ) by {
                let a0 = if a < at {
                    a
                } else {
                    a - 1
                };
                let b0 = if b < at {
                    b
                } else {
                    b - 1
                };
                if a != at && b != at {
                    assert(leq()(before[a0], before[b0]));
                } else if a == at {
                    if at < before.len() && b0 > at {
                        assert(leq()(before[at as int], before[b0]));
                    }
                }
            }
        }
        i = i + 1;
    }
    proof {
        assert(v@.take(v.len() as int) =~= v@);
        lemma_leq_total();
        v@.lemma_sort_by_ensures(leq());
        lemma_sorted_unique(r@, v@.sort_by(leq()), leq());
    }
    r
}

/// The order of numbers by size is a total order.
pub proof fn lemma_leq_total()
    ensures
        total_ordering(leq()),
{
}

/// The distance of two numbers.
pub open spec fn gap(a: u32, b: u32) -> nat {
    if a <= b {
        (b - a) as nat
    } else {
        (a - b) as nat
    }
}

/// The distances of the numbers that stand at the same place in the two
/// lists, all added up.
pub open spec fn total_gap(a: Seq<u32>, b: Seq<u32>) -> nat
    decreases a.len(),
{
    if a.len() == 0 || b.len() == 0 {
        0
    } else {
        total_gap(a.drop_last(), b.drop_last()) + gap(a.last(), b.last())
    }
}

/// The distance of the two lists of the lines: the distance of their
/// smallest numbers, plus that of their second smallest, and so on. Every
/// line must hold a pair of numbers, and the distance must fit 32 bits.
pub fn solve_day_01_part_01(input: Vec<String>) -> (r: u32)
    requires
        all_pairs(texts(input@)),
        total_gap(
            lefts(texts(input@)).sort_by(leq()),
            rights(texts(input@)).sort_by(leq()),
        ) <= u32::MAX,
    ensures
        r == total_gap(lefts(texts(input@)).sort_by(leq()), rights(texts(input@)).sort_by(leq())),
{
    let ghost rows = texts(input@);
    let (l1, l2) = get_lists_from_input(input);
    let a = sorted(&l1);
    let b = sorted(&l2);
    let mut sum: u32 = 0;
    let mut i: usize = 0;
    while i < a.len()
        invariant
            i <= a.len(),
            a.len() == b.len(),
            total_gap(a@, b@) <= u32::MAX,
            sum == total_gap(a@.take(i as int), b@.take(i as int)),
        decreases a.len() - i,
    {
        proof {
            assert(a@.take(i + 1).drop_last() =~= a@.take(i as int));
            assert(b@.take(i + 1).drop_last() =~= b@.take(i as int));
            lemma_total_gap_grows(a@, b@, i + 1);
        }
        let d: u32 = if a[i] <= b[i] {
            b[i] - a[i]
        } else {
            a[i] - b[i]
        };
        sum = sum + d;
        i = i + 1;
    }
    proof {
        assert(a@.take(a.len() as int) =~= a@);
        assert(b@.take(b.len() as int) =~= b@);
    }
    sum
}

/// The distance of the first `k` places never exceeds the distance of all.
pub proof fn lemma_total_gap_grows(a: Seq<u32>, b: Seq<u32>, k: int)
    requires
        a.len() == b.len(),
        0 <= k <= a.len(),
    ensures
        total_gap(a.take(k), b.take(k)) <= total_gap(a, b),
    decreases a.len(),
{
    if k == a.len() {
        assert(a.take(k) =~= a);
        assert(b.take(k) =~= b);
    } else {
        lemma_total_gap_grows(a.drop_last(), b.drop_last(), k);
        assert(a.drop_last().take(k) =~= a.take(k));
        assert(b.drop_last().take(k) =~= b.take(k));
    }
}

/// How often `x` occurs in the list.
pub open spec fn occurrences(b: Seq<u32>, x: u32) -> nat
    decreases b.len(),
{
    if b.len() == 0 {
        0
    } else {
        occurrences(b.drop_last(), x) + if b.last() == x {
            1nat
        } else {
            0nat
        }
    }
}

/// The similarity of two lists: every number of the first, multiplied by
/// how often it occurs in the second, all added up.
pub open spec fn similarity(a: Seq<u32>, b: Seq<u32>) -> nat
    decreases a.len(),
{
    if a.len() == 0 {
        0
    } else {
        similarity(a.drop_last(), b) + occurrences(b, a.last()) * (a.last() as nat)
    }
}

/// How often `x` occurs in the list.
pub fn count_of(b: &Vec<u32>, x: u32) -> (r: usize)
    ensures
        r == occurrences(b@, x),
{
    let mut r: usize = 0;
    let mut i: usize = 0;
    while i < b.len()
        invariant
            i <= b.len(),
            r <= i,
            r == occurrences(b@.take(i as int), x),
        decreases b.len() - i,
    {
        proof {
            assert(b@.take(i + 1).drop_last() =~= b@.take(i as int));
        }
        if b[i] == x {
            r = r + 1;
        }
        i = i + 1;
    }
    proof {
        assert(b@.take(b.len() as int) =~= b@);
    }
    r
}

/// The similarity of the first `k` numbers never exceeds that of all.
pub proof fn lemma_similarity_grows(a: Seq<u32>, b: Seq<u32>, k: int)
    requires
        0 <= k <= a.len(),
    ensures
        similarity(a.take(k), b) <= similarity(a, b),
    decreases a.len(),
{
    if k == a.len() {
        assert(a.take(k) =~= a);
    } else {
        lemma_similarity_grows(a.drop_last(), b, k);
        assert(a.drop_last().take(k) =~= a.take(k));

    }
}

/// The similarity of the two lists of the lines. Every line must hold a
/// pair of numbers, and the similarity must fit 32 bits.
pub fn solve_day_01_part_02(input: Vec<String>) -> (r: u32)
    requires
        all_pairs(texts(input@)),
        similarity(lefts(texts(input@)), rights(texts(input@))) <= u32::MAX,
    ensures
        r == similarity(lefts(texts(input@)), rights(texts(input@))),
{
    let (l1, l2) = get_lists_from_input(input);
    let mut sum: u32 = 0;
    let mut i: usize = 0;
    while i < l1.len()
        invariant
            i <= l1.len(),
            similarity(l1@, l2@) <= u32::MAX,
            sum == similarity(l1@.take(i as int), l2@),
        decreases l1.len() - i,
    {
        proof {
            assert(l1@.take(i + 1).drop_last() =~= l1@.take(i as int));
            lemma_similarity_grows(l1@, l2@, i + 1);
        }
        let n = count_of(&l2, l1[i]);
        proof {
            let x = l1[i as int];
            assert(n * (x as nat) <= similarity(l1@.take(i + 1), l2@));
        }
        let term: u64 = (n as u64) * (l1[i] as u64);
        sum = sum + term as u32;
        i = i + 1;
    }
    proof {
        assert(l1@.take(l1.len() as int) =~= l1@);
    }
    sum
}

} // verus!
