//! Reports of levels that are safe where the levels rise or fall
//! steadily, by one to three from each to the next.

use crate::day01::texts;
use crate::util::text::chars_of;
use crate::util::text::integer_of;
use crate::util::text::parse_i128;
use crate::util::text::split_words;
use crate::util::text::views;
use crate::util::text::words;
use vstd::prelude::*;

verus! {

/// Whether the levels rise or fall, as far as it is known.
#[derive(Debug, Copy, Clone, PartialEq, Eq, Structural)]
pub enum Direction {
    Increasing,
    Decreasing,
    Undecided,
}

/// What is known after some levels of a report: the direction and the
/// last level.
#[derive(Debug, Copy, Clone, PartialEq, Eq, Structural)]
pub struct Trend {
    pub dir: Direction,
    pub last: i32,
}

/// What one more level makes of a report: `None` where the report was or
/// becomes unsafe. A last level of 0 stands for no level yet. The level
/// must differ from the last by one to three, and in the direction of the
/// report, which the first two levels decide.
pub open spec fn with_level(state: Option<Trend>, curr: i32) -> Option<Trend> {
    match state {
        None => None,
        Some(t) => if t.last == 0 {
            Some(Trend { dir: Direction::Undecided, last: curr })
        } else if t.last == curr || curr < t.last - 3 || curr > t.last + 3 {
            None
        } else {
            match t.dir {
                Direction::Undecided => Some(
                    Trend {
                        dir: if t.last < curr {
                            Direction::Increasing
                        } else {
                            Direction::Decreasing
                        },
                        last: curr,
                    },
                ),
                Direction::Increasing => if t.last < curr {
                    Some(Trend { dir: t.dir, last: curr })
                } else {
                    None
                },
                Direction::Decreasing => if t.last > curr {
                    Some(Trend { dir: t.dir, last: curr })
                } else {
                    None
                },
            }
        }
    }
}

/// What the first `k` levels make of a report.
pub open spec fn trend_of(levels: Seq<i32>, k: nat) -> Option<Trend>
    decreases k,
{
    if k == 0 || k > levels.len() {
        Some(Trend { dir: Direction::Undecided, last: 0 })
    } else {
        with_level(trend_of(levels, (k - 1) as nat), levels[k - 1])
    }
}

/// Whether a report is safe.
pub open spec fn safe(levels: Seq<i32>) -> bool {
    trend_of(levels, levels.len()) is Some
}

/// What one more level makes of a report.
pub fn add_level(state: Option<Trend>, curr: i32) -> (r: Option<Trend>)
    ensures
        r == with_level(state, curr),
{
    let t = match state {
        Some(t) => t,
        None => {
            return None;
        },
    };
    if t.last == 0 {
        return Some(Trend { dir: Direction::Undecided, last: curr });
    }
    let last: i64 = t.last as i64;
    let now: i64 = curr as i64;
    if last == now || now < last - 3 || now > last + 3 {
        return None;
    }
    match t.dir {
        Direction::Undecided => Some(
            Trend {
                dir: if last < now {
                    Direction::Increasing
                } else {
                    Direction::Decreasing
                },
                last: curr,
            },
        ),
        Direction::Increasing => if last < now {
            Some(Trend { dir: t.dir, last: curr })
        } else {
            None
        },
        Direction::Decreasing => if last > now {
            Some(Trend { dir: t.dir, last: curr })
        } else {
            None
        },
    }
}

/// Whether a report is safe.
pub fn is_safe(levels: &Vec<i32>) -> (r: bool)
    ensures
        r == safe(levels@),
{
    let mut state: Option<Trend> = Some(Trend { dir: Direction::Undecided, last: 0 });
    let mut i: usize = 0;
    while i < levels.len()
        invariant
            i <= levels.len(),
            state == trend_of(levels@, i as nat),
        decreases levels.len() - i,
    {
        state = add_level(state, levels[i]);
        i = i + 1;
    }
    state.is_some()
}

/// The whole numbers of 32 bits that the words denote, or `None` where a
/// word denotes none.
pub open spec fn levels_of(ws: Seq<Seq<char>>) -> Option<Seq<i32>>
    decreases ws.len(),
{
    if ws.len() == 0 {
        Some(Seq::empty())
    } else {
        match (levels_of(ws.drop_last()), integer_of(ws.last(), i32::MAX as nat)) {
            (Some(before), Some(n)) => Some(before.push(n as i32)),
            _ => None,
        }
    }
}

/// Where all words denote levels, so do the first of them.
pub proof fn lemma_levels_of_prefix(ws: Seq<Seq<char>>, k: int)
    requires
        0 <= k <= ws.len(),
        levels_of(ws) is Some,
    ensures
        levels_of(ws.take(k)) is Some,
    decreases ws.len(),
{
    if k == ws.len() {
        assert(ws.take(k) =~= ws);
    } else {
        lemma_levels_of_prefix(ws.drop_last(), k);
        assert(ws.drop_last().take(k) =~= ws.take(k));
    }
}

/// Reads a whole number of 32 bits.
pub fn parse_level(v: &Vec<char>) -> (r: Option<i32>)
    ensures
        match r {
            Some(n) => integer_of(v@, i32::MAX as nat) == Some(n as int),
            None => integer_of(v@, i32::MAX as nat) is None,
        },
{
    match parse_i128(v) {
        Some(n) => if -0x8000_0000 <= n && n <= 0x7fff_ffff {
            Some(n as i32)
        } else {
            None
        },
        None => None,
    }
}

/// Reads the levels of a report: the words of a line.
pub fn parse_report(line: &str) -> (r: Option<Vec<i32>>)
    ensures
        match r {
            Some(v) => levels_of(split_words(line@)) == Some(v@),
            None => levels_of(split_words(line@)) is None,
        },
{
    let chars = chars_of(line);
    let ws = words(&chars);
    let mut v: Vec<i32> = Vec::new();
    let mut i: usize = 0;
    while i < ws.len()
        invariant
            i <= ws.len(),
            views(ws@) == split_words(line@),
            levels_of(views(ws@).take(i as int)) == Some(v@),
        decreases ws.len() - i,
    {
        proof {
            assert(views(ws@).take(i + 1).drop_last() =~= views(ws@).take(i as int));
            assert(views(ws@).take(i + 1).last() == ws[i as int]@);
        }
        match parse_level(&ws[i]) {
            Some(n) => {
                v.push(n);
            },
            None => {
                proof {
                    if levels_of(views(ws@)) is Some {
                        lemma_levels_of_prefix(views(ws@), i + 1);
                    }
                }
                return None;
            },
        }
        i = i + 1;
    }
    proof {
        assert(views(ws@).take(ws.len() as int) =~= views(ws@));
    }
    Some(v)
}

/// Whether every line is a report.
pub open spec fn all_reports(rows: Seq<Seq<char>>) -> bool {
    forall|i: int| 0 <= i < rows.len() ==> levels_of(split_words(#[trigger] rows[i])) is Some
}

/// The number of safe reports among the lines.
pub open spec fn safe_count(rows: Seq<Seq<char>>) -> nat
    decreases rows.len(),
{
    if rows.len() == 0 {
        0
    } else {
        safe_count(rows.drop_last()) + if safe(levels_of(split_words(rows.last()))->0) {
            1nat
        } else {
            0nat
        }
    }
}

/// The number of safe reports. Every line must be a report, and there
/// must be fewer than 2^32.
pub fn solve_day_02_part_01(input: Vec<String>) -> (r: u32)
    requires
        all_reports(texts(input@)),
        input@.len() <= u32::MAX,
    ensures
        r == safe_count(texts(input@)),
{
    let mut count: u32 = 0;
    let mut i: usize = 0;
    while i < input.len()
        invariant
            i <= input.len() <= u32::MAX,
            all_reports(texts(input@)),
            count <= i,
            count == safe_count(texts(input@).take(i as int)),
        decreases input.len() - i,
    {
        proof {
            assert(texts(input@).take(i + 1).drop_last() =~= texts(input@).take(i as int));
            assert(texts(input@).take(i + 1).last() == input[i as int]@);
            assert(levels_of(split_words(texts(input@)[i as int])) is Some);
        }
        let levels = match parse_report(input[i].as_str()) {
            Some(l) => l,
            None => vstd::pervasive::unreached(),
        };
        if is_safe(&levels) {
            count = count + 1;
        }
        i = i + 1;
    }
    proof {
        assert(texts(input@).take(input.len() as int) =~= texts(input@));
    }
    count
}

/// Whether the report is safe as it is, or once one of the first `k`
/// levels is left out.
pub open spec fn tolerable(levels: Seq<i32>, k: nat) -> bool
    decreases k,
{
    if k == 0 || k > levels.len() {
        safe(levels)
    } else {
        tolerable(levels, (k - 1) as nat) || safe(levels.remove(k - 1))
    }
}

/// Whether the report is safe as it is, or once any one level is left
/// out.
pub fn is_tolerable(levels: &Vec<i32>) -> (r: bool)
    ensures
        r == tolerable(levels@, levels@.len()),
{
    if is_safe(levels) {
        proof {
            lemma_tolerable_grows(levels@, 0, levels@.len());
        }
        return true;
    }
    let mut i: usize = 0;
    while i < levels.len()
        invariant
            i <= levels.len(),
            !tolerable(levels@, i as nat),
        decreases levels.len() - i,
    {
        let mut variant: Vec<i32> = Vec::new();
        let mut j: usize = 0;
        while j < levels.len()
            invariant
                j <= levels.len(),
                i < levels.len(),
                variant@ == if j <= i {
                    levels@.take(j as int)
                } else {
                    levels@.take(j as int).remove(i as int)
                },
            decreases levels.len() - j,
        {
            if j != i {
                variant.push(levels[j]);
            }
            proof {
                if j < i {
                    assert(levels@.take(j + 1) =~= levels@.take(j as int).push(levels@[j as int]));
                } else if j == i {
                    assert(levels@.take(j + 1).remove(i as int) =~= levels@.take(j as int));
                } else {
                    assert(levels@.take(j + 1).remove(i as int) =~= levels@.take(j as int).remove(
                        i as int,
                    ).push(levels@[j as int]));
                }
            }
            j = j + 1;
        }
        proof {
            assert(levels@.take(levels.len() as int) =~= levels@);
        }
        if is_safe(&variant) {
            proof {
                lemma_tolerable_grows(levels@, (i + 1) as nat, levels@.len());
            }
            return true;
        }
        i = i + 1;
    }
    false
}

/// What is tolerable with fewer levels to leave out stays so with more.
pub proof fn lemma_tolerable_grows(levels: Seq<i32>, j: nat, k: nat)
    requires
        j <= k <= levels.len(),
        tolerable(levels, j),
    ensures
        tolerable(levels, k),
    decreases k - j,
{
    if j < k {
        lemma_tolerable_grows(levels, j, (k - 1) as nat);
    }
}

/// The number of the reports among the lines that are tolerable.
pub open spec fn tolerable_count(rows: Seq<Seq<char>>) -> nat
    decreases rows.len(),
{
    if rows.len() == 0 {
        0
    } else {
        let levels = levels_of(split_words(rows.last()))->0;
        tolerable_count(rows.drop_last()) + if tolerable(levels, levels.len()) {
            1nat
        } else {
            0nat
        }
    }
}

/// The number of reports that are safe as they are or once one level is
/// left out. Every line must be a report, and there must be fewer than
/// 2^32.
pub fn solve_day_02_part_02(input: Vec<String>) -> (r: u32)
    requires
        all_reports(texts(input@)),
        input@.len() <= u32::MAX,
    ensures
        r == tolerable_count(texts(input@)),
{
    let mut count: u32 = 0;
    let mut i: usize = 0;
    while i < input.len()
        invariant
            i <= input.len() <= u32::MAX,
            all_reports(texts(input@)),
            count <= i,
            count == tolerable_count(texts(input@).take(i as int)),
        decreases input.len() - i,
    {
        proof {
            assert(texts(input@).take(i + 1).drop_last() =~= texts(input@).take(i as int));
            assert(texts(input@).take(i + 1).last() == input[i as int]@);
            assert(levels_of(split_words(texts(input@)[i as int])) is Some);
        }
        let levels = match parse_report(input[i].as_str()) {
            Some(l) => l,
            None => vstd::pervasive::unreached(),
        };
        if is_tolerable(&levels) {
            count = count + 1;
        }
        i = i + 1;
    }
    proof {
        assert(texts(input@).take(input.len() as int) =~= texts(input@));
    }
    count
}

} // verus!
