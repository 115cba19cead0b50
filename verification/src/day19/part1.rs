//! Which designs can be laid out with the towels at hand.

use crate::util::text::chars_of;
use crate::util::text::lines;
use crate::util::text::split_lines;
use crate::util::text::split_on;
use crate::util::text::split_seq;
use crate::util::text::trim;
use crate::util::text::trimmed;
use crate::util::text::views;
use vstd::pervasive::unreached;
use vstd::prelude::*;

verus! {

/// The colour of a stripe.
#[derive(Debug, Clone, Copy, PartialEq, Eq, Hash, Structural)]
pub enum StripColor {
    White,
    Blue,
    Black,
    Red,
    Green,
}

/// The colour that a letter stands for.
pub open spec fn color_of(c: char) -> Option<StripColor> {
    if c == 'w' {
        Some(StripColor::White)
    } else if c == 'u' {
        Some(StripColor::Blue)
    } else if c == 'b' {
        Some(StripColor::Black)
    } else if c == 'r' {
        Some(StripColor::Red)
    } else if c == 'g' {
        Some(StripColor::Green)
    } else {
        None
    }
}

impl StripColor {
    /// The colour that a letter stands for, if it stands for one.
    pub fn from_letter(value: char) -> (r: Option<StripColor>)
        ensures
            r == color_of(value),
    {
        match value {
            'w' => Some(StripColor::White),
            'u' => Some(StripColor::Blue),
            'b' => Some(StripColor::Black),
            'r' => Some(StripColor::Red),
            'g' => Some(StripColor::Green),
            _ => None,
        }
    }
}

/// The towels at hand, each a sequence of stripes.
pub struct AvailableTowels(pub Vec<Vec<StripColor>>);

/// The designs that are wanted, each a sequence of stripes.
pub struct DesignGoals(pub Vec<Vec<StripColor>>);

/// The views of a sequence of stripe vectors.
pub open spec fn stripes(v: Seq<Vec<StripColor>>) -> Seq<Seq<StripColor>> {
    Seq::new(v.len(), |i: int| v[i]@)
}

impl View for AvailableTowels {
    type V = Seq<Seq<StripColor>>;

    open spec fn view(&self) -> Seq<Seq<StripColor>> {
        stripes(self.0@)
    }
}

impl View for DesignGoals {
    type V = Seq<Seq<StripColor>>;

    open spec fn view(&self) -> Seq<Seq<StripColor>> {
        stripes(self.0@)
    }
}

/// Whether every letter of `s` stands for a colour.
pub open spec fn all_colors(s: Seq<char>) -> bool {
    forall|i: int| 0 <= i < s.len() ==> color_of(#[trigger] s[i]) is Some
}

/// The stripes that the letters of `s` stand for.
pub open spec fn colors_of(s: Seq<char>) -> Seq<StripColor> {
    Seq::new(s.len(), |i: int| color_of(s[i])->0)
}

/// Reads a sequence of stripes, unless a letter stands for no colour.
pub fn parse_colors(s: &Vec<char>) -> (r: Option<Vec<StripColor>>)
    ensures
        r is Some <==> all_colors(s@),
        r is Some ==> r->0@ == colors_of(s@),
{
    let mut v: Vec<StripColor> = Vec::new();
    let mut i: usize = 0;
    while i < s.len()
        invariant
            i <= s.len(),
            v.len() == i,
            forall|j: int| 0 <= j < i ==> color_of(#[trigger] s[j]) == Some(v[j]),
        decreases s.len() - i,
    {
        match StripColor::from_letter(s[i]) {
            Some(c) => {
                v.push(c);
            },
            None => {
                return None;
            },
        }
        i = i + 1;
    }
    proof {
        assert(v@ =~= colors_of(s@));
    }
    Some(v)
}

/// Whether the towel `t` lies on the design `goal` from position `from`
/// on: it has stripes, and the design has the same stripes there.
pub open spec fn fits(goal: Seq<StripColor>, t: Seq<StripColor>, from: int) -> bool {
    t.len() > 0 && 0 <= from && from + t.len() <= goal.len() && goal.subrange(
        from,
        from + t.len(),
    ) == t
}

/// The number of ways to lay out the design from position `from` on, with
/// towels from the whole list.
pub open spec fn ways_from(goal: Seq<StripColor>, towels: Seq<Seq<StripColor>>, from: int) -> nat
    decreases goal.len() - from, towels.len() + 1,
{
    if from >= goal.len() {
        1
    } else {
        ways_with(goal, towels, from, towels.len() as int)
    }
}

/// The number of ways to lay out the design from position `from` on, when
/// the towel at that position is one of the first `k` of the list.
pub open spec fn ways_with(
    goal: Seq<StripColor>,
    towels: Seq<Seq<StripColor>>,
    from: int,
    k: int,
) -> nat
    decreases goal.len() - from, k,
{
    if k <= 0 || k > towels.len() || from >= goal.len() {
        0
    } else {
        ways_with(goal, towels, from, k - 1) + if fits(goal, towels[k - 1], from) {
            ways_from(goal, towels, from + towels[k - 1].len())
        } else {
            0
        }
    }
}

/// The number of ways to lay out a design with the towels.
pub open spec fn ways(goal: Seq<StripColor>, towels: Seq<Seq<StripColor>>) -> nat {
    ways_from(goal, towels, 0)
}

/// A number of ways, or the largest number that fits where there are more.
pub open spec fn capped(n: nat) -> usize {
    if n >= usize::MAX {
        usize::MAX
    } else {
        n as usize
    }
}

/// The sum of two capped numbers, capped.
pub fn add_capped(a: usize, b: usize) -> (r: usize)
    ensures
        forall|x: nat, y: nat| a == capped(x) && b == capped(y) ==> r == #[trigger] capped(x + y),
{
    match a.checked_add(b) {
        Some(s) => s,
        None => usize::MAX,
    }
}

/// Whether the towel lies on the design from position `from` on.
pub fn towel_fits(goal: &Vec<StripColor>, towel: &Vec<StripColor>, from: usize) -> (b: bool)
    requires
        from <= goal.len(),
    ensures
        b == fits(goal@, towel@, from as int),
{
    if towel.len() == 0 || towel.len() > goal.len() - from {
        return false;
    }
    let mut i: usize = 0;
    while i < towel.len()
        invariant
            i <= towel.len(),
            from + towel.len() <= goal.len(),
            forall|j: int| 0 <= j < i ==> goal[from + j] == towel[j],
        decreases towel.len() - i,
    {
        if goal[from + i] != towel[i] {
            proof {
                assert(goal@.subrange(from as int, from + towel.len())[i as int] != towel@[i as int]);
            }
            return false;
        }
        i = i + 1;
    }
    proof {
        assert(goal@.subrange(from as int, from + towel.len()) =~= towel@);
    }
    true
}

/// The number of ways to lay out the design with the towels, or the
/// largest number that fits where there are more.
pub fn count_ways(goal: &Vec<StripColor>, towels: &AvailableTowels) -> (r: usize)
    ensures
        r == capped(ways(goal@, towels@)),
{
    let n: usize = goal.len();
    // `table[j]` is for the position `n - j`.
    let mut table: Vec<usize> = Vec::new();
    table.push(1);
    let mut done: usize = 0;
    while done < n
        invariant
            done <= n,
            n == goal.len(),
            table.len() == done + 1,
            forall|j: int|
                0 <= j <= done ==> #[trigger] table[j] == capped(ways_from(goal@, towels@, n - j)),
        decreases n - done,
    {
        let from: usize = n - done - 1;
        let mut acc: usize = 0;
        let mut k: usize = 0;
        while k < towels.0.len()
            invariant
                k <= towels.0.len(),
                done < n,
                n == goal.len(),
                from == n - done - 1,
                table.len() == done + 1,
                forall|j: int|
                    0 <= j <= done ==> #[trigger] table[j] == capped(
                        ways_from(goal@, towels@, n - j),
                    ),
                acc == capped(ways_with(goal@, towels@, from as int, k as int)),
            decreases towels.0.len() - k,
        {
            let towel = &towels.0[k];
            proof {
                assert(towels@[k as int] == towel@);
            }
            if towel_fits(goal, towel, from) {
                let at: usize = n - (from + towel.len());
                let more: usize = table[at];
                proof {
                    assert(more == capped(ways_from(goal@, towels@, n - at)));
                }
                acc = add_capped(acc, more);
            } else {
                proof {
                    assert(acc == capped(ways_with(goal@, towels@, from as int, k as int) + 0));
                }
            }
            k = k + 1;
        }
        table.push(acc);
        done = done + 1;
    }
    table[n]
}

/// Whether the design can be laid out with the towels.
pub fn can_be_achieved(goal: &Vec<StripColor>, towels: &AvailableTowels) -> (b: bool)
    ensures
        b == (ways(goal@, towels@) > 0),
{
    count_ways(goal, towels) > 0
}

/// The parts of the first line that commas separate, each without the
/// white space around it.
pub open spec fn towel_words(line: Seq<char>) -> Seq<Seq<char>> {
    let parts = split_seq(line, ',');
    Seq::new(parts.len(), |i: int| trimmed(parts[i]))
}

/// Whether a text lists towels and designs: the text, without the white
/// space around it, has a first line, and the words of that line and all
/// lines from the third on consist of letters that stand for colours.
pub open spec fn well_formed(text: Seq<char>) -> bool {
    let rows = split_lines(trimmed(text));
    &&& rows.len() >= 1
    &&& forall|i: int|
        0 <= i < towel_words(rows[0]).len() ==> all_colors(#[trigger] towel_words(rows[0])[i])
    &&& forall|i: int| 2 <= i < rows.len() ==> all_colors(#[trigger] rows[i])
}

/// The towels that a text lists: the words of its first line.
pub open spec fn towels_of(text: Seq<char>) -> Seq<Seq<StripColor>> {
    let words = towel_words(split_lines(trimmed(text))[0]);
    Seq::new(words.len(), |i: int| colors_of(words[i]))
}

/// The designs that a text lists: its lines from the third on.
pub open spec fn goals_of(text: Seq<char>) -> Seq<Seq<StripColor>> {
    let rows = split_lines(trimmed(text));
    let n: nat = if rows.len() >= 2 {
        (rows.len() - 2) as nat
    } else {
        0
    };
    Seq::new(n, |i: int| colors_of(rows[i + 2]))
}

/// Reads the towels and the designs, if the text lists them.
pub fn try_parse(input: &str) -> (r: Option<(AvailableTowels, DesignGoals)>)
    ensures
        match r {
            Some((towels, goals)) => well_formed(input@) && towels@ == towels_of(input@)
                && goals@ == goals_of(input@),
            None => !well_formed(input@),
        },
{
    let chars = chars_of(input);
    let body = trim(&chars);
    let rows = lines(&body);
    if rows.len() == 0 {
        return None;
    }
    proof {
        assert(views(rows@)[0] == rows[0]@);
    }
    let words = split_on(&rows[0], ',');
    let mut towels: Vec<Vec<StripColor>> = Vec::new();
    let mut i: usize = 0;
    while i < words.len()
        invariant
            i <= words.len(),
            rows.len() >= 1,
            views(rows@) == split_lines(trimmed(input@)),
            views(words@) == split_seq(rows[0]@, ','),
            towels.len() == i,
            forall|j: int|
                0 <= j < i ==> (#[trigger] towels[j])@ == colors_of(towel_words(rows[0]@)[j])
                    && all_colors(towel_words(rows[0]@)[j]),
        decreases words.len() - i,
    {
        proof {
            assert(views(words@)[i as int] == words[i as int]@);
        }
        let word = trim(&words[i]);
        proof {
            assert(towel_words(rows[0]@)[i as int] == word@);
        }
        match parse_colors(&word) {
            Some(t) => {
                let ghost before = towels@;
                towels.push(t);
                proof {
                    assert forall|j: int| 0 <= j < i + 1 implies (#[trigger] towels[j])@
                        == colors_of(towel_words(rows[0]@)[j]) && all_colors(
                        towel_words(rows[0]@)[j],
                    ) by {
                        if j < i {
                            assert(towels[j] == before[j]);
                        }
                    }
                }
            },
            None => {
                proof {
                    assert(!all_colors(towel_words(rows[0]@)[i as int]));
                    assert(views(rows@)[0] == rows[0]@);
                }
                return None;
            },
        }
        i = i + 1;
    }
    let mut goals: Vec<Vec<StripColor>> = Vec::new();
    let mut y: usize = 2;
    while y < rows.len()
        invariant
            goals.len() + 2 == y,
            y <= rows.len() || y == 2,
            views(rows@) == split_lines(trimmed(input@)),
            forall|k: int|
                0 <= k < goals.len() ==> (#[trigger] goals[k])@ == colors_of(rows[k + 2]@)
                    && all_colors(rows[k + 2]@),
        decreases rows.len() - y,
    {
        match parse_colors(&rows[y]) {
            Some(g) => {
                goals.push(g);
            },
            None => {
                proof {
                    assert(views(rows@)[y as int] == rows[y as int]@);
                }
                return None;
            },
        }
        y = y + 1;
    }
    let r = (AvailableTowels(towels), DesignGoals(goals));
    proof {
        let text = input@;
        let spec_rows = split_lines(trimmed(text));
        assert(spec_rows[0] == rows[0]@);
        assert forall|i: int| 2 <= i < spec_rows.len() implies all_colors(
            #[trigger] spec_rows[i],
        ) by {
            assert(spec_rows[i] == rows[i]@);
            assert(goals[i - 2]@ == colors_of(rows[i - 2 + 2]@));
        }
        assert forall|i: int| 0 <= i < towel_words(spec_rows[0]).len() implies all_colors(
            #[trigger] towel_words(spec_rows[0])[i],
        ) by {
            assert(towels[i]@ == colors_of(towel_words(rows[0]@)[i]));
        }
        assert(r.0@ =~= towels_of(text));
        assert(r.1@.len() == goals_of(text).len());
        assert(r.1@ =~= goals_of(text)) by {
            assert forall|i: int| 0 <= i < goals.len() implies r.1@[i] == goals_of(text)[i] by {
                assert(spec_rows[i + 2] == rows[i + 2]@);
                assert(goals[i]@ == colors_of(rows[i + 2]@));
            }
        }
    }
    Some(r)
}

/// Reads the towels and the designs. The text must list them.
pub fn parse(input: &str) -> (r: (AvailableTowels, DesignGoals))
    requires
        well_formed(input@),
    ensures
        r.0@ == towels_of(input@),
        r.1@ == goals_of(input@),
{
    match try_parse(input) {
        Some(r) => r,
        None => unreached(),
    }
}

/// The number of designs that can be laid out with the towels.
pub open spec fn achievable(goals: Seq<Seq<StripColor>>, towels: Seq<Seq<StripColor>>) -> nat
    decreases goals.len(),
{
    if goals.len() == 0 {
        0
    } else {
        achievable(goals.drop_last(), towels) + if ways(goals.last(), towels) > 0 {
            1nat
        } else {
            0nat
        }
    }
}

/// The number of the designs of the text that can be laid out with its
/// towels. The text must list towels and designs.
pub fn solve_day_19_part_01(input: &str) -> (r: usize)
    requires
        well_formed(input@),
    ensures
        r == achievable(goals_of(input@), towels_of(input@)),
{
    let (towels, goals) = parse(input);
    let mut count: usize = 0;
    let mut i: usize = 0;
    while i < goals.0.len()
        invariant
            i <= goals.0.len(),
            count <= i,
            count == achievable(goals@.take(i as int), towels@),
        decreases goals.0.len() - i,
    {
        proof {
            assert(goals@.take(i + 1).drop_last() =~= goals@.take(i as int));
            assert(goals@.take(i + 1).last() == goals.0[i as int]@);
        }
        if can_be_achieved(&goals.0[i], &towels) {
            count = count + 1;
        }
        i = i + 1;
    }
    proof {
        assert(goals@.take(goals.0.len() as int) =~= goals@);
    }
    count
}

} // verus!
