//! Pages that must be printed in an order that rules prescribe.

use crate::day01::texts;
use crate::util::text::chars_of;
use crate::util::text::find_char;
use crate::util::text::next_sep;
use crate::util::text::number_up_to;
use crate::util::text::parse_up_to;
use crate::util::text::split_on;
use crate::util::text::split_seq;
use crate::util::text::views;
use vstd::prelude::*;

verus! {

/// A rule: where both pages are printed, `before` comes before `after`.
#[derive(Debug, Copy, Clone, PartialEq, Eq, Structural)]
pub struct OrderRule {
    pub before: u8,
    pub after: u8,
}

/// The numbers up to 255 that the parts of a list denote, or `None` where
/// a part denotes none.
pub open spec fn pages_of(parts: Seq<Seq<char>>) -> Option<Seq<u8>>
    decreases parts.len(),
{
    if parts.len() == 0 {
        Some(Seq::empty())
    } else {
        match (pages_of(parts.drop_last()), number_up_to(parts.last(), 255)) {
            (Some(before), Some(n)) => Some(before.push(n as u8)),
            _ => None,
        }
    }
}

/// Where all parts denote pages, so do the first of them.
pub proof fn lemma_pages_of_prefix(parts: Seq<Seq<char>>, k: int)
    requires
        0 <= k <= parts.len(),
        pages_of(parts) is Some,
    ensures
        pages_of(parts.take(k)) is Some,
    decreases parts.len(),
{
    if k == parts.len() {
        assert(parts.take(k) =~= parts);
    } else {
        lemma_pages_of_prefix(parts.drop_last(), k);
        assert(parts.drop_last().take(k) =~= parts.take(k));
    }
}

/// Reads the numbers that `sep` separates in a line.
pub fn parse_pages(line: &Vec<char>, sep: char) -> (r: Option<Vec<u8>>)
    ensures
        match r {
            Some(v) => pages_of(split_seq(line@, sep)) == Some(v@),
            None => pages_of(split_seq(line@, sep)) is None,
        },
{
    let parts = split_on(line, sep);
    let mut v: Vec<u8> = Vec::new();
    let mut i: usize = 0;
    while i < parts.len()
        invariant
            i <= parts.len(),
            views(parts@) == split_seq(line@, sep),
            pages_of(views(parts@).take(i as int)) == Some(v@),
        decreases parts.len() - i,
    {
        proof {
            assert(views(parts@).take(i + 1).drop_last() =~= views(parts@).take(i as int));
            assert(views(parts@).take(i + 1).last() == parts[i as int]@);
        }
        match parse_up_to(&parts[i], 255) {
            Some(n) => {
                v.push(n as u8);
            },
            None => {
                proof {
                    if pages_of(views(parts@)) is Some {
                        lemma_pages_of_prefix(views(parts@), i + 1);
                    }
                }
                return None;
            },
        }
        i = i + 1;
    }
    proof {
        assert(views(parts@).take(parts.len() as int) =~= views(parts@));
    }
    Some(v)
}

/// Whether a line holds the character `c`.
pub open spec fn holds(line: Seq<char>, c: char) -> bool {
    next_sep(line, c, 0) < line.len()
}

/// The rule that a line with a bar states: the two pages about the bar.
pub open spec fn rule_of(line: Seq<char>) -> Option<OrderRule> {
    match pages_of(split_seq(line, '|')) {
        Some(v) => if v.len() == 2 {
            Some(OrderRule { before: v[0], after: v[1] })
        } else {
            None
        },
        None => None,
    }
}

/// The rules that the lines with a bar state, in their order; `None` where
/// such a line states no rule.
pub open spec fn rules_of(rows: Seq<Seq<char>>) -> Option<Seq<OrderRule>>
    decreases rows.len(),
{
    if rows.len() == 0 {
        Some(Seq::empty())
    } else {
        match rules_of(rows.drop_last()) {
            None => None,
            Some(before) => if !holds(rows.last(), '|') {
                Some(before)
            } else {
                match rule_of(rows.last()) {
                    Some(r) => Some(before.push(r)),
                    None => None,
                }
            },
        }
    }
}

/// The updates that the lines with a comma list, in their order; `None`
/// where such a line lists anything but pages.
pub open spec fn updates_of(rows: Seq<Seq<char>>) -> Option<Seq<Seq<u8>>>
    decreases rows.len(),
{
    if rows.len() == 0 {
        Some(Seq::empty())
    } else {
        match updates_of(rows.drop_last()) {
            None => None,
            Some(before) => if !holds(rows.last(), ',') {
                Some(before)
            } else {
                match pages_of(split_seq(rows.last(), ',')) {
                    Some(u) => Some(before.push(u)),
                    None => None,
                }
            },
        }
    }
}

/// The views of a sequence of updates.
pub open spec fn update_views(v: Seq<Vec<u8>>) -> Seq<Seq<u8>> {
    Seq::new(v.len(), |i: int| v[i]@)
}

/// Reads the rules of the lines. Every line with a bar must state one.
pub fn parse_rules(input: &Vec<String>) -> (r: Vec<OrderRule>)
    requires
        rules_of(texts(input@)) is Some,
    ensures
        rules_of(texts(input@)) == Some(r@),
{
    let mut r: Vec<OrderRule> = Vec::new();
    let mut i: usize = 0;
    while i < input.len()
        invariant
            i <= input.len(),
            rules_of(texts(input@)) is Some,
            rules_of(texts(input@).take(i as int)) == Some(r@),
        decreases input.len() - i,
    {
        proof {
            assert(texts(input@).take(i + 1).drop_last() =~= texts(input@).take(i as int));
            assert(texts(input@).take(i + 1).last() == input[i as int]@);
            lemma_rules_of_prefix(texts(input@), i + 1);
        }
        let line = chars_of(input[i].as_str());
        if find_char(&line, '|') < line.len() {
            match parse_pages(&line, '|') {
                Some(v) => {
                    if v.len() == 2 {
                        r.push(OrderRule { before: v[0], after: v[1] });
                    } else {
                        proof {
                            assert(false);
                        }
                    }
                },
                None => {
                    proof {
                        assert(false);
                    }
                },
            }
        }
        i = i + 1;
    }
    proof {
        assert(texts(input@).take(input.len() as int) =~= texts(input@));
    }
    r
}

/// Where all lines state rules, so do the first of them.
pub proof fn lemma_rules_of_prefix(rows: Seq<Seq<char>>, k: int)
    requires
        0 <= k <= rows.len(),
        rules_of(rows) is Some,
    ensures
        rules_of(rows.take(k)) is Some,
    decreases rows.len(),
{
    if k == rows.len() {
        assert(rows.take(k) =~= rows);
    } else {
        lemma_rules_of_prefix(rows.drop_last(), k);
        assert(rows.drop_last().take(k) =~= rows.take(k));
    }
}

/// Where all lines list updates, so do the first of them.
pub proof fn lemma_updates_of_prefix(rows: Seq<Seq<char>>, k: int)
    requires
        0 <= k <= rows.len(),
        updates_of(rows) is Some,
    ensures
        updates_of(rows.take(k)) is Some,
    decreases rows.len(),
{
    if k == rows.len() {
        assert(rows.take(k) =~= rows);
    } else {
        lemma_updates_of_prefix(rows.drop_last(), k);
        assert(rows.drop_last().take(k) =~= rows.take(k));
    }
}

/// Reads the updates of the lines. Every line with a comma must list
/// pages.
pub fn parse_updates(input: Vec<String>) -> (r: Vec<Vec<u8>>)
    requires
        updates_of(texts(input@)) is Some,
    ensures
        updates_of(texts(input@)) == Some(update_views(r@)),
{
    let mut r: Vec<Vec<u8>> = Vec::new();
    let mut i: usize = 0;
    while i < input.len()
        invariant
            i <= input.len(),
            updates_of(texts(input@)) is Some,
            updates_of(texts(input@).take(i as int)) == Some(update_views(r@)),
        decreases input.len() - i,
    {
        proof {
            assert(texts(input@).take(i + 1).drop_last() =~= texts(input@).take(i as int));
            assert(texts(input@).take(i + 1).last() == input[i as int]@);
            lemma_updates_of_prefix(texts(input@), i + 1);
        }
        let line = chars_of(input[i].as_str());
        if find_char(&line, ',') < line.len() {
            match parse_pages(&line, ',') {
                Some(v) => {
                    let ghost before = update_views(r@);
                    r.push(v);
                    proof {
                        assert(update_views(r@) =~= before.push(v@));
                    }
                },
                None => {
                    proof {
                        assert(false);
                    }
                },
            }
        }
        i = i + 1;
    }
    proof {
        assert(texts(input@).take(input.len() as int) =~= texts(input@));
    }
    r
}

/// The first place of the page `v` among the first `k` pages of the
/// update, or `k` where it is not among them.
pub open spec fn place_in(update: Seq<u8>, v: u8, k: int) -> int
    decreases k,
{
    if k <= 0 || k > update.len() {
        0
    } else {
        let before = place_in(update, v, k - 1);
        if before < k - 1 {
            before
        } else if update[k - 1] == v {
            k - 1
        } else {
            k
        }
    }
}

/// The first place of the page `v` in the update, if the update has it.
pub open spec fn place_of(update: Seq<u8>, v: u8) -> Option<int> {
    if place_in(update, v, update.len() as int) < update.len() {
        Some(place_in(update, v, update.len() as int))
    } else {
        None
    }
}

/// The first place of the page `v` in the update, if the update has it.
pub fn find_page(update: &Vec<u8>, v: u8) -> (r: Option<usize>)
    ensures
        match r {
            Some(i) => place_of(update@, v) == Some(i as int) && i < update.len() && update[i as int]
                == v,
            None => place_of(update@, v) is None,
        },
{
    let mut i: usize = 0;
    while i < update.len()
        invariant
            i <= update.len(),
            place_in(update@, v, i as int) == i,
        decreases update.len() - i,
    {
        if update[i] == v {
            proof {
                lemma_place_stays(update@, v, i + 1, update@.len() as int);
            }
            return Some(i);
        }
        i = i + 1;
    }
    None
}

/// A page that is found keeps its first place however many pages follow.
pub proof fn lemma_place_stays(update: Seq<u8>, v: u8, j: int, k: int)
    requires
        0 < j <= k <= update.len(),
        place_in(update, v, j) < j,
    ensures
        place_in(update, v, k) == place_in(update, v, j),
    decreases k - j,
{
    if j < k {
        lemma_place_stays(update, v, j, k - 1);
    }
}

/// Whether the update follows the rule: where it has both pages of the
/// rule, the page `before` has its first place before that of `after`.
pub open spec fn follows(update: Seq<u8>, rule: OrderRule) -> bool {
    place_of(update, rule.before) is Some && place_of(update, rule.after) is Some ==> place_of(
        update,
        rule.before,
    )->0 < place_of(update, rule.after)->0
}

/// Whether the update follows all rules.
pub open spec fn compliant(update: Seq<u8>, rules: Seq<OrderRule>) -> bool {
    forall|i: int| 0 <= i < rules.len() ==> follows(update, #[trigger] rules[i])
}

/// Whether the update has both pages of the rule.
pub open spec fn relevant(update: Seq<u8>, rule: OrderRule) -> bool {
    place_of(update, rule.before) is Some && place_of(update, rule.after) is Some
}

/// The rules of which the update has both pages, in their order.
pub open spec fn relevant_rules(update: Seq<u8>, rules: Seq<OrderRule>) -> Seq<OrderRule>
    decreases rules.len(),
{
    if rules.len() == 0 {
        Seq::empty()
    } else if relevant(update, rules.last()) {
        relevant_rules(update, rules.drop_last()).push(rules.last())
    } else {
        relevant_rules(update, rules.drop_last())
    }
}

/// The rules of which the update has both pages.
pub fn get_relevant_rules(update: &Vec<u8>, rules: &Vec<OrderRule>) -> (r: Vec<OrderRule>)
    ensures
        r@ == relevant_rules(update@, rules@),
{
    let mut r: Vec<OrderRule> = Vec::new();
    let mut i: usize = 0;
    while i < rules.len()
        invariant
            i <= rules.len(),
            r@ == relevant_rules(update@, rules@.take(i as int)),
        decreases rules.len() - i,
    {
        let rule = rules[i];
        proof {
            assert(rules@.take(i + 1).drop_last() =~= rules@.take(i as int));
        }
        if find_page(update, rule.before).is_some() && find_page(update, rule.after).is_some() {
            r.push(rule);
        }
        i = i + 1;
    }
    proof {
        assert(rules@.take(rules.len() as int) =~= rules@);
    }
    r
}

/// Whether the update follows all rules.
pub fn check_if_compliant(update: &Vec<u8>, rules: &Vec<OrderRule>) -> (r: bool)
    ensures
        r == compliant(update@, rules@),
{
    let mut i: usize = 0;
    while i < rules.len()
        invariant
            i <= rules.len(),
            forall|j: int| 0 <= j < i ==> follows(update@, #[trigger] rules[j]),
        decreases rules.len() - i,
    {
        let rule = rules[i];
        match (find_page(update, rule.before), find_page(update, rule.after)) {
            (Some(l), Some(r)) => {
                if !(l < r) {
                    proof {
                        assert(!follows(update@, rules[i as int]));
                    }
                    return false;
                }
            },
            _ => {},
        }
        i = i + 1;
    }
    true
}

/// The page in the middle of the update, or 0 for an update without
/// pages.
pub open spec fn middle(update: Seq<u8>) -> nat {
    if update.len() == 0 {
        0
    } else {
        update[update.len() as int / 2] as nat
    }
}

/// The middle pages of the updates that follow the rules, added up.
pub open spec fn compliant_middles(updates: Seq<Seq<u8>>, rules: Seq<OrderRule>) -> nat
    decreases updates.len(),
{
    if updates.len() == 0 {
        0
    } else {
        compliant_middles(updates.drop_last(), rules) + if compliant(updates.last(), rules) {
            middle(updates.last())
        } else {
            0nat
        }
    }
}

/// The sum of the middle pages of the updates that follow all rules.
/// Every line with a bar must state a rule, every line with a comma must
/// list pages, and there must be fewer than 2^24 updates.
pub fn solve_day_05_part_01(input: Vec<String>) -> (r: u32)
    requires
        rules_of(texts(input@)) is Some,
        updates_of(texts(input@)) is Some,
        updates_of(texts(input@))->0.len() < 0x100_0000,
    ensures
        r == compliant_middles(updates_of(texts(input@))->0, rules_of(texts(input@))->0),
{
    let order_rules = parse_rules(&input);
    let updates = parse_updates(input);
    let ghost all = update_views(updates@);
    let mut sum: u32 = 0;
    let mut i: usize = 0;
    while i < updates.len()
        invariant
            i <= updates.len() < 0x100_0000,
            all == update_views(updates@),
            sum == compliant_middles(all.take(i as int), order_rules@),
            sum <= 255 * i,
        decreases updates.len() - i,
    {
        proof {
            assert(all.take(i + 1).drop_last() =~= all.take(i as int));
            assert(all.take(i + 1).last() == updates[i as int]@);
        }
        let update = &updates[i];
        if check_if_compliant(update, &order_rules) {
            let mid: u32 = if update.len() == 0 {
                0
            } else {
                update[update.len() / 2] as u32
            };
            sum = sum + mid;
        }
        i = i + 1;
    }
    proof {
        assert(all.take(updates.len() as int) =~= all);
    }
    sum
}

/// The update after one rule is applied: where the update has both pages
/// of the rule and the first place of `before` is behind that of `after`,
/// the pages at the two places change places.
pub open spec fn with_rule(update: Seq<u8>, rule: OrderRule) -> Seq<u8> {
    match (place_of(update, rule.before), place_of(update, rule.after)) {
        (Some(l), Some(r)) => if l > r {
            update.update(l, update[r]).update(r, update[l])
        } else {
            update
        },
        _ => update,
    }
}

/// The update after the first `k` rules are applied, one after the other.
pub open spec fn pass(update: Seq<u8>, rules: Seq<OrderRule>, k: nat) -> Seq<u8>
    decreases k,
{
    if k == 0 || k > rules.len() {
        update
    } else {
        with_rule(pass(update, rules, (k - 1) as nat), rules[k - 1])
    }
}

/// The update after passes over all rules: a pass applies every rule
/// once, and passes are made until the update follows all rules, one pass
/// at least and `fuel + 1` at most.
pub open spec fn sorted_update(update: Seq<u8>, rules: Seq<OrderRule>, fuel: nat) -> Seq<u8>
    decreases fuel,
{
    let after = pass(update, rules, rules.len());
    if compliant(after, rules) || fuel == 0 {
        after
    } else {
        sorted_update(after, rules, (fuel - 1) as nat)
    }
}

/// The most passes that are made over the rules, less one.
pub const PASS_LIMIT: u64 = u64::MAX;

/// The first place of a page among the first `k` pages is one of their
/// places, or `k`.
pub proof fn lemma_place_bounds(update: Seq<u8>, v: u8, k: int)
    requires
        0 <= k <= update.len(),
    ensures
        0 <= place_in(update, v, k) <= k,
    decreases k,
{
    if k > 0 {
        lemma_place_bounds(update, v, k - 1);
    }
}

/// A pass keeps the number of pages.
pub proof fn lemma_pass_len(update: Seq<u8>, rules: Seq<OrderRule>, k: nat)
    ensures
        pass(update, rules, k).len() == update.len(),
    decreases k,
{
    if k > 0 && k <= rules.len() {
        lemma_pass_len(update, rules, (k - 1) as nat);
        let before = pass(update, rules, (k - 1) as nat);
        lemma_place_bounds(before, rules[k - 1].before, before.len() as int);
        lemma_place_bounds(before, rules[k - 1].after, before.len() as int);
    }
}

/// Passes keep the number of pages.
pub proof fn lemma_sorted_update_len(update: Seq<u8>, rules: Seq<OrderRule>, fuel: nat)
    ensures
        sorted_update(update, rules, fuel).len() == update.len(),
    decreases fuel,
{
    lemma_pass_len(update, rules, rules.len());
    if fuel > 0 {
        lemma_sorted_update_len(pass(update, rules, rules.len()), rules, (fuel - 1) as nat);
    }
}

/// Puts the pages of the update into an order that follows the rules, by
/// passes over the rules, as long as it takes and `PASS_LIMIT` passes and
/// one at most.
pub fn sort_update(update: Vec<u8>, rules: &Vec<OrderRule>) -> (r: Vec<u8>)
    ensures
        r@ == sorted_update(update@, rules@, PASS_LIMIT as nat),
{
    let mut update = update;
    let ghost first = update@;
    let mut left: u64 = PASS_LIMIT;
    loop
        invariant_except_break
            sorted_update(update@, rules@, left as nat) == sorted_update(
                first,
                rules@,
                PASS_LIMIT as nat,
            ),
        ensures
            update@ == sorted_update(first, rules@, PASS_LIMIT as nat),
        decreases left,
    {
        let ghost before = update@;
        let mut k: usize = 0;
        while k < rules.len()
            invariant
                k <= rules.len(),
                update@ == pass(before, rules@, k as nat),
            decreases rules.len() - k,
        {
            let rule = rules[k];
            match (find_page(&update, rule.before), find_page(&update, rule.after)) {
                (Some(l), Some(r)) => {
                    if l > r {
                        let a = update[l];
                        let b = update[r];
                        update.set(l, b);
                        update.set(r, a);
                    }
                },
                _ => {},
            }
            k = k + 1;
        }
        if left == 0 || check_if_compliant(&update, rules) {
            break;
        }
        left = left - 1;
    }
    update
}

/// The middle pages of the updates that do not follow the rules, once
/// their pages are put into an order that does, added up.
pub open spec fn sorted_middles(updates: Seq<Seq<u8>>, rules: Seq<OrderRule>) -> nat
    decreases updates.len(),
{
    if updates.len() == 0 {
        0
    } else {
        sorted_middles(updates.drop_last(), rules) + if compliant(updates.last(), rules) {
            0nat
        } else {
            middle(
                sorted_update(
                    updates.last(),
                    relevant_rules(updates.last(), rules),
                    PASS_LIMIT as nat,
                ),
            )
        }
    }
}

/// An update follows all rules where it follows those of which it has
/// both pages.
pub proof fn lemma_relevant_suffices(update: Seq<u8>, rules: Seq<OrderRule>)
    ensures
        compliant(update, relevant_rules(update, rules)) == compliant(update, rules),
    decreases rules.len(),
{
    if rules.len() > 0 {
        let head = rules.drop_last();
        lemma_relevant_suffices(update, head);
        let some = relevant_rules(update, head);
        if compliant(update, rules) {
            assert forall|i: int| 0 <= i < head.len() implies follows(update, #[trigger] head[i]) by {
                assert(head[i] == rules[i]);
            }
            assert(follows(update, rules[rules.len() - 1]));
        }
        if compliant(update, relevant_rules(update, rules)) {
            if relevant(update, rules.last()) {
                let all = some.push(rules.last());
                assert forall|i: int| 0 <= i < some.len() implies follows(update, #[trigger] some[i]) by {
                    assert(some[i] == all[i]);
                }
                assert(follows(update, all[some.len() as int]));
            }
            assert forall|i: int| 0 <= i < rules.len() implies follows(update, #[trigger] rules[i]) by {
                if i < head.len() {
                    assert(head[i] == rules[i]);
                }
            }
        }
    }
}

/// The sum of the middle pages of the updates that do not follow the
/// rules, each after its pages are put into an order that does. Every
/// line with a bar must state a rule, every line with a comma must list
/// pages, and there must be fewer than 2^24 updates.
pub fn solve_day_05_part_02(input: Vec<String>) -> (r: u32)
    requires
        rules_of(texts(input@)) is Some,
        updates_of(texts(input@)) is Some,
        updates_of(texts(input@))->0.len() < 0x100_0000,
    ensures
        r == sorted_middles(updates_of(texts(input@))->0, rules_of(texts(input@))->0),
{
    let order_rules = parse_rules(&input);
    let updates = parse_updates(input);
    let ghost all = update_views(updates@);
    let mut sum: u32 = 0;
    let mut i: usize = 0;
    while i < updates.len()
        invariant
            i <= updates.len() < 0x100_0000,
            all == update_views(updates@),
            sum == sorted_middles(all.take(i as int), order_rules@),
            sum <= 255 * i,
        decreases updates.len() - i,
    {
        proof {
            assert(all.take(i + 1).drop_last() =~= all.take(i as int));
            assert(all.take(i + 1).last() == updates[i as int]@);
            lemma_relevant_suffices(updates[i as int]@, order_rules@);
        }
        let update = &updates[i];
        let some = get_relevant_rules(update, &order_rules);
        if !check_if_compliant(update, &some) {
            let sorted = sort_update(update.clone(), &some);
            let mid: u32 = if sorted.len() == 0 {
                0
            } else {
                sorted[sorted.len() / 2] as u32
            };
            sum = sum + mid;
        }
        i = i + 1;
    }
    proof {
        assert(all.take(updates.len() as int) =~= all);
    }
    sum
}

} // verus!
