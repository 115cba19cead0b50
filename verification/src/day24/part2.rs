//! The machine, the values of its wires, and the repair of its adder.

use crate::day25::same_chars;
use crate::search::count_true;
use crate::search::lemma_count_all_false;
use crate::search::lemma_count_true_bound;
use crate::search::lemma_count_true_set;
use crate::util::order::by_text;
use crate::util::order::glued;
use crate::util::order::join_strings;
use crate::util::order::string_views;
use crate::util::order::sort_texts;
use crate::util::text::append_chars;
use crate::util::text::chars_of;
use crate::util::text::decimal_digits;
use crate::util::text::format_u128;
use crate::util::text::find_char;
use crate::util::text::find_pair;
use crate::util::text::lines;
use crate::util::text::next_pair;
use crate::util::text::next_sep;
use crate::util::text::slice_of;
use crate::util::text::split_lines;
use crate::util::text::split_words;
use crate::util::text::words;
use crate::util::text::string_from_chars;
use crate::util::text::views;
use vstd::pervasive::unreached;
use vstd::prelude::*;

verus! {

/// What a gate does with its two inputs.
#[derive(Debug, Clone, Copy, PartialEq, Eq, Hash, Structural)]
pub enum Operator {
    And,
    Or,
    Xor,
}

impl Operator {
    /// What comes out of the inputs `a` and `b`.
    pub open spec fn applied(self, a: bool, b: bool) -> bool {
        match self {
            Operator::And => a && b,
            Operator::Or => a || b,
            Operator::Xor => a != b,
        }
    }

    /// What comes out of the inputs `a` and `b`.
    pub fn apply(self, a: bool, b: bool) -> (r: bool)
        ensures
            r == self.applied(a, b),
    {
        match self {
            Operator::And => a && b,
            Operator::Or => a || b,
            Operator::Xor => a != b,
        }
    }
}

/// A wire: an input with its value, or the output of a gate with the
/// names of the two wires that it reads.
#[derive(Debug, Clone, PartialEq, Eq)]
pub enum Wire {
    Input(bool),
    Function(Operator, Vec<char>, Vec<char>),
}

/// A wire as plain values.
pub enum WireView {
    Input(bool),
    Function(Operator, Seq<char>, Seq<char>),
}

impl View for Wire {
    type V = WireView;

    open spec fn view(&self) -> WireView {
        match self {
            Wire::Input(v) => WireView::Input(*v),
            Wire::Function(op, a, b) => WireView::Function(*op, a@, b@),
        }
    }
}

/// A copy of a wire.
pub fn copy_wire(w: &Wire) -> (r: Wire)
    ensures
        r@ == w@,
{
    match w {
        Wire::Input(v) => Wire::Input(*v),
        Wire::Function(op, a, b) => Wire::Function(*op, a.clone(), b.clone()),
    }
}

/// The machine: its wires by their names.
#[derive(Debug, Clone, PartialEq, Eq)]
pub struct Machine {
    names: Vec<Vec<char>>,
    wires: Vec<Wire>,
}

/// Whether one of the names is `key`.
pub open spec fn named(names: Seq<Vec<char>>, key: Seq<char>) -> bool {
    exists|i: int| 0 <= i < names.len() && #[trigger] names[i]@ == key
}

/// The place of the name `key` among the names.
pub open spec fn index_of(names: Seq<Vec<char>>, key: Seq<char>) -> int {
    choose|i: int| 0 <= i < names.len() && #[trigger] names[i]@ == key
}

/// Whether no name occurs twice.
pub open spec fn distinct(names: Seq<Vec<char>>) -> bool {
    forall|i: int, j: int|
        0 <= i < j < names.len() ==> (#[trigger] names[i])@ != (#[trigger] names[j])@
}

/// The names with `key` behind them, unless `key` is one of them.
pub open spec fn with_name(order: Seq<Seq<char>>, key: Seq<char>) -> Seq<Seq<char>> {
    if order.contains(key) {
        order
    } else {
        order.push(key)
    }
}

/// The wires by their names.
pub open spec fn wiring(names: Seq<Vec<char>>, wires: Seq<Wire>) -> Map<Seq<char>, WireView> {
    Map::new(|k: Seq<char>| named(names, k), |k: Seq<char>| wires[index_of(names, k)]@)
}

impl View for Machine {
    type V = Map<Seq<char>, WireView>;

    closed spec fn view(&self) -> Map<Seq<char>, WireView> {
        wiring(self.names@, self.wires@)
    }
}

/// The value of the wire `w`, found by following gates at most `fuel`
/// deep: the value of an input is given, and the value of the output of a
/// gate is what its operator makes of the values of the two wires that are read.
/// `None` where a wire on the way is not in the machine, or where the
/// gates lie deeper than `fuel`, as they do where a wire depends on
/// itself.
pub open spec fn value(m: Map<Seq<char>, WireView>, w: Seq<char>, fuel: nat) -> Option<bool>
    decreases fuel,
{
    if fuel == 0 || !m.contains_key(w) {
        None
    } else {
        match m[w] {
            WireView::Input(v) => Some(v),
            WireView::Function(op, a, b) => match (
                value(m, a, (fuel - 1) as nat),
                value(m, b, (fuel - 1) as nat),
            ) {
                (Some(x), Some(y)) => Some(op.applied(x, y)),
                _ => None,
            },
        }
    }
}

/// The depth to which the values of the wires of a machine with `size`
/// wires are followed: one more than there are wires, as far as that can
/// be counted.
pub open spec fn depth_of(size: nat) -> nat {
    if size < usize::MAX {
        size + 1
    } else {
        size
    }
}

impl Machine {
    /// What holds of every machine: every wire has one name.
    pub closed spec fn wf(&self) -> bool {
        self.names.len() == self.wires.len() && distinct(self.names@)
    }

    /// The names of the wires, in the order in which they came.
    pub closed spec fn names(&self) -> Seq<Seq<char>> {
        views(self.names@)
    }

    /// The number of wires.
    pub closed spec fn size(&self) -> nat {
        self.names.len() as nat
    }

    /// The wires of a machine are the wires with its names.
    pub proof fn lemma_names(&self)
        requires
            self.wf(),
        ensures
            self.names().len() == self.size(),
            forall|k: Seq<char>| self@.contains_key(k) <==> self.names().contains(k),
            self.names().no_duplicates(),
    {
        assert forall|k: Seq<char>| self@.contains_key(k) <==> self.names().contains(k) by {
            if self@.contains_key(k) {
                let i = index_of(self.names@, k);
                assert(self.names()[i] == k);
            }
            if self.names().contains(k) {
                let i = choose|i: int| 0 <= i < self.names().len() && self.names()[i] == k;
                assert(self.names@[i]@ == k);
            }
        }
    }

    /// The machine without wires.
    pub fn new() -> (m: Machine)
        ensures
            m.wf(),
            m@ == Map::<Seq<char>, WireView>::empty(),
            m.names() == Seq::<Seq<char>>::empty(),
    {
        let m = Machine { names: Vec::new(), wires: Vec::new() };
        proof {
            assert(m@ =~= Map::<Seq<char>, WireView>::empty());
            assert(m.names() =~= Seq::<Seq<char>>::empty());
        }
        m
    }

    /// The place of the wire with the name `key`.
    fn lookup(&self, key: &Vec<char>) -> (r: Option<usize>)
        requires
            self.wf(),
        ensures
            match r {
                Some(i) => i < self.names.len() && self.names[i as int]@ == key@ && self@.contains_key(
                    key@,
                ) && self@[key@] == self.wires[i as int]@,
                None => !self@.contains_key(key@),
            },
    {
        let mut i: usize = 0;
        while i < self.names.len()
            invariant
                self.wf(),
                i <= self.names.len(),
                forall|j: int| 0 <= j < i ==> (#[trigger] self.names[j])@ != key@,
            decreases self.names.len() - i,
        {
            if same_chars(&self.names[i], key) {
                proof {
                    assert(self.names@[i as int]@ == key@);
                    assert(named(self.names@, key@));
                    let j = index_of(self.names@, key@);
                    assert(0 <= j < self.names@.len() && self.names@[j]@ == key@);
                    assert(distinct(self.names@));
                    if j < i {
                        assert(self.names@[j]@ != self.names@[i as int]@);
                    } else if j > i {
                        assert(self.names@[i as int]@ != self.names@[j]@);
                    }
                }
                return Some(i);
            }
            i = i + 1;
        }
        None
    }

    /// Puts the wire `wire` under the name `key`, in place of the wire
    /// that had the name, if there was one.
    pub fn insert(&mut self, key: Vec<char>, wire: Wire)
        requires
            old(self).wf(),
        ensures
            final(self).wf(),
            final(self)@ == old(self)@.insert(key@, wire@),
            final(self).names() == with_name(old(self).names(), key@),
    {
        let ghost names0 = self.names@;
        let ghost wires0 = self.wires@;
        match self.lookup(&key) {
            Some(i) => {
                self.wires.set(i, wire);
                proof {
                    assert(views(names0)[i as int] == key@);
                    assert forall|k: Seq<char>| named(names0, k) implies #[trigger] self@[k] == old(
                        self,
                    )@.insert(key@, wire@)[k] by {
                        let j = index_of(names0, k);
                        if k == key@ {
                            if j < i {
                                assert(names0[j]@ != names0[i as int]@);
                            } else if j > i {
                                assert(names0[i as int]@ != names0[j]@);
                            }
                        } else {
                            assert(j != i);
                        }
                    }
                    assert(self@ =~= old(self)@.insert(key@, wire@));
                }
            },
            None => {
                self.names.push(key);
                self.wires.push(wire);
                proof {
                    let names1 = self.names@;
                    let n = names0.len() as int;
                    assert(names1[n]@ == key@);
                    assert(views(names1) =~= views(names0).push(key@));
                    if views(names0).contains(key@) {
                        let j = choose|j: int| 0 <= j < views(names0).len() && views(names0)[j]
                            == key@;
                        assert(names0[j]@ == key@);
                    }
                    assert forall|k: Seq<char>| named(names1, k) <==> (named(names0, k) || k
                        == key@) by {
                        if named(names0, k) {
                            let j = index_of(names0, k);
                            assert(names1[j]@ == k);
                        }
                        if named(names1, k) {
                            let j = index_of(names1, k);
                            if j < n {
                                assert(names0[j]@ == k);
                            }
                        }
                    }
                    assert forall|i: int, j: int| 0 <= i < j < names1.len() implies (
                    #[trigger] names1[i])@ != (#[trigger] names1[j])@ by {
                        if j == n {
                            assert(names0[i]@ == names1[i]@);
                            assert(!named(names0, key@));
                        } else {
                            assert(names0[i]@ != names0[j]@);
                        }
                    }
                    assert forall|k: Seq<char>| named(names1, k) implies #[trigger] self@[k] == old(
                        self,
                    )@.insert(key@, wire@)[k] by {
                        let j = index_of(names1, k);
                        if k == key@ {
                            if j < n {
                                assert(names1[j]@ != names1[n]@);
                            }
                        } else {
                            let j0 = index_of(names0, k);
                            assert(names0[j]@ == k);
                            if j0 < j {
                                assert(names0[j0]@ != names0[j]@);
                            } else if j0 > j {
                                assert(names0[j]@ != names0[j0]@);
                            }
                        }
                    }
                    assert(self@ =~= old(self)@.insert(key@, wire@));
                }
            },
        }
    }

    /// The wire with the name `key`, if the machine has one.
    pub fn wire(&self, key: &str) -> (r: Option<Wire>)
        requires
            self.wf(),
        ensures
            match r {
                Some(w) => self@.contains_pair(key@, w@),
                None => !self@.contains_key(key@),
            },
    {
        let name = chars_of(key);
        match self.lookup(&name) {
            Some(i) => Some(copy_wire(&self.wires[i])),
            None => None,
        }
    }

    /// The name `key` as the machine holds it. The machine must have a
    /// wire of that name.
    pub fn wire_name(&self, key: &str) -> (r: &Vec<char>)
        requires
            self.wf(),
            self@.contains_key(key@),
        ensures
            r@ == key@,
    {
        let name = chars_of(key);
        match self.lookup(&name) {
            Some(i) => &self.names[i],
            None => vstd::pervasive::unreached(),
        }
    }

    /// The value of the wire with the name `wire`, found by following
    /// gates at most `fuel` deep.
    pub fn evaluate(&self, wire: &Vec<char>, fuel: usize) -> (r: Option<bool>)
        requires
            self.wf(),
        ensures
            r == value(self@, wire@, fuel as nat),
        decreases fuel,
    {
        if fuel == 0 {
            return None;
        }
        match self.lookup(wire) {
            None => None,
            Some(i) => match &self.wires[i] {
                Wire::Input(v) => Some(*v),
                Wire::Function(op, a, b) => {
                    let x = self.evaluate(a, fuel - 1);
                    let y = self.evaluate(b, fuel - 1);
                    match (x, y) {
                        (Some(x), Some(y)) => Some(op.apply(x, y)),
                        _ => None,
                    }
                },
            },
        }
    }

    /// The depth to which the values of wires are followed: no gate of a
    /// machine whose wires do not depend on themselves lies deeper.
    pub open spec fn depth(&self) -> nat {
        depth_of(self.size())
    }

    /// The value of the wire with the name `wire`, or an error where the
    /// wire, or one that it depends on, is not in the machine or depends
    /// on itself.
    pub fn value_of_loopcheck(&self, wire: &str) -> (r: Result<bool, ()>)
        requires
            self.wf(),
        ensures
            match r {
                Ok(v) => value(self@, wire@, self.depth()) == Some(v),
                Err(_) => value(self@, wire@, self.depth()) is None,
            },
    {
        let name = chars_of(wire);
        let fuel: usize = if self.names.len() < usize::MAX {
            self.names.len() + 1
        } else {
            self.names.len()
        };
        match self.evaluate(&name, fuel) {
            Some(v) => Ok(v),
            None => Err(()),
        }
    }

    /// The value of the wire with the name `wire`. The wire and all that
    /// it depends on must be in the machine, and none may depend on
    /// itself.
    pub fn value_of(&self, wire: &str) -> (r: bool)
        requires
            self.wf(),
            value(self@, wire@, self.depth()) is Some,
        ensures
            value(self@, wire@, self.depth()) == Some(r),
    {
        match self.value_of_loopcheck(wire) {
            Ok(v) => v,
            Err(_) => vstd::pervasive::unreached(),
        }
    }

    /// Lets the wires with the names `a` and `b` change places. The
    /// machine must have both.
    pub fn swap(&mut self, a: &str, b: &str)
        requires
            old(self).wf(),
            old(self)@.contains_key(a@),
            old(self)@.contains_key(b@),
        ensures
            final(self).wf(),
            final(self)@ == old(self)@.insert(a@, old(self)@[b@]).insert(b@, old(self)@[a@]),
    {
        let name_a = chars_of(a);
        let name_b = chars_of(b);
        let (i, j) = match (self.lookup(&name_a), self.lookup(&name_b)) {
            (Some(i), Some(j)) => (i, j),
            _ => vstd::pervasive::unreached(),
        };
        let old_a = copy_wire(&self.wires[i]);
        let old_b = copy_wire(&self.wires[j]);
        self.insert(name_a, old_b);
        self.insert(name_b, old_a);
    }
}

/// A letter of the ASCII range as a capital letter, and any other
/// character as it is.
pub open spec fn upper(c: char) -> char {
    if 'a' <= c <= 'z' {
        ((c as u32) - 32) as char
    } else {
        c
    }
}

/// Whether the two texts are the same but for small and capital letters of
/// the ASCII range.
pub open spec fn same_letters(a: Seq<char>, b: Seq<char>) -> bool {
    a.len() == b.len() && forall|i: int| 0 <= i < a.len() ==> upper(#[trigger] a[i]) == upper(b[i])
}

/// The operator that a word names: `AND`, `OR` or `XOR`, in small or
/// capital letters.
pub open spec fn operator_of(word: Seq<char>) -> Option<Operator> {
    if same_letters(word, seq!['A', 'N', 'D']) {
        Some(Operator::And)
    } else if same_letters(word, seq!['O', 'R']) {
        Some(Operator::Or)
    } else if same_letters(word, seq!['X', 'O', 'R']) {
        Some(Operator::Xor)
    } else {
        None
    }
}

/// The capital letter of a letter of the ASCII range.
pub fn to_upper(c: char) -> (r: char)
    ensures
        r == upper(c),
{
    if 'a' <= c && c <= 'z' {
        match c {
            'a' => 'A',
            'b' => 'B',
            'c' => 'C',
            'd' => 'D',
            'e' => 'E',
            'f' => 'F',
            'g' => 'G',
            'h' => 'H',
            'i' => 'I',
            'j' => 'J',
            'k' => 'K',
            'l' => 'L',
            'm' => 'M',
            'n' => 'N',
            'o' => 'O',
            'p' => 'P',
            'q' => 'Q',
            'r' => 'R',
            's' => 'S',
            't' => 'T',
            'u' => 'U',
            'v' => 'V',
            'w' => 'W',
            'x' => 'X',
            'y' => 'Y',
            _ => 'Z',
        }
    } else {
        c
    }
}

impl Operator {
    /// The operator that a word names, if it names one.
    pub fn from_name(value: &Vec<char>) -> (r: Option<Operator>)
        ensures
            r == operator_of(value@),
    {
        if value.len() == 3 && to_upper(value[0]) == 'A' && to_upper(value[1]) == 'N' && to_upper(
            value[2],
        ) == 'D' {
            proof {
                assert(same_letters(value@, seq!['A', 'N', 'D']));
            }
            Some(Operator::And)
        } else if value.len() == 2 && to_upper(value[0]) == 'O' && to_upper(value[1]) == 'R' {
            proof {
                assert(same_letters(value@, seq!['O', 'R']));
                lemma_not_and(value@);
            }
            Some(Operator::Or)
        } else if value.len() == 3 && to_upper(value[0]) == 'X' && to_upper(value[1]) == 'O'
            && to_upper(value[2]) == 'R' {
            proof {
                assert(same_letters(value@, seq!['X', 'O', 'R']));
                lemma_not_and(value@);
            }
            Some(Operator::Xor)
        } else {
            proof {
                lemma_not_and(value@);
                let (or, xor) = (seq!['O', 'R'], seq!['X', 'O', 'R']);
                if same_letters(value@, or) {
                    assert(upper(value@[0]) == upper(or[0]) && upper(value@[1]) == upper(or[1]));
                }
                if same_letters(value@, xor) {
                    assert(upper(value@[0]) == upper(xor[0]) && upper(value@[1]) == upper(xor[1])
                        && upper(value@[2]) == upper(xor[2]));
                }
            }
            None
        }
    }
}

/// A word that names `AND` has its three letters.
pub proof fn lemma_not_and(word: Seq<char>)
    ensures
        same_letters(word, seq!['A', 'N', 'D']) ==> word.len() == 3 && upper(word[0]) == 'A'
            && upper(word[1]) == 'N' && upper(word[2]) == 'D',
{
    let and = seq!['A', 'N', 'D'];
    if same_letters(word, and) {
        assert(upper(word[0]) == upper(and[0]) && upper(word[1]) == upper(and[1]) && upper(word[2])
            == upper(and[2]));
    }
}

/// What a line of the description makes of the wires read so far. A line
/// with a colon names an input: its name stands before the first colon
/// that a blank follows, and its value is 1 where the rest of the line is
/// `1`, else 0. A line with an arrow names a gate, in words: the first
/// input, the operator, the second input, a word that is passed over, and
/// the output. `None` where a line with a colon has no colon with a blank
/// behind it, and where a line with an arrow has fewer than five words or
/// no operator as its second.
pub open spec fn with_line(m: Map<Seq<char>, WireView>, line: Seq<char>) -> Option<
    Map<Seq<char>, WireView>,
> {
    let colon = next_pair(line, ':', ' ', 0);
    let after_input = if next_sep(line, ':', 0) < line.len() {
        if colon < line.len() {
            Some(
                m.insert(
                    line.take(colon),
                    WireView::Input(line.skip(colon + 2) == seq!['1']),
                ),
            )
        } else {
            None
        }
    } else {
        Some(m)
    };
    let ws = split_words(line);
    match after_input {
        None => None,
        Some(m1) => if next_pair(line, '-', '>', 0) < line.len() {
            if ws.len() >= 5 && operator_of(ws[1]) is Some {
                Some(m1.insert(ws[4], WireView::Function(operator_of(ws[1])->0, ws[0], ws[2])))
            } else {
                None
            }
        } else {
            Some(m1)
        },
    }
}

/// The names of the wires after a line of the description: the name of
/// the input or of the output that the line names comes behind the names
/// so far, unless it is one of them.
pub open spec fn names_with_line(order: Seq<Seq<char>>, line: Seq<char>) -> Seq<Seq<char>> {
    let colon = next_pair(line, ':', ' ', 0);
    let after_input = if next_sep(line, ':', 0) < line.len() {
        with_name(order, line.take(colon))
    } else {
        order
    };
    if next_pair(line, '-', '>', 0) < line.len() {
        with_name(after_input, split_words(line)[4])
    } else {
        after_input
    }
}

/// The names of the wires of a description, in the order in which the
/// lines name them first.
pub open spec fn listed(rows: Seq<Seq<char>>) -> Seq<Seq<char>>
    decreases rows.len(),
{
    if rows.len() == 0 {
        Seq::empty()
    } else {
        names_with_line(listed(rows.drop_last()), rows.last())
    }
}

/// What the lines of a description make of a machine without wires, one
/// after the other.
pub open spec fn wired(rows: Seq<Seq<char>>) -> Option<Map<Seq<char>, WireView>>
    decreases rows.len(),
{
    if rows.len() == 0 {
        Some(Map::empty())
    } else {
        match wired(rows.drop_last()) {
            Some(m) => with_line(m, rows.last()),
            None => None,
        }
    }
}

/// Where all lines can be read, so can the first of them.
pub proof fn lemma_wired_prefix(rows: Seq<Seq<char>>, k: int)
    requires
        0 <= k <= rows.len(),
        wired(rows) is Some,
    ensures
        wired(rows.take(k)) is Some,
    decreases rows.len(),
{
    if k == rows.len() {
        assert(rows.take(k) =~= rows);
    } else {
        lemma_wired_prefix(rows.drop_last(), k);
        assert(rows.drop_last().take(k) =~= rows.take(k));
    }
}

impl Machine {
    /// Reads one more line of a description.
    pub fn read_line(&mut self, line: &Vec<char>) -> (ok: bool)
        requires
            old(self).wf(),
        ensures
            final(self).wf(),
            match with_line(old(self)@, line@) {
                Some(m) => ok && final(self)@ == m && final(self).names() == names_with_line(
                    old(self).names(),
                    line@,
                ),
                None => !ok,
            },
    {
        if find_char(line, ':') < line.len() {
            let colon = find_pair(line, ':', ' ');
            if colon >= line.len() {
                return false;
            }
            let key = slice_of(line, 0, colon);
            let rest = slice_of(line, colon + 2, line.len());
            let value = rest.len() == 1 && rest[0] == '1';
            proof {
                assert(key@ == line@.take(colon as int));
                assert(rest@ == line@.skip(colon + 2));
                assert(value == (rest@ == seq!['1'])) by {
                    if value {
                        assert(rest@ =~= seq!['1']);
                    }
                    if rest@ == seq!['1'] {
                        assert(rest@.len() == 1 && rest@[0] == '1');
                    }
                }
            }
            self.insert(key, Wire::Input(value));
        }
        if find_pair(line, '-', '>') < line.len() {
            let ws = words(line);
            if ws.len() < 5 {
                return false;
            }
            proof {
                assert(views(ws@)[0] == ws[0]@);
                assert(views(ws@)[1] == ws[1]@);
                assert(views(ws@)[2] == ws[2]@);
                assert(views(ws@)[4] == ws[4]@);
            }
            match Operator::from_name(&ws[1]) {
                Some(op) => {
                    self.insert(ws[4].clone(), Wire::Function(op, ws[0].clone(), ws[2].clone()));
                },
                None => {
                    return false;
                },
            }
        }
        true
    }

    /// Reads the description of a machine, if the text is one.
    pub fn parse(input: &str) -> (r: Option<Machine>)
        ensures
            match r {
                Some(m) => m.wf() && wired(split_lines(input@)) == Some(m@) && m.names() == listed(
                    split_lines(input@),
                ),
                None => wired(split_lines(input@)) is None,
            },
    {
        let chars = chars_of(input);
        let rows = lines(&chars);
        let mut m = Machine::new();
        let mut i: usize = 0;
        while i < rows.len()
            invariant
                i <= rows.len(),
                m.wf(),
                views(rows@) == split_lines(input@),
                wired(views(rows@).take(i as int)) == Some(m@),
                m.names() == listed(views(rows@).take(i as int)),
            decreases rows.len() - i,
        {
            proof {
                assert(views(rows@).take(i + 1).drop_last() =~= views(rows@).take(i as int));
                assert(views(rows@).take(i + 1).last() == rows[i as int]@);
            }
            if !m.read_line(&rows[i]) {
                proof {
                    if wired(views(rows@)) is Some {
                        lemma_wired_prefix(views(rows@), i + 1);
                    }
                }
                return None;
            }
            i = i + 1;
        }
        proof {
            assert(views(rows@).take(rows.len() as int) =~= views(rows@));
        }
        Some(m)
    }

    /// The names of the wires, in the order in which they came.
    pub fn wires(&self) -> (r: Vec<Vec<char>>)
        ensures
            views(r@) == self.names(),
    {
        let mut r: Vec<Vec<char>> = Vec::new();
        let mut i: usize = 0;
        while i < self.names.len()
            invariant
                i <= self.names.len(),
                r.len() == i,
                forall|j: int| 0 <= j < i ==> (#[trigger] r[j])@ == self.names[j]@,
            decreases self.names.len() - i,
        {
            r.push(self.names[i].clone());
            i = i + 1;
        }
        proof {
            assert(views(r@) =~= views(self.names@));
        }
        r
    }
}

/// The number that binary digits denote, the first digit counting most.
pub open spec fn number(bits: Seq<bool>) -> nat
    decreases bits.len(),
{
    if bits.len() == 0 {
        0
    } else {
        2 * number(bits.drop_last()) + if bits.last() {
            1nat
        } else {
            0nat
        }
    }
}

/// Whether the name begins with the character `prefix`.
pub open spec fn begins(name: Seq<char>, prefix: char) -> bool {
    name.len() > 0 && name[0] == prefix
}

/// The values of those of the last `k` names of `order` that begin with
/// `prefix`, the value of the last name first. `None` where one of these
/// wires has no value.
pub open spec fn prefixed_bits(
    m: Map<Seq<char>, WireView>,
    order: Seq<Seq<char>>,
    k: nat,
    prefix: char,
    depth: nat,
) -> Option<Seq<bool>>
    decreases k,
{
    if k == 0 || k > order.len() {
        Some(Seq::empty())
    } else {
        let name = order[order.len() - k];
        match prefixed_bits(m, order, (k - 1) as nat, prefix, depth) {
            None => None,
            Some(bits) => if begins(name, prefix) {
                match value(m, name, depth) {
                    Some(v) => Some(bits.push(v)),
                    None => None,
                }
            } else {
                Some(bits)
            },
        }
    }
}

/// The number that the values of the wires whose names begin with
/// `prefix` denote as binary digits, where the wire with the last name in
/// the order of `order` counts most. `None` where one of these wires has
/// no value, where there is no such wire, and where the number does not
/// fit.
pub open spec fn prefixed_value(
    m: Map<Seq<char>, WireView>,
    order: Seq<Seq<char>>,
    prefix: char,
    depth: nat,
) -> Option<nat> {
    match prefixed_bits(m, order, order.len(), prefix, depth) {
        Some(bits) => if bits.len() > 0 && number(bits) <= usize::MAX {
            Some(number(bits))
        } else {
            None
        },
        None => None,
    }
}

/// More digits never denote a smaller number, and where some wire has no
/// value, the wires after it change nothing.
pub proof fn lemma_prefixed_bits_grow(
    m: Map<Seq<char>, WireView>,
    order: Seq<Seq<char>>,
    j: nat,
    k: nat,
    prefix: char,
    depth: nat,
)
    requires
        j <= k <= order.len(),
    ensures
        prefixed_bits(m, order, j, prefix, depth) is None ==> prefixed_bits(
            m,
            order,
            k,
            prefix,
            depth,
        ) is None,
        prefixed_bits(m, order, k, prefix, depth) is Some ==> number(
            prefixed_bits(m, order, j, prefix, depth)->0,
        ) <= number(prefixed_bits(m, order, k, prefix, depth)->0) && prefixed_bits(
            m,
            order,
            j,
            prefix,
            depth,
        )->0.len() <= prefixed_bits(m, order, k, prefix, depth)->0.len(),
    decreases k - j,
{
    if j < k {
        lemma_prefixed_bits_grow(m, order, j, (k - 1) as nat, prefix, depth);
        let before = prefixed_bits(m, order, (k - 1) as nat, prefix, depth);
        if before is Some {
            let name = order[order.len() - k];
            if begins(name, prefix) && value(m, name, depth) is Some {
                assert(before->0.push(value(m, name, depth)->0).drop_last() =~= before->0);
            }
        }
    }
}

impl Machine {
    /// The number that the values of the wires whose names begin with
    /// `prefix` denote as binary digits: the wire whose name comes last in
    /// the order of a dictionary counts most. An error where one of these
    /// wires has no value, where there is no such wire, and where the
    /// number does not fit.
    pub fn value_of_prefixed_loopcheck(&self, prefix: char) -> (r: Result<usize, ()>)
        requires
            self.wf(),
        ensures
            match r {
                Ok(n) => prefixed_value(
                    self@,
                    self.names().sort_by(by_text()),
                    prefix,
                    self.depth(),
                ) == Some(n as nat),
                Err(_) => prefixed_value(
                    self@,
                    self.names().sort_by(by_text()),
                    prefix,
                    self.depth(),
                ) is None,
            },
    {
        let order = sort_texts(self.wires());
        let ghost asc = views(order@);
        let ghost depth = self.depth();
        let fuel: usize = if self.names.len() < usize::MAX {
            self.names.len() + 1
        } else {
            self.names.len()
        };
        let n = order.len();
        let mut acc: usize = 0;
        let mut digits: usize = 0;
        let mut k: usize = 0;
        while k < n
            invariant
                k <= n,
                n == order.len(),
                self.wf(),
                asc == views(order@),
                asc == self.names().sort_by(by_text()),
                depth == self.depth(),
                fuel == depth,
                digits <= k,
                prefixed_bits(self@, asc, k as nat, prefix, depth) is Some,
                prefixed_bits(self@, asc, k as nat, prefix, depth)->0.len() == digits,
                number(prefixed_bits(self@, asc, k as nat, prefix, depth)->0) == acc,
            decreases n - k,
        {
            let name = &order[n - k - 1];
            proof {
                assert(asc[n - (k + 1)] == name@);
                lemma_prefixed_bits_grow(self@, asc, (k + 1) as nat, n as nat, prefix, depth);
            }
            if name.len() > 0 && name[0] == prefix {
                let v = match self.evaluate(name, fuel) {
                    Some(v) => v,
                    None => {
                        return Err(());
                    },
                };
                let ghost bits = prefixed_bits(self@, asc, k as nat, prefix, depth)->0;
                proof {
                    assert(bits.push(v).drop_last() =~= bits);
                }
                let doubled = match acc.checked_mul(2) {
                    Some(d) => d,
                    None => {
                        return Err(());
                    },
                };
                acc = match doubled.checked_add(if v {
                    1
                } else {
                    0
                }) {
                    Some(a) => a,
                    None => {
                        return Err(());
                    },
                };
                digits = digits + 1;
            }
            k = k + 1;
        }
        if digits == 0 {
            Err(())
        } else {
            Ok(acc)
        }
    }

    /// The number that the values of the wires whose names begin with
    /// `prefix` denote as binary digits. There must be such a wire, all of
    /// them must have values, and the number must fit.
    pub fn value_of_prefixed(&self, prefix: char) -> (r: usize)
        requires
            self.wf(),
            prefixed_value(self@, self.names().sort_by(by_text()), prefix, self.depth()) is Some,
        ensures
            prefixed_value(self@, self.names().sort_by(by_text()), prefix, self.depth()) == Some(
                r as nat,
            ),
    {
        match self.value_of_prefixed_loopcheck(prefix) {
            Ok(n) => n,
            Err(_) => vstd::pervasive::unreached(),
        }
    }
}

/// A name that may be missing, as plain values.
pub open spec fn opt(o: Option<Vec<char>>) -> Option<Seq<char>> {
    match o {
        Some(v) => Some(v@),
        None => None,
    }
}

/// A pair of names that change places.
pub struct Swap {
    pub a: Option<Vec<char>>,
    pub b: Option<Vec<char>>,
}

/// A pair of names that change places, as plain values.
pub struct SwapView {
    pub a: Option<Seq<char>>,
    pub b: Option<Seq<char>>,
}

impl View for Swap {
    type V = SwapView;

    open spec fn view(&self) -> SwapView {
        SwapView { a: opt(self.a), b: opt(self.b) }
    }
}

/// The views of a sequence of swaps.
pub open spec fn swap_views(v: Seq<Swap>) -> Seq<SwapView> {
    Seq::new(v.len(), |i: int| v[i]@)
}

/// A copy of a name that may be missing.
pub fn copy_name(o: &Option<Vec<char>>) -> (r: Option<Vec<char>>)
    ensures
        opt(r) == opt(*o),
{
    match o {
        Some(v) => Some(v.clone()),
        None => None,
    }
}

/// Whether the wire is the output of a gate with the operator `op` that
/// reads the wires `a` and `b`, in this order or the other.
pub open spec fn gate_matches(w: WireView, op: Operator, a: Seq<char>, b: Seq<char>) -> bool {
    match w {
        WireView::Function(o, f1, f2) => o == op && ((f1 == a && f2 == b) || (f1 == b && f2 == a)),
        WireView::Input(_) => false,
    }
}

/// The first name of `order`, from the place `i` on, whose wire is the
/// output of a gate with the operator `op` that reads `a` and `b`.
pub open spec fn find_from(
    order: Seq<Seq<char>>,
    m: Map<Seq<char>, WireView>,
    op: Operator,
    a: Seq<char>,
    b: Seq<char>,
    i: int,
) -> Option<Seq<char>>
    decreases order.len() - i,
{
    if i < 0 || i >= order.len() {
        None
    } else if m.contains_key(order[i]) && gate_matches(m[order[i]], op, a, b) {
        Some(order[i])
    } else {
        find_from(order, m, op, a, b, i + 1)
    }
}

/// The first name of `order` whose wire is the output of a gate with the
/// operator `op` that reads the two wires; `None` where one of the two is
/// missing.
pub open spec fn find_gate(
    order: Seq<Seq<char>>,
    m: Map<Seq<char>, WireView>,
    op: Operator,
    in1: Option<Seq<char>>,
    in2: Option<Seq<char>>,
) -> Option<Seq<char>> {
    if in1 is None || in2 is None {
        None
    } else {
        find_from(order, m, op, in1->0, in2->0, 0)
    }
}

/// Whether the name is there and begins with `z`.
pub open spec fn is_output(o: Option<Seq<char>>) -> bool {
    o is Some && begins(o->0, 'z')
}

/// What one round of the repair comes to: the carry for the next round
/// and the swaps that the round found.
pub ghost struct Round {
    pub carry: Option<Seq<char>>,
    pub swaps: Seq<SwapView>,
}

/// One round of the repair, for the inputs `x` and `y` of one binary
/// place and the carry of the place before. Without a carry the round
/// only finds the carry: a gate that reads `x` and `y` with AND. With a
/// carry the round looks for the five gates of a full adder, and where it
/// does not find them where they belong, or finds an output wire among
/// the inner wires, it notes a swap and goes on with the two exchanged.
pub open spec fn round(
    order: Seq<Seq<char>>,
    m: Map<Seq<char>, WireView>,
    last: bool,
    x: Seq<char>,
    y: Seq<char>,
    carry: Option<Seq<char>>,
) -> Round {
    let adder0 = find_gate(order, m, Operator::Xor, Some(x), Some(y));
    let next0 = find_gate(order, m, Operator::And, Some(x), Some(y));
    if carry is None {
        Round { carry: next0, swaps: Seq::empty() }
    } else {
        let result0 = find_gate(order, m, Operator::And, adder0, carry);
        let flipped = result0 is None;
        let adder1 = if flipped {
            next0
        } else {
            adder0
        };
        let next1 = if flipped {
            adder0
        } else {
            next0
        };
        let result1 = if flipped {
            find_gate(order, m, Operator::And, adder1, carry)
        } else {
            result0
        };
        let s1 = if flipped {
            seq![SwapView { a: adder0, b: next0 }]
        } else {
            Seq::empty()
        };
        let output0 = find_gate(order, m, Operator::Xor, adder1, carry);
        let s2 = if is_output(adder1) {
            s1.push(SwapView { a: adder1, b: output0 })
        } else {
            s1
        };
        let output1 = if is_output(adder1) {
            adder1
        } else {
            output0
        };
        let s3 = if is_output(next1) {
            s2.push(SwapView { a: next1, b: output1 })
        } else {
            s2
        };
        let next2 = if is_output(next1) {
            output1
        } else {
            next1
        };
        let output2 = if is_output(next1) {
            next1
        } else {
            output1
        };
        let s4 = if is_output(result1) {
            s3.push(SwapView { a: result1, b: output2 })
        } else {
            s3
        };
        let result2 = if is_output(result1) {
            output2
        } else {
            result1
        };
        let output3 = if is_output(result1) {
            result1
        } else {
            output2
        };
        let next_carry0 = find_gate(order, m, Operator::Or, next2, result2);
        let late = !last && is_output(next_carry0);
        let s5 = if late {
            s4.push(SwapView { a: next_carry0, b: output3 })
        } else {
            s4
        };
        let next_carry1 = if late {
            output3
        } else {
            next_carry0
        };
        Round { carry: next_carry1, swaps: s5 }
    }
}

/// The name of the input wire of the binary place `bit`: the letter and
/// the number of the place in at least two digits.
pub open spec fn input_name(letter: char, bit: nat) -> Seq<char> {
    if bit < 10 {
        seq![letter, '0'] + decimal_digits(bit)
    } else {
        seq![letter] + decimal_digits(bit)
    }
}

/// The number of names that begin with `prefix`.
pub open spec fn count_prefixed(order: Seq<Seq<char>>, prefix: char) -> nat
    decreases order.len(),
{
    if order.len() == 0 {
        0
    } else {
        count_prefixed(order.drop_last(), prefix) + if begins(order.last(), prefix) {
            1nat
        } else {
            0nat
        }
    }
}

/// The carry after the first `upto` rounds of the repair.
pub open spec fn carry_after(
    order: Seq<Seq<char>>,
    m: Map<Seq<char>, WireView>,
    bits: nat,
    upto: nat,
) -> Option<Seq<char>>
    decreases upto,
{
    if upto == 0 {
        None
    } else {
        round(
            order,
            m,
            upto == bits,
            input_name('x', (upto - 1) as nat),
            input_name('y', (upto - 1) as nat),
            carry_after(order, m, bits, (upto - 1) as nat),
        ).carry
    }
}

/// The swaps that the first `upto` rounds of the repair find.
pub open spec fn repairs(
    order: Seq<Seq<char>>,
    m: Map<Seq<char>, WireView>,
    bits: nat,
    upto: nat,
) -> Seq<SwapView>
    decreases upto,
{
    if upto == 0 {
        Seq::empty()
    } else {
        repairs(order, m, bits, (upto - 1) as nat) + round(
            order,
            m,
            upto == bits,
            input_name('x', (upto - 1) as nat),
            input_name('y', (upto - 1) as nat),
            carry_after(order, m, bits, (upto - 1) as nat),
        ).swaps
    }
}

/// Whether both names of every swap are there.
pub open spec fn all_named(swaps: Seq<SwapView>) -> bool {
    forall|i: int| 0 <= i < swaps.len() ==> (#[trigger] swaps[i]).a is Some && swaps[i].b is Some
}

/// The names of the swaps, two for each.
pub open spec fn swapped_names(swaps: Seq<SwapView>) -> Seq<Seq<char>>
    decreases swaps.len(),
{
    if swaps.len() == 0 {
        Seq::empty()
    } else {
        swapped_names(swaps.drop_last()).push(swaps.last().a->0).push(swaps.last().b->0)
    }
}

impl Machine {
    /// The wire at the place `i` is the wire of the name at that place.
    proof fn lemma_wire_at(&self, i: int)
        requires
            self.wf(),
            0 <= i < self.names.len(),
        ensures
            self@.contains_key(self.names[i]@),
            self@[self.names[i]@] == self.wires[i]@,
            self.names()[i] == self.names[i]@,
    {
        let k = self.names[i]@;
        assert(named(self.names@, k));
        let j = index_of(self.names@, k);
        if j < i {
            assert(self.names@[j]@ != self.names@[i]@);
        } else if j > i {
            assert(self.names@[i]@ != self.names@[j]@);
        }
    }

    /// The first wire, in the order in which the wires came, that is the
    /// output of a gate with the operator `op` that reads the two wires.
    pub fn find_op(&self, op: Operator, input1: &Option<Vec<char>>, input2: &Option<Vec<char>>) -> (r:
        Option<Vec<char>>)
        requires
            self.wf(),
        ensures
            opt(r) == find_gate(self.names(), self@, op, opt(*input1), opt(*input2)),
    {
        let (a, b) = match (input1, input2) {
            (Some(a), Some(b)) => (a, b),
            _ => {
                return None;
            },
        };
        let mut i: usize = 0;
        while i < self.names.len()
            invariant
                self.wf(),
                i <= self.names.len(),
                self.names().len() == self.names.len(),
                opt(*input1) == Some(a@),
                opt(*input2) == Some(b@),
                find_from(self.names(), self@, op, a@, b@, i as int) == find_from(
                    self.names(),
                    self@,
                    op,
                    a@,
                    b@,
                    0,
                ),
            decreases self.names.len() - i,
        {
            proof {
                self.lemma_wire_at(i as int);
            }
            let hit = match &self.wires[i] {
                Wire::Function(found_op, f1, f2) => *found_op == op && ((same_chars(f1, a)
                    && same_chars(f2, b)) || (same_chars(f1, b) && same_chars(f2, a))),
                Wire::Input(_) => false,
            };
            if hit {
                return Some(self.names[i].clone());
            }
            i = i + 1;
        }
        None
    }

    /// The number of wires whose names begin with `prefix`.
    pub fn count_wires(&self, prefix: char) -> (r: usize)
        ensures
            r == count_prefixed(self.names(), prefix),
    {
        let mut r: usize = 0;
        let mut i: usize = 0;
        while i < self.names.len()
            invariant
                i <= self.names.len(),
                r <= i,
                self.names().len() == self.names.len(),
                r == count_prefixed(self.names().take(i as int), prefix),
            decreases self.names.len() - i,
        {
            proof {
                assert(self.names().take(i + 1).drop_last() =~= self.names().take(i as int));
                assert(self.names().take(i + 1).last() == self.names[i as int]@);
            }
            if self.names[i].len() > 0 && self.names[i][0] == prefix {
                r = r + 1;
            }
            i = i + 1;
        }
        proof {
            assert(self.names().take(self.names.len() as int) =~= self.names());
        }
        r
    }

    /// One round of the repair.
    pub fn repair_round(
        &self,
        last: bool,
        x: Vec<char>,
        y: Vec<char>,
        carry: Option<Vec<char>>,
        swaps: &mut Vec<Swap>,
    ) -> (r: Option<Vec<char>>)
        requires
            self.wf(),
        ensures
            opt(r) == round(self.names(), self@, last, x@, y@, opt(carry)).carry,
            swap_views(final(swaps)@) == swap_views(old(swaps)@) + round(
                self.names(),
                self@,
                last,
                x@,
                y@,
                opt(carry),
            ).swaps,
    {
        let ghost before = swap_views(swaps@);
        let xin = Some(x);
        let yin = Some(y);
        let mut adder = self.find_op(Operator::Xor, &xin, &yin);
        let mut next = self.find_op(Operator::And, &xin, &yin);
        if carry.is_none() {
            proof {
                assert(before + Seq::<SwapView>::empty() =~= before);
            }
            return next;
        }
        let ghost mut found: Seq<SwapView> = Seq::empty();
        let mut result = self.find_op(Operator::And, &adder, &carry);
        if result.is_none() {
            swaps.push(Swap { a: copy_name(&adder), b: copy_name(&next) });
            proof {
                found = found.push(SwapView { a: opt(adder), b: opt(next) });
                assert(swap_views(swaps@) =~= before + found);
            }
            let t = adder;
            adder = next;
            next = t;
            result = self.find_op(Operator::And, &adder, &carry);
        } else {
            proof {
                assert(swap_views(swaps@) =~= before + found);
            }
        }
        let mut output = self.find_op(Operator::Xor, &adder, &carry);
        if begins_with_z(&adder) {
            let ghost was = swap_views(swaps@);
            swaps.push(Swap { a: copy_name(&adder), b: copy_name(&output) });
            proof {
                found = found.push(SwapView { a: opt(adder), b: opt(output) });
                assert(swap_views(swaps@) =~= before + found);
            }
            let t = adder;
            adder = output;
            output = t;
        }
        if begins_with_z(&next) {
            swaps.push(Swap { a: copy_name(&next), b: copy_name(&output) });
            proof {
                found = found.push(SwapView { a: opt(next), b: opt(output) });
                assert(swap_views(swaps@) =~= before + found);
            }
            let t = next;
            next = output;
            output = t;
        }
        if begins_with_z(&result) {
            swaps.push(Swap { a: copy_name(&result), b: copy_name(&output) });
            proof {
                found = found.push(SwapView { a: opt(result), b: opt(output) });
                assert(swap_views(swaps@) =~= before + found);
            }
            let t = result;
            result = output;
            output = t;
        }
        let mut next_carry = self.find_op(Operator::Or, &next, &result);
        if !last && begins_with_z(&next_carry) {
            swaps.push(Swap { a: copy_name(&next_carry), b: copy_name(&output) });
            proof {
                found = found.push(SwapView { a: opt(next_carry), b: opt(output) });
                assert(swap_views(swaps@) =~= before + found);
            }
            let t = next_carry;
            next_carry = output;
            output = t;
        }
        next_carry
    }
}

/// Whether the name is there and begins with `z`.
pub fn begins_with_z(o: &Option<Vec<char>>) -> (b: bool)
    ensures
        b == is_output(opt(*o)),
{
    match o {
        Some(name) => name.len() > 0 && name[0] == 'z',
        None => false,
    }
}

/// The name of the input wire of the binary place `bit`.
pub fn name_of_input(letter: char, bit: usize) -> (r: Vec<char>)
    ensures
        r@ == input_name(letter, bit as nat),
{
    let mut r: Vec<char> = Vec::new();
    r.push(letter);
    if bit < 10 {
        r.push('0');
    }
    let digits = format_u128(bit as u128);
    append_chars(&mut r, &digits);
    r
}

/// The wires that were swapped in the adder that the text describes: the
/// names of all swaps that the repair finds, in the order of a
/// dictionary, with commas between them. The repair makes a round for
/// every binary place, as many as there are wires whose names begin with
/// `x`. The text must describe a machine that has the input wires of
/// every place, and the repair must find a partner for every wire that it
/// swaps.
pub fn solve_day_24_part_02(input: &str) -> (r: String)
    requires
        wired(split_lines(input@)) is Some,
        all_named(
            repairs(
                listed(split_lines(input@)),
                wired(split_lines(input@))->0,
                count_prefixed(listed(split_lines(input@)), 'x'),
                count_prefixed(listed(split_lines(input@)), 'x'),
            ),
        ),
    ensures
        r@ == glued(
            swapped_names(
                repairs(
                    listed(split_lines(input@)),
                    wired(split_lines(input@))->0,
                    count_prefixed(listed(split_lines(input@)), 'x'),
                    count_prefixed(listed(split_lines(input@)), 'x'),
                ),
            ).sort_by(by_text()),
            ","@,
        ),
{
    let machine = match Machine::parse(input) {
        Some(m) => m,
        None => vstd::pervasive::unreached(),
    };
    let ghost order = machine.names();
    let ghost m = machine@;
    let bits = machine.count_wires('x');
    let mut carry: Option<Vec<char>> = None;
    let mut swaps: Vec<Swap> = Vec::new();
    let mut bit: usize = 0;
    proof {
        assert(swap_views(swaps@) =~= repairs(order, m, bits as nat, 0));
    }
    while bit < bits
        invariant
            bit <= bits,
            machine.wf(),
            order == machine.names(),
            m == machine@,
            opt(carry) == carry_after(order, m, bits as nat, bit as nat),
            swap_views(swaps@) == repairs(order, m, bits as nat, bit as nat),
        decreases bits - bit,
    {
        let x = name_of_input('x', bit);
        let y = name_of_input('y', bit);
        carry = machine.repair_round(bit + 1 == bits, x, y, carry, &mut swaps);
        bit = bit + 1;
    }
    let mut names: Vec<Vec<char>> = Vec::new();
    let mut i: usize = 0;
    while i < swaps.len()
        invariant
            i <= swaps.len(),
            all_named(swap_views(swaps@)),
            views(names@) == swapped_names(swap_views(swaps@).take(i as int)),
        decreases swaps.len() - i,
    {
        proof {
            assert(swap_views(swaps@).take(i + 1).drop_last() =~= swap_views(swaps@).take(
                i as int,
            ));
            assert(swap_views(swaps@).take(i + 1).last() == swaps[i as int]@);
            assert(swap_views(swaps@)[i as int].a is Some);
        }
        let ghost before = views(names@);
        match (&swaps[i].a, &swaps[i].b) {
            (Some(a), Some(b)) => {
                names.push(a.clone());
                names.push(b.clone());
                proof {
                    assert(views(names@) =~= before.push(a@).push(b@));
                }
            },
            _ => {
                proof {
                    assert(false);
                }
            },
        }
        i = i + 1;
    }
    proof {
        assert(swap_views(swaps@).take(swaps.len() as int) =~= swap_views(swaps@));
    }
    let sorted = sort_texts(names);
    let mut strings: Vec<String> = Vec::new();
    let mut j: usize = 0;
    while j < sorted.len()
        invariant
            j <= sorted.len(),
            strings.len() == j,
            forall|k: int| 0 <= k < j ==> (#[trigger] strings[k])@ == sorted[k]@,
        decreases sorted.len() - j,
    {
        strings.push(string_from_chars(&sorted[j]));
        j = j + 1;
    }
    proof {
        assert(string_views(strings@) =~= views(sorted@));
    }
    join_strings(&strings, ",")
}

/// The name of an operator as it is written in a formula.
pub open spec fn operator_text(op: Operator) -> Seq<char> {
    match op {
        Operator::And => seq!['A', 'n', 'd'],
        Operator::Or => seq!['O', 'r'],
        Operator::Xor => seq!['X', 'o', 'r'],
    }
}

/// A truth value as it is written in a formula.
pub open spec fn truth_text(v: bool) -> Seq<char> {
    if v {
        seq!['t', 'r', 'u', 'e']
    } else {
        seq!['f', 'a', 'l', 's', 'e']
    }
}

/// The formula of the wire `w`, written out at most `fuel` gates deep:
/// the name, an equals sign and the value for an input; the name, an
/// equals sign and, in brackets, the operator and the formulas of the
/// two wires that are read for the output of a gate. `None` where a wire
/// on the way is not in the machine, or where the gates lie deeper than
/// `fuel`.
pub open spec fn formula(m: Map<Seq<char>, WireView>, w: Seq<char>, fuel: nat) -> Option<Seq<char>>
    decreases fuel,
{
    if fuel == 0 || !m.contains_key(w) {
        None
    } else {
        match m[w] {
            WireView::Input(v) => Some(w + seq!['='] + truth_text(v)),
            WireView::Function(op, a, b) => match (
                formula(m, a, (fuel - 1) as nat),
                formula(m, b, (fuel - 1) as nat),
            ) {
                (Some(x), Some(y)) => Some(
                    w + seq!['=', '('] + operator_text(op) + seq![' '] + x + seq![' '] + y
                        + seq![')'],
                ),
                _ => None,
            },
        }
    }
}

/// The name of an operator as it is written in a formula.
pub fn operator_name(op: Operator) -> (r: Vec<char>)
    ensures
        r@ == operator_text(op),
{
    let mut r: Vec<char> = Vec::new();
    match op {
        Operator::And => {
            r.push('A');
            r.push('n');
            r.push('d');
        },
        Operator::Or => {
            r.push('O');
            r.push('r');
        },
        Operator::Xor => {
            r.push('X');
            r.push('o');
            r.push('r');
        },
    }
    proof {
        assert(r@ =~= operator_text(op));
    }
    r
}

/// A truth value as it is written in a formula.
pub fn truth_name(v: bool) -> (r: Vec<char>)
    ensures
        r@ == truth_text(v),
{
    let mut r: Vec<char> = Vec::new();
    if v {
        r.push('t');
        r.push('r');
        r.push('u');
        r.push('e');
    } else {
        r.push('f');
        r.push('a');
        r.push('l');
        r.push('s');
        r.push('e');
    }
    proof {
        assert(r@ =~= truth_text(v));
    }
    r
}

impl Machine {
    /// The formula of the wire with the name `wire`, written out at most
    /// `fuel` gates deep.
    pub fn formula_of(&self, wire: &Vec<char>, fuel: usize) -> (r: Option<Vec<char>>)
        requires
            self.wf(),
        ensures
            match r {
                Some(text) => formula(self@, wire@, fuel as nat) == Some(text@),
                None => formula(self@, wire@, fuel as nat) is None,
            },
        decreases fuel,
    {
        if fuel == 0 {
            return None;
        }
        match self.lookup(wire) {
            None => None,
            Some(i) => match &self.wires[i] {
                Wire::Input(v) => {
                    let mut text: Vec<char> = Vec::new();
                    append_chars(&mut text, wire);
                    text.push('=');
                    append_chars(&mut text, &truth_name(*v));
                    proof {
                        assert(text@ =~= wire@ + seq!['='] + truth_text(*v));
                    }
                    Some(text)
                },
                Wire::Function(op, a, b) => {
                    let x = self.formula_of(a, fuel - 1);
                    let y = self.formula_of(b, fuel - 1);
                    match (x, y) {
                        (Some(x), Some(y)) => {
                            let mut text: Vec<char> = Vec::new();
                            append_chars(&mut text, wire);
                            text.push('=');
                            text.push('(');
                            append_chars(&mut text, &operator_name(*op));
                            text.push(' ');
                            append_chars(&mut text, &x);
                            text.push(' ');
                            append_chars(&mut text, &y);
                            text.push(')');
                            proof {
                                assert(text@ =~= wire@ + seq!['=', '('] + operator_text(*op) + seq![
                                    ' ',
                                ] + x@ + seq![' '] + y@ + seq![')']);
                            }
                            Some(text)
                        },
                        _ => None,
                    }
                },
            },
        }
    }

    /// The formula of the wire with the name `wire`, or none where the
    /// wire, or one that it depends on, is not in the machine or depends
    /// on itself.
    pub fn function_for(&self, wire: &str) -> (r: Option<String>)
        requires
            self.wf(),
        ensures
            match r {
                Some(text) => formula(self@, wire@, self.depth()) == Some(text@),
                None => formula(self@, wire@, self.depth()) is None,
            },
    {
        let name = chars_of(wire);
        let fuel: usize = if self.names.len() < usize::MAX {
            self.names.len() + 1
        } else {
            self.names.len()
        };
        match self.formula_of(&name, fuel) {
            Some(text) => Some(string_from_chars(&text)),
            None => None,
        }
    }
}

/// Whether the machine has every wire that one of its gates reads.
pub open spec fn sound(m: Map<Seq<char>, WireView>) -> bool {
    forall|k: Seq<char>| #[trigger] m.contains_key(k) ==> reads_known(m, m[k])
}

/// Whether the machine has the wires that the wire `w` reads.
pub open spec fn reads_known(m: Map<Seq<char>, WireView>, w: WireView) -> bool {
    match w {
        WireView::Input(_) => true,
        WireView::Function(_, a, b) => m.contains_key(a) && m.contains_key(b),
    }
}

/// The list with the wires behind it that entry `i` reads, each unless
/// the list holds it.
pub open spec fn expanded(m: Map<Seq<char>, WireView>, list: Seq<Seq<char>>, i: int) -> Seq<Seq<char>> {
    match m[list[i]] {
        WireView::Input(_) => list,
        WireView::Function(_, a, b) => with_name(with_name(list, a), b),
    }
}

/// The list when its entries from entry `i` on, at most `fuel` of them,
/// have had the wires that they read put behind the list.
pub open spec fn closure(m: Map<Seq<char>, WireView>, list: Seq<Seq<char>>, i: nat, fuel: nat) -> Seq<
    Seq<char>,
>
    decreases fuel,
{
    if fuel == 0 || i >= list.len() {
        list
    } else {
        closure(m, expanded(m, list, i as int), i + 1, (fuel - 1) as nat)
    }
}

/// The wires that the wire `w` depends on in a machine of `size` wires:
/// the wire itself, then the wires that it reads, then those that they
/// read, and so on, each once.
pub open spec fn dependencies(m: Map<Seq<char>, WireView>, w: Seq<char>, size: nat) -> Seq<Seq<char>> {
    closure(m, seq![w], 0, size)
}

/// The names of the wires with the given places.
pub open spec fn picked(names: Seq<Vec<char>>, order: Seq<usize>) -> Seq<Seq<char>> {
    Seq::new(order.len(), |k: int| names[order[k] as int]@)
}

/// Whether the marks tell which places the list holds, each once.
pub open spec fn tracks(names: Seq<Vec<char>>, order: Seq<usize>, marked: Seq<bool>) -> bool {
    &&& marked.len() == names.len()
    &&& forall|k: int| 0 <= k < order.len() ==> (#[trigger] order[k]) < names.len() && marked[order[k] as int]
    &&& forall|j: int| 0 <= j < marked.len() && #[trigger] marked[j] ==> order.contains(j as usize)
    &&& order.len() == count_true(marked)
}

impl Machine {
    /// Whether the machine has every wire that one of its gates reads.
    pub fn is_sound(&self) -> (b: bool)
        requires
            self.wf(),
        ensures
            b == sound(self@),
    {
        let mut i: usize = 0;
        while i < self.names.len()
            invariant
                self.wf(),
                i <= self.names.len(),
                forall|j: int|
                    0 <= j < i ==> self@.contains_key((#[trigger] self.names[j])@) && reads_known(
                        self@,
                        self@[self.names[j]@],
                    ),
            decreases self.names.len() - i,
        {
            let at = match self.lookup(&self.names[i]) {
                Some(at) => at,
                None => {
                    proof {
                        assert(named(self.names@, self.names@[i as int]@));
                    }
                    unreached()
                },
            };
            let known = match &self.wires[at] {
                Wire::Input(_) => true,
                Wire::Function(_, a, b) => self.lookup(a).is_some() && self.lookup(b).is_some(),
            };
            if !known {
                return false;
            }
            i += 1;
        }
        proof {
            assert forall|k: Seq<char>| #[trigger] self@.contains_key(k) implies reads_known(
                self@,
                self@[k],
            ) by {
                let j = index_of(self.names@, k);
                assert(self.names[j]@ == k);
            }
        }
        true
    }

    /// Puts the wire with the name `name` behind the list, unless the
    /// list holds it.
    fn note(&self, order: &mut Vec<usize>, marked: &mut Vec<bool>, name: &Vec<char>)
        requires
            self.wf(),
            tracks(self.names@, old(order)@, old(marked)@),
            self@.contains_key(name@),
        ensures
            tracks(self.names@, final(order)@, final(marked)@),
            picked(self.names@, final(order)@) == with_name(picked(self.names@, old(order)@), name@),
    {
        let at = match self.lookup(name) {
            Some(at) => at,
            None => unreached(),
        };
        let ghost names = self.names@;
        let ghost before = picked(names, order@);
        proof {
            if before.contains(name@) {
                let k = choose|k: int| 0 <= k < before.len() && before[k] == name@;
                let j = order@[k] as int;
                if j < at {
                    assert(names[j]@ != names[at as int]@);
                } else if j > at {
                    assert(names[at as int]@ != names[j]@);
                }
                assert(marked@[at as int]);
            }
            if marked@[at as int] {
                let k = choose|k: int| 0 <= k < order@.len() && order@[k] == at;
                assert(before[k] == name@);
            }
        }
        if !marked[at] {
            proof {
                lemma_count_true_set(marked@, at as int);
            }
            let ghost old_order = order@;
            marked.set(at, true);
            order.push(at);
            proof {
                assert(picked(names, order@) =~= before.push(name@));
                assert forall|j: int| 0 <= j < marked@.len() && #[trigger] marked@[j]
                    implies order@.contains(j as usize) by {
                    if j == at {
                        assert(order@[old_order.len() as int] == at);
                    } else {
                        let k = choose|k: int| 0 <= k < old_order.len() && old_order[k] == j as usize;
                        assert(order@[k] == j as usize);
                    }
                }
                assert forall|k: int| 0 <= k < order@.len() implies (#[trigger] order@[k]) < names.len()
                    && marked@[order@[k] as int] by {
                    if k < old_order.len() {
                        assert(order@[k] == old_order[k]);
                    }
                }
            }
        }
    }

    /// The wires that the wire with the name `wire` depends on: the wire
    /// itself, then the wires that it reads, then those that they read,
    /// and so on, each once. The machine must have the wire and every
    /// wire that one of its gates reads.
    pub fn depends_on(&self, wire: &str) -> (r: Vec<Vec<char>>)
        requires
            self.wf(),
            self@.contains_key(wire@),
            sound(self@),
        ensures
            views(r@) == dependencies(self@, wire@, self.size()),
    {
        let ghost m = self@;
        let ghost names = self.names@;
        let n = self.names.len();
        let name = chars_of(wire);
        let mut marked: Vec<bool> = vec![false; n];
        let mut order: Vec<usize> = Vec::new();
        proof {
            lemma_count_all_false(marked@);
        }
        self.note(&mut order, &mut marked, &name);
        proof {
            assert(picked(names, Seq::<usize>::empty()) =~= Seq::<Seq<char>>::empty());
            assert(picked(names, order@) =~= seq![wire@]);
        }
        let mut i: usize = 0;
        while i < order.len()
            invariant
                self.wf(),
                m == self@,
                names == self.names@,
                n == names.len(),
                sound(m),
                tracks(names, order@, marked@),
                i <= order@.len(),
                closure(m, picked(names, order@), i as nat, (n - i) as nat) == dependencies(
                    m,
                    wire@,
                    n as nat,
                ),
            decreases n - i,
        {
            proof {
                lemma_count_true_bound(marked@);
            }
            let ghost list = picked(names, order@);
            let key = &self.names[order[i]];
            let at = match self.lookup(key) {
                Some(at) => at,
                None => {
                    proof {
                        assert(named(names, names[order@[i as int] as int]@));
                    }
                    unreached()
                },
            };
            proof {
                assert(list[i as int] == key@);
                assert(m.contains_key(key@) && reads_known(m, m[key@]));
            }
            match &self.wires[at] {
                Wire::Input(_) => {},
                Wire::Function(_, a, b) => {
                    self.note(&mut order, &mut marked, a);
                    self.note(&mut order, &mut marked, b);
                },
            }
            proof {
                assert(picked(names, order@) == expanded(m, list, i as int));
                lemma_count_true_bound(marked@);
            }
            i += 1;
        }
        let mut r: Vec<Vec<char>> = Vec::new();
        let mut k: usize = 0;
        while k < order.len()
            invariant
                names == self.names@,
                k <= order@.len(),
                forall|x: int| 0 <= x < order@.len() ==> (#[trigger] order@[x]) < names.len(),
                views(r@) == picked(names, order@).take(k as int),
            decreases order@.len() - k,
        {
            let ghost before = views(r@);
            let copy = self.names[order[k]].clone();
            r.push(copy);
            proof {
                assert(views(r@) =~= before.push(names[order@[k as int] as int]@));
                assert(views(r@) =~= picked(names, order@).take(k + 1));
            }
            k += 1;
        }
        proof {
            assert(views(r@) =~= picked(names, order@));
        }
        r
    }
}

/// Whether the machine has all wires of the list.
pub open spec fn all_known(m: Map<Seq<char>, WireView>, list: Seq<Seq<char>>) -> bool {
    forall|x: int| 0 <= x < list.len() ==> m.contains_key(#[trigger] list[x])
}

/// A list of wires of the machine stays one when the wires that its
/// entries read are put behind it.
pub proof fn lemma_closure_known(m: Map<Seq<char>, WireView>, list: Seq<Seq<char>>, i: nat, fuel: nat)
    requires
        sound(m),
        all_known(m, list),
    ensures
        all_known(m, closure(m, list, i, fuel)),
    decreases fuel,
{
    if fuel > 0 && i < list.len() {
        let next = expanded(m, list, i as int);
        assert(m.contains_key(list[i as int]) && reads_known(m, m[list[i as int]]));
        assert(all_known(m, next)) by {
            match m[list[i as int]] {
                WireView::Input(_) => {},
                WireView::Function(_, a, b) => {
                    let one = with_name(list, a);
                    assert(all_known(m, one));
                    assert(all_known(m, with_name(one, b)));
                },
            }
        }
        lemma_closure_known(m, next, i + 1, (fuel - 1) as nat);
    }
}

/// In a machine that has every wire that one of its gates reads, a wire
/// depends on wires of the machine only.
pub proof fn law_dependencies_known(m: Map<Seq<char>, WireView>, w: Seq<char>, size: nat)
    requires
        sound(m),
        m.contains_key(w),
    ensures
        all_known(m, dependencies(m, w, size)),
{
    lemma_closure_known(m, seq![w], 0, size);
}

} // verus!
