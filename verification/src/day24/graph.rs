//! The machine drawn as a graph in the language of Graphviz.
//!
//! The drawing has a group for each of the first output wires, in the
//! order of their names: the wires whose names begin with `z`. A group
//! holds the output wire and, in the order of their names, the wires that
//! it depends on and that no group before it holds. A wire is drawn as a
//! node with its name and its value or operator, and with an edge to each
//! wire that it reads.

use crate::day24::part2::all_known;
use crate::day24::part2::begins;
use crate::day24::part2::dependencies;
use crate::day24::part2::law_dependencies_known;
use crate::day24::part2::operator_name;
use crate::day24::part2::operator_text;
use crate::day24::part2::sound;
use crate::day24::part2::truth_name;
use crate::day24::part2::truth_text;
use crate::day24::part2::with_name;
use crate::day24::part2::Machine;
use crate::day24::part2::Wire;
use crate::day24::part2::WireView;
use crate::day25::same_chars;
use crate::util::order::by_text;
use crate::util::order::lemma_sorted_same;
use crate::util::order::sort_texts;
use crate::util::text::append_chars;
use crate::util::text::chars_of;
use crate::util::text::string_from_chars;
use crate::util::text::views;
use vstd::pervasive::unreached;
use vstd::prelude::*;

verus! {

/// The lines that draw the wire `w`: its node, and for the output of a
/// gate the edges to the two wires that are read.
pub open spec fn node_lines(m: Map<Seq<char>, WireView>, w: Seq<char>) -> Seq<char> {
    match m[w] {
        WireView::Input(v) => "    "@ + w + " [label=\""@ + w + "="@ + truth_text(v) + "\"];\n"@,
        WireView::Function(op, a, b) => "    "@ + w + " [label=\""@ + w + "="@ + operator_text(op)
            + "\"];\n"@ + "    "@ + w + " -> "@ + a + ";\n"@ + "    "@ + w + " -> "@ + b + ";\n"@,
    }
}

/// Those of the first `k` names that begin with `prefix`.
pub open spec fn prefixed(names: Seq<Seq<char>>, prefix: char, k: nat) -> Seq<Seq<char>>
    decreases k,
{
    if k == 0 {
        Seq::empty()
    } else if begins(names[k - 1], prefix) {
        prefixed(names, prefix, (k - 1) as nat).push(names[k - 1])
    } else {
        prefixed(names, prefix, (k - 1) as nat)
    }
}

/// The output wires that are drawn: the first `limit` of the names that
/// begin with `z`, in the order of a dictionary.
pub open spec fn outputs(names: Seq<Seq<char>>, limit: nat) -> Seq<Seq<char>> {
    let sorted = prefixed(names, 'z', names.len()).sort_by(by_text());
    if limit < sorted.len() {
        sorted.take(limit as int)
    } else {
        sorted
    }
}

/// The list `added` with the first `k` of `deps` behind it, each unless
/// the list holds it.
pub open spec fn added_after(deps: Seq<Seq<char>>, added: Seq<Seq<char>>, k: nat) -> Seq<Seq<char>>
    decreases k,
{
    if k == 0 {
        added
    } else {
        with_name(added_after(deps, added, (k - 1) as nat), deps[k - 1])
    }
}

/// Those of the first `k` of `deps` that are new to the list `added`.
pub open spec fn fresh_of(deps: Seq<Seq<char>>, added: Seq<Seq<char>>, k: nat) -> Seq<Seq<char>>
    decreases k,
{
    if k == 0 {
        Seq::empty()
    } else if added_after(deps, added, (k - 1) as nat).contains(deps[k - 1]) {
        fresh_of(deps, added, (k - 1) as nat)
    } else {
        fresh_of(deps, added, (k - 1) as nat).push(deps[k - 1])
    }
}

/// The lines that draw the first `k` of the wires, a blank line behind
/// each wire.
pub open spec fn deps_text(m: Map<Seq<char>, WireView>, wires: Seq<Seq<char>>, k: nat) -> Seq<char>
    decreases k,
{
    if k == 0 {
        Seq::empty()
    } else {
        deps_text(m, wires, (k - 1) as nat) + node_lines(m, wires[k - 1]) + "\n"@
    }
}

/// The group of the output wire `output` with the wires `fresh`; nothing
/// where there are none.
pub open spec fn group_text(m: Map<Seq<char>, WireView>, output: Seq<char>, fresh: Seq<Seq<char>>) -> Seq<
    char,
> {
    if fresh.len() == 0 {
        Seq::empty()
    } else {
        "  subgraph cluster_"@ + output + " {\n    label=\""@ + output + "\";\n\n"@ + node_lines(
            m,
            output,
        ) + deps_text(m, fresh.sort_by(by_text()), fresh.len()) + "  }\n"@
    }
}

/// The wires that the groups of the first `k` output wires hold.
pub open spec fn added_upto(m: Map<Seq<char>, WireView>, outs: Seq<Seq<char>>, size: nat, k: nat) -> Seq<
    Seq<char>,
>
    decreases k,
{
    if k == 0 {
        Seq::empty()
    } else {
        let deps = dependencies(m, outs[k - 1], size);
        added_after(deps, added_upto(m, outs, size, (k - 1) as nat), deps.len())
    }
}

/// The groups of the first `k` output wires.
pub open spec fn groups_text(m: Map<Seq<char>, WireView>, outs: Seq<Seq<char>>, size: nat, k: nat) -> Seq<
    char,
>
    decreases k,
{
    if k == 0 {
        Seq::empty()
    } else {
        let deps = dependencies(m, outs[k - 1], size);
        groups_text(m, outs, size, (k - 1) as nat) + group_text(
            m,
            outs[k - 1],
            fresh_of(deps, added_upto(m, outs, size, (k - 1) as nat), deps.len()),
        )
    }
}

/// The drawing of a machine with the wires `names`, with groups for at
/// most `limit` output wires.
pub open spec fn graphviz(m: Map<Seq<char>, WireView>, names: Seq<Seq<char>>, limit: nat) -> Seq<char> {
    "digraph {\n"@ + "  compounded=true;\n"@ + "  rankdir=LR;\n"@ + groups_text(
        m,
        outputs(names, limit),
        names.len(),
        outputs(names, limit).len(),
    ) + "}\n"@
}

/// The names that begin with a character are among the names.
pub proof fn lemma_prefixed_among(names: Seq<Seq<char>>, prefix: char, k: nat, x: Seq<char>)
    requires
        k <= names.len(),
        prefixed(names, prefix, k).contains(x),
    ensures
        names.contains(x),
    decreases k,
{
    if k > 0 {
        let before = prefixed(names, prefix, (k - 1) as nat);
        if begins(names[k - 1], prefix) {
            let longer = before.push(names[k - 1]);
            let i = choose|i: int| 0 <= i < longer.len() && longer[i] == x;
            if i < before.len() {
                assert(before[i] == x);
                lemma_prefixed_among(names, prefix, (k - 1) as nat, x);
            }
        } else {
            lemma_prefixed_among(names, prefix, (k - 1) as nat, x);
        }
    }
}

/// What is new among wires of the machine are wires of the machine.
pub proof fn lemma_fresh_known(m: Map<Seq<char>, WireView>, deps: Seq<Seq<char>>, added: Seq<Seq<char>>, k: nat)
    requires
        k <= deps.len(),
        all_known(m, deps),
    ensures
        all_known(m, fresh_of(deps, added, k)),
    decreases k,
{
    if k > 0 {
        lemma_fresh_known(m, deps, added, (k - 1) as nat);
    }
}

/// Appends the characters of a text.
pub fn push_text(v: &mut Vec<char>, text: &str)
    ensures
        final(v)@ == old(v)@ + text@,
{
    let chars = chars_of(text);
    append_chars(v, &chars);
}

/// Whether the list holds the name.
pub fn holds(list: &Vec<Vec<char>>, name: &Vec<char>) -> (b: bool)
    ensures
        b == views(list@).contains(name@),
{
    let mut i: usize = 0;
    while i < list.len()
        invariant
            i <= list@.len(),
            forall|j: int| 0 <= j < i ==> views(list@)[j] != name@,
        decreases list@.len() - i,
    {
        if same_chars(&list[i], name) {
            assert(views(list@)[i as int] == name@);
            return true;
        }
        i += 1;
    }
    false
}

/// The names that begin with `prefix`.
pub fn names_with(names: &Vec<Vec<char>>, prefix: char) -> (r: Vec<Vec<char>>)
    ensures
        views(r@) == prefixed(views(names@), prefix, names@.len() as nat),
{
    let mut r: Vec<Vec<char>> = Vec::new();
    let mut k: usize = 0;
    while k < names.len()
        invariant
            k <= names@.len(),
            views(r@) == prefixed(views(names@), prefix, k as nat),
        decreases names@.len() - k,
    {
        if names[k].len() > 0 && names[k][0] == prefix {
            let ghost before = views(r@);
            r.push(names[k].clone());
            proof {
                assert(views(r@) =~= before.push(names@[k as int]@));
            }
        }
        k += 1;
    }
    r
}

impl Machine {
    /// The lines that draw the wire with the name `wire`. The machine
    /// must have the wire.
    pub fn wire_to_graphviz(&self, wire: &Vec<char>) -> (r: Vec<char>)
        requires
            self.wf(),
            self@.contains_key(wire@),
        ensures
            r@ == node_lines(self@, wire@),
    {
        let key = string_from_chars(wire);
        let mut r: Vec<char> = Vec::new();
        match self.wire(key.as_str()) {
            Some(Wire::Input(v)) => {
                push_text(&mut r, "    ");
                append_chars(&mut r, wire);
                push_text(&mut r, " [label=\"");
                append_chars(&mut r, wire);
                push_text(&mut r, "=");
                append_chars(&mut r, &truth_name(v));
                push_text(&mut r, "\"];\n");
            },
            Some(Wire::Function(op, a, b)) => {
                push_text(&mut r, "    ");
                append_chars(&mut r, wire);
                push_text(&mut r, " [label=\"");
                append_chars(&mut r, wire);
                push_text(&mut r, "=");
                append_chars(&mut r, &operator_name(op));
                push_text(&mut r, "\"];\n");
                push_text(&mut r, "    ");
                append_chars(&mut r, wire);
                push_text(&mut r, " -> ");
                append_chars(&mut r, &a);
                push_text(&mut r, ";\n");
                push_text(&mut r, "    ");
                append_chars(&mut r, wire);
                push_text(&mut r, " -> ");
                append_chars(&mut r, &b);
                push_text(&mut r, ";\n");
            },
            None => {
                unreached::<()>();
            },
        }
        r
    }

    /// The drawing of the machine with groups for at most `limit` output
    /// wires. The machine must have every wire that one of its gates
    /// reads.
    pub fn to_graphviz_limited(&self, limit: usize) -> (r: String)
        requires
            self.wf(),
            sound(self@),
        ensures
            r@ == graphviz(self@, self.names(), limit as nat),
    {
        let ghost m = self@;
        let ghost size = self.size();
        let names = self.wires();
        let sorted = sort_texts(names_with(&names, 'z'));
        let count: usize = if limit < sorted.len() {
            limit
        } else {
            sorted.len()
        };
        let ghost outs = outputs(self.names(), limit as nat);
        proof {
            self.lemma_names();
            assert(outs =~= views(sorted@).take(count as int));
            let all = prefixed(self.names(), 'z', self.names().len());
            lemma_sorted_same(all);
            assert forall|x: int| 0 <= x < outs.len() implies m.contains_key(#[trigger] outs[x]) by {
                assert(all.sort_by(by_text())[x] == outs[x]);
                assert(all.sort_by(by_text()).contains(outs[x]));
                lemma_prefixed_among(self.names(), 'z', self.names().len(), outs[x]);
            }
        }
        let mut dot: Vec<char> = Vec::new();
        push_text(&mut dot, "digraph {\n");
        push_text(&mut dot, "  compounded=true;\n");
        push_text(&mut dot, "  rankdir=LR;\n");
        let mut added: Vec<Vec<char>> = Vec::new();
        let ghost head = dot@;
        let mut k: usize = 0;
        while k < count
            invariant
                self.wf(),
                sound(self@),
                m == self@,
                size == self.size(),
                size == self.names().len(),
                k <= count <= sorted@.len(),
                outs == views(sorted@).take(count as int),
                forall|x: int| 0 <= x < outs.len() ==> m.contains_key(#[trigger] outs[x]),
                views(added@) == added_upto(m, outs, size, k as nat),
                dot@ == head + groups_text(m, outs, size, k as nat),
            decreases count - k,
        {
            let output = &sorted[k];
            proof {
                assert(outs[k as int] == output@);
                assert(m.contains_key(outs[k as int]));
            }
            let key = string_from_chars(output);
            let deps = self.depends_on(key.as_str());
            let ghost all = views(deps@);
            let ghost was = views(added@);
            let mut fresh: Vec<Vec<char>> = Vec::new();
            let mut j: usize = 0;
            while j < deps.len()
                invariant
                    j <= deps@.len(),
                    all == views(deps@),
                    views(added@) == added_after(all, was, j as nat),
                    views(fresh@) == fresh_of(all, was, j as nat),
                decreases deps@.len() - j,
            {
                if !holds(&added, &deps[j]) {
                    let ghost a0 = views(added@);
                    let ghost f0 = views(fresh@);
                    added.push(deps[j].clone());
                    fresh.push(deps[j].clone());
                    proof {
                        assert(views(added@) =~= a0.push(all[j as int]));
                        assert(views(fresh@) =~= f0.push(all[j as int]));
                    }
                }
                j += 1;
            }
            proof {
                assert(key@ == output@);
                assert(all == dependencies(m, output@, size));
                law_dependencies_known(m, output@, size);
                assert(all.len() == deps@.len());
                lemma_fresh_known(m, all, was, all.len());
                assert(all_known(m, views(fresh@)));
                lemma_sorted_same(views(fresh@));
            }
            if fresh.len() > 0 {
                let ghost picked = views(fresh@);
                let ghost so_far = dot@;
                push_text(&mut dot, "  subgraph cluster_");
                append_chars(&mut dot, output);
                push_text(&mut dot, " {\n    label=\"");
                append_chars(&mut dot, output);
                push_text(&mut dot, "\";\n\n");
                append_chars(&mut dot, &self.wire_to_graphviz(output));
                let ordered = sort_texts(fresh);
                let ghost lead = dot@;
                proof {
                    assert forall|x: int| 0 <= x < ordered@.len() implies m.contains_key(
                        #[trigger] views(ordered@)[x],
                    ) by {
                        let v = views(ordered@)[x];
                        assert(picked.sort_by(by_text())[x] == v);
                        assert(picked.sort_by(by_text()).contains(v));
                        assert(picked.contains(v));
                        let y = choose|y: int| 0 <= y < picked.len() && picked[y] == v;
                        assert(all_known(m, picked));
                        assert(m.contains_key(picked[y]));
                    }
                }
                let mut d: usize = 0;
                while d < ordered.len()
                    invariant
                        self.wf(),
                        m == self@,
                        d <= ordered@.len(),
                        forall|x: int|
                            0 <= x < ordered@.len() ==> m.contains_key(#[trigger] views(ordered@)[x]),
                        dot@ == lead + deps_text(m, views(ordered@), d as nat),
                    decreases ordered@.len() - d,
                {
                    proof {
                        assert(m.contains_key(views(ordered@)[d as int]));
                    }
                    append_chars(&mut dot, &self.wire_to_graphviz(&ordered[d]));
                    push_text(&mut dot, "\n");
                    d += 1;
                }
                push_text(&mut dot, "  }\n");
                proof {
                    assert(dot@ =~= so_far + group_text(m, output@, picked));
                }
            }
            k += 1;
        }
        push_text(&mut dot, "}\n");
        string_from_chars(&dot)
    }

    /// The drawing of the machine with groups for at most 45 output
    /// wires.
    pub fn to_graphviz(&self) -> (r: String)
        requires
            self.wf(),
            sound(self@),
        ensures
            r@ == graphviz(self@, self.names(), 45),
    {
        self.to_graphviz_limited(45)
    }
}

} // verus!
