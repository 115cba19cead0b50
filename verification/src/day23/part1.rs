//! The network as a graph, and its groups of three computers of which one
//! has a name that begins with `t`.
//!
//! The computers are numbered in the order in which the links first name
//! them. A group of three is counted once, by the numbers of its computers
//! in ascending order. A computer may stand twice in a group where a link
//! ties it to itself.

use crate::util::text::chars_of;
use crate::util::text::lines;
use crate::util::text::split_lines;
use crate::util::text::trim;
use crate::util::text::trimmed;
use crate::util::text::views;
use vstd::pervasive::unreached;
use vstd::prelude::*;

verus! {

/// The graph as plain values: the names of the computers, and for each
/// computer the numbers of those that a link ties it to, one entry for
/// each link.
pub ghost struct GraphView {
    pub nodes: Seq<(char, char)>,
    pub linked: Seq<Seq<usize>>,
}

/// The graph of a network.
#[derive(Debug)]
pub struct Graph {
    pub nodes: Vec<(char, char)>,
    pub linked: Vec<Vec<usize>>,
}

/// The neighbour lists as plain values.
pub open spec fn lists(linked: Seq<Vec<usize>>) -> Seq<Seq<usize>> {
    Seq::new(linked.len(), |i: int| linked[i]@)
}

impl View for Graph {
    type V = GraphView;

    open spec fn view(&self) -> GraphView {
        GraphView { nodes: self.nodes@, linked: lists(self.linked@) }
    }
}

/// The number of the first computer from number `from` on that has the
/// name `id`, or the number of computers where none has.
pub open spec fn index_from(nodes: Seq<(char, char)>, id: (char, char), from: int) -> int
    decreases nodes.len() - from,
{
    if from < 0 || from >= nodes.len() {
        nodes.len() as int
    } else if nodes[from] == id {
        from
    } else {
        index_from(nodes, id, from + 1)
    }
}

impl GraphView {
    /// Whether every computer has its list of neighbours.
    pub open spec fn wf(self) -> bool {
        self.linked.len() == self.nodes.len()
    }

    /// The number of the computer with the name `id`, or the number of
    /// computers where none has that name.
    pub open spec fn index_of(self, id: (char, char)) -> int {
        index_from(self.nodes, id, 0)
    }

    /// The graph with a computer of the name `id`, which is new and
    /// without neighbours where the graph had none of that name.
    pub open spec fn with_node(self, id: (char, char)) -> GraphView {
        if self.index_of(id) < self.nodes.len() {
            self
        } else {
            GraphView { nodes: self.nodes.push(id), linked: self.linked.push(Seq::empty()) }
        }
    }

    /// The graph with one more entry `j` in the list of computer `i`.
    pub open spec fn with_entry(self, i: int, j: int) -> GraphView {
        GraphView { nodes: self.nodes, linked: self.linked.update(i, self.linked[i].push(j as usize)) }
    }

    /// The graph with the computers `from` and `to`, as far as they are
    /// new, and a link between them: an entry for each in the list of the
    /// other.
    pub open spec fn with_edge(self, from: (char, char), to: (char, char)) -> GraphView {
        let both = self.with_node(from).with_node(to);
        let i = both.index_of(from);
        let j = both.index_of(to);
        both.with_entry(i, j).with_entry(j, i)
    }

    /// Whether the list of computer `i` names computer `j`.
    pub open spec fn tied(self, i: int, j: int) -> bool {
        0 <= i < self.linked.len() && 0 <= j <= usize::MAX && self.linked[i].contains(j as usize)
    }

    /// Whether the name of computer `i` begins with `t`.
    pub open spec fn chief(self, i: int) -> bool {
        0 <= i < self.nodes.len() && self.nodes[i].0 == 't'
    }

    /// Whether the computers `i`, `j` and `k` are a group with a computer
    /// whose name begins with `t`.
    pub open spec fn group(self, i: int, j: int, k: int) -> bool {
        self.tied(i, j) && self.tied(j, k) && self.tied(k, i) && (self.chief(i) || self.chief(j)
            || self.chief(k))
    }

    /// The number of groups of the computers `i` and `j` with a computer
    /// from `j` to below `k`.
    pub open spec fn groups_upto(self, i: int, j: int, k: int) -> nat
        decreases k - j,
    {
        if k <= j {
            0
        } else {
            self.groups_upto(i, j, k - 1) + if self.group(i, j, k - 1) {
                1nat
            } else {
                0nat
            }
        }
    }

    /// The number of groups of the computer `i` with a second computer
    /// from `i` to below `j` and a third that is not before the second.
    pub open spec fn groups_with(self, i: int, j: int) -> nat
        decreases j - i,
    {
        if j <= i {
            0
        } else {
            self.groups_with(i, j - 1) + self.groups_upto(i, j - 1, self.nodes.len() as int)
        }
    }

    /// The number of groups whose first computer is below `i`.
    pub open spec fn groups_below(self, i: int) -> nat
        decreases i,
    {
        if i <= 0 {
            0
        } else {
            self.groups_below(i - 1) + self.groups_with(i - 1, self.nodes.len() as int)
        }
    }

    /// The number of groups of three computers, each linked to the two
    /// others, with a computer whose name begins with `t`.
    pub open spec fn groups(self) -> nat {
        self.groups_below(self.nodes.len() as int)
    }
}

/// The first computer with a name is a computer with that name, and none
/// before it has the name.
pub proof fn lemma_index_from(nodes: Seq<(char, char)>, id: (char, char), from: int)
    requires
        0 <= from <= nodes.len(),
    ensures
        from <= index_from(nodes, id, from) <= nodes.len(),
        index_from(nodes, id, from) < nodes.len() ==> nodes[index_from(nodes, id, from)] == id,
    decreases nodes.len() - from,
{
    if from < nodes.len() && nodes[from] != id {
        lemma_index_from(nodes, id, from + 1);
    }
}

/// A computer that is not tied to the second of a group is in no group
/// with it.
pub proof fn lemma_no_groups(v: GraphView, i: int, j: int, k: int)
    requires
        !v.tied(i, j),
    ensures
        v.groups_upto(i, j, k) == 0,
    decreases k - j,
{
    if k > j {
        lemma_no_groups(v, i, j, k - 1);
    }
}

impl Graph {
    /// The graph without computers.
    pub fn new() -> (g: Graph)
        ensures
            g@.nodes.len() == 0,
            g@.linked.len() == 0,
            g@.wf(),
    {
        Graph { nodes: Vec::new(), linked: Vec::new() }
    }

    /// The number of the computer with the name `id`, or the number of
    /// computers where none has that name.
    pub fn find(&self, id: (char, char)) -> (i: usize)
        ensures
            i == self@.index_of(id),
            i <= self.nodes@.len(),
            i < self.nodes@.len() ==> self.nodes@[i as int] == id,
    {
        let mut i: usize = 0;
        while i < self.nodes.len() && !(self.nodes[i].0 == id.0 && self.nodes[i].1 == id.1)
            invariant
                i <= self.nodes@.len(),
                index_from(self.nodes@, id, 0) == index_from(self.nodes@, id, i as int),
            decreases self.nodes@.len() - i,
        {
            i += 1;
        }
        proof {
            lemma_index_from(self.nodes@, id, i as int);
        }
        i
    }

    /// Makes sure that the graph has a computer of the name `id`, and
    /// gives its number.
    pub fn add_node(&mut self, id: (char, char)) -> (i: usize)
        requires
            old(self)@.wf(),
        ensures
            final(self)@ == old(self)@.with_node(id),
            final(self)@.wf(),
            i == final(self)@.index_of(id),
            i < final(self)@.nodes.len(),
    {
        let i = self.find(id);
        if i == self.nodes.len() {
            self.nodes.push(id);
            self.linked.push(Vec::new());
            proof {
                assert(self@.linked =~= old(self)@.linked.push(Seq::empty()));
                lemma_index_grows(old(self)@.nodes, id);
            }
        }
        i
    }

    /// Adds one entry `j` to the list of computer `i`.
    pub fn add_entry(&mut self, i: usize, j: usize)
        requires
            old(self)@.wf(),
            i < old(self)@.nodes.len(),
        ensures
            final(self)@ == old(self)@.with_entry(i as int, j as int),
            final(self)@.wf(),
    {
        let mut list: Vec<usize> = Vec::new();
        core::mem::swap(&mut list, &mut self.linked[i]);
        list.push(j);
        self.linked.set(i, list);
        proof {
            assert(self@.linked =~= old(self)@.linked.update(
                i as int,
                old(self)@.linked[i as int].push(j),
            ));
        }
    }

    /// Adds the computers `from` and `to`, as far as they are new, and a
    /// link between them.
    pub fn add_edge(self, from: (char, char), to: (char, char)) -> (g: Graph)
        requires
            self@.wf(),
        ensures
            g@ == self@.with_edge(from, to),
            g@.wf(),
    {
        let mut g = self;
        g.add_node(from);
        let j = g.add_node(to);
        let i = g.find(from);
        proof {
            lemma_index_kept(self@.with_node(from), from, to);
        }
        g.add_entry(i, j);
        g.add_entry(j, i);
        g
    }

    /// Whether the list of computer `i` names computer `j`.
    pub fn is_connected(&self, i: usize, j: usize) -> (b: bool)
        requires
            self@.wf(),
            i < self@.nodes.len(),
        ensures
            b == self@.tied(i as int, j as int),
    {
        let list = &self.linked[i];
        let mut k: usize = 0;
        while k < list.len()
            invariant
                self@.wf(),
                i < self@.nodes.len(),
                k <= list@.len(),
                list@ == self@.linked[i as int],
                forall|x: int| 0 <= x < k ==> list@[x] != j,
            decreases list@.len() - k,
        {
            if list[k] == j {
                assert(self@.linked[i as int][k as int] == j);
                return true;
            }
            k += 1;
        }
        false
    }

    /// Whether the name of computer `i` begins with `t`.
    pub fn is_chief(&self, i: usize) -> (b: bool)
        requires
            i < self@.nodes.len(),
        ensures
            b == self@.chief(i as int),
    {
        self.nodes[i].0 == 't'
    }
}

/// A new computer has the number that was the number of computers.
pub proof fn lemma_index_grows(nodes: Seq<(char, char)>, id: (char, char))
    requires
        index_from(nodes, id, 0) == nodes.len(),
    ensures
        index_from(nodes.push(id), id, 0) == nodes.len(),
{
    lemma_index_pushed(nodes, id, id, 0);
}

/// The first computer with a name among the computers and one more.
pub proof fn lemma_index_pushed(nodes: Seq<(char, char)>, id: (char, char), more: (char, char), from: int)
    requires
        0 <= from <= nodes.len(),
    ensures
        index_from(nodes.push(more), id, from) == if index_from(nodes, id, from) < nodes.len() {
            index_from(nodes, id, from)
        } else if more == id {
            nodes.len() as int
        } else {
            nodes.len() as int + 1
        },
    decreases nodes.len() - from,
{
    if from < nodes.len() {
        if nodes[from] != id {
            lemma_index_pushed(nodes, id, more, from + 1);
        }
    } else {
        reveal_with_fuel(index_from, 2);
    }
}

/// A computer keeps its number when another is added.
pub proof fn lemma_index_kept(v: GraphView, id: (char, char), more: (char, char))
    requires
        v.index_of(id) < v.nodes.len(),
    ensures
        v.with_node(more).index_of(id) == v.index_of(id),
{
    lemma_index_pushed(v.nodes, id, more, 0);
}

/// A link between two computers.
#[derive(Debug, Clone, Copy, PartialEq, Eq)]
pub struct Link {
    pub from: (char, char),
    pub to: (char, char),
}

/// Whether `c` is one of the 128 characters of one byte.
pub open spec fn narrow(c: char) -> bool {
    (c as u32) < 128
}

/// The link that a line describes: two names of two one-byte characters
/// each with a hyphen between them, of which the first name holds no
/// hyphen.
pub open spec fn link_of(line: Seq<char>) -> Option<Link> {
    if line.len() == 5 && line[2] == '-' && line[0] != '-' && line[1] != '-' && narrow(line[0])
        && narrow(line[1]) && narrow(line[3]) && narrow(line[4]) {
        Some(Link { from: (line[0], line[1]), to: (line[3], line[4]) })
    } else {
        None
    }
}

/// The links that the first `k` lines describe, or none where one of the
/// lines describes no link.
pub open spec fn links_of(rows: Seq<Seq<char>>, k: nat) -> Option<Seq<Link>>
    decreases k,
{
    if k == 0 {
        Some(Seq::empty())
    } else {
        match (links_of(rows, (k - 1) as nat), link_of(rows[k - 1])) {
            (Some(before), Some(link)) => Some(before.push(link)),
            _ => None,
        }
    }
}

/// The links of a network: those that the lines of the text describe,
/// once the white space around the text is gone.
pub open spec fn network(text: Seq<char>) -> Option<Seq<Link>> {
    links_of(split_lines(trimmed(text)), split_lines(trimmed(text)).len())
}

/// The graph of the first `k` links.
pub open spec fn graph_of(links: Seq<Link>, k: nat) -> GraphView
    decreases k,
{
    if k == 0 {
        GraphView { nodes: Seq::empty(), linked: Seq::empty() }
    } else {
        graph_of(links, (k - 1) as nat).with_edge(links[k - 1].from, links[k - 1].to)
    }
}

/// The name that a text of two one-byte characters spells.
pub fn to_char_tupel(value: &str) -> (id: (char, char))
    requires
        value@.len() == 2,
        narrow(value@[0]),
        narrow(value@[1]),
    ensures
        id == (value@[0], value@[1]),
{
    let chars = chars_of(value);
    (chars[0], chars[1])
}

/// The link that a line describes.
pub fn parse_link(line: &Vec<char>) -> (r: Option<Link>)
    ensures
        r == link_of(line@),
{
    if line.len() != 5 {
        return None;
    }
    if line[2] != '-' || line[0] == '-' || line[1] == '-' {
        return None;
    }
    if line[0] as u32 >= 128 || line[1] as u32 >= 128 || line[3] as u32 >= 128 || line[4] as u32
        >= 128 {
        return None;
    }
    Some(Link { from: (line[0], line[1]), to: (line[3], line[4]) })
}

/// The links of the network that the text describes.
pub fn parse_network(input: &str) -> (r: Option<Vec<Link>>)
    ensures
        match r {
            Some(links) => network(input@) == Some(links@),
            None => network(input@) is None,
        },
{
    let chars = chars_of(input);
    let rows = lines(&trim(&chars));
    let mut links: Vec<Link> = Vec::new();
    let mut k: usize = 0;
    while k < rows.len()
        invariant
            k <= rows@.len(),
            views(rows@) == split_lines(trimmed(input@)),
            links_of(views(rows@), k as nat) == Some(links@),
        decreases rows@.len() - k,
    {
        match parse_link(&rows[k]) {
            Some(link) => {
                links.push(link);
            },
            None => {
                proof {
                    lemma_links_fail(views(rows@), (k + 1) as nat, rows@.len() as nat);
                }
                return None;
            },
        }
        k += 1;
    }
    Some(links)
}

/// Where some of the lines describe no links, all of them describe none.
pub proof fn lemma_links_fail(rows: Seq<Seq<char>>, k: nat, n: nat)
    requires
        k <= n,
        links_of(rows, k) is None,
    ensures
        links_of(rows, n) is None,
    decreases n,
{
    if k < n {
        lemma_links_fail(rows, k, (n - 1) as nat);
    }
}

/// The graph of the links.
pub fn build(links: &Vec<Link>) -> (g: Graph)
    ensures
        g@ == graph_of(links@, links@.len()),
        g@.wf(),
{
    let mut g = Graph::new();
    let mut k: usize = 0;
    proof {
        assert(g@.linked =~= Seq::<Seq<usize>>::empty());
        assert(g@.nodes =~= Seq::<(char, char)>::empty());
    }
    while k < links.len()
        invariant
            k <= links@.len(),
            g@ == graph_of(links@, k as nat),
            g@.wf(),
        decreases links@.len() - k,
    {
        g = g.add_edge(links[k].from, links[k].to);
        k += 1;
    }
    g
}

impl Graph {
    /// The number of groups of three computers, each linked to the two
    /// others, with a computer whose name begins with `t`, as far as 32
    /// bits hold it.
    pub fn count_groups(&self) -> (r: u32)
        requires
            self@.wf(),
        ensures
            r == self@.groups() % 0x1_0000_0000,
    {
        let n = self.nodes.len();
        let mut r: u32 = 0;
        let mut i: usize = 0;
        while i < n
            invariant
                self@.wf(),
                n == self@.nodes.len(),
                i <= n,
                r == self@.groups_below(i as int) % 0x1_0000_0000,
            decreases n - i,
        {
            let mut j: usize = i;
            while j < n
                invariant
                    self@.wf(),
                    n == self@.nodes.len(),
                    i < n,
                    i <= j <= n,
                    r == (self@.groups_below(i as int) + self@.groups_with(i as int, j as int))
                        % 0x1_0000_0000,
                decreases n - j,
            {
                if self.is_connected(i, j) {
                    let mut k: usize = j;
                    while k < n
                        invariant
                            self@.wf(),
                            n == self@.nodes.len(),
                            i <= j < n,
                            j <= k <= n,
                            self@.tied(i as int, j as int),
                            r == (self@.groups_below(i as int) + self@.groups_with(
                                i as int,
                                j as int,
                            ) + self@.groups_upto(i as int, j as int, k as int)) % 0x1_0000_0000,
                        decreases n - k,
                    {
                        if self.is_connected(j, k) && self.is_connected(k, i) && (self.is_chief(i)
                            || self.is_chief(j) || self.is_chief(k)) {
                            r = if r == u32::MAX {
                                0
                            } else {
                                r + 1
                            };
                        }
                        k += 1;
                    }
                } else {
                    proof {
                        lemma_no_groups(self@, i as int, j as int, n as int);
                    }
                }
                j += 1;
            }
            i += 1;
        }
        r
    }
}

/// The number of groups of three computers of the network, each linked
/// to the two others, with a computer whose name begins with `t`, as far
/// as 32 bits hold it. Every line of the text must describe a link.
pub fn solve_day_23_part_01(input: &str) -> (r: u32)
    requires
        network(input@) is Some,
    ensures
        r == graph_of(network(input@)->0, network(input@)->0.len()).groups() % 0x1_0000_0000,
{
    let links = match parse_network(input) {
        Some(l) => l,
        None => unreached(),
    };
    build(&links).count_groups()
}

/// Whether every tie of the graph goes both ways.
pub open spec fn mutual(v: GraphView) -> bool {
    forall|a: int, b: int| #[trigger] v.tied(a, b) ==> v.tied(b, a)
}

/// Whether the lists of the graph name computers of the graph only.
pub open spec fn within(v: GraphView) -> bool {
    forall|a: int, b: int| #[trigger] v.tied(a, b) ==> 0 <= b < v.nodes.len()
}

/// A graph with one more computer has the ties that it had.
pub proof fn lemma_with_node(v: GraphView, id: (char, char))
    requires
        v.wf(),
        mutual(v),
        within(v),
    ensures
        v.with_node(id).wf(),
        mutual(v.with_node(id)),
        within(v.with_node(id)),
        v.with_node(id).index_of(id) < v.with_node(id).nodes.len(),
{
    let w = v.with_node(id);
    lemma_index_from(v.nodes, id, 0);
    if v.index_of(id) >= v.nodes.len() {
        lemma_index_grows(v.nodes, id);
        assert forall|a: int, b: int| #[trigger] w.tied(a, b) implies v.tied(a, b) by {
            if a == v.nodes.len() {
                assert(w.linked[a] =~= Seq::<usize>::empty());
            }
        }
        assert forall|a: int, b: int| #[trigger] w.tied(a, b) implies w.tied(b, a) && 0 <= b
            < w.nodes.len() by {
            assert(v.tied(a, b));
            assert(v.tied(b, a));
            assert(w.linked[b] == v.linked[b]);
        }
    }
}

/// A graph with one more entry in a list has the ties that it had and
/// the new one.
pub proof fn lemma_with_entry(v: GraphView, i: int, j: int, a: int, b: int)
    requires
        v.wf(),
        0 <= i < v.nodes.len(),
        0 <= j < v.nodes.len(),
        v.nodes.len() <= usize::MAX,
    ensures
        v.with_entry(i, j).wf(),
        v.with_entry(i, j).nodes == v.nodes,
        v.with_entry(i, j).tied(a, b) <==> v.tied(a, b) || (a == i && b == j),
{
    let w = v.with_entry(i, j);
    if 0 <= a < v.linked.len() && 0 <= b <= usize::MAX {
        if a == i {
            let old = v.linked[i];
            let new = old.push(j as usize);
            assert(w.linked[a] == new);
            if old.contains(b as usize) {
                let x = choose|x: int| 0 <= x < old.len() && old[x] == b as usize;
                assert(new[x] == b as usize);
            }
            if b == j {
                assert(new[old.len() as int] == b as usize);
            }
            if new.contains(b as usize) && b != j {
                let x = choose|x: int| 0 <= x < new.len() && new[x] == b as usize;
                assert(old[x] == b as usize);
            }
        } else {
            assert(w.linked[a] == v.linked[a]);
        }
    }
}

/// In the graph of a network every tie goes both ways.
pub proof fn law_ties_are_mutual(links: Seq<Link>, k: nat)
    requires
        k <= links.len(),
        2 * links.len() <= usize::MAX,
    ensures
        graph_of(links, k).wf(),
        mutual(graph_of(links, k)),
        within(graph_of(links, k)),
        graph_of(links, k).nodes.len() <= 2 * k,
    decreases k,
{
    if k > 0 {
        law_ties_are_mutual(links, (k - 1) as nat);
        let v = graph_of(links, (k - 1) as nat);
        let from = links[k - 1].from;
        let to = links[k - 1].to;
        lemma_with_node(v, from);
        let one = v.with_node(from);
        lemma_with_node(one, to);
        let both = one.with_node(to);
        lemma_index_kept(one, from, to);
        let i = both.index_of(from);
        let j = both.index_of(to);
        lemma_index_from(both.nodes, from, 0);
        lemma_index_from(both.nodes, to, 0);
        assert(one.nodes.len() <= v.nodes.len() + 1);
        assert(both.nodes.len() <= one.nodes.len() + 1);
        assert(one.nodes.len() <= both.nodes.len());
        let first = both.with_entry(i, j);
        let last = first.with_entry(j, i);
        assert(last == graph_of(links, k));
        lemma_with_entry(both, i, j, 0, 0);
        lemma_with_entry(first, j, i, 0, 0);
        assert forall|a: int, b: int| #[trigger] last.tied(a, b) implies last.tied(b, a) && 0 <= b
            < last.nodes.len() by {
            lemma_with_entry(first, j, i, a, b);
            lemma_with_entry(both, i, j, a, b);
            lemma_with_entry(first, j, i, b, a);
            lemma_with_entry(both, i, j, b, a);
            if both.tied(a, b) {
                assert(both.tied(b, a));
            }
        }
    } else {
        let v = graph_of(links, 0);
        assert forall|a: int, b: int| #[trigger] v.tied(a, b) implies false by {}
    }
}

} // verus!
