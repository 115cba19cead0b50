//! The largest group of computers of a network in which every computer is
//! linked to every other, and the password that its names make: the names
//! in the order of a dictionary, with commas between them.

use crate::day23::part1::build;
use crate::day23::part1::graph_of;
use crate::day23::part1::law_ties_are_mutual;
use crate::day23::part1::network;
use crate::day23::part1::parse_network;
use crate::day23::part1::within;
use crate::day23::part1::Graph;
use crate::day23::part1::GraphView;
use crate::util::order::by_text;
use crate::util::order::glued;
use crate::util::order::list_sorted;
use crate::util::text::views;
use vstd::pervasive::unreached;
use vstd::prelude::*;

verus! {

/// Whether the numbers of the list ascend.
pub open spec fn rising(s: Seq<usize>) -> bool {
    forall|a: int, b: int| 0 <= a < b < s.len() ==> s[a] < s[b]
}

/// Whether the list names computers of the graph, in ascending order, of
/// which each is tied to all that follow it.
pub open spec fn clique(v: GraphView, s: Seq<usize>) -> bool {
    &&& rising(s)
    &&& forall|a: int| 0 <= a < s.len() ==> (#[trigger] s[a]) < v.nodes.len()
    &&& forall|a: int, b: int| 0 <= a < b < s.len() ==> v.tied(s[a] as int, s[b] as int)
}

/// Whether the list is a group of the graph that no group is larger than.
pub open spec fn largest(v: GraphView, s: Seq<usize>) -> bool {
    clique(v, s) && forall|t: Seq<usize>| #[trigger] clique(v, t) ==> t.len() <= s.len()
}

/// Whether the list `t` begins with the list `c` and goes on with numbers
/// from `from` on.
pub open spec fn extends(t: Seq<usize>, c: Seq<usize>, from: int) -> bool {
    &&& c.len() <= t.len()
    &&& forall|a: int| 0 <= a < c.len() ==> t[a] == c[a]
    &&& forall|a: int| c.len() <= a < t.len() ==> t[a] >= from
}

/// Whether all computers of the list are tied to the computer `c`.
pub open spec fn all_tied(v: GraphView, s: Seq<usize>, c: int) -> bool {
    forall|a: int| 0 <= a < s.len() ==> v.tied(#[trigger] s[a] as int, c)
}

/// Whether all computers of the group are tied to the computer `c`.
pub fn fits(g: &Graph, group: &Vec<usize>, c: usize) -> (b: bool)
    requires
        g@.wf(),
        forall|a: int| 0 <= a < group@.len() ==> (#[trigger] group@[a]) < g@.nodes.len(),
    ensures
        b == all_tied(g@, group@, c as int),
{
    let mut a: usize = 0;
    while a < group.len()
        invariant
            g@.wf(),
            a <= group@.len(),
            forall|a: int| 0 <= a < group@.len() ==> (#[trigger] group@[a]) < g@.nodes.len(),
            forall|x: int| 0 <= x < a ==> g@.tied(#[trigger] group@[x] as int, c as int),
        decreases group@.len() - a,
    {
        if !g.is_connected(group[a], c) {
            return false;
        }
        a += 1;
    }
    true
}

/// A copy of a list of numbers.
pub fn copy_of(list: &Vec<usize>) -> (r: Vec<usize>)
    ensures
        r@ == list@,
{
    let mut r: Vec<usize> = Vec::new();
    let mut i: usize = 0;
    while i < list.len()
        invariant
            i <= list@.len(),
            r@ == list@.take(i as int),
        decreases list@.len() - i,
    {
        r.push(list[i]);
        proof {
            assert(r@ =~= list@.take(i + 1));
        }
        i += 1;
    }
    proof {
        assert(list@.take(list@.len() as int) =~= list@);
    }
    r
}

/// Tries every way to make the group larger with computers from `from`
/// on, and keeps in `best` the largest group met.
pub fn expand(g: &Graph, group: &mut Vec<usize>, from: usize, best: &mut Vec<usize>)
    requires
        g@.wf(),
        from <= g@.nodes.len(),
        clique(g@, old(group)@),
        forall|a: int| 0 <= a < old(group)@.len() ==> (#[trigger] old(group)@[a]) < from,
        clique(g@, old(best)@),
    ensures
        final(group)@ == old(group)@,
        clique(g@, final(best)@),
        final(best)@.len() >= old(best)@.len(),
        forall|t: Seq<usize>| #[trigger]
            clique(g@, t) && extends(t, old(group)@, from as int) ==> t.len() <= final(best)@.len(),
    decreases g@.nodes.len() - from,
{
    let n = g.nodes.len();
    let ghost v = g@;
    let ghost start = group@;
    if group.len() > best.len() {
        *best = copy_of(group);
    }
    let mut c: usize = from;
    while c < n
        invariant
            v == g@,
            v.wf(),
            n == v.nodes.len(),
            from <= c <= n,
            group@ == start,
            clique(v, start),
            forall|a: int| 0 <= a < start.len() ==> (#[trigger] start[a]) < from,
            clique(v, best@),
            best@.len() >= old(best)@.len(),
            best@.len() >= start.len(),
            forall|t: Seq<usize>| #[trigger]
                clique(v, t) && extends(t, start, from as int) && (t.len() == start.len()
                    || t[start.len() as int] < c) ==> t.len() <= best@.len(),
        decreases n - c,
    {
        let ghost seen = best@;
        if fits(g, group, c) {
            group.push(c);
            proof {
                let wider = group@;
                assert forall|a: int, b: int| 0 <= a < b < wider.len() implies wider[a] < wider[b]
                    && v.tied(wider[a] as int, wider[b] as int) by {
                    if b < start.len() {
                        assert(wider[a] == start[a] && wider[b] == start[b]);
                    } else {
                        assert(wider[a] == start[a]);
                        assert(v.tied(start[a] as int, c as int));
                    }
                }
                assert forall|a: int| 0 <= a < wider.len() implies (#[trigger] wider[a]) < c + 1 by {
                    if a < start.len() {
                        assert(wider[a] == start[a]);
                    }
                }
                assert(clique(v, wider));
            }
            expand(g, group, c + 1, best);
            let ghost wider = group@;
            group.pop();
            proof {
                assert(group@ =~= start);
                assert forall|t: Seq<usize>| #[trigger]
                    clique(v, t) && extends(t, start, from as int) && t.len() > start.len()
                        && t[start.len() as int] == c implies t.len() <= best@.len() by {
                    assert forall|a: int| wider.len() <= a < t.len() implies t[a] >= c + 1 by {
                        assert(t[start.len() as int] < t[a]);
                    }
                    assert(extends(t, wider, c + 1));
                }
            }
        } else {
            proof {
                assert forall|t: Seq<usize>| #[trigger]
                    clique(v, t) && extends(t, start, from as int) && t.len() > start.len()
                        && t[start.len() as int] == c implies t.len() <= best@.len() by {
                    assert forall|a: int| 0 <= a < start.len() implies v.tied(
                        #[trigger] start[a] as int,
                        c as int,
                    ) by {
                        assert(v.tied(t[a] as int, t[start.len() as int] as int));
                    }
                }
            }
        }
        proof {
            assert forall|t: Seq<usize>| #[trigger]
                clique(v, t) && extends(t, start, from as int) && (t.len() == start.len()
                    || t[start.len() as int] < c + 1) implies t.len() <= best@.len() by {
                if t.len() > start.len() && t[start.len() as int] < c {
                    assert(t.len() <= seen.len());
                }
            }
        }
        c += 1;
    }
    proof {
        assert forall|t: Seq<usize>| #[trigger]
            clique(v, t) && extends(t, start, from as int) implies t.len() <= best@.len() by {
            if t.len() > start.len() {
                assert(t[start.len() as int] < n);
            }
        }
    }
}

/// A largest group of computers in which each is tied to all others.
pub fn largest_clique(g: &Graph) -> (best: Vec<usize>)
    requires
        g@.wf(),
    ensures
        largest(g@, best@),
{
    let mut group: Vec<usize> = Vec::new();
    let mut best: Vec<usize> = Vec::new();
    expand(g, &mut group, 0, &mut best);
    proof {
        assert forall|t: Seq<usize>| #[trigger] clique(g@, t) implies t.len() <= best@.len() by {
            assert(extends(t, Seq::<usize>::empty(), 0));
        }
    }
    best
}

/// The names of the computers of the list, each as a text of two
/// characters.
pub open spec fn names(v: GraphView, s: Seq<usize>) -> Seq<Seq<char>> {
    Seq::new(s.len(), |a: int| seq![v.nodes[s[a] as int].0, v.nodes[s[a] as int].1])
}

/// The password that the computers of the list make: their names in the
/// order of a dictionary, with commas between them.
pub open spec fn password(v: GraphView, s: Seq<usize>) -> Seq<char> {
    glued(names(v, s).sort_by(by_text()), seq![','])
}

/// The password that the computers of the list make.
pub fn password_of(g: &Graph, group: &Vec<usize>) -> (r: String)
    requires
        forall|a: int| 0 <= a < group@.len() ==> (#[trigger] group@[a]) < g@.nodes.len(),
    ensures
        r@ == password(g@, group@),
{
    let mut texts: Vec<Vec<char>> = Vec::new();
    let mut a: usize = 0;
    while a < group.len()
        invariant
            a <= group@.len(),
            forall|a: int| 0 <= a < group@.len() ==> (#[trigger] group@[a]) < g@.nodes.len(),
            views(texts@) == names(g@, group@).take(a as int),
        decreases group@.len() - a,
    {
        let id = g.nodes[group[a]];
        let mut text: Vec<char> = Vec::new();
        text.push(id.0);
        text.push(id.1);
        proof {
            assert(text@ =~= seq![id.0, id.1]);
        }
        let ghost before = views(texts@);
        let ghost name = text@;
        texts.push(text);
        proof {
            assert(views(texts@) =~= before.push(name));
            assert(names(g@, group@)[a as int] == name);
            assert(before.push(name) =~= names(g@, group@).take(a + 1));
        }
        a += 1;
    }
    proof {
        assert(views(texts@) =~= names(g@, group@));
        reveal_strlit(",");
        assert(","@ =~= seq![',']);
    }
    list_sorted(texts, ",")
}

/// The password of a largest group of computers of the network in which
/// each is linked to all others. Every line of the text must describe a
/// link.
pub fn solve_day_23_part_02(input: &str) -> (r: String)
    requires
        network(input@) is Some,
    ensures
        exists|s: Seq<usize>| #[trigger]
            largest(graph_of(network(input@)->0, network(input@)->0.len()), s) && r@ == password(
                graph_of(network(input@)->0, network(input@)->0.len()),
                s,
            ),
{
    let links = match parse_network(input) {
        Some(l) => l,
        None => unreached(),
    };
    let g = build(&links);
    let best = largest_clique(&g);
    let r = password_of(&g, &best);
    proof {
        let v = graph_of(network(input@)->0, network(input@)->0.len());
        assert(largest(v, best@) && r@ == password(v, best@));
    }
    r
}

/// Whether every two computers of the list are one computer or tied.
pub open spec fn complete(v: GraphView, s: Seq<usize>) -> bool {
    forall|a: int, b: int|
        0 <= a < s.len() && 0 <= b < s.len() ==> s[a] == s[b] || v.tied(
            #[trigger] s[a] as int,
            #[trigger] s[b] as int,
        )
}

/// Whether the neighbours of the computer `node`, without entry `i` of
/// their list, are each tied to all others.
pub open spec fn works(v: GraphView, node: int, i: int) -> bool {
    0 <= node < v.linked.len() && 0 <= i < v.linked[node].len() && complete(
        v,
        v.linked[node].remove(i),
    )
}

/// Whether `i` is the first entry of the list of `node` without which
/// its neighbours are each tied to all others.
pub open spec fn first_working(v: GraphView, node: int, i: int) -> bool {
    works(v, node, i) && forall|x: int| 0 <= x < i ==> !works(v, node, x)
}

/// Whether no computer with a working entry has more entries than `node`,
/// and `i` is its first working entry.
pub open spec fn chosen(v: GraphView, node: int, i: int) -> bool {
    first_working(v, node, i) && forall|m: int, x: int| #[trigger]
        works(v, m, x) ==> v.linked[m].len() <= v.linked[node].len()
}

/// The computers that the choice of `node` and `i` names: the neighbours
/// of `node` without entry `i` of their list, and `node`.
pub open spec fn party(v: GraphView, node: int, i: int) -> Seq<usize> {
    v.linked[node].remove(i).push(node as usize)
}

/// The list without its entry `i`.
pub fn without_at(list: &Vec<usize>, i: usize) -> (r: Vec<usize>)
    requires
        i < list@.len(),
    ensures
        r@ == list@.remove(i as int),
{
    let mut r: Vec<usize> = Vec::new();
    let mut k: usize = 0;
    while k < list.len()
        invariant
            i < list@.len(),
            k <= list@.len(),
            r@ == if k <= i {
                list@.take(k as int)
            } else {
                list@.take(i as int) + list@.subrange(i + 1, k as int)
            },
        decreases list@.len() - k,
    {
        if k != i {
            r.push(list[k]);
        }
        proof {
            if k < i {
                assert(r@ =~= list@.take(k + 1));
            } else if k == i {
                assert(r@ =~= list@.take(i as int) + list@.subrange(i + 1, k + 1));
            } else {
                assert(r@ =~= list@.take(i as int) + list@.subrange(i + 1, k + 1));
            }
        }
        k += 1;
    }
    proof {
        assert(r@ =~= list@.remove(i as int));
    }
    r
}

/// Whether every two computers of the list are one computer or tied.
pub fn is_complete(g: &Graph, list: &Vec<usize>) -> (b: bool)
    requires
        g@.wf(),
        forall|a: int| 0 <= a < list@.len() ==> (#[trigger] list@[a]) < g@.nodes.len(),
    ensures
        b == complete(g@, list@),
{
    let mut a: usize = 0;
    while a < list.len()
        invariant
            g@.wf(),
            a <= list@.len(),
            forall|a: int| 0 <= a < list@.len() ==> (#[trigger] list@[a]) < g@.nodes.len(),
            forall|x: int, y: int|
                0 <= x < a && 0 <= y < list@.len() ==> list@[x] == list@[y] || g@.tied(
                    #[trigger] list@[x] as int,
                    #[trigger] list@[y] as int,
                ),
        decreases list@.len() - a,
    {
        let mut b: usize = 0;
        while b < list.len()
            invariant
                g@.wf(),
                a < list@.len(),
                b <= list@.len(),
                forall|a: int| 0 <= a < list@.len() ==> (#[trigger] list@[a]) < g@.nodes.len(),
                forall|y: int|
                    0 <= y < b ==> list@[a as int] == list@[y] || g@.tied(
                        list@[a as int] as int,
                        #[trigger] list@[y] as int,
                    ),
            decreases list@.len() - b,
        {
            if list[a] != list[b] && !g.is_connected(list[a], list[b]) {
                return false;
            }
            b += 1;
        }
        a += 1;
    }
    true
}

/// The first entry of the list of `node` without which its neighbours
/// are each tied to all others, if there is one.
pub fn find_working(g: &Graph, node: usize) -> (r: Option<usize>)
    requires
        g@.wf(),
        within(g@),
        node < g@.nodes.len(),
    ensures
        match r {
            Some(i) => first_working(g@, node as int, i as int),
            None => forall|x: int| !works(g@, node as int, x),
        },
{
    let list = &g.linked[node];
    let mut i: usize = 0;
    while i < list.len()
        invariant
            g@.wf(),
            within(g@),
            node < g@.nodes.len(),
            list@ == g@.linked[node as int],
            i <= list@.len(),
            forall|x: int| 0 <= x < i ==> !works(g@, node as int, x),
        decreases list@.len() - i,
    {
        let rest = without_at(list, i);
        proof {
            assert forall|a: int| 0 <= a < rest@.len() implies (#[trigger] rest@[a]) < g@.nodes.len() by {
                let x = if a < i {
                    a
                } else {
                    a + 1
                };
                assert(rest@[a] == list@[x]);
                assert(g@.tied(node as int, list@[x] as int));
            }
        }
        if is_complete(g, &rest) {
            return Some(i);
        }
        i += 1;
    }
    None
}

/// The computer with the most neighbours among those whose neighbours,
/// without one entry of their list, are each tied to all others, and the
/// first such entry, if there is such a computer.
pub fn choose_party(g: &Graph) -> (r: Option<(usize, usize)>)
    requires
        g@.wf(),
        within(g@),
    ensures
        match r {
            Some(pair) => chosen(g@, pair.0 as int, pair.1 as int),
            None => forall|m: int, x: int| !works(g@, m, x),
        },
{
    let n = g.nodes.len();
    let mut best: Option<(usize, usize)> = None;
    let mut node: usize = 0;
    while node < n
        invariant
            g@.wf(),
            within(g@),
            n == g@.nodes.len(),
            node <= n,
            match best {
                Some(pair) => first_working(g@, pair.0 as int, pair.1 as int) && forall|
                    m: int,
                    x: int,
                | #[trigger]
                    works(g@, m, x) && m < node ==> g@.linked[m].len() <= g@.linked[pair.0 as int].len(),
                None => forall|m: int, x: int| #[trigger] works(g@, m, x) ==> m >= node,
            },
        decreases n - node,
    {
        let more = match best {
            Some(pair) => g.linked[node].len() > g.linked[pair.0].len(),
            None => true,
        };
        if more {
            match find_working(g, node) {
                Some(i) => {
                    best = Some((node, i));
                },
                None => {},
            }
        }
        node += 1;
    }
    best
}

/// The password of the computer with the most neighbours among those
/// whose neighbours, without one entry of their list, are each linked to
/// all others, together with those neighbours; none where there is no
/// such computer. Every line of the text must describe a link.
pub fn solve_day_23_part_02_with_hacky_shit_solution(input: &str) -> (r: Option<String>)
    requires
        network(input@) is Some,
        2 * network(input@)->0.len() <= usize::MAX,
    ensures
        match r {
            Some(p) => exists|node: int, i: int| #[trigger]
                chosen(graph_of(network(input@)->0, network(input@)->0.len()), node, i) && p@
                    == password(
                    graph_of(network(input@)->0, network(input@)->0.len()),
                    party(graph_of(network(input@)->0, network(input@)->0.len()), node, i),
                ),
            None => forall|node: int, i: int|
                !works(graph_of(network(input@)->0, network(input@)->0.len()), node, i),
        },
{
    let links = match parse_network(input) {
        Some(l) => l,
        None => unreached(),
    };
    let g = build(&links);
    proof {
        law_ties_are_mutual(links@, links@.len());
    }
    match choose_party(&g) {
        Some(pair) => {
            let mut group = without_at(&g.linked[pair.0], pair.1);
            group.push(pair.0);
            proof {
                let v = g@;
                assert(group@ == party(v, pair.0 as int, pair.1 as int));
                assert forall|a: int| 0 <= a < group@.len() implies (#[trigger] group@[a])
                    < v.nodes.len() by {
                    if a < group@.len() - 1 {
                        let x = if a < pair.1 {
                            a
                        } else {
                            a + 1
                        };
                        assert(group@[a] == v.linked[pair.0 as int][x]);
                        assert(v.tied(pair.0 as int, v.linked[pair.0 as int][x] as int));
                    }
                }
            }
            let p = password_of(&g, &group);
            proof {
                let v = g@;
                assert(chosen(v, pair.0 as int, pair.1 as int) && p@ == password(
                    v,
                    party(v, pair.0 as int, pair.1 as int),
                ));
            }
            Some(p)
        },
        None => None,
    }
}

} // verus!
