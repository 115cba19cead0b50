//! The order of texts, and texts sorted and joined.

use crate::util::text::views;
use itertools::Itertools;
use crate::util::text::string_from_chars;
use vstd::prelude::*;
use vstd::relations::sorted_by;
use vstd::relations::total_ordering;

verus! {

/// Whether the text `a` comes before the text `b`, or is `b`, in the
/// order of a dictionary: the first character in which they differ
/// decides, by its code point, and a text comes before its extensions.
pub open spec fn text_le(a: Seq<char>, b: Seq<char>) -> bool
    decreases a.len(),
{
    if a.len() == 0 {
        true
    } else if b.len() == 0 {
        false
    } else if a[0] != b[0] {
        a[0] < b[0]
    } else {
        text_le(a.skip(1), b.skip(1))
    }
}

/// The order of texts as a relation.
pub open spec fn by_text() -> spec_fn(Seq<char>, Seq<char>) -> bool {
    |a: Seq<char>, b: Seq<char>| text_le(a, b)
}

/// Every text comes at or before itself.
pub proof fn lemma_text_le_reflexive(a: Seq<char>)
    ensures
        text_le(a, a),
    decreases a.len(),
{
    if a.len() > 0 {
        lemma_text_le_reflexive(a.skip(1));
    }
}

/// Two texts of which each comes at or before the other are one text.
pub proof fn lemma_text_le_antisymmetric(a: Seq<char>, b: Seq<char>)
    requires
        text_le(a, b),
        text_le(b, a),
    ensures
        a == b,
    decreases a.len(),
{
    if a.len() > 0 {
        lemma_text_le_antisymmetric(a.skip(1), b.skip(1));
        assert(a =~= seq![a[0]] + a.skip(1));
        assert(b =~= seq![b[0]] + b.skip(1));
    } else {
        assert(a =~= b);
    }
}

/// A text that comes at or before a second comes at or before every text
/// that the second comes at or before.
pub proof fn lemma_text_le_transitive(a: Seq<char>, b: Seq<char>, c: Seq<char>)
    requires
        text_le(a, b),
        text_le(b, c),
    ensures
        text_le(a, c),
    decreases a.len(),
{
    if a.len() > 0 && a[0] == b[0] && b[0] == c[0] {
        lemma_text_le_transitive(a.skip(1), b.skip(1), c.skip(1));
    }
}

/// Of two texts one comes at or before the other.
pub proof fn lemma_text_le_connected(a: Seq<char>, b: Seq<char>)
    ensures
        text_le(a, b) || text_le(b, a),
    decreases a.len(),
{
    if a.len() > 0 && b.len() > 0 && a[0] == b[0] {
        lemma_text_le_connected(a.skip(1), b.skip(1));
    }
}

/// The order of texts is a total order.
pub proof fn lemma_by_text_total()
    ensures
        total_ordering(by_text()),
{
    assert forall|x: Seq<char>| #[trigger] by_text()(x, x) by {
        lemma_text_le_reflexive(x);
    }
    assert forall|x: Seq<char>, y: Seq<char>| #[trigger]
        by_text()(x, y) && #[trigger] by_text()(y, x) implies x == y by {
        lemma_text_le_antisymmetric(x, y);
    }
    assert forall|x: Seq<char>, y: Seq<char>, z: Seq<char>| #[trigger]
        by_text()(x, y) && #[trigger] by_text()(y, z) implies by_text()(x, z) by {
        lemma_text_le_transitive(x, y, z);
    }
    assert forall|x: Seq<char>, y: Seq<char>| #[trigger]
        by_text()(x, y) || #[trigger] by_text()(y, x) by {
        lemma_text_le_connected(x, y);
    }
}

/// The texts in ascending order. The body hands them to `sorted` of the
/// `Itertools` trait, which collects them into a vector and sorts it with
/// the standard sort: what comes out holds the same texts, each as often
/// as before, in the order of `Ord` for vectors of characters, which is
/// the order of a dictionary by code points. The contract says so, and
/// nothing of which of two equal texts comes first.
#[verifier::external_body]
pub(crate) fn sorted_texts(texts: Vec<Vec<char>>) -> (r: Vec<Vec<char>>)
    ensures
        views(r@).to_multiset() == views(texts@).to_multiset(),
        sorted_by(views(r@), by_text()),
{
    texts.into_iter().sorted().collect()
}

/// The parts glued into one text, with `sep` between every two of them.
pub open spec fn glued(parts: Seq<Seq<char>>, sep: Seq<char>) -> Seq<char>
    decreases parts.len(),
{
    if parts.len() == 0 {
        Seq::empty()
    } else if parts.len() == 1 {
        parts[0]
    } else {
        glued(parts.drop_last(), sep) + sep + parts.last()
    }
}

/// The texts of a sequence of strings.
pub open spec fn string_views(v: Seq<String>) -> Seq<Seq<char>> {
    Seq::new(v.len(), |i: int| v[i]@)
}

/// The strings joined into one, with `sep` between every two of them. The
/// body hands them to `join` of the `Itertools` trait, which writes the
/// first element and then, for every further element, the separator and
/// the element, each as `Display` shows it: a string as its text. The
/// contract says that and nothing more.
#[verifier::external_body]
pub(crate) fn join_strings(parts: &Vec<String>, sep: &str) -> (r: String)
    ensures
        r@ == glued(string_views(parts@), sep@),
{
    parts.iter().join(sep)
}

/// The texts in ascending order are the same texts, as many as before.
pub proof fn lemma_sorted_same(s: Seq<Seq<char>>)
    ensures
        s.sort_by(by_text()).len() == s.len(),
        forall|x: Seq<char>| s.sort_by(by_text()).contains(x) <==> s.contains(x),
{
    broadcast use vstd::seq_lib::group_to_multiset_ensures;

    lemma_by_text_total();
    s.lemma_sort_by_ensures(by_text());
    let sorted = s.sort_by(by_text());
    assert(sorted.to_multiset().len() == s.to_multiset().len());
    assert forall|x: Seq<char>| sorted.contains(x) <==> s.contains(x) by {
        assert(sorted.to_multiset().count(x) == s.to_multiset().count(x));
    }
}

/// The texts in ascending order.
pub fn sort_texts(texts: Vec<Vec<char>>) -> (r: Vec<Vec<char>>)
    ensures
        views(r@) == views(texts@).sort_by(by_text()),
{
    let ghost before = views(texts@);
    let r = sorted_texts(texts);
    proof {
        lemma_by_text_total();
        before.lemma_sort_by_ensures(by_text());
        vstd::seq_lib::lemma_sorted_unique(views(r@), before.sort_by(by_text()), by_text());
    }
    r
}

/// The texts in ascending order, joined into one string with `sep`
/// between every two of them.
pub fn list_sorted(texts: Vec<Vec<char>>, sep: &str) -> (r: String)
    ensures
        r@ == glued(views(texts@).sort_by(by_text()), sep@),
{
    let sorted = sort_texts(texts);
    let mut strings: Vec<String> = Vec::new();
    let mut j: usize = 0;
    while j < sorted.len()
        invariant
            j <= sorted.len(),
            strings.len() == j,
            forall|k: int| 0 <= k < j ==> (#[trigger] strings[k])@ == sorted[k]@,
        decreases sorted.len() - j,
    {
        strings.push(string_from_chars(&sorted[j]));
        j = j + 1;
    }
    proof {
        assert(string_views(strings@) =~= views(sorted@));
    }
    join_strings(&strings, sep)
}

} // verus!
