//! Text as sequences of characters: lines, trimming and decimal numbers.

use vstd::prelude::*;

verus! {

/// The characters of a string slice, in order.
pub fn chars_of(s: &str) -> (v: Vec<char>)
    ensures
        v@ == s@,
{
    let mut v: Vec<char> = Vec::new();
    let chars = s.chars();
    for c in it: chars
        invariant
            it.seq() == s@,
            v@ == it.seq().take(it.index()),
    {
        v.push(c);
    }
    v
}

/// The views of a sequence of character vectors.
pub open spec fn views(v: Seq<Vec<char>>) -> Seq<Seq<char>> {
    Seq::new(v.len(), |i: int| v[i]@)
}

/// The first position at or after `from` that holds a line feed, or the
/// length of the text where there is none.
pub open spec fn next_break(s: Seq<char>, from: int) -> int
    decreases s.len() - from,
{
    if from < 0 || from >= s.len() || s[from] == '\n' {
        from
    } else {
        next_break(s, from + 1)
    }
}

/// A line without the carriage return that may end it.
pub open spec fn strip_cr(line: Seq<char>) -> Seq<char> {
    if line.len() > 0 && line.last() == '\r' {
        line.drop_last()
    } else {
        line
    }
}

/// The lines of the text that starts at position `from`.
pub open spec fn lines_from(s: Seq<char>, from: int) -> Seq<Seq<char>>
    decreases s.len() - from,
{
    if from < 0 || from >= s.len() {
        Seq::empty()
    } else {
        let end = next_break(s, from);
        if from <= end < s.len() {
            seq![strip_cr(s.subrange(from, end))] + lines_from(s, end + 1)
        } else {
            seq![strip_cr(s.subrange(from, s.len() as int))]
        }
    }
}

/// The lines of a text. Lines end at a line feed; a carriage return before
/// it is not part of the line, and a final line feed opens no further line.
pub open spec fn split_lines(s: Seq<char>) -> Seq<Seq<char>> {
    lines_from(s, 0)
}

/// The next line feed lies between `from` and the end of the text.
pub proof fn lemma_next_break_bounds(s: Seq<char>, from: int)
    requires
        0 <= from <= s.len(),
    ensures
        from <= next_break(s, from) <= s.len(),
        forall|j: int| from <= j < next_break(s, from) ==> s[j] != '\n',
        next_break(s, from) < s.len() ==> s[next_break(s, from)] == '\n',
    decreases s.len() - from,
{
    if from < s.len() && s[from] != '\n' {
        lemma_next_break_bounds(s, from + 1);
    }
}

/// The part of `v` between two positions, as a vector of its own.
pub fn slice_of(v: &Vec<char>, from: usize, to: usize) -> (r: Vec<char>)
    requires
        from <= to <= v.len(),
    ensures
        r@ == v@.subrange(from as int, to as int),
{
    let mut r: Vec<char> = Vec::new();
    let mut i: usize = from;
    while i < to
        invariant
            from <= i <= to <= v.len(),
            r@ == v@.subrange(from as int, i as int),
        decreases to - i,
    {
        r.push(v[i]);
        i = i + 1;
    }
    r
}

/// Splits a text into its lines.
pub fn lines(v: &Vec<char>) -> (r: Vec<Vec<char>>)
    ensures
        views(r@) == split_lines(v@),
{
    let mut r: Vec<Vec<char>> = Vec::new();
    let mut pos: usize = 0;
    while pos < v.len()
        invariant
            pos <= v.len(),
            split_lines(v@) == views(r@) + lines_from(v@, pos as int),
        decreases v.len() - pos,
    {
        let mut end: usize = pos;
        while end < v.len() && v[end] != '\n'
            invariant
                pos <= end <= v.len(),
                next_break(v@, end as int) == next_break(v@, pos as int),
            decreases v.len() - end,
        {
            end = end + 1;
        }
        let stop: usize = if end > pos && v[end - 1] == '\r' {
            end - 1
        } else {
            end
        };
        let line = slice_of(v, pos, stop);
        proof {
            let whole = v@.subrange(pos as int, end as int);
            assert(line@ == strip_cr(whole)) by {
                if end > pos && v[end - 1] == '\r' {
                    assert(whole.last() == '\r');
                    assert(whole.drop_last() =~= line@);
                }
            }
            lemma_next_break_bounds(v@, pos as int);
            assert(views(r@.push(line)) =~= views(r@) + seq![line@]);
        }
        r.push(line);
        pos = if end < v.len() {
            end + 1
        } else {
            end
        };
    }
    r
}

/// White space in the ASCII range.
pub open spec fn is_space(c: char) -> bool {
    c == ' ' || c == '\t' || c == '\n' || c == '\r' || c == '\x0b' || c == '\x0c'
}

/// Whether `c` is white space in the ASCII range.
pub fn is_space_char(c: char) -> (b: bool)
    ensures
        b == is_space(c),
{
    c == ' ' || c == '\t' || c == '\n' || c == '\r' || c == '\x0b' || c == '\x0c'
}

/// The first position at or after `from` that holds no white space.
pub open spec fn skip_spaces(s: Seq<char>, from: int) -> int
    decreases s.len() - from,
{
    if from < 0 || from >= s.len() || !is_space(s[from]) {
        from
    } else {
        skip_spaces(s, from + 1)
    }
}

/// The end of the text before `to` once trailing white space is left off.
pub open spec fn text_end(s: Seq<char>, to: int) -> int
    decreases to,
{
    if to <= 0 || to > s.len() || !is_space(s[to - 1]) {
        to
    } else {
        text_end(s, to - 1)
    }
}

/// The text without leading and trailing white space.
pub open spec fn trimmed(s: Seq<char>) -> Seq<char> {
    let to = text_end(s, s.len() as int);
    let from = skip_spaces(s, 0);
    if from >= to {
        Seq::empty()
    } else {
        s.subrange(from, to)
    }
}

/// Removes leading and trailing white space.
pub fn trim(v: &Vec<char>) -> (r: Vec<char>)
    ensures
        r@ == trimmed(v@),
{
    let mut to: usize = v.len();
    while to > 0 && is_space_char(v[to - 1])
        invariant
            to <= v.len(),
            text_end(v@, to as int) == text_end(v@, v.len() as int),
        decreases to,
    {
        to = to - 1;
    }
    let mut from: usize = 0;
    while from < to && is_space_char(v[from])
        invariant
            from <= to <= v.len(),
            skip_spaces(v@, from as int) == skip_spaces(v@, 0),
            to == 0 || !is_space(v@[to - 1]),
        decreases to - from,
    {
        from = from + 1;
    }
    proof {
        lemma_skip_spaces_bounds(v@, from as int);
    }
    if from >= to {
        Vec::new()
    } else {
        slice_of(v, from, to)
    }
}

/// Skipping white space moves forward and stays inside the text.
pub proof fn lemma_skip_spaces_bounds(s: Seq<char>, from: int)
    requires
        0 <= from <= s.len(),
    ensures
        from <= skip_spaces(s, from) <= s.len(),
    decreases s.len() - from,
{
    if from < s.len() && is_space(s[from]) {
        lemma_skip_spaces_bounds(s, from + 1);
    }
}

/// Whether `c` is one of the ten decimal digits.
pub open spec fn is_digit(c: char) -> bool {
    '0' <= c <= '9'
}

/// The value of a decimal digit.
pub open spec fn digit_value(c: char) -> nat {
    (c as u32 - '0' as u32) as nat
}

/// Whether every character of `s` is a decimal digit.
pub open spec fn all_digits(s: Seq<char>) -> bool {
    forall|i: int| 0 <= i < s.len() ==> is_digit(#[trigger] s[i])
}

/// The number that a sequence of decimal digits denotes.
pub open spec fn decimal_value(s: Seq<char>) -> nat
    decreases s.len(),
{
    if s.len() == 0 {
        0
    } else {
        10 * decimal_value(s.drop_last()) + digit_value(s.last())
    }
}

/// A longer digit sequence never denotes a smaller number than its prefix.
pub proof fn lemma_decimal_value_monotone(s: Seq<char>, k: int)
    requires
        0 <= k <= s.len(),
    ensures
        decimal_value(s.take(k)) <= decimal_value(s),
    decreases s.len() - k,
{
    if k < s.len() {
        lemma_decimal_value_monotone(s.drop_last(), k);
        assert(s.drop_last().take(k) =~= s.take(k));
    } else {
        assert(s.take(k) =~= s);
    }
}

/// Whether `c` is a decimal digit.
pub fn is_digit_char(c: char) -> (b: bool)
    ensures
        b == is_digit(c),
{
    '0' <= c && c <= '9'
}

/// Reads an unsigned decimal number. The text must consist of at least one
/// digit and nothing else, and the number must fit.
pub fn parse_u128(v: &Vec<char>) -> (r: Option<u128>)
    ensures
        r is Some <==> (v@.len() > 0 && all_digits(v@) && decimal_value(v@) <= u128::MAX),
        r is Some ==> r->0 == decimal_value(v@),
{
    if v.len() == 0 {
        return None;
    }
    let mut acc: u128 = 0;
    let mut i: usize = 0;
    while i < v.len()
        invariant
            i <= v.len(),
            all_digits(v@.take(i as int)),
            acc == decimal_value(v@.take(i as int)),
        decreases v.len() - i,
    {
        let c = v[i];
        if !is_digit_char(c) {
            return None;
        }
        let d: u128 = (c as u32 - '0' as u32) as u128;
        proof {
            assert(v@.take(i + 1).drop_last() =~= v@.take(i as int));
            assert(v@.take(i + 1).last() == c);
            lemma_decimal_value_monotone(v@, i + 1);
        }
        let next = match acc.checked_mul(10) {
            Some(m) => m.checked_add(d),
            None => None,
        };
        match next {
            Some(n) => {
                acc = n;
            },
            None => {
                return None;
            },
        }
        i = i + 1;
    }
    proof {
        assert(v@.take(v.len() as int) =~= v@);
    }
    Some(acc)
}

/// The number that `s` denotes, if `s` consists of decimal digits, at
/// least one, and the number is at most `max`.
pub open spec fn number_up_to(s: Seq<char>, max: nat) -> Option<nat> {
    if s.len() > 0 && all_digits(s) && decimal_value(s) <= max {
        Some(decimal_value(s))
    } else {
        None
    }
}

/// Reads an unsigned decimal number that is at most `max`.
pub fn parse_up_to(v: &Vec<char>, max: u128) -> (r: Option<u128>)
    ensures
        r is Some <==> number_up_to(v@, max as nat) is Some,
        r is Some ==> r->0 == number_up_to(v@, max as nat)->0,
        r is Some ==> r->0 <= max,
{
    match parse_u128(v) {
        Some(n) => if n <= max {
            Some(n)
        } else {
            None
        },
        None => None,
    }
}

/// The whole number that `s` denotes: decimal digits, at least one, with
/// or without a sign in front, for a number from `-limit - 1` to `limit`.
pub open spec fn integer_of(s: Seq<char>, limit: nat) -> Option<int> {
    if s.len() > 0 && s[0] == '-' {
        match number_up_to(s.skip(1), limit + 1) {
            Some(n) => Some(-(n as int)),
            None => None,
        }
    } else if s.len() > 0 && s[0] == '+' {
        match number_up_to(s.skip(1), limit) {
            Some(n) => Some(n as int),
            None => None,
        }
    } else {
        match number_up_to(s, limit) {
            Some(n) => Some(n as int),
            None => None,
        }
    }
}

/// Reads a whole number that fits 128 bits with a sign.
pub fn parse_i128(v: &Vec<char>) -> (r: Option<i128>)
    ensures
        match r {
            Some(n) => integer_of(v@, i128::MAX as nat) == Some(n as int),
            None => integer_of(v@, i128::MAX as nat) is None,
        },
{
    if v.len() > 0 && v[0] == '-' {
        let rest = slice_of(v, 1, v.len());
        match parse_up_to(&rest, i128::MAX as u128 + 1) {
            Some(n) => if n == i128::MAX as u128 + 1 {
                Some(i128::MIN)
            } else {
                Some(-(n as i128))
            },
            None => None,
        }
    } else if v.len() > 0 && v[0] == '+' {
        let rest = slice_of(v, 1, v.len());
        match parse_up_to(&rest, i128::MAX as u128) {
            Some(n) => Some(n as i128),
            None => None,
        }
    } else {
        match parse_up_to(v, i128::MAX as u128) {
            Some(n) => Some(n as i128),
            None => None,
        }
    }
}

/// The first position at or after `from` that holds `sep`, or the length
/// of the text where there is none.
pub open spec fn next_sep(s: Seq<char>, sep: char, from: int) -> int
    decreases s.len() - from,
{
    if from < 0 || from >= s.len() || s[from] == sep {
        from
    } else {
        next_sep(s, sep, from + 1)
    }
}

/// The parts of the text from position `from` on that `sep` separates.
pub open spec fn split_from(s: Seq<char>, sep: char, from: int) -> Seq<Seq<char>>
    decreases s.len() - from,
{
    let end = next_sep(s, sep, from);
    if 0 <= from <= end < s.len() {
        seq![s.subrange(from, end)] + split_from(s, sep, end + 1)
    } else if 0 <= from <= s.len() {
        seq![s.subrange(from, s.len() as int)]
    } else {
        Seq::empty()
    }
}

/// The parts of a text that the character `sep` separates. A text without
/// `sep` is one part; a text that ends in `sep` has an empty last part.
pub open spec fn split_seq(s: Seq<char>, sep: char) -> Seq<Seq<char>> {
    split_from(s, sep, 0)
}

/// The next separator lies between `from` and the end of the text.
pub proof fn lemma_next_sep_bounds(s: Seq<char>, sep: char, from: int)
    requires
        0 <= from <= s.len(),
    ensures
        from <= next_sep(s, sep, from) <= s.len(),
        forall|j: int| from <= j < next_sep(s, sep, from) ==> s[j] != sep,
        next_sep(s, sep, from) < s.len() ==> s[next_sep(s, sep, from)] == sep,
    decreases s.len() - from,
{
    if from < s.len() && s[from] != sep {
        lemma_next_sep_bounds(s, sep, from + 1);
    }
}

/// Splits a text at every occurrence of `sep`.
pub fn split_on(v: &Vec<char>, sep: char) -> (r: Vec<Vec<char>>)
    ensures
        views(r@) == split_seq(v@, sep),
        r.len() >= 1,
{
    let mut r: Vec<Vec<char>> = Vec::new();
    let mut pos: usize = 0;
    loop
        invariant_except_break
            pos <= v.len(),
            split_seq(v@, sep) == views(r@) + split_from(v@, sep, pos as int),
        ensures
            views(r@) == split_seq(v@, sep),
            r.len() >= 1,
        decreases v.len() - pos,
    {
        let mut end: usize = pos;
        while end < v.len() && v[end] != sep
            invariant
                pos <= end <= v.len(),
                next_sep(v@, sep, end as int) == next_sep(v@, sep, pos as int),
            decreases v.len() - end,
        {
            end = end + 1;
        }
        let part = slice_of(v, pos, end);
        proof {
            assert(views(r@.push(part)) =~= views(r@) + seq![part@]);
            lemma_next_sep_bounds(v@, sep, pos as int);
        }
        r.push(part);
        if end < v.len() {
            pos = end + 1;
        } else {
            break;
        }
    }
    r
}

/// The first position at or after `from` where an empty line begins: where
/// two line feeds follow each other. The length of the text where there
/// is none.
pub open spec fn next_gap(s: Seq<char>, from: int) -> int
    decreases s.len() - from,
{
    if from < 0 || from >= s.len() {
        s.len() as int
    } else if from + 1 < s.len() && s[from] == '\n' && s[from + 1] == '\n' {
        from
    } else {
        next_gap(s, from + 1)
    }
}

/// The blocks of the text from position `from` on that empty lines
/// separate.
pub open spec fn blocks_from(s: Seq<char>, from: int) -> Seq<Seq<char>>
    decreases s.len() - from,
{
    let end = next_gap(s, from);
    if 0 <= from <= end && end + 1 < s.len() {
        seq![s.subrange(from, end)] + blocks_from(s, end + 2)
    } else if 0 <= from <= s.len() {
        seq![s.subrange(from, s.len() as int)]
    } else {
        Seq::empty()
    }
}

/// The blocks of a text: the parts between two line feeds that follow each
/// other. A text without such a pair is one block.
pub open spec fn split_blocks(s: Seq<char>) -> Seq<Seq<char>> {
    blocks_from(s, 0)
}

/// Splits a text wherever two line feeds follow each other.
pub fn blocks(v: &Vec<char>) -> (r: Vec<Vec<char>>)
    ensures
        views(r@) == split_blocks(v@),
        r.len() >= 1,
{
    let mut r: Vec<Vec<char>> = Vec::new();
    let mut pos: usize = 0;
    loop
        invariant_except_break
            pos <= v.len(),
            split_blocks(v@) == views(r@) + blocks_from(v@, pos as int),
        ensures
            views(r@) == split_blocks(v@),
            r.len() >= 1,
        decreases v.len() - pos,
    {
        let mut end: usize = pos;
        while end < v.len() && !(end + 1 < v.len() && v[end] == '\n' && v[end + 1] == '\n')
            invariant
                pos <= end <= v.len(),
                next_gap(v@, end as int) == next_gap(v@, pos as int),
            decreases v.len() - end,
        {
            end = end + 1;
        }
        let part = slice_of(v, pos, end);
        proof {
            assert(views(r@.push(part)) =~= views(r@) + seq![part@]);
        }
        r.push(part);
        if end < v.len() {
            pos = end + 2;
        } else {
            break;
        }
    }
    r
}

/// The first position at or after `from` that holds white space, or the
/// length of the text where there is none.
pub open spec fn next_space(s: Seq<char>, from: int) -> int
    decreases s.len() - from,
{
    if from < 0 || from >= s.len() || is_space(s[from]) {
        from
    } else {
        next_space(s, from + 1)
    }
}

/// The words of the text from position `from` on.
pub open spec fn words_from(s: Seq<char>, from: int) -> Seq<Seq<char>>
    decreases s.len() - from,
{
    let start = skip_spaces(s, from);
    let end = next_space(s, start);
    if 0 <= from <= start < end <= s.len() {
        seq![s.subrange(start, end)] + words_from(s, end)
    } else {
        Seq::empty()
    }
}

/// The words of a text: its longest parts without white space.
pub open spec fn split_words(s: Seq<char>) -> Seq<Seq<char>> {
    words_from(s, 0)
}

/// Splits a text into its words.
pub fn words(v: &Vec<char>) -> (r: Vec<Vec<char>>)
    ensures
        views(r@) == split_words(v@),
{
    let mut r: Vec<Vec<char>> = Vec::new();
    let mut pos: usize = 0;
    loop
        invariant_except_break
            pos <= v.len(),
            split_words(v@) == views(r@) + words_from(v@, pos as int),
        ensures
            views(r@) == split_words(v@),
        decreases v.len() - pos,
    {
        let mut start: usize = pos;
        while start < v.len() && is_space_char(v[start])
            invariant
                pos <= start <= v.len(),
                skip_spaces(v@, start as int) == skip_spaces(v@, pos as int),
            decreases v.len() - start,
        {
            start = start + 1;
        }
        if start >= v.len() {
            proof {
                assert(next_space(v@, start as int) == start);
                assert(views(r@) + Seq::<Seq<char>>::empty() =~= views(r@));
            }
            break;
        }
        let mut end: usize = start + 1;
        proof {
            assert(next_space(v@, start as int) == next_space(v@, start + 1));
        }
        while end < v.len() && !is_space_char(v[end])
            invariant
                start < end <= v.len(),
                next_space(v@, end as int) == next_space(v@, start as int),
            decreases v.len() - end,
        {
            end = end + 1;
        }
        let part = slice_of(v, start, end);
        proof {
            assert(views(r@.push(part)) =~= views(r@) + seq![part@]);
        }
        r.push(part);
        pos = end;
    }
    r
}

/// The first position at or after `from` that holds the character `a`
/// with the character `b` behind it, or the length of the text where
/// there is none.
pub open spec fn next_pair(s: Seq<char>, a: char, b: char, from: int) -> int
    decreases s.len() - from,
{
    if from < 0 || from >= s.len() {
        s.len() as int
    } else if from + 1 < s.len() && s[from] == a && s[from + 1] == b {
        from
    } else {
        next_pair(s, a, b, from + 1)
    }
}

/// The first position that holds the character `a` with the character `b`
/// behind it, or the length of the text where there is none.
pub fn find_pair(v: &Vec<char>, a: char, b: char) -> (r: usize)
    ensures
        r == next_pair(v@, a, b, 0),
        r <= v.len(),
        r < v.len() ==> r + 1 < v.len() && v[r as int] == a && v[r + 1] == b,
{
    let mut at: usize = 0;
    while at < v.len() && !(at + 1 < v.len() && v[at] == a && v[at + 1] == b)
        invariant
            at <= v.len(),
            next_pair(v@, a, b, at as int) == next_pair(v@, a, b, 0),
        decreases v.len() - at,
    {
        at = at + 1;
    }
    at
}

/// The first position that holds the character `c`, or the length of the
/// text where there is none.
pub fn find_char(v: &Vec<char>, c: char) -> (r: usize)
    ensures
        r == next_sep(v@, c, 0),
        r <= v.len(),
        r < v.len() ==> v[r as int] == c,
{
    let mut at: usize = 0;
    while at < v.len() && v[at] != c
        invariant
            at <= v.len(),
            next_sep(v@, c, at as int) == next_sep(v@, c, 0),
        decreases v.len() - at,
    {
        at = at + 1;
    }
    at
}

/// Whether the text `s` begins with `prefix`.
pub open spec fn has_prefix(s: Seq<char>, prefix: Seq<char>) -> bool {
    prefix.len() <= s.len() && s.take(prefix.len() as int) == prefix
}

/// What follows `prefix` in `v`, if `v` begins with it.
pub fn strip_prefix(v: &Vec<char>, prefix: &str) -> (r: Option<Vec<char>>)
    ensures
        match r {
            Some(rest) => has_prefix(v@, prefix@) && rest@ == v@.skip(prefix@.len() as int),
            None => !has_prefix(v@, prefix@),
        },
{
    let p = chars_of(prefix);
    if p.len() > v.len() {
        return None;
    }
    let mut i: usize = 0;
    while i < p.len()
        invariant
            i <= p.len() <= v.len(),
            p@ == prefix@,
            v@.take(i as int) == p@.take(i as int),
        decreases p.len() - i,
    {
        if v[i] != p[i] {
            proof {
                if has_prefix(v@, prefix@) {
                    assert(v@.take(p.len() as int)[i as int] == p@[i as int]);
                }
            }
            return None;
        }
        proof {
            assert(v@.take(i + 1) =~= v@.take(i as int).push(v@[i as int]));
            assert(p@.take(i + 1) =~= p@.take(i as int).push(p@[i as int]));
        }
        i = i + 1;
    }
    proof {
        assert(p@.take(p.len() as int) =~= p@);
    }
    Some(slice_of(v, p.len(), v.len()))
}

/// The character of a decimal digit.
pub open spec fn digit_char(d: nat) -> char {
    if d == 0 {
        '0'
    } else if d == 1 {
        '1'
    } else if d == 2 {
        '2'
    } else if d == 3 {
        '3'
    } else if d == 4 {
        '4'
    } else if d == 5 {
        '5'
    } else if d == 6 {
        '6'
    } else if d == 7 {
        '7'
    } else if d == 8 {
        '8'
    } else {
        '9'
    }
}

/// A number in decimal digits, without leading zeros.
pub open spec fn decimal_digits(n: nat) -> Seq<char>
    decreases n,
{
    if n < 10 {
        seq![digit_char(n)]
    } else {
        decimal_digits(n / 10).push(digit_char(n % 10))
    }
}

/// The decimal digit `d` as a character.
pub fn digit_to_char(d: u8) -> (c: char)
    requires
        d < 10,
    ensures
        c == digit_char(d as nat),
{
    if d == 0 {
        '0'
    } else if d == 1 {
        '1'
    } else if d == 2 {
        '2'
    } else if d == 3 {
        '3'
    } else if d == 4 {
        '4'
    } else if d == 5 {
        '5'
    } else if d == 6 {
        '6'
    } else if d == 7 {
        '7'
    } else if d == 8 {
        '8'
    } else {
        '9'
    }
}

/// Writes a number in decimal digits.
pub fn format_u128(n: u128) -> (r: Vec<char>)
    ensures
        r@ == decimal_digits(n as nat),
    decreases n,
{
    if n < 10 {
        let mut r: Vec<char> = Vec::new();
        r.push(digit_to_char(n as u8));
        r
    } else {
        let mut r = format_u128(n / 10);
        r.push(digit_to_char((n % 10) as u8));
        r
    }
}

/// The parts joined into one text, with `sep` between every two of them.
pub open spec fn joined(parts: Seq<Seq<char>>, sep: char) -> Seq<char>
    decreases parts.len(),
{
    if parts.len() == 0 {
        Seq::empty()
    } else if parts.len() == 1 {
        parts[0]
    } else {
        joined(parts.drop_last(), sep).push(sep) + parts.last()
    }
}

/// Joins the parts into one text, with `sep` between every two of them.
pub fn join(parts: &Vec<Vec<char>>, sep: char) -> (r: Vec<char>)
    ensures
        r@ == joined(views(parts@), sep),
{
    let mut r: Vec<char> = Vec::new();
    let mut i: usize = 0;
    while i < parts.len()
        invariant
            i <= parts.len(),
            r@ == joined(views(parts@).take(i as int), sep),
        decreases parts.len() - i,
    {
        proof {
            assert(views(parts@).take(i + 1).drop_last() =~= views(parts@).take(i as int));
            assert(views(parts@).take(i + 1).last() == parts[i as int]@);
        }
        if i > 0 {
            r.push(sep);
        }
        let part = &parts[i];
        let mut j: usize = 0;
        let ghost before = r@;
        while j < part.len()
            invariant
                j <= part.len(),
                r@ == before + part@.take(j as int),
            decreases part.len() - j,
        {
            r.push(part[j]);
            proof {
                assert(part@.take(j + 1) =~= part@.take(j as int).push(part@[j as int]));
            }
            j = j + 1;
        }
        proof {
            assert(part@.take(part.len() as int) =~= part@);
        }
        i = i + 1;
    }
    proof {
        assert(views(parts@).take(parts.len() as int) =~= views(parts@));
    }
    r
}

/// Appends the characters of `src` to `dst`.
pub fn append_chars(dst: &mut Vec<char>, src: &Vec<char>)
    ensures
        final(dst)@ == old(dst)@ + src@,
{
    let mut j: usize = 0;
    while j < src.len()
        invariant
            j <= src.len(),
            dst@ == old(dst)@ + src@.take(j as int),
        decreases src.len() - j,
    {
        dst.push(src[j]);
        proof {
            assert(src@.take(j + 1) =~= src@.take(j as int).push(src@[j as int]));
        }
        j = j + 1;
    }
    proof {
        assert(src@.take(src.len() as int) =~= src@);
    }
}

/// What follows the last occurrence of `sep` before position `to`, if
/// `sep` occurs there.
pub open spec fn tail_after(s: Seq<char>, sep: char, to: int) -> Option<Seq<char>>
    decreases to,
{
    if to <= 0 || to > s.len() {
        None
    } else if s[to - 1] == sep {
        Some(s.skip(to))
    } else {
        tail_after(s, sep, to - 1)
    }
}

/// What follows the last occurrence of `sep` in `v`, if `sep` occurs.
pub fn after_last(v: &Vec<char>, sep: char) -> (r: Option<Vec<char>>)
    ensures
        match r {
            Some(tail) => tail_after(v@, sep, v@.len() as int) == Some(tail@),
            None => tail_after(v@, sep, v@.len() as int) is None,
        },
{
    let mut to: usize = v.len();
    while to > 0 && v[to - 1] != sep
        invariant
            to <= v.len(),
            tail_after(v@, sep, to as int) == tail_after(v@, sep, v@.len() as int),
        decreases to,
    {
        to = to - 1;
    }
    if to == 0 {
        None
    } else {
        Some(slice_of(v, to, v.len()))
    }
}

/// A string of the given characters. The body hands the characters to
/// `String::from_iter` of the standard library, which makes the string
/// that holds them in their order; the contract says so and nothing more.
#[verifier::external_body]
pub(crate) fn string_from_chars(v: &Vec<char>) -> (s: String)
    ensures
        s@ == v@,
{
    String::from_iter(v.iter())
}

} // verus!
