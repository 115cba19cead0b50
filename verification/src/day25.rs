//! Locks and keys, drawn as columns of pins, and the pairs that fit.

use crate::util::text::blocks;
use crate::util::text::chars_of;
use crate::util::text::lines;
use crate::util::text::split_blocks;
use crate::util::text::split_lines;
use crate::util::text::trim;
use crate::util::text::trimmed;
use crate::util::text::views;
use vstd::pervasive::unreached;
use vstd::prelude::*;

verus! {

/// The drawing of a lock or a key: its text, the height of its five pins,
/// and whether its first row is filled.
#[derive(Debug, PartialEq, Eq, Hash)]
pub struct KeyLockSchema {
    pub raw: Vec<char>,
    pub pins: [u8; 5],
    pub is_key: bool,
}

/// The rows of a drawing: the lines of the text without the white space
/// around it, each without the white space around it.
pub open spec fn rows_of(text: Seq<char>) -> Seq<Seq<char>> {
    let ls = split_lines(trimmed(text));
    Seq::new(ls.len(), |i: int| trimmed(ls[i]))
}

/// The character that the pins of a drawing are counted by: the first
/// character of its first row.
pub open spec fn reference_of(rows: Seq<Seq<char>>) -> char {
    rows[0][0]
}

/// The number of the rows after the first, up to row `upto`, that hold
/// the character `c` in column `idx`.
pub open spec fn marks(rows: Seq<Seq<char>>, c: char, idx: int, upto: int) -> nat
    decreases upto,
{
    if upto <= 1 {
        0
    } else {
        marks(rows, c, idx, upto - 1) + if idx < rows[upto - 1].len() && rows[upto - 1][idx] == c {
            1nat
        } else {
            0nat
        }
    }
}

/// Whether rows are a drawing: there is a first row and it is not empty,
/// there are at most six more rows, and no row after the first is wider
/// than five columns.
pub open spec fn drawing(rows: Seq<Seq<char>>) -> bool {
    &&& 1 <= rows.len() <= 7
    &&& rows[0].len() >= 1
    &&& forall|i: int| 1 <= i < rows.len() ==> (#[trigger] rows[i]).len() <= 5
}

/// The height of the pin in column `idx`: where the first row is filled
/// with `#`, one more than the number of rows below it that hold `#` in
/// the column; else six less the number of rows below the first that hold
/// the character of the first row in the column.
pub open spec fn pin_of(rows: Seq<Seq<char>>, idx: int) -> int {
    height(
        reference_of(rows) == '#',
        marks(rows, reference_of(rows), idx, rows.len() as int),
    )
}

/// The height of a pin with `n` marks: one more than `n` where the first
/// row is filled, else six less `n`.
pub open spec fn height(filled: bool, n: nat) -> int {
    if filled {
        n + 1int
    } else {
        6int - n
    }
}

/// The number of marks never exceeds the number of rows looked at.
pub proof fn lemma_marks_bound(rows: Seq<Seq<char>>, c: char, idx: int, upto: int)
    requires
        upto >= 1,
    ensures
        marks(rows, c, idx, upto) <= upto - 1,
    decreases upto,
{
    if upto > 1 {
        lemma_marks_bound(rows, c, idx, upto - 1);
    }
}

impl KeyLockSchema {
    /// Whether the schema is the drawing that `text` holds.
    pub open spec fn drawn_by(&self, text: Seq<char>) -> bool {
        &&& self.raw@ == text
        &&& self.is_key == (reference_of(rows_of(text)) == '#')
        &&& forall|idx: int| 0 <= idx < 5 ==> #[trigger] self.pins[idx] == pin_of(rows_of(text), idx)
    }

    /// Reads a drawing, unless the text holds none.
    pub fn parse(value: &Vec<char>) -> (r: Option<KeyLockSchema>)
        ensures
            match r {
                Some(s) => drawing(rows_of(value@)) && s.drawn_by(value@),
                None => !drawing(rows_of(value@)),
            },
    {
        let body = trim(value);
        let ls = lines(&body);
        let ghost rows = rows_of(value@);
        if ls.len() < 1 || ls.len() > 7 {
            return None;
        }
        proof {
            assert(views(ls@)[0] == ls[0]@);
        }
        let first = trim(&ls[0]);
        if first.len() < 1 {
            return None;
        }
        let reference: char = first[0];
        let is_key = reference == '#';
        let mut pins: [u8; 5] = if is_key {
            [1u8; 5]
        } else {
            [6u8; 5]
        };
        let mut y: usize = 1;
        while y < ls.len()
            invariant
                1 <= y <= ls.len() <= 7,
                rows == rows_of(value@),
                views(ls@) == split_lines(trimmed(value@)),
                reference == reference_of(rows),
                is_key == (reference == '#'),
                forall|i: int| 1 <= i < y ==> (#[trigger] rows[i]).len() <= 5,
                forall|idx: int|
                    0 <= idx < 5 ==> #[trigger] pins[idx] == height(
                        is_key,
                        marks(rows, reference, idx, y as int),
                    ),
            decreases ls.len() - y,
        {
            proof {
                assert(views(ls@)[y as int] == ls[y as int]@);
            }
            let row = trim(&ls[y]);
            proof {
                assert(rows.len() == ls.len());
                assert(rows[y as int] == row@);
            }
            if row.len() > 5 {
                return None;
            }
            let mut idx: usize = 0;
            while idx < 5
                invariant
                    idx <= 5,
                    1 <= y < ls.len() <= 7,
                    row@ == rows[y as int],
                    row.len() <= 5,
                    forall|k: int|
                        0 <= k < 5 ==> #[trigger] pins[k] == height(
                            is_key,
                            marks(rows, reference, k, if k < idx {
                                y + 1
                            } else {
                                y as int
                            }),
                        ),
                decreases 5 - idx,
            {
                proof {
                    lemma_marks_bound(rows, reference, idx as int, y as int);
                }
                if idx < row.len() && row[idx] == reference {
                    if is_key {
                        pins[idx] = pins[idx] + 1;
                    } else {
                        pins[idx] = pins[idx] - 1;
                    }
                }
                idx = idx + 1;
            }
            y = y + 1;
        }
        Some(KeyLockSchema { raw: value.clone(), pins, is_key })
    }

    /// Reads a drawing. The text must hold one.
    pub fn from(value: &str) -> (r: KeyLockSchema)
        requires
            drawing(rows_of(value@)),
        ensures
            r.drawn_by(value@),
    {
        let chars = chars_of(value);
        match KeyLockSchema::parse(&chars) {
            Some(s) => s,
            None => unreached(),
        }
    }

    /// Whether the two go together: one has its first row filled and the
    /// other has not, and in no column the two pins are higher than seven
    /// together.
    pub open spec fn fits_spec(&self, o: &KeyLockSchema) -> bool {
        self.is_key != o.is_key && forall|idx: int|
            0 <= idx < 5 ==> #[trigger] self.pins[idx] + o.pins[idx] <= 7
    }

    /// Whether the two go together.
    pub fn fits(&self, o: &KeyLockSchema) -> (b: bool)
        ensures
            b == self.fits_spec(o),
    {
        if self.is_key == o.is_key {
            return false;
        }
        let mut idx: usize = 0;
        while idx < 5
            invariant
                idx <= 5,
                forall|k: int| 0 <= k < idx ==> #[trigger] self.pins[k] + o.pins[k] <= 7,
            decreases 5 - idx,
        {
            let together: u16 = self.pins[idx] as u16 + o.pins[idx] as u16;
            if together > 7 {
                return false;
            }
            idx = idx + 1;
        }
        true
    }
}

/// Whether the drawings that two texts hold go together.
pub open spec fn texts_fit(a: Seq<char>, b: Seq<char>) -> bool {
    (reference_of(rows_of(a)) == '#') != (reference_of(rows_of(b)) == '#') && forall|idx: int|
        0 <= idx < 5 ==> #[trigger] pin_of(rows_of(a), idx) + pin_of(rows_of(b), idx) <= 7
}

/// Two schemas go together where the drawings that they were read from
/// do.
pub proof fn lemma_fits_texts(a: KeyLockSchema, ta: Seq<char>, b: KeyLockSchema, tb: Seq<char>)
    requires
        a.drawn_by(ta),
        b.drawn_by(tb),
    ensures
        a.fits_spec(&b) == texts_fit(ta, tb),
{
    if a.fits_spec(&b) {
        assert forall|idx: int| 0 <= idx < 5 implies #[trigger] pin_of(rows_of(ta), idx) + pin_of(
            rows_of(tb),
            idx,
        ) <= 7 by {
            assert(a.pins[idx] + b.pins[idx] <= 7);
        }
    }
    if texts_fit(ta, tb) {
        assert forall|idx: int| 0 <= idx < 5 implies #[trigger] a.pins[idx] + b.pins[idx] <= 7 by {
            assert(pin_of(rows_of(ta), idx) + pin_of(rows_of(tb), idx) <= 7);
        }
    }
}

/// The texts of a list without those that occurred before in it.
pub open spec fn firsts(texts: Seq<Seq<char>>) -> Seq<Seq<char>>
    decreases texts.len(),
{
    if texts.len() == 0 {
        Seq::empty()
    } else if firsts(texts.drop_last()).contains(texts.last()) {
        firsts(texts.drop_last())
    } else {
        firsts(texts.drop_last()).push(texts.last())
    }
}

/// The number of the texts of `among` whose drawing goes together with
/// the drawing of `text`.
pub open spec fn fitting(text: Seq<char>, among: Seq<Seq<char>>) -> nat
    decreases among.len(),
{
    if among.len() == 0 {
        0
    } else {
        fitting(text, among.drop_last()) + if texts_fit(text, among.last()) {
            1nat
        } else {
            0nat
        }
    }
}

/// The number of pairs of a drawing and a different drawing before it in
/// the list that go together, where a drawing that occurs again counts
/// as a partner only once.
pub open spec fn fitting_pairs(texts: Seq<Seq<char>>) -> nat
    decreases texts.len(),
{
    if texts.len() == 0 {
        0
    } else {
        fitting_pairs(texts.drop_last()) + fitting(texts.last(), firsts(texts.drop_last()))
    }
}

/// Whether two vectors hold the same characters.
pub fn same_chars(a: &Vec<char>, b: &Vec<char>) -> (r: bool)
    ensures
        r == (a@ == b@),
{
    if a.len() != b.len() {
        return false;
    }
    let mut i: usize = 0;
    while i < a.len()
        invariant
            i <= a.len(),
            a.len() == b.len(),
            forall|j: int| 0 <= j < i ==> a[j] == b[j],
        decreases a.len() - i,
    {
        if a[i] != b[i] {
            return false;
        }
        i = i + 1;
    }
    proof {
        assert(a@ =~= b@);
    }
    true
}

/// The texts that the schemas were drawn from.
pub open spec fn raws(schemas: Seq<KeyLockSchema>) -> Seq<Seq<char>> {
    Seq::new(schemas.len(), |i: int| schemas[i].raw@)
}

/// The number of pairs of a lock and a key that go together, among the
/// drawings that the text holds with empty lines between them. Every
/// block of the text must hold a drawing, and there must be fewer than
/// 65536 of them.
pub fn solve_day_25_part_01(input: &str) -> (r: u32)
    requires
        split_blocks(input@).len() < 65536,
        forall|i: int|
            0 <= i < split_blocks(input@).len() ==> drawing(
                rows_of(#[trigger] split_blocks(input@)[i]),
            ),
    ensures
        r == fitting_pairs(split_blocks(input@)),
{
    let chars = chars_of(input);
    let parts = blocks(&chars);
    let ghost texts = split_blocks(input@);
    let mut seen: Vec<KeyLockSchema> = Vec::new();
    let mut count: u32 = 0;
    let mut j: usize = 0;
    while j < parts.len()
        invariant
            j <= parts.len() < 65536,
            texts == split_blocks(input@),
            views(parts@) == texts,
            forall|i: int| 0 <= i < texts.len() ==> drawing(rows_of(#[trigger] texts[i])),
            raws(seen@) == firsts(texts.take(j as int)),
            forall|i: int| 0 <= i < seen.len() ==> (#[trigger] seen[i]).drawn_by(seen[i].raw@),
            seen.len() <= j,
            count == fitting_pairs(texts.take(j as int)),
            count <= j * 65536,
        decreases parts.len() - j,
    {
        proof {
            assert(texts.take(j + 1).drop_last() =~= texts.take(j as int));
            assert(texts.take(j + 1).last() == parts[j as int]@);
            assert(drawing(rows_of(texts[j as int])));
            assert(j * 65536 + 65536 <= 65536 * 65536) by (nonlinear_arith)
                requires
                    j < 65536,
            ;
        }
        let schema = match KeyLockSchema::parse(&parts[j]) {
            Some(s) => s,
            None => unreached(),
        };
        let mut found: bool = false;
        let mut fit: u32 = 0;
        let mut i: usize = 0;
        while i < seen.len()
            invariant
                i <= seen.len() <= j < 65536,
                j < parts.len(),
                schema.drawn_by(parts[j as int]@),
                forall|k: int| 0 <= k < seen.len() ==> (#[trigger] seen[k]).drawn_by(seen[k].raw@),
                fit == fitting(parts[j as int]@, raws(seen@).take(i as int)),
                fit <= i,
                found == raws(seen@).take(i as int).contains(parts[j as int]@),
            decreases seen.len() - i,
        {
            proof {
                assert(raws(seen@).take(i + 1).drop_last() =~= raws(seen@).take(i as int));
                assert(raws(seen@).take(i + 1).last() == seen[i as int].raw@);
                assert(seen[i as int].drawn_by(seen[i as int].raw@));
                crate::util::point::lemma_push_contains(
                    raws(seen@).take(i as int),
                    seen[i as int].raw@,
                    parts[j as int]@,
                );
                assert(raws(seen@).take(i + 1) =~= raws(seen@).take(i as int).push(
                    seen[i as int].raw@,
                ));
            }
            proof {
                lemma_fits_texts(schema, parts[j as int]@, seen[i as int], seen[i as int].raw@);
            }
            if schema.fits(&seen[i]) {
                fit = fit + 1;
            }
            if same_chars(&schema.raw, &seen[i].raw) {
                found = true;
            }
            i = i + 1;
        }
        proof {
            assert(raws(seen@).take(seen.len() as int) =~= raws(seen@));
        }
        count = count + fit;
        if !found {
            let ghost before = raws(seen@);
            seen.push(schema);
            proof {
                assert(raws(seen@) =~= before.push(parts[j as int]@));
            }
        }
        j = j + 1;
    }
    proof {
        assert(texts.take(parts.len() as int) =~= texts);
    }
    count
}

} // verus!
