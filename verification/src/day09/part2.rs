//! A disk that is compacted file by file: each file, from the last to the
//! first, moves once into the leftmost span of free space that holds it
//! whole, if that span lies before the file.

use crate::util::text::all_digits;
use crate::util::text::chars_of;
use crate::util::text::digit_value;
use crate::util::text::is_digit_char;
use vstd::pervasive::unreached;
use vstd::prelude::*;

verus! {

/// A span of free blocks.
#[derive(Debug, PartialEq, Eq, Clone, Copy, Structural)]
pub struct FreeBlock {
    pub start: usize,
    pub length: usize,
}

/// A file: its number and the span of blocks that it fills.
#[derive(Debug, PartialEq, Eq, Clone, Copy, Structural)]
pub struct File {
    pub id: usize,
    pub start: usize,
    pub length: usize,
}

impl FreeBlock {
    /// The free span of `length` blocks from block `start` on.
    pub fn new(start: usize, length: usize) -> (r: FreeBlock)
        ensures
            r == (FreeBlock { start, length }),
    {
        FreeBlock { start, length }
    }
}

impl File {
    /// The file with the number `id` in the `length` blocks from block
    /// `start` on.
    pub fn new(id: usize, start: usize, length: usize) -> (r: File)
        ensures
            r == (File { id, start, length }),
    {
        File { id, start, length }
    }
}

/// The files and the free spans of a disk, and the length of the text that
/// described it.
#[derive(Debug)]
pub struct Disk {
    pub files: Vec<File>,
    pub free_blocks: Vec<FreeBlock>,
    pub size: usize,
}

/// The files and the free spans of a disk as sequences.
pub ghost struct Layout {
    pub files: Seq<File>,
    pub frees: Seq<FreeBlock>,
}

/// The number of blocks that the first `k` digits of the text stand for.
pub open spec fn offset(text: Seq<char>, k: nat) -> nat
    decreases k,
{
    if k == 0 {
        0
    } else {
        offset(text, (k - 1) as nat) + digit_value(text[k - 1])
    }
}

/// The files that the first `k` digits of the text describe: every other
/// digit, from the first, is the length of a file.
pub open spec fn files_of(text: Seq<char>, k: nat) -> Seq<File>
    decreases k,
{
    if k == 0 {
        Seq::empty()
    } else if (k - 1) % 2 == 0 {
        files_of(text, (k - 1) as nat).push(
            File {
                id: ((k - 1) / 2) as usize,
                start: offset(text, (k - 1) as nat) as usize,
                length: digit_value(text[k - 1]) as usize,
            },
        )
    } else {
        files_of(text, (k - 1) as nat)
    }
}

/// The free spans that the first `k` digits of the text describe: every
/// other digit, from the second, is the length of a free span.
pub open spec fn frees_of(text: Seq<char>, k: nat) -> Seq<FreeBlock>
    decreases k,
{
    if k == 0 {
        Seq::empty()
    } else if (k - 1) % 2 == 0 {
        frees_of(text, (k - 1) as nat)
    } else {
        frees_of(text, (k - 1) as nat).push(
            FreeBlock {
                start: offset(text, (k - 1) as nat) as usize,
                length: digit_value(text[k - 1]) as usize,
            },
        )
    }
}

/// Whether the text describes a disk that this module can hold: digits
/// only, and few enough that the number of a block is a machine number.
pub open spec fn readable(text: Seq<char>) -> bool {
    all_digits(text) && 9 * text.len() <= usize::MAX
}

/// The disk that the text describes.
pub open spec fn layout_of(text: Seq<char>) -> Layout {
    Layout { files: files_of(text, text.len()), frees: frees_of(text, text.len()) }
}

/// The first of the free spans from `from` on that has room for `need`
/// blocks, or the number of spans where none has.
pub open spec fn first_fit(frees: Seq<FreeBlock>, need: nat, from: int) -> int
    decreases frees.len() - from,
{
    if from < 0 || from >= frees.len() {
        frees.len() as int
    } else if frees[from].length >= need {
        from
    } else {
        first_fit(frees, need, from + 1)
    }
}

/// The disk after file `i` has had its turn. It moves to the start of the
/// leftmost free span with room for it, which then begins behind it; it
/// stays where no span has room, or where that span lies behind the file.
/// The blocks that it leaves are not counted as free.
pub open spec fn placed(l: Layout, i: int) -> Layout {
    let file = l.files[i];
    let j = first_fit(l.frees, file.length as nat, 0);
    if j >= l.frees.len() || l.frees[j].start > file.start {
        l
    } else {
        Layout {
            files: l.files.update(
                i,
                File { id: file.id, start: l.frees[j].start, length: file.length },
            ),
            frees: l.frees.update(
                j,
                FreeBlock {
                    start: (l.frees[j].start + file.length) as usize,
                    length: (l.frees[j].length - file.length) as usize,
                },
            ),
        }
    }
}

/// The disk after the files from the last down to file `k` have had their
/// turn.
pub open spec fn settled(l: Layout, k: int) -> Layout
    decreases l.files.len() - k,
{
    if k < 0 || k >= l.files.len() {
        l
    } else {
        placed(settled(l, k + 1), k)
    }
}

/// The sum, over the first `n` blocks of a file, of the number of the
/// block times the number of the file.
pub open spec fn span_sum(file: File, n: nat) -> nat
    decreases n,
{
    if n == 0 {
        0
    } else {
        span_sum(file, (n - 1) as nat) + ((file.start + n - 1) * file.id) as nat
    }
}

/// The checksum of the first `k` files.
pub open spec fn files_sum(files: Seq<File>, k: nat) -> nat
    decreases k,
{
    if k == 0 {
        0
    } else {
        files_sum(files, (k - 1) as nat) + span_sum(files[k - 1], files[k - 1].length as nat)
    }
}

/// The checksum of a disk.
pub open spec fn checksum_of(l: Layout) -> nat {
    files_sum(l.files, l.files.len())
}

/// Whether every span of the disk ends at a block with a machine number.
pub open spec fn bounded(l: Layout) -> bool {
    &&& forall|i: int|
        0 <= i < l.files.len() ==> (#[trigger] l.files[i]).start + l.files[i].length <= usize::MAX
    &&& forall|j: int|
        0 <= j < l.frees.len() ==> (#[trigger] l.frees[j]).start + l.frees[j].length <= usize::MAX
}

/// The digits of a text stand for at most nine blocks each.
pub proof fn lemma_offset_bound(text: Seq<char>, k: nat)
    requires
        all_digits(text),
        k <= text.len(),
    ensures
        offset(text, k) <= 9 * k,
    decreases k,
{
    if k > 0 {
        lemma_offset_bound(text, (k - 1) as nat);
        assert(digit_value(text[k - 1]) <= 9);
    }
}

/// The first span with room is a span with room, and no span before it
/// has room.
pub proof fn lemma_first_fit(frees: Seq<FreeBlock>, need: nat, from: int)
    requires
        0 <= from <= frees.len(),
    ensures
        from <= first_fit(frees, need, from) <= frees.len(),
        first_fit(frees, need, from) < frees.len() ==> frees[first_fit(frees, need, from)].length
            >= need,
        forall|j: int| from <= j < first_fit(frees, need, from) ==> (#[trigger] frees[j]).length < need,
    decreases frees.len() - from,
{
    if from < frees.len() && frees[from].length < need {
        lemma_first_fit(frees, need, from + 1);
    }
}

/// A turn keeps the number of files and of spans, and keeps every span
/// within the machine numbers.
pub proof fn lemma_placed(l: Layout, i: int)
    requires
        0 <= i < l.files.len(),
        bounded(l),
    ensures
        placed(l, i).files.len() == l.files.len(),
        placed(l, i).frees.len() == l.frees.len(),
        bounded(placed(l, i)),
{
    lemma_first_fit(l.frees, l.files[i].length as nat, 0);
}

/// The turns keep the number of files and of spans, and keep every span
/// within the machine numbers.
pub proof fn lemma_settled(l: Layout, k: int)
    requires
        0 <= k <= l.files.len(),
        bounded(l),
    ensures
        settled(l, k).files.len() == l.files.len(),
        settled(l, k).frees.len() == l.frees.len(),
        bounded(settled(l, k)),
    decreases l.files.len() - k,
{
    if k < l.files.len() {
        lemma_settled(l, k + 1);
        lemma_placed(settled(l, k + 1), k);
    }
}

/// The sum over the blocks of a file grows with their number.
pub proof fn lemma_span_sum_grows(file: File, n: nat, m: nat)
    requires
        n <= m,
    ensures
        span_sum(file, n) <= span_sum(file, m),
    decreases m,
{
    if n < m {
        lemma_span_sum_grows(file, n, (m - 1) as nat);
    }
}

/// The checksum grows with the number of files.
pub proof fn lemma_files_sum_grows(files: Seq<File>, j: nat, k: nat)
    requires
        j <= k <= files.len(),
    ensures
        files_sum(files, j) <= files_sum(files, k),
    decreases k,
{
    if j < k {
        lemma_files_sum_grows(files, j, (k - 1) as nat);
    }
}

impl Disk {
    /// The files and the free spans of the disk.
    pub open spec fn layout(&self) -> Layout {
        Layout { files: self.files@, frees: self.free_blocks@ }
    }

    /// The disk that the digits of a text describe, by turns the length
    /// of a file and the length of the free span behind it; `None` where
    /// the text holds anything but digits or is too long.
    pub fn parse(value: &str) -> (r: Option<Disk>)
        ensures
            r is Some <==> readable(value@),
            r is Some ==> r->0.layout() == layout_of(value@) && r->0.size == value@.len()
                && bounded(r->0.layout()),
    {
        let chars = chars_of(value);
        if chars.len() > usize::MAX / 9 {
            return None;
        }
        let mut files: Vec<File> = Vec::new();
        let mut free_blocks: Vec<FreeBlock> = Vec::new();
        let mut index_counter: usize = 0;
        let mut idx: usize = 0;
        while idx < chars.len()
            invariant
                idx <= chars.len(),
                chars@ == value@,
                9 * chars.len() <= usize::MAX,
                all_digits(chars@.take(idx as int)),
                index_counter == offset(chars@, idx as nat),
                index_counter <= 9 * idx,
                files@ == files_of(chars@, idx as nat),
                free_blocks@ == frees_of(chars@, idx as nat),
                bounded(Layout { files: files@, frees: free_blocks@ }),
            decreases chars.len() - idx,
        {
            let c = chars[idx];
            if !is_digit_char(c) {
                return None;
            }
            let length: usize = (c as u32 - '0' as u32) as usize;
            assert(index_counter + length <= usize::MAX);
            let ghost before = Layout { files: files@, frees: free_blocks@ };
            if idx % 2 == 0 {
                files.push(File::new(idx / 2, index_counter, length));
            } else {
                free_blocks.push(FreeBlock::new(index_counter, length));
            }
            index_counter += length;
            proof {
                assert(chars@.take(idx + 1) =~= chars@.take(idx as int).push(c));
                let after = Layout { files: files@, frees: free_blocks@ };
                assert forall|i: int| 0 <= i < after.files.len() implies (#[trigger] after.files[i]).start
                    + after.files[i].length <= usize::MAX by {
                    if i < before.files.len() {
                        assert(after.files[i] == before.files[i]);
                    }
                }
                assert forall|j: int| 0 <= j < after.frees.len() implies (#[trigger] after.frees[j]).start
                    + after.frees[j].length <= usize::MAX by {
                    if j < before.frees.len() {
                        assert(after.frees[j] == before.frees[j]);
                    }
                }
            }
            idx += 1;
        }
        proof {
            assert(chars@.take(chars.len() as int) =~= chars@);
        }
        Some(Disk { files, free_blocks, size: chars.len() })
    }

    /// Gives every file its turn, from the last to the first.
    pub fn defragment(&mut self)
        requires
            bounded(old(self).layout()),
        ensures
            final(self).layout() == settled(old(self).layout(), 0),
            final(self).size == old(self).size,
            bounded(final(self).layout()),
    {
        let ghost first = self.layout();
        let mut i: usize = self.files.len();
        while i > 0
            invariant
                i <= first.files.len(),
                bounded(first),
                self.layout() == settled(first, i as int),
                self.size == old(self).size,
            decreases i,
        {
            i -= 1;
            proof {
                lemma_settled(first, i + 1);
                lemma_placed(self.layout(), i as int);
            }
            let file = self.files[i];
            let mut j: usize = 0;
            while j < self.free_blocks.len() && self.free_blocks[j].length < file.length
                invariant
                    j <= self.free_blocks.len(),
                    first_fit(self.free_blocks@, file.length as nat, 0) == first_fit(
                        self.free_blocks@,
                        file.length as nat,
                        j as int,
                    ),
                decreases self.free_blocks.len() - j,
            {
                j += 1;
            }
            if j < self.free_blocks.len() {
                let free = self.free_blocks[j];
                if free.start <= file.start {
                    self.files.set(i, File { id: file.id, start: free.start, length: file.length });
                    self.free_blocks.set(
                        j,
                        FreeBlock {
                            start: free.start + file.length,
                            length: free.length - file.length,
                        },
                    );
                }
            }
            proof {
                assert(self.layout() == placed(settled(first, i + 1), i as int));
            }
        }
        proof {
            lemma_settled(first, 0);
        }
    }

    /// The checksum of the disk: the sum, over the blocks of its files, of
    /// the number of the block times the number of the file.
    pub fn checksum(&self) -> (r: usize)
        requires
            bounded(self.layout()),
            checksum_of(self.layout()) <= usize::MAX,
        ensures
            r == checksum_of(self.layout()),
    {
        let mut sum: usize = 0;
        let mut k: usize = 0;
        while k < self.files.len()
            invariant
                k <= self.files.len(),
                bounded(self.layout()),
                checksum_of(self.layout()) <= usize::MAX,
                sum == files_sum(self.files@, k as nat),
            decreases self.files.len() - k,
        {
            let file = self.files[k];
            proof {
                lemma_files_sum_grows(self.files@, (k + 1) as nat, self.files@.len());
            }
            let mut add: usize = 0;
            let mut i: usize = 0;
            while i < file.length
                invariant
                    i <= file.length,
                    file.start + file.length <= usize::MAX,
                    add == span_sum(file, i as nat),
                    sum + span_sum(file, file.length as nat) <= usize::MAX,
                decreases file.length - i,
            {
                proof {
                    lemma_span_sum_grows(file, (i + 1) as nat, file.length as nat);
                }
                add += (file.start + i) * file.id;
                i += 1;
            }
            sum += add;
            k += 1;
        }
        sum
    }
}

/// The checksum of the disk that the digits of the text describe, after
/// every file has had its turn. The text must hold digits only, and the
/// checksum must fit.
pub fn solve_day_09_part_02(input: String) -> (r: usize)
    requires
        readable(input@),
        checksum_of(settled(layout_of(input@), 0)) <= usize::MAX,
    ensures
        r == checksum_of(settled(layout_of(input@), 0)),
{
    let mut disk = match Disk::parse(input.as_str()) {
        Some(d) => d,
        None => unreached(),
    };
    disk.defragment();
    disk.checksum()
}

} // verus!
