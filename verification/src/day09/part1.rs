//! A disk of blocks that is compacted: blocks of files from the end fill
//! the free blocks at the front.

use crate::util::text::all_digits;
use crate::util::text::chars_of;
use crate::util::text::digit_value;
use crate::util::text::is_digit_char;
use vstd::prelude::*;

verus! {

/// What a block holds.
#[derive(Debug, PartialEq, Eq, Clone, Copy, Structural)]
pub enum MemoryType {
    Free,
    Occupied { file_id: usize },
}

/// A block: the place in the text of the digit that it came from, and
/// what it holds.
#[derive(Debug, PartialEq, Eq, Clone, Copy, Structural)]
pub struct MemoryUnit {
    pub pos: usize,
    pub memory_type: MemoryType,
}

/// The disk, block by block.
#[derive(Debug, PartialEq)]
pub struct Disk {
    pub units: Vec<MemoryUnit>,
}

/// The block that the digit at the place `idx` of the text stands for: at
/// an even place a block of the file with half the place as its number, at
/// an odd place a free block.
pub open spec fn unit_for(idx: nat) -> MemoryUnit {
    MemoryUnit {
        pos: idx as usize,
        memory_type: if idx % 2 == 0 {
            MemoryType::Occupied { file_id: (idx / 2) as usize }
        } else {
            MemoryType::Free
        },
    }
}

/// The blocks that the first `k` digits of the text stand for: each digit
/// stands for as many blocks as its value.
pub open spec fn expanded(text: Seq<char>, k: nat) -> Seq<MemoryUnit>
    decreases k,
{
    if k == 0 || k > text.len() {
        Seq::empty()
    } else {
        expanded(text, (k - 1) as nat) + Seq::new(
            digit_value(text[k - 1]),
            |i: int| unit_for((k - 1) as nat),
        )
    }
}

/// Whether a block is free.
pub open spec fn is_free(u: MemoryUnit) -> bool {
    u.memory_type == MemoryType::Free
}

/// The blocks with those at the places `i` and `j` exchanged.
pub open spec fn swapped(s: Seq<MemoryUnit>, i: int, j: int) -> Seq<MemoryUnit> {
    s.update(i, s[j]).update(j, s[i])
}

/// The blocks after compaction between the places `left` and `right`: a
/// block of a file at `left` stays, a free block at `right` stays, and a
/// free block at `left` changes places with a block of a file at `right`.
pub open spec fn compacted(s: Seq<MemoryUnit>, left: int, right: int) -> Seq<MemoryUnit>
    decreases right - left + 1,
{
    if left < 0 || right >= s.len() || left >= right {
        s
    } else if !is_free(s[left]) {
        compacted(s, left + 1, right)
    } else if is_free(s[right]) {
        compacted(s, left, right - 1)
    } else {
        compacted(swapped(s, left, right), left + 1, right - 1)
    }
}

/// Whether no free block stands before a block of a file.
pub open spec fn packed(s: Seq<MemoryUnit>) -> bool {
    forall|i: int, j: int| 0 <= i < j < s.len() && is_free(#[trigger] s[i]) ==> is_free(#[trigger] s[j])
}

/// Compaction keeps the number of blocks, and the blocks themselves.
pub proof fn lemma_compacted_keeps(s: Seq<MemoryUnit>, left: int, right: int)
    ensures
        compacted(s, left, right).len() == s.len(),
        compacted(s, left, right).to_multiset() == s.to_multiset(),
    decreases right - left + 1,
{
    broadcast use vstd::seq_lib::group_to_multiset_ensures;

    if left < 0 || right >= s.len() || left >= right {
    } else if !is_free(s[left]) {
        lemma_compacted_keeps(s, left + 1, right);
    } else if is_free(s[right]) {
        lemma_compacted_keeps(s, left, right - 1);
    } else {
        let t = swapped(s, left, right);
        lemma_compacted_keeps(t, left + 1, right - 1);
        assert(t.to_multiset() =~= s.to_multiset()) by {
            let a = s.update(left, s[right]);
            assert(a.to_multiset() =~= s.to_multiset().insert(s[right]).remove(s[left]));
            assert(t.to_multiset() =~= a.to_multiset().insert(s[left]).remove(a[right]));
            assert(a[right] == s[right]);
        }
    }
}

/// After the compaction of the whole disk no free block stands before a
/// block of a file.
pub proof fn law_compacted_is_packed(s: Seq<MemoryUnit>)
    ensures
        packed(compacted(s, 0, s.len() - 1)),
{
    lemma_compacted_packs(s, 0, s.len() - 1);
}

/// Where only blocks of files stand before `left` and only free blocks
/// behind `right`, compaction between the two packs the disk.
pub proof fn lemma_compacted_packs(s: Seq<MemoryUnit>, left: int, right: int)
    requires
        0 <= left,
        right < s.len(),
        left <= right + 1,
        forall|i: int| 0 <= i < left ==> !is_free(#[trigger] s[i]),
        forall|i: int| right < i < s.len() ==> is_free(#[trigger] s[i]),
    ensures
        packed(compacted(s, left, right)),
    decreases right - left + 1,
{
    if left >= right {
    } else if !is_free(s[left]) {
        lemma_compacted_packs(s, left + 1, right);
    } else if is_free(s[right]) {
        lemma_compacted_packs(s, left, right - 1);
    } else {
        let t = swapped(s, left, right);
        assert forall|i: int| 0 <= i < left + 1 implies !is_free(#[trigger] t[i]) by {
            if i < left {
                assert(t[i] == s[i]);
            }
        }
        assert forall|i: int| right - 1 < i < t.len() implies is_free(#[trigger] t[i]) by {
            if i > right {
                assert(t[i] == s[i]);
            }
        }
        lemma_compacted_packs(t, left + 1, right - 1);
    }
}

/// The checksum of the first `k` blocks: for every block of a file its
/// place multiplied by the number of its file, all added up.
pub open spec fn checksum_of(s: Seq<MemoryUnit>, k: nat) -> nat
    decreases k,
{
    if k == 0 || k > s.len() {
        0
    } else {
        checksum_of(s, (k - 1) as nat) + match s[k - 1].memory_type {
            MemoryType::Occupied { file_id } => (file_id as nat) * ((k - 1) as nat),
            MemoryType::Free => 0nat,
        }
    }
}

/// The checksum of the first blocks is no more than that of all.
pub proof fn lemma_checksum_grows(s: Seq<MemoryUnit>, j: nat, k: nat)
    requires
        j <= k <= s.len(),
    ensures
        checksum_of(s, j) <= checksum_of(s, k),
    decreases k - j,
{
    if j < k {
        lemma_checksum_grows(s, j, (k - 1) as nat);
        match s[k - 1].memory_type {
            MemoryType::Occupied { file_id } => {

            },
            MemoryType::Free => {},
        }
    }
}

impl Disk {
    /// The disk that the digits of a text describe, by turns the length of
    /// a file and the length of the free space behind it; `None` where the
    /// text holds anything but digits.
    pub fn parse(value: &str) -> (r: Option<Disk>)
        ensures
            match r {
                Some(d) => all_digits(value@) && d.units@ == expanded(value@, value@.len()),
                None => !all_digits(value@),
            },
    {
        let chars = chars_of(value);
        let mut units: Vec<MemoryUnit> = Vec::new();
        let mut idx: usize = 0;
        while idx < chars.len()
            invariant
                idx <= chars.len(),
                chars@ == value@,
                all_digits(chars@.take(idx as int)),
                units@ == expanded(chars@, idx as nat),
            decreases chars.len() - idx,
        {
            let c = chars[idx];
            if !is_digit_char(c) {
                return None;
            }
            let length: u32 = c as u32 - '0' as u32;
            let next_unit = if idx % 2 == 0 {
                MemoryUnit { pos: idx, memory_type: MemoryType::Occupied { file_id: idx / 2 } }
            } else {
                MemoryUnit { pos: idx, memory_type: MemoryType::Free }
            };
            let ghost before = units@;
            let mut i: u32 = 0;
            while i < length
                invariant
                    i <= length,
                    next_unit == unit_for(idx as nat),
                    units@ == before + Seq::new(i as nat, |j: int| unit_for(idx as nat)),
                decreases length - i,
            {
                units.push(next_unit);
                proof {
                    assert(units@ =~= before + Seq::new((i + 1) as nat, |j: int| unit_for(idx as nat)));
                }
                i = i + 1;
            }
            proof {
                assert(chars@.take(idx + 1) =~= chars@.take(idx as int).push(c));
            }
            idx = idx + 1;
        }
        proof {
            assert(chars@.take(chars.len() as int) =~= chars@);
        }
        Some(Disk { units })
    }

    /// Compacts the disk: from the front, every free block is filled with
    /// the last block of a file that stands behind it.
    pub fn fragment(&mut self)
        ensures
            final(self).units@ == compacted(old(self).units@, 0, old(self).units@.len() - 1),
    {
        if self.units.len() == 0 {
            return ;
        }
        let mut left_index: usize = 0;
        let mut right_index: usize = self.units.len() - 1;
        while left_index < right_index
            invariant
                right_index < self.units.len(),
                self.units@.len() == old(self).units@.len(),
                compacted(self.units@, left_index as int, right_index as int) == compacted(
                    old(self).units@,
                    0,
                    old(self).units@.len() - 1,
                ),
            decreases right_index + 1 - left_index,
        {
            let left_free = match self.units[left_index].memory_type {
                MemoryType::Free => true,
                MemoryType::Occupied { .. } => false,
            };
            if !left_free {
                left_index = left_index + 1;
            } else {
                let right_free = match self.units[right_index].memory_type {
                    MemoryType::Free => true,
                    MemoryType::Occupied { .. } => false,
                };
                if right_free {
                    right_index = right_index - 1;
                } else {
                    let l = self.units[left_index];
                    let r = self.units[right_index];
                    self.units.set(left_index, r);
                    self.units.set(right_index, l);
                    left_index = left_index + 1;
                    right_index = right_index - 1;
                }
            }
        }
    }

    /// The checksum of the disk. It must fit.
    pub fn checksum(&self) -> (r: usize)
        requires
            checksum_of(self.units@, self.units@.len()) <= usize::MAX,
        ensures
            r == checksum_of(self.units@, self.units@.len()),
    {
        let mut sum: usize = 0;
        let mut index: usize = 0;
        while index < self.units.len()
            invariant
                index <= self.units.len(),
                checksum_of(self.units@, self.units@.len()) <= usize::MAX,
                sum == checksum_of(self.units@, index as nat),
            decreases self.units.len() - index,
        {
            proof {
                lemma_checksum_grows(self.units@, (index + 1) as nat, self.units@.len());
            }
            match self.units[index].memory_type {
                MemoryType::Occupied { file_id } => {
                    sum = sum + file_id * index;
                },
                MemoryType::Free => {},
            }
            index = index + 1;
        }
        sum
    }
}

/// The blocks of the disk that a text of digits describes, compacted.
pub open spec fn compact_disk(text: Seq<char>) -> Seq<MemoryUnit> {
    compacted(expanded(text, text.len()), 0, expanded(text, text.len()).len() - 1)
}

/// The checksum of the disk that the digits of the text describe, after
/// it is compacted. The text must hold digits only, and the checksum must
/// fit.
pub fn solve_day_09_part_01(input: String) -> (r: usize)
    requires
        all_digits(input@),
        checksum_of(compact_disk(input@), compact_disk(input@).len()) <= usize::MAX,
    ensures
        r == checksum_of(compact_disk(input@), compact_disk(input@).len()),
{
    let mut disk = match Disk::parse(input.as_str()) {
        Some(d) => d,
        None => vstd::pervasive::unreached(),
    };
    disk.fragment();
    disk.checksum()
}

} // verus!
