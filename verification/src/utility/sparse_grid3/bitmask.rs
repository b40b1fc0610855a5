//! Per-chunk presence masks.

use vstd::prelude::*;

use crate::utility::sparse_grid3::layout::{
    cell_number, in_region, lemma_row_end, lemma_slab_end, lemma_walk_ends, local_box, local_index,
};
use crate::vec3::UVec3;

verus! {

/// Bit `b` of `w`.
pub open spec fn word_bit(w: u64, b: u64) -> bool {
    w & (1u64 << b) != 0
}

proof fn lemma_word_set(w: u64, b: u64)
    requires
        b < 64,
    ensures
        forall|c: u64| c < 64 ==> #[trigger] word_bit(w | (1u64 << b), c) == (c == b || word_bit(w, c)),
{
    assert forall|c: u64| c < 64
        implies #[trigger] word_bit(w | (1u64 << b), c) == (c == b || word_bit(w, c)) by {
        assert(((w | (1u64 << b)) & (1u64 << c) != 0) == (c == b || (w & (1u64 << c) != 0)))
            by (bit_vector)
            requires
                b < 64,
                c < 64,
        ;
    }
}

proof fn lemma_word_clear(w: u64, b: u64)
    requires
        b < 64,
    ensures
        forall|c: u64| c < 64 ==> #[trigger] word_bit(w & !(1u64 << b), c) == (c != b && word_bit(w, c)),
{
    assert forall|c: u64| c < 64
        implies #[trigger] word_bit(w & !(1u64 << b), c) == (c != b && word_bit(w, c)) by {
        assert(((w & !(1u64 << b)) & (1u64 << c) != 0) == (c != b && (w & (1u64 << c) != 0)))
            by (bit_vector)
            requires
                b < 64,
                c < 64,
        ;
    }
}

proof fn lemma_word_const()
    ensures
        forall|c: u64| c < 64 ==> !#[trigger] word_bit(0, c),
        forall|c: u64| c < 64 ==> #[trigger] word_bit(u64::MAX, c),
{
    assert forall|c: u64| c < 64 implies !#[trigger] word_bit(0, c) by {
        assert(0u64 & (1u64 << c) == 0) by (bit_vector);
    }
    assert forall|c: u64| c < 64 implies #[trigger] word_bit(u64::MAX, c) by {
        assert(0xffff_ffff_ffff_ffffu64 & (1u64 << c) != 0) by (bit_vector)
            requires
                c < 64,
        ;
    }
}

/// The lowest set bit of a nonzero word, and the word without it.
proof fn lemma_word_lowest(w: u64)
    requires
        w != 0,
    ensures
        vstd::std_specs::bits::u64_trailing_zeros(w) < 64,
        word_bit(w, vstd::std_specs::bits::u64_trailing_zeros(w) as u64),
        forall|c: u64| c < vstd::std_specs::bits::u64_trailing_zeros(w) ==> !#[trigger] word_bit(w, c),
        forall|c: u64| c < 64 ==> #[trigger] word_bit(w & ((w - 1) as u64), c) == (c
            != vstd::std_specs::bits::u64_trailing_zeros(w) && word_bit(w, c)),
        (w & ((w - 1) as u64)) < w,
{
    broadcast use vstd::std_specs::bits::axiom_u64_trailing_zeros;
    let t = vstd::std_specs::bits::u64_trailing_zeros(w) as u64;
    let v = (w - 1) as u64;
    assert((w >> t) & 1u64 == 1u64);
    assert(w << ((64 - t) as u64) == 0);
    assert(w & (1u64 << t) != 0) by (bit_vector)
        requires
            (w >> t) & 1u64 == 1u64,
            t < 64,
    ;
    assert forall|c: u64| c < t implies !#[trigger] word_bit(w, c) by {
        assert((w >> c) & 1u64 == 0u64);
        assert(w & (1u64 << c) == 0) by (bit_vector)
            requires
                (w >> c) & 1u64 == 0u64,
                c < 64,
        ;
    }
    assert forall|c: u64| c < 64 implies #[trigger] word_bit(w & v, c) == (c != t && word_bit(w, c)) by {
        assert(((w & v) & (1u64 << c) != 0) == (c != t && (w & (1u64 << c) != 0))) by (bit_vector)
            requires
                c < 64,
                t < 64,
                w != 0,
                w == v + 1,
                (w >> t) & 1u64 == 1u64,
                t == 0 || w << ((64 - t) as u64) == 0,
        ;
    }
    assert((w & v) < w) by (bit_vector)
        requires
            w != 0,
            w == v + 1,
    ;
}

/// Set of present cells of one chunk.
#[derive(Debug)]
pub struct BitMask {
    words: [u64; 512],
}

impl Clone for BitMask {
    fn clone(&self) -> (r: Self)
        ensures
            r == *self,
    {
        BitMask { words: self.words }
    }
}

/// Only chunk cells are in a mask.
pub broadcast proof fn lemma_mask_range(mask: BitMask, i: int)
    ensures
        #[trigger] mask.has(i) ==> 0 <= i < 32768,
{
}

impl BitMask {
    /// True when cell `i` is in the mask.
    pub closed spec fn has(self, i: int) -> bool {
        0 <= i < 32768 && word_bit(self.words@[i / 64], (i % 64) as u64)
    }

    /// The mask's words, cell `i` being bit `i % 64` of word `i / 64`.
    pub closed spec fn word_seq(self) -> Seq<u64> {
        self.words@
    }

    /// What the words say of a cell.
    pub proof fn lemma_words(self)
        ensures
            self.word_seq().len() == 512,
            forall|i: int| #[trigger] self.has(i) <==> 0 <= i < 32768 && word_bit(
                self.word_seq()[i / 64],
                (i % 64) as u64,
            ),
    {
    }

    /// True when the mask has no cell.
    pub open spec fn vacant(self) -> bool {
        forall|i: int| !#[trigger] self.has(i)
    }

    /// The cells of the mask.
    pub open spec fn cells(self) -> Set<int> {
        Set::new(|i: int| self.has(i))
    }

    /// The mask without cells.
    pub fn empty() -> (m: Self)
        ensures
            m.vacant(),
    {
        proof {
            lemma_word_const();
        }
        BitMask { words: [0;512] }
    }

    /// The mask of every cell.
    pub fn full() -> (m: Self)
        ensures
            forall|i: int| #[trigger] m.has(i) <==> 0 <= i < 32768,
    {
        proof {
            lemma_word_const();
        }
        BitMask { words: [u64::MAX;512] }
    }

    /// The mask with the given words.
    pub fn from_words(words: [u64; 512]) -> (m: Self)
        ensures
            m.word_seq() == words@,
    {
        BitMask { words }
    }

    /// The words of the mask.
    pub fn words(&self) -> (w: [u64; 512])
        ensures
            w@ == self.word_seq(),
    {
        self.words
    }

    /// True when the mask has no cell.
    pub fn is_empty(&self) -> (b: bool)
        ensures
            b == self.vacant(),
    {
        let mut w: usize = 0;
        while w < 512
            invariant
                w <= 512,
                forall|v: int| 0 <= v < w ==> self.words@[v] == 0,
            decreases 512 - w,
        {
            if self.words[w] != 0 {
                proof {
                    let word = self.words@[w as int];
                    lemma_word_lowest(word);
                    let t = vstd::std_specs::bits::u64_trailing_zeros(word) as int;
                    let i = w * 64 + t;
                    assert(i / 64 == w && i % 64 == t);
                    assert(self.has(i));
                }
                return false;
            }
            w += 1;
        }
        proof {
            lemma_word_const();
        }
        true
    }

    /// True when cell `idx` is in the mask.
    pub fn get(&self, idx: usize) -> (b: bool)
        requires
            idx < 32768,
        ensures
            b == self.has(idx as int),
    {
        let word = idx / 64;
        let bit = idx % 64;
        (self.words[word] & (1u64 << (bit as u64))) != 0
    }

    /// Adds cell `idx`.
    pub fn set(&mut self, idx: usize)
        requires
            idx < 32768,
        ensures
            forall|i: int| #[trigger] final(self).has(i) == (i == idx || old(self).has(i)),
    {
        let word = idx / 64;
        let bit = (idx % 64) as u64;
        proof {
            lemma_word_set(self.words@[word as int], bit);
        }
        let updated = self.words[word] | (1u64 << bit);
        self.words[word] = updated;
        proof {
            assert forall|i: int| #[trigger] self.has(i) == (i == idx || old(self).has(i)) by {
                if 0 <= i < 32768 && i / 64 == word {
                    assert(i == word * 64 + i % 64);
                }
            }
        }
    }

    /// Clears `idx`. Returns true if it was previously set.
    pub fn clear(&mut self, idx: usize) -> (was_set: bool)
        requires
            idx < 32768,
        ensures
            was_set == old(self).has(idx as int),
            forall|i: int| #[trigger] final(self).has(i) == (i != idx && old(self).has(i)),
    {
        let word = idx / 64;
        let bit = (idx % 64) as u64;
        let mask = 1u64 << bit;
        let was_set = (self.words[word] & mask) != 0;
        proof {
            lemma_word_clear(self.words@[word as int], bit);
        }
        let updated = self.words[word] & !mask;
        self.words[word] = updated;
        proof {
            assert forall|i: int| #[trigger] self.has(i) == (i != idx && old(self).has(i)) by {
                if 0 <= i < 32768 && i / 64 == word {
                    assert(i == word * 64 + i % 64);
                }
            }
        }
        was_set
    }

    /// Adds every cell of the local box `[local_min, local_max)`.
    pub fn set_aabb(&mut self, local_min: UVec3, local_max: UVec3)
        requires
            local_box(local_min, local_max),
        ensures
            forall|i: int| #[trigger] final(self).has(i)
                == (in_region(i, local_min, local_max) || old(self).has(i)),
    {
        proof {
            lemma_walk_ends(local_min, local_max);
        }
        let mut z: u32 = local_min.z;
        while z < local_max.z
            invariant
                local_box(local_min, local_max),
                local_min.z <= z <= local_max.z,
                forall|i: int| #[trigger] self.has(i)
                    == (old(self).has(i) || (in_region(i, local_min, local_max)
                    && i < cell_number(local_min.x as int, local_min.y as int, z as int))),
            decreases local_max.z - z,
        {
            let mut y: u32 = local_min.y;
            while y < local_max.y
                invariant
                    local_box(local_min, local_max),
                    local_min.z <= z < local_max.z,
                    local_min.y <= y <= local_max.y,
                    forall|i: int| #[trigger] self.has(i)
                        == (old(self).has(i) || (in_region(i, local_min, local_max)
                        && i < cell_number(local_min.x as int, y as int, z as int))),
                decreases local_max.y - y,
            {
                let mut x: u32 = local_min.x;
                while x < local_max.x
                    invariant
                        local_box(local_min, local_max),
                        local_min.z <= z < local_max.z,
                        local_min.y <= y < local_max.y,
                        local_min.x <= x <= local_max.x,
                        forall|i: int| #[trigger] self.has(i)
                            == (old(self).has(i) || (in_region(i, local_min, local_max)
                            && i < cell_number(x as int, y as int, z as int))),
                    decreases local_max.x - x,
                {
                    self.set(local_index(x, y, z));
                    x += 1;
                }
                proof {
                    lemma_row_end(local_min, local_max, y as int, z as int);
                }
                y += 1;
            }
            proof {
                lemma_slab_end(local_min, local_max, z as int);
            }
            z += 1;
        }
        proof {
            lemma_walk_ends(local_min, local_max);
        }
    }

    /// Removes every cell of the local box `[local_min, local_max)`.
    pub fn clear_aabb(&mut self, local_min: UVec3, local_max: UVec3)
        requires
            local_box(local_min, local_max),
        ensures
            forall|i: int| #[trigger]
                final(self).has(i) == (old(self).has(i) && !in_region(i, local_min, local_max)),
    {
        proof {
            lemma_walk_ends(local_min, local_max);
        }
        let mut z: u32 = local_min.z;
        while z < local_max.z
            invariant
                local_box(local_min, local_max),
                local_min.z <= z <= local_max.z,
                forall|i: int| #[trigger]
                    self.has(i) == (old(self).has(i) && !(in_region(i, local_min, local_max) && i
                        < cell_number(local_min.x as int, local_min.y as int, z as int))),
            decreases local_max.z - z,
        {
            let mut y: u32 = local_min.y;
            while y < local_max.y
                invariant
                    local_box(local_min, local_max),
                    local_min.z <= z < local_max.z,
                    local_min.y <= y <= local_max.y,
                    forall|i: int| #[trigger]
                        self.has(i) == (old(self).has(i) && !(in_region(i, local_min, local_max) && i
                            < cell_number(local_min.x as int, y as int, z as int))),
                decreases local_max.y - y,
            {
                let mut x: u32 = local_min.x;
                while x < local_max.x
                    invariant
                        local_box(local_min, local_max),
                        local_min.z <= z < local_max.z,
                        local_min.y <= y < local_max.y,
                        local_min.x <= x <= local_max.x,
                        forall|i: int| #[trigger]
                            self.has(i) == (old(self).has(i) && !(in_region(i, local_min, local_max) && i
                                < cell_number(x as int, y as int, z as int))),
                    decreases local_max.x - x,
                {
                    self.clear(local_index(x, y, z));
                    x += 1;
                }
                proof {
                    lemma_row_end(local_min, local_max, y as int, z as int);
                }
                y += 1;
            }
            proof {
                lemma_slab_end(local_min, local_max, z as int);
            }
            z += 1;
        }
    }

    /// True when the mask has a cell in the local box `[local_min, local_max)`.
    pub fn any_in_aabb(&self, local_min: UVec3, local_max: UVec3) -> (b: bool)
        requires
            local_box(local_min, local_max),
        ensures
            b <==> exists|i: int| #[trigger] self.has(i) && in_region(i, local_min, local_max),
    {
        proof {
            lemma_walk_ends(local_min, local_max);
        }
        let mut z: u32 = local_min.z;
        while z < local_max.z
            invariant
                local_box(local_min, local_max),
                local_min.z <= z <= local_max.z,
                forall|i: int|
                    in_region(i, local_min, local_max)
                        && i < cell_number(local_min.x as int, local_min.y as int, z as int)
                        ==> !#[trigger] self.has(i),
            decreases local_max.z - z,
        {
            let mut y: u32 = local_min.y;
            while y < local_max.y
                invariant
                    local_box(local_min, local_max),
                    local_min.z <= z < local_max.z,
                    local_min.y <= y <= local_max.y,
                    forall|i: int|
                        in_region(i, local_min, local_max)
                            && i < cell_number(local_min.x as int, y as int, z as int)
                            ==> !#[trigger] self.has(i),
                decreases local_max.y - y,
            {
                let mut x: u32 = local_min.x;
                while x < local_max.x
                    invariant
                        local_box(local_min, local_max),
                        local_min.z <= z < local_max.z,
                        local_min.y <= y < local_max.y,
                        local_min.x <= x <= local_max.x,
                        forall|i: int|
                            in_region(i, local_min, local_max)
                                && i < cell_number(x as int, y as int, z as int)
                                ==> !#[trigger] self.has(i),
                    decreases local_max.x - x,
                {
                    let idx = local_index(x, y, z);
                    if self.get(idx) {
                        return true;
                    }
                    x += 1;
                }
                proof {
                    lemma_row_end(local_min, local_max, y as int, z as int);
                }
                y += 1;
            }
            proof {
                lemma_slab_end(local_min, local_max, z as int);
            }
            z += 1;
        }
        false
    }

    /// True when every cell of the local box `[local_min, local_max)` is in the mask.
    pub fn all_in_aabb(&self, local_min: UVec3, local_max: UVec3) -> (b: bool)
        requires
            local_box(local_min, local_max),
        ensures
            b <==> forall|i: int| in_region(i, local_min, local_max) ==> #[trigger] self.has(i),
    {
        proof {
            lemma_walk_ends(local_min, local_max);
        }
        let mut z: u32 = local_min.z;
        while z < local_max.z
            invariant
                local_box(local_min, local_max),
                local_min.z <= z <= local_max.z,
                forall|i: int|
                    in_region(i, local_min, local_max)
                        && i < cell_number(local_min.x as int, local_min.y as int, z as int)
                        ==> #[trigger] self.has(i),
            decreases local_max.z - z,
        {
            let mut y: u32 = local_min.y;
            while y < local_max.y
                invariant
                    local_box(local_min, local_max),
                    local_min.z <= z < local_max.z,
                    local_min.y <= y <= local_max.y,
                    forall|i: int|
                        in_region(i, local_min, local_max)
                            && i < cell_number(local_min.x as int, y as int, z as int)
                            ==> #[trigger] self.has(i),
                decreases local_max.y - y,
            {
                let mut x: u32 = local_min.x;
                while x < local_max.x
                    invariant
                        local_box(local_min, local_max),
                        local_min.z <= z < local_max.z,
                        local_min.y <= y < local_max.y,
                        local_min.x <= x <= local_max.x,
                        forall|i: int|
                            in_region(i, local_min, local_max)
                                && i < cell_number(x as int, y as int, z as int)
                                ==> #[trigger] self.has(i),
                    decreases local_max.x - x,
                {
                    let idx = local_index(x, y, z);
                    if !self.get(idx) {
                        assert(in_region(idx as int, local_min, local_max));
                        return false;
                    }
                    x += 1;
                }
                proof {
                    lemma_row_end(local_min, local_max, y as int, z as int);
                }
                y += 1;
            }
            proof {
                lemma_slab_end(local_min, local_max, z as int);
            }
            z += 1;
        }
        true
    }

    /// The lowest cell of the mask.
    pub fn first_set_index(&self) -> (r: Option<usize>)
        ensures
            r is None <==> self.vacant(),
            r matches Some(idx) ==> self.has(idx as int) && idx < 32768 && forall|i: int|
                i < idx ==> !#[trigger] self.has(i),
    {
        let mut w: usize = 0;
        proof {
            lemma_word_const();
        }
        while w < 512
            invariant
                w <= 512,
                forall|v: int| 0 <= v < w ==> self.words@[v] == 0,
                forall|c: u64| c < 64 ==> !#[trigger] word_bit(0, c),
            decreases 512 - w,
        {
            let word = self.words[w];
            if word != 0 {
                proof {
                    lemma_word_lowest(word);
                }
                let bit = word.trailing_zeros() as usize;
                let idx = w * 64 + bit;
                proof {
                    assert(idx as int / 64 == w && idx as int % 64 == bit);
                    assert(self.has(idx as int));
                    assert forall|i: int| i < idx implies !#[trigger] self.has(i) by {
                        if 0 <= i && i / 64 == w {
                            assert(i % 64 < bit);
                        }
                    }
                }
                return Some(idx);
            }
            w += 1;
        }
        None
    }

    /// The cells of the mask in ascending order.
    pub fn for_each_set_index(&self) -> (v: Vec<usize>)
        ensures
            forall|a: int, b: int| 0 <= a < b < v@.len() ==> v@[a] < v@[b],
            forall|a: int| 0 <= a < v@.len() ==> self.has(#[trigger] v@[a] as int),
            forall|i: int| #[trigger] self.has(i) ==> v@.contains(i as usize),
    {
        let mut out: Vec<usize> = Vec::new();
        let mut w: usize = 0;
        proof {
            lemma_word_const();
        }
        while w < 512
            invariant
                w <= 512,
                forall|c: u64| c < 64 ==> !#[trigger] word_bit(0, c),
                forall|a: int, b: int| 0 <= a < b < out@.len() ==> out@[a] < out@[b],
                forall|a: int| 0 <= a < out@.len()
                    ==> self.has(#[trigger] out@[a] as int) && out@[a] < w * 64,
                forall|i: int| #[trigger] self.has(i) && i < w * 64 ==> out@.contains(i as usize),
            decreases 512 - w,
        {
            let word = self.words[w];
            let mut bits: u64 = word;
            while bits != 0
                invariant
                    w < 512,
                    word == self.words@[w as int],
                    forall|c: u64| c < 64 ==> !#[trigger] word_bit(0, c),
                    forall|c: u64| c < 64 && #[trigger] word_bit(bits, c) ==> word_bit(word, c),
                    forall|a: int, b: int| 0 <= a < b < out@.len() ==> out@[a] < out@[b],
                    forall|a: int| 0 <= a < out@.len()
                        ==> self.has(#[trigger] out@[a] as int) && out@[a] < (w + 1) * 64,
                    forall|a: int,
                        c: u64| #![trigger out@[a], word_bit(bits, c)] 0 <= a < out@.len() && c < 64
                            && word_bit(bits, c) ==> out@[a] < w * 64 + c,
                    forall|i: int| #[trigger] self.has(i) && i < w * 64 ==> out@.contains(i as usize),
                    forall|i: int| #[trigger] self.has(i) && i / 64 == w
                        && !word_bit(bits, (i % 64) as u64) ==> out@.contains(i as usize),
                decreases bits,
            {
                proof {
                    lemma_word_lowest(bits);
                }
                let bit = bits.trailing_zeros() as usize;
                let idx = w * 64 + bit;
                let ghost before = out@;
                let ghost bits0 = bits;
                proof {
                    assert(idx as int / 64 == w && idx as int % 64 == bit);
                    assert(word_bit(bits, bit as u64));
                    assert(self.has(idx as int));
                }
                out.push(idx);
                bits = bits & (bits - 1);
                proof {
                    assert forall|i: int| #[trigger] self.has(i) && i < w * 64
                        implies out@.contains(i as usize) by {
                        let a = choose|a: int| 0 <= a < before.len() && before[a] == i as usize;
                        assert(before.contains(i as usize));
                        assert(out@[a] == i as usize);
                    }
                    assert forall|i: int| #[trigger] self.has(i) && i / 64 == w
                        && !word_bit(bits, (i % 64) as u64) implies out@.contains(i as usize) by {
                        if i == idx {
                            assert(out@[before.len() as int] == idx);
                        } else {
                            assert(i % 64 != bit);
                            assert(!word_bit(bits0, (i % 64) as u64));
                            assert(before.contains(i as usize));
                            let a = choose|a: int| 0 <= a < before.len() && before[a] == i as usize;
                            assert(out@[a] == i as usize);
                        }
                    }
                    assert forall|a: int,
                        c: u64| #![trigger out@[a], word_bit(bits, c)] 0 <= a < out@.len() && c < 64
                            && word_bit(bits, c) implies out@[a] < w * 64 + c by {
                        assert(word_bit(bits0, c) && c != bit);
                        if a < before.len() {
                            assert(before[a] < w * 64 + c);
                        } else if c < bit {
                            assert(!word_bit(bits0, c));
                        }
                    }
                }
            }
            w += 1;
            proof {
                assert forall|i: int| #[trigger] self.has(i) && i < w * 64
                    implies out@.contains(i as usize) by {
                    if i >= (w - 1) * 64 {
                        assert(i / 64 == w - 1);
                        assert(!word_bit(0, (i % 64) as u64));
                    }
                }
            }
        }
        out
    }

    /// Number of cells in the mask.
    pub fn count_ones(&self) -> (n: usize)
        ensures
            self.cells().finite(),
            n == self.cells().len(),
            n <= 32768,
    {
        let mut n: usize = 0;
        let mut w: usize = 0;
        let ghost mut seen: Set<int> = Set::empty();
        proof {
            lemma_word_const();
        }
        while w < 512
            invariant
                w <= 512,
                n <= w * 64,
                seen.finite(),
                n == seen.len(),
                forall|c: u64| c < 64 ==> !#[trigger] word_bit(0, c),
                forall|i: int| #[trigger] seen.contains(i) <==> self.has(i) && i < w * 64,
            decreases 512 - w,
        {
            let word = self.words[w];
            let mut bits: u64 = word;
            let mut left: usize = 64;
            while bits != 0
                invariant
                    w < 512,
                    left <= 64,
                    n + left <= (w + 1) * 64,
                    word == self.words@[w as int],
                    seen.finite(),
                    n == seen.len(),
                    forall|c: u64| c < 64 ==> !#[trigger] word_bit(0, c),
                    forall|c: u64| c < 64 && #[trigger] word_bit(bits, c) ==> word_bit(word, c),
                    forall|c: u64| c < 64 && #[trigger] word_bit(bits, c) ==> c + left >= 64,
                    forall|i: int| #[trigger] seen.contains(i)
                        <==> self.has(i)
                            && (i < w * 64 || (i / 64 == w && !word_bit(bits, (i % 64) as u64))),
                decreases bits,
            {
                proof {
                    lemma_word_lowest(bits);
                }
                let bit = bits.trailing_zeros() as usize;
                let ghost idx = w * 64 + bit;
                let ghost bits0 = bits;
                proof {
                    assert(idx / 64 == w && idx % 64 == bit);
                    assert(word_bit(bits, bit as u64));
                    assert(self.has(idx));
                    assert(!seen.contains(idx));
                    seen = seen.insert(idx);
                }
                n += 1;
                left = 63 - bit;
                bits = bits & (bits - 1);
                proof {
                    assert forall|c: u64| c < 64 && #[trigger] word_bit(bits, c)
                        implies c + left >= 64 by {
                        assert(word_bit(bits0, c) && c != bit);
                        if c < bit {
                            assert(!word_bit(bits0, c));
                        }
                    }
                    assert forall|i: int| #[trigger] seen.contains(i)
                        <==> self.has(i)
                            && (i < w * 64 || (i / 64 == w && !word_bit(bits, (i % 64) as u64))) by {
                        if i / 64 == w && i % 64 == bit {
                            assert(i == idx);
                        }
                    }
                }
            }
            w += 1;
            proof {
                assert forall|i: int| #[trigger] seen.contains(i) <==> self.has(i) && i < w * 64 by {
                    if self.has(i) && (w - 1) * 64 <= i < w * 64 {
                        assert(!word_bit(0, (i % 64) as u64));
                    }
                }
            }
        }
        proof {
            assert(seen =~= self.cells());
        }
        n
    }

    /// The cells of the mask in the local box `[local_min, local_max)`, in ascending order.
    pub fn for_each_set_index_in_aabb(&self, local_min: UVec3, local_max: UVec3) -> (v: Vec<usize>)
        requires
            local_box(local_min, local_max),
        ensures
            forall|a: int, b: int| 0 <= a < b < v@.len() ==> v@[a] < v@[b],
            forall|a: int| 0 <= a < v@.len()
                ==> self.has(#[trigger] v@[a] as int) && in_region(v@[a] as int, local_min, local_max),
            forall|i: int| #[trigger] self.has(i) && in_region(i, local_min, local_max)
                ==> v@.contains(i as usize),
    {
        let mut out: Vec<usize> = Vec::new();
        proof {
            lemma_walk_ends(local_min, local_max);
        }
        let mut z: u32 = local_min.z;
        while z < local_max.z
            invariant
                local_box(local_min, local_max),
                local_min.z <= z <= local_max.z,
                forall|a: int, b: int| 0 <= a < b < out@.len() ==> out@[a] < out@[b],
                forall|a: int|
                    0 <= a < out@.len()
                        ==> self.has(#[trigger] out@[a] as int)
                            && in_region(out@[a] as int, local_min, local_max)
                        && out@[a] < cell_number(local_min.x as int, local_min.y as int, z as int),
                forall|i: int| #[trigger]
                    self.has(i) && in_region(i, local_min, local_max)
                        && i < cell_number(local_min.x as int, local_min.y as int, z as int)
                        ==> out@.contains(i as usize),
            decreases local_max.z - z,
        {
            let mut y: u32 = local_min.y;
            while y < local_max.y
                invariant
                    local_box(local_min, local_max),
                    local_min.z <= z < local_max.z,
                    local_min.y <= y <= local_max.y,
                    forall|a: int, b: int| 0 <= a < b < out@.len() ==> out@[a] < out@[b],
                    forall|a: int|
                        0 <= a < out@.len()
                            ==> self.has(#[trigger] out@[a] as int)
                                && in_region(out@[a] as int, local_min, local_max)
                            && out@[a] < cell_number(local_min.x as int, y as int, z as int),
                    forall|i: int| #[trigger]
                        self.has(i) && in_region(i, local_min, local_max)
                            && i < cell_number(local_min.x as int, y as int, z as int)
                            ==> out@.contains(i as usize),
                decreases local_max.y - y,
            {
                let mut x: u32 = local_min.x;
                while x < local_max.x
                    invariant
                        local_box(local_min, local_max),
                        local_min.z <= z < local_max.z,
                        local_min.y <= y < local_max.y,
                        local_min.x <= x <= local_max.x,
                        forall|a: int, b: int| 0 <= a < b < out@.len() ==> out@[a] < out@[b],
                        forall|a: int|
                            0 <= a < out@.len()
                                ==> self.has(#[trigger] out@[a] as int)
                                    && in_region(out@[a] as int, local_min, local_max)
                                && out@[a] < cell_number(x as int, y as int, z as int),
                        forall|i: int| #[trigger]
                            self.has(i) && in_region(i, local_min, local_max)
                                && i < cell_number(x as int, y as int, z as int)
                                ==> out@.contains(i as usize),
                    decreases local_max.x - x,
                {
                    let idx = local_index(x, y, z);
                    let ghost before = out@;
                    if self.get(idx) {
                        out.push(idx);
                    }
                    proof {
                        assert forall|i: int| #[trigger]
                            self.has(i) && in_region(i, local_min, local_max) && i
                                < cell_number(x + 1, y as int, z as int)
                                    implies out@.contains(i as usize) by {
                            if i == idx {
                                assert(out@[before.len() as int] == idx);
                            } else {
                                assert(before.contains(i as usize));
                                let a = choose|a: int| 0 <= a < before.len() && before[a] == i as usize;
                                assert(out@[a] == i as usize);
                            }
                        }
                    }
                    x += 1;
                }
                proof {
                    lemma_row_end(local_min, local_max, y as int, z as int);
                }
                y += 1;
            }
            proof {
                lemma_slab_end(local_min, local_max, z as int);
            }
            z += 1;
        }
        out
    }
}

} // verus!
