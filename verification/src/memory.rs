//! A bitmap allocator of 4 KiB physical frames.
//!
//! Each bit of the bitmap stands for one frame: set when the frame is in use,
//! clear when it is free. A hint records the first word that may hold a free
//! bit; every word before it is full.
use vstd::prelude::*;
use vstd::arithmetic::div_mod::lemma_fundamental_div_mod_converse;
use vstd::std_specs::bits::axiom_u64_trailing_zeros;

verus! {

/// The size of a physical frame in bytes.
pub const FRAME_SIZE: u64 = 4096;

/// A range of physical memory as the boot loader reports it.
#[derive(Debug, Clone, Copy, PartialEq, Eq)]
pub struct MemoryRegion {
    pub start_addr: u64,
    pub end_addr: u64,
    /// The region is free for the kernel to use.
    pub usable: bool,
}

/// Bit `b` of `w` is set.
pub open spec fn bit_of(w: u64, b: int) -> bool {
    (w >> (b as u64)) & 1u64 == 1u64
}

/// The bit of frame `i`.
pub open spec fn frame_bit(bitmap: Seq<u64>, i: int) -> bool {
    bit_of(bitmap[i / 64], i % 64)
}

/// The highest end address of a usable region, or 0.
pub open spec fn max_usable_end(regions: Seq<MemoryRegion>) -> u64
    decreases regions.len(),
{
    if regions.len() == 0 {
        0
    } else {
        let m = max_usable_end(regions.drop_last());
        let r = regions.last();
        if r.usable && r.end_addr > m {
            r.end_addr
        } else {
            m
        }
    }
}

/// Some usable region among `regions` covers frame `i`.
pub open spec fn usable_covers(regions: Seq<MemoryRegion>, i: int) -> bool {
    exists|k: int|
        0 <= k < regions.len() && (#[trigger] regions[k]).usable && (regions[k].start_addr as usize)
            / 4096 <= i < (regions[k].end_addr as usize) / 4096
}

/// The number of `true` entries of `s`.
pub open spec fn count_true(s: Seq<bool>) -> nat
    decreases s.len(),
{
    if s.len() == 0 {
        0
    } else {
        count_true(s.drop_last()) + if s.last() {
            1nat
        } else {
            0nat
        }
    }
}

/// The index of the first `false` entry of `s`, or its length when there is none.
pub open spec fn first_free(s: Seq<bool>) -> nat
    decreases s.len(),
{
    if s.len() == 0 {
        0
    } else if !s[0] {
        0
    } else {
        1 + first_free(s.drop_first())
    }
}

/// Which frames are in use, and how many frames were handed out and not given back.
pub struct FrameAllocView {
    pub used: Seq<bool>,
    pub allocated_count: nat,
}

/// What `allocate_frame` does: hand out the lowest free frame by its start
/// address and mark it in use, or give nothing when every frame is in use.
pub open spec fn allocate_spec(v: FrameAllocView) -> (FrameAllocView, Option<u64>) {
    let k = first_free(v.used);
    if k < v.used.len() {
        (
            FrameAllocView { used: v.used.update(k as int, true), allocated_count: v.allocated_count + 1 },
            Some((k * 4096) as u64),
        )
    } else {
        (v, None)
    }
}

/// What `free_frame(addr)` does: mark the frame at `addr` free if it is in use.
pub open spec fn free_spec(v: FrameAllocView, frame_addr: u64) -> FrameAllocView {
    let i = ((frame_addr as usize) / 4096) as int;
    if i < v.used.len() && v.used[i] {
        FrameAllocView { used: v.used.update(i, false), allocated_count: (v.allocated_count - 1) as nat }
    } else {
        v
    }
}

/// A bitmap-based frame allocator.
pub struct BitmapFrameAllocator {
    bitmap: Vec<u64>,
    total_frames: usize,
    next_free: usize,
    allocated_count: usize,
}

impl View for BitmapFrameAllocator {
    type V = FrameAllocView;

    closed spec fn view(&self) -> FrameAllocView {
        FrameAllocView {
            used: Seq::new(self.total_frames as nat, |i: int| frame_bit(self.bitmap@, i)),
            allocated_count: self.allocated_count as nat,
        }
    }
}

// ---------------------------------------------------------------------------
// Bits and counts
// ---------------------------------------------------------------------------

proof fn lemma_bit_set(w: u64, b: u64, j: u64)
    requires
        b < 64,
        j < 64,
    ensures
        bit_of(w | (1u64 << b), j as int) == (j == b || bit_of(w, j as int)),
{
    assert(((w | (1u64 << b)) >> j) & 1u64 == 1u64 <==> (j == b || (w >> j) & 1u64 == 1u64))
        by (bit_vector)
        requires
            b < 64,
            j < 64,
    ;
}

proof fn lemma_bit_clear(w: u64, b: u64, j: u64)
    requires
        b < 64,
        j < 64,
    ensures
        bit_of(w & !(1u64 << b), j as int) == (j != b && bit_of(w, j as int)),
{
    assert(((w & !(1u64 << b)) >> j) & 1u64 == 1u64 <==> (j != b && (w >> j) & 1u64 == 1u64))
        by (bit_vector)
        requires
            b < 64,
            j < 64,
    ;
}

proof fn lemma_bit_test(w: u64, b: u64)
    requires
        b < 64,
    ensures
        (w & (1u64 << b) != 0) == bit_of(w, b as int),
{
    assert((w & (1u64 << b) != 0) <==> ((w >> b) & 1u64 == 1u64)) by (bit_vector)
        requires
            b < 64,
    ;
}

proof fn lemma_bit_full(j: u64)
    requires
        j < 64,
    ensures
        bit_of(u64::MAX, j as int),
{
    assert((0xffff_ffff_ffff_ffffu64 >> j) & 1u64 == 1u64) by (bit_vector)
        requires
            j < 64,
    ;
}

proof fn lemma_bit_not(w: u64, j: u64)
    requires
        j < 64,
    ensures
        bit_of(!w, j as int) == !bit_of(w, j as int),
{
    assert((((!w) >> j) & 1u64 == 1u64) <==> !((w >> j) & 1u64 == 1u64)) by (bit_vector)
        requires
            j < 64,
    ;
}

proof fn lemma_split_index(i: int)
    requires
        0 <= i,
    ensures
        i == (i / 64) * 64 + i % 64,
        0 <= i % 64 < 64,
        0 <= i / 64,
{
}

proof fn lemma_join_index(w: int, b: int)
    requires
        0 <= b < 64,
        0 <= w,
    ensures
        (w * 64 + b) / 64 == w,
        (w * 64 + b) % 64 == b,
{
    lemma_fundamental_div_mod_converse(w * 64 + b, 64, w, b);
}

proof fn lemma_count_update(s: Seq<bool>, i: int, v: bool)
    requires
        0 <= i < s.len(),
    ensures
        count_true(s.update(i, v)) + (if s[i] { 1int } else { 0int }) == count_true(s) + (if v {
            1int
        } else {
            0int
        }),
    decreases s.len(),
{
    let t = s.update(i, v);
    if i == s.len() - 1 {
        assert(t.drop_last() =~= s.drop_last());
    } else {
        lemma_count_update(s.drop_last(), i, v);
        assert(t.drop_last() =~= s.drop_last().update(i, v));
    }
}

proof fn lemma_count_bound(s: Seq<bool>)
    ensures
        count_true(s) <= s.len(),
        first_free(s) < s.len() ==> count_true(s) < s.len(),
    decreases s.len(),
{
    if s.len() > 0 {
        lemma_count_bound(s.drop_last());
        if first_free(s) < s.len() {
            lemma_first_free(s, first_free(s) as int);
            if s.last() {
                let k = first_free(s) as int;
                assert(k < s.len() - 1);
                assert(!s.drop_last()[k]);
                lemma_first_free_of_false(s.drop_last(), k);
            }
        }
    }
}

proof fn lemma_first_free_of_false(s: Seq<bool>, k: int)
    requires
        0 <= k < s.len(),
        !s[k],
    ensures
        first_free(s) <= k,
    decreases k,
{
    if k > 0 && s[0] {
        assert(s.drop_first()[k - 1] == s[k]);
        lemma_first_free_of_false(s.drop_first(), k - 1);
    }
}

proof fn lemma_first_free(s: Seq<bool>, k: int)
    requires
        k == first_free(s),
    ensures
        0 <= k <= s.len(),
        forall|j: int| 0 <= j < k ==> #[trigger] s[j],
        k < s.len() ==> !s[k],
    decreases s.len(),
{
    if s.len() > 0 && s[0] {
        let t = s.drop_first();
        lemma_first_free(t, first_free(t) as int);
        assert forall|j: int| 0 <= j < k implies #[trigger] s[j] by {
            if j > 0 {
                assert(s[j] == t[j - 1]);
            }
        }
        if k < s.len() {
            assert(s[k] == t[k - 1]);
        }
    }
}

proof fn lemma_first_free_is(s: Seq<bool>, k: int)
    requires
        0 <= k <= s.len(),
        forall|j: int| 0 <= j < k ==> #[trigger] s[j],
        k < s.len() ==> !s[k],
    ensures
        first_free(s) == k,
    decreases k,
{
    if k > 0 {
        let t = s.drop_first();
        assert forall|j: int| 0 <= j < k - 1 implies #[trigger] t[j] by {
            assert(t[j] == s[j + 1]);
        }
        if k < s.len() {
            assert(t[k - 1] == s[k]);
        }
        lemma_first_free_is(t, k - 1);
    }
}

impl BitmapFrameAllocator {
    /// The bitmap covers every frame, with the bits past the last frame set;
    /// every word before the hint is full; the count of frames handed out is
    /// at most the number of frames in use.
    pub closed spec fn wf(&self) -> bool {
        &&& self.total_frames <= usize::MAX / 4096
        &&& self.bitmap@.len() == (self.total_frames + 63) / 64
        &&& forall|i: int|
            self.total_frames <= i < self.bitmap@.len() * 64 ==> #[trigger] frame_bit(self.bitmap@, i)
        &&& self.next_free <= self.bitmap@.len()
        &&& forall|w: int| 0 <= w < self.next_free ==> #[trigger] self.bitmap@[w] == u64::MAX
        &&& self.allocated_count <= count_true(self@.used)
    }

    /// Changing bit `b` of word `w` changes the use of frame `64 w + b` alone.
    proof fn lemma_word_update(bm: Seq<u64>, bm2: Seq<u64>, w: int, b: int, total: nat, v: bool)
        requires
            0 <= w < bm.len(),
            0 <= b < 64,
            bm2 == bm.update(w, bm2[w]),
            bm2.len() == bm.len(),
            bit_of(bm2[w], b) == v,
            forall|j: u64| j < 64 && j != b ==> bit_of(bm2[w], j as int) == bit_of(bm[w], j as int),
            w * 64 + b < total,
            total <= bm.len() * 64,
        ensures
            Seq::new(total, |i: int| frame_bit(bm2, i)) == Seq::new(total, |i: int| frame_bit(bm, i)).update(
                w * 64 + b,
                v,
            ),
            forall|i: int| total <= i < bm.len() * 64 ==> #[trigger] frame_bit(bm2, i) == frame_bit(bm, i),
    {
        let f = w * 64 + b;
        lemma_join_index(w, b);
        assert forall|i: int| 0 <= i < bm.len() * 64 && i != f implies #[trigger] frame_bit(bm2, i)
            == frame_bit(bm, i) by {
            lemma_split_index(i);
            assert(i / 64 < bm.len()) by (nonlinear_arith)
                requires
                    0 <= i < bm.len() * 64,
                    i == (i / 64) * 64 + i % 64,
                    0 <= i % 64 < 64,
            ;
            if i / 64 == w {
                let j = (i % 64) as u64;
                assert(j != b);
            }
        }
        assert(Seq::new(total, |i: int| frame_bit(bm2, i)) =~= Seq::new(total, |i: int| frame_bit(bm, i)).update(f, v));
    }

    /// Builds the allocator from the boot loader's memory map: every frame up
    /// to the end of the highest usable region, in use unless a usable region
    /// covers it.
    pub fn init(regions: &Vec<MemoryRegion>) -> (a: Self)
        ensures
            a.wf(),
            a@.used == Seq::new(
                ((max_usable_end(regions@) as usize) / 4096) as nat,
                |i: int| !usable_covers(regions@, i),
            ),
            a@.allocated_count == 0,
    {
        let mut max_addr: u64 = 0;
        let mut k: usize = 0;
        while k < regions.len()
            invariant
                k <= regions@.len(),
                max_addr == max_usable_end(regions@.take(k as int)),
            decreases regions@.len() - k,
        {
            assert(regions@.take(k + 1).drop_last() =~= regions@.take(k as int));
            if regions[k].usable && regions[k].end_addr > max_addr {
                max_addr = regions[k].end_addr;
            }
            k += 1;
        }
        assert(regions@.take(regions@.len() as int) =~= regions@);
        let total_frames = (max_addr as usize) / 4096;
        let bitmap_words = (total_frames + 63) / 64;
        let mut bitmap: Vec<u64> = Vec::with_capacity(bitmap_words);
        let mut w: usize = 0;
        while w < bitmap_words
            invariant
                w <= bitmap_words,
                bitmap@.len() == w,
                forall|j: int| 0 <= j < w ==> #[trigger] bitmap@[j] == u64::MAX,
            decreases bitmap_words - w,
        {
            bitmap.push(u64::MAX);
            w += 1;
        }
        proof {
            assert forall|i: int| 0 <= i < bitmap@.len() * 64 implies #[trigger] frame_bit(bitmap@, i) by {
                lemma_split_index(i);
                assert(i / 64 < bitmap@.len()) by (nonlinear_arith)
                    requires
                        0 <= i < bitmap@.len() * 64,
                        i == (i / 64) * 64 + i % 64,
                        0 <= i % 64 < 64,
                ;
                lemma_bit_full((i % 64) as u64);
            }
            assert(total_frames <= bitmap@.len() * 64);
        }
        let mut k: usize = 0;
        while k < regions.len()
            invariant
                k <= regions@.len(),
                bitmap@.len() == bitmap_words,
                bitmap_words == (total_frames + 63) / 64,
                total_frames <= bitmap@.len() * 64,
                forall|i: int| total_frames <= i < bitmap@.len() * 64 ==> #[trigger] frame_bit(bitmap@, i),
                forall|i: int| 0 <= i < total_frames ==> #[trigger] frame_bit(bitmap@, i) == !usable_covers(regions@.take(k as int), i),
            decreases regions@.len() - k,
        {
            let region = &regions[k];
            if region.usable {
                let start_frame = (region.start_addr as usize) / 4096;
                let end_frame = (region.end_addr as usize) / 4096;
                let mut f: usize = start_frame;
                while f < end_frame
                    invariant
                        k < regions@.len(),
                        *region == regions@[k as int],
                        region.usable,
                        start_frame == (region.start_addr as usize) / 4096,
                        end_frame == (region.end_addr as usize) / 4096,
                        start_frame <= f,
                        start_frame < end_frame ==> f <= end_frame,
                        start_frame >= end_frame ==> f == start_frame,
                        bitmap@.len() == bitmap_words,
                        total_frames <= bitmap@.len() * 64,
                        forall|i: int| total_frames <= i < bitmap@.len() * 64 ==> #[trigger] frame_bit(bitmap@, i),
                        forall|i: int| 0 <= i < total_frames ==> #[trigger] frame_bit(bitmap@, i) == !(
                            usable_covers(regions@.take(k as int), i) || (start_frame <= i < f)),
                    decreases end_frame - f,
                {
                    if f < total_frames {
                        let word = f / 64;
                        let bit = f % 64;
                        let ghost bm = bitmap@;
                        let nw = bitmap[word] & !(1u64 << (bit as u64));
                        bitmap.set(word, nw);
                        proof {
                            lemma_split_index(f as int);
                            assert forall|j: u64| j < 64 && j != bit implies bit_of(bitmap@[word as int], j as int)
                                == bit_of(bm[word as int], j as int) by {
                                lemma_bit_clear(bm[word as int], bit as u64, j);
                            }
                            lemma_bit_clear(bm[word as int], bit as u64, bit as u64);
                            Self::lemma_word_update(bm, bitmap@, word as int, bit as int, total_frames as nat, false);
                            assert forall|i: int| 0 <= i < total_frames implies #[trigger] frame_bit(bitmap@, i) == !(
                                usable_covers(regions@.take(k as int), i) || (start_frame <= i < f + 1)) by {
                                let s1 = Seq::new(total_frames as nat, |i: int| frame_bit(bitmap@, i));
                                let s0 = Seq::new(total_frames as nat, |i: int| frame_bit(bm, i));
                                assert(s1[i] == frame_bit(bitmap@, i));
                                assert(s0[i] == frame_bit(bm, i));
                            }
                        }
                    }
                    f += 1;
                }
            }
            proof {
                let rk = regions@.take(k + 1);
                assert forall|i: int| 0 <= i < total_frames implies #[trigger] frame_bit(bitmap@, i) == !usable_covers(rk, i) by {
                    if usable_covers(rk, i) {
                        let j = choose|j: int| 0 <= j < rk.len() && (#[trigger] rk[j]).usable && (rk[j].start_addr as usize) / 4096 <= i < (rk[j].end_addr as usize) / 4096;
                        if j < k {
                            assert(regions@.take(k as int)[j] == rk[j]);
                        }
                    }
                    if usable_covers(regions@.take(k as int), i) {
                        let j = choose|j: int| 0 <= j < k && (#[trigger] regions@.take(k as int)[j]).usable
                            && (regions@.take(k as int)[j].start_addr as usize) / 4096 <= i < (regions@.take(k as int)[j].end_addr as usize) / 4096;
                        assert(rk[j] == regions@.take(k as int)[j]);
                    }
                    if regions@[k as int].usable && (regions@[k as int].start_addr as usize) / 4096 <= i < (regions@[k as int].end_addr as usize) / 4096 {
                        assert(rk[k as int] == regions@[k as int]);
                    }
                }
            }
            k += 1;
        }
        assert(regions@.take(regions@.len() as int) =~= regions@);
        let a = BitmapFrameAllocator { bitmap, total_frames, next_free: 0, allocated_count: 0 };
        proof {
            assert(a@.used =~= Seq::new(
                ((max_usable_end(regions@) as usize) / 4096) as nat,
                |i: int| !usable_covers(regions@, i),
            ));
        }
        a
    }

    /// The number of frames, of frames handed out, and the difference.
    pub fn stats(&self) -> (r: (usize, usize, usize))
        requires
            self.wf(),
        ensures
            r.0 == self@.used.len(),
            r.1 == self@.allocated_count,
            r.2 == self@.used.len() - self@.allocated_count,
    {
        proof {
            lemma_count_bound(self@.used);
        }
        let free = self.total_frames - self.allocated_count;
        (self.total_frames, self.allocated_count, free)
    }

    /// The frame that starts at `frame_addr` is one of the frames and is in use.
    pub fn frame_in_use(&self, frame_addr: u64) -> (b: bool)
        requires
            self.wf(),
        ensures
            b == (((frame_addr as usize) / 4096) < self@.used.len() && self@.used[((frame_addr as usize) / 4096) as int]),
    {
        let frame_idx = (frame_addr as usize) / 4096;
        if frame_idx < self.total_frames {
            let word = frame_idx / 64;
            let bit = frame_idx % 64;
            proof {
                lemma_split_index(frame_idx as int);
                lemma_bit_test(self.bitmap@[word as int], bit as u64);
            }
            self.bitmap[word] & (1u64 << (bit as u64)) != 0
        } else {
            false
        }
    }

    /// Marks the frame that starts at `frame_addr` free, if it is in use.
    pub fn free_frame(&mut self, frame_addr: u64)
        requires
            old(self).wf(),
            !(((frame_addr as usize) / 4096) < old(self)@.used.len() && old(self)@.used[((frame_addr as usize) / 4096) as int]
                && old(self)@.allocated_count == 0),
        ensures
            final(self).wf(),
            final(self)@ == free_spec(old(self)@, frame_addr),
    {
        let frame_idx = (frame_addr as usize) / 4096;
        if frame_idx < self.total_frames {
            let word = frame_idx / 64;
            let bit = frame_idx % 64;
            proof {
                lemma_split_index(frame_idx as int);
                lemma_bit_test(self.bitmap@[word as int], bit as u64);
                assert(old(self)@.used[frame_idx as int] == frame_bit(self.bitmap@, frame_idx as int));
            }
            if self.bitmap[word] & (1u64 << (bit as u64)) != 0 {
                let ghost bm = self.bitmap@;
                let ghost used0 = old(self)@.used;
                let nw = self.bitmap[word] & !(1u64 << (bit as u64));
                self.bitmap.set(word, nw);
                self.allocated_count -= 1;
                if word < self.next_free {
                    self.next_free = word;
                }
                proof {
                    assert forall|j: u64| j < 64 && j != bit implies bit_of(self.bitmap@[word as int], j as int)
                        == bit_of(bm[word as int], j as int) by {
                        lemma_bit_clear(bm[word as int], bit as u64, j);
                    }
                    lemma_bit_clear(bm[word as int], bit as u64, bit as u64);
                    Self::lemma_word_update(bm, self.bitmap@, word as int, bit as int, self.total_frames as nat, false);
                    lemma_count_update(used0, frame_idx as int, false);
                    assert forall|w: int| 0 <= w < self.next_free implies #[trigger] self.bitmap@[w] == u64::MAX by {
                        assert(w != word);
                    }
                }
            }
        }
    }

    /// Hands out the lowest free frame, by its start address, and marks it in use.
    pub fn allocate_frame(&mut self) -> (r: Option<u64>)
        requires
            old(self).wf(),
        ensures
            final(self).wf(),
            (final(self)@, r) == allocate_spec(old(self)@),
            first_free(old(self)@.used) * 4096 <= usize::MAX,
    {
        let ghost used0 = old(self)@.used;
        let mut w: usize = self.next_free;
        while w < self.bitmap.len()
            invariant
                self.wf(),
                *self == *old(self),
                used0 == old(self)@.used,
                self.next_free <= w <= self.bitmap@.len(),
                forall|j: int| 0 <= j < w ==> #[trigger] self.bitmap@[j] == u64::MAX,
            decreases self.bitmap@.len() - w,
        {
            let word = self.bitmap[w];
            if word != u64::MAX {
                let nword = !word;
                let bit = nword.trailing_zeros() as usize;
                proof {
                    assert(word != 0xffff_ffff_ffff_ffffu64 ==> !word != 0u64) by (bit_vector);
                    axiom_u64_trailing_zeros(nword);
                    lemma_bit_not(word, bit as u64);
                }
                let frame_idx = w * 64 + bit;
                proof {
                    lemma_join_index(w as int, bit as int);
                    // every frame below `frame_idx` is in use
                    assert forall|j: int| 0 <= j < frame_idx implies #[trigger] frame_bit(self.bitmap@, j) by {
                        lemma_split_index(j);
                        if j / 64 < w {
                            lemma_bit_full((j % 64) as u64);
                        } else {
                            assert(j / 64 == w) by (nonlinear_arith)
                                requires
                                    j == (j / 64) * 64 + j % 64,
                                    0 <= j % 64 < 64,
                                    j < w * 64 + bit,
                                    bit < 64,
                                    j / 64 >= w,
                            ;
                            let jb = (j % 64) as u64;
                            assert(((nword >> jb) & 1u64) == 0u64);
                            lemma_bit_not(word, jb);
                        }
                    }
                }
                if frame_idx >= self.total_frames {
                    proof {
                        assert(frame_bit(self.bitmap@, frame_idx as int));
                        assert(false);
                    }
                    return None;
                }
                let ghost bm = self.bitmap@;
                assert(used0.len() == self.total_frames);
                assert(bm == old(self).bitmap@);
                self.bitmap.set(w, word | (1u64 << (bit as u64)));
                proof {
                    assert forall|j: u64| j < 64 && j != bit implies bit_of(self.bitmap@[w as int], j as int)
                        == bit_of(bm[w as int], j as int) by {
                        lemma_bit_set(word, bit as u64, j);
                    }
                    lemma_bit_set(word, bit as u64, bit as u64);
                    Self::lemma_word_update(bm, self.bitmap@, w as int, bit as int, self.total_frames as nat, true);
                    lemma_first_free_is(used0, frame_idx as int);
                    lemma_count_update(used0, frame_idx as int, true);
                    lemma_count_bound(used0);
                }
                self.allocated_count += 1;
                self.next_free = w;
                proof {
                    assert forall|j: int| 0 <= j < self.next_free implies #[trigger] self.bitmap@[j] == u64::MAX by {
                        assert(self.bitmap@[j] == bm[j]);
                    }
                }
                assert(frame_idx * 4096 <= usize::MAX);
                return Some((frame_idx as u64) * 4096);
            }
            w += 1;
        }
        proof {
            assert forall|j: int| 0 <= j < used0.len() implies #[trigger] used0[j] by {
                lemma_split_index(j);
                assert(j / 64 < self.bitmap@.len()) by (nonlinear_arith)
                    requires
                        j == (j / 64) * 64 + j % 64,
                        0 <= j % 64 < 64,
                        0 <= j < self.bitmap@.len() * 64,
                ;
                lemma_bit_full((j % 64) as u64);
            }
            lemma_first_free_is(used0, used0.len() as int);
        }
        None
    }
}


// ---------------------------------------------------------------------------
// Laws
// ---------------------------------------------------------------------------

/// The frame handed out was free, and every frame below it is in use.
pub proof fn law_allocates_lowest_free(a: BitmapFrameAllocator)
    requires
        a.wf(),
        allocate_spec(a@).1 is Some,
    ensures
        ({
            let k = first_free(a@.used) as int;
            &&& !a@.used[k]
            &&& forall|j: int| 0 <= j < k ==> #[trigger] a@.used[j]
            &&& allocate_spec(a@).0.used[k]
        }),
{
    lemma_first_free(a@.used, first_free(a@.used) as int);
}

/// Giving back the frame just handed out restores the allocator's state.
pub proof fn law_allocate_then_free(a: BitmapFrameAllocator)
    requires
        a.wf(),
        allocate_spec(a@).1 is Some,
    ensures
        free_spec(allocate_spec(a@).0, allocate_spec(a@).1->Some_0) == a@,
{
    let v = a@;
    let k = first_free(v.used);
    lemma_first_free(v.used, k as int);
    assert(k * 4096 <= usize::MAX) by {
        assert(a.total_frames <= usize::MAX / 4096);
    }
    assert(((k * 4096) as u64) as usize == k * 4096);
    lemma_join_index(k as int, 0);
    assert((k * 4096) / 4096 == k) by (nonlinear_arith);
    assert(v.used.update(k as int, true).update(k as int, false) =~= v.used);
}

/// Frames handed out and frames left add up to all frames.
pub proof fn law_stats_add_up(a: BitmapFrameAllocator)
    requires
        a.wf(),
    ensures
        a@.allocated_count <= a@.used.len(),
{
    lemma_count_bound(a@.used);
}

} // verus!
