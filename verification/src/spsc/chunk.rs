//! The backing buffer of the queue.

use std::collections::VecDeque;
use std::ops::Range;
use std::slice::SliceIndex;

use vstd::prelude::*;
use vstd::slice::SliceIndexSpec;

use crate::ring;

verus! {

/// A slot of a [`Chunk`]: empty, or holding a value.
pub type ChunkItem<T> = Option<T>;

/// A fixed number of slots that are addressed as a ring.
pub struct Chunk<T> {
    data: Vec<ChunkItem<T>>,
}

impl<T> View for Chunk<T> {
    type V = Seq<ChunkItem<T>>;

    closed spec fn view(&self) -> Seq<ChunkItem<T>> {
        self.data@
    }
}

/// The physical ranges of the logical range `start..end` in a ring of `len`
/// slots: one range where it does not pass the end of the ring, else the part
/// up to the end and the part from the start.
pub open spec fn translated(start: int, end: int, len: int) -> (
    (int, int),
    Option<(int, int)>,
) {
    let lo = start % len;
    let stop = lo + (end - start);
    if stop <= len {
        ((lo, stop), None)
    } else {
        ((lo, len), Some((0, stop - len)))
    }
}

impl<T> Chunk<T> {
    /// The content of the slot of logical index `i`.
    pub open spec fn slot(self, i: int) -> ChunkItem<T> {
        self@[i % self@.len() as int]
    }

    /// Creates a chunk of `len` empty slots.
    pub fn new(len: usize) -> (chunk: Self)
        ensures
            chunk@ == Seq::new(len as nat, |j: int| None::<T>),
    {
        let mut data: Vec<ChunkItem<T>> = Vec::with_capacity(len);
        let mut filled: usize = 0;
        while filled < len
            invariant
                filled <= len,
                data@ == Seq::new(filled as nat, |j: int| None::<T>),
            decreases len - filled,
        {
            data.push(None);
            filled += 1;
            assert(data@ =~= Seq::new(filled as nat, |j: int| None::<T>));
        }
        Self { data }
    }

    /// The number of slots.
    pub fn capacity(&self) -> (capacity: usize)
        ensures
            capacity == self@.len(),
    {
        self.data.len()
    }

    /// A slot, or the slots of a physical range.
    pub fn get<I: SliceIndex<[ChunkItem<T>]>>(&self, index: I) -> (slots: &I::Output)
        requires
            forall|data: &[ChunkItem<T>]| #[trigger] data@ == self@ ==> index.index_req(data),
        ensures
            exists|data: &[ChunkItem<T>]|
                {
                    &&& #[trigger] data@ == self@
                    &&& call_ensures(
                        <I as SliceIndex<[ChunkItem<T>]>>::index,
                        (index, data),
                        slots,
                    )
                },
    {
        &self.data[index]
    }

    /// The slots of a physical range, for writing.
    pub fn get_mut(&mut self, range: Range<usize>) -> (slots: &mut [ChunkItem<T>])
        requires
            range.start <= range.end <= old(self)@.len(),
        ensures
            slots@ == old(self)@.subrange(range.start as int, range.end as int),
            final(slots)@.len() == slots@.len() ==> final(self)@ == old(self)@.subrange(
                0,
                range.start as int,
            ) + final(slots)@ + old(self)@.subrange(range.end as int, old(self)@.len() as int),
    {
        let (_, rest) = self.data.as_mut_slice().split_at_mut(range.start);
        let (slots, _) = rest.split_at_mut(range.end - range.start);
        slots
    }

    /// The slot of a logical index.
    pub fn get_logical(&self, index: u64) -> (slot: &ChunkItem<T>)
        requires
            self@.len() > 0,
        ensures
            *slot == self.slot(index as int),
    {
        let len: u64 = self.data.len() as u64;
        &self.data[(index % len) as usize]
    }

    /// Translates a logical range into one or two physical ranges.
    ///
    /// The ranges returned do not overlap, and the slots they list, one after
    /// the other, are those of the logical indices in order.
    pub fn translate_range(&self, range: Range<u64>) -> (r: (Range<usize>, Option<Range<usize>>))
        requires
            range.start <= range.end,
            range.end - range.start <= self@.len(),
            self@.len() > 0,
        ensures
            ({
                let (first, second) = translated(
                    range.start as int,
                    range.end as int,
                    self@.len() as int,
                );
                &&& r.0.start == first.0
                &&& r.0.end == first.1
                &&& match r.1 {
                    Some(rest) => second == Some((rest.start as int, rest.end as int)),
                    None => second is None,
                }
            }),
    {
        let len: u64 = self.data.len() as u64;
        let lo: usize = (range.start % len) as usize;
        let hi: usize = (range.end % len) as usize;
        proof {
            ring::lemma_step(range.start as int, range.end - range.start, len as int);
        }
        if range.start == range.end {
            return (lo..hi, None);
        }
        if hi == 0 {
            (lo..self.data.len(), None)
        } else if lo < hi {
            (lo..hi, None)
        } else {
            (lo..self.data.len(), Some(0..hi))
        }
    }

    /// Empties the slots of a physical range, dropping the values in them.
    pub fn drop_range(&mut self, range: Range<usize>)
        requires
            range.start <= range.end <= old(self)@.len(),
        ensures
            final(self)@.len() == old(self)@.len(),
            forall|j: int|
                0 <= j < old(self)@.len() ==> #[trigger] final(self)@[j] == if range.start <= j
                    < range.end {
                    None
                } else {
                    old(self)@[j]
                },
    {
        let mut at: usize = range.start;
        while at < range.end
            invariant
                range.start <= at <= range.end <= old(self)@.len(),
                self@.len() == old(self)@.len(),
                forall|j: int|
                    0 <= j < old(self)@.len() ==> #[trigger] self@[j] == if range.start <= j < at {
                        None
                    } else {
                        old(self)@[j]
                    },
            decreases range.end - at,
        {
            self.data[at] = None;
            at += 1;
        }
    }

    /// Puts a value into the slot of a logical index.
    pub fn put_logical(&mut self, index: u64, value: T)
        requires
            old(self)@.len() > 0,
        ensures
            final(self)@ == old(self)@.update(
                index as int % old(self)@.len() as int,
                Some(value),
            ),
    {
        let len: u64 = self.data.len() as u64;
        self.data[(index % len) as usize] = Some(value);
    }

    /// Takes the value out of the slot of a logical index.
    pub fn take_logical(&mut self, index: u64) -> (item: ChunkItem<T>)
        requires
            old(self)@.len() > 0,
        ensures
            item == old(self).slot(index as int),
            final(self)@ == old(self)@.update(index as int % old(self)@.len() as int, None),
    {
        let len: u64 = self.data.len() as u64;
        self.data[(index % len) as usize].take()
    }

    /// Moves the values out of the slots of a physical range, in order, to the
    /// end of `out`.
    pub fn drain_range(&mut self, range: Range<usize>, out: &mut VecDeque<T>)
        requires
            range.start <= range.end <= old(self)@.len(),
            forall|j: int| range.start <= j < range.end ==> #[trigger] old(self)@[j] is Some,
        ensures
            final(out)@ == old(out)@ + Seq::new(
                (range.end - range.start) as nat,
                |k: int| old(self)@[range.start + k]->0,
            ),
            final(self)@.len() == old(self)@.len(),
            forall|j: int|
                0 <= j < old(self)@.len() ==> #[trigger] final(self)@[j] == if range.start <= j
                    < range.end {
                    None
                } else {
                    old(self)@[j]
                },
    {
        let mut at: usize = range.start;
        while at < range.end
            invariant
                range.start <= at <= range.end <= old(self)@.len(),
                forall|j: int| range.start <= j < range.end ==> #[trigger] old(self)@[j] is Some,
                out@ == old(out)@ + Seq::new(
                    (at - range.start) as nat,
                    |k: int| old(self)@[range.start + k]->0,
                ),
                self@.len() == old(self)@.len(),
                forall|j: int|
                    0 <= j < old(self)@.len() ==> #[trigger] self@[j] == if range.start <= j < at {
                        None
                    } else {
                        old(self)@[j]
                    },
            decreases range.end - at,
        {
            assert(old(self)@[at as int] is Some);
            if let Some(value) = self.data[at].take() {
                out.push_back(value);
            }
            at += 1;
            assert(out@ =~= old(out)@ + Seq::new(
                (at - range.start) as nat,
                |k: int| old(self)@[range.start + k]->0,
            ));
        }
    }

    /// Whether `self` is `before` with the slots of the logical range
    /// `start..end` taken over from `source`.
    pub open spec fn received(self, before: Self, source: Self, start: int, end: int) -> bool {
        &&& self@.len() == before@.len()
        &&& forall|i: int| start <= i < end ==> #[trigger] self.slot(i) == source.slot(i)
        &&& forall|j: int|
            0 <= j < self@.len() && !ring::covers(start, end, self@.len() as int, j)
                ==> #[trigger] self@[j] == before@[j]
    }

    /// Whether `self` is `before` with the slots of the logical range
    /// `start..end` emptied.
    pub open spec fn vacated(self, before: Self, start: int, end: int) -> bool {
        &&& self@.len() == before@.len()
        &&& forall|i: int| start <= i < end ==> #[trigger] self.slot(i) is None
        &&& forall|j: int|
            0 <= j < self@.len() && !ring::covers(start, end, self@.len() as int, j)
                ==> #[trigger] self@[j] == before@[j]
    }

    /// Moves one run of slots that is contiguous in both chunks: the logical
    /// range `at..at + run`, which starts at the slots `to` and `from`.
    pub(crate) fn move_run(
        &mut self,
        src: &mut Self,
        Ghost(at): Ghost<int>,
        to: usize,
        from: usize,
        run: usize,
    )
        requires
            0 <= at,
            to == at % old(self)@.len() as int,
            to + run <= old(self)@.len(),
            from == at % old(src)@.len() as int,
            from + run <= old(src)@.len(),
            old(self)@.len() > 0,
            old(src)@.len() > 0,
        ensures
            final(self).received(*old(self), *old(src), at, at + run),
            final(src).vacated(*old(src), at, at + run),
    {
        let ghost dst_len = self.data.len() as int;
        let ghost src_len = src.data.len() as int;
        move_uninit_slice(self.get_mut(to..to + run), src.get_mut(from..from + run));
        proof {
            assert forall|i: int| at <= i < at + run implies #[trigger] self.slot(i) == old(
                src,
            ).slot(i) by {
                ring::lemma_step(at, i - at, dst_len);
                ring::lemma_step(at, i - at, src_len);
            }
            assert forall|i: int| at <= i < at + run implies #[trigger] src.slot(i) is None by {
                ring::lemma_step(at, i - at, src_len);
            }
            assert forall|j: int|
                0 <= j < dst_len && !ring::covers(at, at + run, dst_len, j) implies
                #[trigger] self@[j] == old(self)@[j] by {
                if to <= j < to + run {
                    ring::lemma_step(at, j - to, dst_len);
                    assert((at + (j - to)) % dst_len == j);
                }
            }
            assert forall|j: int|
                0 <= j < src_len && !ring::covers(at, at + run, src_len, j) implies
                #[trigger] src@[j] == old(src)@[j] by {
                if from <= j < from + run {
                    ring::lemma_step(at, j - from, src_len);
                    assert((at + (j - from)) % src_len == j);
                }
            }
        }
    }

    /// Two adjoining moves make one: first `a..b`, then `b..c`.
    pub proof fn lemma_moves_join(
        d: (Self, Self, Self),
        s: (Self, Self, Self),
        a: int,
        b: int,
        c: int,
    )
        requires
            a <= b <= c,
            c - a <= d.0@.len(),
            c - a <= s.0@.len(),
            d.0@.len() > 0,
            s.0@.len() > 0,
            d.1.received(d.0, s.0, a, b),
            s.1.vacated(s.0, a, b),
            d.2.received(d.1, s.1, b, c),
            s.2.vacated(s.1, b, c),
        ensures
            d.2.received(d.0, s.0, a, c),
            s.2.vacated(s.0, a, c),
    {
        let dst_len = d.0@.len() as int;
        let src_len = s.0@.len() as int;
        assert forall|i: int| a <= i < b implies !ring::covers(
            b,
            c,
            dst_len,
            #[trigger] (i % dst_len),
        ) by {
            assert forall|k: int| b <= k < c implies #[trigger] (k % dst_len) != i % dst_len by {
                ring::lemma_distinct(i, k, dst_len);
            }
        }
        assert forall|i: int| a <= i < b implies !ring::covers(
            b,
            c,
            src_len,
            #[trigger] (i % src_len),
        ) by {
            assert forall|k: int| b <= k < c implies #[trigger] (k % src_len) != i % src_len by {
                ring::lemma_distinct(i, k, src_len);
            }
        }
        assert forall|i: int| b <= i < c implies !ring::covers(
            a,
            b,
            src_len,
            #[trigger] (i % src_len),
        ) by {
            assert forall|k: int| a <= k < b implies #[trigger] (k % src_len) != i % src_len by {
                ring::lemma_distinct(k, i, src_len);
            }
        }
        assert forall|i: int| a <= i < c implies #[trigger] d.2.slot(i) == s.0.slot(i) by {
            ring::lemma_step(i, 0, dst_len);
            ring::lemma_step(i, 0, src_len);
            if i < b {
                assert(d.1.slot(i) == s.0.slot(i));
            } else {
                assert(d.2.slot(i) == s.1.slot(i));
            }
        }
        assert forall|i: int| a <= i < c implies #[trigger] s.2.slot(i) is None by {
            ring::lemma_step(i, 0, src_len);
            if i < b {
                assert(s.1.slot(i) is None);
            }
        }
        assert forall|j: int|
            0 <= j < dst_len && !ring::covers(a, c, dst_len, j) implies #[trigger] d.2@[j]
            == d.0@[j] by {
            assert(!ring::covers(a, b, dst_len, j));
            assert(!ring::covers(b, c, dst_len, j));
            assert(d.1@[j] == d.0@[j]);
        }
        assert forall|j: int|
            0 <= j < src_len && !ring::covers(a, c, src_len, j) implies #[trigger] s.2@[j]
            == s.0@[j] by {
            assert(!ring::covers(a, b, src_len, j));
            assert(!ring::covers(b, c, src_len, j));
            assert(s.1@[j] == s.0@[j]);
        }
    }

    /// Takes over the slots of the logical range from another chunk, where it
    /// may lie differently. The slots are empty in `src` afterwards.
    pub fn copy_from(&mut self, src: &mut Self, range: Range<u64>)
        requires
            range.start <= range.end,
            range.end - range.start <= old(self)@.len(),
            range.end - range.start <= old(src)@.len(),
            old(self)@.len() > 0,
            old(src)@.len() > 0,
        ensures
            final(self).received(*old(self), *old(src), range.start as int, range.end as int),
            final(src).vacated(*old(src), range.start as int, range.end as int),
    {
        let ghost start = range.start as int;
        let ghost end = range.end as int;
        let (src1, src2) = src.translate_range(range.start..range.end);
        let (dst1, dst2) = self.translate_range(range.start..range.end);
        let src_len: usize = src1.end - src1.start;
        let dst_len: usize = dst1.end - dst1.start;
        proof {
            ring::lemma_step(start, end - start, old(self)@.len() as int);
            ring::lemma_step(start, end - start, old(src)@.len() as int);
            ring::lemma_step(start, src_len as int, old(self)@.len() as int);
            ring::lemma_step(start, src_len as int, old(src)@.len() as int);
            ring::lemma_step(start, dst_len as int, old(self)@.len() as int);
            ring::lemma_step(start, dst_len as int, old(src)@.len() as int);
        }
        match (src2, dst2) {
            // Both segments are contiguous.
            (None, None) => {
                self.move_run(src, Ghost(start), dst1.start, src1.start, src_len);
            },
            // The destination is contiguous, the source is not.
            (Some(src2), None) => {
                self.move_run(src, Ghost(start), dst1.start, src1.start, src_len);
                let ghost (d1, s1) = (*self, *src);
                self.move_run(
                    src,
                    Ghost(start + src_len),
                    dst1.start + src_len,
                    src2.start,
                    src2.end - src2.start,
                );
                proof {
                    Self::lemma_moves_join(
                        (*old(self), d1, *self),
                        (*old(src), s1, *src),
                        start,
                        start + src_len,
                        end,
                    );
                }
            },
            // The source is contiguous, the destination is not.
            (None, Some(dst2)) => {
                self.move_run(src, Ghost(start), dst1.start, src1.start, dst_len);
                let ghost (d1, s1) = (*self, *src);
                self.move_run(
                    src,
                    Ghost(start + dst_len),
                    dst2.start,
                    src1.start + dst_len,
                    dst2.end - dst2.start,
                );
                proof {
                    Self::lemma_moves_join(
                        (*old(self), d1, *self),
                        (*old(src), s1, *src),
                        start,
                        start + dst_len,
                        end,
                    );
                }
            },
            // Neither is contiguous.
            (Some(src2), Some(dst2)) => {
                if src_len < dst_len {
                    let middle: usize = dst_len - src_len;
                    self.move_run(src, Ghost(start), dst1.start, src1.start, src_len);
                    let ghost (d1, s1) = (*self, *src);
                    self.move_run(
                        src,
                        Ghost(start + src_len),
                        dst1.start + src_len,
                        src2.start,
                        middle,
                    );
                    proof {
                        Self::lemma_moves_join(
                            (*old(self), d1, *self),
                            (*old(src), s1, *src),
                            start,
                            start + src_len,
                            start + dst_len,
                        );
                    }
                    let ghost (d1, s1) = (*self, *src);
                    self.move_run(
                        src,
                        Ghost(start + dst_len),
                        dst2.start,
                        src2.start + middle,
                        dst2.end - dst2.start,
                    );
                    proof {
                        Self::lemma_moves_join(
                            (*old(self), d1, *self),
                            (*old(src), s1, *src),
                            start,
                            start + dst_len,
                            end,
                        );
                    }
                } else if src_len > dst_len {
                    let middle: usize = src_len - dst_len;
                    self.move_run(src, Ghost(start), dst1.start, src1.start, dst_len);
                    let ghost (d1, s1) = (*self, *src);
                    self.move_run(
                        src,
                        Ghost(start + dst_len),
                        dst2.start,
                        src1.start + dst_len,
                        middle,
                    );
                    proof {
                        Self::lemma_moves_join(
                            (*old(self), d1, *self),
                            (*old(src), s1, *src),
                            start,
                            start + dst_len,
                            start + src_len,
                        );
                    }
                    let ghost (d1, s1) = (*self, *src);
                    self.move_run(
                        src,
                        Ghost(start + src_len),
                        dst2.start + middle,
                        src2.start,
                        src2.end - src2.start,
                    );
                    proof {
                        Self::lemma_moves_join(
                            (*old(self), d1, *self),
                            (*old(src), s1, *src),
                            start,
                            start + src_len,
                            end,
                        );
                    }
                } else {
                    self.move_run(src, Ghost(start), dst1.start, src1.start, src_len);
                    let ghost (d1, s1) = (*self, *src);
                    self.move_run(
                        src,
                        Ghost(start + src_len),
                        dst2.start,
                        src2.start,
                        src2.end - src2.start,
                    );
                    proof {
                        Self::lemma_moves_join(
                            (*old(self), d1, *self),
                            (*old(src), s1, *src),
                            start,
                            start + src_len,
                            end,
                        );
                    }
                }
            },
        }
    }
}

/// The physical ranges of a logical range list its slots in order: slot `k` of
/// the list is that of logical index `start + k`. They lie inside the ring and
/// do not overlap.
pub proof fn lemma_translated_slots(start: int, end: int, len: int, k: int)
    requires
        0 < len,
        start <= end <= start + len,
        0 <= k < end - start,
    ensures
        ({
            let (first, second) = translated(start, end, len);
            let split = first.1 - first.0;
            &&& 0 <= first.0 <= first.1 <= len
            &&& k < split ==> (start + k) % len == first.0 + k
            &&& match second {
                Some(rest) => {
                    &&& 0 <= rest.0 <= rest.1 <= first.0
                    &&& split + (rest.1 - rest.0) == end - start
                    &&& k >= split ==> (start + k) % len == rest.0 + (k - split)
                },
                None => split == end - start,
            }
        }),
{
    ring::lemma_step(start, k, len);
}

/// Moves the contents of `src` to `dst`, which has the same length.
fn move_uninit_slice<T>(dst: &mut [ChunkItem<T>], src: &mut [ChunkItem<T>])
    requires
        old(dst)@.len() == old(src)@.len(),
    ensures
        final(dst)@ == old(src)@,
        final(src)@.len() == old(src)@.len(),
        forall|j: int| 0 <= j < old(src)@.len() ==> #[trigger] final(src)@[j] is None,
{
    let len: usize = dst.len();
    let mut at: usize = 0;
    while at < len
        invariant
            at <= len == dst@.len() == src@.len() == old(src)@.len(),
            forall|j: int| 0 <= j < at ==> #[trigger] dst@[j] == old(src)@[j],
            forall|j: int| 0 <= j < at ==> #[trigger] src@[j] is None,
            forall|j: int| at <= j < len ==> #[trigger] src@[j] == old(src)@[j],
        decreases len - at,
    {
        dst[at] = src[at].take();
        at += 1;
    }
    assert(dst@ =~= old(src)@);
}

} // verus!
