//! Extent allocator with coalescing. Trailing free space shrinks the image.

use vstd::prelude::*;

use crate::bytes::{
    bytes_equal, copy_bytes, get_u32, get_u64, le32, le64, lemma_concat_field, lemma_concat_front,
    lemma_le, padded, put_u32_vec, put_u64_vec, u32_at, u64_at,
};
use crate::error::{einval, eio, enospc, Result, EINVAL, EIO, ENOSPC};
use crate::format::SHRINK_SLACK_BLOCKS;
use crate::store::{
    block_limit, extends, grown_len, image_block, lemma_grow_blocks, max_blocks, Image,
};

verus! {

broadcast use crate::store::group_extends;

/// A free extent: start block and length in blocks.
pub type Run = (u64, u64);

/// The free-space map.
#[derive(Debug)]
pub struct Allocator {
    /// Free extents, by their start.
    pub free: Vec<Run>,
    pub first_data: u64,
    pub total_blocks: u64,
}

/// Whether block `b` lies in run `r`.
pub open spec fn in_run(r: Run, b: int) -> bool {
    r.0 <= b < r.0 + r.1
}

/// Whether block `b` lies in one of the runs.
pub open spec fn in_runs(s: Seq<Run>, b: int) -> bool {
    exists|i: int| 0 <= i < s.len() && in_run(#[trigger] s[i], b)
}

/// The runs stand in order, and no two of them touch.
pub open spec fn coalesced(s: Seq<Run>) -> bool {
    forall|i: int, j: int| 0 <= i < j < s.len() ==> (#[trigger] s[i]).0 + s[i].1 < (#[trigger] s[j]).0
}

/// The runs stand in order, do not touch, are not empty, and end where a block number can say so.
pub open spec fn runs_ok(s: Seq<Run>) -> bool {
    &&& coalesced(s)
    &&& forall|i: int|
        0 <= i < s.len() ==> (#[trigger] s[i]).1 > 0 && s[i].0 + s[i].1 <= u64::MAX
}

/// Number of blocks in the runs.
pub open spec fn run_blocks(s: Seq<Run>) -> int
    decreases s.len(),
{
    if s.len() == 0 {
        0
    } else {
        run_blocks(s.drop_last()) + s.last().1
    }
}

/// Index of the run that an allocation of `want` blocks takes: of the shortest that are long
/// enough, the first.
pub open spec fn is_best_fit(s: Seq<Run>, want: int, k: int) -> bool {
    &&& 0 <= k < s.len()
    &&& s[k].1 >= want
    &&& forall|i: int| 0 <= i < s.len() && (#[trigger] s[i]).1 >= want ==> s[k].1 <= s[i].1
    &&& forall|i: int| 0 <= i < k && (#[trigger] s[i]).1 >= want ==> s[k].1 < s[i].1
}

/// Whether no run is long enough for `want` blocks.
pub open spec fn none_fits(s: Seq<Run>, want: int) -> bool {
    forall|i: int| 0 <= i < s.len() ==> (#[trigger] s[i]).1 < want
}

/// The runs after the first `want` blocks of run `k` are taken.
pub open spec fn taken(s: Seq<Run>, k: int, want: int) -> Seq<Run> {
    if s[k].1 == want {
        s.remove(k)
    } else {
        s.update(k, ((s[k].0 + want) as u64, (s[k].1 - want) as u64))
    }
}

/// A list of runs on disk.
pub open spec fn runs_bytes(s: Seq<Run>) -> Seq<u8>
    decreases s.len(),
{
    if s.len() == 0 {
        Seq::empty()
    } else {
        runs_bytes(s.drop_last()) + le64(s.last().0) + le64(s.last().1)
    }
}

/// `LNXA`
pub open spec fn map_magic() -> Seq<u8> {
    seq![76u8, 78, 88, 65]
}

/// The run that stands as number `i` in an encoded map.
pub open spec fn run_at(s: Seq<u8>, i: int) -> Run {
    (u64_at(s, 24 + 16 * i), u64_at(s, 24 + 16 * i + 8))
}

/// Whether `s` is an encoded map.
pub open spec fn is_map(s: Seq<u8>) -> bool {
    &&& s.len() >= 24
    &&& s.subrange(0, 4) == map_magic()
    &&& 24 + 16 * u32_at(s, 20) <= s.len()
}

/// Whether run `r` counts among the first `n` runs of an encoded map: it is not empty, and no
/// later one with the same start is.
pub open spec fn listed(s: Seq<u8>, n: int, r: Run) -> bool {
    r.1 > 0 && exists|i: int|
        0 <= i < n && #[trigger] run_at(s, i) == r && forall|j: int|
            i < j < n && (#[trigger] run_at(s, j)).0 == r.0 ==> run_at(s, j).1 == 0
}

/// The runs stand in order of their starts, each start once.
pub open spec fn sorted(s: Seq<Run>) -> bool {
    forall|i: int, j: int| 0 <= i < j < s.len() ==> (#[trigger] s[i]).0 < (#[trigger] s[j]).0
}

/// The blocks of runs that stand one behind the other.
proof fn lemma_blocks_concat(a: Seq<Run>, b: Seq<Run>)
    ensures
        run_blocks(a + b) == run_blocks(a) + run_blocks(b),
    decreases b.len(),
{
    if b.len() == 0 {
        assert(a + b =~= a);
    } else {
        assert((a + b).drop_last() =~= a + b.drop_last());
        lemma_blocks_concat(a, b.drop_last());
    }
}

/// Runs `i` to `j` become one run with `len` blocks more.
proof fn lemma_merged_blocks(s: Seq<Run>, i: int, j: int, r: Run, len: int)
    requires
        0 <= i <= j <= s.len(),
        j - i <= 2,
        r.1 == len + (if j > i {
            s[i].1 as int
        } else {
            0
        }) + (if j > i + 1 {
            s[i + 1].1 as int
        } else {
            0
        }),
    ensures
        run_blocks(s.take(i) + seq![r] + s.skip(j)) == run_blocks(s) + len,
{
    reveal_with_fuel(run_blocks, 3);
    let m = s.subrange(i, j);
    assert(s.take(i) + m + s.skip(j) =~= s);
    lemma_blocks_concat(s.take(i), m);
    lemma_blocks_concat(s.take(i) + m, s.skip(j));
    lemma_blocks_concat(s.take(i), seq![r]);
    lemma_blocks_concat(s.take(i) + seq![r], s.skip(j));
    assert(seq![r].drop_last().len() == 0);
    if j == i + 1 {
        assert(m.drop_last().len() == 0);
    } else if j == i + 2 {
        assert(m.drop_last().drop_last().len() == 0);
    }
}

/// A block that is free, or lies in a range of the data area, lies in the data area.
proof fn lemma_run_within(a: Allocator, start: int, len: int, b: int)
    requires
        a.wf(),
        a.first_data <= start,
        start + len <= a.total_blocks,
        a.is_free(b) || start <= b < start + len,
    ensures
        a.first_data <= b < a.total_blocks,
{
    if a.is_free(b) {
        let k = choose|k: int| 0 <= k < a.free@.len() && in_run(#[trigger] a.free@[k], b);
        assert(a.free@[k].0 >= a.first_data);
    }
}

/// Behind the end of the blocks in use everything is free.
pub proof fn lemma_end_free(a: Allocator)
    requires
        a.wf(),
    ensures
        a.used_end() <= a.total_blocks,
        forall|b: int| a.used_end() <= b < a.total_blocks ==> #[trigger] a.is_free(b),
{
    let n = a.free@.len() as int;
    assert forall|b: int| a.used_end() <= b < a.total_blocks implies #[trigger] a.is_free(b) by {
        assert(in_run(a.free@[n - 1], b));
    }
}

/// Where everything from `e` on is free, the blocks in use end at `e` or before.
pub proof fn lemma_end_at(a: Allocator, e: int)
    requires
        a.wf(),
        0 <= e <= a.total_blocks,
        forall|b: int| e <= b < a.total_blocks ==> #[trigger] a.is_free(b),
    ensures
        a.used_end() <= e,
{
    let n = a.free@.len() as int;
    if e < a.total_blocks {
        assert(a.is_free(a.total_blocks - 1));
        let k = choose|k: int| 0 <= k < n && in_run(#[trigger] a.free@[k], a.total_blocks - 1);
        if k < n - 1 {
            assert(a.free@[k].0 + a.free@[k].1 < a.free@[n - 1].0);
        }
        let r = a.free@[n - 1];
        if r.0 > e {
            assert(a.is_free(r.0 - 1));
            let j = choose|j: int| 0 <= j < n && in_run(#[trigger] a.free@[j], r.0 - 1);
            if j < n - 1 {
                assert(a.free@[j].0 + a.free@[j].1 < a.free@[n - 1].0);
            }
        }
    }
}

/// The end of the blocks in use moves by what was taken.
proof fn lemma_taken_end(a0: Allocator, a1: Allocator, k: int, want: int)
    requires
        a0.wf(),
        0 <= k < a0.free@.len(),
        0 < want <= a0.free@[k].1,
        a1.free@ == taken(a0.free@, k, want),
        a1.total_blocks == a0.total_blocks,
    ensures
        a1.used_end() <= a0.used_end() + want,
{
    let n = a0.free@.len() as int;
    if k < n - 1 {
        assert(a1.free@[a1.free@.len() - 1] == a0.free@[n - 1]);
    }
}

/// The end of the blocks in use where the map grew by `want` blocks and a free tail.
proof fn lemma_grown_end(a0: Allocator, a1: Allocator, want: int)
    requires
        a0.wf(),
        want > 0,
        none_fits(a0.free@, want),
        a1.total_blocks >= a0.total_blocks + want,
        a1.total_blocks == a0.total_blocks + want ==> a1.free@ == a0.free@,
        a1.total_blocks > a0.total_blocks + want ==> a1.free@ == a0.free@.push(
            (
                (a0.total_blocks + want) as u64,
                (a1.total_blocks - a0.total_blocks - want) as u64,
            ),
        ),
    ensures
        a1.used_end() <= a0.used_end() + 2 * want,
{
}

impl Allocator {
    /// Whether block `b` is free.
    pub open spec fn is_free(&self, b: int) -> bool {
        in_runs(self.free@, b)
    }

    /// The map is in order: free runs lie in the data area, are not empty and do not touch.
    pub open spec fn wf(&self) -> bool {
        &&& coalesced(self.free@)
        &&& forall|i: int|
            0 <= i < self.free@.len() ==> (#[trigger] self.free@[i]).1 > 0 && self.free@[i].0
                >= self.first_data && self.free@[i].0 + self.free@[i].1 <= self.total_blocks
        &&& self.first_data <= self.total_blocks <= max_blocks()
    }

    /// Where the blocks in use end: everything behind is free.
    pub open spec fn used_end(&self) -> int {
        let n = self.free@.len() as int;
        if n > 0 && self.free@[n - 1].0 + self.free@[n - 1].1 == self.total_blocks {
            self.free@[n - 1].0 as int
        } else {
            self.total_blocks as int
        }
    }

    pub fn new(first_data: u64, total_blocks: u64) -> (a: Self)
        ensures
            a.first_data == first_data,
            a.total_blocks == total_blocks,
            a.free@ == if total_blocks > first_data {
                seq![(first_data, (total_blocks - first_data) as u64)]
            } else {
                Seq::<Run>::empty()
            },
            first_data <= total_blocks <= max_blocks() ==> a.wf(),
            forall|b: int| #[trigger] a.is_free(b) <==> first_data <= b < total_blocks,
    {
        let mut free: Vec<Run> = Vec::new();
        if total_blocks > first_data {
            free.push((first_data, total_blocks - first_data));
        }
        let a = Self { free, first_data, total_blocks };
        assert(a.free@ =~= if total_blocks > first_data {
            seq![(first_data, (total_blocks - first_data) as u64)]
        } else {
            Seq::<Run>::empty()
        });
        assert forall|b: int| #[trigger] a.is_free(b) <==> first_data <= b < total_blocks by {
            if first_data <= b < total_blocks {
                assert(in_run(a.free@[0], b));
            }
        }
        a
    }

    pub fn total_blocks(&self) -> (n: u64)
        ensures
            n == self.total_blocks,
    {
        self.total_blocks
    }

    pub fn free_blocks(&self) -> (n: u64)
        requires
            runs_ok(self.free@),
        ensures
            n == run_blocks(self.free@),
            self.wf() ==> n <= self.total_blocks - self.first_data,
    {
        let mut n: u64 = 0;
        let mut i: usize = 0;
        while i < self.free.len()
            invariant
                runs_ok(self.free@),
                i <= self.free@.len(),
                n == run_blocks(self.free@.take(i as int)),
                n <= if i == 0 {
                    0
                } else {
                    self.free@[i - 1].0 + self.free@[i - 1].1
                },
                self.wf() && i > 0 ==> n <= self.free@[i - 1].0 + self.free@[i - 1].1
                    - self.first_data,
            decreases self.free@.len() - i,
        {
            assert(self.free@.take(i + 1).drop_last() =~= self.free@.take(i as int));
            n = n + self.free[i].1;
            i = i + 1;
        }
        assert(self.free@.take(i as int) =~= self.free@);
        n
    }

    pub fn set_total(&mut self, total: u64)
        ensures
            final(self).total_blocks == total,
            final(self).free == old(self).free,
            final(self).first_data == old(self).first_data,
    {
        self.total_blocks = total;
    }

    /// Marks a range as used.
    pub fn reserve(&mut self, start: u64, len: u64)
        requires
            old(self).wf(),
            start + len <= u64::MAX,
        ensures
            final(self).wf(),
            final(self).first_data == old(self).first_data,
            final(self).total_blocks == old(self).total_blocks,
            forall|b: int| #[trigger]
                final(self).is_free(b) <==> old(self).is_free(b) && !(start <= b < start + len),
    {
        if len == 0 {
            return;
        }
        self.remove_range(start, len);
    }

    fn remove_range(&mut self, start: u64, len: u64)
        requires
            old(self).wf(),
            len > 0,
            start + len <= u64::MAX,
        ensures
            final(self).wf(),
            final(self).first_data == old(self).first_data,
            final(self).total_blocks == old(self).total_blocks,
            forall|b: int| #[trigger]
                final(self).is_free(b) <==> old(self).is_free(b) && !(start <= b < start + len),
    {
        let end: u64 = start + len;
        let ghost s0 = self.free@;
        let mut out: Vec<Run> = Vec::new();
        let mut i: usize = 0;
        while i < self.free.len()
            invariant
                len > 0,
                end == start + len,
                *self == *old(self),
                self.wf(),
                s0 == self.free@,
                i <= s0.len(),
                coalesced(out@),
                forall|k: int|
                    0 <= k < out@.len() ==> (#[trigger] out@[k]).1 > 0 && out@[k].0
                        >= self.first_data && out@[k].0 + out@[k].1 <= self.total_blocks,
                forall|k: int|
                    0 <= k < out@.len() ==> exists|m: int|
                        0 <= m < i && s0[m].0 <= (#[trigger] out@[k]).0 && out@[k].0 + out@[k].1
                            <= (#[trigger] s0[m]).0 + s0[m].1,
                forall|b: int| #[trigger]
                    in_runs(out@, b) <==> in_runs(s0.take(i as int), b) && !(start <= b < end),
            decreases s0.len() - i,
        {
            let (s, l) = self.free[i];
            let e: u64 = s + l;
            let ghost o0 = out@;
            let ghost t0 = s0.take(i as int);
            let ghost t1 = s0.take(i + 1);
            assert forall|k: int| 0 <= k < o0.len() implies (#[trigger] o0[k]).0 + o0[k].1 < s by {
                let m = choose|m: int|
                    0 <= m < i && s0[m].0 <= o0[k].0 && o0[k].0 + o0[k].1 <= (
                    #[trigger] s0[m]).0 + s0[m].1;
                assert(s0[m].0 + s0[m].1 < s0[i as int].0);
            }
            assert forall|b: int| in_runs(t1, b) <==> in_runs(t0, b) || in_run((s, l), b) by {
                if in_runs(t1, b) {
                    let k = choose|k: int| 0 <= k < t1.len() && in_run(#[trigger] t1[k], b);
                    if k < i {
                        assert(t0[k] == t1[k]);
                    }
                }
                if in_runs(t0, b) {
                    let k = choose|k: int| 0 <= k < t0.len() && in_run(#[trigger] t0[k], b);
                    assert(t1[k] == t0[k]);
                }
                if in_run((s, l), b) {
                    assert(t1[i as int] == (s, l));
                }
            }
            if e <= start || s >= end {
                out.push((s, l));
                proof {
                    lemma_push_run(o0, (s, l));
                }
            } else {
                if s < start {
                    out.push((s, start - s));
                    proof {
                        lemma_push_run(o0, (s, (start - s) as u64));
                    }
                }
                let ghost o1 = out@;
                if e > end {
                    out.push((end, e - end));
                    proof {
                        lemma_push_run(o1, (end, (e - end) as u64));
                    }
                }
            }
            assert forall|k: int| 0 <= k < out@.len() implies exists|m: int|
                0 <= m < i + 1 && s0[m].0 <= (#[trigger] out@[k]).0 && out@[k].0 + out@[k].1 <= (
                #[trigger] s0[m]).0 + s0[m].1 by {
                if k < o0.len() {
                    assert(out@[k] == o0[k]);
                    let m = choose|m: int|
                        0 <= m < i && s0[m].0 <= o0[k].0 && o0[k].0 + o0[k].1 <= (
                        #[trigger] s0[m]).0 + s0[m].1;
                    assert(0 <= m < i + 1);
                } else {
                    assert(s0[i as int].0 <= out@[k].0);
                }
            }
            i = i + 1;
        }
        assert(s0.take(i as int) =~= s0);
        self.free = out;
    }

    /// Takes `want` blocks in a row: from the shortest free run that is long enough, else from
    /// the end of the image, which grows.
    #[verifier::rlimit(60)]
    pub fn allocate(&mut self, image: &mut Image, want: u64) -> (r: Result<u64>)
        requires
            old(self).wf(),
            old(image).wf(),
        ensures
            extends(*old(image), *final(image)),
            final(self).wf(),
            final(image).wf(),
            final(self).first_data == old(self).first_data,
            final(self).total_blocks >= old(self).total_blocks,
            final(self).free@.len() <= old(self).free@.len() + 1,
            final(self).used_end() <= old(self).used_end() + 2 * want,
            final(image)@.len() >= old(image)@.len(),
            forall|b: int|
                b >= 0 ==> #[trigger] image_block(final(image)@, b) == image_block(old(image)@, b),
            match r {
                Ok(start) => {
                    &&& want > 0
                    &&& old(self).first_data <= start
                    &&& start + want <= final(self).total_blocks
                    &&& forall|b: int|
                        start <= b < start + want ==> (old(self).is_free(b) || b >= old(self).total_blocks) && !#[trigger] final(self).is_free(b)
                    &&& forall|b: int|
                        !(start <= b < start + want) && b < old(self).total_blocks ==> (
                        #[trigger] final(self).is_free(b) <==> old(self).is_free(b))
                    &&& if none_fits(old(self).free@, want as int) {
                        &&& start == old(self).total_blocks
                        &&& final(image)@ == if (start + want) * 4096 <= old(image)@.len() {
                            old(image)@
                        } else {
                            padded(old(image)@, grown_len((start + want) * 4096) as nat)
                        }
                        &&& final(self).total_blocks == if final(image)@.len() as int / 4096
                            > start + want {
                            final(image)@.len() as int / 4096
                        } else {
                            start + want
                        }
                        &&& forall|b: int|
                            start + want <= b < final(self).total_blocks ==> #[trigger] final(self).is_free(b)
                    } else {
                        &&& final(image)@ == old(image)@
                        &&& final(self).total_blocks == old(self).total_blocks
                        &&& exists|k: int| #[trigger]
                            is_best_fit(old(self).free@, want as int, k) && start == old(self).free@[k].0 && final(self).free@ == taken(
                                old(self).free@,
                                k,
                                want as int,
                            )
                    }
                },
                Err(e) => {
                    &&& *final(self) == *old(self)
                    &&& *final(image) == *old(image)
                    &&& if want == 0 {
                        e.is(EINVAL)
                    } else {
                        &&& none_fits(old(self).free@, want as int)
                        &&& old(self).total_blocks + want > max_blocks()
                        &&& old(self).used_end() + 2 * want > max_blocks()
                        &&& e.is(ENOSPC)
                    }
                },
            },
    {
        if want == 0 {
            return Err(einval("zero-length allocation"));
        }
        let ghost s0 = self.free@;
        let n: usize = self.free.len();
        let mut best: usize = n;
        let mut i: usize = 0;
        while i < n
            invariant
                n == s0.len(),
                s0 == self.free@,
                i <= n,
                best == n || best < i,
                best == n ==> none_fits(s0.take(i as int), want as int),
                best < n ==> is_best_fit(s0.take(i as int), want as int, best as int),
            decreases n - i,
        {
            assert(s0.take(i + 1).take(i as int) =~= s0.take(i as int));
            assert forall|k: int| 0 <= k < i + 1 implies s0.take(i + 1)[k] == (if k < i {
                s0.take(i as int)[k]
            } else {
                s0[i as int]
            }) by {}
            if self.free[i].1 >= want && (best == n || self.free[i].1 < self.free[best].1) {
                best = i;
            }
            i = i + 1;
        }
        assert(s0.take(n as int) =~= s0);
        if best < n {
            let (start, len) = self.free[best];
            if len > want {
                self.free.set(best, (start + want, len - want));
            } else {
                let _ = self.free.remove(best);
            }
            proof {
                assert(is_best_fit(s0, want as int, best as int));
                assert(self.free@ =~= taken(s0, best as int, want as int));
                lemma_taken(s0, best as int, want as int);
                lemma_taken_end(*old(self), *self, best as int, want as int);
            }
            return Ok(start);
        }
        let limit = block_limit();
        let start: u64 = self.total_blocks;
        if want > limit - start {
            return Err(enospc());
        }
        let new_total: u64 = start + want;
        image.grow_to(new_total * 4096);
        proof {
            if old(image)@.len() < new_total * 4096 {
                lemma_grow_blocks(old(image)@, grown_len(new_total * 4096) as nat);
            }
        }
        let image_blocks: u64 = image.len() / 4096;
        assert forall|b: int| b >= old(self).total_blocks implies !#[trigger] old(self).is_free(b) by {
            if old(self).is_free(b) {
                let k = choose|k: int| 0 <= k < s0.len() && in_run(#[trigger] s0[k], b);
            }
        }
        if image_blocks > new_total {
            self.free.push((new_total, image_blocks - new_total));
            self.total_blocks = image_blocks;
            proof {
                lemma_push_run(s0, (new_total, (image_blocks - new_total) as u64));
            }
        } else {
            self.total_blocks = new_total;
        }
        proof {
            lemma_grown_end(*old(self), *self, want as int);
        }
        Ok(start)
    }

    /// Gives a range back; runs that touch it are merged with it.
    #[verifier::rlimit(80)]
    pub fn free(&mut self, start: u64, len: u64)
        requires
            runs_ok(old(self).free@),
            start + len <= u64::MAX,
            forall|b: int| start <= b < start + len ==> !#[trigger] old(self).is_free(b),
        ensures
            runs_ok(final(self).free@),
            old(self).wf() && (len > 0 ==> start >= old(self).first_data) && start + len
                <= old(self).total_blocks ==> final(self).wf() && final(self).used_end()
                <= old(self).used_end(),
            len == 0 ==> *final(self) == *old(self),
            final(self).first_data == old(self).first_data,
            final(self).total_blocks == old(self).total_blocks,
            final(self).free@.len() <= old(self).free@.len() + 1,
            forall|b: int| #[trigger]
                final(self).is_free(b) <==> old(self).is_free(b) || start <= b < start + len,
            run_blocks(final(self).free@) == run_blocks(old(self).free@) + len,
    {
        if len == 0 {
            return;
        }
        let ghost s0 = self.free@;
        let n: usize = self.free.len();
        let mut i: usize = 0;
        while i < n && self.free[i].0 < start
            invariant
                n == s0.len(),
                s0 == self.free@,
                i <= n,
                forall|k: int| 0 <= k < i ==> (#[trigger] s0[k]).0 < start,
            decreases n - i,
        {
            i = i + 1;
        }
        proof {
            // No run overlaps the range.
            assert forall|k: int| 0 <= k < i implies (#[trigger] s0[k]).0 + s0[k].1 <= start by {
                if s0[k].0 + s0[k].1 > start {
                    assert(in_run(s0[k], start as int));
                    assert(!old(self).is_free(start as int));
                }
            }
            assert forall|k: int| i <= k < n implies (#[trigger] s0[k]).0 >= start + len by {
                if i < k {
                    assert(s0[i as int].0 + s0[i as int].1 < s0[k].0);
                }
                if s0[k].0 < start + len {
                    assert(in_run(s0[k], s0[k].0 as int));
                    assert(!old(self).is_free(s0[k].0 as int));
                }
            }
        }
        let join_prev = i > 0 && self.free[i - 1].0 + self.free[i - 1].1 == start;
        let join_next = i < n && self.free[i].0 == start + len;
        let ghost fd = 0int;
        let ghost tb = u64::MAX as int;
        if join_prev {
            let (ps, pl) = self.free[i - 1];
            if join_next {
                let nl = self.free[i].1;
                self.free.set(i - 1, (ps, pl + len + nl));
                let _ = self.free.remove(i);
                proof {
                    let r = (ps, (pl + len + nl) as u64);
                    assert(self.free@ =~= s0.take(i - 1) + seq![r] + s0.skip(i + 1));
                    let m = s0.subrange(i - 1, i + 1);
                    assert(m[0] == s0[i - 1] && m[1] == s0[i as int]);
                    lemma_merge(s0, i - 1, i + 1, r, start as int, len as int, fd, tb);
                    lemma_merged_blocks(s0, i - 1, i + 1, r, len as int);
                }
            } else {
                self.free.set(i - 1, (ps, pl + len));
                proof {
                    let r = (ps, (pl + len) as u64);
                    assert(self.free@ =~= s0.take(i - 1) + seq![r] + s0.skip(i as int));
                    let m = s0.subrange(i - 1, i as int);
                    assert(m[0] == s0[i - 1]);
                    lemma_merge(s0, i - 1, i as int, r, start as int, len as int, fd, tb);
                    lemma_merged_blocks(s0, i - 1, i as int, r, len as int);
                }
            }
        } else if join_next {
            let nl = self.free[i].1;
            self.free.set(i, (start, len + nl));
            proof {
                let r = (start, (len + nl) as u64);
                assert(self.free@ =~= s0.take(i as int) + seq![r] + s0.skip(i + 1));
                let m = s0.subrange(i as int, i + 1);
                assert(m[0] == s0[i as int]);
                lemma_merge(s0, i as int, i + 1, r, start as int, len as int, fd, tb);
                lemma_merged_blocks(s0, i as int, i + 1, r, len as int);
            }
        } else {
            self.free.insert(i, (start, len));
            proof {
                let r = (start, len);
                assert(self.free@ =~= s0.take(i as int) + seq![r] + s0.skip(i as int));
                lemma_merge(s0, i as int, i as int, r, start as int, len as int, fd, tb);
                lemma_merged_blocks(s0, i as int, i as int, r, len as int);
            }
        }
        proof {
            if old(self).wf() && start >= self.first_data && start + len <= self.total_blocks {
                assert forall|i: int| 0 <= i < self.free@.len() implies (#[trigger] self.free@[i]).1 > 0
                    && self.free@[i].0 >= self.first_data && self.free@[i].0 + self.free@[i].1
                    <= self.total_blocks by {
                    let r = self.free@[i];
                    assert(in_run(self.free@[i], r.0 as int));
                    assert(self.is_free(r.0 as int));
                    lemma_run_within(*old(self), start as int, len as int, r.0 as int);
                    assert(in_run(self.free@[i], r.0 + r.1 - 1));
                    assert(self.is_free(r.0 + r.1 - 1));
                    lemma_run_within(*old(self), start as int, len as int, r.0 + r.1 - 1);
                }
                lemma_end_free(*old(self));
                assert forall|b: int|
                    old(self).used_end() <= b < self.total_blocks implies #[trigger] self.is_free(
                    b,
                ) by {
                    assert(old(self).is_free(b));
                }
                lemma_end_at(*self, old(self).used_end());
            }
        }
    }

    /// Cuts trailing free space off the image, but for a slack that avoids resize thrash.
    pub fn maybe_shrink(&mut self, image: &mut Image) -> (shrunk: bool)
        requires
            old(self).wf(),
            old(image).wf(),
        ensures
            extends(*old(image), *final(image)),
            final(self).wf(),
            final(image).wf(),
            final(self).first_data == old(self).first_data,
            shrunk == (old(self).free@.len() > 0 && old(self).free@.last().0 + old(self).free@.last().1 == old(self).total_blocks && old(self).free@.last().1
                > SHRINK_SLACK_BLOCKS),
            !shrunk ==> *final(self) == *old(self) && *final(image) == *old(image),
            shrunk ==> {
                &&& final(self).total_blocks == old(self).free@.last().0 + SHRINK_SLACK_BLOCKS
                &&& final(self).free@ == old(self).free@.drop_last().push(
                    (old(self).free@.last().0, SHRINK_SLACK_BLOCKS),
                )
                &&& final(image)@ == if final(self).total_blocks * 4096 >= old(image)@.len() {
                    old(image)@
                } else {
                    old(image)@.take(final(self).total_blocks * 4096)
                }
            },
            forall|b: int| #[trigger]
                final(self).is_free(b) <==> old(self).is_free(b) && b < final(self).total_blocks,
            final(self).total_blocks <= old(self).total_blocks,
    {
        let n: usize = self.free.len();
        let ghost s0 = self.free@;
        assert forall|b: int| #[trigger] old(self).is_free(b) implies b < old(self).total_blocks by {
            let k = choose|k: int| 0 <= k < s0.len() && in_run(#[trigger] s0[k], b);
        }
        if n == 0 {
            return false;
        }
        let (start, len) = self.free[n - 1];
        if start + len != self.total_blocks {
            return false;
        }
        if len <= SHRINK_SLACK_BLOCKS {
            return false;
        }
        let limit = block_limit();
        let new_total: u64 = start + SHRINK_SLACK_BLOCKS;
        image.shrink_to(new_total * 4096);
        self.free.set(n - 1, (start, SHRINK_SLACK_BLOCKS));
        self.total_blocks = new_total;
        proof {
            let r = (start, SHRINK_SLACK_BLOCKS);
            assert(self.free@ =~= s0.drop_last().push(r));
            assert(s0.drop_last() =~= s0.take(n - 1));
            lemma_push_run(s0.take(n - 1), r);
            lemma_push_run(s0.take(n - 1), s0[n - 1]);
            assert(s0.take(n - 1).push(s0[n - 1]) =~= s0);
            let front = s0.take(n - 1);
            assert forall|b: int| #[trigger] in_runs(front, b) implies b < start by {
                let k = choose|k: int| 0 <= k < n - 1 && in_run(#[trigger] front[k], b);
                assert(s0[k].0 + s0[k].1 < s0[n - 1].0);
            }
            assert forall|b: int| #[trigger] self.is_free(b) <==> old(self).is_free(b) && b
                < self.total_blocks by {}
        }
        true
    }

    /// The map on disk: magic, bounds, number of runs, and the runs.
    pub open spec fn bytes(&self) -> Seq<u8> {
        map_magic() + le64(self.first_data) + le64(self.total_blocks) + le32(
            self.free@.len() as u32,
        ) + runs_bytes(self.free@)
    }

    /// Whether `a` is the map that `s` encodes.
    pub open spec fn decoded(s: Seq<u8>, a: Allocator) -> bool {
        &&& is_map(s)
        &&& a.first_data == u64_at(s, 4)
        &&& a.total_blocks == u64_at(s, 12)
        &&& sorted(a.free@)
        &&& forall|x: Run| #[trigger]
            a.free@.contains(x) <==> listed(s, u32_at(s, 20) as int, x)
    }

    /// A copy of the map.
    pub fn duplicate(&self) -> (a: Self)
        ensures
            a.free@ == self.free@,
            a.first_data == self.first_data,
            a.total_blocks == self.total_blocks,
    {
        let mut free: Vec<Run> = Vec::new();
        let mut i: usize = 0;
        while i < self.free.len()
            invariant
                i <= self.free@.len(),
                free@ =~= self.free@.take(i as int),
            decreases self.free@.len() - i,
        {
            free.push(self.free[i]);
            i = i + 1;
        }
        assert(free@ =~= self.free@);
        Self { free, first_data: self.first_data, total_blocks: self.total_blocks }
    }

    pub fn encode(&self) -> (buf: Vec<u8>)
        ensures
            buf@ == self.bytes(),
            buf@.len() == 24 + 16 * self.free@.len(),
    {
        proof {
            lemma_le();
        }
        let mut buf: Vec<u8> = copy_bytes(&[76u8, 78, 88, 65]);
        assert(buf@ =~= map_magic());
        put_u64_vec(&mut buf, self.first_data);
        put_u64_vec(&mut buf, self.total_blocks);
        put_u32_vec(&mut buf, self.free.len() as u32);
        let ghost head = buf@;
        let mut i: usize = 0;
        assert(self.free@.take(0) =~= Seq::<Run>::empty());
        assert(buf@ =~= head + runs_bytes(self.free@.take(0)));
        while i < self.free.len()
            invariant
                i <= self.free@.len(),
                head.len() == 24,
                buf@ == head + runs_bytes(self.free@.take(i as int)),
                buf@.len() == 24 + 16 * i,
            decreases self.free@.len() - i,
        {
            proof {
                lemma_le();
            }
            let ghost before = buf@;
            let (s, l) = self.free[i];
            put_u64_vec(&mut buf, s);
            put_u64_vec(&mut buf, l);
            assert(self.free@.take(i + 1).drop_last() =~= self.free@.take(i as int));
            assert(buf@ =~= head + runs_bytes(self.free@.take(i + 1)));
            i = i + 1;
        }
        assert(self.free@.take(i as int) =~= self.free@);
        buf
    }

    pub fn decode(buf: &[u8]) -> (r: Result<Self>)
        ensures
            match r {
                Ok(a) => Self::decoded(buf@, a),
                Err(e) => !is_map(buf@) && e.is(EIO),
            },
    {
        let total: usize = buf.len();
        if total < 24 {
            return Err(eio("bad allocator state"));
        }
        let magic: &[u8] = &[76u8, 78, 88, 65];
        assert(magic@ =~= map_magic());
        if !bytes_equal(vstd::slice::slice_subrange(buf, 0, 4), magic) {
            return Err(eio("bad allocator state"));
        }
        let first_data = get_u64(buf, 4);
        let total_blocks = get_u64(buf, 12);
        let count: u32 = get_u32(buf, 20);
        if (total - 24) / 16 < count as usize || count as u64 > ((total - 24) / 16) as u64 {
            return Err(eio("allocator state truncated"));
        }
        let n: usize = count as usize;
        let mut free: Vec<Run> = Vec::new();
        let mut i: usize = 0;
        while i < n
            invariant
                i <= n,
                total == buf@.len(),
                24 + 16 * n <= total,
                sorted(free@),
                forall|x: Run| #[trigger] free@.contains(x) <==> listed(buf@, i as int, x),
            decreases n - i,
        {
            let start = get_u64(buf, 24 + 16 * i);
            let len = get_u64(buf, 24 + 16 * i + 8);
            let ghost f0 = free@;
            if len > 0 {
                let m: usize = free.len();
                let mut k: usize = 0;
                while k < m && free[k].0 < start
                    invariant
                        m == free@.len(),
                        k <= m,
                        free@ == f0,
                        forall|j: int| 0 <= j < k ==> (#[trigger] f0[j]).0 < start,
                    decreases m - k,
                {
                    k = k + 1;
                }
                if k < m && free[k].0 == start {
                    free.set(k, (start, len));
                    assert(free@ =~= f0.update(k as int, (start, len)));
                } else {
                    free.insert(k, (start, len));
                    assert(free@ =~= f0.insert(k as int, (start, len)));
                }
                proof {
                    lemma_put_run(f0, free@, k as int, (start, len));
                }
            }
            proof {
                let r = (start, len);
                assert(run_at(buf@, i as int) == r);
                assert forall|x: Run| #[trigger] free@.contains(x) <==> listed(
                    buf@,
                    i + 1,
                    x,
                ) by {
                    lemma_listed_step(buf@, i as int, x);
                    if len > 0 {
                        assert(free@.contains(x) <==> x == r || (f0.contains(x) && x.0 != start));
                    }
                }
            }
            i = i + 1;
        }
        Ok(Self { free, first_data, total_blocks })
    }

    /// Whether the map is in order.
    pub fn check(&self) -> (ok: bool)
        ensures
            ok == self.wf(),
    {
        let limit = block_limit();
        if self.first_data > self.total_blocks || self.total_blocks > limit {
            return false;
        }
        let n: usize = self.free.len();
        let mut i: usize = 0;
        while i < n
            invariant
                n == self.free@.len(),
                i <= n,
                self.first_data <= self.total_blocks <= max_blocks(),
                max_blocks() == limit,
                forall|k: int|
                    0 <= k < i ==> (#[trigger] self.free@[k]).1 > 0 && self.free@[k].0
                        >= self.first_data && self.free@[k].0 + self.free@[k].1
                        <= self.total_blocks,
                forall|k: int, j: int|
                    0 <= k < j < i ==> (#[trigger] self.free@[k]).0 + self.free@[k].1 < (
                    #[trigger] self.free@[j]).0,
            decreases n - i,
        {
            let (s, l) = self.free[i];
            if l == 0 || s < self.first_data || s > self.total_blocks || l > self.total_blocks - s {
                assert(!(self.free@[i as int].1 > 0 && self.free@[i as int].0 >= self.first_data
                    && self.free@[i as int].0 + self.free@[i as int].1 <= self.total_blocks));
                return false;
            }
            if i > 0 && self.free[i - 1].0 + self.free[i - 1].1 >= s {
                assert(self.free@[i - 1].0 + self.free@[i - 1].1 >= self.free@[i as int].0);
                return false;
            }
            assert forall|k: int, j: int| 0 <= k < j < i + 1 implies (#[trigger] self.free@[k]).0
                + self.free@[k].1 < (#[trigger] self.free@[j]).0 by {
                if j == i && k < i - 1 {
                    assert(self.free@[k].0 + self.free@[k].1 < self.free@[i - 1].0);
                }
            }
            i = i + 1;
        }
        true
    }
}

proof fn lemma_push_run(s: Seq<Run>, r: Run)
    ensures
        forall|b: int| #[trigger] in_runs(s.push(r), b) <==> in_runs(s, b) || in_run(r, b),
{
    assert forall|b: int| #[trigger] in_runs(s.push(r), b) <==> in_runs(s, b) || in_run(r, b) by {
        let t = s.push(r);
        if in_runs(t, b) {
            let k = choose|k: int| 0 <= k < t.len() && in_run(#[trigger] t[k], b);
            if k < s.len() {
                assert(s[k] == t[k]);
            }
        }
        if in_runs(s, b) {
            let k = choose|k: int| 0 <= k < s.len() && in_run(#[trigger] s[k], b);
            assert(t[k] == s[k]);
        }
        if in_run(r, b) {
            assert(t[s.len() as int] == r);
        }
    }
}

/// Putting `r` in the place of the runs from `a` up to `b`.
proof fn lemma_replace_runs(s: Seq<Run>, a: int, b: int, r: Run)
    requires
        0 <= a <= b <= s.len(),
    ensures
        forall|x: int| #[trigger]
            in_runs(s.take(a) + seq![r] + s.skip(b), x) <==> in_run(r, x) || in_runs(s.take(a), x)
                || in_runs(s.skip(b), x),
        forall|x: int| #[trigger]
            in_runs(s, x) <==> in_runs(s.take(a), x) || in_runs(s.subrange(a, b), x) || in_runs(
                s.skip(b),
                x,
            ),
{
    let t = s.take(a) + seq![r] + s.skip(b);
    assert forall|x: int| #[trigger] in_runs(t, x) <==> in_run(r, x) || in_runs(s.take(a), x)
        || in_runs(s.skip(b), x) by {
        if in_runs(t, x) {
            let k = choose|k: int| 0 <= k < t.len() && in_run(#[trigger] t[k], x);
            if k < a {
                assert(s.take(a)[k] == t[k]);
            } else if k > a {
                assert(s.skip(b)[k - a - 1] == t[k]);
            }
        }
        if in_run(r, x) {
            assert(t[a] == r);
        }
        if in_runs(s.take(a), x) {
            let k = choose|k: int| 0 <= k < a && in_run(#[trigger] s.take(a)[k], x);
            assert(t[k] == s.take(a)[k]);
        }
        if in_runs(s.skip(b), x) {
            let k = choose|k: int| 0 <= k < s.skip(b).len() && in_run(#[trigger] s.skip(b)[k], x);
            assert(t[a + 1 + k] == s.skip(b)[k]);
        }
    }
    assert forall|x: int| #[trigger] in_runs(s, x) <==> in_runs(s.take(a), x) || in_runs(
        s.subrange(a, b),
        x,
    ) || in_runs(s.skip(b), x) by {
        if in_runs(s, x) {
            let k = choose|k: int| 0 <= k < s.len() && in_run(#[trigger] s[k], x);
            if k < a {
                assert(s.take(a)[k] == s[k]);
            } else if k < b {
                assert(s.subrange(a, b)[k - a] == s[k]);
            } else {
                assert(s.skip(b)[k - b] == s[k]);
            }
        }
        if in_runs(s.take(a), x) {
            let k = choose|k: int| 0 <= k < a && in_run(#[trigger] s.take(a)[k], x);
            assert(s[k] == s.take(a)[k]);
        }
        if in_runs(s.subrange(a, b), x) {
            let k = choose|k: int| 0 <= k < b - a && in_run(#[trigger] s.subrange(a, b)[k], x);
            assert(s[a + k] == s.subrange(a, b)[k]);
        }
        if in_runs(s.skip(b), x) {
            let k = choose|k: int| 0 <= k < s.skip(b).len() && in_run(#[trigger] s.skip(b)[k], x);
            assert(s[b + k] == s.skip(b)[k]);
        }
    }
}

/// A run that takes the place of at most two runs, together with the range from `start` on that
/// fits to them, keeps the map in order.
proof fn lemma_merge(
    s: Seq<Run>,
    a: int,
    b: int,
    r: Run,
    start: int,
    len: int,
    lo: int,
    hi: int,
)
    requires
        coalesced(s),
        forall|i: int|
            0 <= i < s.len() ==> (#[trigger] s[i]).1 > 0 && s[i].0 >= lo && s[i].0 + s[i].1 <= hi,
        0 <= a <= b <= s.len(),
        len > 0,
        lo <= r.0,
        r.1 > 0,
        r.0 + r.1 <= hi,
        forall|i: int| 0 <= i < a ==> (#[trigger] s[i]).0 + s[i].1 < r.0,
        forall|i: int| b <= i < s.len() ==> r.0 + r.1 < (#[trigger] s[i]).0,
        ({
            ||| a == b && r.0 == start && r.1 == len
            ||| a + 1 == b && r.0 == s[a].0 && s[a].0 + s[a].1 == start && r.1 == s[a].1 + len
            ||| a + 1 == b && r.0 == start && s[a].0 == start + len && r.1 == s[a].1 + len
            ||| a + 2 == b && r.0 == s[a].0 && s[a].0 + s[a].1 == start && s[a + 1].0 == start + len
                && r.1 == s[a].1 + len + s[a + 1].1
        }),
    ensures
        coalesced(s.take(a) + seq![r] + s.skip(b)),
        forall|i: int|
            0 <= i < (s.take(a) + seq![r] + s.skip(b)).len() ==> (
            #[trigger] (s.take(a) + seq![r] + s.skip(b))[i]).1 > 0 && (s.take(a) + seq![r]
                + s.skip(b))[i].0 >= lo && (s.take(a) + seq![r] + s.skip(b))[i].0 + (s.take(a)
                + seq![r] + s.skip(b))[i].1 <= hi,
        forall|x: int| #[trigger]
            in_runs(s.take(a) + seq![r] + s.skip(b), x) <==> in_runs(s, x) || start <= x < start
                + len,
{
    let t = s.take(a) + seq![r] + s.skip(b);
    lemma_replace_runs(s, a, b, r);
    let m = s.subrange(a, b);
    assert forall|x: int| in_run(r, x) <==> #[trigger] in_runs(m, x) || start <= x < start
        + len by {
        if a < b {
            assert(m[0] == s[a]);
            if in_run(s[a], x) {
                assert(in_run(m[0], x));
            }
        }
        if a + 1 < b {
            assert(m[1] == s[a + 1]);
            if in_run(s[a + 1], x) {
                assert(in_run(m[1], x));
            }
        }
        if in_runs(m, x) {
            let k = choose|k: int| 0 <= k < m.len() && in_run(#[trigger] m[k], x);
            assert(k == 0 || k == 1);
        }
    }
    assert forall|i: int, j: int| 0 <= i < j < t.len() implies (#[trigger] t[i]).0 + t[i].1 < (
    #[trigger] t[j]).0 by {
        if i < a {
            assert(t[i] == s[i]);
        } else if i > a {
            assert(t[i] == s[i - a - 1 + b]);
        }
        if j < a {
            assert(t[j] == s[j]);
        } else if j > a {
            assert(t[j] == s[j - a - 1 + b]);
        }
    }
    assert forall|i: int| 0 <= i < t.len() implies (#[trigger] t[i]).1 > 0 && t[i].0 >= lo
        && t[i].0 + t[i].1 <= hi by {
        if i < a {
            assert(t[i] == s[i]);
        } else if i > a {
            assert(t[i] == s[i - a - 1 + b]);
        }
    }
}

/// Taking the front of a run leaves the rest of the runs as they are.
proof fn lemma_taken(s: Seq<Run>, k: int, want: int)
    requires
        coalesced(s),
        0 <= k < s.len(),
        0 < want <= s[k].1,
        forall|i: int| 0 <= i < s.len() ==> (#[trigger] s[i]).0 + s[i].1 <= u64::MAX,
    ensures
        coalesced(taken(s, k, want)),
        forall|x: int| #[trigger]
            in_runs(taken(s, k, want), x) <==> in_runs(s, x) && !(s[k].0 <= x < s[k].0 + want),
        forall|x: int| s[k].0 <= x < s[k].0 + want ==> #[trigger] in_runs(s, x),
{
    let t = taken(s, k, want);
    assert forall|x: int| #[trigger] in_runs(t, x) <==> in_runs(s, x) && !(s[k].0 <= x < s[k].0
        + want) by {
        if in_runs(t, x) {
            let i = choose|i: int| 0 <= i < t.len() && in_run(#[trigger] t[i], x);
            if s[k].1 == want {
                let m = if i < k {
                    i
                } else {
                    i + 1
                };
                assert(s[m] == t[i]);
            } else if i == k {
                assert(in_run(s[k], x));
            } else {
                assert(s[i] == t[i]);
            }
        }
        if in_runs(s, x) && !(s[k].0 <= x < s[k].0 + want) {
            let i = choose|i: int| 0 <= i < s.len() && in_run(#[trigger] s[i], x);
            if s[k].1 == want {
                assert(i != k);
                let m = if i < k {
                    i
                } else {
                    i - 1
                };
                assert(t[m] == s[i]);
            } else {
                assert(in_run(t[i], x));
            }
        }
    }
    assert forall|x: int| s[k].0 <= x < s[k].0 + want implies #[trigger] in_runs(s, x) by {
        assert(in_run(s[k], x));
    }
}

proof fn lemma_put_run(f0: Seq<Run>, f1: Seq<Run>, k: int, r: Run)
    requires
        sorted(f0),
        0 <= k <= f0.len(),
        forall|j: int| 0 <= j < k ==> (#[trigger] f0[j]).0 < r.0,
        k < f0.len() ==> f0[k].0 >= r.0,
        f1 == if k < f0.len() && f0[k].0 == r.0 {
            f0.update(k, r)
        } else {
            f0.insert(k, r)
        },
    ensures
        sorted(f1),
        forall|x: Run| #[trigger] f1.contains(x) <==> x == r || (f0.contains(x) && x.0 != r.0),
{
    let same = k < f0.len() && f0[k].0 == r.0;
    assert forall|x: Run| #[trigger] f1.contains(x) <==> x == r || (f0.contains(x) && x.0
        != r.0) by {
        if f1.contains(x) {
            let i = f1.index_of(x);
            if i < k {
                assert(f0[i] == x);
            } else if i > k {
                if same {
                    assert(f0[i] == x);
                } else {
                    assert(f0[i - 1] == x);
                    if i - 1 > k {
                        assert(f0[k].0 < f0[i - 1].0);
                    }
                }
            }
        }
        if x == r {
            assert(f1[k] == r);
        }
        if f0.contains(x) && x.0 != r.0 {
            let i = f0.index_of(x);
            if same || i < k {
                assert(f1[i] == x);
            } else {
                assert(f1[i + 1] == x);
            }
        }
    }
}

proof fn lemma_listed_step(s: Seq<u8>, i: int, x: Run)
    requires
        i >= 0,
    ensures
        listed(s, i + 1, x) <==> if run_at(s, i).1 == 0 {
            listed(s, i, x)
        } else {
            x == run_at(s, i) || (listed(s, i, x) && x.0 != run_at(s, i).0)
        },
{
    if listed(s, i + 1, x) {
        let k = choose|k: int|
            0 <= k < i + 1 && #[trigger] run_at(s, k) == x && forall|j: int|
                k < j < i + 1 && (#[trigger] run_at(s, j)).0 == x.0 ==> run_at(s, j).1 == 0;
        if k < i {
            assert(run_at(s, i).0 == x.0 ==> run_at(s, i).1 == 0);
            assert(listed(s, i, x));
        }
    }
    if listed(s, i, x) && (run_at(s, i).1 == 0 || x.0 != run_at(s, i).0) {
        let k = choose|k: int|
            0 <= k < i && #[trigger] run_at(s, k) == x && forall|j: int|
                k < j < i && (#[trigger] run_at(s, j)).0 == x.0 ==> run_at(s, j).1 == 0;
        assert(run_at(s, k) == x);
        assert(listed(s, i + 1, x));
    }
    if run_at(s, i).1 > 0 && x == run_at(s, i) {
        assert(listed(s, i + 1, x));
    }
}

proof fn lemma_runs_bytes_index(s: Seq<Run>, i: int)
    requires
        0 <= i < s.len(),
    ensures
        runs_bytes(s).len() == 16 * s.len(),
        runs_bytes(s).subrange(16 * i, 16 * i + 8) == le64(s[i].0),
        runs_bytes(s).subrange(16 * i + 8, 16 * i + 16) == le64(s[i].1),
    decreases s.len(),
{
    broadcast use {lemma_concat_front, lemma_concat_field};

    lemma_le();
    lemma_runs_bytes_len(s);
    lemma_runs_bytes_len(s.drop_last());
    if i < s.len() - 1 {
        lemma_runs_bytes_index(s.drop_last(), i);
    }
}

pub proof fn lemma_runs_bytes_len(s: Seq<Run>)
    ensures
        runs_bytes(s).len() == 16 * s.len(),
    decreases s.len(),
{
    lemma_le();
    if s.len() > 0 {
        lemma_runs_bytes_len(s.drop_last());
    }
}

/// The map is read back from the bytes it is written as, whatever follows them: its bounds, and
/// just its runs.
pub proof fn map_roundtrip(a: Allocator, tail: Seq<u8>)
    requires
        a.wf(),
        a.free@.len() <= u32::MAX,
    ensures
        is_map(a.bytes() + tail),
        u64_at(a.bytes() + tail, 4) == a.first_data,
        u64_at(a.bytes() + tail, 12) == a.total_blocks,
        u32_at(a.bytes() + tail, 20) == a.free@.len(),
        forall|x: Run| #[trigger]
            a.free@.contains(x) <==> listed(a.bytes() + tail, a.free@.len() as int, x),
{
    broadcast use {lemma_concat_front, lemma_concat_field};

    lemma_le();
    let f = a.free@;
    let runs = runs_bytes(f);
    lemma_runs_bytes_len(f);
    let s = a.bytes() + tail;
    assert(s.subrange(0, 4) == map_magic()) by {
        assert(map_magic().subrange(0, 4) =~= map_magic());
    }
    assert(s.subrange(4, 12) == le64(a.first_data));
    assert(s.subrange(12, 20) == le64(a.total_blocks));
    assert(s.subrange(20, 24) == le32(f.len() as u32));
    assert forall|i: int| 0 <= i < f.len() implies #[trigger] run_at(s, i) == f[i] by {
        lemma_runs_bytes_index(f, i);
        assert(s.subrange(24 + 16 * i, 24 + 16 * i + 8) =~= runs.subrange(16 * i, 16 * i + 8));
        assert(s.subrange(24 + 16 * i + 8, 24 + 16 * i + 16) =~= runs.subrange(
            16 * i + 8,
            16 * i + 16,
        ));
    }
    assert forall|x: Run| #[trigger] f.contains(x) <==> listed(s, f.len() as int, x) by {
        if f.contains(x) {
            let i = f.index_of(x);
            assert(run_at(s, i) == x);
            assert forall|j: int| i < j < f.len() && (#[trigger] run_at(s, j)).0
                == x.0 implies run_at(s, j).1 == 0 by {
                assert(f[i].0 + f[i].1 < f[j].0);
            }
        }
        if listed(s, f.len() as int, x) {
            let i = choose|i: int|
                0 <= i < f.len() && #[trigger] run_at(s, i) == x && forall|j: int|
                    i < j < f.len() && (#[trigger] run_at(s, j)).0 == x.0 ==> run_at(s, j).1 == 0;
            assert(f[i] == x);
        }
    }
}

/// Two lists in order that hold the same runs are the same list.
pub proof fn lemma_sorted_unique(s: Seq<Run>, t: Seq<Run>)
    requires
        sorted(s),
        sorted(t),
        forall|x: Run| #[trigger] s.contains(x) <==> t.contains(x),
    ensures
        s == t,
    decreases s.len(),
{
    if s.len() == 0 {
        if t.len() > 0 {
            assert(t.contains(t[0]));
            assert(s.contains(t[0]));
        }
        assert(s =~= t);
    } else {
        assert(s.contains(s.last()));
        assert(t.contains(s.last()));
        let k = t.index_of(s.last());
        assert(t.contains(t.last()));
        assert(s.contains(t.last()));
        let m = s.index_of(t.last());
        assert(k == t.len() - 1) by {
            if k < t.len() - 1 {
                assert(t[k].0 < t.last().0);
                if m < s.len() - 1 {
                    assert(s[m].0 < s.last().0);
                }
            }
        }
        let s1 = s.drop_last();
        let t1 = t.drop_last();
        assert forall|x: Run| #[trigger] s1.contains(x) <==> t1.contains(x) by {
            if s1.contains(x) {
                let i = s1.index_of(x);
                assert(s[i] == x);
                assert(s[i].0 < s.last().0);
                assert(s.contains(x));
                assert(t.contains(x));
                let j = t.index_of(x);
                assert(j < t.len() - 1);
                assert(t1[j] == x);
            }
            if t1.contains(x) {
                let j = t1.index_of(x);
                assert(t[j] == x);
                assert(t[j].0 < t.last().0);
                assert(t.contains(x));
                assert(s.contains(x));
                let i = s.index_of(x);
                assert(i < s.len() - 1);
                assert(s1[i] == x);
            }
        }
        lemma_sorted_unique(s1, t1);
        assert(s =~= s1.push(s.last()));
        assert(t =~= t1.push(t.last()));
    }
}

/// Distinct allocations do not overlap: what one allocation handed out is not free in the map
/// that it left, so the next one cannot hand it out again.
pub proof fn allocations_disjoint(a: Allocator, s0: int, w0: int, s1: int, w1: int)
    requires
        w0 > 0,
        w1 > 0,
        s0 + w0 <= a.total_blocks,
        forall|b: int| s0 <= b < s0 + w0 ==> !#[trigger] a.is_free(b),
        forall|b: int| s1 <= b < s1 + w1 ==> #[trigger] a.is_free(b) || b >= a.total_blocks,
    ensures
        s0 + w0 <= s1 || s1 + w1 <= s0,
{
    let b = if s0 <= s1 {
        s1
    } else {
        s0
    };
    if s1 < s0 + w0 && s0 < s1 + w1 {
        assert(!a.is_free(b));
    }
}

} // verus!
