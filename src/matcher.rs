//! Chunked similarity matching.
//!
//! Similarities are handed in as order-preserving integer keys: for two
//! similarities `a` and `b`, `key(a) > key(b)` exactly when `a > b`. The
//! matcher walks the pair space in blocks of at most `chunk_size` target rows
//! by `chunk_size` comparison rows, asks its caller for the similarities of one
//! block at a time, and accumulates the comparison rows that exceed the
//! threshold against some target row, and the target rows that exceed it
//! against some comparison row.
use vstd::prelude::*;

use crate::error::DedupError;

verus! {

/// Key of the similarity 1.0, the largest threshold accepted.
pub const ONE_KEY: i32 = 0x3f80_0000;

/// Whether the two matrices are one and the same set of images.
#[derive(Clone, Copy, Debug, PartialEq, Eq, Structural)]
pub enum Mode {
    /// Target and comparison are the same set: a row never matches itself and
    /// of a matching pair only the later row is recorded.
    SelfCompare,
    /// Target and comparison are distinct sets: every pair is compared.
    CrossCompare,
}

/// One block of the pair space: target rows `target_start..target_end` against
/// comparison rows `comp_start..comp_end`.
#[derive(Clone, Copy, Debug, PartialEq, Eq, Structural)]
pub struct Block {
    pub target_start: usize,
    pub target_end: usize,
    pub comp_start: usize,
    pub comp_end: usize,
}

pub open spec fn valid_threshold(t: i32) -> bool {
    0 < t <= ONE_KEY
}

/// The pairs `(i, j)` of target row `i` and comparison row `j` that a run considers.
pub open spec fn allowed(mode: Mode, n_target: int, n_comp: int, i: int, j: int) -> bool {
    &&& 0 <= i < n_target
    &&& 0 <= j < n_comp
    &&& mode == Mode::SelfCompare ==> i < j
}

/// The similarity of pair `(i, j)` is known and strictly above `t`.
pub open spec fn exceeds(sims: Map<(int, int), int>, t: int, i: int, j: int) -> bool {
    sims.contains_key((i, j)) && sims[(i, j)] > t
}

/// Comparison row `j` exceeds the threshold against some row among `sims`.
pub open spec fn hit(sims: Map<(int, int), int>, t: int, j: int) -> bool {
    exists|i: int| #[trigger] exceeds(sims, t, i, j)
}

/// Target row `i` exceeds the threshold against some comparison row among `sims`.
pub open spec fn matched(sims: Map<(int, int), int>, t: int, i: int) -> bool {
    exists|j: int| #[trigger] exceeds(sims, t, i, j)
}

/// The comparison rows that are near-duplicates of some considered target row,
/// under the similarities `sims`.
pub open spec fn duplicate_set(
    sims: Map<(int, int), int>,
    t: int,
    mode: Mode,
    n_target: int,
    n_comp: int,
) -> Set<int> {
    Set::new(
        |j: int|
            exists|i: int| allowed(mode, n_target, n_comp, i, j) && #[trigger] exceeds(sims, t, i, j),
    )
}

/// All considered pairs.
pub open spec fn allowed_pairs(mode: Mode, n_target: int, n_comp: int) -> Set<(int, int)> {
    Set::new(|p: (int, int)| allowed(mode, n_target, n_comp, p.0, p.1))
}

/// `sims` holds the similarity that `full` gives to every pair it knows.
pub open spec fn agrees(sims: Map<(int, int), int>, full: Map<(int, int), int>) -> bool {
    forall|p: (int, int)|
        #[trigger] sims.contains_key(p) ==> full.contains_key(p) && full[p] == sims[p]
}

pub open spec fn end_of(start: int, chunk: int, n: int) -> int {
    if start + chunk < n {
        start + chunk
    } else {
        n
    }
}

/// Pairs already compared, while the block `[ts, te) x [cs, ce)` is being
/// walked row by row and has reached row `r`, column `c`.
pub open spec fn progressed(
    ts: int,
    te: int,
    cs: int,
    ce: int,
    r: int,
    c: int,
    i: int,
    j: int,
) -> bool {
    ||| i < ts
    ||| ts <= i < te && j < cs
    ||| ts <= i < r && cs <= j < ce
    ||| i == r && cs <= j < c
}

pub open spec fn in_block(b: Block, i: int, j: int) -> bool {
    b.target_start <= i < b.target_end && b.comp_start <= j < b.comp_end
}

/// The similarity that a block's matrix gives to pair `(i, j)`.
pub open spec fn block_value(b: Block, sims: Seq<Vec<i32>>, i: int, j: int) -> int {
    sims[i - b.target_start]@[j - b.comp_start] as int
}

proof fn lemma_hit_insert(seen: Map<(int, int), int>, t: int, r: int, c: int, s: int, j: int)
    requires
        !seen.contains_key((r, c)),
    ensures
        hit(seen.insert((r, c), s), t, j) == (hit(seen, t, j) || (j == c && s > t)),
{
    let seen1 = seen.insert((r, c), s);
    if hit(seen1, t, j) {
        let i = choose|i: int| #[trigger] exceeds(seen1, t, i, j);
        if !(i == r && j == c) {
            assert(exceeds(seen, t, i, j));
        }
    }
    if hit(seen, t, j) {
        let i = choose|i: int| #[trigger] exceeds(seen, t, i, j);
        assert(exceeds(seen1, t, i, j));
    }
    if j == c && s > t {
        assert(exceeds(seen1, t, r, c));
    }
}

/// Copies the block `b` out of the full matrix `sims`.
fn slice_block(sims: &Vec<Vec<i32>>, b: Block) -> (r: Vec<Vec<i32>>)
    requires
        b.target_start <= b.target_end <= sims@.len(),
        b.comp_start <= b.comp_end,
        forall|x: int|
            b.target_start <= x < b.target_end ==> b.comp_end <= (#[trigger] sims@[x])@.len(),
    ensures
        r@.len() == b.target_end - b.target_start,
        forall|k: int|
            0 <= k < r@.len() ==> (#[trigger] r@[k])@ == sims@[b.target_start + k]@.subrange(
                b.comp_start as int,
                b.comp_end as int,
            ),
{
    let mut r: Vec<Vec<i32>> = Vec::new();
    let mut i: usize = b.target_start;
    while i < b.target_end
        invariant
            b.target_start <= i <= b.target_end <= sims@.len(),
            b.comp_start <= b.comp_end,
            forall|x: int|
                b.target_start <= x < b.target_end ==> b.comp_end <= (#[trigger] sims@[x])@.len(),
            r@.len() == i - b.target_start,
            forall|k: int|
                0 <= k < r@.len() ==> (#[trigger] r@[k])@ == sims@[b.target_start + k]@.subrange(
                    b.comp_start as int,
                    b.comp_end as int,
                ),
        decreases b.target_end - i,
    {
        let source = &sims[i];
        assert(b.comp_end <= source@.len());
        let mut row: Vec<i32> = Vec::new();
        let mut j: usize = b.comp_start;
        while j < b.comp_end
            invariant
                b.comp_start <= j <= b.comp_end <= source@.len(),
                row@ == source@.subrange(b.comp_start as int, j as int),
            decreases b.comp_end - j,
        {
            row.push(source[j]);
            assert(row@ =~= source@.subrange(b.comp_start as int, j + 1));
            j += 1;
        }
        r.push(row);
        i += 1;
    }
    r
}

proof fn lemma_matched_insert(seen: Map<(int, int), int>, t: int, r: int, c: int, s: int, i: int)
    requires
        !seen.contains_key((r, c)),
    ensures
        matched(seen.insert((r, c), s), t, i) == (matched(seen, t, i) || (i == r && s > t)),
{
    let seen1 = seen.insert((r, c), s);
    if matched(seen1, t, i) {
        let j = choose|j: int| #[trigger] exceeds(seen1, t, i, j);
        if !(i == r && j == c) {
            assert(exceeds(seen, t, i, j));
        }
    }
    if matched(seen, t, i) {
        let j = choose|j: int| #[trigger] exceeds(seen, t, i, j);
        assert(exceeds(seen1, t, i, j));
    }
    if i == r && s > t {
        assert(exceeds(seen1, t, r, c));
    }
}

fn end_exec(start: usize, chunk: usize, n: usize) -> (r: usize)
    requires
        start <= n,
    ensures
        r == end_of(start as int, chunk as int, n as int),
{
    if chunk < n - start {
        start + chunk
    } else {
        n
    }
}

/// Matching state for one pair of embedding matrices.
pub struct SimilarImages {
    threshold: i32,
    chunk_size: usize,
    mode: Mode,
    n_target: usize,
    n_comp: usize,
    target_start: usize,
    comp_start: usize,
    flags: Vec<bool>,
    target_flags: Vec<bool>,
    seen: Ghost<Map<(int, int), int>>,
}

impl SimilarImages {
    pub closed spec fn threshold(&self) -> i32 {
        self.threshold
    }

    pub closed spec fn chunk_size(&self) -> usize {
        self.chunk_size
    }

    pub closed spec fn mode(&self) -> Mode {
        self.mode
    }

    pub closed spec fn n_target(&self) -> int {
        self.n_target as int
    }

    pub closed spec fn n_comp(&self) -> int {
        self.n_comp as int
    }

    /// The similarities absorbed so far, keyed by (target row, comparison row).
    pub closed spec fn compared(&self) -> Map<(int, int), int> {
        self.seen@
    }

    /// A measure of the work left, which each `absorb` lowers.
    pub closed spec fn pending(&self) -> int {
        (self.n_target - self.target_start) * (self.n_comp + 1) + (self.n_comp - self.comp_start)
    }

    /// Every block has been absorbed.
    pub closed spec fn finished(&self) -> bool {
        self.target_start == self.n_target
    }

    /// The block that `absorb` expects next.
    pub closed spec fn current_block(&self) -> Block {
        Block {
            target_start: self.target_start,
            target_end: end_of(
                self.target_start as int,
                self.chunk_size as int,
                self.n_target as int,
            ) as usize,
            comp_start: self.comp_start,
            comp_end: end_of(self.comp_start as int, self.chunk_size as int, self.n_comp as int)
                as usize,
        }
    }

    /// Comparison row `j` has been found a near-duplicate so far.
    pub open spec fn is_duplicate(&self, j: int) -> bool {
        0 <= j < self.n_comp() && hit(self.compared(), self.threshold() as int, j)
    }

    /// Target row `i` has been found to match some comparison row so far.
    pub open spec fn is_matched_target(&self, i: int) -> bool {
        0 <= i < self.n_target() && matched(self.compared(), self.threshold() as int, i)
    }

    /// Target row `i` leaves the keep list: in self-comparison when it is a
    /// near-duplicate of an earlier row, otherwise when it matches some row of
    /// the comparison set.
    pub open spec fn dropped(&self, i: int) -> bool {
        if self.mode() == Mode::SelfCompare {
            self.is_duplicate(i)
        } else {
            self.is_matched_target(i)
        }
    }

    pub closed spec fn wf(&self) -> bool {
        let ts = self.target_start as int;
        let te = end_of(ts, self.chunk_size as int, self.n_target as int);
        let cs = self.comp_start as int;
        &&& self.chunk_size > 0
        &&& valid_threshold(self.threshold)
        &&& self.mode == Mode::SelfCompare ==> self.n_target == self.n_comp
        &&& self.flags@.len() == self.n_comp
        &&& self.target_start <= self.n_target
        &&& self.comp_start <= self.n_comp
        &&& self.target_start < self.n_target ==> self.comp_start < self.n_comp
        &&& self.seen@.dom() == Set::new(
            |p: (int, int)|
                allowed(self.mode, self.n_target as int, self.n_comp as int, p.0, p.1)
                    && progressed(ts, te, cs, cs, te, cs, p.0, p.1),
        )
        &&& forall|j: int|
            0 <= j < self.n_comp ==> self.flags@[j] == hit(self.seen@, self.threshold as int, j)
        &&& self.target_flags@.len() == self.n_target
        &&& forall|i: int|
            0 <= i < self.n_target ==> self.target_flags@[i] == matched(
                self.seen@,
                self.threshold as int,
                i,
            )
    }

    /// Starts a run over `n_target` target rows and `n_comp` comparison rows.
    pub fn new(threshold: i32, chunk_size: usize, mode: Mode, n_target: usize, n_comp: usize) -> (r:
        Result<SimilarImages, DedupError>)
        ensures
            !valid_threshold(threshold) ==> r == Err::<SimilarImages, DedupError>(
                DedupError::InvalidThreshold,
            ),
            valid_threshold(threshold) && chunk_size == 0 ==> r == Err::<SimilarImages, DedupError>(
                DedupError::InvalidChunkSize,
            ),
            valid_threshold(threshold) && chunk_size > 0 && mode == Mode::SelfCompare && n_target
                != n_comp ==> r == Err::<SimilarImages, DedupError>(DedupError::SizeMismatch),
            valid_threshold(threshold) && chunk_size > 0 && (mode == Mode::SelfCompare ==> n_target
                == n_comp) ==> r is Ok,
            r matches Ok(m) ==> {
                &&& m.wf()
                &&& m.threshold() == threshold
                &&& m.chunk_size() == chunk_size
                &&& m.mode() == mode
                &&& m.n_target() == n_target
                &&& m.n_comp() == n_comp
                &&& m.compared() == Map::<(int, int), int>::empty()
            },
    {
        if !(0 < threshold && threshold <= ONE_KEY) {
            return Err(DedupError::InvalidThreshold);
        }
        if chunk_size == 0 {
            return Err(DedupError::InvalidChunkSize);
        }
        if mode == Mode::SelfCompare && n_target != n_comp {
            return Err(DedupError::SizeMismatch);
        }
        let flags: Vec<bool> = vec![false; n_comp];
        let target_flags: Vec<bool> = vec![false; n_target];
        let target_start: usize = if n_comp == 0 {
            n_target
        } else {
            0
        };
        let m = SimilarImages {
            threshold,
            chunk_size,
            mode,
            n_target,
            n_comp,
            target_start,
            comp_start: 0,
            flags,
            target_flags,
            seen: Ghost(Map::empty()),
        };
        proof {
            let ts = target_start as int;
            let te = end_of(ts, chunk_size as int, n_target as int);
            assert(m.seen@.dom() =~= Set::new(
                |p: (int, int)|
                    allowed(mode, n_target as int, n_comp as int, p.0, p.1) && progressed(
                        ts,
                        te,
                        0,
                        0,
                        te,
                        0,
                        p.0,
                        p.1,
                    ),
            ));
        }
        Ok(m)
    }

    /// Takes the similarities of the current block, where `block_sims[a][b]` is
    /// the similarity of target row `target_start + a` to comparison row
    /// `comp_start + b`, records each considered pair, marks the comparison
    /// rows that exceed the threshold, and moves on to the next block.
    pub fn absorb(&mut self, block_sims: &Vec<Vec<i32>>)
        requires
            old(self).wf(),
            !old(self).finished(),
            block_sims@.len() == old(self).current_block().target_end - old(self).current_block().target_start,
            forall|k: int|
                0 <= k < block_sims@.len() ==> (#[trigger] block_sims@[k])@.len()
                    == old(self).current_block().comp_end - old(self).current_block().comp_start,
        ensures
            final(self).wf(),
            final(self).threshold() == old(self).threshold(),
            final(self).chunk_size() == old(self).chunk_size(),
            final(self).mode() == old(self).mode(),
            final(self).n_target() == old(self).n_target(),
            final(self).n_comp() == old(self).n_comp(),
            0 <= final(self).pending() < old(self).pending(),
            final(self).compared().dom() == old(self).compared().dom().union(
                Set::new(
                    |p: (int, int)|
                        allowed(old(self).mode(), old(self).n_target(), old(self).n_comp(), p.0, p.1)
                            && in_block(old(self).current_block(), p.0, p.1),
                ),
            ),
            forall|p: (int, int)|
                #[trigger] old(self).compared().contains_key(p) ==> final(self).compared()[p] == old(self).compared()[p],
            forall|i: int, j: int|
                allowed(old(self).mode(), old(self).n_target(), old(self).n_comp(), i, j)
                    && in_block(old(self).current_block(), i, j) ==> #[trigger] final(self).compared()[(i, j)] == block_value(old(self).current_block(), block_sims@, i, j),
    {
        let ghost old_seen = self.seen@;
        let ghost b = self.current_block();
        let ghost t = self.threshold as int;
        let ghost mode = self.mode;
        let ghost nt = self.n_target as int;
        let ghost nc = self.n_comp as int;
        let ghost cz = self.chunk_size;
        let self_mode = match self.mode {
            Mode::SelfCompare => true,
            Mode::CrossCompare => false,
        };
        let ts = self.target_start;
        let te = end_exec(ts, self.chunk_size, self.n_target);
        let cs = self.comp_start;
        let ce = end_exec(cs, self.chunk_size, self.n_comp);
        let mut r: usize = ts;
        while r < te
            invariant
                ts <= r <= te <= self.n_target,
                cs < ce <= self.n_comp,
                ts < te,
                b == (Block { target_start: ts, target_end: te, comp_start: cs, comp_end: ce }),
                self.target_start == ts,
                self.comp_start == cs,
                te == end_of(ts as int, self.chunk_size as int, self.n_target as int),
                self.threshold as int == t,
                self.mode == mode,
                self_mode == (mode == Mode::SelfCompare),
                self.n_target as int == nt,
                self.n_comp as int == nc,
                self.chunk_size > 0,
                self.chunk_size == cz,
                valid_threshold(self.threshold),
                mode == Mode::SelfCompare ==> nt == nc,
                self.flags@.len() == nc,
                block_sims@.len() == te - ts,
                forall|k: int|
                    0 <= k < block_sims@.len() ==> (#[trigger] block_sims@[k])@.len() == ce - cs,
                self.seen@.dom() == Set::new(
                    |p: (int, int)|
                        allowed(mode, nt, nc, p.0, p.1) && progressed(
                            ts as int,
                            te as int,
                            cs as int,
                            ce as int,
                            r as int,
                            cs as int,
                            p.0,
                            p.1,
                        ),
                ),
                forall|j: int| 0 <= j < nc ==> self.flags@[j] == hit(self.seen@, t, j),
                self.target_flags@.len() == nt,
                forall|i: int| 0 <= i < nt ==> self.target_flags@[i] == matched(self.seen@, t, i),
                forall|p: (int, int)|
                    #[trigger] old_seen.contains_key(p) ==> self.seen@.contains_key(p)
                        && self.seen@[p] == old_seen[p],
                forall|i: int, j: int|
                    allowed(mode, nt, nc, i, j) && in_block(b, i, j) && i < r ==> #[trigger] self.seen@[(
                    i,
                    j,
                )] == block_value(b, block_sims@, i, j),
            decreases te - r,
        {
            let row = &block_sims[r - ts];
            let mut c: usize = cs;
            while c < ce
                invariant
                    ts <= r < te <= self.n_target,
                    cs <= c <= ce <= self.n_comp,
                    b == (Block { target_start: ts, target_end: te, comp_start: cs, comp_end: ce }),
                    self.target_start == ts,
                    self.comp_start == cs,
                    te == end_of(ts as int, self.chunk_size as int, self.n_target as int),
                    self.threshold as int == t,
                    self.mode == mode,
                    self_mode == (mode == Mode::SelfCompare),
                    self.n_target as int == nt,
                    self.n_comp as int == nc,
                    self.chunk_size > 0,
                    self.chunk_size == cz,
                self.chunk_size == cz,
                    valid_threshold(self.threshold),
                    mode == Mode::SelfCompare ==> nt == nc,
                    self.flags@.len() == nc,
                    block_sims@.len() == te - ts,
                    forall|k: int|
                        0 <= k < block_sims@.len() ==> (#[trigger] block_sims@[k])@.len() == ce - cs,
                    row@ == block_sims@[r - ts]@,
                    self.seen@.dom() == Set::new(
                        |p: (int, int)|
                            allowed(mode, nt, nc, p.0, p.1) && progressed(
                                ts as int,
                                te as int,
                                cs as int,
                                ce as int,
                                r as int,
                                c as int,
                                p.0,
                                p.1,
                            ),
                    ),
                    forall|j: int| 0 <= j < nc ==> self.flags@[j] == hit(self.seen@, t, j),
                    self.target_flags@.len() == nt,
                    forall|i: int| 0 <= i < nt ==> self.target_flags@[i] == matched(self.seen@, t, i),
                    forall|p: (int, int)|
                        #[trigger] old_seen.contains_key(p) ==> self.seen@.contains_key(p)
                            && self.seen@[p] == old_seen[p],
                    forall|i: int, j: int|
                        allowed(mode, nt, nc, i, j) && in_block(b, i, j) && (i < r || (i == r && j
                            < c)) ==> #[trigger] self.seen@[(i, j)] == block_value(
                            b,
                            block_sims@,
                            i,
                            j,
                        ),
                decreases ce - c,
            {
                let s = row[c - cs];
                let considered = if self_mode {
                    r < c
                } else {
                    true
                };
                let ghost seen0 = self.seen@;
                if considered {
                    let ghost seen1 = seen0.insert((r as int, c as int), s as int);
                    proof {
                        assert(!seen0.contains_key((r as int, c as int)));
                        assert forall|j: int| 0 <= j < nc implies #[trigger] hit(seen1, t, j) == (
                        hit(seen0, t, j) || (j == c && s > t)) by {
                            lemma_hit_insert(seen0, t, r as int, c as int, s as int, j);
                        }
                        assert forall|i: int| 0 <= i < nt implies #[trigger] matched(seen1, t, i)
                            == (matched(seen0, t, i) || (i == r && s > t)) by {
                            lemma_matched_insert(seen0, t, r as int, c as int, s as int, i);
                        }
                    }
                    self.seen = Ghost(seen1);
                    if s > self.threshold {
                        self.flags.set(c, true);
                        self.target_flags.set(r, true);
                    }
                }
                proof {
                    assert(self.seen@.dom() =~= Set::new(
                        |p: (int, int)|
                            allowed(mode, nt, nc, p.0, p.1) && progressed(
                                ts as int,
                                te as int,
                                cs as int,
                                ce as int,
                                r as int,
                                c + 1,
                                p.0,
                                p.1,
                            ),
                    ));
                }
                c += 1;
            }
            proof {
                assert(self.seen@.dom() =~= Set::new(
                    |p: (int, int)|
                        allowed(mode, nt, nc, p.0, p.1) && progressed(
                            ts as int,
                            te as int,
                            cs as int,
                            ce as int,
                            r + 1,
                            cs as int,
                            p.0,
                            p.1,
                        ),
                ));
            }
            r += 1;
        }
        proof {
            assert(self.seen@.dom() =~= old_seen.dom().union(
                Set::new(|p: (int, int)| allowed(mode, nt, nc, p.0, p.1) && in_block(b, p.0, p.1)),
            ));
        }
        if ce == self.n_comp {
            self.target_start = te;
            self.comp_start = if self_mode {
                te
            } else {
                0
            };
        } else {
            self.comp_start = ce;
        }
        proof {
            let nt0 = self.n_target as int;
            let nc0 = self.n_comp as int;
            if ce == self.n_comp {
                assert((nt0 - te) * (nc0 + 1) + (nc0 - self.comp_start) < (nt0 - ts) * (nc0 + 1)
                    + (nc0 - cs)) by (nonlinear_arith)
                    requires
                        ts < te <= nt0,
                        0 <= self.comp_start <= nc0,
                        0 <= cs <= nc0,
                {}
            }
            assert(0 <= (nt0 - self.target_start) * (nc0 + 1)) by (nonlinear_arith)
                requires
                    self.target_start <= nt0,
                    0 <= nc0,
            {}
            let ts2 = self.target_start as int;
            let te2 = end_of(ts2, self.chunk_size as int, nt);
            let cs2 = self.comp_start as int;
            assert(self.seen@.dom() =~= Set::new(
                |p: (int, int)|
                    allowed(mode, nt, nc, p.0, p.1) && progressed(ts2, te2, cs2, cs2, te2, cs2, p.0, p.1),
            ));
        }
    }

    /// Absorbs every remaining block from the full similarity matrix `sims`,
    /// where `sims[i][j]` is the similarity of target row `i` to comparison row
    /// `j`, and returns the duplicates found, in increasing order.
    pub fn comp(&mut self, sims: &Vec<Vec<i32>>) -> (r: Vec<usize>)
        requires
            old(self).wf(),
            sims@.len() == old(self).n_target(),
            forall|i: int| 0 <= i < sims@.len() ==> (#[trigger] sims@[i])@.len() == old(self).n_comp(),
        ensures
            final(self).wf(),
            final(self).finished(),
            final(self).threshold() == old(self).threshold(),
            final(self).chunk_size() == old(self).chunk_size(),
            final(self).mode() == old(self).mode(),
            final(self).n_target() == old(self).n_target(),
            final(self).n_comp() == old(self).n_comp(),
            old(self).compared() == Map::<(int, int), int>::empty() ==> forall|j: usize|
                r@.contains(j) <==> exists|i: int|
                    allowed(old(self).mode(), old(self).n_target(), old(self).n_comp(), i, j as int)
                        && (#[trigger] sims@[i])@[j as int] > old(self).threshold(),
            forall|a: int, b: int| 0 <= a < b < r@.len() ==> r@[a] < r@[b],
            forall|j: usize| r@.contains(j) <==> final(self).is_duplicate(j as int),
    {
        let ghost start = self.compared();
        let ghost t = self.threshold;
        let ghost cz = self.chunk_size;
        let ghost mode = self.mode;
        let ghost nt = self.n_target;
        let ghost nc = self.n_comp;
        loop
            invariant
                self.wf(),
                self.threshold == t,
                self.chunk_size == cz,
                self.mode == mode,
                self.n_target == nt,
                self.n_comp == nc,
                sims@.len() == nt,
                forall|i: int| 0 <= i < sims@.len() ==> (#[trigger] sims@[i])@.len() == nc,
                forall|p: (int, int)|
                    #[trigger] self.compared().contains_key(p) ==> if start.contains_key(p) {
                        self.compared()[p] == start[p]
                    } else {
                        0 <= p.0 < nt && 0 <= p.1 < nc && self.compared()[p] == sims@[p.0]@[p.1] as int
                    },
                forall|p: (int, int)|
                    #[trigger] start.contains_key(p) ==> self.compared().contains_key(p),
            ensures
                self.finished(),
            decreases self.pending(),
        {
            match self.next_block() {
                None => break,
                Some(b) => {
                    let ghost before = self.compared();
                    let block = slice_block(sims, b);
                    self.absorb(&block);
                    proof {
                        assert forall|p: (int, int)| #[trigger]
                            start.contains_key(p) implies self.compared().contains_key(p) by {
                            assert(before.contains_key(p));
                        }
                        assert forall|p: (int, int)| #[trigger]
                            self.compared().contains_key(p) implies if start.contains_key(p) {
                            self.compared()[p] == start[p]
                        } else {
                            0 <= p.0 < nt && 0 <= p.1 < nc && self.compared()[p] == sims@[p.0]@[p.1] as int
                        } by {
                            if before.contains_key(p) {
                                assert(self.compared()[p] == before[p]);
                                if start.contains_key(p) {
                                    assert(before[p] == start[p]);
                                } else {
                                    assert(0 <= p.0 < nt && 0 <= p.1 < nc);
                                    assert(before[p] == sims@[p.0]@[p.1] as int);
                                }
                            } else {
                                assert(allowed(mode, nt as int, nc as int, p.0, p.1) && in_block(
                                    b,
                                    p.0,
                                    p.1,
                                ));
                                assert(self.compared()[(p.0, p.1)] == block_value(
                                    b,
                                    block@,
                                    p.0,
                                    p.1,
                                ));
                                assert(block@[p.0 - b.target_start]@ == sims@[p.0]@.subrange(
                                    b.comp_start as int,
                                    b.comp_end as int,
                                ));
                                assert(sims@[p.0]@.len() == nc);
                                assert(!start.contains_key(p));
                                assert(0 <= p.0 < nt && 0 <= p.1 < nc);
                                assert(sims@[p.0]@.subrange(b.comp_start as int, b.comp_end as int)[p.1
                                    - b.comp_start] == sims@[p.0]@[p.1]);
                            }
                        }
                    }
                },
            }
        }
        let r = self.duplicates();
        proof {
            lemma_finished_covers(self);
            if start == Map::<(int, int), int>::empty() {
                let sm = self.compared();
                assert forall|j: usize|
                    r@.contains(j) <==> exists|i: int|
                        allowed(mode, nt as int, nc as int, i, j as int) && (#[trigger] sims@[i])@[j as int]
                            > t by {
                    if r@.contains(j) {
                        assert(self.is_duplicate(j as int));
                        let i = choose|i: int| #[trigger] exceeds(sm, t as int, i, j as int);
                        assert(sm.dom().contains((i, j as int)));
                        assert(allowed(mode, nt as int, nc as int, i, j as int));
                        assert(sims@[i]@[j as int] > t);
                    }
                    if exists|i: int|
                        allowed(mode, nt as int, nc as int, i, j as int) && (#[trigger] sims@[i])@[j as int]
                            > t {
                        let i = choose|i: int|
                            allowed(mode, nt as int, nc as int, i, j as int) && (#[trigger] sims@[i])@[j as int]
                                > t;
                        assert(allowed_pairs(mode, nt as int, nc as int).contains((i, j as int)));
                        assert(sm.contains_key((i, j as int)));
                        assert(exceeds(sm, t as int, i, j as int));
                        assert(hit(sm, t as int, j as int));
                        assert(self.is_duplicate(j as int));
                    }
                }
            }
        }
        r
    }

    /// The comparison rows found to be near-duplicates so far, in increasing order.
    pub fn duplicates(&self) -> (r: Vec<usize>)
        requires
            self.wf(),
        ensures
            forall|a: int, b: int| 0 <= a < b < r@.len() ==> r@[a] < r@[b],
            forall|j: usize| r@.contains(j) <==> self.is_duplicate(j as int),
    {
        let mut r: Vec<usize> = Vec::new();
        let mut j: usize = 0;
        while j < self.n_comp
            invariant
                self.wf(),
                j <= self.n_comp,
                forall|a: int, b: int| 0 <= a < b < r@.len() ==> r@[a] < r@[b],
                forall|a: int| 0 <= a < r@.len() ==> r@[a] < j,
                forall|x: usize| r@.contains(x) <==> x < j && self.is_duplicate(x as int),
            decreases self.n_comp - j,
        {
            let ghost r0 = r@;
            if self.flags[j] {
                r.push(j);
                proof {
                    assert forall|x: usize| r@.contains(x) <==> x < j + 1 && self.is_duplicate(
                        x as int,
                    ) by {
                        if r@.contains(x) && x != j {
                            let k = choose|k: int| 0 <= k < r@.len() && r@[k] == x;
                            assert(r0[k] == x);
                        }
                        if x < j && self.is_duplicate(x as int) {
                            let k = choose|k: int| 0 <= k < r0.len() && r0[k] == x;
                            assert(r@[k] == x);
                        }
                        if x == j {
                            assert(r@[r0.len() as int] == x);
                        }
                    }
                }
            }
            j += 1;
        }
        r
    }

    /// The target rows to keep, in increasing order: in self-comparison those
    /// that are no near-duplicate of an earlier row, otherwise those that match
    /// no row of the comparison set.
    pub fn keep_list(&self) -> (r: Vec<usize>)
        requires
            self.wf(),
        ensures
            forall|a: int, b: int| 0 <= a < b < r@.len() ==> r@[a] < r@[b],
            self.mode() == Mode::SelfCompare ==> forall|i: usize|
                r@.contains(i) <==> i < self.n_target() && !self.is_duplicate(i as int),
            self.mode() == Mode::CrossCompare ==> forall|i: usize|
                r@.contains(i) <==> i < self.n_target() && !exists|j: int|
                    #[trigger] exceeds(self.compared(), self.threshold() as int, i as int, j),
    {
        let mut r: Vec<usize> = Vec::new();
        let mut i: usize = 0;
        while i < self.n_target
            invariant
                self.wf(),
                i <= self.n_target,
                forall|a: int, b: int| 0 <= a < b < r@.len() ==> r@[a] < r@[b],
                forall|a: int| 0 <= a < r@.len() ==> r@[a] < i,
                forall|x: usize| r@.contains(x) <==> x < i && !self.dropped(x as int),
            decreases self.n_target - i,
        {
            let ghost r0 = r@;
            let duplicate = match self.mode {
                Mode::SelfCompare => i < self.n_comp && self.flags[i],
                Mode::CrossCompare => self.target_flags[i],
            };
            if !duplicate {
                r.push(i);
                proof {
                    assert forall|x: usize| r@.contains(x) <==> x < i + 1 && !self.dropped(x as int)
                        by {
                        if r@.contains(x) && x != i {
                            let k = choose|k: int| 0 <= k < r@.len() && r@[k] == x;
                            assert(r0[k] == x);
                        }
                        if x < i && !self.dropped(x as int) {
                            let k = choose|k: int| 0 <= k < r0.len() && r0[k] == x;
                            assert(r@[k] == x);
                        }
                        if x == i {
                            assert(r@[r0.len() as int] == x);
                        }
                    }
                }
            }
            i += 1;
        }
        proof {
            if self.mode() == Mode::SelfCompare {
                assert forall|x: usize|
                    r@.contains(x) <==> x < self.n_target() && !self.is_duplicate(x as int) by {
                    assert(self.dropped(x as int) == self.is_duplicate(x as int));
                }
            } else {
                assert forall|x: usize|
                    r@.contains(x) <==> x < self.n_target() && !exists|j: int|
                        #[trigger] exceeds(self.compared(), self.threshold() as int, x as int, j) by {
                    assert(self.dropped(x as int) == self.is_matched_target(x as int));
                }
            }
        }
        r
    }

    /// The block whose similarities `absorb` expects next, or `None` once the run is done.
    pub fn next_block(&self) -> (r: Option<Block>)
        requires
            self.wf(),
        ensures
            r is None <==> self.finished(),
            r matches Some(b) ==> b == self.current_block(),
    {
        if self.target_start == self.n_target {
            None
        } else {
            Some(
                Block {
                    target_start: self.target_start,
                    target_end: end_exec(self.target_start, self.chunk_size, self.n_target),
                    comp_start: self.comp_start,
                    comp_end: end_exec(self.comp_start, self.chunk_size, self.n_comp),
                },
            )
        }
    }
}

/// Once every block has been absorbed, exactly the considered pairs have been compared.
pub proof fn lemma_finished_covers(m: &SimilarImages)
    requires
        m.wf(),
        m.finished(),
    ensures
        m.compared().dom() == allowed_pairs(m.mode(), m.n_target(), m.n_comp()),
{
    assert(m.compared().dom() =~= allowed_pairs(m.mode(), m.n_target(), m.n_comp()));
}

/// Once every block of one similarity matrix `full` has been absorbed, the
/// duplicates found are exactly those that `full` determines, whatever the
/// chunk size.
pub proof fn lemma_finished_matches(m: &SimilarImages, full: Map<(int, int), int>)
    requires
        m.wf(),
        m.finished(),
        agrees(m.compared(), full),
    ensures
        forall|j: int|
            m.is_duplicate(j) <==> duplicate_set(
                full,
                m.threshold() as int,
                m.mode(),
                m.n_target(),
                m.n_comp(),
            ).contains(j),
{
    lemma_finished_covers(m);
    let t = m.threshold() as int;
    let sims = m.compared();
    assert forall|j: int|
        m.is_duplicate(j) <==> duplicate_set(
            full,
            t,
            m.mode(),
            m.n_target(),
            m.n_comp(),
        ).contains(j) by {
        if m.is_duplicate(j) {
            let i = choose|i: int| #[trigger] exceeds(sims, t, i, j);
            assert(sims.dom().contains((i, j)));
            assert(allowed(m.mode(), m.n_target(), m.n_comp(), i, j) && exceeds(full, t, i, j));
        }
        if duplicate_set(full, t, m.mode(), m.n_target(), m.n_comp()).contains(j) {
            let i = choose|i: int|
                allowed(m.mode(), m.n_target(), m.n_comp(), i, j) && #[trigger] exceeds(
                    full,
                    t,
                    i,
                    j,
                );
            assert(allowed_pairs(m.mode(), m.n_target(), m.n_comp()).contains((i, j)));
            assert(exceeds(sims, t, i, j));
        }
    }
}

/// Two complete runs over the same similarities, with the same threshold and
/// mode but any chunk sizes, find the same duplicates.
pub proof fn lemma_chunk_size_irrelevant(
    m1: &SimilarImages,
    m2: &SimilarImages,
    full: Map<(int, int), int>,
)
    requires
        m1.wf(),
        m2.wf(),
        m1.finished(),
        m2.finished(),
        agrees(m1.compared(), full),
        agrees(m2.compared(), full),
        m1.threshold() == m2.threshold(),
        m1.mode() == m2.mode(),
        m1.n_target() == m2.n_target(),
        m1.n_comp() == m2.n_comp(),
    ensures
        forall|j: int| m1.is_duplicate(j) <==> m2.is_duplicate(j),
{
    lemma_finished_matches(m1, full);
    lemma_finished_matches(m2, full);
}

/// Raising the threshold can only shrink the set of duplicates.
pub proof fn lemma_threshold_monotone(
    full: Map<(int, int), int>,
    t1: int,
    t2: int,
    mode: Mode,
    n_target: int,
    n_comp: int,
)
    requires
        t1 > t2,
    ensures
        duplicate_set(full, t1, mode, n_target, n_comp).subset_of(
            duplicate_set(full, t2, mode, n_target, n_comp),
        ),
{
    assert forall|j: int| #[trigger]
        duplicate_set(full, t1, mode, n_target, n_comp).contains(j) implies duplicate_set(
        full,
        t2,
        mode,
        n_target,
        n_comp,
    ).contains(j) by {
        let i = choose|i: int|
            allowed(mode, n_target, n_comp, i, j) && #[trigger] exceeds(full, t1, i, j);
        assert(exceeds(full, t2, i, j));
    }
}

/// Of two complete runs over the same similarities, the one with the higher
/// threshold finds a subset of the other's duplicates.
pub proof fn lemma_runs_threshold_monotone(
    m1: &SimilarImages,
    m2: &SimilarImages,
    full: Map<(int, int), int>,
)
    requires
        m1.wf(),
        m2.wf(),
        m1.finished(),
        m2.finished(),
        agrees(m1.compared(), full),
        agrees(m2.compared(), full),
        m1.threshold() > m2.threshold(),
        m1.mode() == m2.mode(),
        m1.n_target() == m2.n_target(),
        m1.n_comp() == m2.n_comp(),
    ensures
        forall|j: int| m1.is_duplicate(j) ==> m2.is_duplicate(j),
{
    lemma_finished_matches(m1, full);
    lemma_finished_matches(m2, full);
    lemma_threshold_monotone(
        full,
        m1.threshold() as int,
        m2.threshold() as int,
        m1.mode(),
        m1.n_target(),
        m1.n_comp(),
    );
}

/// In self-comparison a row is never compared with itself, and a row is a
/// duplicate only through an earlier row: the first row of a cluster is kept.
pub proof fn lemma_self_compare_keeps_first(m: &SimilarImages, j: int)
    requires
        m.wf(),
        m.mode() == Mode::SelfCompare,
    ensures
        !m.compared().contains_key((j, j)),
        m.is_duplicate(j) ==> 0 < j && exists|i: int|
            0 <= i < j && #[trigger] exceeds(m.compared(), m.threshold() as int, i, j),
        !m.is_duplicate(0),
{
    let t = m.threshold() as int;
    let sims = m.compared();
    assert(!sims.dom().contains((j, j)));
    assert forall|k: int| #[trigger] exceeds(sims, t, k, 0) implies false by {
        assert(sims.dom().contains((k, 0)));
    }
    if m.is_duplicate(j) {
        let i = choose|i: int| #[trigger] exceeds(sims, t, i, j);
        assert(sims.dom().contains((i, j)));
    }
}

} // verus!
