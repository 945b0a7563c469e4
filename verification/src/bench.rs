//! The stress workload's decision logic: argument defaults, the size
//! distribution that seeds keys and values, and the plan of one commit.
//!
//! The surrounding application owns the threads, the clock and the
//! database handle; everything that decides which keys are written,
//! pruned and checked is computed here.

use vstd::prelude::*;

verus! {

/// Keys and values inserted per commit.
pub const COMMIT_SIZE: u64 = 100;

/// Of each commit's values, how many a later commit deletes again.
pub const COMMIT_PRUNE_SIZE: u64 = 90;

/// How many commits later the pruning happens.
pub const COMMIT_PRUNE_WINDOW: u64 = 2000;

/// Command-line selections for the stress workload; unset values fall
/// back to defaults.
pub struct Stress {
    pub readers: Option<usize>,
    pub writers: Option<usize>,
    pub commits: Option<usize>,
    pub seed: Option<u64>,
    pub append: bool,
    pub archive: bool,
    pub no_check: bool,
}

/// The stress workload's resolved arguments.
#[derive(Clone)]
pub struct Args {
    pub readers: usize,
    pub commits: usize,
    pub writers: usize,
    pub seed: Option<u64>,
    pub archive: bool,
    pub append: bool,
    pub no_check: bool,
}

impl Stress {
    /// Resolve the selections: 4 readers, 1 writer and 100000 commits
    /// unless chosen otherwise.
    pub fn get_args(&self) -> (r: Args)
        ensures
            r.readers == (match self.readers {
                Some(v) => v,
                None => 4usize,
            }),
            r.writers == (match self.writers {
                Some(v) => v,
                None => 1usize,
            }),
            r.commits == (match self.commits {
                Some(v) => v,
                None => 100000usize,
            }),
            r.seed == self.seed,
            r.append == self.append,
            r.archive == self.archive,
            r.no_check == self.no_check,
    {
        Args {
            readers: match self.readers {
                Some(v) => v,
                None => 4,
            },
            writers: match self.writers {
                Some(v) => v,
                None => 1,
            },
            commits: match self.commits {
                Some(v) => v,
                None => 100000,
            },
            seed: self.seed,
            append: self.append,
            archive: self.archive,
            no_check: self.no_check,
        }
    }
}

/// Specification of rand's `SmallRng`; its stream depends on the seed,
/// the generator's state and the platform, so nothing is assumed of it.
#[verifier::external_type_specification]
#[verifier::external_body]
pub struct ExSmallRng(rand::rngs::SmallRng);

/// Relies on rand's `SeedableRng::seed_from_u64` for `SmallRng`: builds a
/// generator from the seed.  Nothing is assumed of the stream it yields.
#[verifier::external_body]
fn rng_from_seed(seed: u64) -> rand::rngs::SmallRng {
    <rand::rngs::SmallRng as rand::SeedableRng>::seed_from_u64(seed)
}

/// Relies on rand's `RngCore::next_u64` for `SmallRng`; the number drawn
/// depends on the generator's state and the platform, so nothing is
/// assumed of it.
#[verifier::external_body]
fn rng_next_u64(rng: &mut rand::rngs::SmallRng) -> u64 {
    rand::RngCore::next_u64(rng)
}

/// Relies on rand's `RngCore::fill_bytes` for `SmallRng`: it fills the
/// whole buffer, so the result has exactly the requested length.
#[verifier::external_body]
fn rng_fill_bytes(rng: &mut rand::rngs::SmallRng, len: usize) -> (r: Vec<u8>)
    ensures
        r@.len() == len,
{
    let mut v = vec![0u8; len];
    rand::RngCore::fill_bytes(rng, &mut v);
    v
}

/// The sum of the first `i` histogram counts.
pub open spec fn hist_total(h: Seq<(u32, u32)>, i: int) -> int
    decreases i,
{
    if i <= 0 {
        0
    } else {
        hist_total(h, i - 1) + h[i - 1].1
    }
}

/// Prefix sums of counts never decrease.
pub proof fn lemma_hist_total_mono(h: Seq<(u32, u32)>, i: int, j: int)
    requires
        0 <= i <= j,
    ensures
        hist_total(h, i) <= hist_total(h, j),
    decreases j - i,
{
    if i < j {
        lemma_hist_total_mono(h, i, j - 1);
    }
}

/// The distribution after folding in the first `i` histogram entries:
/// pairs of (cumulative count, size), a repeated cumulative count
/// replacing the previous pair.
pub open spec fn dist_model(h: Seq<(u32, u32)>, i: int) -> Seq<(u32, u32)>
    decreases i,
{
    if i <= 0 {
        Seq::empty()
    } else {
        let prev = dist_model(h, i - 1);
        let key = hist_total(h, i) as u32;
        let val = h[i - 1].0;
        if prev.len() > 0 && prev.last().0 == key {
            prev.update(prev.len() - 1, (key, val))
        } else {
            prev.push((key, val))
        }
    }
}

/// A pool of value sizes drawn from a histogram: `distribution` maps the
/// cumulative count reached after each histogram entry to that entry's
/// size, in ascending cumulative order.
pub struct SizePool {
    pub distribution: Vec<(u32, u32)>,
    pub total: u32,
}

impl SizePool {
    pub open spec fn wf(&self) -> bool {
        &&& forall|p: int, q: int|
            0 <= p <= q < self.distribution@.len() ==> (#[trigger] self.distribution@[p]).0 <= (
            #[trigger] self.distribution@[q]).0
        &&& self.distribution@.len() > 0 ==> self.distribution@.last().0 == self.total
        &&& self.total > 0 ==> self.distribution@.len() > 0
    }

    /// Fold a histogram of (size, count) pairs into a size pool.
    pub fn from_histogram(h: &Vec<(u32, u32)>) -> (r: SizePool)
        requires
            hist_total(h@, h@.len() as int) <= u32::MAX,
        ensures
            r.wf(),
            r.total == hist_total(h@, h@.len() as int),
            r.distribution@ == dist_model(h@, h@.len() as int),
    {
        let n = h.len();
        let mut distribution: Vec<(u32, u32)> = Vec::new();
        let mut total: u32 = 0;
        let mut i: usize = 0;
        while i < n
            invariant
                n == h@.len(),
                i <= n,
                hist_total(h@, n as int) <= u32::MAX,
                total == hist_total(h@, i as int),
                distribution@ == dist_model(h@, i as int),
                forall|p: int, q: int|
                    0 <= p <= q < distribution@.len() ==> (#[trigger] distribution@[p]).0 <= (
                    #[trigger] distribution@[q]).0,
                distribution@.len() > 0 ==> distribution@.last().0 == total,
                total > 0 ==> distribution@.len() > 0,
            decreases n - i,
        {
            proof {
                lemma_hist_total_mono(h@, i + 1 as int, n as int);
            }
            let (size, count) = h[i];
            total = total + count;
            let dn = distribution.len();
            if dn > 0 && distribution[dn - 1].0 == total {
                distribution[dn - 1] = (total, size);
            } else {
                distribution.push((total, size));
            }
            i += 1;
        }
        SizePool { distribution, total }
    }

    /// The size at the first distribution entry whose cumulative count is
    /// at least `sr`.
    pub fn pick_size(&self, sr: u32) -> (r: u32)
        requires
            self.wf(),
            self.total > 0,
            sr < self.total,
        ensures
            exists|j: int|
                0 <= j < self.distribution@.len() && (#[trigger] self.distribution@[j]).0 >= sr
                    && r == self.distribution@[j].1 && (forall|p: int|
                    0 <= p < j ==> (#[trigger] self.distribution@[p]).0 < sr),
    {
        let n = self.distribution.len();
        let mut i: usize = 0;
        while i < n
            invariant
                n == self.distribution@.len(),
                i <= n,
                self.wf(),
                self.total > 0,
                sr < self.total,
                forall|p: int| 0 <= p < i ==> (#[trigger] self.distribution@[p]).0 < sr,
            decreases n - i,
        {
            if self.distribution[i].0 >= sr {
                return self.distribution[i].1;
            }
            i += 1;
        }
        // unreachable: the last cumulative count equals the total
        proof {
            assert(self.distribution@.last().0 == self.total);
            assert(self.distribution@[n - 1].0 < sr);
            assert(false);
        }
        0
    }

    /// A value for the seed: its size is drawn from the distribution,
    /// its bytes from the seeded generator.
    pub fn value(&self, seed: u64) -> (r: Vec<u8>)
        requires
            self.wf(),
            self.total > 0,
        ensures
            exists|j: int|
                0 <= j < self.distribution@.len() && r@.len() == (
                #[trigger] self.distribution@[j]).1,
    {
        let mut rng = rng_from_seed(seed);
        let draw = rng_next_u64(&mut rng);
        let sr = (draw % (self.total as u64)) as u32;
        let size = self.pick_size(sr);
        rng_fill_bytes(&mut rng, size as usize)
    }

    /// A 32-byte key for the seed.
    pub fn key(&self, seed: u64) -> (r: Vec<u8>)
        ensures
            r@.len() == 32,
    {
        let mut rng = rng_from_seed(seed);
        rng_fill_bytes(&mut rng, 32)
    }
}

/// One operation of a commit's plan: insert the value for a seed, prune
/// (delete) the value of an earlier seed, or write the restart marker
/// recording the commit number.
pub enum CommitOp {
    Insert(u64),
    Prune(u64),
    Restart(u64),
}

/// The plan of commit `n`: insert the seeds of this commit's window,
/// prune the seeds a full window behind it (unless archiving), and
/// record the commit number in the restart marker.
pub fn writer(args: &Args, n: u64) -> (r: Vec<CommitOp>)
    requires
        (n + 1) * COMMIT_SIZE <= u64::MAX,
    ensures
        ({
            let prune = !args.archive && n >= COMMIT_PRUNE_WINDOW;
            let prune_count = if prune {
                COMMIT_PRUNE_SIZE as int
            } else {
                0
            };
            &&& r@.len() == COMMIT_SIZE + prune_count + 1
            &&& forall|i: int|
                0 <= i < COMMIT_SIZE ==> r@[i] == CommitOp::Insert((n * COMMIT_SIZE + i) as u64)
            &&& (prune ==> forall|i: int|
                0 <= i < COMMIT_PRUNE_SIZE ==> #[trigger] r@[COMMIT_SIZE + i] == CommitOp::Prune(
                    (((n - COMMIT_PRUNE_WINDOW) * COMMIT_SIZE) + i) as u64,
                ))
            &&& r@.last() == CommitOp::Restart(n)
        }),
{
    let mut r: Vec<CommitOp> = Vec::new();
    let base = n * COMMIT_SIZE;
    let mut i: u64 = 0;
    while i < COMMIT_SIZE
        invariant
            i <= COMMIT_SIZE,
            base == n * COMMIT_SIZE,
            (n + 1) * COMMIT_SIZE <= u64::MAX,
            r@.len() == i,
            forall|j: int| 0 <= j < i ==> r@[j] == CommitOp::Insert((base + j) as u64),
        decreases COMMIT_SIZE - i,
    {
        proof {
            assert(base + i < (n + 1) * COMMIT_SIZE) by (nonlinear_arith)
                requires
                    base == n * COMMIT_SIZE,
                    i < COMMIT_SIZE,
                    COMMIT_SIZE == 100,
            ;
        }
        r.push(CommitOp::Insert(base + i));
        i += 1;
    }
    if !args.archive && n >= COMMIT_PRUNE_WINDOW {
        let prune_base = (n - COMMIT_PRUNE_WINDOW) * COMMIT_SIZE;
        proof {
            assert((n - COMMIT_PRUNE_WINDOW) * COMMIT_SIZE <= n * COMMIT_SIZE) by (nonlinear_arith)
                requires
                    n >= COMMIT_PRUNE_WINDOW,
                    COMMIT_SIZE == 100,
                    COMMIT_PRUNE_WINDOW == 2000,
            ;
        }
        let mut i: u64 = 0;
        while i < COMMIT_PRUNE_SIZE
            invariant
                i <= COMMIT_PRUNE_SIZE,
                prune_base == (n - COMMIT_PRUNE_WINDOW) * COMMIT_SIZE,
                prune_base <= n * COMMIT_SIZE,
                (n + 1) * COMMIT_SIZE <= u64::MAX,
                n >= COMMIT_PRUNE_WINDOW,
                r@.len() == COMMIT_SIZE + i,
                forall|j: int|
                    0 <= j < COMMIT_SIZE ==> r@[j] == CommitOp::Insert(
                        (n * COMMIT_SIZE + j) as u64,
                    ),
                forall|j: int|
                    0 <= j < i ==> #[trigger] r@[COMMIT_SIZE + j] == CommitOp::Prune(
                        (prune_base + j) as u64,
                    ),
            decreases COMMIT_PRUNE_SIZE - i,
        {
            proof {
                assert(n * COMMIT_SIZE + COMMIT_SIZE <= u64::MAX) by (nonlinear_arith)
                    requires
                        (n + 1) * COMMIT_SIZE <= u64::MAX,
                        COMMIT_SIZE == 100,
                ;
            }
            r.push(CommitOp::Prune(prune_base + i));
            i += 1;
        }
    }
    r.push(CommitOp::Restart(n));
    r
}

/// A 64-bit number read from eight big-endian bytes.
pub open spec fn spec_u64_from_be_bytes(s: Seq<u8>) -> u64
    recommends
        s.len() == 8,
{
    (((s[0] as u64) << 56) | ((s[1] as u64) << 48) | ((s[2] as u64) << 40) | ((s[3] as u64) << 32)
        | ((s[4] as u64) << 24) | ((s[5] as u64) << 16) | ((s[6] as u64) << 8) | (s[7] as u64))
}

/// The commit number to resume from: one past the number in the restart
/// marker, or zero when the marker is absent.
pub fn restart_commit(marker: Option<&Vec<u8>>) -> (r: u64)
    requires
        match marker {
            Some(v) => v@.len() >= 8 && spec_u64_from_be_bytes(v@.subrange(0, 8)) < u64::MAX,
            None => true,
        },
    ensures
        r == (match marker {
            Some(v) => spec_u64_from_be_bytes(v@.subrange(0, 8)) + 1,
            None => 0int,
        }),
{
    match marker {
        Some(v) => {
            let ghost s = v@.subrange(0, 8);
            let x: u64 = ((v[0] as u64) << 56u64) | ((v[1] as u64) << 48u64) | ((v[2] as u64)
                << 40u64) | ((v[3] as u64) << 32u64) | ((v[4] as u64) << 24u64) | ((v[5] as u64)
                << 16u64) | ((v[6] as u64) << 8u64) | (v[7] as u64);
            proof {
                assert(s[0] == v@[0] && s[1] == v@[1] && s[2] == v@[2] && s[3] == v@[3] && s[4]
                    == v@[4] && s[5] == v@[5] && s[6] == v@[6] && s[7] == v@[7]);
                assert(x == spec_u64_from_be_bytes(s));
            }
            x + 1
        },
        None => 0,
    }
}

/// The key ranges the final check queries for commit `nc`, given the run
/// ends at commit `end_commit`: seeds in `[r.0, r.1)` must be absent
/// (pruned), seeds in `[r.1, r.2)` must hold their value.
pub fn check_plan(nc: u64, end_commit: u64, archive: bool) -> (r: (u64, u64, u64))
    requires
        nc < end_commit,
        end_commit * COMMIT_SIZE <= u64::MAX,
    ensures
        r.0 == nc * COMMIT_SIZE,
        r.2 == (nc + 1) * COMMIT_SIZE,
        r.1 == r.0 + (if end_commit > COMMIT_PRUNE_WINDOW && nc < end_commit - COMMIT_PRUNE_WINDOW
            && !archive {
            COMMIT_PRUNE_SIZE as int
        } else {
            0
        }),
{
    proof {
        assert(nc * COMMIT_SIZE + COMMIT_SIZE <= end_commit * COMMIT_SIZE) by (nonlinear_arith)
            requires
                nc < end_commit,
                COMMIT_SIZE == 100,
        ;
    }
    let start = nc * COMMIT_SIZE;
    let live_end = start + COMMIT_SIZE;
    let pruned = if end_commit > COMMIT_PRUNE_WINDOW && nc < end_commit - COMMIT_PRUNE_WINDOW
        && !archive {
        COMMIT_PRUNE_SIZE
    } else {
        0
    };
    (start, start + pruned, live_end)
}

} // verus!
