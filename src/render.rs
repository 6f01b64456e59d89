use vstd::prelude::*;
use vstd::arithmetic::div_mod::{lemma_fundamental_div_mod, lemma_div_is_ordered};

verus! {

/// The largest number of sample evaluations a render may count: a hundred
/// times it still fits in a `u64`, so a percentage can be taken of it.
pub const MAX_CALCULATIONS: u64 = 184467440737095516;

/// The size and sampling budget of an image.
#[derive(Clone, Copy, Debug, PartialEq, Eq, Structural)]
pub struct ImageData {
    pub image_width: i32,
    pub image_height: i32,
    pub samples_per_pixel: i32,
    pub max_depth: i32,
}

impl ImageData {
    /// The image's dimensions and its sample budget are non-negative.
    pub open spec fn nonneg(self) -> bool {
        self.image_width >= 0 && self.image_height >= 0 && self.samples_per_pixel >= 0
    }

    pub open spec fn spec_total(self) -> int {
        self.image_width * self.image_height * self.samples_per_pixel
    }

    /// The number of sample evaluations the whole render makes: one per
    /// pixel and sample. `None` where a dimension is negative or the count
    /// exceeds `MAX_CALCULATIONS`.
    pub fn total_calculations(&self) -> (r: Option<u64>)
        ensures
            r is Some <==> (self.nonneg() && self.spec_total() <= MAX_CALCULATIONS),
            r matches Some(n) ==> n == self.spec_total(),
    {
        if self.image_width < 0 || self.image_height < 0 || self.samples_per_pixel < 0 {
            return None;
        }
        let w = self.image_width as u128;
        let h = self.image_height as u128;
        let s = self.samples_per_pixel as u128;
        assert(w * h <= 0x7fff_ffff * 0x7fff_ffff) by (nonlinear_arith)
            requires
                w <= 0x7fff_ffff,
                h <= 0x7fff_ffff,
        ;
        let wh = w * h;
        assert(wh * s <= 0x7fff_ffff * 0x7fff_ffff * 0x7fff_ffff) by (nonlinear_arith)
            requires
                wh <= 0x7fff_ffff * 0x7fff_ffff,
                s <= 0x7fff_ffff,
        ;
        let total = wh * s;
        if total > MAX_CALCULATIONS as u128 {
            None
        } else {
            Some(total as u64)
        }
    }

    /// The number of pixels.
    pub fn pixel_count(&self) -> (r: usize)
        requires
            self.nonneg(),
            self.image_width * self.image_height <= usize::MAX,
        ensures
            r == self.image_width * self.image_height,
    {
        let w = self.image_width as usize;
        let h = self.image_height as usize;
        w * h
    }
}

/// The share of `total` samples per pixel that worker `k` of `workers` takes:
/// an even split, with the remainder going one each to the first workers.
pub open spec fn spec_worker_samples(total: nat, workers: nat, k: nat) -> nat {
    total / workers + if k < total % workers {
        1nat
    } else {
        0nat
    }
}

pub fn worker_samples(total: u32, workers: u32, k: u32) -> (r: u32)
    requires
        workers > 0,
        k < workers,
    ensures
        r == spec_worker_samples(total as nat, workers as nat, k as nat),
{
    let base = total / workers;
    proof {
        lemma_fundamental_div_mod(total as int, workers as int);
        assert(workers * base >= base) by (nonlinear_arith)
            requires
                workers >= 1,
                base >= 0,
        ;
    }
    if k < total % workers {
        base + 1
    } else {
        base
    }
}

/// The samples taken by workers `0..m`.
pub open spec fn shares_sum(total: nat, workers: nat, m: nat) -> nat
    decreases m,
{
    if m == 0 {
        0
    } else {
        shares_sum(total, workers, (m - 1) as nat) + spec_worker_samples(
            total,
            workers,
            (m - 1) as nat,
        )
    }
}

proof fn lemma_shares_prefix(total: nat, workers: nat, m: nat)
    requires
        workers > 0,
    ensures
        shares_sum(total, workers, m) == m * (total / workers) + if m < total % workers {
            m
        } else {
            total % workers
        },
    decreases m,
{
    if m > 0 {
        lemma_shares_prefix(total, workers, (m - 1) as nat);
        let q = total / workers;
        let mi = m as int;
        assert(mi * q == (mi - 1) * q + q) by (nonlinear_arith);
        let pm = (m - 1) as nat;
        assert(pm * q == (mi - 1) * q);
        assert(shares_sum(total, workers, m) == shares_sum(total, workers, pm)
            + spec_worker_samples(total, workers, pm));
    } else {
        let q = total / workers;
        assert(0 * q == 0);
    }
}

/// Splitting a sample budget over the workers takes every sample once: the
/// workers' shares add up to the budget.
pub proof fn lemma_worker_samples_cover(total: nat, workers: nat)
    requires
        workers > 0,
    ensures
        shares_sum(total, workers, workers) == total,
{
    lemma_shares_prefix(total, workers, workers);
    lemma_fundamental_div_mod(total as int, workers as int);
    assert(workers * (total / workers) == (total / workers) * workers) by (nonlinear_arith);
}

/// The completed-sample counter of a render and the percentage last announced.
#[derive(Clone, Copy, Debug, PartialEq, Eq, Structural)]
pub struct Progress {
    pub current_calculations: u64,
    pub total_calculations: u64,
    pub progress: u64,
}

pub open spec fn percent_of(current: nat, total: nat) -> nat {
    current * 100 / total
}

impl Progress {
    /// The counter stays within the total, and the percentage is that of
    /// the counter.
    pub open spec fn wf(self) -> bool {
        &&& 0 < self.total_calculations <= MAX_CALCULATIONS
        &&& self.current_calculations <= self.total_calculations
        &&& self.progress == percent_of(
            self.current_calculations as nat,
            self.total_calculations as nat,
        )
    }

    /// The state after a batch of `batch` samples is counted.
    pub open spec fn spec_record(self, batch: nat) -> Progress {
        let current = (self.current_calculations + batch) as u64;
        Progress {
            current_calculations: current,
            total_calculations: self.total_calculations,
            progress: percent_of(current as nat, self.total_calculations as nat) as u64,
        }
    }

    pub fn new(total_calculations: u64) -> (r: Progress)
        requires
            0 < total_calculations <= MAX_CALCULATIONS,
        ensures
            r.wf(),
            r.current_calculations == 0,
            r.total_calculations == total_calculations,
    {
        assert(0nat * 100 / (total_calculations as nat) == 0) by (nonlinear_arith)
            requires
                total_calculations > 0,
        ;
        Progress { current_calculations: 0, total_calculations, progress: 0 }
    }

    /// Counts a finished batch of `batch` samples. Returns the new whole
    /// percentage where it has passed the one announced before, and `None`
    /// where it has not.
    pub fn record(&mut self, batch: u64) -> (r: Option<u64>)
        requires
            old(self).wf(),
            old(self).current_calculations + batch <= old(self).total_calculations,
        ensures
            *final(self) == old(self).spec_record(batch as nat),
            final(self).wf(),
            final(self).progress >= old(self).progress,
            final(self).progress <= 100,
            r == (if final(self).progress > old(self).progress {
                Some(final(self).progress)
            } else {
                None::<u64>
            }),
    {
        let ghost before = *self;
        let current = self.current_calculations + batch;
        let total = self.total_calculations;
        assert(current * 100 <= total * 100) by (nonlinear_arith)
            requires
                current <= total,
        ;
        let scaled = current * 100;
        let percent = scaled / total;
        proof {
            lemma_div_is_ordered(
                before.current_calculations * 100,
                current * 100,
                total as int,
            );
            assert(before.current_calculations * 100 <= current * 100) by (nonlinear_arith)
                requires
                    before.current_calculations <= current,
            ;
            let t: int = total as int;
            lemma_div_is_ordered(current * 100, t * 100, t);
            assert((t * 100) / t == 100) by (nonlinear_arith)
                requires
                    t > 0,
            ;
        }
        let announce = percent > self.progress;
        self.current_calculations = current;
        self.progress = percent;
        if announce {
            Some(percent)
        } else {
            None
        }
    }
}

/// The counter does not depend on the order in which two workers report:
/// counting batch `a` then `b` leaves the same state as `b` then `a`.
pub proof fn lemma_record_commutes(s: Progress, a: nat, b: nat)
    requires
        s.wf(),
        s.current_calculations + a + b <= s.total_calculations,
    ensures
        s.spec_record(a).spec_record(b) == s.spec_record(b).spec_record(a),
{
}


/// `m` gives the one sum the addition `f` gives.
pub open spec fn add_model<C, A: Fn(C, C) -> C>(f: A, m: spec_fn(C, C) -> C) -> bool {
    forall|a: C, b: C, out: C| #[trigger] call_ensures(f, (a, b), out) ==> out == m(a, b)
}

/// The running sums after a batch is added in, pixel by pixel.
pub open spec fn merged<C>(sums: Seq<C>, batch: Seq<C>, m: spec_fn(C, C) -> C) -> Seq<C> {
    Seq::new(sums.len(), |i: int| m(sums[i], batch[i]))
}

/// Adds a worker's batch of per-pixel sums into the shared running sums.
pub fn merge_sums<C: Copy, A: Fn(C, C) -> C>(sums: &mut Vec<C>, batch: &Vec<C>, plus: &A)
    requires
        old(sums).len() == batch.len(),
        forall|a: C, b: C| call_requires(*plus, (a, b)),
    ensures
        final(sums).len() == old(sums).len(),
        forall|m: spec_fn(C, C) -> C|
            #[trigger] add_model(*plus, m) ==> final(sums)@ == merged(old(sums)@, batch@, m),
{
    let ghost start = sums@;
    let mut i: usize = 0;
    while i < sums.len()
        invariant
            i <= sums.len(),
            sums.len() == start.len(),
            start.len() == batch.len(),
            forall|a: C, b: C| call_requires(*plus, (a, b)),
            forall|k: int| i <= k < sums.len() ==> #[trigger] sums@[k] == start[k],
            forall|k: int, m: spec_fn(C, C) -> C|
                0 <= k < i && #[trigger] add_model(*plus, m) ==> #[trigger] sums@[k] == m(
                    start[k],
                    batch@[k],
                ),
        decreases sums.len() - i,
    {
        let v = plus(sums[i], batch[i]);
        sums.set(i, v);
        i = i + 1;
    }
    assert forall|m: spec_fn(C, C) -> C| #[trigger] add_model(*plus, m) implies sums@ == merged(
        start,
        batch@,
        m,
    ) by {
        assert(sums@ =~= merged(start, batch@, m));
    }
}

/// With an addition that is commutative and associative, the shared sums do
/// not depend on the order in which two workers merge their batches.
pub proof fn lemma_merge_order_irrelevant<C>(
    sums: Seq<C>,
    a: Seq<C>,
    b: Seq<C>,
    m: spec_fn(C, C) -> C,
)
    requires
        a.len() == sums.len(),
        b.len() == sums.len(),
        forall|x: C, y: C| #[trigger] m(x, y) == m(y, x),
        forall|x: C, y: C, z: C| #[trigger] m(m(x, y), z) == m(x, m(y, z)),
    ensures
        merged(merged(sums, a, m), b, m) == merged(merged(sums, b, m), a, m),
{
    assert forall|i: int| 0 <= i < sums.len() implies m(m(sums[i], a[i]), b[i]) == m(
        m(sums[i], b[i]),
        a[i],
    ) by {
        assert(m(m(sums[i], a[i]), b[i]) == m(sums[i], m(a[i], b[i])));
        assert(m(m(sums[i], b[i]), a[i]) == m(sums[i], m(b[i], a[i])));
        assert(m(a[i], b[i]) == m(b[i], a[i]));
    }
    assert(merged(merged(sums, a, m), b, m) =~= merged(merged(sums, b, m), a, m));
}

/// Two workers that merge into sums that start at zero leave the same totals
/// in either order, given only that addition is commutative and zero is its
/// identity.
pub proof fn lemma_two_workers_from_zero<C>(
    zeros: Seq<C>,
    zero: C,
    a: Seq<C>,
    b: Seq<C>,
    m: spec_fn(C, C) -> C,
)
    requires
        a.len() == zeros.len(),
        b.len() == zeros.len(),
        forall|i: int| 0 <= i < zeros.len() ==> #[trigger] zeros[i] == zero,
        forall|x: C| #[trigger] m(zero, x) == x,
        forall|x: C, y: C| #[trigger] m(x, y) == m(y, x),
    ensures
        merged(merged(zeros, a, m), b, m) == merged(merged(zeros, b, m), a, m),
{
    assert forall|i: int| 0 <= i < zeros.len() implies m(m(zeros[i], a[i]), b[i]) == m(
        m(zeros[i], b[i]),
        a[i],
    ) by {
        assert(m(zero, a[i]) == a[i]);
        assert(m(zero, b[i]) == b[i]);
        assert(m(a[i], b[i]) == m(b[i], a[i]));
    }
    assert(merged(merged(zeros, a, m), b, m) =~= merged(merged(zeros, b, m), a, m));
}

} // verus!
