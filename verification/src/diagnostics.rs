//! Counting what storing numbers in low precision does to them. The comparisons on the numbers
//! themselves are made by the caller.

use vstd::prelude::*;

use crate::board::{lemma_those_below, those_below};
use crate::sampling::{draws_suffice, increasing, picked, sample_indices, sample_size};

verus! {

/// Most samples of one diagnostic.
pub const MAX_SAMPLES: usize = 65536;

/// What was found of one stored number: the value before, the value to be stored, and the value
/// that was stored.
#[derive(Clone, Copy, Debug, PartialEq, Eq, Structural)]
pub struct StorageFacts {
    /// All three are numbers.
    pub finite: bool,
    /// The value to be stored is zero.
    pub candidate_zero: bool,
    /// It is above the largest half-precision number.
    pub above_limit: bool,
    /// It is below the smallest one.
    pub below_limit: bool,
    /// It differs from the value before.
    pub changed: bool,
    /// The stored value is zero.
    pub stored_zero: bool,
    /// The stored value is the value before.
    pub stored_old: bool,
    /// The stored value has a magnitude below the normal half-precision numbers.
    pub stored_tiny: bool,
}

/// Counts of what storing did.
#[derive(Clone, Copy, Debug, PartialEq, Eq, Structural)]
pub struct StorageStats {
    pub samples: u64,
    pub nonfinite: u64,
    pub finite: u64,
    pub input_zero: u64,
    pub input_nonzero: u64,
    /// Numbers that became zero.
    pub zeroed: u64,
    /// Numbers cut to the limit.
    pub capped: u64,
    pub changed_candidate: u64,
    /// Changes that were rounded away.
    pub round_to_same: u64,
    pub stored_zero: u64,
    pub stored_subnormal: u64,
    pub uncapped_nonzero: u64,
}

/// One where it is so, zero where not.
pub open spec fn count_if(b: bool) -> int {
    if b {
        1
    } else {
        0
    }
}

fn one_if(b: bool) -> (r: u64)
    ensures
        r == count_if(b),
{
    if b {
        1
    } else {
        0
    }
}

/// Whether a number is cut to the limit. Squared averages have no lower limit.
pub open spec fn is_capped(f: StorageFacts, half: bool, velocity: bool) -> bool {
    half && (f.above_limit || (!velocity && f.below_limit))
}

impl StorageFacts {
    /// Whether the number is cut to the limit: `half` says that it is stored in half precision,
    /// `velocity` that it is a squared average.
    pub fn is_cut(&self, half: bool, velocity: bool) -> (r: bool)
        ensures
            r == is_capped(*self, half, velocity),
    {
        half && (self.above_limit || (!velocity && self.below_limit))
    }
}

/// The counts after one more number.
pub open spec fn observed(
    s: StorageStats,
    f: StorageFacts,
    half: bool,
    velocity: bool,
) -> StorageStats {
    let capped = is_capped(f, half, velocity);
    if !f.finite {
        StorageStats {
            samples: (s.samples + 1) as u64,
            nonfinite: (s.nonfinite + 1) as u64,
            ..s
        }
    } else {
        StorageStats {
            samples: (s.samples + 1) as u64,
            nonfinite: s.nonfinite,
            finite: (s.finite + 1) as u64,
            input_zero: (s.input_zero + count_if(f.candidate_zero)) as u64,
            input_nonzero: (s.input_nonzero + count_if(!f.candidate_zero)) as u64,
            zeroed: (s.zeroed + count_if(!f.candidate_zero && f.stored_zero && !capped)) as u64,
            capped: (s.capped + count_if(capped)) as u64,
            changed_candidate: (s.changed_candidate + count_if(f.changed)) as u64,
            round_to_same: (s.round_to_same + count_if(
                f.changed && f.stored_old && !f.stored_zero && !capped,
            )) as u64,
            stored_zero: (s.stored_zero + count_if(f.stored_zero)) as u64,
            stored_subnormal: (s.stored_subnormal + count_if(
                half && !f.stored_zero && f.stored_tiny,
            )) as u64,
            uncapped_nonzero: (s.uncapped_nonzero + count_if(!capped && !f.candidate_zero)) as u64,
        }
    }
}

impl StorageStats {
    /// Every sample is a number or not, every number is zero or not, no number counts as zeroed,
    /// cut and rounded away at once, and nothing is counted more often than there are numbers.
    pub open spec fn wf(&self) -> bool {
        &&& self.samples == self.finite + self.nonfinite
        &&& self.finite == self.input_zero + self.input_nonzero
        &&& self.zeroed + self.capped + self.round_to_same <= self.finite
        &&& self.capped + self.uncapped_nonzero <= self.finite
        &&& self.changed_candidate <= self.finite
        &&& self.stored_zero + self.stored_subnormal <= self.finite
    }

    /// No counts.
    pub fn new() -> (r: Self)
        ensures
            r.wf(),
            r.samples == 0,
    {
        StorageStats {
            samples: 0,
            nonfinite: 0,
            finite: 0,
            input_zero: 0,
            input_nonzero: 0,
            zeroed: 0,
            capped: 0,
            changed_candidate: 0,
            round_to_same: 0,
            stored_zero: 0,
            stored_subnormal: 0,
            uncapped_nonzero: 0,
        }
    }

    /// Counts one number.
    pub fn observe(&mut self, f: StorageFacts, half: bool, velocity: bool)
        requires
            old(self).wf(),
            old(self).samples < u64::MAX,
        ensures
            final(self).wf(),
            *final(self) == observed(*old(self), f, half, velocity),
    {
        self.samples = self.samples + 1;
        if !f.finite {
            self.nonfinite = self.nonfinite + 1;
            return;
        }
        let capped = f.is_cut(half, velocity);
        self.finite = self.finite + 1;
        self.input_zero = self.input_zero + one_if(f.candidate_zero);
        self.input_nonzero = self.input_nonzero + one_if(!f.candidate_zero);
        self.capped = self.capped + one_if(capped);
        self.zeroed = self.zeroed + one_if(!f.candidate_zero && f.stored_zero && !capped);
        self.changed_candidate = self.changed_candidate + one_if(f.changed);
        self.round_to_same = self.round_to_same + one_if(
            f.changed && f.stored_old && !f.stored_zero && !capped,
        );
        self.stored_zero = self.stored_zero + one_if(f.stored_zero);
        self.stored_subnormal = self.stored_subnormal + one_if(
            half && !f.stored_zero && f.stored_tiny,
        );
        self.uncapped_nonzero = self.uncapped_nonzero + one_if(!capped && !f.candidate_zero);
    }
}

/// What was found of a number before and after a step.
#[derive(Clone, Copy, Debug, PartialEq, Eq, Structural)]
pub struct DeltaFacts {
    pub finite: bool,
    pub changed: bool,
}

/// Counts of changes.
#[derive(Clone, Copy, Debug, PartialEq, Eq, Structural)]
pub struct DeltaStats {
    pub samples: u64,
    pub finite: u64,
    pub changed: u64,
}

/// The counts after one more pair.
pub open spec fn delta_observed(s: DeltaStats, f: DeltaFacts) -> DeltaStats {
    DeltaStats {
        samples: (s.samples + 1) as u64,
        finite: (s.finite + count_if(f.finite)) as u64,
        changed: (s.changed + count_if(f.finite && f.changed)) as u64,
    }
}

impl DeltaStats {
    /// Only numbers change.
    pub open spec fn wf(&self) -> bool {
        self.changed <= self.finite <= self.samples
    }

    /// No counts.
    pub fn new() -> (r: Self)
        ensures
            r == (DeltaStats { samples: 0, finite: 0, changed: 0 }),
            r.wf(),
    {
        DeltaStats { samples: 0, finite: 0, changed: 0 }
    }

    /// Counts one pair.
    pub fn observe(&mut self, f: DeltaFacts)
        requires
            old(self).wf(),
            old(self).samples < u64::MAX,
        ensures
            final(self).wf(),
            *final(self) == delta_observed(*old(self), f),
    {
        self.samples = self.samples + 1;
        self.finite = self.finite + one_if(f.finite);
        self.changed = self.changed + one_if(f.finite && f.changed);
    }
}

/// What was found of one sampled weight.
#[derive(Clone, Copy, Debug, PartialEq, Eq, Structural)]
pub struct RecordFacts {
    pub gradient_finite: bool,
    pub gradient_zero: bool,
    pub m: StorageFacts,
    pub v: StorageFacts,
    pub master_optimizer: DeltaFacts,
    pub master_norm_loss: DeltaFacts,
    pub master_end_of_step: DeltaFacts,
    pub forward_fp16: DeltaFacts,
}

/// The counts of one group of weights.
#[derive(Clone, Copy, Debug, PartialEq, Eq, Structural)]
pub struct GroupStats {
    pub sampled_elements: u64,
    pub optimizer_gradient_nonzero: u64,
    pub optimizer_gradient_nonfinite: u64,
    pub m: StorageStats,
    pub v: StorageStats,
    pub master_optimizer: DeltaStats,
    pub master_norm_loss: DeltaStats,
    pub master_end_of_step: DeltaStats,
    pub forward_fp16: DeltaStats,
}

/// The counts after one more weight; `mirrored` says whether it has a half-precision copy.
pub open spec fn group_observed(
    g: GroupStats,
    r: RecordFacts,
    half: bool,
    mirrored: bool,
) -> GroupStats {
    GroupStats {
        sampled_elements: (g.sampled_elements + 1) as u64,
        optimizer_gradient_nonzero: (g.optimizer_gradient_nonzero + count_if(
            r.gradient_finite && !r.gradient_zero,
        )) as u64,
        optimizer_gradient_nonfinite: (g.optimizer_gradient_nonfinite + count_if(
            !r.gradient_finite,
        )) as u64,
        m: observed(g.m, r.m, half, false),
        v: observed(g.v, r.v, half, true),
        master_optimizer: delta_observed(g.master_optimizer, r.master_optimizer),
        master_norm_loss: delta_observed(g.master_norm_loss, r.master_norm_loss),
        master_end_of_step: delta_observed(g.master_end_of_step, r.master_end_of_step),
        forward_fp16: if mirrored {
            delta_observed(g.forward_fp16, r.forward_fp16)
        } else {
            g.forward_fp16
        },
    }
}

impl GroupStats {
    /// Every part counts the sampled weights.
    pub open spec fn wf(&self) -> bool {
        &&& self.m.wf() && self.v.wf()
        &&& self.master_optimizer.wf() && self.master_norm_loss.wf()
        &&& self.master_end_of_step.wf() && self.forward_fp16.wf()
        &&& self.m.samples == self.sampled_elements
        &&& self.v.samples == self.sampled_elements
        &&& self.master_optimizer.samples == self.sampled_elements
        &&& self.master_norm_loss.samples == self.sampled_elements
        &&& self.master_end_of_step.samples == self.sampled_elements
        &&& self.forward_fp16.samples <= self.sampled_elements
        &&& self.optimizer_gradient_nonzero + self.optimizer_gradient_nonfinite
            <= self.sampled_elements
    }

    /// Counts of nothing.
    pub open spec fn is_empty(&self) -> bool {
        self.wf() && self.sampled_elements == 0
    }

    /// No counts.
    pub fn new() -> (r: Self)
        ensures
            r.is_empty(),
    {
        GroupStats {
            sampled_elements: 0,
            optimizer_gradient_nonzero: 0,
            optimizer_gradient_nonfinite: 0,
            m: StorageStats::new(),
            v: StorageStats::new(),
            master_optimizer: DeltaStats::new(),
            master_norm_loss: DeltaStats::new(),
            master_end_of_step: DeltaStats::new(),
            forward_fp16: DeltaStats::new(),
        }
    }

    /// Counts one weight.
    pub fn observe(&mut self, r: RecordFacts, half: bool, mirrored: bool)
        requires
            old(self).wf(),
            old(self).sampled_elements < u64::MAX,
        ensures
            final(self).wf(),
            *final(self) == group_observed(*old(self), r, half, mirrored),
    {
        self.sampled_elements = self.sampled_elements + 1;
        self.optimizer_gradient_nonzero = self.optimizer_gradient_nonzero + one_if(
            r.gradient_finite && !r.gradient_zero,
        );
        self.optimizer_gradient_nonfinite = self.optimizer_gradient_nonfinite + one_if(
            !r.gradient_finite,
        );
        self.m.observe(r.m, half, false);
        self.v.observe(r.v, half, true);
        self.master_optimizer.observe(r.master_optimizer);
        self.master_norm_loss.observe(r.master_norm_loss);
        self.master_end_of_step.observe(r.master_end_of_step);
        if mirrored {
            self.forward_fp16.observe(r.forward_fp16);
        }
    }
}

/// The counts of the weights below `base` (or, with `upper`, of those from `base` on) among the
/// samples.
pub open spec fn group_of(
    start: GroupStats,
    indices: Seq<u32>,
    records: Seq<RecordFacts>,
    base: u32,
    upper: bool,
    half: bool,
    mirror: bool,
) -> GroupStats
    decreases indices.len(),
{
    if indices.len() == 0 {
        start
    } else {
        let before = group_of(
            start,
            indices.drop_last(),
            records,
            base,
            upper,
            half,
            mirror,
        );
        let index = indices.last();
        if (index >= base) == upper {
            group_observed(
                before,
                records[indices.len() - 1],
                half,
                mirror && index < base,
            )
        } else {
            before
        }
    }
}

/// The counts of the sampled weights, by whether they are below `base_elements`. Only the weights
/// below it have half-precision copies.
pub fn summarize(
    indices: &[u32],
    records: &[RecordFacts],
    base_elements: u32,
    half: bool,
    mirror: bool,
) -> (r: (GroupStats, GroupStats))
    requires
        records@.len() == indices@.len(),
        indices@.len() < u64::MAX,
    ensures
        exists|start: GroupStats| #[trigger]
            start.is_empty() && r.0 == group_of(
                start,
                indices@,
                records@,
                base_elements,
                false,
                half,
                mirror,
            ) && r.1 == group_of(
                start,
                indices@,
                records@,
                base_elements,
                true,
                half,
                mirror,
            ),
        r.0.wf(),
        r.1.wf(),
        r.0.sampled_elements + r.1.sampled_elements == indices@.len(),
{
    let start = GroupStats::new();
    let mut lower = start;
    let mut upper = start;
    let mut i: usize = 0;
    assert(indices@.take(0) =~= seq![]);
    while i < indices.len()
        invariant
            i <= indices@.len(),
            records@.len() == indices@.len(),
            indices@.len() < u64::MAX,
            start.is_empty(),
            lower.wf(),
            upper.wf(),
            lower.sampled_elements + upper.sampled_elements == i,
            lower == group_of(
                start,
                indices@.take(i as int),
                records@,
                base_elements,
                false,
                half,
                mirror,
            ),
            upper == group_of(
                start,
                indices@.take(i as int),
                records@,
                base_elements,
                true,
                half,
                mirror,
            ),
        decreases indices@.len() - i,
    {
        let index: u32 = indices[i];
        let record = records[i];
        proof {
            let more = indices@.take(i + 1);
            assert(more.drop_last() =~= indices@.take(i as int));
        }
        if index >= base_elements {
            upper.observe(record, half, mirror && index < base_elements);
        } else {
            lower.observe(record, half, mirror && index < base_elements);
        }
        i += 1;
    }
    assert(indices@.take(i as int) =~= indices@);
    (lower, upper)
}

/// Why a diagnostic cannot be set up.
#[derive(Clone, Copy, Debug, PartialEq, Eq, Structural)]
pub enum DiagnosticError {
    /// There are more weights than can be numbered.
    TooMany,
    /// There is nothing to sample, or a step that never comes.
    Arguments,
}

impl DiagnosticError {
    /// The text of the error.
    pub fn message(&self) -> (r: &'static str)
        ensures
            r@ == match *self {
                DiagnosticError::TooMany => {
                    "out of range integral type conversion attempted"@
                },
                DiagnosticError::Arguments => {
                    "precision diagnostics require nonempty positive steps and 1..=65536 samples"@
                },
            },
    {
        match self {
            DiagnosticError::TooMany => "out of range integral type conversion attempted",
            DiagnosticError::Arguments => {
                "precision diagnostics require nonempty positive steps and 1..=65536 samples"
            },
        }
    }
}

/// Whether the arguments of a diagnostic make sense.
pub open spec fn arguments_ok(n: int, steps: Seq<u64>, count: int) -> bool {
    &&& n > 0
    &&& 0 < count <= 65536
    &&& steps.len() > 0
    &&& forall|k: int| 0 <= k < steps.len() ==> #[trigger] steps[k] > 0
}

/// The weights that a diagnostic looks at: a fixed sample of `count` out of `n`.
pub fn diagnostic_indices(n: usize, steps: &[u64], count: usize, seed: u64) -> (r: Result<
    Vec<u32>,
    DiagnosticError,
>)
    ensures
        if n > u32::MAX {
            r == Err::<Vec<u32>, DiagnosticError>(DiagnosticError::TooMany)
        } else if !arguments_ok(n as int, steps@, count as int) {
            r == Err::<Vec<u32>, DiagnosticError>(DiagnosticError::Arguments)
        } else {
            &&& r is Ok
            &&& increasing(r->Ok_0@)
            &&& r->Ok_0@.len() == sample_size(n as int, count as int)
            &&& exists|t: nat|
                #[trigger] draws_suffice(n as int, count as int, seed, t) && r->Ok_0@.to_set()
                    == picked(n as int, seed, t)
        },
{
    if n as u64 > u32::MAX as u64 {
        return Err(DiagnosticError::TooMany);
    }
    if n == 0 || count == 0 || count > MAX_SAMPLES || steps.len() == 0 {
        return Err(DiagnosticError::Arguments);
    }
    let mut i: usize = 0;
    while i < steps.len()
        invariant
            i <= steps@.len(),
            n <= u32::MAX,
            forall|k: int| 0 <= k < i ==> #[trigger] steps@[k] > 0,
        decreases steps@.len() - i,
    {
        if steps[i] == 0 {
            assert(!(steps@[i as int] > 0));
            return Err(DiagnosticError::Arguments);
        }
        i += 1;
    }
    Ok(sample_indices(n as u32, count, seed))
}

/// What one more number changes. One that is not finite counts as a sample and nothing else. A
/// finite one is zero or not, cut or not, and is counted as lost only where it was not zero, was
/// not cut and was stored as zero; as rounded away only where a change was asked for, none was
/// stored, and it was neither lost nor cut.
pub proof fn numbers_are_counted_by_their_fate(
    s: StorageStats,
    f: StorageFacts,
    half: bool,
    velocity: bool,
)
    requires
        s.wf(),
        s.samples < u64::MAX,
    ensures
        ({
            let t = observed(s, f, half, velocity);
            let cut = half && (f.above_limit || (f.below_limit && !velocity));
            &&& t.samples == s.samples + 1
            &&& !f.finite ==> t == (StorageStats {
                samples: t.samples,
                nonfinite: (s.nonfinite + 1) as u64,
                ..s
            })
            &&& f.finite ==> {
                &&& t.nonfinite == s.nonfinite && t.finite == s.finite + 1
                &&& t.capped > s.capped <==> cut
                &&& t.input_zero > s.input_zero <==> f.candidate_zero
                &&& t.input_nonzero > s.input_nonzero <==> !f.candidate_zero
                &&& t.zeroed > s.zeroed <==> !f.candidate_zero && f.stored_zero && !cut
                &&& t.changed_candidate > s.changed_candidate <==> f.changed
                &&& t.round_to_same > s.round_to_same <==> f.changed && f.stored_old
                    && !f.stored_zero && !cut
                &&& t.stored_zero > s.stored_zero <==> f.stored_zero
                &&& t.stored_subnormal > s.stored_subnormal <==> half && f.stored_tiny
                    && !f.stored_zero
                &&& t.uncapped_nonzero > s.uncapped_nonzero <==> !cut && !f.candidate_zero
                &&& t.capped <= s.capped + 1 && t.zeroed <= s.zeroed + 1
                &&& t.round_to_same <= s.round_to_same + 1
            }
        }),
        !is_capped(f, false, velocity),
        is_capped(f, true, true) <==> f.above_limit,
{
}

/// Whether sample `k` is of the group below the base, or of the one above.
pub open spec fn of_group(indices: Seq<u32>, base: u32, upper: bool, k: int) -> bool {
    if upper {
        base <= indices[k]
    } else {
        indices[k] < base
    }
}

/// How many of the first `n` samples of a group something holds of.
pub open spec fn group_count(
    indices: Seq<u32>,
    base: u32,
    upper: bool,
    n: int,
    p: spec_fn(int) -> bool,
) -> nat {
    those_below(n, |k: int| of_group(indices, base, upper, k) && p(k)).len()
}

proof fn lemma_group_count(
    indices: Seq<u32>,
    base: u32,
    upper: bool,
    n: int,
    p: spec_fn(int) -> bool,
)
    requires
        0 <= n,
    ensures
        group_count(indices, base, upper, n, p) <= n,
        n == 0 ==> group_count(indices, base, upper, n, p) == 0,
        n > 0 ==> group_count(indices, base, upper, n, p) == group_count(
            indices,
            base,
            upper,
            n - 1,
            p,
        ) + if of_group(indices, base, upper, n - 1) && p(n - 1) {
            1int
        } else {
            0int
        },
{
    lemma_those_below(n, |k: int| of_group(indices, base, upper, k) && p(k));
}

proof fn lemma_gradients_counted(
    start: GroupStats,
    indices: Seq<u32>,
    records: Seq<RecordFacts>,
    base: u32,
    upper: bool,
    half: bool,
    mirror: bool,
    n: nat,
)
    requires
        start.is_empty(),
        n <= indices.len() < u64::MAX,
    ensures
        ({
            let g = group_of(start, indices.take(n as int), records, base, upper, half, mirror);
            let count = |p: spec_fn(int) -> bool| group_count(indices, base, upper, n as int, p);
            &&& g.sampled_elements == count(|k: int| true)
            &&& g.optimizer_gradient_nonfinite == count(|k: int| !records[k].gradient_finite)
            &&& g.optimizer_gradient_nonzero == count(
                |k: int| records[k].gradient_finite && !records[k].gradient_zero,
            )
            &&& g.forward_fp16.samples == if mirror && !upper {
                g.sampled_elements
            } else {
                0
            }
        }),
    decreases n,
{
    lemma_group_count(indices, base, upper, n as int, |k: int| true);
    lemma_group_count(indices, base, upper, n as int, |k: int| !records[k].gradient_finite);
    lemma_group_count(
        indices,
        base,
        upper,
        n as int,
        |k: int| records[k].gradient_finite && !records[k].gradient_zero,
    );
    if n > 0 {
        assert(indices.take(n as int).drop_last() =~= indices.take(n - 1));
        lemma_gradients_counted(
            start,
            indices,
            records,
            base,
            upper,
            half,
            mirror,
            (n - 1) as nat,
        );
    }
}

proof fn lemma_changes_counted(
    start: GroupStats,
    indices: Seq<u32>,
    records: Seq<RecordFacts>,
    base: u32,
    upper: bool,
    half: bool,
    mirror: bool,
    n: nat,
)
    requires
        start.is_empty(),
        n <= indices.len() < u64::MAX,
    ensures
        ({
            let g = group_of(start, indices.take(n as int), records, base, upper, half, mirror);
            let count = |p: spec_fn(int) -> bool| group_count(indices, base, upper, n as int, p);
            &&& g.master_optimizer.changed == count(
                |k: int| records[k].master_optimizer.finite && records[k].master_optimizer.changed,
            )
            &&& g.master_norm_loss.changed == count(
                |k: int| records[k].master_norm_loss.finite && records[k].master_norm_loss.changed,
            )
            &&& g.master_end_of_step.changed == count(
                |k: int|
                    records[k].master_end_of_step.finite && records[k].master_end_of_step.changed,
            )
            &&& g.m.capped == count(
                |k: int|
                    half && records[k].m.finite && (records[k].m.above_limit
                        || records[k].m.below_limit),
            )
            &&& g.v.capped == count(
                |k: int| half && records[k].v.finite && records[k].v.above_limit,
            )
        }),
    decreases n,
{
    lemma_group_count(
        indices,
        base,
        upper,
        n as int,
        |k: int| records[k].master_optimizer.finite && records[k].master_optimizer.changed,
    );
    lemma_group_count(
        indices,
        base,
        upper,
        n as int,
        |k: int| records[k].master_norm_loss.finite && records[k].master_norm_loss.changed,
    );
    lemma_group_count(
        indices,
        base,
        upper,
        n as int,
        |k: int| records[k].master_end_of_step.finite && records[k].master_end_of_step.changed,
    );
    lemma_group_count(
        indices,
        base,
        upper,
        n as int,
        |k: int|
            half && records[k].m.finite && (records[k].m.above_limit || records[k].m.below_limit),
    );
    lemma_group_count(
        indices,
        base,
        upper,
        n as int,
        |k: int| half && records[k].v.finite && records[k].v.above_limit,
    );
    if n > 0 {
        assert(indices.take(n as int).drop_last() =~= indices.take(n - 1));
        lemma_changes_counted(
            start,
            indices,
            records,
            base,
            upper,
            half,
            mirror,
            (n - 1) as nat,
        );
    }
}

/// The counts of a group are of the samples on its side of the base and of no others, each count of
/// its own part of the record. Only weights below the base have copies to look at, and only where
/// such copies are kept. Half precision cuts what is too large, and on both sides only where the
/// number has a sign.
pub proof fn weights_are_grouped_by_their_index(
    start: GroupStats,
    indices: Seq<u32>,
    records: Seq<RecordFacts>,
    base: u32,
    upper: bool,
    half: bool,
    mirror: bool,
)
    requires
        start.is_empty(),
        indices.len() < u64::MAX,
    ensures
        ({
            let g = group_of(start, indices, records, base, upper, half, mirror);
            let count = |p: spec_fn(int) -> bool|
                group_count(indices, base, upper, indices.len() as int, p);
            &&& g.sampled_elements == count(|k: int| true)
            &&& g.optimizer_gradient_nonfinite == count(|k: int| !records[k].gradient_finite)
            &&& g.optimizer_gradient_nonzero == count(
                |k: int| records[k].gradient_finite && !records[k].gradient_zero,
            )
            &&& g.forward_fp16.samples == if mirror && !upper {
                g.sampled_elements
            } else {
                0
            }
            &&& g.master_optimizer.changed == count(
                |k: int| records[k].master_optimizer.finite && records[k].master_optimizer.changed,
            )
            &&& g.master_norm_loss.changed == count(
                |k: int| records[k].master_norm_loss.finite && records[k].master_norm_loss.changed,
            )
            &&& g.master_end_of_step.changed == count(
                |k: int|
                    records[k].master_end_of_step.finite && records[k].master_end_of_step.changed,
            )
            &&& g.m.capped == count(
                |k: int|
                    half && records[k].m.finite && (records[k].m.above_limit
                        || records[k].m.below_limit),
            )
            &&& g.v.capped == count(
                |k: int| half && records[k].v.finite && records[k].v.above_limit,
            )
        }),
{
    assert(indices.take(indices.len() as int) =~= indices);
    lemma_gradients_counted(start, indices, records, base, upper, half, mirror, indices.len());
    lemma_changes_counted(start, indices, records, base, upper, half, mirror, indices.len());
}

/// A diagnostic needs weights, a sample of 1 to 65536 of them, and steps to run at, none of them
/// the zeroth.
pub proof fn diagnostics_need_weights_samples_and_steps(
    n: int,
    steps: Seq<u64>,
    count: int,
    step: u64,
)
    ensures
        arguments_ok(n, steps, count) ==> n >= 1 && 1 <= count <= 65536 && steps.len() >= 1,
        arguments_ok(n, steps, count) ==> !steps.contains(0),
        n >= 1 && 1 <= count <= 65536 && step >= 1 ==> arguments_ok(n, seq![step], count),
        arguments_ok(n, steps, count) && step >= 1 ==> arguments_ok(n, steps.push(step), count),
        !arguments_ok(n, seq![], count),
{
    if arguments_ok(n, steps, count) && step >= 1 {
        let more = steps.push(step);
        assert forall|k: int| 0 <= k < more.len() implies #[trigger] more[k] > 0 by {
            if k < steps.len() {
                assert(more[k] == steps[k]);
            }
        }
    }
}

} // verus!
