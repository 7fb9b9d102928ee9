//! Two-stage sampling: one partition by weight, then distinct records of it.

use crate::store::MyDataService;
use rand::distributions::WeightedError;
use rand::seq::IteratorRandom;
use rand::seq::SliceRandom;
use vstd::prelude::*;

verus! {

/// `rand`'s error for a weighted choice that cannot be made. Its variants are
/// not read here.
#[verifier::external_type_specification]
#[verifier::external_body]
pub struct ExWeightedError(rand::distributions::WeightedError);

/// No partition can be selected: the corpus holds no partition, or none of its
/// partitions holds a record.
#[derive(Debug, Clone, Copy, PartialEq, Eq)]
pub enum SamplingError {
    /// The corpus holds no partition.
    EmptyStore,
    /// The corpus holds partitions, and every one of them is empty.
    NoRecords,
}

impl SamplingError {
    /// The text that a failed request is answered with.
    pub fn message(&self) -> (text: &'static str)
        ensures
            text@ == "Failed to select a group"@,
    {
        "Failed to select a group"
    }
}

/// A drawn sample by position: the partition it was drawn from and the
/// positions of the drawn records in that partition, in the order drawn.
#[derive(Debug, PartialEq, Eq)]
pub struct Sample {
    pub group: usize,
    pub positions: Vec<usize>,
}

/// Every position of `positions` is below `len`.
pub open spec fn in_range(positions: Seq<usize>, len: nat) -> bool {
    forall|k: int| 0 <= k < positions.len() ==> (#[trigger] positions[k]) < len
}

/// No position occurs twice in `positions`.
pub open spec fn distinct(positions: Seq<usize>) -> bool {
    forall|j: int, k: int|
        0 <= j < k < positions.len() ==> (#[trigger] positions[j]) != (#[trigger] positions[k])
}

/// The number of records to draw when `requested` are asked of a partition
/// that holds `available`.
pub open spec fn clamped(requested: nat, available: nat) -> nat {
    if requested > available {
        available
    } else {
        requested
    }
}

/// `positions` is a draw without replacement of `requested` records from a
/// partition of `len` records, or of all of them where it holds fewer.
pub open spec fn is_draw(positions: Seq<usize>, len: nat, requested: nat) -> bool {
    &&& positions.len() == clamped(requested, len)
    &&& in_range(positions, len)
    &&& distinct(positions)
}

/// Some partition of `corpus` holds a record.
pub open spec fn has_records<T>(corpus: Seq<Seq<T>>) -> bool {
    exists|i: int| 0 <= i < corpus.len() && (#[trigger] corpus[i]).len() > 0
}

/// `picked` are the records of `items` at `positions`, in that order.
pub open spec fn picks<T>(picked: Seq<&T>, items: Seq<T>, positions: Seq<usize>) -> bool {
    &&& picked.len() == positions.len()
    &&& forall|k: int|
        0 <= k < positions.len() ==> *(#[trigger] picked[k]) == items[positions[k] as int]
}

/// `p` is one of `positions`, and the entry of `weights` that it names is
/// positive.
pub open spec fn selectable(p: usize, positions: Seq<usize>, weights: Seq<u64>) -> bool {
    &&& positions.contains(p)
    &&& p < weights.len()
    &&& weights[p as int] > 0
}

/// Some position of `positions` names a positive entry of `weights`.
pub open spec fn some_selectable(positions: Seq<usize>, weights: Seq<u64>) -> bool {
    exists|i: int|
        0 <= i < positions.len() && selectable(#[trigger] positions[i], positions, weights)
}

/// The weight that position `p` has in `weights`.
fn weight_at(weights: &Vec<u64>, p: usize) -> (w: u128)
    requires
        p < weights@.len(),
    ensures
        w == weights@[p as int],
{
    let w: u64 = weights[p];
    w.into()
}

/// Calls `SliceRandom::choose_weighted` of `rand` on `positions`, the weight of
/// a position being the entry of `weights` that it names, and returns the
/// chosen position.
///
/// Trusted: the choice fails exactly when no position has a positive weight
/// (no position at all, or all weights zero), and a position that is chosen is
/// one of `positions` and has a positive weight. Which one is left to chance.
/// The weights are summed as `u128`, so the sum of `u64` entries cannot
/// overflow.
#[verifier::external_body]
fn choose_weighted_position(positions: &Vec<usize>, weights: &Vec<u64>) -> (chosen: Result<usize, WeightedError>)
    requires
        in_range(positions@, weights@.len()),
    ensures
        chosen is Ok <==> some_selectable(positions@, weights@),
        chosen matches Ok(p) ==> selectable(p, positions@, weights@),
{
    positions.choose_weighted(&mut rand::thread_rng(), |p| weight_at(weights, *p)).copied()
}

/// `picked` is a sample of `requested` records of `corpus`: the records at
/// `positions`, a draw without replacement, of its partition `group`.
pub open spec fn is_sample<T>(
    picked: Seq<&T>,
    corpus: Seq<Seq<T>>,
    requested: nat,
    group: int,
    positions: Seq<usize>,
) -> bool {
    &&& 0 <= group < corpus.len()
    &&& is_draw(positions, corpus[group].len(), requested)
    &&& picks(picked, corpus[group], positions)
}

/// A sample never holds more records than were asked for, nor more than its
/// partition holds: asked for more than the partition holds, it holds as many
/// as the partition; asked for none, it is empty. Its records stand at
/// pairwise distinct positions of that one partition.
pub proof fn lemma_sample_clamped_and_distinct<T>(
    picked: Seq<&T>,
    corpus: Seq<Seq<T>>,
    requested: nat,
    group: int,
    positions: Seq<usize>,
)
    requires
        is_sample(picked, corpus, requested, group, positions),
    ensures
        requested > corpus[group].len() ==> picked.len() == corpus[group].len(),
        requested <= corpus[group].len() ==> picked.len() == requested,
        requested == 0 ==> picked.len() == 0,
        forall|j: int, k: int|
            0 <= j < k < picked.len() ==> (#[trigger] positions[j]) != (#[trigger] positions[k]),
        forall|k: int|
            0 <= k < picked.len() ==> positions[k] < corpus[group].len() && *(#[trigger] picked[k])
                == corpus[group][positions[k] as int],
{
}

/// Calls `IteratorRandom::choose_multiple` of `rand` on the positions
/// `0..len`.
///
/// Trusted: `amount` positions come back, each below `len` and none twice.
/// Which ones, and in what order, is left to chance. As with any `Vec`, the
/// memory for the result is taken to be there.
#[verifier::external_body]
fn choose_positions(len: usize, amount: usize) -> (r: Vec<usize>)
    requires
        amount <= len,
    ensures
        r@.len() == amount,
        in_range(r@, len as nat),
        distinct(r@),
{
    (0..len).choose_multiple(&mut rand::thread_rng(), amount)
}

/// The number of records to draw: `requested`, or `available` where fewer are
/// there.
pub fn clamp_count(requested: usize, available: usize) -> (n: usize)
    ensures
        n == clamped(requested as nat, available as nat),
{
    if requested > available {
        available
    } else {
        requested
    }
}

/// Turns the outcome of the weighted choice over a corpus of `groups`
/// partitions into the selected partition, or into the reason why none can
/// be selected.
pub fn selection(outcome: Result<usize, WeightedError>, groups: usize) -> (r: Result<
    usize,
    SamplingError,
>)
    ensures
        r == match outcome {
            Ok(g) => Ok::<usize, SamplingError>(g),
            Err(_) => Err::<usize, SamplingError>(
                if groups == 0 {
                    SamplingError::EmptyStore
                } else {
                    SamplingError::NoRecords
                },
            ),
        },
{
    match outcome {
        Ok(g) => Ok(g),
        Err(_) => if groups == 0 {
            Err(SamplingError::EmptyStore)
        } else {
            Err(SamplingError::NoRecords)
        },
    }
}

/// The records of `items` at `positions`, in the order of `positions`.
pub fn gather<'a, T>(items: &'a Vec<T>, positions: &Vec<usize>) -> (picked: Vec<&'a T>)
    requires
        in_range(positions@, items@.len()),
    ensures
        picks(picked@, items@, positions@),
{
    let mut picked: Vec<&'a T> = Vec::new();
    let mut k: usize = 0;
    while k < positions.len()
        invariant
            k <= positions@.len(),
            in_range(positions@, items@.len()),
            picked@.len() == k,
            forall|j: int| 0 <= j < k ==> *(#[trigger] picked@[j]) == items@[positions@[j] as int],
        decreases positions.len() - k,
    {
        picked.push(&items[positions[k]]);
        k += 1;
    }
    picked
}

impl<T> MyDataService<T> {
    /// Selects one partition, each with probability proportional to its
    /// weight.
    ///
    /// Fails exactly when no partition holds a record. A partition that is
    /// selected holds at least one.
    pub fn select_group(&self) -> (r: Result<usize, SamplingError>)
        ensures
            r is Ok <==> has_records(self@),
            r matches Ok(g) ==> g < self@.len() && self@[g as int].len() > 0,
            r matches Err(e) ==> (e == SamplingError::EmptyStore <==> self@.len() == 0),
    {
        let weights = self.weights();
        let mut positions: Vec<usize> = Vec::new();
        while positions.len() < weights.len()
            invariant
                positions@.len() <= weights@.len(),
                forall|i: int| 0 <= i < positions@.len() ==> (#[trigger] positions@[i]) == i,
            decreases weights.len() - positions.len(),
        {
            positions.push(positions.len());
        }
        let outcome = choose_weighted_position(&positions, weights);
        proof {
            if has_records(self@) {
                let i = choose|i: int| 0 <= i < self@.len() && (#[trigger] self@[i]).len() > 0;
                assert(selectable(positions@[i], positions@, weights@));
            }
            if let Ok(p) = outcome {
                assert(self@[p as int].len() > 0);
            }
        }
        selection(outcome, weights.len())
    }

    /// Draws a sample by position: selects a partition by weight, then draws
    /// `num_samples` distinct positions of it, or all of them where it holds
    /// fewer.
    ///
    /// Fails exactly when no partition holds a record.
    pub fn sample_positions(&self, num_samples: usize) -> (r: Result<Sample, SamplingError>)
        ensures
            r is Ok <==> has_records(self@),
            r matches Ok(sample) ==> {
                &&& sample.group < self@.len()
                &&& self@[sample.group as int].len() > 0
                &&& is_draw(
                    sample.positions@,
                    self@[sample.group as int].len(),
                    num_samples as nat,
                )
            },
            r matches Err(e) ==> (e == SamplingError::EmptyStore <==> self@.len() == 0),
            self@.len() == 0 ==> r is Err,
    {
        match self.select_group() {
            Ok(group) => {
                let available: usize = self.groups()[group].sentences.len();
                let amount = clamp_count(num_samples, available);
                // Nothing is drawn where nothing is asked for.
                let positions = if amount == 0 {
                    Vec::new()
                } else {
                    choose_positions(available, amount)
                };
                Ok(Sample { group, positions })
            },
            Err(e) => Err(e),
        }
    }

    /// Draws a sample: the records at the positions of a sample drawn by
    /// position, borrowed from the corpus.
    ///
    /// Fails exactly when no partition holds a record. Asked for no record of
    /// a corpus that holds one, it returns none.
    pub fn sample_data(&self, num_samples: usize) -> (r: Result<Vec<&T>, SamplingError>)
        ensures
            r is Ok <==> has_records(self@),
            match r {
                Ok(picked) => exists|group: int, positions: Seq<usize>|
                    is_sample(picked@, self@, num_samples as nat, group, positions),
                Err(e) => e == SamplingError::EmptyStore <==> self@.len() == 0,
            },
            self@.len() == 0 ==> r is Err,
    {
        match self.sample_positions(num_samples) {
            Ok(sample) => {
                let picked = gather(&self.groups()[sample.group].sentences, &sample.positions);
                let drawn: Result<Vec<&T>, SamplingError> = Ok(picked);
                assert(is_sample(
                    drawn->Ok_0@,
                    self@,
                    num_samples as nat,
                    sample.group as int,
                    sample.positions@,
                ));
                drawn
            },
            Err(e) => Err(e),
        }
    }
}

} // verus!
