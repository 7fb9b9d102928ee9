//! The corpus held in memory: partitions in load order, each with its weight.

use vstd::prelude::*;

verus! {

/// One partition of a corpus: its records in order. A record is known by its
/// position in the partition and is never looked into here.
#[derive(Debug, Clone, PartialEq, Eq)]
pub struct TextData<T> {
    pub sentences: Vec<T>,
}

impl<T> View for TextData<T> {
    type V = Seq<T>;

    open spec fn view(&self) -> Seq<T> {
        self.sentences@
    }
}

/// The partitions of `files` in load order: those of an earlier file stand
/// before those of a later one, and each file keeps its own order.
pub open spec fn in_load_order<T>(files: Seq<Vec<TextData<T>>>) -> Seq<TextData<T>>
    decreases files.len(),
{
    if files.len() == 0 {
        Seq::empty()
    } else {
        in_load_order(files.drop_last()) + files.last()@
    }
}

/// Loading one more file puts its partitions, in their own order, behind all
/// that were loaded before it.
pub proof fn lemma_load_order_appends<T>(files: Seq<Vec<TextData<T>>>, file: Vec<TextData<T>>)
    ensures
        in_load_order(files.push(file)) == in_load_order(files) + file@,
{
    assert(files.push(file).drop_last() =~= files);
}

/// The records of each partition of `groups`.
pub open spec fn records<T>(groups: Seq<TextData<T>>) -> Seq<Seq<T>> {
    Seq::new(groups.len(), |i: int| groups[i]@)
}

/// The corpus that samples are drawn from. It is built once and offers no way
/// to change it afterwards.
///
/// Its view is the sequence of its partitions, each the sequence of its
/// records. The weight of a partition is the number of its records.
pub struct MyDataService<T> {
    groups: Vec<TextData<T>>,
    weights: Vec<u64>,
}

impl<T> View for MyDataService<T> {
    type V = Seq<Seq<T>>;

    closed spec fn view(&self) -> Seq<Seq<T>> {
        records(self.groups@)
    }
}

impl<T> Default for MyDataService<T> {
    /// The corpus without partitions.
    fn default() -> (service: Self)
        ensures
            service@ == Seq::<Seq<T>>::empty(),
    {
        let service = MyDataService { groups: Vec::new(), weights: Vec::new() };
        assert(service@ =~= Seq::<Seq<T>>::empty());
        service
    }
}

impl<T> MyDataService<T> {
    #[verifier::type_invariant]
    spec fn weighted_by_size(self) -> bool {
        &&& self.weights@.len() == self.groups@.len()
        &&& forall|i: int|
            0 <= i < self.groups@.len() ==> (#[trigger] self.weights@[i]) == self.groups@[i]@.len()
    }

    /// Builds the corpus from the partitions of each input file, the files in
    /// the order given.
    pub fn new(files: Vec<Vec<TextData<T>>>) -> (service: Self)
        ensures
            service@ == records(in_load_order(files@)),
    {
        let ghost all = files@;
        let mut groups: Vec<TextData<T>> = Vec::new();
        let mut weights: Vec<u64> = Vec::new();
        for file in it: files
            invariant
                it.seq() == all,
                groups@ == in_load_order(all.take(it.index() as int)),
                weights@.len() == groups@.len(),
                forall|i: int|
                    0 <= i < groups@.len() ==> (#[trigger] weights@[i]) == groups@[i]@.len(),
        {
            let mut file = file;
            proof {
                let seen = all.take(it.index() + 1);
                assert(seen.drop_last() =~= all.take(it.index() as int));
                assert(seen.last() == file);
            }
            groups.append(&mut file);
            while weights.len() < groups.len()
                invariant
                    weights@.len() <= groups@.len(),
                    forall|i: int|
                        0 <= i < weights@.len() ==> (#[trigger] weights@[i]) == groups@[i]@.len(),
                decreases groups.len() - weights.len(),
            {
                let size: usize = groups[weights.len()].sentences.len();
                weights.push(size as u64);
            }
        }
        assert(all.take(all.len() as int) =~= all);
        MyDataService { groups, weights }
    }

    /// The partitions, in load order.
    pub fn groups(&self) -> (groups: &Vec<TextData<T>>)
        ensures
            records(groups@) == self@,
    {
        &self.groups
    }

    /// The weight of each partition: the number of its records.
    pub fn weights(&self) -> (weights: &Vec<u64>)
        ensures
            weights@.len() == self@.len(),
            forall|i: int| 0 <= i < self@.len() ==> (#[trigger] weights@[i]) == self@[i].len(),
    {
        proof {
            use_type_invariant(self);
        }
        &self.weights
    }
}

} // verus!
