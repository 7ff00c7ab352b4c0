//! Families of right congruences.

use crate::congruence::RightCongruence;
use vstd::prelude::*;

verus! {

/// The progress congruences that `entries` gives to the classes, by class
/// number: a later entry for a class replaces an earlier one.
pub open spec fn progress_of(entries: Seq<(usize, RightCongruence)>) -> Map<usize, RightCongruence>
    decreases entries.len(),
{
    if entries.len() == 0 {
        Map::<usize, RightCongruence>::empty()
    } else {
        progress_of(entries.drop_last()).insert(entries.last().0, entries.last().1)
    }
}

/// A family of right congruences (FORC) consists of a *leading* right
/// congruence and for each class of this congruence a *progress* right
/// congruence.
#[derive(Clone, Debug, PartialEq, Eq)]
pub struct FORC {
    leading: RightCongruence,
    progress: Vec<(usize, RightCongruence)>,
}

impl FORC {
    /// The leading congruence.
    pub closed spec fn spec_leading(&self) -> RightCongruence {
        self.leading
    }

    /// The progress congruences, by the number of the class they belong to.
    pub closed spec fn spec_progress(&self) -> Map<usize, RightCongruence> {
        progress_of(self.progress@)
    }

    /// Creates a new FORC with the given leading congruence and progress
    /// congruences; of two congruences for one class the later one counts.
    pub fn new(leading: RightCongruence, progress: Vec<(usize, RightCongruence)>) -> (forc: Self)
        ensures
            forc.spec_leading() == leading,
            forc.spec_progress() == progress_of(progress@),
    {
        FORC { leading, progress }
    }

    /// Creates a new FORC from the given leading congruence and progress
    /// congruences; of two congruences for one class the later one counts.
    pub fn from_iter(leading: RightCongruence, progress: Vec<(usize, RightCongruence)>) -> (forc:
        Self)
        ensures
            forc.spec_leading() == leading,
            forc.spec_progress() == progress_of(progress@),
    {
        FORC { leading, progress }
    }

    /// The leading congruence.
    pub fn leading(&self) -> (leading: &RightCongruence)
        ensures
            *leading == self.spec_leading(),
    {
        &self.leading
    }

    /// Insert a new progress congruence for the class numbered `class`, in
    /// place of the one it had, if any. The class must be one of the leading
    /// congruence.
    pub fn insert(&mut self, class: usize, congruence: RightCongruence)
        requires
            class < old(self).spec_leading().spec_size(),
        ensures
            final(self).spec_leading() == old(self).spec_leading(),
            final(self).spec_progress() == old(self).spec_progress().insert(class, congruence),
    {
        self.progress.push((class, congruence));
        assert(self.progress@.drop_last() == old(self).progress@);
    }

    /// Tries to obtain a reference to the progress right congruence for the
    /// class numbered `class`.
    pub fn prc(&self, class: usize) -> (congruence: Option<&RightCongruence>)
        ensures
            match congruence {
                Some(c) => self.spec_progress().contains_key(class) && *c == self.spec_progress()[class],
                None => !self.spec_progress().contains_key(class),
            },
    {
        let mut i: usize = self.progress.len();
        assert(self.progress@.subrange(0, i as int) == self.progress@);
        while i > 0
            invariant
                i <= self.progress@.len(),
                progress_of(self.progress@).contains_key(class) == progress_of(
                    self.progress@.subrange(0, i as int),
                ).contains_key(class),
                progress_of(self.progress@).contains_key(class) ==> progress_of(
                    self.progress@,
                )[class] == progress_of(self.progress@.subrange(0, i as int))[class],
            decreases i,
        {
            proof {
                let upto = self.progress@.subrange(0, i as int);
                assert(upto.drop_last() == self.progress@.subrange(0, i - 1));
                assert(upto.last() == self.progress@[i - 1]);
            }
            if self.progress[i - 1].0 == class {
                return Some(&self.progress[i - 1].1);
            }
            i = i - 1;
        }
        assert(self.progress@.subrange(0, 0) =~= Seq::<(usize, RightCongruence)>::empty());
        None
    }
}

} // verus!
