//! Where the generators get their random choices from.
//!
//! A source of [`Draws`] hands out numbers and picks members of lists. It
//! takes them from a script while the script lasts, so that a caller can
//! have a maze carved the same way twice, and from the thread's random number
//! generator after that. Nothing is proved of that generator itself: the two
//! functions that call it state what holds of every value it can hand back.

use rand::seq::SliceRandom;
use rand::Rng;
use vstd::prelude::*;
use crate::grid::GridView;
use crate::location::Location;

verus! {

/// Calls `rand::Rng::gen_range` on `rand::thread_rng()` with the inclusive range
/// from `low` to `high`. The contract claims only that the number drawn lies in
/// that range; `gen_range` panics on an empty range, which `requires` rules out.
#[verifier::external_body]
fn random_between(low: usize, high: usize) -> (drawn: usize)
    requires
        low <= high,
    ensures
        low <= drawn <= high,
{
    rand::thread_rng().gen_range(low..=high)
}

/// Calls `rand::seq::SliceRandom::choose` on the candidates with
/// `rand::thread_rng()`. The contract claims that nothing is chosen from an
/// empty list, and that whatever is chosen from another is one of its members.
#[verifier::external_body]
fn random_member(candidates: &Vec<Location>) -> (chosen: Option<Location>)
    ensures
        candidates@.len() == 0 ==> chosen is None,
        candidates@.len() > 0 ==> chosen is Some && candidates@.contains(chosen->0),
{
    candidates.choose(&mut rand::thread_rng()).copied()
}

/// A source of random choices: the numbers of a script first, then draws from
/// the thread's random number generator.
#[derive(Debug)]
pub struct Draws {
    script: Vec<usize>,
    used: usize,
}

/// How far a generator has come by following a script: the grid as it has been
/// carved, and what is left of the script.
pub struct Carved {
    pub grid: GridView,
    pub script: Seq<usize>,
}

/// Whether a grid and a source of draws are where following the script has led,
/// as far as the script could be followed: `None` stands for a script that ran
/// out where a choice was to be made.
pub open spec fn follows(led: Option<Carved>, grid: GridView, script: Seq<usize>) -> bool {
    led matches Some(carved) ==> carved.grid == grid && carved.script == script
}

/// The number between `low` and `high` that a scripted `value` stands for.
pub open spec fn scaled(value: usize, low: usize, high: usize) -> usize {
    if high - low == usize::MAX {
        value
    } else {
        (low + (value as int) % (high - low + 1)) as usize
    }
}

/// The member of `candidates` that a scripted `value` picks.
pub open spec fn picked(candidates: Seq<Location>, value: usize) -> Location {
    candidates[(value as int) % (candidates.len() as int)]
}

impl View for Draws {
    type V = Seq<usize>;

    /// What is left of the script.
    closed spec fn view(&self) -> Seq<usize> {
        if self.used <= self.script@.len() {
            self.script@.skip(self.used as int)
        } else {
            Seq::empty()
        }
    }
}

impl Draws {
    /// A source without a script: every choice is random.
    pub fn ambient() -> (draws: Draws)
        ensures
            draws@ == Seq::<usize>::empty(),
    {
        Draws { script: Vec::new(), used: 0 }
    }

    /// A source that follows `script` for as many choices as it has numbers,
    /// and is random after that.
    pub fn scripted(script: Vec<usize>) -> (draws: Draws)
        ensures
            draws@ == script@,
    {
        Draws { script, used: 0 }
    }

    /// A number between `low` and `high`, both included: the one that the next
    /// number of the script stands for, or a random one if the script has run
    /// out.
    pub fn between(&mut self, low: usize, high: usize) -> (drawn: usize)
        requires
            low <= high,
        ensures
            low <= drawn <= high,
            old(self)@.len() > 0 ==> drawn == scaled(old(self)@[0], low, high) && final(self)@
                == old(self)@.drop_first(),
            old(self)@.len() == 0 ==> final(self)@.len() == 0,
    {
        if self.used < self.script.len() {
            let value = self.script[self.used];
            self.used = self.used + 1;
            let span = high - low;
            if span == usize::MAX {
                value
            } else {
                low + value % (span + 1)
            }
        } else {
            random_between(low, high)
        }
    }

    /// A member of `candidates`, or `None` if there is none: the one at the
    /// place that the next number of the script stands for, or a random one if
    /// the script has run out. Nothing is taken from the script where there is
    /// nothing to choose from.
    pub fn member(&mut self, candidates: &Vec<Location>) -> (chosen: Option<Location>)
        ensures
            candidates@.len() == 0 ==> chosen is None && final(self)@ == old(self)@,
            candidates@.len() > 0 ==> chosen is Some && candidates@.contains(chosen->0),
            candidates@.len() > 0 && old(self)@.len() > 0 ==> chosen == Some(
                picked(candidates@, old(self)@[0]),
            ) && final(self)@ == old(self)@.drop_first(),
            old(self)@.len() == 0 ==> final(self)@.len() == 0,
    {
        if candidates.len() == 0 {
            None
        } else if self.used < self.script.len() {
            let value = self.script[self.used];
            self.used = self.used + 1;
            Some(candidates[value % candidates.len()])
        } else {
            random_member(candidates)
        }
    }
}

} // verus!
