//! Whether what was measured is within its budget.

pub mod workload;

use crate::find::lemma_filter_step;
use crate::number::Number;
use vstd::prelude::*;

verus! {

/// Whether a number is good when it is under the budget or over it.
#[derive(Clone, Copy, Debug)]
pub enum Budget {
    /// A time or a count that must stay at or under this.
    AtMost(Number),
    /// A rate or a ratio that must reach this.
    AtLeast(Number),
}

/// One scenario's result.
#[derive(Debug)]
pub struct Measure {
    pub name: String,
    pub value: Number,
    pub unit: String,
    pub budget: Budget,
    /// A line on what the number means or lacks.
    pub note: String,
}

impl Measure {
    pub open spec fn within(self) -> bool {
        match self.budget {
            Budget::AtMost(limit) => self.value.at_most(limit),
            Budget::AtLeast(floor) => floor.at_most(self.value),
        }
    }

    /// Whether the result is within its budget.
    pub fn holds(&self) -> (r: bool)
        ensures
            r == self.within(),
    {
        match self.budget {
            Budget::AtMost(limit) => self.value.up_to(limit),
            Budget::AtLeast(floor) => floor.up_to(self.value),
        }
    }

    /// How the result is marked in the table.
    pub fn mark(&self) -> (r: &'static str)
        ensures
            r@ == (if self.within() {
                "ok "@
            } else {
                match self.budget {
                    Budget::AtMost(_) => "OVER"@,
                    Budget::AtLeast(_) => "UNDER"@,
                }
            }),
    {
        if self.holds() {
            "ok "
        } else {
            match self.budget {
                Budget::AtMost(_) => "OVER",
                Budget::AtLeast(_) => "UNDER",
            }
        }
    }
}

/// How many results are outside their budgets.
pub fn failures(results: &Vec<Measure>) -> (r: usize)
    ensures
        r == results@.filter(|m: Measure| !m.within()).len(),
{
    let ghost bad = |m: Measure| !m.within();
    let mut r: usize = 0;
    let mut i: usize = 0;
    proof {
        reveal(Seq::filter);
    }
    assert(results@.take(0).filter(bad) =~= Seq::<Measure>::empty());
    while i < results.len()
        invariant
            i <= results.len(),
            bad == (|m: Measure| !m.within()),
            r <= i,
            r == results@.take(i as int).filter(bad).len(),
        decreases results.len() - i,
    {
        proof {
            lemma_filter_step(results@, bad, i as int);
        }
        if !results[i].holds() {
            r = r + 1;
        }
        i = i + 1;
    }
    assert(results@.take(results.len() as int) =~= results@);
    r
}

} // verus!
