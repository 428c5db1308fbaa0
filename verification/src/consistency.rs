//! The count of violations in a lineage, and why a lineage without one is
//! a consistent lineage.

use vstd::prelude::*;
use crate::ledger::Ledger;
use crate::transaction::InputModel;

verus! {

/// Whether the input at `j` is the first of several inputs of `spent` that
/// point at the same output.
pub open spec fn first_of_many(spent: Seq<InputModel>, j: int) -> bool {
    &&& forall|a: int| 0 <= a < j ==> spent[a] != spent[j]
    &&& exists|b: int| j < b < spent.len() && spent[b] == spent[j]
}

impl Ledger {
    /// Whether the output that `r` points at is an output of a
    /// transaction of `lineage`.
    pub open spec fn available(self, lineage: Seq<Seq<u8>>, r: InputModel) -> bool {
        lineage.contains(r.tx) && r.index < self.tx(r.tx).outputs.len()
    }

    /// How many of the first `n` inputs of `spent` point at an output that
    /// `lineage` lacks.
    pub open spec fn missing_upto(self, lineage: Seq<Seq<u8>>, spent: Seq<InputModel>, n: int) -> nat
        decreases n,
    {
        if n <= 0 {
            0
        } else {
            self.missing_upto(lineage, spent, n - 1) + if !self.available(lineage, spent[n - 1]) {
                1nat
            } else {
                0nat
            }
        }
    }

    /// How many outputs of `lineage` are spent more than once, counted at
    /// the first of the inputs that spend each, among the first `n`
    /// inputs of `spent`.
    pub open spec fn doubles_upto(self, lineage: Seq<Seq<u8>>, spent: Seq<InputModel>, n: int) -> nat
        decreases n,
    {
        if n <= 0 {
            0
        } else {
            self.doubles_upto(lineage, spent, n - 1) + if self.available(lineage, spent[n - 1])
                && first_of_many(spent, n - 1) {
                1nat
            } else {
                0nat
            }
        }
    }

    /// The number of violations in `lineage`: the inputs that point at an
    /// output that it lacks, and the outputs that are spent more than once
    /// in it.
    pub open spec fn violations(self, lineage: Seq<Seq<u8>>) -> nat {
        let spent = self.spent_by(lineage);
        self.missing_upto(lineage, spent, spent.len() as int) + self.doubles_upto(
            lineage,
            spent,
            spent.len() as int,
        )
    }

    /// The number of violations that block `i` sees in itself and its
    /// ancestors.
    pub open spec fn block_consistency(self, i: int) -> nat {
        self.violations(self.lineage_from(i))
    }
}

/// Where no input is counted as missing, every input points at an output
/// of the lineage; and the other way round.
pub proof fn lemma_none_missing(l: Ledger, lineage: Seq<Seq<u8>>, spent: Seq<InputModel>, n: int)
    requires
        0 <= n <= spent.len(),
    ensures
        l.missing_upto(lineage, spent, n) == 0 <==> forall|j: int|
            0 <= j < n ==> l.available(lineage, #[trigger] spent[j]),
    decreases n,
{
    if n > 0 {
        lemma_none_missing(l, lineage, spent, n - 1);
        if l.missing_upto(lineage, spent, n) == 0 {
            assert forall|j: int| 0 <= j < n implies l.available(lineage, #[trigger] spent[j]) by {
                if j < n - 1 {
                }
            }
        }
        if forall|j: int| 0 <= j < n ==> l.available(lineage, #[trigger] spent[j]) {
            assert(l.available(lineage, spent[n - 1]));
        }
    }
}

/// Where no output is counted as spent twice, no input that points at an
/// output of the lineage is the first of several; and the other way
/// round.
pub proof fn lemma_none_double(l: Ledger, lineage: Seq<Seq<u8>>, spent: Seq<InputModel>, n: int)
    requires
        0 <= n <= spent.len(),
    ensures
        l.doubles_upto(lineage, spent, n) == 0 <==> forall|j: int|
            0 <= j < n ==> !(l.available(lineage, #[trigger] spent[j]) && first_of_many(spent, j)),
    decreases n,
{
    if n > 0 {
        lemma_none_double(l, lineage, spent, n - 1);
        if l.doubles_upto(lineage, spent, n) == 0 {
            assert forall|j: int| 0 <= j < n implies !(l.available(lineage, #[trigger] spent[j])
                && first_of_many(spent, j)) by {
                if j < n - 1 {
                }
            }
        }
        if forall|j: int|
            0 <= j < n ==> !(l.available(lineage, #[trigger] spent[j]) && first_of_many(spent, j)) {
            assert(!(l.available(lineage, spent[n - 1]) && first_of_many(spent, n - 1)));
        }
    }
}

/// The first input that points where the input at `j` points.
pub proof fn lemma_first_occurrence(spent: Seq<InputModel>, j: int) -> (first: int)
    requires
        0 <= j < spent.len(),
    ensures
        0 <= first <= j,
        spent[first] == spent[j],
        forall|a: int| 0 <= a < first ==> spent[a] != spent[j],
    decreases j,
{
    if exists|a: int| 0 <= a < j && spent[a] == spent[j] {
        let a = choose|a: int| 0 <= a < j && spent[a] == spent[j];
        lemma_first_occurrence(spent, a)
    } else {
        j
    }
}

/// A lineage is consistent exactly when it has no violation.
pub proof fn law_consistent_means_no_violation(l: Ledger, lineage: Seq<Seq<u8>>)
    ensures
        l.consistent_lineage(lineage) <==> l.violations(lineage) == 0,
{
    let spent = l.spent_by(lineage);
    let n = spent.len() as int;
    lemma_none_missing(l, lineage, spent, n);
    lemma_none_double(l, lineage, spent, n);
    if l.consistent_lineage(lineage) {
        assert forall|j: int| 0 <= j < n implies l.available(lineage, #[trigger] spent[j]) && !(
        l.available(lineage, spent[j]) && first_of_many(spent, j)) by {
            assert(l.input_sound(lineage, spent, j));
        }
    }
    if l.violations(lineage) == 0 {
        assert forall|j: int| 0 <= j < n implies l.input_sound(lineage, spent, j) by {
            assert(l.available(lineage, spent[j]));
            assert forall|j2: int| 0 <= j2 < n && j2 != j implies spent[j2] != spent[j] by {
                if spent[j2] == spent[j] {
                    let late = if j2 < j {
                        j
                    } else {
                        j2
                    };
                    let early = if j2 < j {
                        j2
                    } else {
                        j
                    };
                    let first = lemma_first_occurrence(spent, early);
                    assert(spent[late] == spent[first]);
                    assert(first_of_many(spent, first));
                    assert(l.available(lineage, spent[first]));
                }
            }
        }
    }
}

} // verus!
