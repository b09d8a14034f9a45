use vstd::prelude::*;

use crate::types::JoinedRow;

verus! {

/// Whether a residual predicate passing exactly the pairs of `pred` keeps
/// `row`; with no predicate every row is kept.
pub open spec fn keeps(pred: Option<Seq<JoinedRow>>, row: JoinedRow) -> bool {
    match pred {
        None => true,
        Some(passing) => passing.contains(row),
    }
}

/// The rows of `rows` that the residual predicate keeps, in order.
pub open spec fn kept(pred: Option<Seq<JoinedRow>>, rows: Seq<JoinedRow>) -> Seq<JoinedRow> {
    rows.filter(|row: JoinedRow| keeps(pred, row))
}

/// The result of evaluating a residual predicate on a merged block.
pub enum FilterOutcome {
    AllPass,
    AllFail,
    Bitmap(Vec<bool>),
}

impl FilterOutcome {
    /// The per-row verdicts that the outcome stands for on `n` rows.
    pub open spec fn mask(&self, n: int) -> Seq<bool> {
        match self {
            FilterOutcome::AllPass => Seq::new(n as nat, |k: int| true),
            FilterOutcome::AllFail => Seq::new(n as nat, |k: int| false),
            FilterOutcome::Bitmap(b) => b@,
        }
    }
}

/// A non-equi condition on matched pairs, held as the set of (build row,
/// probe row) pairs that satisfy it.
pub struct ResidualPredicate {
    pub passing: Vec<JoinedRow>,
}

impl View for ResidualPredicate {
    type V = Seq<JoinedRow>;

    open spec fn view(&self) -> Seq<JoinedRow> {
        self.passing@
    }
}

/// The view of an optional predicate.
pub open spec fn pred_view(p: Option<ResidualPredicate>) -> Option<Seq<JoinedRow>> {
    match p {
        None => None,
        Some(q) => Some(q@),
    }
}

impl ResidualPredicate {
    pub fn new(passing: Vec<JoinedRow>) -> (r: ResidualPredicate)
        ensures
            r@ == passing@,
    {
        ResidualPredicate { passing }
    }

    /// Whether the predicate holds of one pair.
    pub fn holds(&self, row: JoinedRow) -> (r: bool)
        ensures
            r == self@.contains(row),
    {
        let mut k: usize = 0;
        while k < self.passing.len()
            invariant
                k <= self@.len(),
                forall|j: int| 0 <= j < k ==> self@[j] != row,
            decreases self@.len() - k,
        {
            if self.passing[k] == row {
                return true;
            }
            k = k + 1;
        }
        false
    }

    /// Evaluates the predicate on a merged block: all rows pass, all fail, or
    /// a bitmap with one verdict per row.
    pub fn evaluate(&self, rows: &Vec<JoinedRow>) -> (r: FilterOutcome)
        ensures
            r.mask(rows@.len() as int).len() == rows@.len(),
            forall|k: int|
                0 <= k < rows@.len() ==> #[trigger] r.mask(rows@.len() as int)[k] == self@.contains(rows@[k]),
    {
        let mut bits: Vec<bool> = Vec::new();
        let mut all_true = true;
        let mut all_false = true;
        let mut k: usize = 0;
        while k < rows.len()
            invariant
                k <= rows@.len(),
                bits@.len() == k,
                forall|j: int| 0 <= j < k ==> #[trigger] bits@[j] == self@.contains(rows@[j]),
                all_true ==> forall|j: int| 0 <= j < k ==> #[trigger] bits@[j],
                all_false ==> forall|j: int| 0 <= j < k ==> !#[trigger] bits@[j],
            decreases rows@.len() - k,
        {
            let b = self.holds(rows[k]);
            let ghost prev = bits@;
            bits.push(b);
            assert(bits@ == prev.push(b));
            assert(forall|j: int| 0 <= j < k ==> bits@[j] == prev[j]);
            if b {
                all_false = false;
            } else {
                all_true = false;
            }
            k = k + 1;
        }
        let ghost n = rows@.len() as int;
        let r = if all_true {
            FilterOutcome::AllPass
        } else if all_false {
            FilterOutcome::AllFail
        } else {
            FilterOutcome::Bitmap(bits)
        };
        assert forall|j: int| 0 <= j < n implies #[trigger] r.mask(n)[j] == self@.contains(rows@[j]) by {
            assert(bits@[j] == self@.contains(rows@[j]));
        }
        r
    }
}

/// Keeps the rows of `rows` whose bit of `bits` is set, in order; where the
/// bits are the verdicts of `pred`, these are the rows that `pred` keeps.
pub(crate) fn filter_with_bitmap(
    rows: Vec<JoinedRow>,
    bits: &Vec<bool>,
    Ghost(pred): Ghost<Option<Seq<JoinedRow>>>,
) -> (r: Vec<JoinedRow>)
    requires
        bits@.len() == rows@.len(),
        forall|k: int| 0 <= k < rows@.len() ==> #[trigger] bits@[k] == keeps(pred, rows@[k]),
    ensures
        r@ == kept(pred, rows@),
{
    let mut out: Vec<JoinedRow> = Vec::new();
    let mut k: usize = 0;
    while k < rows.len()
        invariant
            k <= rows@.len(),
            bits@.len() == rows@.len(),
            forall|j: int| 0 <= j < rows@.len() ==> #[trigger] bits@[j] == keeps(pred, rows@[j]),
            out@ == kept(pred, rows@.take(k as int)),
        decreases rows@.len() - k,
    {
        let row = rows[k];
        let b = bits[k];
        if b {
            out.push(row);
        }
        proof {
            assert(rows@.take(k + 1) =~= rows@.take(k as int).push(row));
            rows@.take(k as int).lemma_filter_push(row, |x: JoinedRow| keeps(pred, x));
        }
        k = k + 1;
    }
    assert(rows@.take(rows@.len() as int) =~= rows@);
    out
}

} // verus!
