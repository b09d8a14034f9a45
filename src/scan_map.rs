use vstd::prelude::*;

use crate::types::RowPtr;

verus! {

/// Whether `p` addresses a cell of a map of shape `m`.
pub open spec fn in_bounds(m: Seq<Seq<bool>>, p: RowPtr) -> bool {
    &&& (p.chunk_index as int) < m.len()
    &&& (p.row_index as int) < m[p.chunk_index as int].len()
}

/// `m` with every cell addressed by some pointer of `ptrs` set.
pub open spec fn marked(m: Seq<Seq<bool>>, ptrs: Seq<RowPtr>) -> Seq<Seq<bool>> {
    Seq::new(
        m.len(),
        |c: int|
            Seq::new(
                m[c].len(),
                |r: int| m[c][r] || ptrs.contains(RowPtr { chunk_index: c as u32, row_index: r as u32 }),
            ),
    )
}

/// Whether a right-single claim of every pointer of `ptrs`, one after the
/// other, succeeds on `m`: no pointer is claimed twice and none is already set.
pub open spec fn claimable(m: Seq<Seq<bool>>, ptrs: Seq<RowPtr>) -> bool {
    &&& ptrs.no_duplicates()
    &&& forall|k: int| 0 <= k < ptrs.len() ==> !(#[trigger] m[ptrs[k].chunk_index as int][ptrs[k].row_index as int])
}

/// Marking one more pointer sets exactly its cell.
pub proof fn lemma_marked_push(m: Seq<Seq<bool>>, ptrs: Seq<RowPtr>, p: RowPtr)
    requires
        in_bounds(m, p),
        forall|c: int| 0 <= c < m.len() ==> #[trigger] m[c].len() <= u32::MAX,
        m.len() <= u32::MAX,
    ensures
        marked(m, ptrs.push(p)) == marked(m, ptrs).update(
            p.chunk_index as int,
            marked(m, ptrs)[p.chunk_index as int].update(p.row_index as int, true),
        ),
{
    let a = marked(m, ptrs.push(p));
    let b = marked(m, ptrs).update(
        p.chunk_index as int,
        marked(m, ptrs)[p.chunk_index as int].update(p.row_index as int, true),
    );
    assert forall|c: int| 0 <= c < m.len() implies a[c] =~= b[c] by {
        assert forall|r: int| 0 <= r < m[c].len() implies a[c][r] == b[c][r] by {
            let q = RowPtr { chunk_index: c as u32, row_index: r as u32 };
            assert(ptrs.push(p).contains(q) <==> (ptrs.contains(q) || q == p)) by {
                if ptrs.push(p).contains(q) {
                    let k = choose|k: int| 0 <= k < ptrs.push(p).len() && ptrs.push(p)[k] == q;
                    if k < ptrs.len() {
                        assert(ptrs[k] == q);
                    }
                }
                if ptrs.contains(q) {
                    let k = choose|k: int| 0 <= k < ptrs.len() && ptrs[k] == q;
                    assert(ptrs.push(p)[k] == q);
                }
                if q == p {
                    assert(ptrs.push(p)[ptrs.len() as int] == q);
                }
            }
        }
    }
    assert(a =~= b);
}

/// Marking the concatenation of two pointer sequences is marking one after
/// the other.
pub proof fn lemma_marked_add(m: Seq<Seq<bool>>, a: Seq<RowPtr>, b: Seq<RowPtr>)
    ensures
        marked(marked(m, a), b) == marked(m, a + b),
{
    let x = marked(marked(m, a), b);
    let y = marked(m, a + b);
    assert forall|c: int| 0 <= c < m.len() implies x[c] =~= y[c] by {
        assert forall|r: int| 0 <= r < m[c].len() implies x[c][r] == y[c][r] by {
            let q = RowPtr { chunk_index: c as u32, row_index: r as u32 };
            if a.contains(q) {
                let k = choose|k: int| 0 <= k < a.len() && a[k] == q;
                assert((a + b)[k] == q);
            }
            if b.contains(q) {
                let k = choose|k: int| 0 <= k < b.len() && b[k] == q;
                assert((a + b)[a.len() + k] == q);
            }
            if (a + b).contains(q) {
                let k = choose|k: int| 0 <= k < (a + b).len() && (a + b)[k] == q;
                if k < a.len() {
                    assert(a[k] == q);
                } else {
                    assert(b[k - a.len()] == q);
                }
            }
        }
    }
    assert(x =~= y);
}

/// Per build row flags recording which build rows have been matched, one row
/// of flags per build chunk.
pub struct OuterScanMap {
    pub flags: Vec<Vec<bool>>,
}

impl View for OuterScanMap {
    type V = Seq<Seq<bool>>;

    open spec fn view(&self) -> Seq<Seq<bool>> {
        Seq::new(self.flags@.len(), |c: int| self.flags@[c]@)
    }
}

impl OuterScanMap {
    /// Whether every index of the map fits a `RowPtr`.
    pub open spec fn wf(&self) -> bool {
        &&& self.flags@.len() <= u32::MAX
        &&& forall|c: int| 0 <= c < self.flags@.len() ==> #[trigger] self.flags@[c]@.len() <= u32::MAX
    }

    /// A map with every flag cleared, with `chunk_rows[c]` flags for chunk `c`.
    pub fn new(chunk_rows: &Vec<u32>) -> (r: OuterScanMap)
        requires
            chunk_rows@.len() <= u32::MAX,
        ensures
            r.wf(),
            r@.len() == chunk_rows@.len(),
            forall|c: int| 0 <= c < chunk_rows@.len() ==> #[trigger] r@[c].len() == chunk_rows@[c],
            forall|c: int, k: int| 0 <= c < r@.len() && 0 <= k < r@[c].len() ==> !#[trigger] r@[c][k],
    {
        let mut flags: Vec<Vec<bool>> = Vec::new();
        let mut c: usize = 0;
        while c < chunk_rows.len()
            invariant
                c <= chunk_rows@.len(),
                flags@.len() == c,
                forall|d: int| 0 <= d < c ==> #[trigger] flags@[d]@.len() == chunk_rows@[d],
                forall|d: int, k: int| 0 <= d < c && 0 <= k < flags@[d]@.len() ==> !#[trigger] flags@[d]@[k],
            decreases chunk_rows@.len() - c,
        {
            let n = chunk_rows[c];
            let mut row: Vec<bool> = Vec::new();
            let mut k: u32 = 0;
            while k < n
                invariant
                    k <= n,
                    row@.len() == k,
                    forall|j: int| 0 <= j < k ==> !#[trigger] row@[j],
                decreases n - k,
            {
                row.push(false);
                k = k + 1;
            }
            flags.push(row);
            c = c + 1;
        }
        let r = OuterScanMap { flags };
        assert forall|d: int| 0 <= d < r@.len() implies #[trigger] r.flags@[d]@.len() <= u32::MAX by {
            assert(r.flags@[d]@.len() == chunk_rows@[d]);
        }
        r
    }

    /// The flag of one build row.
    pub fn is_set(&self, p: RowPtr) -> (r: bool)
        requires
            in_bounds(self@, p),
        ensures
            r == self@[p.chunk_index as int][p.row_index as int],
    {
        self.flags[p.chunk_index as usize][p.row_index as usize]
    }

    /// Sets the flag of `p`; setting an already set flag changes nothing.
    pub fn mark(&mut self, p: RowPtr)
        requires
            old(self).wf(),
            in_bounds(old(self)@, p),
        ensures
            final(self).wf(),
            final(self)@ == marked(old(self)@, seq![p]),
    {
        let ghost m = self@;
        let c = p.chunk_index as usize;
        self.flags[c].set(p.row_index as usize, true);
        proof {
            lemma_marked_push(m, seq![], p);
            assert(marked(m, seq![]) =~= m) by {
                assert forall|d: int| 0 <= d < m.len() implies marked(m, seq![])[d] =~= m[d] by {}
            }
            assert(seq![].push(p) =~= seq![p]);
            assert(self@ =~= marked(m, seq![p]));
        }
    }
}

} // verus!
