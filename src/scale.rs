use vstd::prelude::*;
use crate::node::GodsnodeProto;
use crate::tree::GodswoodProto;

verus! {

/// The largest number of children among the nodes of `row` (0 for an empty
/// row).
pub open spec fn max_fanout(nodes: Seq<GodsnodeProto>, row: Seq<u64>) -> nat
    decreases row.len(),
{
    if row.len() == 0 {
        0
    } else {
        let a = max_fanout(nodes, row.drop_last());
        let b = nodes[row.last() as int].children@.len();
        if a >= b { a } else { b }
    }
}

/// A depth whose widest fan-out is at most one needs no spreading: its
/// radius factor is 1.
pub open spec fn is_unit_scale(fanout: nat) -> bool {
    fanout <= 1
}

impl GodswoodProto {
    /// For each depth `d` of the per-depth table, at position `d - 1`, the
    /// largest number of children among the nodes at that depth. The radius
    /// factor of a depth is derived from this number.
    pub fn max_fanouts(&self) -> (r: Vec<usize>)
        requires
            self.wf(),
        ensures
            r@.len() == self.table().len(),
            forall|d: int| 0 <= d < r@.len() ==>
                #[trigger] r@[d] as nat == max_fanout(self.store_view().nodes(), self.table()[d]),
    {
        let table = self.get_nodes_by_depths();
        let store = self.get_store();
        let ghost nodes = store.nodes();
        proof { self.lemma_table_in_store(); }
        let mut out: Vec<usize> = Vec::new();
        let mut d: usize = 0;
        while d < table.len()
            invariant
                d <= table@.len(),
                table@.map_values(|v: Vec<u64>| v@) == self.table(),
                nodes == self.store_view().nodes(),
                *store == self.store_view(),
                forall|x: int, k: int| 0 <= x < self.table().len() && 0 <= k < self.table()[x].len()
                    ==> #[trigger] self.table()[x][k] < nodes.len(),
                out@.len() == d,
                forall|x: int| 0 <= x < d ==> #[trigger] out@[x] as nat == max_fanout(nodes, self.table()[x]),
            decreases table@.len() - d,
        {
            let row = &table[d];
            assert(row@ == self.table()[d as int]);
            let mut best: usize = 0;
            let mut k: usize = 0;
            assert(row@.take(0) =~= Seq::<u64>::empty());
            while k < row.len()
                invariant
                    k <= row@.len(),
                    row@ == self.table()[d as int],
                    d < self.table().len(),
                    nodes == store.nodes(),
                    forall|x: int, m: int| 0 <= x < self.table().len() && 0 <= m < self.table()[x].len()
                        ==> #[trigger] self.table()[x][m] < nodes.len(),
                    best as nat == max_fanout(nodes, row@.take(k as int)),
                decreases row@.len() - k,
            {
                let id = row[k];
                assert(id == self.table()[d as int][k as int]);
                let n = store.node(id).children.len();
                assert(row@.take(k as int + 1).drop_last() =~= row@.take(k as int));
                if n > best {
                    best = n;
                }
                k = k + 1;
            }
            assert(row@.take(row@.len() as int) =~= row@);
            out.push(best);
            d = d + 1;
        }
        out
    }
}

/// Where no node has more than one child, every depth has a unit radius
/// factor.
pub proof fn lemma_chain_scales_unit(nodes: Seq<GodsnodeProto>, row: Seq<u64>)
    requires
        forall|i: int| 0 <= i < nodes.len() ==> (#[trigger] nodes[i]).children@.len() <= 1,
        forall|k: int| 0 <= k < row.len() ==> (#[trigger] row[k]) < nodes.len(),
    ensures
        is_unit_scale(max_fanout(nodes, row)),
    decreases row.len(),
{
    if row.len() > 0 {
        lemma_chain_scales_unit(nodes, row.drop_last());
        assert(row.last() == row[row.len() - 1]);
    }
}

} // verus!
