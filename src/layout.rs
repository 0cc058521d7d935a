use vstd::prelude::*;
use crate::node::GodsnodeProto;
use crate::tree::GodswoodProto;
use crate::store::links_forward;

verus! {

/// The tag that ties a rendered entity back to the node it shows.
#[derive(PartialEq, Eq, Structural, Clone, Copy, Debug)]
pub struct GodsnodeComponent {
    pub node: u64,
}

/// Where one node goes in the radial layout, relative to its parent.
///
/// The root (`parent` is `None`) sits at the layout's origin. A node whose
/// parent has `fanout == 1` children sits straight below the parent, one
/// level gap lower. Otherwise it is child `slot` of `fanout`, placed one
/// level gap lower at angle `2π · slot / fanout` on a circle around the
/// parent whose radius is the parent depth's radius factor times the base
/// scale. Children take the angles in their own order.
#[derive(PartialEq, Eq, Structural, Clone, Copy, Debug)]
pub struct Placement {
    pub node: u64,
    pub depth: usize,
    pub parent: Option<u64>,
    pub slot: usize,
    pub fanout: usize,
}

/// The placements of the children of node `p`, which sits at depth `d`.
pub open spec fn kid_placements(nodes: Seq<GodsnodeProto>, p: u64, d: nat) -> Seq<Placement> {
    let kids = nodes[p as int].children@;
    Seq::new(
        kids.len(),
        |j: int|
            Placement {
                node: kids[j],
                depth: (d + 1) as usize,
                parent: Some(p),
                slot: j as usize,
                fanout: kids.len() as usize,
            },
    )
}

/// The placements of the children of every node of `row` (depth `d`), in
/// the order of `row`.
pub open spec fn row_placements(nodes: Seq<GodsnodeProto>, row: Seq<u64>, d: nat) -> Seq<Placement>
    decreases row.len(),
{
    if row.len() == 0 {
        Seq::empty()
    } else {
        row_placements(nodes, row.drop_last(), d) + kid_placements(nodes, row.last(), d)
    }
}

/// The placements of the children of every node of the per-depth table,
/// depth after depth.
pub open spec fn table_placements(nodes: Seq<GodsnodeProto>, table: Seq<Seq<u64>>) -> Seq<Placement>
    decreases table.len(),
{
    if table.len() == 0 {
        Seq::empty()
    } else {
        table_placements(nodes, table.drop_last()) + row_placements(nodes, table.last(), table.len())
    }
}

/// The placement of the root.
pub open spec fn root_placement(root: u64) -> Placement {
    Placement { node: root, depth: 1, parent: None, slot: 0, fanout: 1 }
}

/// The whole layout of a tree instance, in breadth-first order: the root,
/// then the children of the nodes of each depth.
pub open spec fn layout_plan(nodes: Seq<GodsnodeProto>, root: Option<u64>, table: Seq<Seq<u64>>) -> Seq<Placement> {
    match root {
        Some(r) => seq![root_placement(r)] + table_placements(nodes, table),
        None => Seq::empty(),
    }
}

impl GodswoodProto {
    /// The layout plan of this tree instance; empty when nothing was built.
    pub fn plan_layout(&self) -> (r: Vec<Placement>)
        requires
            self.wf(),
        ensures
            r@ == layout_plan(self.store_view().nodes(), self.root_view(), self.table()),
    {
        let mut out: Vec<Placement> = Vec::new();
        let root = match self.get_root() {
            Some(r) => r,
            None => {
                return out;
            }
        };
        out.push(Placement { node: root, depth: 1, parent: None, slot: 0, fanout: 1 });
        let table = self.get_nodes_by_depths();
        let store = self.get_store();
        let ghost nodes = store.nodes();
        let ghost tab = self.table();
        let total = store.len();
        proof { self.lemma_wf_facts(); }
        let mut d: usize = 0;
        assert(tab.take(0) =~= Seq::<Seq<u64>>::empty());
        while d < table.len()
            invariant
                d <= table@.len(),
                total == nodes.len(),
                links_forward(nodes),
                table@.map_values(|v: Vec<u64>| v@) == tab,
                tab == self.table(),
                nodes == store.nodes(),
                forall|x: int, k: int| 0 <= x < tab.len() && 0 <= k < tab[x].len()
                    ==> x <= #[trigger] tab[x][k] < nodes.len(),
                out@ == seq![root_placement(root)] + table_placements(nodes, tab.take(d as int)),
            decreases table@.len() - d,
        {
            let row = &table[d];
            assert(row@ == tab[d as int]);
            let ghost prefix = out@;
            let mut k: usize = 0;
            assert(row@.take(0) =~= Seq::<u64>::empty());
            assert(prefix + row_placements(nodes, row@.take(0), (d + 1) as nat) =~= prefix);
            while k < row.len()
                invariant
                    k <= row@.len(),
                    d < tab.len(),
                    total == nodes.len(),
                    links_forward(nodes),
                    row@ == tab[d as int],
                    nodes == store.nodes(),
                    forall|x: int, m: int| 0 <= x < tab.len() && 0 <= m < tab[x].len()
                        ==> x <= #[trigger] tab[x][m] < nodes.len(),
                    out@ == prefix + row_placements(nodes, row@.take(k as int), (d + 1) as nat),
                decreases row@.len() - k,
            {
                let p = row[k];
                assert(p == tab[d as int][k as int]);
                let kids = &store.node(p).children;
                let n = kids.len();
                let ghost before = out@;
                let mut j: usize = 0;
                assert(before =~= before + kid_placements(nodes, p, (d + 1) as nat).take(0));
                while j < n
                    invariant
                        j <= n,
                        n == kids@.len(),
                        kids@ == nodes[p as int].children@,
                        d <= p < nodes.len(),
                        total == nodes.len(),
                        links_forward(nodes),
                        out@ == before + kid_placements(nodes, p, (d + 1) as nat).take(j as int),
                    decreases n - j,
                {
                    let ghost o = out@;
                    assert(p < kids@[j as int] < nodes.len());
                    out.push(Placement { node: kids[j], depth: d + 2, parent: Some(p), slot: j, fanout: n });
                    assert(kid_placements(nodes, p, (d + 1) as nat).take(j as int + 1)
                        =~= kid_placements(nodes, p, (d + 1) as nat).take(j as int).push(out@.last()));
                    assert(out@ =~= o.push(out@.last()));
                    j = j + 1;
                }
                assert(kid_placements(nodes, p, (d + 1) as nat).take(n as int) =~= kid_placements(nodes, p, (d + 1) as nat));
                assert(row@.take(k as int + 1).drop_last() =~= row@.take(k as int));
                assert(row@.take(k as int + 1).last() == p);
                assert(out@ =~= prefix + row_placements(nodes, row@.take(k as int + 1), (d + 1) as nat));
                k = k + 1;
            }
            assert(row@.take(row@.len() as int) =~= row@);
            assert(tab.take(d as int + 1).drop_last() =~= tab.take(d as int));
            assert(tab.take(d as int + 1).last() == tab[d as int]);
            assert(out@ =~= seq![root_placement(root)] + table_placements(nodes, tab.take(d as int + 1)));
            d = d + 1;
        }
        assert(tab.take(table@.len() as int) =~= tab);
        out
    }
}

/// The only child of a node goes straight below it; two children take the
/// slots at angle 0 and at half a turn.
pub proof fn lemma_small_fanouts(nodes: Seq<GodsnodeProto>, p: u64, d: nat)
    ensures
        nodes[p as int].children@.len() == 1 ==> kid_placements(nodes, p, d) == seq![
            Placement { node: nodes[p as int].children@[0], depth: (d + 1) as usize, parent: Some(p), slot: 0, fanout: 1 },
        ],
        nodes[p as int].children@.len() == 2 ==> kid_placements(nodes, p, d) == seq![
            Placement { node: nodes[p as int].children@[0], depth: (d + 1) as usize, parent: Some(p), slot: 0, fanout: 2 },
            Placement { node: nodes[p as int].children@[1], depth: (d + 1) as usize, parent: Some(p), slot: 1, fanout: 2 },
        ],
{
    if nodes[p as int].children@.len() == 1 {
        assert(kid_placements(nodes, p, d) =~= seq![
            Placement { node: nodes[p as int].children@[0], depth: (d + 1) as usize, parent: Some(p), slot: 0, fanout: 1 },
        ]);
    }
    if nodes[p as int].children@.len() == 2 {
        assert(kid_placements(nodes, p, d) =~= seq![
            Placement { node: nodes[p as int].children@[0], depth: (d + 1) as usize, parent: Some(p), slot: 0, fanout: 2 },
            Placement { node: nodes[p as int].children@[1], depth: (d + 1) as usize, parent: Some(p), slot: 1, fanout: 2 },
        ]);
    }
}

/// Laying a tree out twice gives the same plan both times: the plan is a
/// function of the nodes, the root and the per-depth table alone.
pub proof fn lemma_layout_repeatable(a: &GodswoodProto, b: &GodswoodProto)
    requires
        a.store_view().nodes() == b.store_view().nodes(),
        a.root_view() == b.root_view(),
        a.table() == b.table(),
    ensures
        layout_plan(a.store_view().nodes(), a.root_view(), a.table())
            == layout_plan(b.store_view().nodes(), b.root_view(), b.table()),
{
}

} // verus!
