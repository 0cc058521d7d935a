use vstd::prelude::*;
use crate::node::{GodsnodeProto, GodsnodePath, GodswoodMeta, InitGodsnodeQ, tree_size, forest_size, GodsnodeType, RawNode, display_of, app_name_field, dot};
use crate::levels::{
    Entry, child_entries, expand, level, root_entry, levels_upto, ids, index_fold, meta_fold, count_of, flatten_rows,
    lemma_levels_list_tree_once, lemma_flatten_levels, lemma_len_of_exact_counts,
    lemma_expand_take, lemma_index_fold_push, lemma_meta_fold_push, lemma_level_bounds,
};
use crate::store::{
    StoreProto, links_forward, in_children, unique_parents, children_extend, linked_below,
    lemma_push_childless, lemma_extend_trans, lemma_extend_linked,
};

verus! {

/// One tree instance: its root, its nodes grouped by depth, and the deepest
/// depth reached, over a store that owns the nodes.
pub struct GodswoodProto {
    depth: usize,
    nodes_by_depth: Vec<Vec<u64>>,
    root: Option<u64>,
    store: StoreProto,
}

/// What the builder makes of the `k`-th entry of a `children` object: a
/// branch node named by the entry's key, labelled from it, whose one parent
/// is `parent`, with as many children as the entry lists.
pub open spec fn built_child(n: GodsnodeProto, raw: RawNode, parent: u64) -> bool {
    &&& n.name@ == raw.key@
    &&& n.display_name@ == display_of(raw)
    &&& n.node_type == GodsnodeType::Godsnode
    &&& n.parents@ == seq![parent]
    &&& n.children@.len() == raw.children@.len()
}

/// Node `r` exists and is nobody's child, and every later node of the store
/// is a child of `r` or of a node between `r` and itself.
pub open spec fn tree_below(nodes: Seq<GodsnodeProto>, r: u64) -> bool {
    &&& r < nodes.len()
    &&& !in_children(nodes, r)
    &&& forall|x: u64| r < x < nodes.len() ==> #[trigger] linked_below(nodes, r, r + 1, x)
}

proof fn lemma_same_shape(nodes: Seq<GodsnodeProto>, nodes0: Seq<GodsnodeProto>, r: u64)
    requires
        same_but_meta(nodes, nodes0),
        unique_parents(nodes0),
        tree_below(nodes0, r),
    ensures
        unique_parents(nodes),
        tree_below(nodes, r),
{
    assert forall|q: int| 0 <= q < nodes.len() implies #[trigger] nodes[q].children == nodes0[q].children by {
        assert(nodes[q] == (GodsnodeProto { app_meta_map: nodes[q].app_meta_map, ..nodes0[q] }));
    }
    if in_children(nodes, r) {
        let (q, k) = choose|q: int, k: int| 0 <= q < nodes.len() && 0 <= k < nodes[q].children@.len()
            && #[trigger] nodes[q].children@[k] == r;
        assert(nodes0[q].children@[k] == r);
    }
    assert forall|x: u64| r < x < nodes.len() implies #[trigger] linked_below(nodes, r, r + 1, x) by {
        assert(linked_below(nodes0, r, r + 1, x));
        let (q, k) = choose|q: int, k: int| (q == r || r + 1 <= q < x) && 0 <= q < nodes0.len()
            && 0 <= k < nodes0[q].children@.len() && #[trigger] nodes0[q].children@[k] == x;
        assert(nodes[q].children@[k] == x);
    }
    assert forall|q1: int, k1: int, q2: int, k2: int|
        0 <= q1 < nodes.len() && 0 <= k1 < nodes[q1].children@.len()
        && 0 <= q2 < nodes.len() && 0 <= k2 < nodes[q2].children@.len()
        && #[trigger] nodes[q1].children@[k1] == #[trigger] nodes[q2].children@[k2]
        implies q1 == q2 && k1 == k2 by {
        assert(nodes0[q1].children@[k1] == nodes0[q2].children@[k2]);
    }
}

/// `nodes` is `nodes0` with only the metadata of nodes changed.
pub open spec fn same_but_meta(nodes: Seq<GodsnodeProto>, nodes0: Seq<GodsnodeProto>) -> bool {
    &&& nodes.len() == nodes0.len()
    &&& forall|i: int| 0 <= i < nodes.len() ==> #[trigger] nodes[i] == (GodsnodeProto {
        app_meta_map: nodes[i].app_meta_map,
        ..nodes0[i]
    })
}

/// Each node of `nodes` holds the metadata of `nodes0` with the entries of
/// `es` that stand for it recorded for application `app`.
pub open spec fn metas_after(
    nodes: Seq<GodsnodeProto>,
    nodes0: Seq<GodsnodeProto>,
    app: Seq<char>,
    es: Seq<Entry>,
) -> bool {
    forall|i: int| 0 <= i < nodes.len() ==> (#[trigger] nodes[i]).meta_view() == meta_fold(
        nodes0[i].meta_view(), i as u64, app, es)
}

/// The walk's steps stand for the entries of `lvl`: each carries the path
/// and depth of its entry, and the children of its entry's node.
pub open spec fn tasks_match(tasks: Seq<InitGodsnodeQ>, nodes0: Seq<GodsnodeProto>, lvl: Seq<Entry>) -> bool {
    &&& tasks.len() == lvl.len()
    &&& forall|i: int| 0 <= i < tasks.len() ==> {
        &&& (#[trigger] tasks[i]).app_meta.path.path_view() == lvl[i].1
        &&& tasks[i].app_meta.path.depth_view() == lvl[i].2
        &&& tasks[i].nodes@ == nodes0[lvl[i].0 as int].children@
    }
}

proof fn lemma_same_links(nodes: Seq<GodsnodeProto>, nodes0: Seq<GodsnodeProto>)
    requires
        same_but_meta(nodes, nodes0),
        links_forward(nodes0),
    ensures
        links_forward(nodes),
{
    assert forall|i: int, k: int| 0 <= i < nodes.len() && 0 <= k < nodes[i].children@.len()
        implies i < #[trigger] nodes[i].children@[k] < nodes.len() by {
        assert(nodes[i].children == nodes0[i].children);
        assert(i < nodes0[i].children@[k] < nodes0.len());
    }
}

/// The subtree below node `id` has the shape of `raw`: `id` has one child
/// per entry of `raw.children`, in order, each built from its entry, and
/// each with the shape of its own entry. Ids follow depth-first pre-order:
/// child `k` comes right after `id` and the subtrees of children `0..k`.
pub open spec fn shaped(nodes: Seq<GodsnodeProto>, id: u64, raw: RawNode) -> bool
    decreases raw,
{
    &&& id < nodes.len()
    &&& nodes[id as int].children@.len() == raw.children@.len()
    &&& forall|k: int| 0 <= k < raw.children@.len() ==> {
        let c = #[trigger] nodes[id as int].children@[k];
        &&& c == id + 1 + forest_size(raw.children@, k)
        &&& c < nodes.len()
        &&& built_child(nodes[c as int], raw.children@[k], id)
        &&& shaped(nodes, c, raw.children@[k])
    }
}

/// A subtree keeps its shape while its root keeps its children and every
/// later node stays as it was.
proof fn lemma_shaped_frame(a: Seq<GodsnodeProto>, b: Seq<GodsnodeProto>, id: u64, raw: RawNode)
    requires
        shaped(a, id, raw),
        a.len() <= b.len(),
        b[id as int].children == a[id as int].children,
        forall|i: int| id < i < a.len() ==> b[i] == a[i],
    ensures
        shaped(b, id, raw),
    decreases raw,
{
    assert forall|k: int| 0 <= k < raw.children@.len() implies {
        let c = #[trigger] b[id as int].children@[k];
        &&& c == id + 1 + forest_size(raw.children@, k)
        &&& c < b.len()
        &&& built_child(b[c as int], raw.children@[k], id)
        &&& shaped(b, c, raw.children@[k])
    } by {
        let c = a[id as int].children@[k];
        assert(decreases_to!(raw => raw.children@[k]));
        lemma_shaped_frame(a, b, c, raw.children@[k]);
    }
}

impl GodswoodProto {
    pub closed spec fn depth_view(&self) -> nat {
        self.depth as nat
    }

    /// The per-depth table: entry `d - 1` lists the nodes at depth `d`.
    pub closed spec fn table(&self) -> Seq<Seq<u64>> {
        self.nodes_by_depth@.map_values(|v: Vec<u64>| v@)
    }

    pub closed spec fn root_view(&self) -> Option<u64> {
        self.root
    }

    pub closed spec fn store_view(&self) -> StoreProto {
        self.store
    }

    /// The store is well formed, its links point forward, and the root, once
    /// set, is one of its nodes.
    pub closed spec fn wf(&self) -> bool {
        &&& self.store.wf()
        &&& links_forward(self.store.nodes())
        &&& unique_parents(self.store.nodes())
        &&& (self.root matches Some(r) ==> tree_below(self.store.nodes(), r))
        &&& forall|d: int, k: int| 0 <= d < self.nodes_by_depth@.len() && 0 <= k < self.nodes_by_depth@[d]@.len()
            ==> d <= #[trigger] self.nodes_by_depth@[d]@[k] < self.store.nodes().len()
    }

    /// What a well-formed tree instance guarantees: a well-formed store whose
    /// ids are positions, forward links, unique parents, a root with the tree
    /// below it, and a per-depth table whose row `d` holds nodes of the store
    /// with ids of at least `d`.
    pub proof fn lemma_wf_facts(&self)
        requires
            self.wf(),
        ensures
            self.store_view().wf(),
            forall|i: int| 0 <= i < self.store_view().nodes().len() ==> (#[trigger] self.store_view().nodes()[i]).id == i,
            links_forward(self.store_view().nodes()),
            unique_parents(self.store_view().nodes()),
            self.root_view() matches Some(r) ==> tree_below(self.store_view().nodes(), r),
            forall|x: int, k: int| 0 <= x < self.table().len() && 0 <= k < self.table()[x].len()
                ==> x <= #[trigger] self.table()[x][k] < self.store_view().nodes().len(),
    {
        self.store.lemma_ids_are_positions();
        assert forall|x: int, k: int| 0 <= x < self.table().len() && 0 <= k < self.table()[x].len()
            implies x <= #[trigger] self.table()[x][k] < self.store_view().nodes().len() by {
            assert(self.table()[x] == self.nodes_by_depth@[x]@);
            assert(self.nodes_by_depth@[x]@[k] < self.store.nodes().len());
        }
    }

    /// A tree instance over `store` with nothing built yet.
    pub fn default(store: StoreProto) -> (r: Self)
        requires
            store.wf(),
            links_forward(store.nodes()),
            unique_parents(store.nodes()),
        ensures
            r.wf(),
            r.depth_view() == 0,
            r.table().len() == 0,
            r.root_view() is None,
            r.store_view() == store,
    {
        GodswoodProto { depth: 0, nodes_by_depth: Vec::new(), root: None, store }
    }

    /// Walks the tree breadth first from the root and gives every node its
    /// dotted path and depth: records them in the node's metadata for the
    /// root's name, in the store's path index, and in the per-depth table.
    pub fn init_nodes(&mut self)
        requires
            old(self).wf(),
        ensures
            final(self).wf(),
            final(self).root_view() == old(self).root_view(),
            old(self).root_view() is None ==> *final(self) == *old(self),
            old(self).root_view() matches Some(r) ==> {
                let nodes0 = old(self).store_view().nodes();
                let d = final(self).depth_view();
                &&& d >= 1
                &&& final(self).table().len() == d
                &&& forall|k: int| 0 <= k < d ==> #[trigger] final(self).table()[k] == ids(level(nodes0, r, (k + 1) as nat))
                &&& level(nodes0, r, d + 1).len() == 0
                &&& forall|k: nat| 1 <= k <= d ==> #[trigger] level(nodes0, r, k).len() > 0
                &&& same_but_meta(final(self).store_view().nodes(), nodes0)
                &&& metas_after(final(self).store_view().nodes(), nodes0, nodes0[r as int].name@,
                    levels_upto(nodes0, r, d))
                &&& final(self).store_view().index_view() == index_fold(
                    old(self).store_view().index_view(), levels_upto(nodes0, r, d))
            },
    {
        let root = match self.root {
            Some(r) => r,
            None => { return; }
        };
        let ghost nodes0 = self.store.nodes();
        let ghost idx0 = self.store.index_view();
        let total = self.store.len();
        let app_name = self.store.node(root).name.clone();
        let ghost app = app_name@;
        let mut app_path = GodsnodePath::new_path();
        app_path.append(&app_name);
        self.store.set_meta(root, &app_name, app_path.duplicate());
        self.store.update_index(&app_path.read(), root);
        let mut first: Vec<u64> = Vec::new();
        first.push(root);
        self.nodes_by_depth = Vec::new();
        self.nodes_by_depth.push(first);
        self.depth = 1;
        let root_kids = self.store.node(root).children.clone();
        proof {
            assert(root_kids@ =~= nodes0[root as int].children@);
        }
        let mut current: Vec<InitGodsnodeQ> = Vec::new();
        current.push(InitGodsnodeQ { app_meta: GodswoodMeta { path: app_path }, nodes: root_kids });
        proof {
            let e = root_entry(nodes0, root);
            assert(levels_upto(nodes0, root, 1) =~= seq![e]) by {
                assert(levels_upto(nodes0, root, 0) =~= Seq::<Entry>::empty());
            }
            assert(app_path.path_view() =~= e.1);
            lemma_index_fold_push(idx0, Seq::empty(), e);
            assert(Seq::<Entry>::empty().push(e) =~= seq![e]);
            assert(index_fold(idx0, Seq::<Entry>::empty()) == idx0);
            assert forall|q: int| 0 <= q < self.store.nodes().len() implies
                (#[trigger] self.store.nodes()[q]).meta_view() == meta_fold(
                    nodes0[q].meta_view(), q as u64, app, levels_upto(nodes0, root, 1)) by {
                lemma_meta_fold_push(nodes0[q].meta_view(), q as u64, app, Seq::empty(), e);
            }
            assert(tasks_match(current@, nodes0, level(nodes0, root, 1)));
            assert(self.table()[0] =~= ids(level(nodes0, root, 1)));
            lemma_same_links(self.store.nodes(), nodes0);
        }
        loop
            invariant
                self.root == Some(root),
                root < nodes0.len(),
                total == nodes0.len(),
                links_forward(nodes0),
                app == nodes0[root as int].name@,
                app_name@ == app,
                self.store.wf(),
                links_forward(self.store.nodes()),
                same_but_meta(self.store.nodes(), nodes0),
                1 <= self.depth <= nodes0.len(),
                current@.len() > 0,
                tasks_match(current@, nodes0, level(nodes0, root, self.depth as nat)),
                forall|k: nat| 1 <= k <= self.depth ==> #[trigger] level(nodes0, root, k).len() > 0,
                self.table().len() == self.depth,
                forall|k: int| 0 <= k < self.depth ==> #[trigger] self.table()[k] == ids(level(nodes0, root, (k + 1) as nat)),
                metas_after(self.store.nodes(), nodes0, app, levels_upto(nodes0, root, self.depth as nat)),
                self.store.index_view() == index_fold(idx0, levels_upto(nodes0, root, self.depth as nat)),
            ensures
                level(nodes0, root, self.depth as nat + 1).len() == 0,
            decreases nodes0.len() - self.depth,
        {
            let ghost d = self.depth as nat;
            let ghost lvl = level(nodes0, root, d);
            let ghost done = levels_upto(nodes0, root, d);
            proof { lemma_level_bounds(nodes0, root, d); }
            let mut next: Vec<InitGodsnodeQ> = Vec::new();
            let mut next_ids: Vec<u64> = Vec::new();
            let mut i: usize = 0;
            proof { assert(lvl.take(0) =~= Seq::<Entry>::empty()); assert(done + Seq::<Entry>::empty() =~= done); }
            while i < current.len()
                invariant
                    self.root == Some(root),
                    root < nodes0.len(),
                    total == nodes0.len(),
                    links_forward(nodes0),
                    app == nodes0[root as int].name@,
                    app_name@ == app,
                    self.store.wf(),
                    same_but_meta(self.store.nodes(), nodes0),
                    self.depth == d,
                    1 <= d <= nodes0.len(),
                    lvl == level(nodes0, root, d),
                    done == levels_upto(nodes0, root, d),
                    forall|k: int| 0 <= k < lvl.len() ==> root + d - 1 <= (#[trigger] lvl[k]).0 < nodes0.len() && lvl[k].2 == d,
                    i <= current@.len(),
                    tasks_match(current@, nodes0, lvl),
                    self.table().len() == self.depth,
                    forall|k: int| 0 <= k < self.depth ==> #[trigger] self.table()[k] == ids(level(nodes0, root, (k + 1) as nat)),
                    tasks_match(next@, nodes0, expand(nodes0, lvl.take(i as int))),
                    next_ids@ == ids(expand(nodes0, lvl.take(i as int))),
                    metas_after(self.store.nodes(), nodes0, app, done + expand(nodes0, lvl.take(i as int))),
                    self.store.index_view() == index_fold(idx0, done + expand(nodes0, lvl.take(i as int))),
                decreases current@.len() - i,
            {
                let ghost pe = lvl[i as int];
                let ghost p = pe.0;
                let nk = current[i].nodes.len();
                let ghost ce = child_entries(nodes0, pe);
                let ghost before = done + expand(nodes0, lvl.take(i as int));
                proof {
                    assert(self.store.nodes()[p as int].children == nodes0[p as int].children);
                    assert(ce.take(0) =~= Seq::<Entry>::empty());
                    assert(before + Seq::<Entry>::empty() =~= before);
                    assert(expand(nodes0, lvl.take(i as int)) + Seq::<Entry>::empty() =~= expand(nodes0, lvl.take(i as int)));
                }
                let mut j: usize = 0;
                while j < nk
                    invariant
                        self.root == Some(root),
                        root < nodes0.len(),
                        total == nodes0.len(),
                        links_forward(nodes0),
                        app == nodes0[root as int].name@,
                        app_name@ == app,
                        self.store.wf(),
                        same_but_meta(self.store.nodes(), nodes0),
                        self.depth == d,
                        i < current@.len(),
                        tasks_match(current@, nodes0, lvl),
                        pe == lvl[i as int],
                        p == pe.0,
                        root + d - 1 <= p < nodes0.len(),
                        pe.2 == d,
                        nk == nodes0[p as int].children@.len(),
                        ce == child_entries(nodes0, pe),
                        before == done + expand(nodes0, lvl.take(i as int)),
                        j <= nk,
                        self.table().len() == self.depth,
                        forall|k: int| 0 <= k < self.depth ==> #[trigger] self.table()[k] == ids(level(nodes0, root, (k + 1) as nat)),
                        tasks_match(next@, nodes0, expand(nodes0, lvl.take(i as int)) + ce.take(j as int)),
                        next_ids@ == ids(expand(nodes0, lvl.take(i as int)) + ce.take(j as int)),
                        metas_after(self.store.nodes(), nodes0, app, before + ce.take(j as int)),
                        self.store.index_view() == index_fold(idx0, before + ce.take(j as int)),
                    decreases nk - j,
                {
                    let c = current[i].nodes[j];
                    proof {
                        assert(p < nodes0[p as int].children@[j as int] < nodes0.len());
                    }
                    assert(self.store.nodes()[c as int].name == nodes0[c as int].name);
                    let cname = self.store.node(c).name.clone();
                    let mut kp = current[i].app_meta.path.duplicate();
                    kp.append(&cname);
                    let ghost e = ce[j as int];
                    let ghost s_old = self.store.nodes();
                    let ghost m_seq = before + ce.take(j as int);
                    proof {
                        assert(kp.path_view() == e.1);
                        assert(kp.depth_view() == e.2);
                    }
                    self.store.set_meta(c, &app_name, kp.duplicate());
                    self.store.update_index(&kp.read(), c);
                    let kids = self.store.node(c).children.clone();
                    let ghost old_next = next@;
                    let ghost old_ids = next_ids@;
                    let ghost prior = expand(nodes0, lvl.take(i as int)) + ce.take(j as int);
                    next_ids.push(c);
                    next.push(InitGodsnodeQ { app_meta: GodswoodMeta { path: kp }, nodes: kids });
                    proof {
                        assert(e.0 == c);
                        assert(kids@ =~= nodes0[c as int].children@);
                        assert(prior + seq![e] =~= prior.push(e));
                        assert(expand(nodes0, lvl.take(i as int)) + ce.take(j as int + 1) =~= prior.push(e));
                        assert(tasks_match(next@, nodes0, prior.push(e))) by {
                            assert forall|m: int| 0 <= m < next@.len() implies {
                                &&& (#[trigger] next@[m]).app_meta.path.path_view() == prior.push(e)[m].1
                                &&& next@[m].app_meta.path.depth_view() == prior.push(e)[m].2
                                &&& next@[m].nodes@ == nodes0[prior.push(e)[m].0 as int].children@
                            } by {
                                if m < old_next.len() {
                                    assert(next@[m] == old_next[m]);
                                }
                            }
                        }
                        assert(next_ids@ =~= ids(prior.push(e)));
                    }
                    proof {
                        assert(ce.take(j as int + 1) =~= ce.take(j as int).push(e));
                        assert(before + ce.take(j as int + 1) =~= m_seq.push(e));
                        lemma_index_fold_push(idx0, m_seq, e);
                        assert forall|q: int| 0 <= q < self.store.nodes().len() implies
                            (#[trigger] self.store.nodes()[q]).meta_view() == meta_fold(
                                nodes0[q].meta_view(), q as u64, app, before + ce.take(j as int + 1)) by {
                            lemma_meta_fold_push(nodes0[q].meta_view(), q as u64, app, m_seq, e);
                            if q != c {
                                assert(self.store.nodes()[q] == s_old[q]);
                            }
                        }
                        assert forall|q: int| 0 <= q < self.store.nodes().len() implies
                            #[trigger] self.store.nodes()[q] == (GodsnodeProto {
                                app_meta_map: self.store.nodes()[q].app_meta_map, ..nodes0[q]
                            }) by {
                            assert(s_old[q] == (GodsnodeProto { app_meta_map: s_old[q].app_meta_map, ..nodes0[q] }));
                        }
                    }
                    j = j + 1;
                }
                proof {
                    lemma_expand_take(nodes0, lvl, i as int);
                    assert(ce.take(nk as int) =~= ce);
                    assert(before + ce =~= done + expand(nodes0, lvl.take(i as int + 1)));
                }
                i = i + 1;
            }
            proof {
                assert(lvl.take(current@.len() as int) =~= lvl);
                assert(level(nodes0, root, d + 1) == expand(nodes0, lvl));
                assert(levels_upto(nodes0, root, d + 1) == done + level(nodes0, root, d + 1));
                lemma_same_links(self.store.nodes(), nodes0);
            }
            if next.len() == 0 {
                break;
            }
            proof {
                lemma_level_bounds(nodes0, root, d + 1);
                assert(root + d <= level(nodes0, root, d + 1)[0].0);
            }
            let ghost old_tab = self.nodes_by_depth@;
            let ghost old_table = self.table();
            let ghost new_ids = next_ids@;
            proof {
                assert(new_ids == ids(level(nodes0, root, d + 1)));
            }
            self.nodes_by_depth.push(next_ids);
            self.depth = self.depth + 1;
            current = next;
            proof {
                assert(level(nodes0, root, d + 1).len() == current@.len());
                assert(self.nodes_by_depth@ == old_tab.push(next_ids));
                assert forall|k: int| 0 <= k < self.depth implies #[trigger] self.table()[k] == ids(level(nodes0, root, (k + 1) as nat)) by {
                    if k == d {
                        assert(self.table()[k] == new_ids);
                    } else {
                        assert(self.nodes_by_depth@[k] == old_tab[k]);
                        assert(self.table()[k] == old_table[k]);
                    }
                }
            }
        }
        proof {
            lemma_same_links(self.store.nodes(), nodes0);
            lemma_same_shape(self.store.nodes(), nodes0, root);
            assert forall|d: int, k: int| 0 <= d < self.nodes_by_depth@.len() && 0 <= k < self.nodes_by_depth@[d]@.len()
                implies d <= #[trigger] self.nodes_by_depth@[d]@[k] < self.store.nodes().len() by {
                assert(self.table()[d] == self.nodes_by_depth@[d]@);
                assert(self.table()[d] == ids(level(nodes0, root, (d + 1) as nat)));
                lemma_level_bounds(nodes0, root, (d + 1) as nat);
                assert(ids(level(nodes0, root, (d + 1) as nat))[k] == level(nodes0, root, (d + 1) as nat)[k].0);
            }
        }
    }

    /// Every id in the per-depth table names a node of the store.
    pub proof fn lemma_table_in_store(&self)
        requires
            self.wf(),
        ensures
            forall|x: int, k: int| 0 <= x < self.table().len() && 0 <= k < self.table()[x].len()
                ==> #[trigger] self.table()[x][k] < self.store_view().nodes().len(),
    {
        assert forall|x: int, k: int| 0 <= x < self.table().len() && 0 <= k < self.table()[x].len()
            implies #[trigger] self.table()[x][k] < self.store_view().nodes().len() by {
            assert(self.table()[x] == self.nodes_by_depth@[x]@);
            assert(self.nodes_by_depth@[x]@[k] < self.store.nodes().len());
        }
    }

    /// The per-depth table that `init_nodes` makes of a built tree lists
    /// every node of the tree exactly once, and no other node: each id from
    /// the root to the end of the store occurs once, any other id never.
    /// `table` is that table, over the nodes as they were before the walk.
    /// After `parse`, the nodes from the root on are the ones it created, as
    /// many as the description has entries (`tree_size`).
    pub proof fn lemma_table_lists_tree(&self, table: Seq<Seq<u64>>, x: u64)
        requires
            self.wf(),
            self.root_view() is Some,
            table.len() >= 1,
            forall|k: int| 0 <= k < table.len() ==> #[trigger] table[k] == ids(
                level(self.store_view().nodes(), self.root_view()->0, (k + 1) as nat)),
            level(self.store_view().nodes(), self.root_view()->0, table.len() + 1).len() == 0,
        ensures
            count_of(x, flatten_rows(table)) == if self.root_view()->0 <= x < self.store_view().nodes().len() {
                1nat
            } else {
                0nat
            },
    {
        let nodes = self.store_view().nodes();
        let r = self.root_view()->0;
        lemma_flatten_levels(nodes, r, table);
        lemma_levels_list_tree_once(nodes, r, table.len(), x);
    }

    /// The rows of that same table hold, together, as many ids as the tree
    /// has nodes: every node from the root to the end of the store (after
    /// `parse`, the `tree_size` nodes it created).
    pub proof fn lemma_table_size(&self, table: Seq<Seq<u64>>)
        requires
            self.wf(),
            self.root_view() is Some,
            table.len() >= 1,
            forall|k: int| 0 <= k < table.len() ==> #[trigger] table[k] == ids(
                level(self.store_view().nodes(), self.root_view()->0, (k + 1) as nat)),
            level(self.store_view().nodes(), self.root_view()->0, table.len() + 1).len() == 0,
        ensures
            flatten_rows(table).len() == self.store_view().nodes().len() - self.root_view()->0,
    {
        let nodes = self.store_view().nodes();
        let r = self.root_view()->0;
        self.lemma_wf_facts();
        assert forall|x: u64| #[trigger] count_of(x, flatten_rows(table))
            == if r <= x < nodes.len() { 1nat } else { 0nat } by {
            self.lemma_table_lists_tree(table, x);
        }
        let last = (nodes.len() - 1) as int;
        assert(nodes[last].id == last);
        lemma_len_of_exact_counts(flatten_rows(table), r as int, nodes.len() as int);
    }

    pub fn get_nodes_by_depths(&self) -> (r: &Vec<Vec<u64>>)
        ensures
            r@.map_values(|v: Vec<u64>| v@) == self.table(),
    {
        &self.nodes_by_depth
    }

    pub fn get_depth(&self) -> (r: usize)
        ensures
            r == self.depth_view(),
    {
        self.depth
    }

    pub fn get_root(&self) -> (r: Option<u64>)
        ensures
            r == self.root_view(),
    {
        self.root
    }

    pub fn get_store(&self) -> (r: &StoreProto)
        ensures
            *r == self.store_view(),
    {
        &self.store
    }

    /// The name of the root node.
    pub fn read_name(&self) -> (r: String)
        requires
            self.wf(),
            self.root_view() is Some,
        ensures
            r@ == self.store_view().nodes()[self.root_view()->0 as int].name@,
    {
        let root = self.root.unwrap();
        self.store.node(root).name.clone()
    }

    /// Builds the tree that `raw` describes: a root node named from `raw`,
    /// then the nodes of its `children`, depth first, in key order.
    pub fn parse(&mut self, raw: &RawNode)
        requires
            old(self).wf(),
        ensures
            final(self).wf(),
            final(self).depth_view() == old(self).depth_view(),
            final(self).table() == old(self).table(),
            final(self).root_view() == Some(old(self).store_view().nodes().len() as u64),
            final(self).store_view().index_view() == old(self).store_view().index_view(),
            final(self).store_view().nodes().take(old(self).store_view().nodes().len() as int)
                == old(self).store_view().nodes(),
            final(self).store_view().nodes().len() == old(self).store_view().nodes().len() + tree_size(*raw),
            ({
                let r = old(self).store_view().nodes().len() as int;
                let n = final(self).store_view().nodes()[r];
                &&& n.name@ == app_name_field(*raw)
                &&& n.display_name@ == display_of(*raw)
                &&& n.node_type == GodsnodeType::Root
                &&& n.parents@.len() == 0
                &&& shaped(final(self).store_view().nodes(), r as u64, *raw)
            }),
    {
        let ghost s0 = self.store.nodes();
        let root = self.store.add_app_node(raw);
        proof {
            let s1 = self.store.nodes();
            assert forall|i: int, m: int| 0 <= i < s1.len() && 0 <= m < s1[i].children@.len()
                implies i < #[trigger] s1[i].children@[m] < s1.len() by {
                if i < s0.len() {
                    assert(s1[i] == s1.take(root as int)[i]);
                }
            }
        }
        let ghost s1 = self.store.nodes();
        self.root = Some(root);
        GodswoodProto::parse_children(root, &raw.children, &mut self.store);
        proof {
            let s2 = self.store.nodes();
            assert(s2.take(root as int) =~= s0) by {
                assert forall|i: int| 0 <= i < root implies s2[i] == s0[i] by {
                    assert(s1[i] == s1.take(root as int)[i]);
                }
            }
            assert(s1[root as int].children@.len() == 0);
            lemma_push_childless(s0, s1);
            if in_children(s0, root) {
                let (q, m) = choose|q: int, m: int| 0 <= q < s0.len() && 0 <= m < s0[q].children@.len()
                    && #[trigger] s0[q].children@[m] == root;
                assert(q < s0[q].children@[m] < s0.len());
            }
            assert(!in_children(s2, root));
            assert forall|x: u64| root < x < s2.len() implies #[trigger] linked_below(s2, root, root + 1, x) by {
                assert(linked_below(s2, root, s1.len() as int, x));
            }
            assert forall|d: int, k: int| 0 <= d < self.nodes_by_depth@.len() && 0 <= k < self.nodes_by_depth@[d]@.len()
                implies d <= #[trigger] self.nodes_by_depth@[d]@[k] < s2.len() by {
                assert(d <= self.nodes_by_depth@[d]@[k] < s0.len());
            }
            assert forall|k: int| 0 <= k < raw.children@.len() implies
                #[trigger] s2[root as int].children@[k] == s2[root as int].children@[0 + k] by {}
            assert(shaped(s2, root, *raw));
        }
    }

    /// Creates one node for each entry of `children`, in order, builds each
    /// entry's own children below it, and links it under `parent_node`.
    pub fn parse_children(parent_node: u64, children: &Vec<RawNode>, store: &mut StoreProto)
        requires
            old(store).wf(),
            links_forward(old(store).nodes()),
            parent_node < old(store).nodes().len(),
        ensures
            final(store).wf(),
            links_forward(final(store).nodes()),
            final(store).nodes().len() == old(store).nodes().len() + forest_size(children@, children@.len() as int),
            final(store).index_view() == old(store).index_view(),
            forall|i: int| 0 <= i < old(store).nodes().len() && i != parent_node ==>
                final(store).nodes()[i] == old(store).nodes()[i],
            final(store).nodes()[parent_node as int] == (GodsnodeProto {
                children: final(store).nodes()[parent_node as int].children,
                ..old(store).nodes()[parent_node as int]
            }),
            final(store).nodes()[parent_node as int].children@.len()
                == old(store).nodes()[parent_node as int].children@.len() + children@.len(),
            final(store).nodes()[parent_node as int].children@.take(
                old(store).nodes()[parent_node as int].children@.len() as int)
                == old(store).nodes()[parent_node as int].children@,
            forall|k: int| 0 <= k < children@.len() ==> {
                let c = #[trigger] final(store).nodes()[parent_node as int].children@[
                    old(store).nodes()[parent_node as int].children@.len() + k];
                &&& c == old(store).nodes().len() + forest_size(children@, k)
                &&& c < final(store).nodes().len()
                &&& built_child(final(store).nodes()[c as int], children@[k], parent_node)
                &&& shaped(final(store).nodes(), c, children@[k])
            },
            children_extend(old(store).nodes(), final(store).nodes()),
            forall|x: u64| x < old(store).nodes().len() ==>
                #[trigger] in_children(final(store).nodes(), x) == in_children(old(store).nodes(), x),
            unique_parents(old(store).nodes()) ==> unique_parents(final(store).nodes()),
            forall|x: u64| old(store).nodes().len() <= x < final(store).nodes().len() ==>
                #[trigger] linked_below(final(store).nodes(), parent_node, old(store).nodes().len() as int, x),
        decreases children,
    {
        let ghost s0 = store.nodes();
        let ghost n0 = s0[parent_node as int].children@.len();
        let mut k: usize = 0;
        proof {
            assert forall|q: int| 0 <= q < s0.len() implies (#[trigger] s0[q]).children@.take(s0[q].children@.len() as int) == s0[q].children@
                && s0[q].children@.len() <= s0[q].children@.len() by {
                assert(s0[q].children@.take(s0[q].children@.len() as int) =~= s0[q].children@);
            }
        }
        while k < children.len()
            invariant
                k <= children@.len(),
                store.wf(),
                links_forward(store.nodes()),
                store.nodes().len() == s0.len() + forest_size(children@, k as int),
                parent_node < s0.len(),
                n0 == s0[parent_node as int].children@.len(),
                store.index_view() == old(store).index_view(),
                s0 == old(store).nodes(),
                forall|i: int| 0 <= i < s0.len() && i != parent_node ==>
                    store.nodes()[i] == s0[i],
                store.nodes()[parent_node as int] == (GodsnodeProto {
                    children: store.nodes()[parent_node as int].children,
                    ..s0[parent_node as int]
                }),
                store.nodes()[parent_node as int].children@.len() == n0 + k,
                store.nodes()[parent_node as int].children@.take(n0 as int)
                    == s0[parent_node as int].children@,
                forall|j: int| 0 <= j < k ==> {
                    let c = #[trigger] store.nodes()[parent_node as int].children@[n0 + j];
                    &&& c == s0.len() + forest_size(children@, j)
                    &&& c < store.nodes().len()
                    &&& built_child(store.nodes()[c as int], children@[j], parent_node)
                    &&& shaped(store.nodes(), c, children@[j])
                },
                children_extend(s0, store.nodes()),
                forall|x: u64| x < s0.len() ==>
                    #[trigger] in_children(store.nodes(), x) == in_children(s0, x),
                unique_parents(s0) ==> unique_parents(store.nodes()),
                forall|x: u64| s0.len() <= x < store.nodes().len() ==>
                    #[trigger] linked_below(store.nodes(), parent_node, s0.len() as int, x),
            decreases children@.len() - k,
        {
            let raw = &children[k];
            let ghost s1 = store.nodes();
            let id = store.add_node(raw, raw.key.clone());
            proof {
                assert(links_forward(store.nodes())) by {
                    assert forall|i: int, m: int| 0 <= i < store.nodes().len()
                        && 0 <= m < store.nodes()[i].children@.len()
                        implies i < #[trigger] store.nodes()[i].children@[m] < store.nodes().len() by {
                        if i < s1.len() {
                            assert(store.nodes()[i] == store.nodes().take(id as int)[i]);
                        }
                    }
                }
                assert(decreases_to!(children => children@[k as int].children));
            }
            let ghost s2 = store.nodes();
            proof {
                lemma_push_childless(s1, s2);
                if in_children(s1, id) {
                    let (q, m) = choose|q: int, m: int| 0 <= q < s1.len() && 0 <= m < s1[q].children@.len()
                        && #[trigger] s1[q].children@[m] == id;
                    assert(q < s1[q].children@[m] < s1.len());
                }
            }
            GodswoodProto::parse_children(id, &raw.children, store);
            let ghost s3 = store.nodes();
            store.link(parent_node, id);
            proof {
                let s4 = store.nodes();
                lemma_extend_trans(s1, s2, s3);
                lemma_extend_trans(s1, s3, s4);
                lemma_extend_trans(s0, s1, s4);
                assert forall|x: u64| x < s0.len() implies
                    #[trigger] in_children(s4, x) == in_children(s0, x) by {
                    assert(in_children(s3, x) == in_children(s2, x));
                    assert(in_children(s2, x) == in_children(s1, x));
                }
                assert forall|x: u64| s0.len() <= x < s4.len() implies
                    #[trigger] linked_below(s4, parent_node, s0.len() as int, x) by {
                    if x < id {
                        assert(linked_below(s1, parent_node, s0.len() as int, x));
                        lemma_extend_linked(s1, s4, parent_node, s0.len() as int, x);
                    } else if x == id {
                        let m = s3[parent_node as int].children@.len() as int;
                        assert(s4[parent_node as int].children@[m] == x);
                    } else {
                        assert(linked_below(s3, id, id + 1, x));
                        let (q, m) = choose|q: int, m: int| (q == id || id + 1 <= q < x) && 0 <= q < s3.len()
                            && 0 <= m < s3[q].children@.len() && #[trigger] s3[q].children@[m] == x;
                        assert(linked_below(s3, parent_node, s0.len() as int, x));
                        lemma_extend_linked(s3, s4, parent_node, s0.len() as int, x);
                    }
                }
                assert forall|i: int| 0 <= i < s0.len() && i != parent_node implies
                    store.nodes()[i] == s0[i] by {
                    assert(s2[i] == s2.take(id as int)[i]);
                }
                assert(store.nodes()[parent_node as int].children@.take(n0 as int)
                    =~= s0[parent_node as int].children@) by {
                    assert(s2[parent_node as int] == s2.take(id as int)[parent_node as int]);
                }
                assert(shaped(s3, id, *raw)) by {
                    assert(s2[id as int].children@.len() == 0);
                    assert forall|m: int| 0 <= m < raw.children@.len() implies
                        #[trigger] s3[id as int].children@[m] == s3[id as int].children@[0 + m] by {}
                }
                lemma_shaped_frame(s3, s4, id, *raw);
                assert forall|j: int| 0 <= j < k + 1 implies {
                    let c = #[trigger] store.nodes()[parent_node as int].children@[n0 + j];
                    &&& c == s0.len() + forest_size(children@, j)
                    &&& c < store.nodes().len()
                    &&& built_child(store.nodes()[c as int], children@[j], parent_node)
                    &&& shaped(store.nodes(), c, children@[j])
                } by {
                    assert(s2[parent_node as int] == s2.take(id as int)[parent_node as int]);
                    if j < k {
                        let c = s1[parent_node as int].children@[n0 + j];
                        assert(s2[c as int] == s2.take(id as int)[c as int]);
                        assert forall|i: int| c < i < s1.len() implies s4[i] == s1[i] by {
                            assert(s2[i] == s2.take(id as int)[i]);
                        }
                        lemma_shaped_frame(s1, s4, c, children@[j]);
                    }
                }
            }
            assert(forest_size(children@, k as int + 1) == forest_size(children@, k as int) + tree_size(children@[k as int]));
            k = k + 1;
        }
    }
}

} // verus!
