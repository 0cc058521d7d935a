use vstd::prelude::*;
use vstd::string::*;
use crate::node::{GodsnodeProto, GodsnodePath, GodsnodeType, GodswoodMeta, RawNode, display_of, app_name_field};

verus! {


/// The map that a list of (path, id) entries stands for: a later entry
/// shadows an earlier one with the same path.
pub open spec fn index_map(v: Seq<(String, u64)>) -> Map<Seq<char>, u64>
    decreases v.len(),
{
    if v.len() == 0 {
        Map::empty()
    } else {
        index_map(v.drop_last()).insert(v.last().0@, v.last().1)
    }
}

/// Every child link of a node points to a later node of the same store.
pub open spec fn links_forward(nodes: Seq<GodsnodeProto>) -> bool {
    forall|i: int, k: int| 0 <= i < nodes.len() && 0 <= k < nodes[i].children@.len() ==>
        i < #[trigger] nodes[i].children@[k] < nodes.len()
}

/// Some node lists `x` among its children.
pub open spec fn in_children(nodes: Seq<GodsnodeProto>, x: u64) -> bool {
    exists|q: int, k: int| 0 <= q < nodes.len() && 0 <= k < nodes[q].children@.len()
        && #[trigger] nodes[q].children@[k] == x
}

/// No node is listed twice among all children lists: every node has at most
/// one parent, and is its child once.
pub open spec fn unique_parents(nodes: Seq<GodsnodeProto>) -> bool {
    forall|q1: int, k1: int, q2: int, k2: int|
        0 <= q1 < nodes.len() && 0 <= k1 < nodes[q1].children@.len()
        && 0 <= q2 < nodes.len() && 0 <= k2 < nodes[q2].children@.len()
        && #[trigger] nodes[q1].children@[k1] == #[trigger] nodes[q2].children@[k2]
        ==> q1 == q2 && k1 == k2
}

/// Every children list of `a` is a prefix of the same node's list in `b`.
pub open spec fn children_extend(a: Seq<GodsnodeProto>, b: Seq<GodsnodeProto>) -> bool {
    &&& a.len() <= b.len()
    &&& forall|q: int| 0 <= q < a.len() ==> (#[trigger] b[q]).children@.take(a[q].children@.len() as int) == a[q].children@
        && a[q].children@.len() <= b[q].children@.len()
}

/// Node `x` is a child of `parent`, or of a node from `lo` up to `x`.
pub open spec fn linked_below(nodes: Seq<GodsnodeProto>, parent: u64, lo: int, x: u64) -> bool {
    exists|q: int, k: int| (q == parent || lo <= q < x) && 0 <= q < nodes.len()
        && 0 <= k < nodes[q].children@.len() && #[trigger] nodes[q].children@[k] == x
}

pub proof fn lemma_extend_trans(a: Seq<GodsnodeProto>, b: Seq<GodsnodeProto>, c: Seq<GodsnodeProto>)
    requires
        children_extend(a, b),
        children_extend(b, c),
    ensures
        children_extend(a, c),
{
    assert forall|q: int| 0 <= q < a.len() implies (#[trigger] c[q]).children@.take(a[q].children@.len() as int) == a[q].children@
        && a[q].children@.len() <= c[q].children@.len() by {
        assert(c[q].children@.take(b[q].children@.len() as int) == b[q].children@);
        assert(b[q].children@.take(a[q].children@.len() as int) == a[q].children@);
        assert(c[q].children@.take(a[q].children@.len() as int) =~= a[q].children@);
    }
}

pub proof fn lemma_extend_linked(a: Seq<GodsnodeProto>, b: Seq<GodsnodeProto>, parent: u64, lo: int, x: u64)
    requires
        children_extend(a, b),
        linked_below(a, parent, lo, x),
    ensures
        linked_below(b, parent, lo, x),
{
    let (q, k) = choose|q: int, k: int| (q == parent || lo <= q < x) && 0 <= q < a.len()
        && 0 <= k < a[q].children@.len() && #[trigger] a[q].children@[k] == x;
    assert(b[q].children@.take(a[q].children@.len() as int) == a[q].children@);
    assert(b[q].children@[k] == b[q].children@.take(a[q].children@.len() as int)[k]);
}

/// Adding a childless node keeps who has a parent, and keeps parents unique.
pub proof fn lemma_push_childless(old: Seq<GodsnodeProto>, new: Seq<GodsnodeProto>)
    requires
        new.len() == old.len() + 1,
        new.take(old.len() as int) == old,
        new[old.len() as int].children@.len() == 0,
    ensures
        forall|x: u64| #[trigger] in_children(new, x) == in_children(old, x),
        unique_parents(old) ==> unique_parents(new),
        links_forward(old) ==> links_forward(new),
        children_extend(old, new),
{
    assert forall|q: int| 0 <= q < old.len() implies #[trigger] new[q] == old[q] by {
        assert(new.take(old.len() as int)[q] == new[q]);
    }
    assert forall|q: int| 0 <= q < old.len() implies (#[trigger] new[q]).children@.take(old[q].children@.len() as int) == old[q].children@
        && old[q].children@.len() <= new[q].children@.len() by {
        assert(new[q] == old[q]);
        assert(old[q].children@.take(old[q].children@.len() as int) =~= old[q].children@);
    }
    assert forall|x: u64| #[trigger] in_children(new, x) == in_children(old, x) by {
        if in_children(new, x) {
            let (q, k) = choose|q: int, k: int| 0 <= q < new.len() && 0 <= k < new[q].children@.len()
                && #[trigger] new[q].children@[k] == x;
            assert(old[q].children@[k] == x);
        }
        if in_children(old, x) {
            let (q, k) = choose|q: int, k: int| 0 <= q < old.len() && 0 <= k < old[q].children@.len()
                && #[trigger] old[q].children@[k] == x;
            assert(new[q].children@[k] == x);
        }
    }
    if unique_parents(old) {
        assert forall|q1: int, k1: int, q2: int, k2: int|
            0 <= q1 < new.len() && 0 <= k1 < new[q1].children@.len()
            && 0 <= q2 < new.len() && 0 <= k2 < new[q2].children@.len()
            && #[trigger] new[q1].children@[k1] == #[trigger] new[q2].children@[k2]
            implies q1 == q2 && k1 == k2 by {
            assert(old[q1].children@[k1] == old[q2].children@[k2]);
        }
    }
    if links_forward(old) {
        assert forall|i: int, k: int| 0 <= i < new.len() && 0 <= k < new[i].children@.len()
            implies i < #[trigger] new[i].children@[k] < new.len() by {
            assert(i < old[i].children@[k] < old.len());
        }
    }
}

/// Entries past position `k` that do not hold path `p` leave the lookup of `p`
/// to the first `k` entries.
proof fn lemma_index_take(v: Seq<(String, u64)>, k: int, p: Seq<char>)
    requires
        0 <= k <= v.len(),
        forall|j: int| k <= j < v.len() ==> (#[trigger] v[j]).0@ != p,
    ensures
        index_map(v).contains_key(p) == index_map(v.take(k)).contains_key(p),
        index_map(v).contains_key(p) ==> index_map(v)[p] == index_map(v.take(k))[p],
    decreases v.len() - k,
{
    if v.len() == k {
        assert(v.take(k) =~= v);
    } else {
        let w = v.drop_last();
        assert(v[v.len() - 1].0@ != p);
        lemma_index_take(w, k, p);
        assert(w.take(k) =~= v.take(k));
    }
}

/// The owner of every node of a tree, and of the index from dotted paths to
/// node ids. Nodes are never removed; a node's id is its position.
pub struct StoreProto {
    store: Vec<GodsnodeProto>,
    index: Vec<(String, u64)>,
}

impl StoreProto {
    pub closed spec fn nodes(&self) -> Seq<GodsnodeProto> {
        self.store@
    }

    pub closed spec fn index_view(&self) -> Map<Seq<char>, u64> {
        index_map(self.index@)
    }

    /// In a well-formed store every node's id is its position.
    pub proof fn lemma_ids_are_positions(&self)
        requires
            self.wf(),
        ensures
            forall|i: int| 0 <= i < self.nodes().len() ==> (#[trigger] self.nodes()[i]).id == i,
    {
    }

    pub closed spec fn wf(&self) -> bool {
        &&& forall|i: int| 0 <= i < self.store@.len() ==> (#[trigger] self.store@[i]).id == i
    }

    /// An empty store.
    pub fn new() -> (r: StoreProto)
        ensures
            r.wf(),
            r.nodes() == Seq::<GodsnodeProto>::empty(),
            r.index_view() == Map::<Seq<char>, u64>::empty(),
            links_forward(r.nodes()),
            unique_parents(r.nodes()),
    {
        StoreProto { store: Vec::new(), index: Vec::new() }
    }

    pub fn len(&self) -> (r: usize)
        ensures
            r == self.nodes().len(),
    {
        self.store.len()
    }

    /// The node with the given id.
    pub fn node(&self, id: u64) -> (r: &GodsnodeProto)
        requires
            id < self.nodes().len(),
        ensures
            *r == self.nodes()[id as int],
    {
        let n = self.store.len();
        assert(id < n);
        &self.store[id as usize]
    }

    /// Allocates a node with the next id and default fields.
    pub fn new_node(&mut self) -> (r: u64)
        requires
            old(self).wf(),
        ensures
            final(self).wf(),
            r == old(self).nodes().len(),
            final(self).nodes().len() == old(self).nodes().len() + 1,
            final(self).nodes()[r as int].id == r,
            final(self).nodes().take(r as int) == old(self).nodes(),
            final(self).nodes()[r as int].name@ == Seq::<char>::empty(),
            final(self).nodes()[r as int].display_name@ == Seq::<char>::empty(),
            final(self).nodes()[r as int].node_type == GodsnodeType::Godsnode,
            final(self).nodes()[r as int].parents@ == Seq::<u64>::empty(),
            final(self).nodes()[r as int].children@ == Seq::<u64>::empty(),
            final(self).nodes()[r as int].app_meta_map@.len() == 0,
            final(self).index_view() == old(self).index_view(),
    {
        let mut node = GodsnodeProto::new();
        let id = self.store.len() as u64;
        node.id = id;
        self.store.push(node);
        assert(self.store@.take(id as int) =~= old(self).store@);
        id
    }

    /// Allocates a branch node named `name`, labelled from `raw`.
    pub fn add_node(&mut self, raw: &RawNode, name: String) -> (r: u64)
        requires
            old(self).wf(),
        ensures
            final(self).wf(),
            r == old(self).nodes().len(),
            final(self).nodes().len() == old(self).nodes().len() + 1,
            final(self).nodes()[r as int].id == r,
            final(self).nodes().take(r as int) == old(self).nodes(),
            final(self).nodes()[r as int].name@ == name@,
            final(self).nodes()[r as int].display_name@ == display_of(*raw),
            final(self).nodes()[r as int].node_type == GodsnodeType::Godsnode,
            final(self).nodes()[r as int].parents@ == Seq::<u64>::empty(),
            final(self).nodes()[r as int].children@ == Seq::<u64>::empty(),
            final(self).nodes()[r as int].app_meta_map@.len() == 0,
            final(self).index_view() == old(self).index_view(),
    {
        let id = self.new_node();
        let display = match &raw.display_name {
            Some(s) => s.clone(),
            None => String::from_str("new node"),
        };
        self.set_labels(id, name, display, GodsnodeType::Godsnode);
        id
    }

    /// Allocates a leaf node named `name`, labelled from `raw`.
    pub fn add_leaf_node(&mut self, name: &String, raw: &RawNode) -> (r: u64)
        requires
            old(self).wf(),
        ensures
            final(self).wf(),
            r == old(self).nodes().len(),
            final(self).nodes().len() == old(self).nodes().len() + 1,
            final(self).nodes()[r as int].id == r,
            final(self).nodes().take(r as int) == old(self).nodes(),
            final(self).nodes()[r as int].name@ == name@,
            final(self).nodes()[r as int].display_name@ == display_of(*raw),
            final(self).nodes()[r as int].node_type == GodsnodeType::Leaf,
            final(self).nodes()[r as int].parents@ == Seq::<u64>::empty(),
            final(self).nodes()[r as int].children@ == Seq::<u64>::empty(),
            final(self).nodes()[r as int].app_meta_map@.len() == 0,
            final(self).index_view() == old(self).index_view(),
    {
        let id = self.add_node(raw, name.clone());
        self.set_type(id, GodsnodeType::Leaf);
        id
    }

    /// Allocates the root node of a tree, named from `raw`.
    pub fn add_app_node(&mut self, raw: &RawNode) -> (r: u64)
        requires
            old(self).wf(),
        ensures
            final(self).wf(),
            r == old(self).nodes().len(),
            final(self).nodes().len() == old(self).nodes().len() + 1,
            final(self).nodes()[r as int].id == r,
            final(self).nodes().take(r as int) == old(self).nodes(),
            final(self).nodes()[r as int].name@ == app_name_field(*raw),
            final(self).nodes()[r as int].display_name@ == display_of(*raw),
            final(self).nodes()[r as int].node_type == GodsnodeType::Root,
            final(self).nodes()[r as int].parents@ == Seq::<u64>::empty(),
            final(self).nodes()[r as int].children@ == Seq::<u64>::empty(),
            final(self).nodes()[r as int].app_meta_map@.len() == 0,
            final(self).index_view() == old(self).index_view(),
    {
        let name = match &raw.name {
            Some(s) => s.clone(),
            None => String::from_str("new_application"),
        };
        let id = self.add_node(raw, name);
        self.set_type(id, GodsnodeType::Root);
        id
    }

    fn set_labels(&mut self, id: u64, name: String, display: String, t: GodsnodeType)
        requires
            old(self).wf(),
            id < old(self).nodes().len(),
        ensures
            final(self).wf(),
            final(self).nodes().len() == old(self).nodes().len(),
            forall|i: int| 0 <= i < old(self).nodes().len() && i != id ==>
                final(self).nodes()[i] == old(self).nodes()[i],
            final(self).nodes()[id as int] == (GodsnodeProto {
                name: name, display_name: display, node_type: t, ..old(self).nodes()[id as int]
            }),
            final(self).index_view() == old(self).index_view(),
    {
        let n = self.store.len();
        assert(id < n);
        self.store[id as usize].name = name;
        self.store[id as usize].display_name = display;
        self.store[id as usize].node_type = t;
    }

    fn set_type(&mut self, id: u64, t: GodsnodeType)
        requires
            old(self).wf(),
            id < old(self).nodes().len(),
        ensures
            final(self).wf(),
            final(self).nodes().len() == old(self).nodes().len(),
            forall|i: int| 0 <= i < old(self).nodes().len() && i != id ==>
                final(self).nodes()[i] == old(self).nodes()[i],
            final(self).nodes()[id as int] == (GodsnodeProto {
                node_type: t, ..old(self).nodes()[id as int]
            }),
            final(self).index_view() == old(self).index_view(),
    {
        let n = self.store.len();
        assert(id < n);
        self.store[id as usize].node_type = t;
    }

    /// Makes `child` the last child of `parent`, and `parent` the last parent
    /// of `child`.
    pub fn link(&mut self, parent: u64, child: u64)
        requires
            old(self).wf(),
            parent < child < old(self).nodes().len(),
        ensures
            final(self).wf(),
            final(self).nodes().len() == old(self).nodes().len(),
            forall|i: int| 0 <= i < old(self).nodes().len() && i != parent && i != child ==>
                final(self).nodes()[i] == old(self).nodes()[i],
            final(self).nodes()[parent as int] == (GodsnodeProto {
                children: final(self).nodes()[parent as int].children,
                ..old(self).nodes()[parent as int]
            }),
            final(self).nodes()[parent as int].children@ == old(self).nodes()[parent as int].children@.push(child),
            final(self).nodes()[child as int] == (GodsnodeProto {
                parents: final(self).nodes()[child as int].parents,
                ..old(self).nodes()[child as int]
            }),
            final(self).nodes()[child as int].parents@ == old(self).nodes()[child as int].parents@.push(parent),
            final(self).index_view() == old(self).index_view(),
            forall|x: u64| #[trigger] in_children(final(self).nodes(), x) == (in_children(old(self).nodes(), x) || x == child),
            unique_parents(old(self).nodes()) && !in_children(old(self).nodes(), child)
                ==> unique_parents(final(self).nodes()),
            children_extend(old(self).nodes(), final(self).nodes()),
    {
        let n = self.store.len();
        assert(child < n);
        self.store[parent as usize].add_child(child);
        self.store[child as usize].add_parent(parent);
        proof {
            let o = old(self).nodes();
            let f = self.nodes();
            let pi = parent as int;
            assert forall|q: int| 0 <= q < o.len() implies (#[trigger] f[q]).children@.take(o[q].children@.len() as int) == o[q].children@
                && o[q].children@.len() <= f[q].children@.len() by {
                assert(f[q].children@.take(o[q].children@.len() as int) =~= o[q].children@);
            }
            assert forall|x: u64| #[trigger] in_children(f, x) == (in_children(o, x) || x == child) by {
                if in_children(f, x) {
                    let (q, k) = choose|q: int, k: int| 0 <= q < f.len() && 0 <= k < f[q].children@.len()
                        && #[trigger] f[q].children@[k] == x;
                    if q == pi && k == o[pi].children@.len() {
                    } else {
                        assert(o[q].children@[k] == x);
                    }
                }
                if in_children(o, x) {
                    let (q, k) = choose|q: int, k: int| 0 <= q < o.len() && 0 <= k < o[q].children@.len()
                        && #[trigger] o[q].children@[k] == x;
                    assert(f[q].children@[k] == x);
                }
                if x == child {
                    assert(f[pi].children@[o[pi].children@.len() as int] == x);
                }
            }
            if unique_parents(o) && !in_children(o, child) {
                assert forall|q1: int, k1: int, q2: int, k2: int|
                    0 <= q1 < f.len() && 0 <= k1 < f[q1].children@.len()
                    && 0 <= q2 < f.len() && 0 <= k2 < f[q2].children@.len()
                    && #[trigger] f[q1].children@[k1] == #[trigger] f[q2].children@[k2]
                    implies q1 == q2 && k1 == k2 by {
                    let n = o[pi].children@.len() as int;
                    let new1 = q1 == pi && k1 == n;
                    let new2 = q2 == pi && k2 == n;
                    if !new1 {
                        assert(f[q1].children@[k1] == o[q1].children@[k1]);
                    }
                    if !new2 {
                        assert(f[q2].children@[k2] == o[q2].children@[k2]);
                    }
                }
            }
        }
    }

    /// Records `path` as the metadata of node `id` for application `app`.
    pub fn set_meta(&mut self, id: u64, app: &String, path: GodsnodePath)
        requires
            old(self).wf(),
            id < old(self).nodes().len(),
        ensures
            final(self).wf(),
            final(self).nodes().len() == old(self).nodes().len(),
            forall|i: int| 0 <= i < old(self).nodes().len() && i != id ==>
                final(self).nodes()[i] == old(self).nodes()[i],
            final(self).nodes()[id as int] == (GodsnodeProto {
                app_meta_map: final(self).nodes()[id as int].app_meta_map,
                ..old(self).nodes()[id as int]
            }),
            final(self).nodes()[id as int].meta_view() == old(self).nodes()[id as int].meta_view().insert(
                app@, (path.path_view(), path.depth_view())),
            final(self).index_view() == old(self).index_view(),
    {
        let n = self.store.len();
        assert(id < n);
        let ghost m0 = self.store@[id as int].app_meta_map@;
        self.store[id as usize].app_meta_map.push((app.clone(), GodswoodMeta { path }));
        assert(self.store@[id as int].app_meta_map@.drop_last() == m0);
    }

    /// Records that `path` names node `index`; a later record for the same
    /// path replaces this one.
    pub fn update_index(&mut self, name: &String, index: u64)
        ensures
            final(self).index_view() == old(self).index_view().insert(name@, index),
            final(self).nodes() == old(self).nodes(),
            final(self).wf() == old(self).wf(),
    {
        self.index.push((name.clone(), index));
        assert(self.index@.drop_last() == old(self).index@);
    }

    /// The node that `path` names, if the index holds `path` and the node
    /// it records exists.
    pub fn get_weak_node(&self, path: &String) -> (r: Option<u64>)
        requires
            self.wf(),
        ensures
            r == (if self.index_view().contains_key(path@)
                && self.index_view()[path@] < self.nodes().len() {
                Some(self.index_view()[path@])
            } else {
                None
            }),
    {
        let mut k: usize = self.index.len();
        while k > 0
            invariant
                k <= self.index@.len(),
                forall|j: int| k <= j < self.index@.len() ==> (#[trigger] self.index@[j]).0@ != path@,
            decreases k,
        {
            let entry = &self.index[k - 1];
            if entry.0 == *path {
                proof {
                    lemma_index_take(self.index@, k as int, path@);
                    assert(self.index@.take(k as int).last() == self.index@[k - 1]);
                }
                let id = entry.1;
                if id < self.store.len() as u64 {
                    return Some(id);
                } else {
                    return None;
                }
            }
            k = k - 1;
        }
        proof {
            lemma_index_take(self.index@, 0, path@);
            assert(self.index@.take(0) =~= Seq::<(String, u64)>::empty());
        }
        None
    }
}

} // verus!
