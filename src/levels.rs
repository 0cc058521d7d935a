use vstd::prelude::*;
use crate::node::{GodsnodeProto, dot};
use crate::store::{links_forward, in_children, unique_parents};

verus! {

/// A node reached by the breadth-first walk: its id, its dotted path and its
/// depth.
pub type Entry = (u64, Seq<char>, nat);

/// The entries of the children of the node that `e` stands for, in order.
pub open spec fn child_entries(nodes: Seq<GodsnodeProto>, e: Entry) -> Seq<Entry> {
    nodes[e.0 as int].children@.map_values(
        |c: u64| (c, e.1 + dot() + nodes[c as int].name@, e.2 + 1),
    )
}

/// The next level of the walk: the children of every entry of `lvl`, in
/// the order of `lvl`.
pub open spec fn expand(nodes: Seq<GodsnodeProto>, lvl: Seq<Entry>) -> Seq<Entry>
    decreases lvl.len(),
{
    if lvl.len() == 0 {
        Seq::empty()
    } else {
        expand(nodes, lvl.drop_last()) + child_entries(nodes, lvl.last())
    }
}

/// The entry of the root: path `.name`, depth 1.
pub open spec fn root_entry(nodes: Seq<GodsnodeProto>, root: u64) -> Entry {
    (root, dot() + nodes[root as int].name@, 1)
}

/// The entries at depth `d` (depth 1 is the root alone).
pub open spec fn level(nodes: Seq<GodsnodeProto>, root: u64, d: nat) -> Seq<Entry>
    decreases d,
{
    if d <= 1 {
        seq![root_entry(nodes, root)]
    } else {
        expand(nodes, level(nodes, root, (d - 1) as nat))
    }
}

/// The entries of depths 1 to `d`, level after level.
pub open spec fn levels_upto(nodes: Seq<GodsnodeProto>, root: u64, d: nat) -> Seq<Entry>
    decreases d,
{
    if d == 0 {
        Seq::empty()
    } else {
        levels_upto(nodes, root, (d - 1) as nat) + level(nodes, root, d)
    }
}

/// The ids of a level.
pub open spec fn ids(lvl: Seq<Entry>) -> Seq<u64> {
    lvl.map_values(|e: Entry| e.0)
}

/// The path index after recording every entry of `es` in order.
pub open spec fn index_fold(m: Map<Seq<char>, u64>, es: Seq<Entry>) -> Map<Seq<char>, u64>
    decreases es.len(),
{
    if es.len() == 0 {
        m
    } else {
        index_fold(m, es.drop_last()).insert(es.last().1, es.last().0)
    }
}

/// The metadata of node `id` after recording, for application `app`, every
/// entry of `es` that stands for that node.
pub open spec fn meta_fold(
    m: Map<Seq<char>, (Seq<char>, nat)>,
    id: u64,
    app: Seq<char>,
    es: Seq<Entry>,
) -> Map<Seq<char>, (Seq<char>, nat)>
    decreases es.len(),
{
    if es.len() == 0 {
        m
    } else {
        let prev = meta_fold(m, id, app, es.drop_last());
        if es.last().0 == id {
            prev.insert(app, (es.last().1, es.last().2))
        } else {
            prev
        }
    }
}

pub proof fn lemma_expand_take(nodes: Seq<GodsnodeProto>, lvl: Seq<Entry>, i: int)
    requires
        0 <= i < lvl.len(),
    ensures
        expand(nodes, lvl.take(i + 1)) == expand(nodes, lvl.take(i)) + child_entries(nodes, lvl[i]),
{
    assert(lvl.take(i + 1).drop_last() =~= lvl.take(i));
}

pub proof fn lemma_index_fold_push(m: Map<Seq<char>, u64>, es: Seq<Entry>, e: Entry)
    ensures
        index_fold(m, es.push(e)) == index_fold(m, es).insert(e.1, e.0),
{
    assert(es.push(e).drop_last() =~= es);
}

pub proof fn lemma_meta_fold_push(
    m: Map<Seq<char>, (Seq<char>, nat)>,
    id: u64,
    app: Seq<char>,
    es: Seq<Entry>,
    e: Entry,
)
    ensures
        meta_fold(m, id, app, es.push(e)) == (if e.0 == id {
            meta_fold(m, id, app, es).insert(app, (e.1, e.2))
        } else {
            meta_fold(m, id, app, es)
        }),
{
    assert(es.push(e).drop_last() =~= es);
}

/// Every entry of `expand(lvl)` is a child of an entry of `lvl`, one level
/// deeper, with a later id.
pub proof fn lemma_expand_bounds(nodes: Seq<GodsnodeProto>, lvl: Seq<Entry>, lo: int, d: nat)
    requires
        links_forward(nodes),
        forall|k: int| 0 <= k < lvl.len() ==> lo <= (#[trigger] lvl[k]).0 < nodes.len() && lvl[k].2 == d,
    ensures
        forall|k: int| 0 <= k < expand(nodes, lvl).len() ==>
            lo + 1 <= (#[trigger] expand(nodes, lvl)[k]).0 < nodes.len() && expand(nodes, lvl)[k].2 == d + 1,
    decreases lvl.len(),
{
    if lvl.len() > 0 {
        let w = lvl.drop_last();
        lemma_expand_bounds(nodes, w, lo, d);
        let e = lvl.last();
        let ce = child_entries(nodes, e);
        assert forall|k: int| 0 <= k < ce.len() implies lo + 1 <= (#[trigger] ce[k]).0 < nodes.len()
            && ce[k].2 == d + 1 by {
            assert(e.0 < nodes[e.0 as int].children@[k] < nodes.len());
        }
        let x = expand(nodes, lvl);
        assert forall|k: int| 0 <= k < x.len() implies lo + 1 <= (#[trigger] x[k]).0 < nodes.len()
            && x[k].2 == d + 1 by {
            if k >= expand(nodes, w).len() {
                assert(x[k] == ce[k - expand(nodes, w).len()]);
            }
        }
    }
}

/// The entries at depth `d` carry depth `d`, and their ids lie between
/// `root + d - 1` and the number of nodes.
pub proof fn lemma_level_bounds(nodes: Seq<GodsnodeProto>, root: u64, d: nat)
    requires
        links_forward(nodes),
        root < nodes.len(),
        d >= 1,
    ensures
        forall|k: int| 0 <= k < level(nodes, root, d).len() ==>
            root + d - 1 <= (#[trigger] level(nodes, root, d)[k]).0 < nodes.len()
            && level(nodes, root, d)[k].2 == d,
    decreases d,
{
    if d > 1 {
        lemma_level_bounds(nodes, root, (d - 1) as nat);
        lemma_expand_bounds(nodes, level(nodes, root, (d - 1) as nat), root + d - 2, (d - 1) as nat);
    }
}

/// How many times `x` occurs in `s`.
pub open spec fn count_of(x: u64, s: Seq<u64>) -> nat
    decreases s.len(),
{
    if s.len() == 0 {
        0
    } else {
        count_of(x, s.drop_last()) + if s.last() == x { 1nat } else { 0nat }
    }
}

/// How many elements of `s` fall in `lo..hi`, counted value by value.
pub open spec fn range_count(s: Seq<u64>, lo: int, hi: int) -> nat
    decreases hi - lo,
{
    if hi <= lo {
        0
    } else {
        range_count(s, lo, hi - 1) + count_of((hi - 1) as u64, s)
    }
}

proof fn lemma_count_push(x: u64, s: Seq<u64>, y: u64)
    ensures
        count_of(x, s.push(y)) == count_of(x, s) + if y == x { 1nat } else { 0nat },
{
    assert(s.push(y).drop_last() =~= s);
}

proof fn lemma_range_count_empty(lo: int, hi: int)
    ensures
        range_count(Seq::<u64>::empty(), lo, hi) == 0,
    decreases hi - lo,
{
    if hi > lo {
        lemma_range_count_empty(lo, hi - 1);
    }
}

proof fn lemma_range_count_push(s: Seq<u64>, y: u64, lo: int, hi: int)
    requires
        0 <= lo,
        hi <= u64::MAX + 1,
    ensures
        range_count(s.push(y), lo, hi) == range_count(s, lo, hi) + if lo <= y < hi { 1nat } else { 0nat },
    decreases hi - lo,
{
    if hi > lo {
        lemma_range_count_push(s, y, lo, hi - 1);
        lemma_count_push((hi - 1) as u64, s, y);
    }
}

/// A sequence whose elements all lie in `lo..hi` is as long as its
/// per-value counts over `lo..hi` add up to.
proof fn lemma_len_by_counts(s: Seq<u64>, lo: int, hi: int)
    requires
        0 <= lo,
        hi <= u64::MAX + 1,
        forall|k: int| 0 <= k < s.len() ==> lo <= #[trigger] s[k] < hi,
    ensures
        s.len() == range_count(s, lo, hi),
    decreases s.len(),
{
    if s.len() == 0 {
        lemma_range_count_empty(lo, hi);
        assert(s =~= Seq::<u64>::empty());
    } else {
        let w = s.drop_last();
        assert forall|k: int| 0 <= k < w.len() implies lo <= #[trigger] w[k] < hi by {
            assert(w[k] == s[k]);
        }
        lemma_len_by_counts(w, lo, hi);
        assert(w.push(s.last()) =~= s);
        lemma_range_count_push(w, s.last(), lo, hi);
        assert(s.last() == s[s.len() - 1]);
    }
}

proof fn lemma_range_count_ones(s: Seq<u64>, lo: int, hi: int)
    requires
        0 <= lo <= hi <= u64::MAX + 1,
        forall|x: u64| lo <= x < hi ==> #[trigger] count_of(x, s) == 1,
    ensures
        range_count(s, lo, hi) == hi - lo,
    decreases hi - lo,
{
    if hi > lo {
        lemma_range_count_ones(s, lo, hi - 1);
        assert(count_of((hi - 1) as u64, s) == 1);
    }
}

proof fn lemma_count_member(s: Seq<u64>, k: int)
    requires
        0 <= k < s.len(),
    ensures
        count_of(s[k], s) >= 1,
    decreases s.len(),
{
    let w = s.drop_last();
    if k < s.len() - 1 {
        assert(w[k] == s[k]);
        lemma_count_member(w, k);
    }
}

/// A sequence holding each value of `lo..hi` once and no other value has
/// `hi - lo` elements.
pub proof fn lemma_len_of_exact_counts(s: Seq<u64>, lo: int, hi: int)
    requires
        0 <= lo <= hi <= u64::MAX + 1,
        forall|x: u64| #[trigger] count_of(x, s) == if lo <= x < hi { 1nat } else { 0nat },
    ensures
        s.len() == hi - lo,
{
    assert forall|k: int| 0 <= k < s.len() implies lo <= #[trigger] s[k] < hi by {
        lemma_count_member(s, k);
        assert(count_of(s[k], s) == if lo <= s[k] < hi { 1nat } else { 0nat });
    }
    lemma_len_by_counts(s, lo, hi);
    assert forall|x: u64| lo <= x < hi implies #[trigger] count_of(x, s) == 1 by {
        assert(count_of(x, s) == if lo <= x < hi { 1nat } else { 0nat });
    }
    lemma_range_count_ones(s, lo, hi);
}

/// The rows of a table, one after the other.
pub open spec fn flatten_rows(t: Seq<Seq<u64>>) -> Seq<u64>
    decreases t.len(),
{
    if t.len() == 0 {
        Seq::empty()
    } else {
        flatten_rows(t.drop_last()) + t.last()
    }
}

/// The children of every node of `s`, in the order of `s`.
pub open spec fn kids_of(nodes: Seq<GodsnodeProto>, s: Seq<u64>) -> Seq<u64>
    decreases s.len(),
{
    if s.len() == 0 {
        Seq::empty()
    } else {
        kids_of(nodes, s.drop_last()) + nodes[s.last() as int].children@
    }
}

/// Node `q` lists `x` among its children.
pub open spec fn is_parent(nodes: Seq<GodsnodeProto>, q: int, x: u64) -> bool {
    exists|k: int| 0 <= q < nodes.len() && 0 <= k < nodes[q].children@.len()
        && #[trigger] nodes[q].children@[k] == x
}

/// The node that lists `x` among its children.
pub open spec fn parent_of(nodes: Seq<GodsnodeProto>, x: u64) -> int {
    choose|q: int| #[trigger] is_parent(nodes, q, x)
}

proof fn lemma_parent_of(nodes: Seq<GodsnodeProto>, x: u64)
    requires
        in_children(nodes, x),
    ensures
        is_parent(nodes, parent_of(nodes, x), x),
{
    let (q, k) = choose|q: int, k: int| 0 <= q < nodes.len() && 0 <= k < nodes[q].children@.len()
        && #[trigger] nodes[q].children@[k] == x;
    assert(is_parent(nodes, q, x));
}

/// The depth of `x` below `r` along parent links (`r` has depth 1), or 0
/// when `x` is not below `r`.
pub open spec fn depth_of(nodes: Seq<GodsnodeProto>, r: u64, x: u64) -> nat
    decreases x,
{
    if x == r {
        1
    } else if in_children(nodes, x) && 0 <= parent_of(nodes, x) < x
        && depth_of(nodes, r, parent_of(nodes, x) as u64) > 0 {
        depth_of(nodes, r, parent_of(nodes, x) as u64) + 1
    } else {
        0
    }
}

proof fn lemma_count_concat(x: u64, a: Seq<u64>, b: Seq<u64>)
    ensures
        count_of(x, a + b) == count_of(x, a) + count_of(x, b),
    decreases b.len(),
{
    if b.len() == 0 {
        assert(a + b =~= a);
    } else {
        assert((a + b).drop_last() =~= a + b.drop_last());
        lemma_count_concat(x, a, b.drop_last());
    }
}

proof fn lemma_count_at_most(x: u64, s: Seq<u64>, i: int)
    requires
        forall|k: int| 0 <= k < s.len() && k != i ==> s[k] != x,
    ensures
        count_of(x, s) == if 0 <= i < s.len() && s[i] == x { 1nat } else { 0nat },
    decreases s.len(),
{
    if s.len() > 0 {
        let w = s.drop_last();
        assert forall|k: int| 0 <= k < w.len() && k != i implies w[k] != x by {
            assert(w[k] == s[k]);
        }
        lemma_count_at_most(x, w, i);
        if 0 <= i < w.len() {
            assert(w[i] == s[i]);
        }
    }
}

proof fn lemma_ids_concat(a: Seq<Entry>, b: Seq<Entry>)
    ensures
        ids(a + b) == ids(a) + ids(b),
{
    assert(ids(a + b) =~= ids(a) + ids(b));
}

proof fn lemma_ids_expand(nodes: Seq<GodsnodeProto>, lvl: Seq<Entry>)
    ensures
        ids(expand(nodes, lvl)) == kids_of(nodes, ids(lvl)),
    decreases lvl.len(),
{
    if lvl.len() == 0 {
        assert(ids(expand(nodes, lvl)) =~= Seq::<u64>::empty());
    } else {
        lemma_ids_expand(nodes, lvl.drop_last());
        lemma_ids_concat(expand(nodes, lvl.drop_last()), child_entries(nodes, lvl.last()));
        assert(ids(lvl).drop_last() =~= ids(lvl.drop_last()));
        assert(ids(child_entries(nodes, lvl.last())) =~= nodes[lvl.last().0 as int].children@);
    }
}

proof fn lemma_count_kids(nodes: Seq<GodsnodeProto>, s: Seq<u64>, x: u64)
    requires
        links_forward(nodes),
        unique_parents(nodes),
        forall|k: int| 0 <= k < s.len() ==> (#[trigger] s[k]) < nodes.len(),
    ensures
        count_of(x, kids_of(nodes, s)) == if in_children(nodes, x) {
            count_of(parent_of(nodes, x) as u64, s)
        } else {
            0
        },
    decreases s.len(),
{
    if s.len() > 0 {
        let w = s.drop_last();
        let y = s.last();
        assert forall|k: int| 0 <= k < w.len() implies (#[trigger] w[k]) < nodes.len() by {
            assert(w[k] == s[k]);
        }
        lemma_count_kids(nodes, w, x);
        lemma_count_concat(x, kids_of(nodes, w), nodes[y as int].children@);
        let cy = nodes[y as int].children@;
        assert(y == s[s.len() - 1]);
        if in_children(nodes, x) {
            lemma_parent_of(nodes, x);
            let p = parent_of(nodes, x);
            let k0 = choose|k: int| 0 <= p < nodes.len() && 0 <= k < nodes[p].children@.len()
                && #[trigger] nodes[p].children@[k] == x;
            assert(p < nodes[p].children@[k0]);
            assert(count_of(p as u64, s) == count_of(p as u64, w) + if y == p as u64 { 1nat } else { 0nat });
            if y as int == p {
                assert forall|k: int| 0 <= k < cy.len() && k != k0 implies cy[k] != x by {
                    if cy[k] == x {
                        assert(nodes[p].children@[k] == nodes[p].children@[k0]);
                    }
                }
                lemma_count_at_most(x, cy, k0);
            } else {
                assert forall|k: int| 0 <= k < cy.len() && k != -1 implies cy[k] != x by {
                    if cy[k] == x {
                        assert(nodes[y as int].children@[k] == nodes[p].children@[k0]);
                    }
                }
                lemma_count_at_most(x, cy, -1);
            }
        } else {
            assert forall|k: int| 0 <= k < cy.len() && k != -1 implies cy[k] != x by {
                if cy[k] == x {
                    assert(nodes[y as int].children@[k] == x);
                }
            }
            lemma_count_at_most(x, cy, -1);
        }
    }
}

/// In a store where parents are unique and `r` is nobody's child, the
/// walk finds each node once, at the depth its parent chain gives it.
proof fn lemma_level_count(nodes: Seq<GodsnodeProto>, r: u64, d: nat, x: u64)
    requires
        links_forward(nodes),
        unique_parents(nodes),
        r < nodes.len(),
        !in_children(nodes, r),
        d >= 1,
    ensures
        count_of(x, ids(level(nodes, r, d))) == if depth_of(nodes, r, x) == d { 1nat } else { 0nat },
    decreases d,
{
    if d == 1 {
        assert(ids(level(nodes, r, 1)) =~= seq![r]);
        assert(seq![r].drop_last() =~= Seq::<u64>::empty());
        assert(count_of(x, Seq::<u64>::empty()) == 0);
        assert(count_of(x, seq![r]) == if r == x { 1nat } else { 0nat });
        if x != r && depth_of(nodes, r, x) > 0 {
            assert(depth_of(nodes, r, x) >= 2);
        }
    } else {
        let dm = (d - 1) as nat;
        let prev = level(nodes, r, dm);
        lemma_level_bounds(nodes, r, dm);
        lemma_ids_expand(nodes, prev);
        assert forall|k: int| 0 <= k < ids(prev).len() implies (#[trigger] ids(prev)[k]) < nodes.len() by {
            assert(ids(prev)[k] == prev[k].0);
        }
        lemma_count_kids(nodes, ids(prev), x);
        assert(level(nodes, r, d) == expand(nodes, prev));
        if in_children(nodes, x) {
            lemma_parent_of(nodes, x);
            let p = parent_of(nodes, x);
            let k0 = choose|k: int| 0 <= p < nodes.len() && 0 <= k < nodes[p].children@.len()
                && #[trigger] nodes[p].children@[k] == x;
            assert(p < nodes[p].children@[k0]);
            lemma_level_count(nodes, r, dm, p as u64);
            if x != r {
                assert(depth_of(nodes, r, x) == if depth_of(nodes, r, p as u64) > 0 {
                    depth_of(nodes, r, p as u64) + 1
                } else {
                    0
                });
            }
        } else {
            assert(x != r ==> depth_of(nodes, r, x) == 0);
        }
    }
}

proof fn lemma_upto_count(nodes: Seq<GodsnodeProto>, r: u64, d: nat, x: u64)
    requires
        links_forward(nodes),
        unique_parents(nodes),
        r < nodes.len(),
        !in_children(nodes, r),
    ensures
        count_of(x, ids(levels_upto(nodes, r, d))) == if 1 <= depth_of(nodes, r, x) <= d { 1nat } else { 0nat },
    decreases d,
{
    if d == 0 {
        assert(ids(levels_upto(nodes, r, 0)) =~= Seq::<u64>::empty());
    } else {
        let dm = (d - 1) as nat;
        lemma_upto_count(nodes, r, dm, x);
        lemma_ids_concat(levels_upto(nodes, r, dm), level(nodes, r, d));
        lemma_count_concat(x, ids(levels_upto(nodes, r, dm)), ids(level(nodes, r, d)));
        lemma_level_count(nodes, r, d, x);
    }
}

proof fn lemma_levels_end(nodes: Seq<GodsnodeProto>, r: u64, d: nat, e: nat)
    requires
        level(nodes, r, d).len() == 0,
        d >= 1,
        e >= d,
    ensures
        level(nodes, r, e).len() == 0,
    decreases e,
{
    if e > d {
        lemma_levels_end(nodes, r, d, (e - 1) as nat);
        assert(level(nodes, r, (e - 1) as nat) =~= Seq::<Entry>::empty());
    }
}

/// Every node from `r` to the end of the store, and no other, lies below `r`,
/// when each of those later nodes is a child of `r` or of a node between `r`
/// and itself.
proof fn lemma_depth_reach(nodes: Seq<GodsnodeProto>, r: u64, x: u64)
    requires
        links_forward(nodes),
        unique_parents(nodes),
        r < nodes.len(),
        forall|y: u64| r < y < nodes.len() ==> #[trigger] crate::store::linked_below(nodes, r, r + 1, y),
    ensures
        depth_of(nodes, r, x) >= 1 <==> r <= x < nodes.len(),
    decreases x,
{
    if x != r {
        if in_children(nodes, x) {
            lemma_parent_of(nodes, x);
            let p = parent_of(nodes, x);
            let k0 = choose|k: int| 0 <= p < nodes.len() && 0 <= k < nodes[p].children@.len()
                && #[trigger] nodes[p].children@[k] == x;
            assert(p < nodes[p].children@[k0] < nodes.len());
            lemma_depth_reach(nodes, r, p as u64);
            if r < x < nodes.len() {
                assert(crate::store::linked_below(nodes, r, r + 1, x));
                let (q, k) = choose|q: int, k: int| (q == r || r + 1 <= q < x) && 0 <= q < nodes.len()
                    && 0 <= k < nodes[q].children@.len() && #[trigger] nodes[q].children@[k] == x;
                assert(nodes[q].children@[k] == nodes[p].children@[k0]);
            }
        } else if r < x < nodes.len() {
            assert(crate::store::linked_below(nodes, r, r + 1, x));
            let (q, k) = choose|q: int, k: int| (q == r || r + 1 <= q < x) && 0 <= q < nodes.len()
                && 0 <= k < nodes[q].children@.len() && #[trigger] nodes[q].children@[k] == x;
            assert(nodes[q].children@[k] == x);
        }
    }
}

/// The walk from a tree's root lists every node from the root to the end of
/// the store exactly once, and no other node.
pub proof fn lemma_levels_list_tree_once(nodes: Seq<GodsnodeProto>, r: u64, d: nat, x: u64)
    requires
        links_forward(nodes),
        unique_parents(nodes),
        r < nodes.len(),
        !in_children(nodes, r),
        forall|y: u64| r < y < nodes.len() ==> #[trigger] crate::store::linked_below(nodes, r, r + 1, y),
        d >= 1,
        level(nodes, r, d + 1).len() == 0,
    ensures
        count_of(x, ids(levels_upto(nodes, r, d))) == if r <= x < nodes.len() { 1nat } else { 0nat },
{
    lemma_upto_count(nodes, r, d, x);
    lemma_depth_reach(nodes, r, x);
    let e = depth_of(nodes, r, x);
    if e > d {
        lemma_levels_end(nodes, r, d + 1, e);
        lemma_level_count(nodes, r, e, x);
    }
}

pub proof fn lemma_flatten_levels(nodes: Seq<GodsnodeProto>, r: u64, t: Seq<Seq<u64>>)
    requires
        forall|k: int| 0 <= k < t.len() ==> #[trigger] t[k] == ids(level(nodes, r, (k + 1) as nat)),
    ensures
        flatten_rows(t) == ids(levels_upto(nodes, r, t.len())),
    decreases t.len(),
{
    if t.len() == 0 {
        assert(ids(levels_upto(nodes, r, 0)) =~= Seq::<u64>::empty());
    } else {
        let w = t.drop_last();
        assert forall|k: int| 0 <= k < w.len() implies #[trigger] w[k] == ids(level(nodes, r, (k + 1) as nat)) by {
            assert(w[k] == t[k]);
        }
        lemma_flatten_levels(nodes, r, w);
        assert(t.last() == t[t.len() - 1]);
        lemma_ids_concat(levels_upto(nodes, r, w.len()), level(nodes, r, t.len()));
    }
}

/// Each entry of the next level is a child of an entry of `lvl`: it sits one
/// level deeper, and its path is the parent's path, a dot and its own name.
pub proof fn lemma_expand_parent(nodes: Seq<GodsnodeProto>, lvl: Seq<Entry>, k: int)
    requires
        0 <= k < expand(nodes, lvl).len(),
    ensures
        exists|j: int, m: int| 0 <= j < lvl.len() && 0 <= m < nodes[lvl[j].0 as int].children@.len()
            && #[trigger] nodes[lvl[j].0 as int].children@[m] == expand(nodes, lvl)[k].0
            && expand(nodes, lvl)[k].2 == lvl[j].2 + 1
            && expand(nodes, lvl)[k].1 == lvl[j].1 + dot() + nodes[expand(nodes, lvl)[k].0 as int].name@,
    decreases lvl.len(),
{
    let w = lvl.drop_last();
    let x = expand(nodes, lvl);
    if k < expand(nodes, w).len() {
        lemma_expand_parent(nodes, w, k);
        let (j, m) = choose|j: int, m: int| 0 <= j < w.len() && 0 <= m < nodes[w[j].0 as int].children@.len()
            && #[trigger] nodes[w[j].0 as int].children@[m] == expand(nodes, w)[k].0
            && expand(nodes, w)[k].2 == w[j].2 + 1
            && expand(nodes, w)[k].1 == w[j].1 + dot() + nodes[expand(nodes, w)[k].0 as int].name@;
        assert(x[k] == expand(nodes, w)[k]);
        assert(w[j] == lvl[j]);
    } else {
        let m = k - expand(nodes, w).len();
        assert(x[k] == child_entries(nodes, lvl.last())[m]);
        assert(lvl.last() == lvl[lvl.len() - 1]);
        assert(nodes[lvl[lvl.len() - 1].0 as int].children@[m] == x[k].0);
    }
}

/// The root is at depth 1; every node found at depth `d + 1` is a child of
/// a node found at depth `d`, and its recorded depth is that node's plus one.
pub proof fn lemma_depth_of_child(nodes: Seq<GodsnodeProto>, root: u64, d: nat, k: int)
    requires
        d >= 1,
        0 <= k < level(nodes, root, d + 1).len(),
    ensures
        level(nodes, root, 1) == seq![(root, dot() + nodes[root as int].name@, 1nat)],
        exists|j: int, m: int| 0 <= j < level(nodes, root, d).len()
            && 0 <= m < nodes[level(nodes, root, d)[j].0 as int].children@.len()
            && #[trigger] nodes[level(nodes, root, d)[j].0 as int].children@[m] == level(nodes, root, d + 1)[k].0
            && level(nodes, root, d + 1)[k].2 == level(nodes, root, d)[j].2 + 1,
{
    lemma_expand_parent(nodes, level(nodes, root, d), k);
}

/// After recording `es`, the index holds `p` exactly when it held it before
/// or some entry carries path `p`.
pub proof fn lemma_index_fold_keys(m: Map<Seq<char>, u64>, es: Seq<Entry>, p: Seq<char>)
    ensures
        index_fold(m, es).contains_key(p) <==> (m.contains_key(p) || exists|k: int| 0 <= k < es.len() && (#[trigger] es[k]).1 == p),
    decreases es.len(),
{
    if es.len() > 0 {
        let w = es.drop_last();
        lemma_index_fold_keys(m, w, p);
        if exists|k: int| 0 <= k < es.len() && (#[trigger] es[k]).1 == p {
            let k = choose|k: int| 0 <= k < es.len() && (#[trigger] es[k]).1 == p;
            if k < w.len() {
                assert(w[k] == es[k]);
            }
        }
        if exists|k: int| 0 <= k < w.len() && (#[trigger] w[k]).1 == p {
            let k = choose|k: int| 0 <= k < w.len() && (#[trigger] w[k]).1 == p;
            assert(es[k] == w[k]);
        }
    }
}

/// After recording `es`, the index maps the path of entry `k` to that
/// entry's node, when no later entry carries the same path.
pub proof fn lemma_index_fold_last(m: Map<Seq<char>, u64>, es: Seq<Entry>, k: int)
    requires
        0 <= k < es.len(),
        forall|i: int| k < i < es.len() ==> (#[trigger] es[i]).1 != es[k].1,
    ensures
        index_fold(m, es).contains_key(es[k].1),
        index_fold(m, es)[es[k].1] == es[k].0,
    decreases es.len(),
{
    let w = es.drop_last();
    if k < es.len() - 1 {
        assert(es[es.len() - 1].1 != es[k].1);
        assert forall|i: int| k < i < w.len() implies (#[trigger] w[i]).1 != w[k].1 by {
            assert(w[i] == es[i]);
        }
        lemma_index_fold_last(m, w, k);
        assert(w[k] == es[k]);
    }
}

} // verus!
