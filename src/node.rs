use vstd::prelude::*;
use vstd::string::*;

verus! {

/// The role a node plays in its tree.
#[derive(PartialEq, Eq, Structural, Clone, Copy, Debug)]
pub enum GodsnodeType {
    Root,
    Godsnode,
    Leaf,
}

/// The service class of a node; only one class exists so far.
#[derive(PartialEq, Eq, Structural, Clone, Copy, Debug)]
pub enum GodsnodeClass {
    General,
}

/// A dotted path (".app.a.b") together with the number of segments in it.
#[derive(Clone, Debug)]
pub struct GodsnodePath {
    path: String,
    depth: usize,
}

/// The separator placed before every path segment.
pub open spec fn dot() -> Seq<char> {
    seq!['.']
}

impl GodsnodePath {
    pub closed spec fn path_view(&self) -> Seq<char> {
        self.path@
    }

    pub closed spec fn depth_view(&self) -> nat {
        self.depth as nat
    }

    /// The empty path, of depth 0.
    pub fn new_path() -> (r: GodsnodePath)
        ensures
            r.path_view() == Seq::<char>::empty(),
            r.depth_view() == 0,
    {
        GodsnodePath { path: String::new(), depth: 0 }
    }

    /// Appends `.name` to the path and counts one more level.
    pub fn append(&mut self, name: &String)
        requires
            old(self).depth_view() < usize::MAX,
        ensures
            final(self).path_view() == old(self).path_view() + dot() + name@,
            final(self).depth_view() == old(self).depth_view() + 1,
    {
        self.path.append(".");
        self.path.append(name.as_str());
        self.depth = self.depth + 1;
        proof {
            reveal_strlit(".");
            assert("."@ == dot());
        }
    }

    /// A path made of the given text, at depth 1.
    pub fn new(root: String) -> (r: GodsnodePath)
        ensures
            r.path_view() == root@,
            r.depth_view() == 1,
    {
        GodsnodePath { path: root, depth: 1 }
    }

    /// A copy of this path.
    pub fn duplicate(&self) -> (r: GodsnodePath)
        ensures
            r.path_view() == self.path_view(),
            r.depth_view() == self.depth_view(),
    {
        GodsnodePath { path: self.path.clone(), depth: self.depth }
    }

    pub fn read(&self) -> (r: String)
        ensures
            r@ == self.path_view(),
    {
        self.path.clone()
    }

    pub fn read_depth(&self) -> (r: usize)
        ensures
            r as nat == self.depth_view(),
    {
        self.depth
    }
}


/// The metadata a node carries for one application context.
#[derive(Clone, Debug)]
pub struct GodswoodMeta {
    pub path: GodsnodePath,
}

/// A step of the breadth-first walk: the metadata of a node already
/// reached, and that node's children, which take their paths from it.
pub struct InitGodsnodeQ {
    pub app_meta: GodswoodMeta,
    pub nodes: Vec<u64>,
}

/// The first segment of a dotted path: the text between the leading `.` and
/// the next `.` (or the end), when the path starts with `.` and that text is
/// not empty.
pub open spec fn app_name_of(p: Seq<char>) -> Option<Seq<char>> {
    if p.len() == 0 || p[0] != '.' {
        None
    } else {
        let rest = p.drop_first();
        let seg = if exists|j: int| 0 <= j < rest.len() && rest[j] == '.' {
            rest.take(choose|j: int| 0 <= j < rest.len() && rest[j] == '.' && forall|k: int| 0 <= k < j ==> rest[k] != '.')
        } else {
            rest
        };
        if seg.len() > 0 { Some(seg) } else { None }
    }
}

impl GodswoodMeta {
    /// Metadata holding the empty path.
    pub fn new() -> (r: GodswoodMeta)
        ensures
            r.path.path_view() == Seq::<char>::empty(),
            r.path.depth_view() == 0,
    {
        GodswoodMeta { path: GodsnodePath::new_path() }
    }

    /// The application name that a dotted path starts with.
    pub fn parse_app_name(path: &String) -> (r: Option<String>)
        ensures
            r matches Some(s) ==> app_name_of(path@) == Some(s@),
            r is None ==> app_name_of(path@) is None,
    {
        let n = path.as_str().unicode_len();
        if n == 0 || path.as_str().get_char(0) != '.' {
            return None;
        }
        let ghost rest = path@.drop_first();
        let mut j: usize = 1;
        while j < n && path.as_str().get_char(j) != '.'
            invariant
                1 <= j <= n,
                n == path@.len(),
                rest == path@.drop_first(),
                forall|k: int| 0 <= k < j - 1 ==> rest[k] != '.',
            decreases n - j,
        {
            j = j + 1;
        }
        proof {
            if j < n {
                let jj = (j - 1) as int;
                assert(rest[jj] == '.');
                let c = choose|i: int| 0 <= i < rest.len() && rest[i] == '.' && forall|k: int| 0 <= k < i ==> rest[k] != '.';
                assert(c == jj) by {
                    if c < jj {
                        assert(rest[c] != '.');
                    } else if c > jj {
                        assert(rest[jj] != '.');
                    }
                }
            } else {
                assert(!(exists|i: int| 0 <= i < rest.len() && rest[i] == '.'));
            }
        }
        if j == 1 {
            return None;
        }
        let seg = path.as_str().substring_char(1, j);
        assert(seg@ =~= rest.take(j - 1));
        Some(seg.to_string())
    }
}

/// The map that a node's list of (application, metadata) entries stands
/// for: a later entry shadows an earlier one for the same application.
pub open spec fn meta_map(v: Seq<(String, GodswoodMeta)>) -> Map<Seq<char>, (Seq<char>, nat)>
    decreases v.len(),
{
    if v.len() == 0 {
        Map::empty()
    } else {
        meta_map(v.drop_last()).insert(
            v.last().0@,
            (v.last().1.path.path_view(), v.last().1.path.depth_view()),
        )
    }
}

/// One node of a tree. Links to parents and children are node ids, resolved
/// through the store that owns the node.
#[derive(Clone, Debug)]
pub struct GodsnodeProto {
    pub id: u64,
    pub name: String,
    pub display_name: String,
    pub node_type: GodsnodeType,
    pub parents: Vec<u64>,
    pub children: Vec<u64>,
    pub service_type: GodsnodeClass,
    pub app_meta_map: Vec<(String, GodswoodMeta)>,
}

impl GodsnodeProto {
    /// The (path, depth) recorded for each application context.
    pub open spec fn meta_view(&self) -> Map<Seq<char>, (Seq<char>, nat)> {
        meta_map(self.app_meta_map@)
    }

    /// A fresh node: id 0, empty names, no links, no metadata.
    pub fn new() -> (r: Self)
        ensures
            r.id == 0,
            r.name@ == Seq::<char>::empty(),
            r.display_name@ == Seq::<char>::empty(),
            r.node_type == GodsnodeType::Godsnode,
            r.parents@ == Seq::<u64>::empty(),
            r.children@ == Seq::<u64>::empty(),
            r.service_type == GodsnodeClass::General,
            r.app_meta_map@ == Seq::<(String, GodswoodMeta)>::empty(),
    {
        GodsnodeProto {
            id: 0,
            name: String::new(),
            display_name: String::new(),
            node_type: GodsnodeType::Godsnode,
            parents: Vec::new(),
            children: Vec::new(),
            service_type: GodsnodeClass::General,
            app_meta_map: Vec::new(),
        }
    }

    pub fn get_children(&self) -> (r: &Vec<u64>)
        ensures
            r@ == self.children@,
    {
        &self.children
    }

    pub fn get_parents(&self) -> (r: &Vec<u64>)
        ensures
            r@ == self.parents@,
    {
        &self.parents
    }

    pub fn add_parent(&mut self, node: u64)
        ensures
            final(self).parents@ == old(self).parents@.push(node),
            *final(self) == (GodsnodeProto { parents: final(self).parents, ..*old(self) }),
    {
        self.parents.push(node);
    }

    pub fn add_child(&mut self, node: u64)
        ensures
            final(self).children@ == old(self).children@.push(node),
            *final(self) == (GodsnodeProto { children: final(self).children, ..*old(self) }),
    {
        self.children.push(node);
    }
}


/// One entry of a tree description: its key under the parent's `children`
/// object, its optional `name` and `display_name` fields, and its children in
/// key order.
pub struct RawNode {
    pub key: String,
    pub name: Option<String>,
    pub display_name: Option<String>,
    pub children: Vec<RawNode>,
}

/// The number of entries in a tree description: the entry itself and all
/// entries below it.
pub open spec fn tree_size(raw: RawNode) -> nat
    decreases raw, 0nat,
{
    1 + forest_size(raw.children@, raw.children@.len() as int)
}

/// The number of entries in the first `n` descriptions of `kids` and below
/// them.
pub open spec fn forest_size(kids: Seq<RawNode>, n: int) -> nat
    decreases kids, n,
{
    if n <= 0 || n > kids.len() {
        0
    } else {
        forest_size(kids, n - 1) + tree_size(kids[n - 1])
    }
}

/// The label a node takes from its description.
pub open spec fn display_of(raw: RawNode) -> Seq<char> {
    match raw.display_name {
        Some(s) => s@,
        None => "new node"@,
    }
}

/// The name a root node takes from its description.
pub open spec fn app_name_field(raw: RawNode) -> Seq<char> {
    match raw.name {
        Some(s) => s@,
        None => "new_application"@,
    }
}

} // verus!
