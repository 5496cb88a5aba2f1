//! The directory tree: an arena of nodes addressed by index, with the root at index 0.
//!
//! The shape is built once and then only read; each session keeps its own position in it
//! as a node index.
use vstd::prelude::*;
use vstd::string::StringExecFns;
use crate::text::{chars_of, has_prefix, is_prefix, last_word, last_word_of, views};

verus! {

#[derive(Debug, Clone, Copy, PartialEq, Eq, Structural)]
pub enum NodeType {
    File,
    Directory,
}

/// One entry of the tree. `parent` and `children` are indices into the same arena;
/// the parent link never owns anything.
#[derive(Debug, Clone)]
pub struct Node {
    pub name: String,
    pub node_type: NodeType,
    pub parent: Option<usize>,
    pub children: Vec<usize>,
}

pub struct NodeView {
    pub name: Seq<char>,
    pub node_type: NodeType,
    pub parent: Option<usize>,
    pub children: Seq<usize>,
}

impl View for Node {
    type V = NodeView;

    open spec fn view(&self) -> NodeView {
        NodeView {
            name: self.name@,
            node_type: self.node_type,
            parent: self.parent,
            children: self.children@,
        }
    }
}

/// The whole namespace. Index 0 is the root.
#[derive(Debug, Clone)]
pub struct FileTree {
    pub nodes: Vec<Node>,
}

impl View for FileTree {
    type V = Seq<NodeView>;

    open spec fn view(&self) -> Seq<NodeView> {
        self.nodes@.map_values(|n: Node| n@)
    }
}

pub open spec fn valid_node(t: Seq<NodeView>, i: int) -> bool {
    0 <= i < t.len()
}

/// The arena is a tree rooted at 0: every other node names an earlier node as parent and
/// is listed among its children, children point back at their parent, files have no children, and siblings have
/// distinct names.
pub open spec fn tree_wf(t: Seq<NodeView>) -> bool {
    &&& t.len() > 0
    &&& t[0].parent is None
    &&& t[0].node_type == NodeType::Directory
    &&& forall|i: int|
        0 < i < t.len() ==> (#[trigger] t[i]).parent is Some && (t[i].parent->0 as int) < i
    &&& listed_by_parents(t)
    &&& forall|i: int, k: int|
        #![trigger t[i].children[k]]
        0 <= i < t.len() && 0 <= k < t[i].children.len() ==> {
            &&& 0 < t[i].children[k] < t.len()
            &&& t[t[i].children[k] as int].parent == Some(i as usize)
        }
    &&& forall|i: int|
        0 <= i < t.len() && (#[trigger] t[i]).node_type == NodeType::File ==> t[i].children.len()
            == 0
    &&& forall|i: int, k1: int, k2: int|
        #![trigger t[i].children[k1], t[i].children[k2]]
        0 <= i < t.len() && 0 <= k1 < t[i].children.len() && 0 <= k2 < t[i].children.len() && k1
            != k2 ==> t[t[i].children[k1] as int].name != t[t[i].children[k2] as int].name
}

/// Every node but the root is listed among the children of its parent.
#[verifier::opaque]
pub open spec fn listed_by_parents(t: Seq<NodeView>) -> bool {
    forall|i: int|
        0 < i < t.len() && (#[trigger] t[i]).parent is Some ==> t[t[i].parent->0 as int].children.contains(
            i as usize,
        )
}

/// The names on the way from the root down to `i`, the root's own name left out.
pub open spec fn path(t: Seq<NodeView>, i: int) -> Seq<Seq<char>>
    decreases i,
{
    if 0 < i < t.len() && t[i].parent is Some && (t[i].parent->0 as int) < i {
        path(t, t[i].parent->0 as int).push(t[i].name)
    } else {
        Seq::empty()
    }
}

/// `/a/b/c` for the names `a`, `b`, `c`.
pub open spec fn slashed(p: Seq<Seq<char>>) -> Seq<char>
    decreases p.len(),
{
    if p.len() == 0 {
        Seq::empty()
    } else {
        slashed(p.drop_last()) + seq!['/'] + p.last()
    }
}

/// What `pwd` prints at `i`: the root is `/`.
pub open spec fn pwd_text(t: Seq<NodeView>, i: int) -> Seq<char> {
    if path(t, i).len() == 0 {
        seq!['/']
    } else {
        slashed(path(t, i))
    }
}

/// The names of the children of `i`, in order.
pub open spec fn child_names(t: Seq<NodeView>, i: int) -> Seq<Seq<char>> {
    t[i].children.map_values(|c: usize| t[c as int].name)
}

/// The items of `names` that start with `p`, in order.
pub open spec fn with_prefix(names: Seq<Seq<char>>, p: Seq<char>) -> Seq<Seq<char>>
    decreases names.len(),
{
    if names.len() == 0 {
        Seq::empty()
    } else if is_prefix(p, names.last()) {
        with_prefix(names.drop_last(), p).push(names.last())
    } else {
        with_prefix(names.drop_last(), p)
    }
}

/// The `k`-th child of `i` is a directory named `name`.
pub open spec fn dir_child_at(t: Seq<NodeView>, i: int, k: int, name: Seq<char>) -> bool {
    &&& 0 <= k < t[i].children.len()
    &&& t[t[i].children[k] as int].node_type == NodeType::Directory
    &&& t[t[i].children[k] as int].name == name
}

/// Where `cd name` leads from `i`: the parent for `..`, else the child directory of that name.
pub open spec fn cd_target(t: Seq<NodeView>, i: int, name: Seq<char>) -> Option<usize> {
    if name == seq!['.', '.'] {
        t[i].parent
    } else if exists|k: int| dir_child_at(t, i, k, name) {
        Some(t[i].children[choose|k: int| dir_child_at(t, i, k, name)])
    } else {
        None
    }
}

impl FileTree {
    pub open spec fn wf(&self) -> bool {
        tree_wf(self@)
    }

    /// A tree holding only the root directory `name`.
    pub fn new(name: String) -> (r: FileTree)
        ensures
            r.wf(),
            r@.len() == 1,
            r@[0].name == name@,
            r@[0].children.len() == 0,
    {
        let root = Node::new_directory(name);
        let mut nodes: Vec<Node> = Vec::new();
        nodes.push(root);
        let r = FileTree { nodes };
        proof {
            assert(r@[0] == root@);
            reveal(listed_by_parents);
        }
        r
    }
}

impl Node {
    pub fn new_file(name: String) -> (r: Node)
        ensures
            r@.name == name@,
            r.node_type == NodeType::File,
            r.parent is None,
            r@.children.len() == 0,
    {
        Node { name, node_type: NodeType::File, parent: None, children: Vec::new() }
    }

    pub fn new_directory(name: String) -> (r: Node)
        ensures
            r@.name == name@,
            r.node_type == NodeType::Directory,
            r.parent is None,
            r@.children.len() == 0,
    {
        Node { name, node_type: NodeType::Directory, parent: None, children: Vec::new() }
    }

    /// Links the detached node `child` under the directory `parent`, as its last child,
    /// and returns the child's index.
    pub fn add_child(tree: &mut FileTree, parent: usize, child: Node) -> (r: usize)
        requires
            old(tree).wf(),
            parent < old(tree)@.len(),
            old(tree)@[parent as int].node_type == NodeType::Directory,
            child.parent is None,
            child@.children.len() == 0,
            !child_names(old(tree)@, parent as int).contains(child@.name),
            old(tree)@.len() < usize::MAX,
        ensures
            final(tree).wf(),
            r == old(tree)@.len(),
            final(tree)@ == old(tree)@.update(
                parent as int,
                NodeView {
                    children: old(tree)@[parent as int].children.push(r),
                    ..old(tree)@[parent as int]
                },
            ).push(NodeView { parent: Some(parent), ..child@ }),
    {
        let ghost t = tree@;
        let n = tree.nodes.len();
        let mut child = child;
        child.parent = Some(parent);
        tree.nodes[parent].children.push(n);
        tree.nodes.push(child);
        proof {
            let pv = NodeView { children: t[parent as int].children.push(n), ..t[parent as int] };
            let t2 = t.update(parent as int, pv).push(child@);
            assert(tree@ =~= t2);
            lemma_listed_after_add(t, parent as int, child@);
            assert forall|i: int, k: int|
                0 <= i < t2.len() && 0 <= k < t2[i].children.len() implies {
                    &&& 0 < #[trigger] t2[i].children[k] < t2.len()
                    &&& t2[t2[i].children[k] as int].parent == Some(i as usize)
                } by {
                if i == parent && k == t[i].children.len() {
                } else {
                    assert(t2[i].children[k] == t[i].children[k]);
                }
            }
            assert forall|i: int, k1: int, k2: int|
                0 <= i < t2.len() && 0 <= k1 < t2[i].children.len() && 0 <= k2
                    < t2[i].children.len() && k1 != k2 implies t2[
                #[trigger] t2[i].children[k1] as int].name != t2[#[trigger] t2[
                i].children[k2] as int].name by {
                if i == parent {
                    let m = t[i].children.len() as int;
                    if k1 == m {
                        assert(child_names(t, i)[k2] == t[t[i].children[k2] as int].name);
                    } else if k2 == m {
                        assert(child_names(t, i)[k1] == t[t[i].children[k1] as int].name);
                    } else {
                        assert(t2[i].children[k1] == t[i].children[k1]);
                        assert(t2[i].children[k2] == t[i].children[k2]);
                    }
                } else {
                    assert(t2[i].children[k1] == t[i].children[k1]);
                    assert(t2[i].children[k2] == t[i].children[k2]);
                }
            }
        }
        n
    }

    /// The path of `node` from the root, `/` at the root itself.
    pub fn pwd(tree: &FileTree, node: usize) -> (r: String)
        requires
            tree.wf(),
            node < tree@.len(),
        ensures
            r@ == pwd_text(tree@, node as int),
    {
        let ghost t = tree@;
        let mut text = String::new();
        let mut cur: usize = node;
        while cur != 0
            invariant
                tree.wf(),
                t == tree@,
                cur < t.len(),
                slashed(path(t, node as int)) == slashed(path(t, cur as int)) + text@,
            decreases cur,
        {
            let ghost old_text = text@;
            let p = match tree.nodes[cur].parent {
                Some(p) => p,
                None => 0,
            };
            proof {
                assert(t[cur as int].parent is Some);
                assert(path(t, cur as int) == path(t, p as int).push(t[cur as int].name));
                assert(path(t, cur as int).drop_last() == path(t, p as int));
            }
            let mut next = String::new();
            crate::text::push_char(&mut next, '/');
            next.append(tree.nodes[cur].name.as_str());
            next.append(text.as_str());
            text = next;
            proof {
                assert(text@ == seq!['/'] + t[cur as int].name + old_text);
                assert(slashed(path(t, cur as int)) == slashed(path(t, p as int)) + seq!['/']
                    + t[cur as int].name);
                assert(slashed(path(t, node as int)) =~= slashed(path(t, p as int)) + text@);
            }
            cur = p;
        }
        proof {
            assert(path(t, 0) == Seq::<Seq<char>>::empty());
            assert(slashed(path(t, node as int)) =~= text@);
        }
        if node == 0 {
            let mut root = String::new();
            crate::text::push_char(&mut root, '/');
            root
        } else {
            proof {
                assert(t[node as int].parent is Some);
            }
            text
        }
    }

    /// The names of the children of `node` (none for a file).
    pub fn ls(tree: &FileTree, node: usize) -> (r: Vec<String>)
        requires
            tree.wf(),
            node < tree@.len(),
        ensures
            views(r@) == child_names(tree@, node as int),
            tree@[node as int].node_type == NodeType::File ==> r@.len() == 0,
    {
        let ghost t = tree@;
        let children = &tree.nodes[node].children;
        let mut out: Vec<String> = Vec::new();
        let mut k: usize = 0;
        while k < children.len()
            invariant
                tree.wf(),
                t == tree@,
                node < t.len(),
                children@ == t[node as int].children,
                k <= children@.len(),
                views(out@) =~= child_names(t, node as int).take(k as int),
            decreases children.len() - k,
        {
            let c = children[k];
            proof {
                assert(0 < t[node as int].children[k as int] < t.len());
            }
            let ghost before = views(out@);
            out.push(tree.nodes[c].name.clone());
            proof {
                assert(views(out@) =~= before.push(t[c as int].name));
                assert(child_names(t, node as int).take(k + 1) =~= child_names(t, node as int).take(
                    k as int,
                ).push(t[c as int].name));
            }
            k = k + 1;
        }
        proof {
            assert(child_names(t, node as int).take(k as int) =~= child_names(t, node as int));
        }
        out
    }

    /// Moves from `current` by one step: `..` to the parent (none at the root), any other
    /// name to the child directory of that name (none if there is no such directory).
    pub fn cd(tree: &FileTree, current: usize, name: &str) -> (r: Option<usize>)
        requires
            tree.wf(),
            current < tree@.len(),
        ensures
            r == cd_target(tree@, current as int, name@),
            r matches Some(n) ==> n < tree@.len(),
    {
        let ghost t = tree@;
        let target = chars_of(name);
        if target.len() == 2 && target[0] == '.' && target[1] == '.' {
            proof {
                assert(name@ =~= seq!['.', '.']);
            }
            return tree.nodes[current].parent;
        }
        proof {
            if name@ == seq!['.', '.'] {
                assert(target@.len() == 2 && target@[0] == '.' && target@[1] == '.');
            }
        }
        let children = &tree.nodes[current].children;
        let mut k: usize = 0;
        while k < children.len()
            invariant
                tree.wf(),
                t == tree@,
                current < t.len(),
                children@ == t[current as int].children,
                target@ == name@,
                name@ != seq!['.', '.'],
                k <= children@.len(),
                forall|j: int| 0 <= j < k ==> !dir_child_at(t, current as int, j, name@),
            decreases children.len() - k,
        {
            let c = children[k];
            proof {
                assert(0 < t[current as int].children[k as int] < t.len());
            }
            let child = &tree.nodes[c];
            if child.node_type == NodeType::Directory && child.name == String::from_str(name) {
                proof {
                    assert(dir_child_at(t, current as int, k as int, name@));
                    let j = choose|j: int| dir_child_at(t, current as int, j, name@);
                    if j != k {
                        assert(t[t[current as int].children[j] as int].name != t[t[
                            current as int].children[k as int] as int].name);
                    }
                }
                return Some(c);
            }
            k = k + 1;
        }
        None
    }

    /// The children of `node` whose names start with `start`, in order.
    pub fn tab_complete(tree: &FileTree, node: usize, start: &str) -> (r: Vec<String>)
        requires
            tree.wf(),
            node < tree@.len(),
        ensures
            views(r@) == with_prefix(child_names(tree@, node as int), start@),
    {
        let prefix = chars_of(start);
        Node::complete_with(tree, node, &prefix)
    }

    /// Completes the last whitespace-separated word of the command line `start`
    /// against the children of `node`.
    pub fn tab_complete_arg(tree: &FileTree, node: usize, start: &str) -> (r: Vec<String>)
        requires
            tree.wf(),
            node < tree@.len(),
        ensures
            views(r@) == with_prefix(child_names(tree@, node as int), last_word(start@)),
    {
        let line = chars_of(start);
        let prefix = last_word_of(line.as_slice());
        Node::complete_with(tree, node, &prefix)
    }

    fn complete_with(tree: &FileTree, node: usize, prefix: &Vec<char>) -> (r: Vec<String>)
        requires
            tree.wf(),
            node < tree@.len(),
        ensures
            views(r@) == with_prefix(child_names(tree@, node as int), prefix@),
    {
        let ghost t = tree@;
        let ghost names = child_names(t, node as int);
        let children = &tree.nodes[node].children;
        let mut out: Vec<String> = Vec::new();
        let mut k: usize = 0;
        while k < children.len()
            invariant
                tree.wf(),
                t == tree@,
                node < t.len(),
                names == child_names(t, node as int),
                children@ == t[node as int].children,
                k <= children@.len(),
                views(out@) == with_prefix(names.take(k as int), prefix@),
            decreases children.len() - k,
        {
            let c = children[k];
            proof {
                assert(0 < t[node as int].children[k as int] < t.len());
                assert(names.take(k + 1).drop_last() =~= names.take(k as int));
                assert(names.take(k + 1).last() == t[c as int].name);
            }
            let name = chars_of(tree.nodes[c].name.as_str());
            if has_prefix(prefix.as_slice(), name.as_slice()) {
                let ghost before = views(out@);
                out.push(tree.nodes[c].name.clone());
                proof {
                    assert(views(out@) =~= before.push(t[c as int].name));
                }
            }
            k = k + 1;
        }
        proof {
            assert(names.take(k as int) =~= names);
        }
        out
    }
}

proof fn lemma_listed_after_add(t: Seq<NodeView>, p: int, c: NodeView)
    requires
        listed_by_parents(t),
        forall|i: int|
            0 < i < t.len() ==> (#[trigger] t[i]).parent is Some && (t[i].parent->0 as int) < i,
        0 <= p < t.len(),
        t.len() < usize::MAX,
        c.parent == Some(p as usize),
    ensures
        listed_by_parents(
            t.update(p, NodeView { children: t[p].children.push(t.len() as usize), ..t[p] }).push(c),
        ),
{
    let n = t.len() as usize;
    let pv = NodeView { children: t[p].children.push(n), ..t[p] };
    let u = t.update(p, pv);
    let t2 = u.push(c);
    reveal(listed_by_parents);
    assert forall|i: int| 0 < i < t2.len() && (#[trigger] t2[i]).parent is Some implies t2[t2[
        i].parent->0 as int].children.contains(i as usize) by {
        if i == t.len() {
            assert(t2[i] == c);
            assert(t2[p] == pv);
            assert(pv.children[t[p].children.len() as int] == n);
        } else {
            assert(t2[i] == u[i]);
            assert(u[i].parent == t[i].parent);
            let q = t[i].parent->0 as int;
            assert(0 <= q < t.len());
            assert(t[q].children.contains(i as usize));
            let k = choose|k: int| 0 <= k < t[q].children.len() && t[q].children[k] == i as usize;
            assert(t2[q] == u[q]);
            assert(u[q].children[k] == i as usize);
        }
    }
}

/// The fixed tree the server offers:
/// `/dir1/{file1.txt, file2.txt}`, `/dir2/file3.txt`, `/dir3/file4.txt`.
pub fn create_tree() -> (r: FileTree)
    ensures
        r.wf(),
        r@.len() == 8,
        r@[0].name == "root"@,
        r@[0].children == seq![1usize, 2, 3],
        child_names(r@, 0) == seq!["dir1"@, "dir2"@, "dir3"@],
        r@[1].children == seq![4usize, 5],
        child_names(r@, 1) == seq!["file1.txt"@, "file2.txt"@],
        r@[2].children == seq![6usize],
        child_names(r@, 2) == seq!["file3.txt"@],
        r@[3].children == seq![7usize],
        child_names(r@, 3) == seq!["file4.txt"@],
        forall|i: int| 0 <= i < 4 ==> (#[trigger] r@[i]).node_type == NodeType::Directory,
        forall|i: int| 4 <= i < 8 ==> (#[trigger] r@[i]).node_type == NodeType::File,
{
    proof {
        reveal_strlit("dir1");
        reveal_strlit("dir2");
        reveal_strlit("dir3");
        reveal_strlit("file1.txt");
        reveal_strlit("file2.txt");
    }
    let mut tree = FileTree::new(String::from_str("root"));
    let dir1 = Node::add_child(&mut tree, 0, Node::new_directory(String::from_str("dir1")));
    assert(child_names(tree@, 0) =~= seq!["dir1"@]);
    assert("dir1"@[3] != "dir2"@[3]);
    assert(!seq!["dir1"@].contains("dir2"@));
    let dir2 = Node::add_child(&mut tree, 0, Node::new_directory(String::from_str("dir2")));
    assert(child_names(tree@, 0) =~= seq!["dir1"@, "dir2"@]);
    assert("dir1"@[3] != "dir3"@[3] && "dir2"@[3] != "dir3"@[3]);
    assert(!seq!["dir1"@, "dir2"@].contains("dir3"@));
    let dir3 = Node::add_child(&mut tree, 0, Node::new_directory(String::from_str("dir3")));
    let ghost t3 = tree@;
    assert(t3[0].children =~= seq![1usize, 2, 3]);
    assert(child_names(t3, 0) =~= seq!["dir1"@, "dir2"@, "dir3"@]);
    assert(child_names(t3, 1) =~= seq![]);
    Node::add_child(&mut tree, dir1, Node::new_file(String::from_str("file1.txt")));
    assert(child_names(tree@, 1) =~= seq!["file1.txt"@]);
    assert("file1.txt"@[4] != "file2.txt"@[4]);
    assert(!seq!["file1.txt"@].contains("file2.txt"@));
    Node::add_child(&mut tree, dir1, Node::new_file(String::from_str("file2.txt")));
    let ghost t5 = tree@;
    assert(t5[1].children =~= seq![4usize, 5]);
    assert(child_names(t5, 1) =~= seq!["file1.txt"@, "file2.txt"@]);
    assert(child_names(t5, 2) =~= seq![]);
    Node::add_child(&mut tree, dir2, Node::new_file(String::from_str("file3.txt")));
    assert(child_names(tree@, 3) =~= seq![]);
    Node::add_child(&mut tree, dir3, Node::new_file(String::from_str("file4.txt")));
    let ghost t = tree@;
    assert(t[0] == t3[0]);
    assert(t[1] == t5[1]);
    assert(t[4] == t5[4] && t[5] == t5[5]);
    assert(t[2].children =~= seq![6usize]);
    assert(t[3].children =~= seq![7usize]);
    assert(child_names(t, 0) =~= seq!["dir1"@, "dir2"@, "dir3"@]);
    assert(child_names(t, 1) =~= seq!["file1.txt"@, "file2.txt"@]);
    assert(child_names(t, 2) =~= seq!["file3.txt"@]);
    assert(child_names(t, 3) =~= seq!["file4.txt"@]);
    tree
}

} // verus!
