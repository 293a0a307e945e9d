//! The directory tree over a merged index: every path with the
//! directories above it, to walk, to look paths up in and to print.

use vstd::prelude::*;
use vstd::string::StringExecFns;
use crate::path::{
    all_components, components, direct_steps, is_component, join, lemma_components_valid, names,
    sep, split_path, steps_of,
};
use crate::text::{
    lemma_lex_lt_irreflexive, lemma_lex_lt_transitive, lemma_rank_after, lex_lt, rank, Rank,
};
use crate::tree_model::{
    extends, lemma_child_by_steps, lemma_child_steps, lemma_grow, lemma_paths_at,
    lemma_prefixes_held, lemma_set_flag, lemma_steps, lemma_steps_kept, with_path, with_steps,
    NodeView, Steps, TreeView,
};

verus! {

/// One node as the arena stores it.
struct Node {
    name: String,
    children: Vec<usize>,
    parent: Option<usize>,
    is_dir: bool,
}

spec fn node_view(node: Node) -> NodeView {
    NodeView {
        name: node.name@,
        children: Seq::new(node.children@.len(), |k: int| node.children@[k] as int),
        parent: match node.parent {
            Some(p) => Some(p as int),
            None => None,
        },
        is_dir: node.is_dir,
    }
}

/// A directory tree. Its nodes are never removed, so the index of a node
/// stays what it is while the tree grows.
pub struct DirectoryTree {
    nodes: Vec<Node>,
}

impl Default for DirectoryTree {
    /// A tree that holds the root and nothing else.
    fn default() -> (tree: Self)
        ensures
            tree@.wf(),
            tree@.len() == 1,
            tree@.paths() == Map::<Steps, bool>::empty().insert(Seq::empty(), true),
    {
        DirectoryTree::new()
    }
}

impl View for DirectoryTree {
    type V = TreeView;

    closed spec fn view(&self) -> TreeView {
        TreeView { nodes: Seq::new(self.nodes@.len(), |i: int| node_view(self.nodes@[i])) }
    }
}

/// Where a name stands among the children of a node: at a position, or
/// at none, and then the position at which it would have to be put.
enum Slot {
    At(usize),
    Before(usize),
}

impl DirectoryTree {
    /// A tree that holds the root and nothing else.
    pub fn new() -> (tree: Self)
        ensures
            tree@.wf(),
            tree@.len() == 1,
            tree@.nodes[0].children.len() == 0,
            tree@.paths() == Map::<Steps, bool>::empty().insert(Seq::empty(), true),
    {
        let root = Node {
            name: "/".to_string(),
            children: Vec::new(),
            parent: None,
            is_dir: true,
        };
        let mut nodes: Vec<Node> = Vec::new();
        nodes.push(root);
        let tree = DirectoryTree { nodes };
        proof {
            reveal_strlit("/");
            assert(tree@.nodes[0].name =~= seq![sep()]);
            let model = tree@;
            lemma_paths_at(model, 0);
        }
        tree
    }

    /// Looks for `name` among the children of node `id`, which stand in
    /// ascending order of their names.
    fn slot_of(&self, id: usize, name: &str) -> (slot: Slot)
        requires
            self@.wf(),
            id < self@.len(),
        ensures
            match slot {
                Slot::At(k) => k < self@.nodes[id as int].children.len() && self@.child_name(
                    id as int,
                    k as int,
                ) == name@,
                Slot::Before(k) => {
                    &&& k <= self@.nodes[id as int].children.len()
                    &&& forall|j: int| 0 <= j < k ==> lex_lt(#[trigger] self@.child_name(id as int, j), name@)
                    &&& forall|j: int|
                        k <= j < self@.nodes[id as int].children.len() ==> lex_lt(
                            name@,
                            #[trigger] self@.child_name(id as int, j),
                        )
                },
            },
    {
        let children = &self.nodes[id].children;
        let mut lo: usize = 0;
        let mut hi: usize = children.len();
        while lo < hi
            invariant
                self@.wf(),
                id < self@.len(),
                children == &self.nodes[id as int].children,
                lo <= hi <= children.len(),
                forall|j: int| 0 <= j < lo ==> lex_lt(#[trigger] self@.child_name(id as int, j), name@),
                forall|j: int|
                    hi <= j < children.len() ==> lex_lt(name@, #[trigger] self@.child_name(id as int, j)),
            decreases hi - lo,
        {
            let mid = lo + (hi - lo) / 2;
            assert(self@.child_ok(id as int, mid as int));
            assert(self@.sorted(id as int));
            let child = children[mid];
            let here = self.nodes[child].name.as_str();
            assert(here@ == self@.child_name(id as int, mid as int));
            proof {
                lemma_rank_after(here@, name@);
            }
            match rank(here, name) {
                Rank::Same => {
                    return Slot::At(mid);
                },
                Rank::Before => {
                    proof {
                        assert forall|j: int| 0 <= j < mid + 1 implies lex_lt(
                            #[trigger] self@.child_name(id as int, j),
                            name@,
                        ) by {
                            if j < mid {
                                lemma_lex_lt_transitive(self@.child_name(id as int, j), here@, name@);
                            }
                        }
                    }
                    lo = mid + 1;
                },
                Rank::After => {
                    proof {
                        assert forall|j: int| mid <= j < children.len() implies lex_lt(
                            name@,
                            #[trigger] self@.child_name(id as int, j),
                        ) by {
                            if j > mid {
                                lemma_lex_lt_transitive(name@, here@, self@.child_name(id as int, j));
                            }
                        }
                    }
                    hi = mid;
                },
            }
        }
        Slot::Before(lo)
    }

    /// Adds a leaf named `name` below node `cur`, at position `pos` among
    /// its children, and returns its index.
    fn grow(&mut self, cur: usize, pos: usize, name: String, is_dir: bool) -> (id: usize)
        requires
            old(self)@.wf(),
            cur < old(self)@.len(),
            pos <= old(self)@.nodes[cur as int].children.len(),
            is_component(name@),
            forall|j: int| 0 <= j < pos ==> lex_lt(#[trigger] old(self)@.child_name(cur as int, j), name@),
            forall|j: int|
                pos <= j < old(self)@.nodes[cur as int].children.len() ==> lex_lt(
                    name@,
                    #[trigger] old(self)@.child_name(cur as int, j),
                ),
        ensures
            final(self)@.wf(),
            extends(old(self)@, final(self)@),
            id == old(self)@.len(),
            final(self)@.len() == id + 1,
            final(self)@.steps_to(id as int) == old(self)@.steps_to(cur as int).push(name@),
            !old(self)@.has(old(self)@.steps_to(cur as int).push(name@)),
            final(self)@.paths() == old(self)@.paths().insert(
                old(self)@.steps_to(cur as int).push(name@),
                is_dir,
            ),
    {
        let id = self.nodes.len();
        let ghost label = name@;
        self.nodes.push(Node { name, children: Vec::new(), parent: Some(cur), is_dir });
        self.nodes[cur].children.insert(pos, id);
        proof {
            let before = old(self)@;
            let after = self@;
            assert(after.nodes[cur as int].children =~= before.nodes[cur as int].children.insert(
                pos as int,
                id as int,
            ));
            assert(after.nodes[id as int].children =~= Seq::<int>::empty());
            lemma_grow(before, after, cur as int, pos as int, label, is_dir);
        }
        id
    }

    /// Walks down from the root along the components of `path`, adding
    /// the nodes that are missing, and returns the node at the end.
    fn place(&mut self, path: &str, is_dir: bool, settle: bool) -> (end: usize)
        requires
            old(self)@.wf(),
        ensures
            final(self)@.wf(),
            extends(old(self)@, final(self)@),
            end < final(self)@.len(),
            final(self)@.steps_to(end as int) == components(path@),
            final(self)@.paths() == with_path(old(self)@.paths(), components(path@), is_dir, settle),
    {
        let parts = split_path(path);
        let n = parts.len();
        let ghost steps = components(path@);
        let ghost start = self@;
        let mut cur: usize = 0;
        let mut k: usize = 0;
        proof {
            lemma_components_valid(path@);
            assert(steps.take(0) =~= start.steps_to(0));
        }
        while k < n
            invariant
                k <= n,
                n == parts.len(),
                steps == names(parts@),
                all_components(steps),
                self@.wf(),
                start.wf(),
                extends(start, self@),
                cur < self@.len(),
                self@.steps_to(cur as int) == steps.take(k as int),
                self@.paths() == with_steps(start.paths(), steps, k as int, is_dir),
            decreases n - k,
        {
            let ghost before = self@;
            let ghost here = steps.take(k as int);
            let ghost next = steps.take(k + 1);
            proof {
                assert(next =~= here.push(steps[k as int]));
            }
            match self.slot_of(cur, parts[k].as_str()) {
                Slot::At(pos) => {
                    proof {
                        lemma_child_steps(before, cur as int, pos as int);
                    }
                    cur = self.nodes[cur].children[pos];
                },
                Slot::Before(pos) => {
                    let leaf_is_dir = k + 1 < n || is_dir;
                    cur = self.grow(cur, pos, parts[k].clone(), leaf_is_dir);
                    proof {
                        assert(!start.paths().contains_key(next)) by {
                            if start.paths().contains_key(next) {
                                assert(with_steps(start.paths(), steps, k as int, is_dir).contains_key(
                                    next,
                                ));
                            }
                        }
                    }
                },
            }
            k = k + 1;
        }
        proof {
            assert(steps.take(n as int) =~= steps);
        }
        if settle && n > 0 {
            let ghost before = self@;
            self.nodes[cur].is_dir = is_dir;
            proof {
                assert(self@.nodes =~= before.nodes.update(
                    cur as int,
                    NodeView { is_dir, ..before.nodes[cur as int] },
                ));
                lemma_set_flag(before, self@, cur as int, is_dir);
                lemma_steps_kept(before, self@, cur as int);
            }
        }
        cur
    }

    /// Adds `path` to the tree, with the directories above it. Nodes that
    /// are there already stay as they are; a directory that has to be made
    /// on the way is a directory, and the node of `path` itself, if it is
    /// new, is one exactly if `is_dir` is set.
    pub fn add_path(&mut self, path: &str, is_dir: bool)
        requires
            old(self)@.wf(),
        ensures
            final(self)@.wf(),
            extends(old(self)@, final(self)@),
            final(self)@.paths() == with_path(old(self)@.paths(), components(path@), is_dir, false),
    {
        let _ = self.place(path, is_dir, false);
    }

    /// Adds `path` to the tree as `add_path` does, and gives its node the
    /// flag `is_dir` whether the node is new or not. The root keeps its
    /// flag.
    pub fn set_path(&mut self, path: &str, is_dir: bool)
        requires
            old(self)@.wf(),
        ensures
            final(self)@.wf(),
            extends(old(self)@, final(self)@),
            final(self)@.paths() == with_path(old(self)@.paths(), components(path@), is_dir, true),
    {
        let _ = self.place(path, is_dir, true);
    }

    /// The number of nodes, the root among them.
    pub fn node_count(&self) -> (n: usize)
        ensures
            n == self@.len(),
    {
        self.nodes.len()
    }

    /// The root.
    pub fn root(&self) -> (node: TreeNode<'_>)
        requires
            self@.wf(),
        ensures
            node.wf(),
            node.tree() == self@,
            node.index() == 0,
    {
        proof {
            assert(self@.len() == self.nodes.len());
        }
        TreeNode { tree: self, id: 0 }
    }

    /// Looks `path` up, one part after the other from the root. The parts
    /// are what stands between the separators of the path, once the
    /// separators at its two ends are cut: the empty path and `/` are the
    /// root, and a path with an empty part in it names nothing.
    pub fn find(&self, path: &str) -> (found: Option<TreeNode<'_>>)
        requires
            self@.wf(),
        ensures
            match steps_of(path@) {
                Some(steps) => match found {
                    Some(node) => node.wf() && node.tree() == self@ && self@.steps_to(node.index())
                        == steps,
                    None => !self@.has(steps),
                },
                None => found is None,
            },
            steps_of(path@) == Some(Seq::<Seq<char>>::empty()) ==> (found matches Some(node)
                && node.index() == 0),
    {
        match direct_steps(path) {
            Some(parts) => {
                assert(names(parts@).len() == parts@.len());
                self.walk(&parts)
            },
            None => None,
        }
    }

    /// Walks down from the root along `parts`.
    fn walk(&self, parts: &Vec<String>) -> (found: Option<TreeNode<'_>>)
        requires
            self@.wf(),
        ensures
            match found {
                Some(node) => node.wf() && node.tree() == self@ && self@.steps_to(node.index())
                    == names(parts@),
                None => !self@.has(names(parts@)),
            },
            parts@.len() == 0 ==> (found matches Some(node) && node.index() == 0),
    {
        let n = parts.len();
        let ghost steps = names(parts@);
        let mut cur: usize = 0;
        let mut k: usize = 0;
        while k < n
            invariant
                k <= n,
                n == parts.len(),
                steps == names(parts@),
                self@.wf(),
                cur < self@.len(),
                self@.steps_to(cur as int) == steps.take(k as int),
            decreases n - k,
        {
            let ghost next = steps.take(k + 1);
            proof {
                assert(next =~= steps.take(k as int).push(steps[k as int]));
            }
            match self.slot_of(cur, parts[k].as_str()) {
                Slot::At(pos) => {
                    proof {
                        lemma_child_steps(self@, cur as int, pos as int);
                    }
                    cur = self.nodes[cur].children[pos];
                },
                Slot::Before(pos) => {
                    proof {
                        if self@.has(steps) {
                            let end = self@.node_at(steps);
                            lemma_prefixes_held(self@, end, k + 1);
                            let below = self@.node_at(next);
                            lemma_child_by_steps(self@, cur as int, steps[k as int], below);
                            let j = choose|j: int|
                                0 <= j < self@.nodes[cur as int].children.len() && #[trigger] self@.child(
                                    cur as int,
                                    j,
                                ) == below;
                            assert(self@.child_name(cur as int, j) == steps[k as int]);
                            lemma_lex_lt_irreflexive(steps[k as int]);
                        }
                    }
                    return None;
                },
            }
            k = k + 1;
        }
        proof {
            assert(self@.len() == self.nodes.len());
            lemma_steps(self@, cur as int);
        }
        Some(TreeNode { tree: self, id: cur })
    }

    /// Appends the path of node `id`, without a leading separator, to
    /// `out`.
    fn path_into(&self, id: usize, out: &mut String)
        requires
            self@.wf(),
            id < self@.len(),
        ensures
            final(out)@ == old(out)@ + join(self@.steps_to(id as int)),
        decreases id,
    {
        if id == 0 {
            return ;
        }
        assert(self@.linked(id as int));
        match self.nodes[id].parent {
            Some(up) => {
                self.path_into(up, out);
                if up != 0 {
                    out.append("/");
                }
                out.append(self.nodes[id].name.as_str());
                proof {
                    reveal_strlit("/");
                    lemma_steps(self@, up as int);
                    let above = self@.steps_to(up as int);
                    let name = self@.nodes[id as int].name;
                    let all = above.push(name);
                    assert(all.drop_last() =~= above);
                }
            },
            None => {},
        }
    }

    /// Appends the printed tree below and with node `id` to `out`.
    fn render_into(
        &self,
        id: usize,
        depth: usize,
        max_depth: usize,
        is_last: bool,
        prefix: &str,
        out: &mut String,
    )
        requires
            self@.wf(),
            id < self@.len(),
            depth + (self@.len() - id) <= usize::MAX,
        ensures
            final(out)@ == old(out)@ + self@.render(
                id as int,
                depth as nat,
                max_depth as nat,
                is_last,
                prefix@,
            ),
        decreases self@.len() - id,
    {
        let node = &self.nodes[id];
        let mut inner = prefix.to_string();
        if depth == 0 {
            out.append(node.name.as_str());
            out.append("\n");
        } else {
            out.append(prefix);
            if is_last {
                out.append("└── ");
                inner.append("    ");
            } else {
                out.append("├── ");
                inner.append("│   ");
            }
            out.append(node.name.as_str());
            if node.is_dir {
                out.append("/");
            }
            out.append("\n");
        }
        let ghost line = self@.line(id as int, depth as nat, is_last, prefix@);
        if depth > max_depth {
            return ;
        }
        let total = node.children.len();
        let mut k: usize = 0;
        while k < total
            invariant
                k <= total,
                self@.wf(),
                id < self@.len(),
                depth + (self@.len() - id) <= usize::MAX,
                node == &self.nodes[id as int],
                total == self@.nodes[id as int].children.len(),
                out@ == old(out)@ + line + self@.render_children(
                    id as int,
                    k as nat,
                    depth as nat,
                    max_depth as nat,
                    inner@,
                ),
            decreases total - k,
        {
            let child = node.children[k];
            proof {
                assert(self@.child_ok(id as int, k as int));
                assert(self@.linked(child as int));
            }
            self.render_into(child, depth + 1, max_depth, k + 1 == total, inner.as_str(), out);
            k = k + 1;
        }
    }

    /// The whole tree, printed: the root's name on the first line, and
    /// below it every node down to one level below `max_depth`, each on a
    /// line of its own, the children of a node in ascending order of their
    /// names.
    pub fn print(&self, max_depth: usize) -> (text: String)
        requires
            self@.wf(),
        ensures
            text@ == self@.render(0, 0, max_depth as nat, true, Seq::empty()),
    {
        proof {
            reveal_strlit("");
            assert(""@ =~= Seq::<char>::empty());
        }
        self.root().print(0, max_depth, true, "")
    }
}

/// A node of a directory tree.
#[derive(Clone, Copy)]
pub struct TreeNode<'a> {
    tree: &'a DirectoryTree,
    id: usize,
}

impl<'a> TreeNode<'a> {
    /// The tree that the node belongs to.
    pub closed spec fn tree(&self) -> TreeView {
        self.tree@
    }

    /// The index of the node in its tree.
    pub closed spec fn index(&self) -> int {
        self.id as int
    }

    /// The node is one of a well-formed tree.
    pub open spec fn wf(&self) -> bool {
        self.tree().wf() && 0 <= self.index() < self.tree().len() <= usize::MAX
    }

    /// The node's model.
    pub open spec fn node(&self) -> NodeView {
        self.tree().nodes[self.index()]
    }

    /// The name of the node; `/` for the root.
    pub fn name(&self) -> (name: &'a str)
        requires
            self.wf(),
        ensures
            name@ == self.node().name,
    {
        self.tree.nodes[self.id].name.as_str()
    }

    /// Tells whether the node is a directory.
    pub fn is_dir(&self) -> (dir: bool)
        requires
            self.wf(),
        ensures
            dir == self.node().is_dir,
    {
        self.tree.nodes[self.id].is_dir
    }

    /// The node above, unless this is the root.
    pub fn parent(&self) -> (up: Option<TreeNode<'a>>)
        requires
            self.wf(),
        ensures
            match up {
                Some(node) => node.wf() && node.tree() == self.tree() && self.node().parent == Some(
                    node.index(),
                ),
                None => self.node().parent is None && self.index() == 0,
            },
    {
        proof {
            if self.id > 0 {
                assert(self.tree@.linked(self.id as int));
            }
        }
        match self.tree.nodes[self.id].parent {
            Some(up) => Some(TreeNode { tree: self.tree, id: up }),
            None => None,
        }
    }

    /// The children of the node, in ascending order of their names.
    pub fn children(&self) -> (list: Vec<TreeNode<'a>>)
        requires
            self.wf(),
        ensures
            list.len() == self.node().children.len(),
            forall|k: int|
                0 <= k < list.len() ==> (#[trigger] list[k]).wf() && list[k].tree() == self.tree()
                    && list[k].index() == self.node().children[k],
    {
        let ids = &self.tree.nodes[self.id].children;
        let mut list: Vec<TreeNode<'a>> = Vec::new();
        let mut k: usize = 0;
        while k < ids.len()
            invariant
                k <= ids.len(),
                self.wf(),
                ids == &self.tree.nodes[self.id as int].children,
                list.len() == k,
                forall|j: int|
                    0 <= j < k ==> (#[trigger] list[j]).wf() && list[j].tree() == self.tree()
                        && list[j].index() == self.node().children[j],
            decreases ids.len() - k,
        {
            assert(self.tree@.child_ok(self.id as int, k as int));
            list.push(TreeNode { tree: self.tree, id: ids[k] });
            k = k + 1;
        }
        list
    }

    /// The path of the node: the names from below the root down to it,
    /// joined by separators, after a leading separator if `with_root` is
    /// set.
    pub fn pwd(&self, with_root: bool) -> (path: String)
        requires
            self.wf(),
        ensures
            path@ == self.tree().pwd(self.index(), with_root),
    {
        let mut path = String::new();
        if with_root {
            path.append("/");
        }
        proof {
            reveal_strlit("/");
        }
        self.tree.path_into(self.id, &mut path);
        path
    }

    /// The tree below and with this node, printed as if the node stood at
    /// depth `depth`, were the last of its siblings if `is_last` is set,
    /// and its line began with `prefix`.
    pub fn print(&self, depth: usize, max_depth: usize, is_last: bool, prefix: &str) -> (text: String)
        requires
            self.wf(),
            depth + self.tree().len() <= usize::MAX,
        ensures
            text@ == self.tree().render(
                self.index(),
                depth as nat,
                max_depth as nat,
                is_last,
                prefix@,
            ),
    {
        let mut text = String::new();
        self.tree.render_into(self.id, depth, max_depth, is_last, prefix, &mut text);
        text
    }
}

} // verus!
