//! The directory tree as mathematics: an arena of nodes, each with a name,
//! a parent, its children in ascending order of their names, and a flag
//! that tells directories from leaves.
//!
//! Node 0 is the root. It stands for the image's top directory, is named
//! `/`, and its name is no part of any path. Every other node was added
//! after its parent, so a parent's index is below its children's.

use vstd::prelude::*;
use crate::path::{all_components, begins_with, is_component, join, sep};
use crate::text::{lemma_lex_lt_irreflexive, lex_lt};

verus! {

/// One node of the tree.
pub struct NodeView {
    pub name: Seq<char>,
    pub children: Seq<int>,
    pub parent: Option<int>,
    pub is_dir: bool,
}

/// The tree: its nodes by index.
pub struct TreeView {
    pub nodes: Seq<NodeView>,
}

/// A path as the tree sees it: the names from below the root down to a
/// node.
pub type Steps = Seq<Seq<char>>;

/// The map of paths after `steps` is added: every prefix of `steps` is
/// there. A path that was there keeps its flag; a new one is a directory,
/// unless it is `steps` itself, which gets the flag `is_dir`. With
/// `settle` set, `steps` gets the flag `is_dir` though it was there,
/// unless it is the root.
pub open spec fn with_path(paths: Map<Steps, bool>, steps: Steps, is_dir: bool, settle: bool) -> Map<
    Steps,
    bool,
> {
    Map::new(
        |s: Steps| paths.contains_key(s) || begins_with(steps, s),
        |s: Steps|
            if settle && s == steps && steps.len() > 0 {
                is_dir
            } else if paths.contains_key(s) {
                paths[s]
            } else {
                s.len() < steps.len() || is_dir
            },
    )
}

/// The map of paths after the first `k` of `steps` are added.
pub open spec fn with_steps(paths: Map<Steps, bool>, steps: Steps, k: int, is_dir: bool) -> Map<
    Steps,
    bool,
> {
    Map::new(
        |s: Steps| paths.contains_key(s) || (begins_with(steps, s) && s.len() <= k),
        |s: Steps|
            if paths.contains_key(s) {
                paths[s]
            } else {
                s.len() < steps.len() || is_dir
            },
    )
}

/// The branch that leads to the last child of a node.
pub open spec fn corner() -> Seq<char> {
    "└── "@
}

/// The branch that leads to a child after which more follow.
pub open spec fn tee() -> Seq<char> {
    "├── "@
}

/// What stands below a `tee`, beside the children of that child.
pub open spec fn bar() -> Seq<char> {
    "│   "@
}

/// What stands below a `corner`.
pub open spec fn gap() -> Seq<char> {
    "    "@
}

/// The mark behind the name of a directory.
pub open spec fn dir_mark() -> Seq<char> {
    "/"@
}

/// The end of a line.
pub open spec fn newline() -> Seq<char> {
    "\n"@
}

/// What the lines below a node begin with, where the node's own line
/// begins with `prefix`.
pub open spec fn inner_prefix(depth: nat, is_last: bool, prefix: Seq<char>) -> Seq<char> {
    if depth == 0 {
        prefix
    } else if is_last {
        prefix + gap()
    } else {
        prefix + bar()
    }
}

impl TreeView {
    /// The number of nodes.
    pub open spec fn len(self) -> int {
        self.nodes.len() as int
    }

    /// The `k`-th child of node `id`.
    pub open spec fn child(self, id: int, k: int) -> int {
        self.nodes[id].children[k]
    }

    /// The name of the `k`-th child of node `id`.
    pub open spec fn child_name(self, id: int, k: int) -> Seq<char> {
        self.nodes[self.child(id, k)].name
    }

    /// Node `id`, which is not the root, hangs below an earlier node that
    /// lists it among its children, and its name is a path component.
    pub open spec fn linked(self, id: int) -> bool {
        &&& self.nodes[id].parent matches Some(p)
        &&& 0 <= p < id
        &&& self.nodes[p].children.contains(id)
        &&& is_component(self.nodes[id].name)
    }

    /// The `k`-th child of node `id` is a node that has `id` for its
    /// parent.
    pub open spec fn child_ok(self, id: int, k: int) -> bool {
        &&& 0 < self.child(id, k) < self.len()
        &&& self.nodes[self.child(id, k)].parent == Some(id)
    }

    /// The children of node `id` stand in strictly ascending order of
    /// their names.
    pub open spec fn sorted(self, id: int) -> bool {
        forall|a: int, b: int|
            0 <= a < b < self.nodes[id].children.len() ==> lex_lt(
                #[trigger] self.child_name(id, a),
                #[trigger] self.child_name(id, b),
            )
    }

    /// The tree is well formed.
    pub open spec fn wf(self) -> bool {
        &&& self.len() > 0
        &&& self.nodes[0].parent is None
        &&& self.nodes[0].is_dir
        &&& self.nodes[0].name == seq![sep()]
        &&& forall|id: int| 0 < id < self.len() ==> #[trigger] self.linked(id)
        &&& forall|id: int, k: int|
            0 <= id < self.len() && 0 <= k < self.nodes[id].children.len() ==> #[trigger] self.child_ok(
                id,
                k,
            )
        &&& forall|id: int| 0 <= id < self.len() ==> #[trigger] self.sorted(id)
    }

    /// The names from below the root down to node `id`.
    pub open spec fn steps_to(self, id: int) -> Steps
        decreases id,
    {
        if 0 < id < self.len() {
            match self.nodes[id].parent {
                Some(p) => if 0 <= p < id {
                    self.steps_to(p).push(self.nodes[id].name)
                } else {
                    Seq::empty()
                },
                None => Seq::empty(),
            }
        } else {
            Seq::empty()
        }
    }

    /// Some node stands at the end of `steps`.
    pub open spec fn has(self, steps: Steps) -> bool {
        exists|id: int| 0 <= id < self.len() && #[trigger] self.steps_to(id) == steps
    }

    /// The node at the end of `steps`.
    pub open spec fn node_at(self, steps: Steps) -> int {
        choose|id: int| 0 <= id < self.len() && #[trigger] self.steps_to(id) == steps
    }

    /// The tree as a map from the paths it holds to their directory flags.
    pub open spec fn paths(self) -> Map<Steps, bool> {
        Map::new(|steps: Steps| self.has(steps), |steps: Steps| self.nodes[self.node_at(steps)].is_dir)
    }

    /// The line of node `id` in a printed tree. At depth 0 it is the bare
    /// name; below, the prefix, a branch, the name and, for a directory,
    /// the directory mark.
    pub open spec fn line(self, id: int, depth: nat, is_last: bool, prefix: Seq<char>) -> Seq<char> {
        let node = self.nodes[id];
        if depth == 0 {
            node.name + newline()
        } else {
            prefix + (if is_last {
                corner()
            } else {
                tee()
            }) + node.name + (if node.is_dir {
                dir_mark()
            } else {
                Seq::empty()
            }) + newline()
        }
    }

    /// The printed tree below and with node `id`, which stands at depth
    /// `depth`: its line, and then, unless its depth is above `max_depth`,
    /// its children in order, each with all that is below it.
    pub open spec fn render(
        self,
        id: int,
        depth: nat,
        max_depth: nat,
        is_last: bool,
        prefix: Seq<char>,
    ) -> Seq<char>
        decreases self.len() - id, self.nodes[id].children.len() + 1,
    {
        if 0 <= id < self.len() {
            self.line(id, depth, is_last, prefix) + (if depth > max_depth {
                Seq::empty()
            } else {
                self.render_children(
                    id,
                    self.nodes[id].children.len(),
                    depth,
                    max_depth,
                    inner_prefix(depth, is_last, prefix),
                )
            })
        } else {
            Seq::empty()
        }
    }

    /// The printed trees of the first `upto` children of node `id`, which
    /// stands at depth `depth`.
    pub open spec fn render_children(
        self,
        id: int,
        upto: nat,
        depth: nat,
        max_depth: nat,
        prefix: Seq<char>,
    ) -> Seq<char>
        decreases self.len() - id, upto,
    {
        if 0 <= id < self.len() && 0 < upto <= self.nodes[id].children.len() {
            let child = self.child(id, upto - 1);
            self.render_children(id, (upto - 1) as nat, depth, max_depth, prefix) + (if id < child < self.len() {
                self.render(
                    child,
                    depth + 1,
                    max_depth,
                    upto == self.nodes[id].children.len(),
                    prefix,
                )
            } else {
                Seq::empty()
            })
        } else {
            Seq::empty()
        }
    }

    /// The path of node `id` as text: its steps joined by separators,
    /// after a leading separator if `with_root` is set.
    pub open spec fn pwd(self, id: int, with_root: bool) -> Seq<char> {
        if with_root {
            seq![sep()] + join(self.steps_to(id))
        } else {
            join(self.steps_to(id))
        }
    }
}

/// Only the root has no steps, and every step is a path component.
pub proof fn lemma_steps(tree: TreeView, id: int)
    requires
        tree.wf(),
        0 <= id < tree.len(),
    ensures
        tree.steps_to(id).len() == 0 <==> id == 0,
        all_components(tree.steps_to(id)),
    decreases id,
{
    if id > 0 {
        assert(tree.linked(id));
        let p = tree.nodes[id].parent->0;
        lemma_steps(tree, p);
    }
}

/// No two nodes have the same steps.
pub proof fn lemma_steps_injective(tree: TreeView, a: int, b: int)
    requires
        tree.wf(),
        0 <= a < tree.len(),
        0 <= b < tree.len(),
        tree.steps_to(a) == tree.steps_to(b),
    ensures
        a == b,
    decreases a,
{
    lemma_steps(tree, b);
    if a > 0 {
        assert(tree.linked(a));
        assert(tree.linked(b));
        let pa = tree.nodes[a].parent->0;
        let pb = tree.nodes[b].parent->0;
        let sa = tree.steps_to(pa).push(tree.nodes[a].name);
        let sb = tree.steps_to(pb).push(tree.nodes[b].name);
        assert(sa.drop_last() =~= tree.steps_to(pa));
        assert(sb.drop_last() =~= tree.steps_to(pb));
        assert(sa.last() == tree.nodes[a].name);
        lemma_steps_injective(tree, pa, pb);
        let ka = choose|k: int|
            0 <= k < tree.nodes[pa].children.len() && tree.nodes[pa].children[k] == a;
        let kb = choose|k: int|
            0 <= k < tree.nodes[pa].children.len() && tree.nodes[pa].children[k] == b;
        assert(tree.sorted(pa));
        lemma_lex_lt_irreflexive(tree.nodes[a].name);
        if ka < kb {
            assert(lex_lt(tree.child_name(pa, ka), tree.child_name(pa, kb)));
        } else if kb < ka {
            assert(lex_lt(tree.child_name(pa, kb), tree.child_name(pa, ka)));
        }
    }
}

/// The map of paths holds the steps of every node, with that node's flag.
pub proof fn lemma_paths_at(tree: TreeView, id: int)
    requires
        tree.wf(),
        0 <= id < tree.len(),
    ensures
        tree.has(tree.steps_to(id)),
        tree.node_at(tree.steps_to(id)) == id,
        tree.paths().contains_key(tree.steps_to(id)),
        tree.paths()[tree.steps_to(id)] == tree.nodes[id].is_dir,
{
    let other = tree.node_at(tree.steps_to(id));
    lemma_steps_injective(tree, other, id);
}

/// `after` is `before` with one node more: a leaf named `name`, put
/// among the children of node `cur` at position `pos`.
pub open spec fn grown(
    before: TreeView,
    after: TreeView,
    cur: int,
    pos: int,
    name: Seq<char>,
    is_dir: bool,
) -> bool {
    &&& after.len() == before.len() + 1
    &&& forall|i: int| 0 <= i < before.len() && i != cur ==> #[trigger] after.nodes[i] == before.nodes[i]
    &&& after.nodes[cur] == NodeView {
        children: before.nodes[cur].children.insert(pos, before.len()),
        ..before.nodes[cur]
    }
    &&& after.nodes[before.len()] == NodeView {
        name,
        children: Seq::empty(),
        parent: Some(cur),
        is_dir,
    }
}

/// `after` has the nodes of `before` and maybe more, each with the name
/// and the parent it had.
pub open spec fn extends(before: TreeView, after: TreeView) -> bool {
    &&& before.len() <= after.len()
    &&& forall|i: int|
        0 <= i < before.len() ==> (#[trigger] after.nodes[i]).name == before.nodes[i].name
            && after.nodes[i].parent == before.nodes[i].parent
}

/// A node keeps its steps while the tree grows.
pub proof fn lemma_steps_kept(before: TreeView, after: TreeView, id: int)
    requires
        extends(before, after),
        0 <= id < before.len(),
    ensures
        after.steps_to(id) == before.steps_to(id),
    decreases id,
{
    if id > 0 {
        match before.nodes[id].parent {
            Some(p) => {
                if 0 <= p < id {
                    lemma_steps_kept(before, after, p);
                }
            },
            None => {},
        }
    }
}

/// A node whose steps are those of `id` followed by `name` is a child of
/// `id` with that name.
pub proof fn lemma_child_by_steps(tree: TreeView, id: int, name: Seq<char>, below: int)
    requires
        tree.wf(),
        0 <= id < tree.len(),
        0 <= below < tree.len(),
        tree.steps_to(below) == tree.steps_to(id).push(name),
    ensures
        tree.nodes[below].parent == Some(id),
        tree.nodes[below].name == name,
        exists|k: int| 0 <= k < tree.nodes[id].children.len() && #[trigger] tree.child(id, k) == below,
{
    lemma_steps(tree, below);
    assert(tree.linked(below));
    let p = tree.nodes[below].parent->0;
    let full = tree.steps_to(p).push(tree.nodes[below].name);
    assert(full.drop_last() =~= tree.steps_to(p));
    assert(tree.steps_to(id).push(name).drop_last() =~= tree.steps_to(id));
    assert(full.last() == tree.nodes[below].name);
    lemma_steps_injective(tree, p, id);
    let k = choose|k: int| 0 <= k < tree.nodes[id].children.len() && tree.nodes[id].children[k] == below;
    assert(tree.child(id, k) == below);
}

/// The steps of a child are those of its parent followed by its name.
pub proof fn lemma_child_steps(tree: TreeView, id: int, k: int)
    requires
        tree.wf(),
        0 <= id < tree.len(),
        0 <= k < tree.nodes[id].children.len(),
    ensures
        0 < tree.child(id, k) < tree.len(),
        tree.steps_to(tree.child(id, k)) == tree.steps_to(id).push(tree.child_name(id, k)),
{
    assert(tree.child_ok(id, k));
    assert(tree.linked(tree.child(id, k)));
}

/// Growing a well-formed tree by a leaf, put where its name belongs among
/// its siblings, gives a well-formed tree with one path more.
pub proof fn lemma_grow(
    before: TreeView,
    after: TreeView,
    cur: int,
    pos: int,
    name: Seq<char>,
    is_dir: bool,
)
    requires
        before.wf(),
        0 <= cur < before.len(),
        0 <= pos <= before.nodes[cur].children.len(),
        is_component(name),
        forall|j: int| 0 <= j < pos ==> lex_lt(#[trigger] before.child_name(cur, j), name),
        forall|j: int|
            pos <= j < before.nodes[cur].children.len() ==> lex_lt(
                name,
                #[trigger] before.child_name(cur, j),
            ),
        grown(before, after, cur, pos, name, is_dir),
    ensures
        after.wf(),
        extends(before, after),
        after.steps_to(before.len()) == before.steps_to(cur).push(name),
        !before.has(before.steps_to(cur).push(name)),
        after.paths() == before.paths().insert(before.steps_to(cur).push(name), is_dir),
{
    let new = before.len();
    let target = before.steps_to(cur).push(name);
    let old_kids = before.nodes[cur].children;
    let kids = after.nodes[cur].children;
    assert forall|i: int| 0 <= i < before.len() implies after.steps_to(i) == before.steps_to(i) by {
        lemma_steps_kept(before, after, i);
    }
    // The name is new among the children of `cur`.
    assert(!before.has(target)) by {
        if before.has(target) {
            let other = choose|id: int| 0 <= id < before.len() && #[trigger] before.steps_to(id) == target;
            lemma_child_by_steps(before, cur, name, other);
            let k = choose|k: int|
                0 <= k < before.nodes[cur].children.len() && #[trigger] before.child(cur, k) == other;
            assert(before.child_name(cur, k) == name);
            lemma_lex_lt_irreflexive(name);
        }
    }
    // Every child of `cur` in `after` is the new leaf or an old child.
    assert forall|id: int| 0 < id < after.len() implies #[trigger] after.linked(id) by {
        if id == new {
            assert(kids[pos] == new);
        } else {
            assert(before.linked(id));
            let p = before.nodes[id].parent->0;
            if p == cur {
                let k = choose|k: int| 0 <= k < old_kids.len() && old_kids[k] == id;
                if k < pos {
                    assert(kids[k] == id);
                } else {
                    assert(kids[k + 1] == id);
                }
            }
        }
    }
    assert forall|id: int, k: int|
        0 <= id < after.len() && 0 <= k < after.nodes[id].children.len() implies #[trigger] after.child_ok(
        id,
        k,
    ) by {
        if id == cur {
            if k < pos {
                assert(before.child_ok(cur, k));
            } else if k > pos {
                assert(before.child_ok(cur, k - 1));
            }
        } else if id != new {
            assert(before.child_ok(id, k));
        }
    }
    assert forall|id: int| 0 <= id < after.len() implies #[trigger] after.sorted(id) by {
        if id == cur {
            assert(before.sorted(cur));
            assert forall|a: int, b: int| 0 <= a < b < kids.len() implies lex_lt(
                #[trigger] after.child_name(cur, a),
                #[trigger] after.child_name(cur, b),
            ) by {
                let na = if a < pos {
                    a
                } else {
                    a - 1
                };
                let nb = if b < pos {
                    b
                } else {
                    b - 1
                };
                if a != pos {
                    assert(before.child_ok(cur, na));
                    assert(after.child_name(cur, a) == before.child_name(cur, na));
                }
                if b != pos {
                    assert(before.child_ok(cur, nb));
                    assert(after.child_name(cur, b) == before.child_name(cur, nb));
                }
            }
        } else if id != new {
            assert(before.sorted(id));
            assert forall|a: int, b: int| 0 <= a < b < after.nodes[id].children.len() implies lex_lt(
                #[trigger] after.child_name(id, a),
                #[trigger] after.child_name(id, b),
            ) by {
                assert(before.child_ok(id, a));
                assert(before.child_ok(id, b));
                assert(after.child_name(id, a) == before.child_name(id, a));
                assert(after.child_name(id, b) == before.child_name(id, b));
            }
        }
    }
    lemma_paths_grown(before, after, target, is_dir);
}

/// Where a tree has gained one node, its map of paths has gained that
/// node's steps.
proof fn lemma_paths_grown(before: TreeView, after: TreeView, target: Steps, is_dir: bool)
    requires
        before.wf(),
        after.wf(),
        after.len() == before.len() + 1,
        forall|i: int| 0 <= i < before.len() ==> after.steps_to(i) == before.steps_to(i),
        forall|i: int| 0 <= i < before.len() ==> (#[trigger] after.nodes[i]).is_dir == before.nodes[i].is_dir,
        after.steps_to(before.len()) == target,
        after.nodes[before.len()].is_dir == is_dir,
    ensures
        after.paths() == before.paths().insert(target, is_dir),
{
    let new = before.len();
    let expected = before.paths().insert(target, is_dir);
    assert forall|s: Steps| after.paths().contains_key(s) implies after.paths()[s] == expected[s] by {
        let id = after.node_at(s);
        if id < new {
            lemma_paths_at(before, id);
            if s == target {
                lemma_steps_injective(after, id, new);
            }
        }
    }
}

/// Setting the flag of a node other than the root keeps the tree well
/// formed and changes the flag of that node's path, nothing else.
pub proof fn lemma_set_flag(before: TreeView, after: TreeView, id: int, is_dir: bool)
    requires
        before.wf(),
        0 < id < before.len(),
        after.nodes == before.nodes.update(id, NodeView { is_dir, ..before.nodes[id] }),
    ensures
        after.wf(),
        extends(before, after),
        after.paths() == before.paths().insert(before.steps_to(id), is_dir),
{
    assert forall|i: int| 0 < i < after.len() implies #[trigger] after.linked(i) by {
        assert(before.linked(i));
    }
    assert forall|i: int, k: int|
        0 <= i < after.len() && 0 <= k < after.nodes[i].children.len() implies #[trigger] after.child_ok(
        i,
        k,
    ) by {
        assert(before.child_ok(i, k));
    }
    assert forall|i: int| 0 <= i < after.len() implies #[trigger] after.sorted(i) by {
        assert(before.sorted(i));
        assert forall|a: int, b: int| 0 <= a < b < after.nodes[i].children.len() implies lex_lt(
            #[trigger] after.child_name(i, a),
            #[trigger] after.child_name(i, b),
        ) by {
            assert(before.child_ok(i, a));
            assert(before.child_ok(i, b));
            assert(after.child_name(i, a) == before.child_name(i, a));
            assert(after.child_name(i, b) == before.child_name(i, b));
        }
    }
    assert forall|i: int| 0 <= i < before.len() implies after.steps_to(i) == before.steps_to(i) by {
        lemma_steps_kept(before, after, i);
    }
    let target = before.steps_to(id);
    let expected = before.paths().insert(target, is_dir);
    assert forall|s: Steps| after.paths().contains_key(s) implies after.paths()[s] == expected[s] by {
        let i = after.node_at(s);
        lemma_paths_at(before, i);
        if s == target {
            lemma_steps_injective(after, i, id);
        }
    }
}

/// A tree that holds a path holds everything the path begins with.
pub proof fn lemma_prefixes_held(tree: TreeView, id: int, n: int)
    requires
        tree.wf(),
        0 <= id < tree.len(),
        0 <= n <= tree.steps_to(id).len(),
    ensures
        tree.has(tree.steps_to(id).take(n)),
    decreases id,
{
    let steps = tree.steps_to(id);
    if n == steps.len() {
        assert(steps.take(n) =~= steps);
    } else {
        let p = tree.nodes[id].parent->0;
        assert(steps.take(n) =~= tree.steps_to(p).take(n));
        lemma_prefixes_held(tree, p, n);
    }
}

} // verus!
