//! The outline tree of the terminal interface: nodes grouped under their
//! parents, the rows that are visible, the paths that lead to them, and
//! the state of the cursor over them.
use vstd::prelude::*;
use crate::tasks::TaskPriority;
use crate::text::{chars_of, extend_chars, string_from};

verus! {

/// What the outline view reads of a stored outline node.
#[derive(Debug)]
pub struct OutlineNode {
    pub id: String,
    pub parent_node_id: Option<String>,
    pub content: String,
    pub is_task: bool,
    pub task_completed: bool,
    pub task_priority: Option<TaskPriority>,
}

impl OutlineNode {
    /// A node that is not a task.
    pub fn new(id: String, parent_node_id: Option<String>, content: String) -> (res: OutlineNode)
        ensures
            res.id == id,
            res.parent_node_id == parent_node_id,
            res.content == content,
            !res.is_task,
            !res.task_completed,
            res.task_priority is None,
    {
        OutlineNode { id, parent_node_id, content, is_task: false, task_completed: false, task_priority: None }
    }

    /// A task node, open or completed, with an optional priority.
    pub fn new_task(
        id: String,
        parent_node_id: Option<String>,
        content: String,
        task_completed: bool,
        task_priority: Option<TaskPriority>,
    ) -> (res: OutlineNode)
        ensures
            res.id == id,
            res.parent_node_id == parent_node_id,
            res.content == content,
            res.is_task,
            res.task_completed == task_completed,
            res.task_priority == task_priority,
    {
        OutlineNode { id, parent_node_id, content, is_task: true, task_completed, task_priority }
    }

    /// A copy of the node.
    pub fn duplicate(&self) -> (res: OutlineNode)
        ensures
            res == *self,
    {
        let parent = match &self.parent_node_id {
            Some(p) => Some(p.clone()),
            None => None,
        };
        OutlineNode {
            id: self.id.clone(),
            parent_node_id: parent,
            content: self.content.clone(),
            is_task: self.is_task,
            task_completed: self.task_completed,
            task_priority: self.task_priority,
        }
    }
}

/// A node of the outline with the subtrees of its children.
#[derive(Debug)]
pub struct TreeNode {
    pub node: OutlineNode,
    pub children: Vec<TreeNode>,
    pub is_expanded: bool,
    pub depth: usize,
}

impl TreeNode {
    /// An expanded node at `depth` without children.
    pub fn new(node: OutlineNode, depth: usize) -> (res: TreeNode)
        ensures
            res.node == node,
            res.children@.len() == 0,
            res.is_expanded,
            res.depth == depth,
    {
        TreeNode { node, children: Vec::new(), is_expanded: true, depth }
    }
}

// ------------------------------------------------------------------
// Grouping nodes under their parents
// ------------------------------------------------------------------

/// Whether `n` names the node with id `id` as its parent.
pub open spec fn is_child_of(n: OutlineNode, id: Seq<char>) -> bool {
    match n.parent_node_id {
        Some(p) => p@ == id,
        None => false,
    }
}

/// The nodes among `nodes` whose parent is `id`, in their order.
pub open spec fn child_nodes(nodes: Seq<OutlineNode>, id: Seq<char>) -> Seq<OutlineNode>
    decreases nodes.len(),
{
    if nodes.len() == 0 {
        Seq::empty()
    } else {
        let rest = child_nodes(nodes.drop_last(), id);
        if is_child_of(nodes.last(), id) {
            rest.push(nodes.last())
        } else {
            rest
        }
    }
}

/// The nodes among `nodes` without a parent, in their order.
pub open spec fn root_nodes(nodes: Seq<OutlineNode>) -> Seq<OutlineNode>
    decreases nodes.len(),
{
    if nodes.len() == 0 {
        Seq::empty()
    } else {
        let rest = root_nodes(nodes.drop_last());
        if nodes.last().parent_node_id is None {
            rest.push(nodes.last())
        } else {
            rest
        }
    }
}

fn children_exec(nodes: &Vec<OutlineNode>, id: &String) -> (res: Vec<OutlineNode>)
    ensures
        res@ == child_nodes(nodes@, id@),
{
    let mut out: Vec<OutlineNode> = Vec::new();
    let mut i: usize = 0;
    while i < nodes.len()
        invariant
            i <= nodes@.len(),
            out@ == child_nodes(nodes@.take(i as int), id@),
        decreases nodes@.len() - i,
    {
        proof {
            assert(nodes@.take(i + 1).drop_last() =~= nodes@.take(i as int));
        }
        let hit = match &nodes[i].parent_node_id {
            Some(p) => *p == *id,
            None => false,
        };
        if hit {
            out.push(nodes[i].duplicate());
        }
        i = i + 1;
    }
    assert(nodes@.take(i as int) =~= nodes@);
    out
}

fn roots_exec(nodes: &Vec<OutlineNode>) -> (res: Vec<OutlineNode>)
    ensures
        res@ == root_nodes(nodes@),
{
    let mut out: Vec<OutlineNode> = Vec::new();
    let mut i: usize = 0;
    while i < nodes.len()
        invariant
            i <= nodes@.len(),
            out@ == root_nodes(nodes@.take(i as int)),
        decreases nodes@.len() - i,
    {
        proof {
            assert(nodes@.take(i + 1).drop_last() =~= nodes@.take(i as int));
        }
        if nodes[i].parent_node_id.is_none() {
            out.push(nodes[i].duplicate());
        }
        i = i + 1;
    }
    assert(nodes@.take(i as int) =~= nodes@);
    out
}

/// Whether `t` is the expanded subtree of `n` at `depth`, built from
/// `nodes` down to `fuel` levels: each level holds the children of its
/// node in their order among `nodes`; below the last level nothing hangs.
pub open spec fn built_from(
    t: TreeNode,
    nodes: Seq<OutlineNode>,
    n: OutlineNode,
    depth: int,
    fuel: nat,
) -> bool
    decreases t,
{
    &&& t.node == n
    &&& t.depth == depth
    &&& t.is_expanded
    &&& if fuel == 0 {
        t.children@.len() == 0
    } else {
        forest_from(t.children@, nodes, child_nodes(nodes, n.id@), depth + 1, (fuel - 1) as nat)
    }
}

/// Whether each of `ts` is built, as `built_from` says, from the node at
/// the same place in `ns`.
pub open spec fn forest_from(
    ts: Seq<TreeNode>,
    nodes: Seq<OutlineNode>,
    ns: Seq<OutlineNode>,
    depth: int,
    fuel: nat,
) -> bool
    decreases ts,
{
    &&& ts.len() == ns.len()
    &&& ts.len() > 0 ==> {
        &&& forest_from(ts.drop_last(), nodes, ns.drop_last(), depth, fuel)
        &&& built_from(ts.last(), nodes, ns.last(), depth, fuel)
    }
}

/// `forest_from` holds just when the lengths agree and each tree is built
/// from the node at its place.
pub proof fn lemma_forest_from(
    ts: Seq<TreeNode>,
    nodes: Seq<OutlineNode>,
    ns: Seq<OutlineNode>,
    depth: int,
    fuel: nat,
)
    ensures
        forest_from(ts, nodes, ns, depth, fuel) <==> (ts.len() == ns.len() && forall|i: int|
            0 <= i < ts.len() ==> #[trigger] built_from(ts[i], nodes, ns[i], depth, fuel)),
    decreases ts.len(),
{
    if ts.len() > 0 && ts.len() == ns.len() {
        lemma_forest_from(ts.drop_last(), nodes, ns.drop_last(), depth, fuel);
        if forall|i: int| 0 <= i < ts.len() ==> #[trigger] built_from(ts[i], nodes, ns[i], depth, fuel) {
            assert forall|i: int| 0 <= i < ts.drop_last().len() implies #[trigger] built_from(
                ts.drop_last()[i],
                nodes,
                ns.drop_last()[i],
                depth,
                fuel,
            ) by {
                assert(built_from(ts[i], nodes, ns[i], depth, fuel));
            }
            assert(built_from(ts[ts.len() - 1], nodes, ns[ns.len() - 1], depth, fuel));
            assert(forest_from(ts, nodes, ns, depth, fuel));
        }
        if forest_from(ts, nodes, ns, depth, fuel) {
            assert forall|i: int| 0 <= i < ts.len() implies #[trigger] built_from(ts[i], nodes, ns[i], depth, fuel) by {
                if i < ts.len() - 1 {
                    assert(built_from(ts.drop_last()[i], nodes, ns.drop_last()[i], depth, fuel));
                } else {
                    assert(ts.last() == ts[i] && ns.last() == ns[i]);
                }
            }
        }
    }
}

/// Whether `forest` holds, for each node without a parent in `nodes`, in
/// their order, its subtree built from `nodes` at depth 0 with
/// `nodes.len()` levels.
pub open spec fn forest_built_from(forest: Seq<TreeNode>, nodes: Seq<OutlineNode>) -> bool {
    let roots = root_nodes(nodes);
    &&& forest.len() == roots.len()
    &&& forall|i: int|
        0 <= i < roots.len() ==> #[trigger] built_from(forest[i], nodes, roots[i], 0, nodes.len())
}

fn build_subtree(nodes: &Vec<OutlineNode>, node: OutlineNode, depth: usize, fuel: usize) -> (t:
    TreeNode)
    requires
        depth + fuel <= nodes@.len(),
    ensures
        built_from(t, nodes@, node, depth as int, fuel as nat),
    decreases fuel,
{
    let mut children: Vec<TreeNode> = Vec::new();
    let ghost kids_spec = child_nodes(nodes@, node.id@);
    let total = nodes.len();
    if fuel > 0 {
        let kids = children_exec(nodes, &node.id);
        let mut i: usize = 0;
        while i < kids.len()
            invariant
                fuel > 0,
                total == nodes@.len(),
                depth + fuel <= total,
                kids@ == kids_spec,
                i <= kids@.len(),
                children@.len() == i,
                forall|j: int|
                    0 <= j < i ==> #[trigger] built_from(
                        children@[j],
                        nodes@,
                        kids_spec[j],
                        depth + 1,
                        (fuel - 1) as nat,
                    ),
            decreases kids@.len() - i,
        {
            let c = build_subtree(nodes, kids[i].duplicate(), depth + 1, fuel - 1);
            children.push(c);
            i = i + 1;
        }
        assert(children@.len() == kids_spec.len());
    }
    let t = TreeNode { node, children, is_expanded: true, depth };
    proof {
        if fuel > 0 {
            lemma_forest_from(t.children@, nodes@, kids_spec, depth + 1, (fuel - 1) as nat);
        }
    }
    t
}

impl TreeNode {
    /// The outline forest of `nodes`: each node without a parent, in order,
    /// with the nodes that name it as parent below it, in order, and so on
    /// down. Nodes whose parent is missing from `nodes` are left out. The
    /// descent stops after `nodes.len()` levels, which only a chain of
    /// parents that runs in a circle through repeated ids can reach.
    pub fn build_tree(nodes: Vec<OutlineNode>) -> (res: Vec<TreeNode>)
        ensures
            forest_built_from(res@, nodes@),
    {
        let roots = roots_exec(&nodes);
        let mut out: Vec<TreeNode> = Vec::new();
        let mut i: usize = 0;
        while i < roots.len()
            invariant
                roots@ == root_nodes(nodes@),
                i <= roots@.len(),
                out@.len() == i,
                forall|j: int|
                    0 <= j < i ==> #[trigger] built_from(
                        out@[j],
                        nodes@,
                        roots@[j],
                        0,
                        nodes@.len(),
                    ),
            decreases roots@.len() - i,
        {
            let t = build_subtree(&nodes, roots[i].duplicate(), 0, nodes.len());
            out.push(t);
            i = i + 1;
        }
        out
    }
}

} // verus!



verus! {

// ------------------------------------------------------------------
// Visible rows
// ------------------------------------------------------------------

/// The rows that `t` shows, top to bottom: `t` itself and, where it is
/// expanded, the rows of its children in order.
pub open spec fn flat(t: TreeNode) -> Seq<TreeNode>
    decreases t,
{
    if t.is_expanded {
        seq![t] + flat_forest(t.children@)
    } else {
        seq![t]
    }
}

/// The rows of the trees of `f`, one tree after the other.
pub open spec fn flat_forest(f: Seq<TreeNode>) -> Seq<TreeNode>
    decreases f,
{
    if f.len() == 0 {
        Seq::empty()
    } else {
        flat_forest(f.drop_last()) + flat(f.last())
    }
}

/// The nodes that the references of `v` point to.
pub open spec fn derefs(v: Seq<&TreeNode>) -> Seq<TreeNode> {
    v.map_values(|r: &TreeNode| *r)
}

/// The paths of `v`, as sequences.
pub open spec fn path_views(v: Seq<Vec<usize>>) -> Seq<Seq<usize>> {
    v.map_values(|p: Vec<usize>| p@)
}

fn append_refs<'a>(dst: &mut Vec<&'a TreeNode>, src: Vec<&'a TreeNode>)
    ensures
        derefs(final(dst)@) == derefs(old(dst)@) + derefs(src@),
{
    let mut k: usize = 0;
    while k < src.len()
        invariant
            k <= src@.len(),
            derefs(dst@) == derefs(old(dst)@) + derefs(src@.take(k as int)),
        decreases src@.len() - k,
    {
        proof {
            assert(derefs(src@.take(k + 1)) =~= derefs(src@.take(k as int)).push(*src@[k as int]));
        }
        let r = src[k];
        let ghost before = dst@;
        dst.push(r);
        proof {
            assert(derefs(dst@) =~= derefs(before).push(*r));
        }
        k = k + 1;
    }
    assert(src@.take(k as int) =~= src@);
}

impl TreeNode {
    /// The rows that the node shows, top to bottom: itself and, where it
    /// is expanded, the rows of each child in order.
    pub fn flatten(&self) -> (res: Vec<&TreeNode>)
        ensures
            derefs(res@) == flat(*self),
        decreases self,
    {
        let mut result: Vec<&TreeNode> = Vec::new();
        result.push(self);
        assert(derefs(result@) =~= seq![*self]);
        if self.is_expanded {
            let mut i: usize = 0;
            while i < self.children.len()
                invariant
                    i <= self.children@.len(),
                    derefs(result@) == seq![*self] + flat_forest(self.children@.take(i as int)),
                decreases self.children@.len() - i,
            {
                proof {
                    assert(self.children@.take(i + 1).drop_last() =~= self.children@.take(i as int));
                    assert(decreases_to!(self.children => self.children@));
                }
                let sub = self.children[i].flatten();
                append_refs(&mut result, sub);
                proof {
                    assert(derefs(result@) =~= seq![*self] + flat_forest(self.children@.take(i + 1)));
                }
                i = i + 1;
            }
            assert(self.children@.take(i as int) =~= self.children@);
        }
        result
    }
}

/// The rows of the trees of `forest`, one tree after the other.
pub fn visible_nodes(forest: &Vec<TreeNode>) -> (res: Vec<&TreeNode>)
    ensures
        derefs(res@) == flat_forest(forest@),
{
    let mut result: Vec<&TreeNode> = Vec::new();
    let mut i: usize = 0;
    while i < forest.len()
        invariant
            i <= forest@.len(),
            derefs(result@) == flat_forest(forest@.take(i as int)),
        decreases forest@.len() - i,
    {
        proof {
            assert(forest@.take(i + 1).drop_last() =~= forest@.take(i as int));
        }
        let sub = forest[i].flatten();
        append_refs(&mut result, sub);
        i = i + 1;
    }
    assert(forest@.take(i as int) =~= forest@);
    result
}

// ------------------------------------------------------------------
// Paths to the visible rows
// ------------------------------------------------------------------

/// `ps` with `i` put in front of each path.
pub open spec fn prefixed(i: usize, ps: Seq<Seq<usize>>) -> Seq<Seq<usize>> {
    ps.map_values(|q: Seq<usize>| seq![i] + q)
}

/// The paths below `t` to the rows it shows, in row order: the empty
/// path to `t` itself and, where it is expanded, the paths of its
/// children.
pub open spec fn tree_paths(t: TreeNode) -> Seq<Seq<usize>>
    decreases t,
{
    if t.is_expanded {
        seq![Seq::<usize>::empty()] + forest_paths(t.children@)
    } else {
        seq![Seq::<usize>::empty()]
    }
}

/// The paths into `f` to the rows it shows, in row order: for each tree,
/// its place in `f` followed by a path below it.
pub open spec fn forest_paths(f: Seq<TreeNode>) -> Seq<Seq<usize>>
    decreases f,
{
    if f.len() == 0 {
        Seq::empty()
    } else {
        forest_paths(f.drop_last()) + prefixed((f.len() - 1) as usize, tree_paths(f.last()))
    }
}

/// The node that the child indices of `q` lead to from `t`.
pub open spec fn node_below(t: TreeNode, q: Seq<usize>) -> Option<TreeNode>
    decreases q.len(),
{
    if q.len() == 0 {
        Some(t)
    } else if q[0] >= t.children@.len() {
        None
    } else {
        node_below(t.children@[q[0] as int], q.drop_first())
    }
}

/// The node that `path` leads to in `f`: its first index picks a tree,
/// each further index a child.
pub open spec fn node_at(f: Seq<TreeNode>, path: Seq<usize>) -> Option<TreeNode> {
    if path.len() == 0 || path[0] >= f.len() {
        None
    } else {
        node_below(f[path[0] as int], path.drop_first())
    }
}

fn push_prefixed(dst: &mut Vec<Vec<usize>>, i: usize, src: &Vec<Vec<usize>>)
    ensures
        path_views(final(dst)@) == path_views(old(dst)@) + prefixed(i, path_views(src@)),
{
    let mut k: usize = 0;
    while k < src.len()
        invariant
            k <= src@.len(),
            path_views(dst@) == path_views(old(dst)@) + prefixed(i, path_views(src@.take(k as int))),
        decreases src@.len() - k,
    {
        let mut p: Vec<usize> = Vec::new();
        p.push(i);
        let q = &src[k];
        let mut m: usize = 0;
        while m < q.len()
            invariant
                m <= q@.len(),
                p@ == seq![i] + q@.take(m as int),
            decreases q@.len() - m,
        {
            p.push(q[m]);
            proof {
                assert(q@.take(m + 1) =~= q@.take(m as int).push(q@[m as int]));
            }
            m = m + 1;
        }
        proof {
            assert(q@.take(m as int) =~= q@);
        }
        let ghost before = dst@;
        dst.push(p);
        proof {
            assert(path_views(src@.take(k + 1)) =~= path_views(src@.take(k as int)).push(src@[k as int]@));
            assert(path_views(dst@) =~= path_views(before).push(p@));
            assert(prefixed(i, path_views(src@.take(k + 1))) =~= prefixed(
                i,
                path_views(src@.take(k as int)),
            ).push(seq![i] + src@[k as int]@));
        }
        k = k + 1;
    }
    assert(src@.take(k as int) =~= src@);
}

fn tree_paths_exec(t: &TreeNode) -> (res: Vec<Vec<usize>>)
    ensures
        path_views(res@) == tree_paths(*t),
    decreases t,
{
    let mut out: Vec<Vec<usize>> = Vec::new();
    out.push(Vec::new());
    assert(path_views(out@) =~= seq![Seq::<usize>::empty()]);
    if t.is_expanded {
        let mut i: usize = 0;
        while i < t.children.len()
            invariant
                i <= t.children@.len(),
                path_views(out@) == seq![Seq::<usize>::empty()] + forest_paths(t.children@.take(i as int)),
            decreases t.children@.len() - i,
        {
            proof {
                assert(t.children@.take(i + 1).drop_last() =~= t.children@.take(i as int));
                assert(decreases_to!(t.children => t.children@));
            }
            let sub = tree_paths_exec(&t.children[i]);
            push_prefixed(&mut out, i, &sub);
            proof {
                assert(path_views(out@) =~= seq![Seq::<usize>::empty()] + forest_paths(
                    t.children@.take(i + 1),
                ));
            }
            i = i + 1;
        }
        assert(t.children@.take(i as int) =~= t.children@);
    }
    out
}

/// The paths into `forest` to its visible rows, in row order.
pub fn visible_paths(forest: &Vec<TreeNode>) -> (res: Vec<Vec<usize>>)
    ensures
        path_views(res@) == forest_paths(forest@),
{
    let mut out: Vec<Vec<usize>> = Vec::new();
    let mut i: usize = 0;
    while i < forest.len()
        invariant
            i <= forest@.len(),
            path_views(out@) == forest_paths(forest@.take(i as int)),
        decreases forest@.len() - i,
    {
        proof {
            assert(forest@.take(i + 1).drop_last() =~= forest@.take(i as int));
        }
        let sub = tree_paths_exec(&forest[i]);
        push_prefixed(&mut out, i, &sub);
        proof {
            assert(path_views(out@) =~= forest_paths(forest@.take(i + 1)));
        }
        i = i + 1;
    }
    assert(forest@.take(i as int) =~= forest@);
    out
}

/// The node that `path` leads to in `forest`, if any.
pub fn node_by_path<'a>(forest: &'a Vec<TreeNode>, path: &[usize]) -> (res: Option<&'a TreeNode>)
    ensures
        match res {
            Some(r) => node_at(forest@, path@) == Some(*r),
            None => node_at(forest@, path@) is None,
        },
{
    if path.len() == 0 || path[0] >= forest.len() {
        return None;
    }
    let mut node: &TreeNode = &forest[path[0]];
    let mut k: usize = 1;
    assert(path@.drop_first() =~= path@.skip(1));
    while k < path.len()
        invariant
            1 <= k <= path@.len(),
            node_at(forest@, path@) == node_below(*node, path@.skip(k as int)),
        decreases path@.len() - k,
    {
        let idx = path[k];
        proof {
            let rest = path@.skip(k as int);
            assert(rest[0] == idx);
            assert(rest.drop_first() =~= path@.skip(k + 1));
        }
        if idx >= node.children.len() {
            return None;
        }
        node = &node.children[idx];
        k = k + 1;
    }
    assert(path@.skip(k as int).len() == 0);
    Some(node)
}

} // verus!

verus! {

proof fn lemma_tree_paths(t: TreeNode)
    ensures
        tree_paths(t).len() == flat(t).len(),
        forall|j: int|
            0 <= j < tree_paths(t).len() ==> node_below(t, #[trigger] tree_paths(t)[j]) == Some(
                flat(t)[j],
            ),
    decreases t,
{
    if t.is_expanded {
        assert(decreases_to!(t => t.children));
        assert(decreases_to!(t.children => t.children@));
        assert(t.children.len() == t.children@.len());
        lemma_forest_paths(t.children@);
        let fp = forest_paths(t.children@);
        let ff = flat_forest(t.children@);
        assert forall|j: int| 0 <= j < tree_paths(t).len() implies node_below(
            t,
            #[trigger] tree_paths(t)[j],
        ) == Some(flat(t)[j]) by {
            if j > 0 {
                let p = fp[j - 1];
                assert(tree_paths(t)[j] == p);
                assert(flat(t)[j] == ff[j - 1]);
                assert(node_at(t.children@, p) == Some(ff[j - 1]));
            } else {
                assert(tree_paths(t)[j] =~= Seq::<usize>::empty());
            }
        }
    } else {
        assert(tree_paths(t)[0] =~= Seq::<usize>::empty());
    }
}

proof fn lemma_forest_paths(f: Seq<TreeNode>)
    requires
        f.len() <= usize::MAX,
    ensures
        forest_paths(f).len() == flat_forest(f).len(),
        forall|i: int|
            0 <= i < forest_paths(f).len() ==> node_at(f, #[trigger] forest_paths(f)[i]) == Some(
                flat_forest(f)[i],
            ),
    decreases f,
{
    if f.len() > 0 {
        let dl = f.drop_last();
        let last = f.last();
        let n = (f.len() - 1) as usize;
        lemma_forest_paths(dl);
        lemma_tree_paths(last);
        let a = forest_paths(dl);
        let tp = tree_paths(last);
        assert forall|i: int| 0 <= i < forest_paths(f).len() implies node_at(
            f,
            #[trigger] forest_paths(f)[i],
        ) == Some(flat_forest(f)[i]) by {
            if i < a.len() {
                let p = a[i];
                assert(forest_paths(f)[i] == p);
                assert(flat_forest(f)[i] == flat_forest(dl)[i]);
                assert(node_at(dl, p) == Some(flat_forest(dl)[i]));
                assert(f[p[0] as int] == dl[p[0] as int]);
            } else {
                let q = tp[i - a.len()];
                let p = seq![n] + q;
                assert(forest_paths(f)[i] == p);
                assert(flat_forest(f)[i] == flat(last)[i - a.len()]);
                assert(p.drop_first() =~= q);
                assert(node_below(last, q) == Some(flat(last)[i - a.len()]));
            }
        }
    }
}

/// The paths of the visible rows and the rows themselves come in the same
/// order: there are as many paths as rows, and the path at each place
/// leads to the row at that place.
pub proof fn law_visible_paths_lead_to_rows(forest: Seq<TreeNode>)
    requires
        forest.len() <= usize::MAX,
    ensures
        forest_paths(forest).len() == flat_forest(forest).len(),
        forall|i: int|
            0 <= i < forest_paths(forest).len() ==> node_at(forest, #[trigger] forest_paths(forest)[i])
                == Some(flat_forest(forest)[i]),
{
    lemma_forest_paths(forest);
}

} // verus!

verus! {

// ------------------------------------------------------------------
// Expanding and collapsing
// ------------------------------------------------------------------

/// Whether `t` is expanded after a toggle with `expand` (`Some` sets,
/// `None` flips); a node without children keeps its state.
pub open spec fn expanded_after(t: TreeNode, expand: Option<bool>) -> bool {
    if t.children@.len() == 0 {
        t.is_expanded
    } else {
        match expand {
            Some(b) => b,
            None => !t.is_expanded,
        }
    }
}

/// Whether `new` is `old` after the toggle of the node that the child
/// indices `q` lead to from it (nothing changes where they lead nowhere).
pub open spec fn tree_toggled(new: TreeNode, old: TreeNode, q: Seq<usize>, expand: Option<bool>) -> bool
    decreases q.len(), 1int,
{
    &&& new.node == old.node
    &&& new.depth == old.depth
    &&& if q.len() == 0 {
        &&& new.children@ == old.children@
        &&& new.is_expanded == expanded_after(old, expand)
    } else {
        &&& new.is_expanded == old.is_expanded
        &&& forest_toggled(new.children@, old.children@, q, expand)
    }
}

/// Whether `new` is `old` after the toggle of the node that `path` leads
/// to in it (nothing changes where it leads nowhere).
pub open spec fn forest_toggled(
    new: Seq<TreeNode>,
    old: Seq<TreeNode>,
    path: Seq<usize>,
    expand: Option<bool>,
) -> bool
    decreases path.len(), 0int,
{
    &&& new.len() == old.len()
    &&& if path.len() == 0 || path[0] >= old.len() {
        new == old
    } else {
        &&& forall|i: int| 0 <= i < old.len() && i != path[0] ==> new[i] == old[i]
        &&& tree_toggled(new[path[0] as int], old[path[0] as int], path.drop_first(), expand)
    }
}

fn toggle_in_tree(t: &mut TreeNode, path: &[usize], start: usize, expand: Option<bool>)
    requires
        start <= path@.len(),
    ensures
        tree_toggled(*final(t), *old(t), path@.skip(start as int), expand),
    decreases path@.len() - start, 1int,
{
    if start >= path.len() {
        if t.children.len() > 0 {
            match expand {
                Some(b) => {
                    t.is_expanded = b;
                },
                None => {
                    t.is_expanded = !t.is_expanded;
                },
            }
        }
        return;
    }
    toggle_in_forest(&mut t.children, path, start, expand);
}

fn toggle_in_forest(f: &mut Vec<TreeNode>, path: &[usize], start: usize, expand: Option<bool>)
    requires
        start <= path@.len(),
    ensures
        forest_toggled(final(f)@, old(f)@, path@.skip(start as int), expand),
    decreases path@.len() - start, 0int,
{
    if start >= path.len() || path[start] >= f.len() {
        return;
    }
    let idx = path[start];
    proof {
        assert(path@.skip(start as int).drop_first() =~= path@.skip(start + 1));
    }
    let mut t = f.remove(idx);
    toggle_in_tree(&mut t, path, start + 1, expand);
    f.insert(idx, t);
    proof {
        assert forall|i: int| 0 <= i < old(f)@.len() && i != idx implies f@[i] == old(f)@[i] by {
            if i < idx {
            } else {
            }
        }
    }
}

} // verus!

verus! {

// ------------------------------------------------------------------
// The state of the outline view
// ------------------------------------------------------------------

/// The state of the outline view: the loaded note, its tree, the cursor
/// over the visible rows and the edit in progress. Storage stays with the
/// caller, which hands in what it read and carries out what is asked.
#[derive(Debug)]
pub struct App {
    pub should_quit: bool,
    pub current_note: Option<String>,
    pub outline_tree: Vec<TreeNode>,
    pub cursor_position: usize,
    pub scroll_offset: usize,
    pub is_editing: bool,
    pub edit_buffer: String,
}

/// The visible rows of the view.
pub open spec fn rows_of(app: App) -> Seq<TreeNode> {
    flat_forest(app.outline_tree@)
}

/// The paths of the visible rows of the view.
pub open spec fn paths_of(app: App) -> Seq<Seq<usize>> {
    forest_paths(app.outline_tree@)
}

/// The path of the row under the cursor, if the cursor is on a row.
pub open spec fn selected_path(app: App) -> Option<Seq<usize>> {
    if app.cursor_position < paths_of(app).len() {
        Some(paths_of(app)[app.cursor_position as int])
    } else {
        None
    }
}

/// The row under the cursor, if any.
pub open spec fn selected_row(app: App) -> Option<TreeNode> {
    if app.cursor_position < rows_of(app).len() {
        Some(rows_of(app)[app.cursor_position as int])
    } else {
        None
    }
}

/// The id of the node that `path` leads to in `f`, if any.
pub open spec fn id_at(f: Seq<TreeNode>, path: Seq<usize>) -> Option<String> {
    match node_at(f, path) {
        Some(t) => Some(t.node.id),
        None => None,
    }
}

/// The id of the row under the cursor, if any.
pub open spec fn selected_id(app: App) -> Option<String> {
    match selected_row(app) {
        Some(t) => Some(t.node.id),
        None => None,
    }
}

/// The first place among `rows` of a node with id `id`, if any.
pub open spec fn first_row_with(rows: Seq<TreeNode>, id: Seq<char>, from: int) -> Option<int>
    decreases rows.len() - from,
{
    if from < 0 || from >= rows.len() {
        None
    } else if rows[from].node.id@ == id {
        Some(from)
    } else {
        first_row_with(rows, id, from + 1)
    }
}

/// Whether the views agree in everything but `outline_tree`,
/// `cursor_position` and `scroll_offset`.
pub open spec fn same_but_tree_and_cursor(a: App, b: App) -> bool {
    &&& a.should_quit == b.should_quit
    &&& a.current_note == b.current_note
    &&& a.is_editing == b.is_editing
    &&& a.edit_buffer == b.edit_buffer
}

proof fn lemma_paths_nonempty(f: Seq<TreeNode>)
    requires
        f.len() <= usize::MAX,
    ensures
        forall|i: int|
            0 <= i < forest_paths(f).len() ==> (#[trigger] forest_paths(f)[i]).len() >= 1
                && forest_paths(f)[i][0] < f.len(),
    decreases f.len(),
{
    if f.len() > 0 {
        lemma_paths_nonempty(f.drop_last());
        let a = forest_paths(f.drop_last());
        assert forall|i: int| 0 <= i < forest_paths(f).len() implies (#[trigger] forest_paths(
            f,
        )[i]).len() >= 1 && forest_paths(f)[i][0] < f.len() by {
            if i >= a.len() {
                let q = tree_paths(f.last())[i - a.len()];
                assert(forest_paths(f)[i] == seq![(f.len() - 1) as usize] + q);
            } else {
                assert(forest_paths(f)[i] == a[i]);
            }
        }
    }
}

/// Where the cursor goes one row down: the next row, unless it is on the
/// last row or below.
pub open spec fn cursor_after_down(app: App) -> int {
    if app.cursor_position + 1 < rows_of(app).len() {
        app.cursor_position + 1
    } else {
        app.cursor_position as int
    }
}

/// Where the cursor goes one row up: the row before, unless it is at the
/// top.
pub open spec fn cursor_after_up(app: App) -> int {
    if app.cursor_position > 0 {
        app.cursor_position - 1
    } else {
        app.cursor_position as int
    }
}

/// Whether the cursor is on a row, or at the top of a view without rows.
pub open spec fn cursor_on_row(app: App) -> bool {
    app.cursor_position < rows_of(app).len() || app.cursor_position == 0
}

/// The number of children of the node that `parent` leads to in `f`, or
/// of trees of `f` where it is empty; 0 where it leads nowhere.
pub open spec fn children_count(f: Seq<TreeNode>, parent: Seq<usize>) -> int {
    if parent.len() == 0 {
        f.len() as int
    } else {
        match node_at(f, parent) {
            Some(t) => t.children@.len() as int,
            None => 0,
        }
    }
}

fn prefix_of(path: &Vec<usize>, n: usize) -> (res: Vec<usize>)
    requires
        n <= path@.len(),
    ensures
        res@ == path@.take(n as int),
{
    let mut out: Vec<usize> = Vec::new();
    let mut k: usize = 0;
    while k < n
        invariant
            k <= n <= path@.len(),
            out@ == path@.take(k as int),
        decreases n - k,
    {
        out.push(path[k]);
        proof {
            assert(path@.take(k + 1) =~= path@.take(k as int).push(path@[k as int]));
        }
        k = k + 1;
    }
    out
}

fn id_by_path(forest: &Vec<TreeNode>, path: &[usize]) -> (res: Option<String>)
    ensures
        res == id_at(forest@, path@),
{
    match node_by_path(forest, path) {
        Some(t) => Some(t.node.id.clone()),
        None => None,
    }
}

impl App {
    /// A view with no note loaded, the cursor at the top and no edit.
    pub fn new() -> (res: App)
        ensures
            !res.should_quit,
            res.current_note is None,
            res.outline_tree@.len() == 0,
            res.cursor_position == 0,
            res.scroll_offset == 0,
            !res.is_editing,
            res.edit_buffer@.len() == 0,
    {
        App {
            should_quit: false,
            current_note: None,
            outline_tree: Vec::new(),
            cursor_position: 0,
            scroll_offset: 0,
            is_editing: false,
            edit_buffer: String::new(),
        }
    }

    /// Shows the note `note_id` with its stored `nodes`, cursor and scroll
    /// at the top.
    pub fn load_note(&mut self, note_id: String, nodes: Vec<OutlineNode>)
        ensures
            final(self).current_note == Some(note_id),
            forest_built_from(final(self).outline_tree@, nodes@),
            final(self).cursor_position == 0,
            final(self).scroll_offset == 0,
            final(self).should_quit == old(self).should_quit,
            final(self).is_editing == old(self).is_editing,
            final(self).edit_buffer == old(self).edit_buffer,
    {
        self.current_note = Some(note_id);
        self.outline_tree = TreeNode::build_tree(nodes);
        self.cursor_position = 0;
        self.scroll_offset = 0;
    }

    /// The visible rows, top to bottom.
    pub fn get_visible_nodes(&self) -> (res: Vec<&TreeNode>)
        ensures
            derefs(res@) == rows_of(*self),
    {
        visible_nodes(&self.outline_tree)
    }

    /// The id of the row under the cursor, if the cursor is on a row.
    pub fn get_selected_node_id(&self) -> (res: Option<String>)
        ensures
            res == selected_id(*self),
    {
        let visible = self.get_visible_nodes();
        if self.cursor_position < visible.len() {
            let r = visible[self.cursor_position];
            proof {
                assert(derefs(visible@)[self.cursor_position as int] == *r);
            }
            Some(r.node.id.clone())
        } else {
            None
        }
    }

    /// The number of children of the node that `parent_path` leads to, or
    /// of trees where it is empty; 0 where it leads nowhere.
    pub fn get_children_count_by_path(&self, parent_path: &[usize]) -> (res: usize)
        ensures
            res == (if parent_path@.len() == 0 {
                self.outline_tree@.len()
            } else {
                match node_at(self.outline_tree@, parent_path@) {
                    Some(t) => t.children@.len(),
                    None => 0,
                }
            }),
    {
        if parent_path.len() == 0 {
            return self.outline_tree.len();
        }
        match node_by_path(&self.outline_tree, parent_path) {
            Some(t) => t.children.len(),
            None => 0,
        }
    }

    /// Expands (`Some(true)`), collapses (`Some(false)`) or flips (`None`)
    /// the row under the cursor, where it has children.
    pub fn toggle_selected_expand_collapse(&mut self, expand: Option<bool>)
        ensures
            same_but_tree_and_cursor(*final(self), *old(self)),
            final(self).cursor_position == old(self).cursor_position,
            final(self).scroll_offset == old(self).scroll_offset,
            match selected_path(*old(self)) {
                Some(p) => forest_toggled(final(self).outline_tree@, old(self).outline_tree@, p, expand),
                None => final(self).outline_tree@ == old(self).outline_tree@,
            },
            selected_row(*old(self)) is Some ==> selected_row(*final(self)) is Some
                && selected_row(*final(self))->0.node == selected_row(*old(self))->0.node,
    {
        let paths = visible_paths(&self.outline_tree);
        let ghost before = self.outline_tree@;
        proof {
            assert(self.outline_tree.len() == self.outline_tree@.len());
            lemma_forest_paths(before);
        }
        if self.cursor_position < paths.len() {
            let path = &paths[self.cursor_position];
            proof {
                assert(path_views(paths@)[self.cursor_position as int] == path@);
                assert(path@.skip(0) =~= path@);
            }
            toggle_in_forest(&mut self.outline_tree, path.as_slice(), 0, expand);
            proof {
                law_toggle_keeps_selected_row(
                    self.outline_tree@,
                    before,
                    self.cursor_position as int,
                    expand,
                );
            }
        }
    }

    /// Moves the cursor one row up, unless it is at the top, and scrolls
    /// up with it.
    pub fn move_cursor_up(&mut self)
        ensures
            same_but_tree_and_cursor(*final(self), *old(self)),
            final(self).outline_tree == old(self).outline_tree,
            final(self).cursor_position == cursor_after_up(*old(self)),
            final(self).scroll_offset == if old(self).cursor_position > 0
                && final(self).cursor_position < old(self).scroll_offset {
                final(self).cursor_position as int
            } else {
                old(self).scroll_offset as int
            },
    {
        if self.cursor_position > 0 {
            self.cursor_position = self.cursor_position - 1;
            if self.cursor_position < self.scroll_offset {
                self.scroll_offset = self.cursor_position;
            }
        }
    }

    /// Moves the cursor one row down, unless it is at the last row.
    pub fn move_cursor_down(&mut self)
        ensures
            same_but_tree_and_cursor(*final(self), *old(self)),
            final(self).outline_tree == old(self).outline_tree,
            final(self).scroll_offset == old(self).scroll_offset,
            final(self).cursor_position == cursor_after_down(*old(self)),
    {
        let n = self.get_visible_nodes().len();
        let last = if n > 0 {
            n - 1
        } else {
            0
        };
        if self.cursor_position < last {
            self.cursor_position = self.cursor_position + 1;
        }
    }

    /// Starts editing the row under the cursor with `content`, the stored
    /// content of its node (`None` where it could not be read); nothing
    /// happens during an edit or without a row under the cursor.
    pub fn start_editing(&mut self, content: Option<String>)
        ensures
            final(self).should_quit == old(self).should_quit,
            final(self).current_note == old(self).current_note,
            final(self).outline_tree == old(self).outline_tree,
            final(self).cursor_position == old(self).cursor_position,
            final(self).scroll_offset == old(self).scroll_offset,
            if !old(self).is_editing && selected_id(*old(self)) is Some && content is Some {
                &&& final(self).is_editing
                &&& final(self).edit_buffer == content->0
            } else {
                &&& final(self).is_editing == old(self).is_editing
                &&& final(self).edit_buffer == old(self).edit_buffer
            },
    {
        if self.is_editing {
            return;
        }
        let id = self.get_selected_node_id();
        if id.is_some() {
            match content {
                Some(c) => {
                    self.edit_buffer = c;
                    self.is_editing = true;
                },
                None => {},
            }
        }
    }

    /// Leaves the edit without saving it.
    pub fn cancel_edit(&mut self)
        ensures
            !final(self).is_editing,
            final(self).edit_buffer@.len() == 0,
            final(self).should_quit == old(self).should_quit,
            final(self).current_note == old(self).current_note,
            final(self).outline_tree == old(self).outline_tree,
            final(self).cursor_position == old(self).cursor_position,
            final(self).scroll_offset == old(self).scroll_offset,
    {
        self.is_editing = false;
        self.edit_buffer = String::new();
    }

    /// Ends the edit and hands back the id of the row under the cursor with
    /// the edited content, to be saved; during no edit, or without a row
    /// under the cursor, nothing changes and `None` comes back.
    pub fn commit_edit(&mut self) -> (res: Option<(String, String)>)
        ensures
            final(self).should_quit == old(self).should_quit,
            final(self).current_note == old(self).current_note,
            final(self).outline_tree == old(self).outline_tree,
            final(self).cursor_position == old(self).cursor_position,
            final(self).scroll_offset == old(self).scroll_offset,
            if old(self).is_editing && selected_id(*old(self)) is Some {
                &&& res == Some((selected_id(*old(self))->0, old(self).edit_buffer))
                &&& !final(self).is_editing
                &&& final(self).edit_buffer@.len() == 0
            } else {
                &&& res is None
                &&& final(self).is_editing == old(self).is_editing
                &&& final(self).edit_buffer == old(self).edit_buffer
            },
    {
        if !self.is_editing {
            return None;
        }
        match self.get_selected_node_id() {
            Some(id) => {
                let mut content = String::new();
                std::mem::swap(&mut content, &mut self.edit_buffer);
                self.is_editing = false;
                Some((id, content))
            },
            None => None,
        }
    }

    /// Where a new sibling of the row under the cursor goes, to be created
    /// by the caller: `Some` of the id of its parent (`None` for a top-level row, or where the parent
    /// cannot be found); `None` without a loaded note or a row under the
    /// cursor.
    pub fn create_sibling_below(&self) -> (res: Option<Option<String>>)
        ensures
            res == (if self.current_note is None {
                None
            } else {
                match selected_path(*self) {
                    Some(p) => if p.len() == 1 {
                        Some(None)
                    } else {
                        Some(id_at(self.outline_tree@, p.take(p.len() - 1)))
                    },
                    None => None,
                }
            }),
    {
        if self.current_note.is_none() {
            return None;
        }
        let paths = visible_paths(&self.outline_tree);
        if self.cursor_position >= paths.len() {
            return None;
        }
        let path = &paths[self.cursor_position];
        proof {
            assert(path_views(paths@)[self.cursor_position as int] == path@);
        }
        if path.len() == 1 {
            return Some(None);
        }
        proof {
            assert(self.outline_tree.len() == self.outline_tree@.len());
            lemma_paths_nonempty(self.outline_tree@);
        }
        let parent = prefix_of(path, path.len() - 1);
        Some(id_by_path(&self.outline_tree, parent.as_slice()))
    }

    /// Takes the row under the cursor for deletion: hands back its id and
    /// moves the cursor one row up, unless it is at the top; without a row
    /// under the cursor nothing changes and `None` comes back.
    pub fn delete_selected(&mut self) -> (res: Option<String>)
        ensures
            res == selected_id(*old(self)),
            same_but_tree_and_cursor(*final(self), *old(self)),
            final(self).outline_tree == old(self).outline_tree,
            final(self).scroll_offset == old(self).scroll_offset,
            final(self).cursor_position == if res is Some && old(self).cursor_position > 0 {
                old(self).cursor_position - 1
            } else {
                old(self).cursor_position as int
            },
    {
        let id = self.get_selected_node_id();
        if id.is_some() && self.cursor_position > 0 {
            self.cursor_position = self.cursor_position - 1;
        }
        id
    }

    /// The move that indents the row under the cursor: its id and the id
    /// of the sibling before it, under which it goes last; `None` for a
    /// first child, a first top-level row or no row under the cursor.
    pub fn indent_selected(&self) -> (res: Option<(String, String)>)
        ensures
            res == (match selected_path(*self) {
                Some(p) => if p.len() == 0 || p.last() == 0 {
                    None
                } else {
                    match (
                        id_at(self.outline_tree@, p),
                        id_at(self.outline_tree@, p.drop_last().push((p.last() - 1) as usize)),
                    ) {
                        (Some(a), Some(b)) => Some((a, b)),
                        _ => None,
                    }
                },
                None => None,
            }),
    {
        let paths = visible_paths(&self.outline_tree);
        if self.cursor_position >= paths.len() {
            return None;
        }
        let path = &paths[self.cursor_position];
        proof {
            assert(path_views(paths@)[self.cursor_position as int] == path@);
        }
        if path.len() == 0 {
            return None;
        }
        let idx = path[path.len() - 1];
        if idx == 0 {
            return None;
        }
        let mut prev = prefix_of(path, path.len() - 1);
        prev.push(idx - 1);
        proof {
            assert(prev@ =~= path@.drop_last().push((path@.last() - 1) as usize));
        }
        let prev_id = match id_by_path(&self.outline_tree, prev.as_slice()) {
            Some(i) => i,
            None => {
                return None;
            },
        };
        match id_by_path(&self.outline_tree, path.as_slice()) {
            Some(i) => Some((i, prev_id)),
            None => None,
        }
    }

    /// The move that outdents the row under the cursor: its id and the id
    /// of its grandparent (`None` for the top level), under which it goes
    /// last; `None` for a top-level row or no row under the cursor.
    pub fn outdent_selected(&self) -> (res: Option<(String, Option<String>)>)
        ensures
            res == (match selected_path(*self) {
                Some(p) => if p.len() < 2 {
                    None
                } else {
                    match id_at(self.outline_tree@, p) {
                        Some(a) => Some(
                            (
                                a,
                                if p.len() == 2 {
                                    None
                                } else {
                                    id_at(self.outline_tree@, p.take(p.len() - 2))
                                },
                            ),
                        ),
                        None => None,
                    }
                },
                None => None,
            }),
    {
        let paths = visible_paths(&self.outline_tree);
        if self.cursor_position >= paths.len() {
            return None;
        }
        let path = &paths[self.cursor_position];
        proof {
            assert(path_views(paths@)[self.cursor_position as int] == path@);
        }
        if path.len() < 2 {
            return None;
        }
        let grandparent = if path.len() == 2 {
            None
        } else {
            let gp = prefix_of(path, path.len() - 2);
            id_by_path(&self.outline_tree, gp.as_slice())
        };
        match id_by_path(&self.outline_tree, path.as_slice()) {
            Some(i) => Some((i, grandparent)),
            None => None,
        }
    }

    /// The swap that moves the row under the cursor up among its
    /// siblings: its id and the id of the sibling before it; `None` for a
    /// first sibling or no row under the cursor.
    pub fn move_selected_up(&self) -> (res: Option<(String, String)>)
        ensures
            res == (match selected_path(*self) {
                Some(p) => if p.len() == 0 || p.last() == 0 {
                    None
                } else {
                    match (
                        id_at(self.outline_tree@, p),
                        id_at(self.outline_tree@, p.drop_last().push((p.last() - 1) as usize)),
                    ) {
                        (Some(a), Some(b)) => Some((a, b)),
                        _ => None,
                    }
                },
                None => None,
            }),
    {
        self.indent_selected()
    }

    /// The swap that moves the row under the cursor down among its
    /// siblings: its id and the id of the sibling after it; `None` for a
    /// last sibling or no row under the cursor.
    pub fn move_selected_down(&self) -> (res: Option<(String, String)>)
        ensures
            res == (match selected_path(*self) {
                Some(p) => if p.len() == 0 || p.last() + 1 >= children_count(
                    self.outline_tree@,
                    p.drop_last(),
                ) {
                    None
                } else {
                    match (
                        id_at(self.outline_tree@, p),
                        id_at(self.outline_tree@, p.drop_last().push((p.last() + 1) as usize)),
                    ) {
                        (Some(a), Some(b)) => Some((a, b)),
                        _ => None,
                    }
                },
                None => None,
            }),
    {
        let paths = visible_paths(&self.outline_tree);
        if self.cursor_position >= paths.len() {
            return None;
        }
        let path = &paths[self.cursor_position];
        proof {
            assert(path_views(paths@)[self.cursor_position as int] == path@);
        }
        if path.len() == 0 {
            return None;
        }
        let idx = path[path.len() - 1];
        let parent = prefix_of(path, path.len() - 1);
        proof {
            assert(parent@ =~= path@.drop_last());
        }
        let count = self.get_children_count_by_path(parent.as_slice());
        if idx >= count || count - idx <= 1 {
            return None;
        }
        let mut next = parent;
        next.push(idx + 1);
        let current_id = match id_by_path(&self.outline_tree, path.as_slice()) {
            Some(i) => i,
            None => {
                return None;
            },
        };
        match id_by_path(&self.outline_tree, next.as_slice()) {
            Some(i) => Some((current_id, i)),
            None => None,
        }
    }

    /// Shows the stored `nodes` of the loaded note again and puts the
    /// cursor on the first row of the node `prefer_id`, or, without one,
    /// of the node under the cursor in the new tree; at the top where that
    /// node is not shown. Without a loaded note nothing changes.
    pub fn refresh_current_note_preserve_selection(
        &mut self,
        nodes: Vec<OutlineNode>,
        prefer_id: Option<String>,
    )
        ensures
            same_but_tree_and_cursor(*final(self), *old(self)),
            final(self).scroll_offset == old(self).scroll_offset,
            old(self).current_note is None ==> {
                &&& final(self).outline_tree == old(self).outline_tree
                &&& final(self).cursor_position == old(self).cursor_position
            },
            old(self).current_note is Some ==> {
                let rows = rows_of(*final(self));
                let target = match prefer_id {
                    Some(i) => Some(i),
                    None => if old(self).cursor_position < rows.len() {
                        Some(rows[old(self).cursor_position as int].node.id)
                    } else {
                        None
                    },
                };
                &&& forest_built_from(final(self).outline_tree@, nodes@)
                &&& final(self).cursor_position == match target {
                    Some(t) => match first_row_with(rows, t@, 0) {
                        Some(k) => k,
                        None => 0,
                    },
                    None => 0,
                }
            },
    {
        if self.current_note.is_none() {
            return;
        }
        self.outline_tree = TreeNode::build_tree(nodes);
        let preferred = match prefer_id {
            Some(i) => Some(i),
            None => self.get_selected_node_id(),
        };
        match preferred {
            Some(target) => {
                let visible = self.get_visible_nodes();
                let ghost rows = derefs(visible@);
                let mut k: usize = 0;
                let mut found: Option<usize> = None;
                while k < visible.len()
                    invariant_except_break
                        found is None,
                    invariant
                        rows == derefs(visible@),
                        k <= visible@.len(),
                        first_row_with(rows, target@, 0) == first_row_with(rows, target@, k as int),
                    ensures
                        match found {
                            Some(i) => first_row_with(rows, target@, 0) == Some(i as int),
                            None => first_row_with(rows, target@, 0) is None,
                        },
                    decreases visible@.len() - k,
                {
                    let r = visible[k];
                    proof {
                        assert(rows[k as int] == *r);
                    }
                    if r.node.id == target {
                        found = Some(k);
                        break;
                    }
                    k = k + 1;
                }
                self.cursor_position = match found {
                    Some(i) => i,
                    None => 0,
                };
            },
            None => {
                self.cursor_position = 0;
            },
        }
    }

    /// Handles a tick of the event loop; the view has nothing to do on one.
    pub fn tick(&mut self)
        ensures
            *final(self) == *old(self),
    {
    }

    /// Quits the view.
    pub fn quit(&mut self)
        ensures
            final(self).should_quit,
            final(self).current_note == old(self).current_note,
            final(self).outline_tree == old(self).outline_tree,
            final(self).cursor_position == old(self).cursor_position,
            final(self).scroll_offset == old(self).scroll_offset,
            final(self).is_editing == old(self).is_editing,
            final(self).edit_buffer == old(self).edit_buffer,
    {
        self.should_quit = true;
    }
}

} // verus!

verus! {

/// Moving the cursor keeps it on a row: from a row, one row down or one
/// row up is a row again.
pub proof fn law_cursor_moves_stay_on_rows(app: App, moved: App)
    requires
        cursor_on_row(app),
        moved.outline_tree == app.outline_tree,
        moved.cursor_position == cursor_after_down(app) || moved.cursor_position == cursor_after_up(
            app,
        ),
    ensures
        cursor_on_row(moved),
{
}

/// One row down and one row up again come back to the same row, where
/// there is a row below.
pub proof fn law_cursor_down_then_up(app: App, moved: App)
    requires
        app.cursor_position + 1 < rows_of(app).len(),
        moved.outline_tree == app.outline_tree,
        moved.cursor_position == cursor_after_down(app),
    ensures
        cursor_after_up(moved) == app.cursor_position,
{
}

/// One row up and one row down again come back to the same row, where
/// the cursor is on a row below the top.
pub proof fn law_cursor_up_then_down(app: App, moved: App)
    requires
        0 < app.cursor_position < rows_of(app).len(),
        moved.outline_tree == app.outline_tree,
        moved.cursor_position == cursor_after_up(app),
    ensures
        cursor_after_down(moved) == app.cursor_position,
{
}

} // verus!

verus! {

proof fn lemma_toggle_keeps_node_forest(
    new: Seq<TreeNode>,
    old: Seq<TreeNode>,
    p: Seq<usize>,
    expand: Option<bool>,
)
    requires
        forest_toggled(new, old, p, expand),
        node_at(old, p) is Some,
    ensures
        node_at(new, p) is Some,
        node_at(new, p)->0.node == node_at(old, p)->0.node,
    decreases p.len(), 0int,
{
    lemma_toggle_keeps_node_tree(new[p[0] as int], old[p[0] as int], p.drop_first(), expand);
}

proof fn lemma_toggle_keeps_node_tree(
    new: TreeNode,
    old: TreeNode,
    q: Seq<usize>,
    expand: Option<bool>,
)
    requires
        tree_toggled(new, old, q, expand),
        node_below(old, q) is Some,
    ensures
        node_below(new, q) is Some,
        node_below(new, q)->0.node == node_below(old, q)->0.node,
    decreases q.len(), 1int,
{
    if q.len() > 0 {
        assert(node_below(old, q) == node_at(old.children@, q));
        assert(node_below(new, q) == node_at(new.children@, q));
        lemma_toggle_keeps_node_forest(new.children@, old.children@, q, expand);
    }
}

proof fn lemma_toggle_keeps_earlier_paths_tree(
    new: TreeNode,
    old: TreeNode,
    q: Seq<usize>,
    j: int,
    expand: Option<bool>,
)
    requires
        tree_toggled(new, old, q, expand),
        0 <= j < tree_paths(old).len(),
        tree_paths(old)[j] == q,
        old.children@.len() <= usize::MAX,
    ensures
        j < tree_paths(new).len(),
        tree_paths(new).take(j + 1) == tree_paths(old).take(j + 1),
    decreases q.len(), 1int,
{
    if q.len() == 0 {
        if j > 0 {
            lemma_paths_nonempty(old.children@);
            assert(tree_paths(old)[j] == forest_paths(old.children@)[j - 1]);
        }
        assert(tree_paths(new).take(1) =~= tree_paths(old).take(1));
    } else {
        assert(old.is_expanded);
        assert(j > 0);
        let fq = forest_paths(old.children@);
        assert(fq[j - 1] == q);
        lemma_toggle_keeps_earlier_paths_forest(new.children@, old.children@, q, j - 1, expand);
        assert(tree_paths(new).take(j + 1) =~= tree_paths(old).take(j + 1)) by {
            assert(tree_paths(new).take(j + 1) =~= seq![Seq::<usize>::empty()] + forest_paths(
                new.children@,
            ).take(j));
            assert(tree_paths(old).take(j + 1) =~= seq![Seq::<usize>::empty()] + forest_paths(
                old.children@,
            ).take(j));
        }
    }
}

proof fn lemma_toggle_keeps_earlier_paths_forest(
    new: Seq<TreeNode>,
    old: Seq<TreeNode>,
    p: Seq<usize>,
    c: int,
    expand: Option<bool>,
)
    requires
        forest_toggled(new, old, p, expand),
        0 <= c < forest_paths(old).len(),
        forest_paths(old)[c] == p,
        old.len() <= usize::MAX,
    ensures
        c < forest_paths(new).len(),
        forest_paths(new).take(c + 1) == forest_paths(old).take(c + 1),
    decreases p.len(), 0int, old.len(),
{
    lemma_paths_nonempty(old);
    let n = old.len();
    let dl = old.drop_last();
    let ndl = new.drop_last();
    let a = forest_paths(dl);
    if c < a.len() {
        lemma_paths_nonempty(dl);
        assert(a[c] == p);
        assert(p[0] < n - 1);
        assert(forest_toggled(ndl, dl, p, expand)) by {
            assert(ndl[p[0] as int] == new[p[0] as int]);
            assert(dl[p[0] as int] == old[p[0] as int]);
        }
        lemma_toggle_keeps_earlier_paths_forest(ndl, dl, p, c, expand);
        assert(forest_paths(new).take(c + 1) =~= forest_paths(ndl).take(c + 1));
        assert(forest_paths(old).take(c + 1) =~= a.take(c + 1));
    } else {
        let tp = tree_paths(old.last());
        let q = tp[c - a.len()];
        assert(forest_paths(old)[c] == seq![(n - 1) as usize] + q);
        assert(p[0] == n - 1);
        assert(p.drop_first() =~= q);
        assert(ndl =~= dl) by {
            assert forall|i: int| 0 <= i < dl.len() implies ndl[i] == dl[i] by {
                assert(new[i] == old[i]);
            }
        }
        assert(old.last().children.len() == old.last().children@.len());
        lemma_toggle_keeps_earlier_paths_tree(new.last(), old.last(), q, c - a.len(), expand);
        let ntp = tree_paths(new.last());
        assert(forest_paths(new).take(c + 1) =~= a + prefixed((n - 1) as usize, ntp.take(c - a.len() + 1)));
        assert(forest_paths(old).take(c + 1) =~= a + prefixed((n - 1) as usize, tp.take(c - a.len() + 1)));
    }
}

/// Expanding or collapsing the row under the cursor leaves that row's
/// node under the cursor: the rows above it and the row itself keep their
/// places.
pub proof fn law_toggle_keeps_selected_row(
    new: Seq<TreeNode>,
    old: Seq<TreeNode>,
    c: int,
    expand: Option<bool>,
)
    requires
        old.len() <= usize::MAX,
        0 <= c < forest_paths(old).len(),
        forest_toggled(new, old, forest_paths(old)[c], expand),
    ensures
        c < flat_forest(new).len(),
        flat_forest(new)[c].node == flat_forest(old)[c].node,
{
    let p = forest_paths(old)[c];
    lemma_toggle_keeps_earlier_paths_forest(new, old, p, c, expand);
    assert(forest_paths(new)[c] == forest_paths(new).take(c + 1)[c]);
    assert(forest_paths(new)[c] == p);
    lemma_forest_paths(old);
    lemma_forest_paths(new);
    lemma_toggle_keeps_node_forest(new, old, p, expand);
}

} // verus!

verus! {

proof fn lemma_first_row_with(rows: Seq<TreeNode>, id: Seq<char>, from: int)
    requires
        0 <= from,
    ensures
        match first_row_with(rows, id, from) {
            Some(k) => from <= k < rows.len() && rows[k].node.id@ == id,
            None => forall|j: int| from <= j < rows.len() ==> (#[trigger] rows[j]).node.id@ != id,
        },
    decreases rows.len() - from,
{
    if from < rows.len() && rows[from].node.id@ != id {
        lemma_first_row_with(rows, id, from + 1);
    }
}

/// A refresh that prefers a node shown in the new tree puts the cursor on
/// that node: in the state that the refresh leaves (cursor at the first row
/// of the node, or at the top where it is not shown), a node that is shown
/// is the one under the cursor.
pub proof fn law_refresh_selects_preferred(app: App, id: String)
    requires
        exists|k: int| 0 <= k < rows_of(app).len() && (#[trigger] rows_of(app)[k]).node.id@ == id@,
        app.cursor_position == match first_row_with(rows_of(app), id@, 0) {
            Some(k) => k,
            None => 0,
        },
    ensures
        selected_id(app) matches Some(s) && s@ == id@,
{
    lemma_first_row_with(rows_of(app), id@, 0);
}

} // verus!

verus! {

// ------------------------------------------------------------------
// Drawing the outline
// ------------------------------------------------------------------

/// `depth` levels of indentation, two spaces each.
pub open spec fn indent_of(depth: nat) -> Seq<char>
    decreases depth,
{
    if depth == 0 {
        Seq::empty()
    } else {
        indent_of((depth - 1) as nat) + "  "@
    }
}

/// The bullet of a row: a box for a task (ticked when completed), an arrow
/// for a node with children (down when expanded), a dot otherwise.
pub open spec fn bullet_of(t: TreeNode) -> Seq<char> {
    if t.node.is_task {
        if t.node.task_completed {
            "\u{2611} "@
        } else {
            "\u{2610} "@
        }
    } else if t.children@.len() > 0 {
        if t.is_expanded {
            "\u{25bc} "@
        } else {
            "\u{25b6} "@
        }
    } else {
        "\u{2022} "@
    }
}

/// The mark of a task's priority at the end of its row.
pub open spec fn priority_mark(n: OutlineNode) -> Seq<char> {
    if n.is_task {
        match n.task_priority {
            Some(TaskPriority::High) => " \u{1f534}"@,
            Some(TaskPriority::Medium) => " \u{1f7e1}"@,
            Some(TaskPriority::Low) => " \u{1f7e2}"@,
            None => ""@,
        }
    } else {
        ""@
    }
}

/// The text of a row: indentation, bullet, content, priority mark.
pub open spec fn node_line(t: TreeNode) -> Seq<char> {
    indent_of(t.depth as nat) + bullet_of(t) + t.node.content@ + priority_mark(t.node)
}

/// The text of a row of the outline: two spaces per level of depth, the
/// bullet, the content and, for a task with a priority, its mark.
pub fn node_line_text(tree_node: &TreeNode) -> (res: String)
    ensures
        res@ == node_line(*tree_node),
{
    let mut out: Vec<char> = Vec::new();
    let mut k: usize = 0;
    while k < tree_node.depth
        invariant
            k <= tree_node.depth,
            out@ == indent_of(k as nat),
        decreases tree_node.depth - k,
    {
        extend_chars(&mut out, chars_of("  ").as_slice());
        k = k + 1;
    }
    let node = &tree_node.node;
    let bullet = if node.is_task {
        if node.task_completed {
            "\u{2611} "
        } else {
            "\u{2610} "
        }
    } else if tree_node.children.len() > 0 {
        if tree_node.is_expanded {
            "\u{25bc} "
        } else {
            "\u{25b6} "
        }
    } else {
        "\u{2022} "
    };
    extend_chars(&mut out, chars_of(bullet).as_slice());
    extend_chars(&mut out, chars_of(node.content.as_str()).as_slice());
    let mark = if node.is_task {
        match node.task_priority {
            Some(TaskPriority::High) => " \u{1f534}",
            Some(TaskPriority::Medium) => " \u{1f7e1}",
            Some(TaskPriority::Low) => " \u{1f7e2}",
            None => "",
        }
    } else {
        ""
    };
    extend_chars(&mut out, chars_of(mark).as_slice());
    string_from(out.as_slice())
}

/// The rows drawn in an outline area `height` lines high (two of them for
/// its border): from the scrolled-to row, as many as fit, and at least
/// one where there is any.
pub open spec fn drawn_rows(count: int, scroll: int, height: int) -> (int, int) {
    let room = if height - 2 >= 1 {
        height - 2
    } else {
        1
    };
    if scroll >= count {
        (scroll, scroll)
    } else if scroll + room <= count {
        (scroll, scroll + room)
    } else {
        (scroll, count)
    }
}

/// The range of visible rows that the outline area draws: from the
/// scrolled-to row, as many as fit in `height` lines less the border, at
/// least one; the row under the cursor, if drawn, is highlighted.
pub fn outline_window(app: &App, height: u16) -> (res: (usize, usize))
    ensures
        res.0 == drawn_rows(rows_of(*app).len() as int, app.scroll_offset as int, height as int).0,
        res.1 == drawn_rows(rows_of(*app).len() as int, app.scroll_offset as int, height as int).1,
{
    let count = app.get_visible_nodes().len();
    let scroll = app.scroll_offset;
    let room: usize = if height >= 3 {
        (height - 2) as usize
    } else {
        1
    };
    if scroll >= count {
        (scroll, scroll)
    } else if room <= count - scroll {
        (scroll, scroll + room)
    } else {
        (scroll, count)
    }
}

} // verus!

verus! {

// ------------------------------------------------------------------
// Sample data
// ------------------------------------------------------------------

/// Whether a store with `note_count` notes should get the sample outline:
/// only an empty store does.
pub fn needs_sample_data(note_count: usize) -> (res: bool)
    ensures
        res == (note_count == 0),
{
    note_count == 0
}

/// The title of the note that holds the sample outline.
pub fn sample_note_title() -> (res: String)
    ensures
        res@ == "Welcome to Outliner"@,
{
    string_from(chars_of("Welcome to Outliner").as_slice())
}

/// The content of the `k`-th node of the sample outline.
pub open spec fn sample_content(k: int) -> Seq<char> {
    if k == 0 {
        "\u{1f389} Welcome! This is a simple outliner application."@
    } else if k == 1 {
        "Features"@
    } else if k == 2 {
        "Infinite nesting support"@
    } else if k == 3 {
        "Task management with checkboxes"@
    } else if k == 4 {
        "Getting Started"@
    } else if k == 5 {
        "Navigation"@
    } else if k == 6 {
        "SQLite database backend"@
    } else if k == 7 {
        "Full-text search"@
    } else if k == 8 {
        "Press 'q' to quit the application"@
    } else if k == 9 {
        "\u{2191}/\u{2193} - Navigate up and down (Phase 3)"@
    } else if k == 10 {
        "\u{2190}/\u{2192} - Collapse/Expand nodes (Phase 3)"@
    } else {
        "Enter - Edit node (Phase 3)"@
    }
}

fn sample_node(id: &str, parent: Option<&str>, content: &str, task: bool) -> (res: OutlineNode)
    ensures
        res.id@ == id@,
        match parent {
            Some(p) => res.parent_node_id matches Some(q) && q@ == p@,
            None => res.parent_node_id is None,
        },
        res.content@ == content@,
        res.is_task == task,
        !res.task_completed,
        res.task_priority is None,
{
    let parent_node_id = match parent {
        Some(p) => Some(string_from(chars_of(p).as_slice())),
        None => None,
    };
    OutlineNode {
        id: string_from(chars_of(id).as_slice()),
        parent_node_id,
        content: string_from(chars_of(content).as_slice()),
        is_task: task,
        task_completed: false,
        task_priority: None,
    }
}

/// The sample outline of a new store: six top-level nodes (a welcome line,
/// "Features", two open tasks, "Getting Started", "Navigation"), then the
/// two children of "Features", the one child of "Getting Started" and the
/// three children of "Navigation".
pub fn sample_outline() -> (res: Vec<OutlineNode>)
    ensures
        res@.len() == 12,
        root_nodes(res@) == res@.take(6),
        child_nodes(res@, res@[1].id@) == res@.subrange(6, 8),
        child_nodes(res@, res@[4].id@) == res@.subrange(8, 9),
        child_nodes(res@, res@[5].id@) == res@.subrange(9, 12),
        forall|k: int|
            0 <= k < 12 ==> {
                &&& (#[trigger] res@[k]).content@ == sample_content(k)
                &&& res@[k].is_task == (k == 2 || k == 3)
                &&& !res@[k].task_completed
                &&& res@[k].task_priority is None
            },
{
    proof {
        reveal_strlit("features");
        reveal_strlit("getting-started");
        reveal_strlit("navigation");
    }
    let mut v: Vec<OutlineNode> = Vec::new();
    v.push(sample_node("welcome", None, "\u{1f389} Welcome! This is a simple outliner application.", false));
    v.push(sample_node("features", None, "Features", false));
    v.push(sample_node("nesting", None, "Infinite nesting support", true));
    v.push(sample_node("task-management", None, "Task management with checkboxes", true));
    v.push(sample_node("getting-started", None, "Getting Started", false));
    v.push(sample_node("navigation", None, "Navigation", false));
    v.push(sample_node("sqlite", Some("features"), "SQLite database backend", false));
    v.push(sample_node("full-text-search", Some("features"), "Full-text search", false));
    v.push(sample_node("quit", Some("getting-started"), "Press 'q' to quit the application", false));
    v.push(sample_node("navigate", Some("navigation"), "\u{2191}/\u{2193} - Navigate up and down (Phase 3)", false));
    v.push(sample_node("collapse", Some("navigation"), "\u{2190}/\u{2192} - Collapse/Expand nodes (Phase 3)", false));
    v.push(sample_node("edit", Some("navigation"), "Enter - Edit node (Phase 3)", false));
    proof {
        let s = v@;
        assert(s[1].id@ == "features"@);
        assert(s[4].id@ == "getting-started"@);
        assert(s[5].id@ == "navigation"@);
        reveal_with_fuel(root_nodes, 13);
        reveal_with_fuel(child_nodes, 13);
        assert(s.take(12) =~= s);
        assert(root_nodes(s) =~= s.take(6));
        assert(child_nodes(s, s[1].id@) =~= s.subrange(6, 8));
        assert(child_nodes(s, s[4].id@) =~= s.subrange(8, 9));
        assert(child_nodes(s, s[5].id@) =~= s.subrange(9, 12));
    }
    v
}

} // verus!
