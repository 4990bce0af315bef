//! Rebuilding a directory tree from a shell transcript and sizing it.
//!
//! The transcript holds `cd` and `ls` commands and their output.  The
//! tree lives in an arena: nodes are addressed by index, the root is
//! index zero, and each directory maps child names to indices of
//! nodes created after it.  A directory's total size is the recursive
//! sum of its children's sizes, recomputed on every query.  One
//! solver sums the directories of total size at most 100000; the
//! other picks the smallest directory whose deletion frees enough
//! space on a 70000000-unit disk needing 30000000 units free.

use vstd::prelude::*;
use vstd::string::StrSliceExecFns;
use vstd::string::StringSliceAdditionalSpecFns;

use crate::errors::SolveError;
use crate::text::bytes_eq;
use crate::text::has_prefix;
use crate::text::parse_u32;
use crate::text::spec_lines;
use crate::text::spec_parse_u32;
use crate::text::spec_split2;
use crate::text::skip_bytes;
use crate::text::spec_trim;
use crate::text::split2;
use crate::text::split_lines;
use crate::text::starts_with;
use crate::text::trim;
use crate::text::views;

verus! {

/// The mathematical shape of one arena node.
pub struct NodeSpec {
    /// The index of the owning directory; `None` only for the root.
    pub parent: Option<int>,
    /// Directory or file.
    pub is_dir: bool,
    /// A file's byte size; zero for directories.
    pub size: u32,
    /// Name-to-index bindings; empty for files.
    pub children: Seq<(Seq<u8>, int)>,
}

/// The views of a binding list.
pub open spec fn kids(cv: Seq<(Vec<u8>, usize)>) -> Seq<(Seq<u8>, int)> {
    cv.map_values(|c: (Vec<u8>, usize)| (c.0@, c.1 as int))
}

/// One tree node: a file with a size, or a directory with named
/// children, each holding the index of its owning directory.
pub struct FSNode {
    parent: Option<usize>,
    is_dir: bool,
    size: u32,
    children: Vec<(Vec<u8>, usize)>,
}

impl View for FSNode {
    type V = NodeSpec;

    closed spec fn view(&self) -> NodeSpec {
        NodeSpec {
            parent: match self.parent {
                Some(p) => Some(p as int),
                None => None,
            },
            is_dir: self.is_dir,
            size: self.size,
            children: kids(self.children@),
        }
    }
}

impl FSNode {
    /// A fresh, empty directory under `parent`.
    pub fn new_dir(parent: Option<usize>) -> (r: FSNode)
        ensures
            r@.is_dir,
            r@.size == 0,
            r@.children == Seq::<(Seq<u8>, int)>::empty(),
            r@.parent == (match parent {
                Some(p) => Some(p as int),
                None => None::<int>,
            }),
    {
        let r = FSNode { parent, is_dir: true, size: 0, children: Vec::new() };
        proof {
            assert(kids(r.children@) =~= Seq::<(Seq<u8>, int)>::empty());
        }
        r
    }

    /// A file of the given size under `parent`.
    pub fn new_file(parent: usize, size: u32) -> (r: FSNode)
        ensures
            !r@.is_dir,
            r@.size == size,
            r@.children == Seq::<(Seq<u8>, int)>::empty(),
            r@.parent == Some(parent as int),
    {
        let r = FSNode { parent: Some(parent), is_dir: false, size, children: Vec::new() };
        proof {
            assert(kids(r.children@) =~= Seq::<(Seq<u8>, int)>::empty());
        }
        r
    }

    /// Whether this node is a directory.
    pub fn is_dir(&self) -> (r: bool)
        ensures
            r == self@.is_dir,
    {
        self.is_dir
    }
}

/// The first binding position for `name` at or after `k`, or the
/// binding count if the name is unbound.
pub open spec fn child_pos(ch: Seq<(Seq<u8>, int)>, name: Seq<u8>, k: int) -> int
    decreases ch.len() - k,
    when 0 <= k <= ch.len()
{
    if k >= ch.len() {
        ch.len() as int
    } else if ch[k].0 == name {
        k
    } else {
        child_pos(ch, name, k + 1)
    }
}

/// The index bound to `name`, if any.
pub open spec fn child_lookup(ch: Seq<(Seq<u8>, int)>, name: Seq<u8>) -> Option<int> {
    let p = child_pos(ch, name, 0);
    if p < ch.len() {
        Some(ch[p].1)
    } else {
        None
    }
}

/// Binds `name` to `idx`, replacing an earlier binding of the name.
pub open spec fn child_update(ch: Seq<(Seq<u8>, int)>, name: Seq<u8>, idx: int) -> Seq<
    (Seq<u8>, int),
> {
    let p = child_pos(ch, name, 0);
    if p < ch.len() {
        ch.update(p, (name, idx))
    } else {
        ch.push((name, idx))
    }
}

/// A node's bindings.
pub open spec fn children_of(nodes: Seq<NodeSpec>, i: int) -> Seq<(Seq<u8>, int)> {
    nodes[i].children
}

/// One node is sound: a file has no children, every binding points
/// past its directory and into the arena, and parents are in range.
pub open spec fn node_wf(nodes: Seq<NodeSpec>, i: int) -> bool {
    &&& (!nodes[i].is_dir ==> nodes[i].children.len() == 0)
    &&& forall|j: int|
        0 <= j < nodes[i].children.len() ==> i < (#[trigger] nodes[i].children[j]).1 < nodes.len()
    &&& (nodes[i].parent is Some ==> 0 <= nodes[i].parent.unwrap() < nodes.len())
}

/// The whole arena is sound, with a directory at the root.
pub open spec fn arena_wf(nodes: Seq<NodeSpec>) -> bool {
    &&& nodes.len() >= 1
    &&& nodes[0].is_dir
    &&& forall|i: int| 0 <= i < nodes.len() ==> #[trigger] node_wf(nodes, i)
}

/// The arena after binding `name` to a fresh node under `dir`.
pub open spec fn spec_add_child(
    nodes: Seq<NodeSpec>,
    dir: int,
    name: Seq<u8>,
    node: NodeSpec,
) -> Seq<NodeSpec> {
    let ni = nodes.len() as int;
    nodes.update(
        dir,
        NodeSpec {
            parent: nodes[dir].parent,
            is_dir: nodes[dir].is_dir,
            size: nodes[dir].size,
            children: child_update(nodes[dir].children, name, ni),
        },
    ).push(node)
}

/// A fresh directory node, as a spec value.
pub open spec fn spec_dir_node(parent: Option<int>) -> NodeSpec {
    NodeSpec { parent, is_dir: true, size: 0, children: Seq::empty() }
}

/// A fresh file node, as a spec value.
pub open spec fn spec_file_node(parent: int, size: u32) -> NodeSpec {
    NodeSpec { parent: Some(parent), is_dir: false, size, children: Seq::empty() }
}

/// One transcript line, classified.
pub enum LineType {
    /// `$ cd /`
    CdRoot,
    /// `$ cd ..`
    CdUp,
    /// `$ ls`
    Ls,
    /// `$ cd <name>`
    CdDown { name: Vec<u8> },
    /// `dir <name>`
    DirEntry { name: Vec<u8> },
    /// `<size> <name>`
    FileEntry { name: Vec<u8>, size: u32 },
}

/// The mathematical shape of a classified line.
pub enum LineSpec {
    CdRoot,
    CdUp,
    Ls,
    CdDown { name: Seq<u8> },
    DirEntry { name: Seq<u8> },
    FileEntry { name: Seq<u8>, size: u32 },
}

impl View for LineType {
    type V = LineSpec;

    closed spec fn view(&self) -> LineSpec {
        match self {
            LineType::CdRoot => LineSpec::CdRoot,
            LineType::CdUp => LineSpec::CdUp,
            LineType::Ls => LineSpec::Ls,
            LineType::CdDown { name } => LineSpec::CdDown { name: name@ },
            LineType::DirEntry { name } => LineSpec::DirEntry { name: name@ },
            LineType::FileEntry { name, size } => LineSpec::FileEntry {
                name: name@,
                size: *size,
            },
        }
    }
}

/// The bytes of `$ cd /`.
pub open spec fn cd_root_prefix() -> Seq<u8> {
    seq![36u8, 32u8, 99u8, 100u8, 32u8, 47u8]
}

/// The bytes of `$ cd ..`.
pub open spec fn cd_up_prefix() -> Seq<u8> {
    seq![36u8, 32u8, 99u8, 100u8, 32u8, 46u8, 46u8]
}

/// The bytes of `$ ls`.
pub open spec fn ls_prefix() -> Seq<u8> {
    seq![36u8, 32u8, 108u8, 115u8]
}

/// The bytes of `$ cd `.
pub open spec fn cd_prefix() -> Seq<u8> {
    seq![36u8, 32u8, 99u8, 100u8, 32u8]
}

/// The bytes of `dir `.
pub open spec fn dir_prefix() -> Seq<u8> {
    seq![100u8, 105u8, 114u8, 32u8]
}

/// Classifies one line by prefix shape, in order; anything else must
/// be a two-token `<size> <name>` file entry.
pub open spec fn spec_parse_line(l: Seq<u8>) -> Option<LineSpec> {
    if has_prefix(l, cd_root_prefix()) {
        Some(LineSpec::CdRoot)
    } else if has_prefix(l, cd_up_prefix()) {
        Some(LineSpec::CdUp)
    } else if has_prefix(l, ls_prefix()) {
        Some(LineSpec::Ls)
    } else if has_prefix(l, cd_prefix()) {
        Some(LineSpec::CdDown { name: spec_trim(l.skip(5)) })
    } else if has_prefix(l, dir_prefix()) {
        Some(LineSpec::DirEntry { name: spec_trim(l.skip(4)) })
    } else {
        match spec_split2(l, 32) {
            None => None,
            Some(p) => match spec_parse_u32(p.0) {
                None => None,
                Some(sz) => Some(LineSpec::FileEntry { name: p.1, size: sz }),
            },
        }
    }
}

/// One replay step from directory `cur`.
pub open spec fn spec_step(nodes: Seq<NodeSpec>, cur: int, k: LineSpec) -> Result<
    (Seq<NodeSpec>, int),
    SolveError,
> {
    match k {
        LineSpec::CdRoot => Ok((nodes, 0int)),
        LineSpec::CdUp => match nodes[cur].parent {
            None => Err(SolveError::NoParent),
            Some(p) => Ok((nodes, p)),
        },
        LineSpec::Ls => Ok((nodes, cur)),
        LineSpec::CdDown { name } => match child_lookup(children_of(nodes, cur), name) {
            Some(c) => Ok((nodes, c)),
            None => Ok(
                (
                    spec_add_child(nodes, cur, name, spec_dir_node(Some(cur))),
                    nodes.len() as int,
                ),
            ),
        },
        LineSpec::DirEntry { name } => Ok(
            (spec_add_child(nodes, cur, name, spec_dir_node(Some(cur))), cur),
        ),
        LineSpec::FileEntry { name, size } => Ok(
            (spec_add_child(nodes, cur, name, spec_file_node(cur, size)), cur),
        ),
    }
}

/// Replays the transcript lines from `i` on.  Each step first checks
/// that the current node still is a directory: descending into a file
/// is an error at the next line.
pub open spec fn spec_replay(
    lines: Seq<Seq<u8>>,
    i: int,
    nodes: Seq<NodeSpec>,
    cur: int,
) -> Result<(Seq<NodeSpec>, int), SolveError>
    decreases lines.len() - i,
    when 0 <= i <= lines.len()
{
    if i >= lines.len() {
        Ok((nodes, cur))
    } else if !nodes[cur].is_dir {
        Err(SolveError::NotADir)
    } else {
        match spec_parse_line(lines[i]) {
            None => Err(SolveError::Malformed),
            Some(k) => match spec_step(nodes, cur, k) {
                Err(e) => Err(e),
                Ok(st) => spec_replay(lines, i + 1, st.0, st.1),
            },
        }
    }
}

/// The arena of a whole transcript: replay from a lone root.
pub open spec fn spec_build_tree(input: Seq<u8>) -> Result<Seq<NodeSpec>, SolveError> {
    match spec_replay(spec_lines(input), 0, seq![spec_dir_node(None)], 0) {
        Err(e) => Err(e),
        Ok(st) => Ok(st.0),
    }
}

/// The recursive total size of the subtree at `i`: a file counts its
/// own size, a directory the sum of its children's subtrees.
pub open spec fn subtree_size(nodes: Seq<NodeSpec>, i: int) -> int
    decreases nodes.len() - i, nodes[i].children.len() + 1,
    when 0 <= i < nodes.len() && arena_wf(nodes)
{
    if !nodes[i].is_dir {
        nodes[i].size as int
    } else {
        children_sum(nodes, i, 0)
    }
}

/// The sum of the subtree sizes of the bindings of `i` from `k` on.
pub open spec fn children_sum(nodes: Seq<NodeSpec>, i: int, k: int) -> int
    decreases nodes.len() - i, nodes[i].children.len() - k,
    when 0 <= i < nodes.len() && 0 <= k <= nodes[i].children.len() && arena_wf(nodes)
    via children_sum_decreases
{
    if k >= nodes[i].children.len() {
        0
    } else {
        subtree_size(nodes, nodes[i].children[k].1) + children_sum(nodes, i, k + 1)
    }
}

#[via_fn]
proof fn children_sum_decreases(nodes: Seq<NodeSpec>, i: int, k: int) {
    assert(node_wf(nodes, i));
}

pub proof fn lemma_subtree_size_nonneg(nodes: Seq<NodeSpec>, i: int)
    requires
        0 <= i < nodes.len(),
        arena_wf(nodes),
    ensures
        subtree_size(nodes, i) >= 0,
    decreases nodes.len() - i, nodes[i].children.len() + 1,
{
    if nodes[i].is_dir {
        lemma_children_sum_nonneg(nodes, i, 0);
    }
}

pub proof fn lemma_children_sum_nonneg(nodes: Seq<NodeSpec>, i: int, k: int)
    requires
        0 <= i < nodes.len(),
        0 <= k <= nodes[i].children.len(),
        arena_wf(nodes),
    ensures
        children_sum(nodes, i, k) >= 0,
    decreases nodes.len() - i, nodes[i].children.len() - k,
{
    if k < nodes[i].children.len() {
        assert(node_wf(nodes, i));
        lemma_subtree_size_nonneg(nodes, nodes[i].children[k].1);
        lemma_children_sum_nonneg(nodes, i, k + 1);
    }
}

/// The directory indices of the subtree at `i`, children first, the
/// node itself last; a file contributes nothing.
pub open spec fn post_order(nodes: Seq<NodeSpec>, i: int) -> Seq<int>
    decreases nodes.len() - i, nodes[i].children.len() + 1,
    when 0 <= i < nodes.len() && arena_wf(nodes)
{
    if !nodes[i].is_dir {
        Seq::empty()
    } else {
        children_post(nodes, i, 0).push(i)
    }
}

/// The concatenated post-orders of the bindings of `i` from `k` on.
pub open spec fn children_post(nodes: Seq<NodeSpec>, i: int, k: int) -> Seq<int>
    decreases nodes.len() - i, nodes[i].children.len() - k,
    when 0 <= i < nodes.len() && 0 <= k <= nodes[i].children.len() && arena_wf(nodes)
    via children_post_decreases
{
    if k >= nodes[i].children.len() {
        Seq::empty()
    } else {
        post_order(nodes, nodes[i].children[k].1) + children_post(nodes, i, k + 1)
    }
}

#[via_fn]
proof fn children_post_decreases(nodes: Seq<NodeSpec>, i: int, k: int) {
    assert(node_wf(nodes, i));
}

/// The sum of the directory sizes at most 100000, walking `order`
/// from `k` with `acc` collected so far.
pub open spec fn spec_sum_small(
    nodes: Seq<NodeSpec>,
    order: Seq<int>,
    k: int,
    acc: u32,
) -> Result<u32, SolveError>
    decreases order.len() - k,
    when 0 <= k <= order.len()
{
    if k >= order.len() {
        Ok(acc)
    } else {
        let s = subtree_size(nodes, order[k]);
        if s > u32::MAX {
            Err(SolveError::Overflow)
        } else if s <= 100000 {
            if acc + s > u32::MAX {
                Err(SolveError::Overflow)
            } else {
                spec_sum_small(nodes, order, k + 1, (acc + s) as u32)
            }
        } else {
            spec_sum_small(nodes, order, k + 1, acc)
        }
    }
}

/// The smallest directory size at least `need`, walking `order` from
/// `k` with the best candidate so far.
pub open spec fn spec_min_big(
    nodes: Seq<NodeSpec>,
    order: Seq<int>,
    k: int,
    need: int,
    best: Option<u32>,
) -> Result<u32, SolveError>
    decreases order.len() - k,
    when 0 <= k <= order.len()
{
    if k >= order.len() {
        match best {
            Some(b) => Ok(b),
            None => Err(SolveError::NoCandidate),
        }
    } else {
        let s = subtree_size(nodes, order[k]);
        if s > u32::MAX {
            Err(SolveError::Overflow)
        } else if s >= need && (best is None || s < best.unwrap()) {
            spec_min_big(nodes, order, k + 1, need, Some(s as u32))
        } else {
            spec_min_big(nodes, order, k + 1, need, best)
        }
    }
}

/// The sum of all directory totals at most 100000.
pub open spec fn spec_solve(input: Seq<u8>) -> Result<u32, SolveError> {
    match spec_build_tree(input) {
        Err(e) => Err(e),
        Ok(nodes) => spec_sum_small(nodes, post_order(nodes, 0), 0, 0),
    }
}

/// The smallest directory total whose deletion reaches the required
/// free space, on a disk of 70000000 units needing 30000000 free.
pub open spec fn spec_solve2(input: Seq<u8>) -> Result<u32, SolveError> {
    match spec_build_tree(input) {
        Err(e) => Err(e),
        Ok(nodes) => {
            let used = subtree_size(nodes, 0);
            if used > u32::MAX {
                Err(SolveError::Overflow)
            } else if used > 70000000 {
                Err(SolveError::CapacityExceeded)
            } else if 70000000 - used >= 30000000 {
                Err(SolveError::NoDeficit)
            } else {
                spec_min_big(
                    nodes,
                    post_order(nodes, 0),
                    0,
                    30000000 - (70000000 - used),
                    None,
                )
            }
        },
    }
}

/// The integer views of an index list.
pub open spec fn idxs(s: Seq<usize>) -> Seq<int> {
    s.map_values(|u: usize| u as int)
}

/// Every entry of a post-order listing is a directory index in range.
pub proof fn lemma_post_order_bounds(nodes: Seq<NodeSpec>, i: int)
    requires
        0 <= i < nodes.len(),
        arena_wf(nodes),
    ensures
        forall|m: int|
            0 <= m < post_order(nodes, i).len() ==> 0 <= #[trigger] post_order(nodes, i)[m]
                < nodes.len(),
    decreases nodes.len() - i, nodes[i].children.len() + 1,
{
    if nodes[i].is_dir {
        lemma_children_post_bounds(nodes, i, 0);
        assert forall|m: int|
            0 <= m < post_order(nodes, i).len() implies 0 <= #[trigger] post_order(nodes, i)[m]
            < nodes.len() by {
            if m < children_post(nodes, i, 0).len() {
                assert(post_order(nodes, i)[m] == children_post(nodes, i, 0)[m]);
            } else {
                assert(post_order(nodes, i)[m] == i);
            }
        }
    }
}

pub proof fn lemma_children_post_bounds(nodes: Seq<NodeSpec>, i: int, k: int)
    requires
        0 <= i < nodes.len(),
        0 <= k <= nodes[i].children.len(),
        arena_wf(nodes),
    ensures
        forall|m: int|
            0 <= m < children_post(nodes, i, k).len() ==> 0 <= #[trigger] children_post(
                nodes,
                i,
                k,
            )[m] < nodes.len(),
    decreases nodes.len() - i, nodes[i].children.len() - k,
{
    if k < nodes[i].children.len() {
        assert(node_wf(nodes, i));
        lemma_post_order_bounds(nodes, nodes[i].children[k].1);
        lemma_children_post_bounds(nodes, i, k + 1);
        assert forall|m: int|
            0 <= m < children_post(nodes, i, k).len() implies 0 <= #[trigger] children_post(
            nodes,
            i,
            k,
        )[m] < nodes.len() by {
            let c = nodes[i].children[k].1;
            if m < post_order(nodes, c).len() {
                assert(children_post(nodes, i, k)[m] == post_order(nodes, c)[m]);
            } else {
                assert(children_post(nodes, i, k)[m] == children_post(nodes, i, k + 1)[m
                    - post_order(nodes, c).len()]);
            }
        }
    }
}

/// The arena owning every tree node; the root is index zero.
pub struct FsArena {
    nodes: Vec<FSNode>,
}

impl View for FsArena {
    type V = Seq<NodeSpec>;

    closed spec fn view(&self) -> Seq<NodeSpec> {
        self.nodes@.map_values(|n: FSNode| n@)
    }
}

impl FsArena {
    /// Sound, with a directory at the root.
    pub open spec fn wf(&self) -> bool {
        arena_wf(self@)
    }

    /// A fresh arena holding only a root directory.
    pub fn new() -> (r: FsArena)
        ensures
            r@ == seq![spec_dir_node(None)],
            r.wf(),
    {
        let mut nodes: Vec<FSNode> = Vec::new();
        nodes.push(FSNode::new_dir(None));
        let r = FsArena { nodes };
        proof {
            assert forall|m: int|
                0 <= m < r.nodes@.len() implies r@[m] == (#[trigger] r.nodes@[m])@ by {}
            assert(r@ =~= seq![spec_dir_node(None)]);
            assert(node_wf(r@, 0));
        }
        r
    }

    /// How many nodes the arena holds.
    pub fn len(&self) -> (r: usize)
        ensures
            r == self@.len(),
    {
        proof {
            assert(self@.len() == self.nodes@.len());
        }
        self.nodes.len()
    }

    /// Whether the node at `idx` is a directory.
    pub fn is_dir_at(&self, idx: usize) -> (r: bool)
        requires
            idx < self@.len(),
        ensures
            r == self@[idx as int].is_dir,
    {
        proof {
            assert(self@[idx as int] == self.nodes@[idx as int]@);
        }
        self.nodes[idx].is_dir()
    }

    /// The owning directory of the node at `idx`, if it has one.
    pub fn get_parent(&self, idx: usize) -> (r: Option<usize>)
        requires
            self.wf(),
            idx < self@.len(),
        ensures
            match r {
                Some(p) => self@[idx as int].parent == Some(p as int) && p < self@.len(),
                None => self@[idx as int].parent is None,
            },
    {
        proof {
            assert(self@[idx as int] == self.nodes@[idx as int]@);
            assert(node_wf(self@, idx as int));
        }
        self.nodes[idx].parent
    }

    /// The position of `name` among the bindings of `dir`, or the
    /// binding count if unbound.
    fn child_pos_exec(&self, dir: usize, name: &Vec<u8>) -> (r: usize)
        requires
            dir < self@.len(),
        ensures
            r == child_pos(self@[dir as int].children, name@, 0),
            r <= self@[dir as int].children.len(),
    {
        proof {
            assert(self@[dir as int] == self.nodes@[dir as int]@);
        }
        let ghost ch = self@[dir as int].children;
        let n = self.nodes[dir].children.len();
        proof {
            assert(ch.len() == n);
        }
        let mut p: usize = 0;
        while p < n
            invariant
                p <= n == ch.len(),
                dir < self.nodes@.len(),
                ch == kids(self.nodes@[dir as int].children@),
                child_pos(ch, name@, 0) == child_pos(ch, name@, p as int),
            decreases n - p,
        {
            proof {
                assert(ch[p as int] == (
                    self.nodes@[dir as int].children@[p as int].0@,
                    self.nodes@[dir as int].children@[p as int].1 as int,
                ));
            }
            if bytes_eq(&self.nodes[dir].children[p].0, name) {
                return p;
            }
            p = p + 1;
        }
        p
    }

    /// The index bound to `name` under `dir`, if any.
    pub fn get_child(&self, dir: usize, name: &Vec<u8>) -> (r: Option<usize>)
        requires
            self.wf(),
            dir < self@.len(),
        ensures
            match r {
                Some(c) => child_lookup(self@[dir as int].children, name@) == Some(c as int) && c
                    < self@.len(),
                None => child_lookup(self@[dir as int].children, name@) is None,
            },
    {
        let p = self.child_pos_exec(dir, name);
        proof {
            assert(self@[dir as int] == self.nodes@[dir as int]@);
        }
        if p < self.nodes[dir].children.len() {
            proof {
                assert(node_wf(self@, dir as int));
                assert(self@[dir as int].children[p as int] == (
                    self.nodes@[dir as int].children@[p as int].0@,
                    self.nodes@[dir as int].children@[p as int].1 as int,
                ));
            }
            Some(self.nodes[dir].children[p].1)
        } else {
            None
        }
    }

    /// Binds `name` under `dir` to a fresh node, which is appended to
    /// the arena; an old binding of the same name is replaced.
    pub fn add_child(&mut self, dir: usize, name: Vec<u8>, node: FSNode)
        requires
            old(self).wf(),
            dir < old(self)@.len(),
            old(self)@[dir as int].is_dir,
            node@.children.len() == 0,
            match node@.parent {
                Some(p) => 0 <= p < old(self)@.len(),
                None => true,
            },
        ensures
            final(self)@ == spec_add_child(old(self)@, dir as int, name@, node@),
            final(self).wf(),
            final(self)@.len() == old(self)@.len() + 1,
    {
        let ghost nodes0 = self@;
        let ghost ch0 = nodes0[dir as int].children;
        let ghost nv = node@;
        proof {
            assert(self@[dir as int] == self.nodes@[dir as int]@);
            assert(self@.len() == self.nodes@.len());
        }
        let p = self.child_pos_exec(dir, &name);
        let ni = self.nodes.len();
        let ghost namev = name@;
        let n_ch = self.nodes[dir].children.len();
        proof {
            assert(ch0.len() == n_ch);
        }
        if p < n_ch {
            self.nodes[dir].children[p] = (name, ni);
            proof {
                assert(kids(self.nodes@[dir as int].children@) =~= child_update(
                    ch0,
                    namev,
                    ni as int,
                ));
            }
        } else {
            self.nodes[dir].children.push((name, ni));
            proof {
                assert(kids(self.nodes@[dir as int].children@) =~= child_update(
                    ch0,
                    namev,
                    ni as int,
                ));
            }
        }
        self.nodes.push(node);
        proof {
            let target = spec_add_child(nodes0, dir as int, namev, nv);
            assert forall|m: int|
                0 <= m < self.nodes@.len() implies self@[m] == (#[trigger] self.nodes@[m])@ by {}
            assert(self@[dir as int] == target[dir as int]);
            assert(self@ =~= target);
            assert forall|i: int| 0 <= i < self@.len() implies #[trigger] node_wf(self@, i) by {
                if i < nodes0.len() {
                    assert(node_wf(nodes0, i));
                    if i == dir {
                        assert forall|j: int|
                            0 <= j < self@[i].children.len() implies i < (
                            #[trigger] self@[i].children[j]).1 < self@.len() by {
                            let cu = child_update(ch0, namev, ni as int);
                            let cp = child_pos(ch0, namev, 0);
                            if cp < ch0.len() {
                                if j != cp {
                                    assert(cu[j] == ch0[j]);
                                }
                            } else {
                                if j < ch0.len() {
                                    assert(cu[j] == ch0[j]);
                                }
                            }
                        }
                    }
                }
            }
            assert(arena_wf(self@));
        }
    }

    /// The recursive total size of the subtree at `idx`, recomputed
    /// on every query; an overflow error when it leaves `u32`.
    pub fn size(&self, idx: usize) -> (r: Result<u32, SolveError>)
        requires
            self.wf(),
            idx < self@.len(),
        ensures
            r == (if subtree_size(self@, idx as int) > u32::MAX {
                Err::<u32, SolveError>(SolveError::Overflow)
            } else {
                Ok::<u32, SolveError>(subtree_size(self@, idx as int) as u32)
            }),
        decreases self@.len() - idx,
    {
        proof {
            assert(self@[idx as int] == self.nodes@[idx as int]@);
            assert(node_wf(self@, idx as int));
        }
        if !self.nodes[idx].is_dir {
            return Ok(self.nodes[idx].size);
        }
        let ghost ch = self@[idx as int].children;
        let n_ch = self.nodes[idx].children.len();
        proof {
            assert(ch.len() == n_ch);
        }
        let mut sum: u64 = 0;
        let mut k: usize = 0;
        while k < n_ch
            invariant
                k <= n_ch == ch.len(),
                self.wf(),
                idx < self@.len(),
                self@[idx as int].is_dir,
                ch == self@[idx as int].children,
                sum <= u32::MAX,
                children_sum(self@, idx as int, 0) == sum + children_sum(
                    self@,
                    idx as int,
                    k as int,
                ),
            decreases n_ch - k,
        {
            proof {
                assert(self@[idx as int] == self.nodes@[idx as int]@);
                assert(ch[k as int] == (
                    self.nodes@[idx as int].children@[k as int].0@,
                    self.nodes@[idx as int].children@[k as int].1 as int,
                ));
                assert(node_wf(self@, idx as int));
                lemma_children_sum_nonneg(self@, idx as int, k + 1);
                lemma_subtree_size_nonneg(self@, idx as int);
            }
            let c = self.nodes[idx].children[k].1;
            proof {
                lemma_subtree_size_nonneg(self@, c as int);
            }
            let sub = match self.size(c) {
                Ok(s) => s,
                Err(_) => {
                    return Err(SolveError::Overflow);
                },
            };
            sum = sum + (sub as u64);
            if sum > 0xffff_ffff {
                proof {
                    lemma_children_sum_nonneg(self@, idx as int, k + 1);
                }
                return Err(SolveError::Overflow);
            }
            k = k + 1;
        }
        Ok(sum as u32)
    }

    /// Appends the post-order directory listing of the subtree at
    /// `idx` to `out`.
    fn visit(&self, idx: usize, out: &mut Vec<usize>)
        requires
            self.wf(),
            idx < self@.len(),
        ensures
            idxs(final(out)@) == idxs(old(out)@) + post_order(self@, idx as int),
        decreases self@.len() - idx,
    {
        proof {
            assert(self@[idx as int] == self.nodes@[idx as int]@);
            assert(node_wf(self@, idx as int));
        }
        if !self.nodes[idx].is_dir {
            proof {
                assert(idxs(out@) =~= idxs(out@) + post_order(self@, idx as int));
            }
            return ;
        }
        let ghost out0 = out@;
        let ghost ch = self@[idx as int].children;
        let n_ch = self.nodes[idx].children.len();
        proof {
            assert(ch.len() == n_ch);
        }
        let mut k: usize = 0;
        proof {
            assert(idxs(out@) =~= idxs(out0) + children_post(self@, idx as int, n_ch as int));
        }
        while k < n_ch
            invariant
                k <= n_ch == ch.len(),
                self.wf(),
                idx < self@.len(),
                self@[idx as int].is_dir,
                ch == self@[idx as int].children,
                idxs(out0) + children_post(self@, idx as int, 0) == idxs(out@) + children_post(
                    self@,
                    idx as int,
                    k as int,
                ),
            decreases n_ch - k,
        {
            proof {
                assert(self@[idx as int] == self.nodes@[idx as int]@);
                assert(ch[k as int] == (
                    self.nodes@[idx as int].children@[k as int].0@,
                    self.nodes@[idx as int].children@[k as int].1 as int,
                ));
                assert(node_wf(self@, idx as int));
            }
            let c = self.nodes[idx].children[k].1;
            let ghost before = out@;
            self.visit(c, out);
            proof {
                assert(idxs(out@) =~= (idxs(before) + post_order(self@, c as int)));
                assert(idxs(out0) + children_post(self@, idx as int, 0) =~= idxs(out@)
                    + children_post(self@, idx as int, k + 1));
            }
            k = k + 1;
        }
        let ghost before_push = out@;
        out.push(idx);
        proof {
            assert(idxs(out@) =~= idxs(before_push).push(idx as int));
            assert(children_post(self@, idx as int, n_ch as int) =~= Seq::<int>::empty());
            assert(idxs(out@) =~= idxs(out0) + post_order(self@, idx as int));
        }
    }

    /// The post-order directory listing of the subtree at `idx`.
    pub fn visit_dirs(&self, idx: usize) -> (r: Vec<usize>)
        requires
            self.wf(),
            idx < self@.len(),
        ensures
            idxs(r@) == post_order(self@, idx as int),
    {
        let mut out: Vec<usize> = Vec::new();
        proof {
            assert(idxs(out@) =~= Seq::<int>::empty());
        }
        self.visit(idx, &mut out);
        proof {
            assert(idxs(out@) =~= post_order(self@, idx as int));
        }
        out
    }
}

/// Builds the literal byte prefixes the classifier matches on.
fn prefix_cd_root() -> (r: Vec<u8>)
    ensures
        r@ == cd_root_prefix(),
{
    let mut v: Vec<u8> = Vec::new();
    v.push(36);
    v.push(32);
    v.push(99);
    v.push(100);
    v.push(32);
    v.push(47);
    proof {
        assert(v@ =~= cd_root_prefix());
    }
    v
}

fn prefix_cd_up() -> (r: Vec<u8>)
    ensures
        r@ == cd_up_prefix(),
{
    let mut v: Vec<u8> = Vec::new();
    v.push(36);
    v.push(32);
    v.push(99);
    v.push(100);
    v.push(32);
    v.push(46);
    v.push(46);
    proof {
        assert(v@ =~= cd_up_prefix());
    }
    v
}

fn prefix_ls() -> (r: Vec<u8>)
    ensures
        r@ == ls_prefix(),
{
    let mut v: Vec<u8> = Vec::new();
    v.push(36);
    v.push(32);
    v.push(108);
    v.push(115);
    proof {
        assert(v@ =~= ls_prefix());
    }
    v
}

fn prefix_cd() -> (r: Vec<u8>)
    ensures
        r@ == cd_prefix(),
{
    let mut v: Vec<u8> = Vec::new();
    v.push(36);
    v.push(32);
    v.push(99);
    v.push(100);
    v.push(32);
    proof {
        assert(v@ =~= cd_prefix());
    }
    v
}

fn prefix_dir() -> (r: Vec<u8>)
    ensures
        r@ == dir_prefix(),
{
    let mut v: Vec<u8> = Vec::new();
    v.push(100);
    v.push(105);
    v.push(114);
    v.push(32);
    proof {
        assert(v@ =~= dir_prefix());
    }
    v
}

/// Classifies one transcript line; a line that fits no command shape
/// must be a two-token `<size> <name>` file entry.
pub fn parse_line(line: &Vec<u8>) -> (r: Result<LineType, SolveError>)
    ensures
        match spec_parse_line(line@) {
            Some(k) => r is Ok && (r matches Ok(t) ==> t@ == k),
            None => r == Err::<LineType, SolveError>(SolveError::Malformed),
        },
{
    if starts_with(line, &prefix_cd_root()) {
        return Ok(LineType::CdRoot);
    }
    if starts_with(line, &prefix_cd_up()) {
        return Ok(LineType::CdUp);
    }
    if starts_with(line, &prefix_ls()) {
        return Ok(LineType::Ls);
    }
    if starts_with(line, &prefix_cd()) {
        let name = trim(&skip_bytes(line, 5));
        return Ok(LineType::CdDown { name });
    }
    if starts_with(line, &prefix_dir()) {
        let name = trim(&skip_bytes(line, 4));
        return Ok(LineType::DirEntry { name });
    }
    match split2(line, 32) {
        None => Err(SolveError::Malformed),
        Some(p) => match parse_u32(&p.0) {
            None => Err(SolveError::Malformed),
            Some(sz) => Ok(LineType::FileEntry { name: p.1, size: sz }),
        },
    }
}

/// Replays a whole transcript into a fresh arena.
pub fn build_tree(input: &str) -> (r: Result<FsArena, SolveError>)
    ensures
        match (r, spec_build_tree(input.spec_bytes())) {
            (Ok(a), Ok(ns)) => a@ == ns && a.wf(),
            (Err(e), Err(e2)) => e == e2,
            _ => false,
        },
{
    let bytes = input.as_bytes_vec();
    let lines = split_lines(&bytes);
    let ghost lv = views(lines@);
    proof {
        assert(lv =~= spec_lines(bytes@));
    }
    let mut arena = FsArena::new();
    let mut cur: usize = 0;
    let mut i: usize = 0;
    while i < lines.len()
        invariant
            i <= lines@.len(),
            lv == views(lines@),
            arena.wf(),
            cur < arena@.len(),
            spec_replay(lv, 0, seq![spec_dir_node(None)], 0) == spec_replay(
                lv,
                i as int,
                arena@,
                cur as int,
            ),
        decreases lines@.len() - i,
    {
        if !arena.is_dir_at(cur) {
            return Err(SolveError::NotADir);
        }
        let lt = match parse_line(&lines[i]) {
            Err(_) => {
                return Err(SolveError::Malformed);
            },
            Ok(t) => t,
        };
        match lt {
            LineType::CdRoot => {
                cur = 0;
            },
            LineType::CdUp => {
                match arena.get_parent(cur) {
                    None => {
                        return Err(SolveError::NoParent);
                    },
                    Some(p) => {
                        cur = p;
                    },
                }
            },
            LineType::Ls => {
            },
            LineType::CdDown { name } => {
                match arena.get_child(cur, &name) {
                    Some(c) => {
                        cur = c;
                    },
                    None => {
                        let ni = arena.len();
                        let nd = FSNode::new_dir(Some(cur));
                        proof {
                            assert(nd@ == spec_dir_node(Some(cur as int)));
                        }
                        arena.add_child(cur, name, nd);
                        cur = ni;
                    },
                }
            },
            LineType::DirEntry { name } => {
                let nd = FSNode::new_dir(Some(cur));
                proof {
                    assert(nd@ == spec_dir_node(Some(cur as int)));
                }
                arena.add_child(cur, name, nd);
            },
            LineType::FileEntry { name, size } => {
                let nf = FSNode::new_file(cur, size);
                proof {
                    assert(nf@ == spec_file_node(cur as int, size));
                }
                arena.add_child(cur, name, nf);
            },
        }
        i = i + 1;
    }
    Ok(arena)
}

/// The sum of all directory totals of at most 100000.
pub fn solve(input: &str) -> (r: Result<u32, SolveError>)
    ensures
        r == spec_solve(input.spec_bytes()),
{
    let arena = match build_tree(input) {
        Err(e) => {
            return Err(e);
        },
        Ok(a) => a,
    };
    let ghost nodes = arena@;
    let ghost order = post_order(nodes, 0);
    let dirs = arena.visit_dirs(0);
    proof {
        lemma_post_order_bounds(nodes, 0);
        assert(idxs(dirs@).len() == order.len());
    }
    let mut acc: u32 = 0;
    let mut k: usize = 0;
    while k < dirs.len()
        invariant
            k <= dirs@.len() == order.len(),
            arena.wf(),
            nodes == arena@,
            order == post_order(nodes, 0),
            idxs(dirs@) == order,
            forall|m: int| 0 <= m < order.len() ==> 0 <= #[trigger] order[m] < nodes.len(),
            spec_sum_small(nodes, order, 0, 0) == spec_sum_small(nodes, order, k as int, acc),
        decreases dirs@.len() - k,
    {
        let d = dirs[k];
        proof {
            assert(idxs(dirs@)[k as int] == d as int);
            assert(order[k as int] == d as int);
        }
        match arena.size(d) {
            Err(_) => {
                return Err(SolveError::Overflow);
            },
            Ok(s) => {
                proof {
                    lemma_subtree_size_nonneg(nodes, d as int);
                }
                if s <= 100000 {
                    if acc > u32::MAX - s {
                        return Err(SolveError::Overflow);
                    }
                    acc = acc + s;
                }
            },
        }
        k = k + 1;
    }
    Ok(acc)
}

/// The smallest directory total whose deletion reaches the required
/// free space.
pub fn solve2(input: &str) -> (r: Result<u32, SolveError>)
    ensures
        r == spec_solve2(input.spec_bytes()),
{
    let arena = match build_tree(input) {
        Err(e) => {
            return Err(e);
        },
        Ok(a) => a,
    };
    let ghost nodes = arena@;
    let used = match arena.size(0) {
        Err(_) => {
            return Err(SolveError::Overflow);
        },
        Ok(s) => s,
    };
    proof {
        lemma_subtree_size_nonneg(nodes, 0);
    }
    if used > 70000000 {
        return Err(SolveError::CapacityExceeded);
    }
    let unused = 70000000 - used;
    if unused >= 30000000 {
        return Err(SolveError::NoDeficit);
    }
    let need = 30000000 - unused;
    let ghost order = post_order(nodes, 0);
    let dirs = arena.visit_dirs(0);
    proof {
        lemma_post_order_bounds(nodes, 0);
        assert(idxs(dirs@).len() == order.len());
    }
    let mut best: Option<u32> = None;
    let mut k: usize = 0;
    while k < dirs.len()
        invariant
            k <= dirs@.len() == order.len(),
            arena.wf(),
            nodes == arena@,
            order == post_order(nodes, 0),
            idxs(dirs@) == order,
            forall|m: int| 0 <= m < order.len() ==> 0 <= #[trigger] order[m] < nodes.len(),
            spec_min_big(nodes, order, 0, need as int, None) == spec_min_big(
                nodes,
                order,
                k as int,
                need as int,
                best,
            ),
        decreases dirs@.len() - k,
    {
        let d = dirs[k];
        proof {
            assert(idxs(dirs@)[k as int] == d as int);
            assert(order[k as int] == d as int);
        }
        match arena.size(d) {
            Err(_) => {
                return Err(SolveError::Overflow);
            },
            Ok(s) => {
                proof {
                    lemma_subtree_size_nonneg(nodes, d as int);
                }
                let better = match best {
                    None => true,
                    Some(b) => s < b,
                };
                if s >= need && better {
                    best = Some(s);
                }
            },
        }
        k = k + 1;
    }
    match best {
        Some(b) => Ok(b),
        None => Err(SolveError::NoCandidate),
    }
}

} // verus!
