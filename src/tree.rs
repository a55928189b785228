//! The tree builder: what a scan of a directory becomes as a tree of nodes.
//!
//! The caller reads the filesystem into a `Scan`, asking `may_descend` at each
//! directory whether to list it in full; for a directory past the limit it
//! needs to read no more than whether one entry exists.

use vstd::prelude::*;

use crate::order::{
    key_before, lemma_key_before_asymmetric, lemma_not_before_transitive, lower_of, lowercase,
    precedes,
};
use crate::policy::{child_depth, deeper, descends, may_descend};

verus! {

/// A node of the tree.
#[derive(Debug)]
pub struct FileNode {
    /// The final component of the path, empty when there is none.
    pub name: String,
    pub path: String,
    pub is_dir: bool,
    /// The children of a directory that was expanded; `None` for a file, a
    /// link, and a directory at the depth limit.
    pub children: Option<Vec<FileNode>>,
    /// Always `Some`: `true` only for a non-empty directory left unexpanded.
    pub has_more: Option<bool>,
}

/// What was read of one filesystem entry.
#[derive(Debug)]
pub enum Scan {
    /// Its metadata could not be read: the entry is left out.
    Unreadable,
    /// Not a directory (a symbolic link counts as none).
    Leaf { name: String, path: String },
    /// A directory and the entries read from it, none when it could not be
    /// opened. Past the depth limit only whether there is one matters.
    Dir { name: String, path: String, entries: Vec<Scan> },
}

/// Why a tree could not be built.
#[derive(Debug)]
pub enum ReadError {
    /// The root path does not exist.
    NotFound { path: String },
    /// The root exists, but its metadata could not be read.
    Unreadable { path: String },
}

/// Whether `a` sorts strictly before `b` among siblings.
pub open spec fn before(a: FileNode, b: FileNode) -> bool {
    key_before(a.is_dir, a.name@, b.is_dir, b.name@)
}

/// Whether siblings are in order: no node sorts strictly before an earlier one.
pub open spec fn sorted(s: Seq<FileNode>) -> bool {
    forall|a: int, b: int| 0 <= a < b < s.len() ==> !before(#[trigger] s[b], #[trigger] s[a])
}

/// `s` with `x` inserted after the last node that does not sort after it.
pub open spec fn insert_sorted(x: FileNode, s: Seq<FileNode>) -> Seq<FileNode>
    decreases s.len(),
{
    if s.len() == 0 {
        seq![x]
    } else if before(x, s.last()) {
        insert_sorted(x, s.drop_last()).push(s.last())
    } else {
        s.push(x)
    }
}

/// The stable sort of siblings: each node in turn inserted.
pub open spec fn sort_nodes(s: Seq<FileNode>) -> Seq<FileNode>
    decreases s.len(),
{
    if s.len() == 0 {
        s
    } else {
        insert_sorted(s.last(), sort_nodes(s.drop_last()))
    }
}

/// Whether `node` is what `scan` becomes at `depth` under `max_depth`.
pub open spec fn builds(scan: Scan, depth: u32, max_depth: Option<u32>, node: FileNode) -> bool
    decreases scan, 0int,
{
    match scan {
        Scan::Unreadable => false,
        Scan::Leaf { name, path } => {
            &&& node.name@ == name@
            &&& node.path@ == path@
            &&& !node.is_dir
            &&& node.children is None
            &&& node.has_more == Some(false)
        },
        Scan::Dir { name, path, entries } => {
            &&& node.name@ == name@
            &&& node.path@ == path@
            &&& node.is_dir
            &&& if descends(depth, max_depth) {
                &&& node.has_more == Some(false)
                &&& node.children is Some
                &&& exists|bs: Seq<FileNode>|
                    builds_each(entries@, entries@.len() as int, child_depth(depth), max_depth, bs)
                        && node.children->0@ == sort_nodes(bs)
            } else {
                &&& node.children is None
                &&& node.has_more == Some(entries@.len() > 0)
            }
        },
    }
}

/// Whether `bs` are, in order, what the first `n` of `entries` become, the
/// unreadable ones left out.
pub open spec fn builds_each(
    entries: Seq<Scan>,
    n: int,
    depth: u32,
    max_depth: Option<u32>,
    bs: Seq<FileNode>,
) -> bool
    decreases entries, n,
{
    if n <= 0 || n > entries.len() {
        bs.len() == 0
    } else if entries[n - 1] is Unreadable {
        builds_each(entries, n - 1, depth, max_depth, bs)
    } else {
        &&& bs.len() > 0
        &&& builds(entries[n - 1], depth, max_depth, bs.last())
        &&& builds_each(entries, n - 1, depth, max_depth, bs.drop_last())
    }
}

/// Whether the tree rooted at `node`, standing at `depth`, keeps the depth
/// policy and the order of siblings: every expanded node is a directory
/// where the policy descends, with `has_more` false and its children in
/// order; `has_more` is always there, and true only on a directory.
pub open spec fn well_formed(node: FileNode, depth: u32, max_depth: Option<u32>) -> bool
    decreases node,
{
    match node.children {
        None => node.has_more is Some && (node.has_more == Some(true) ==> node.is_dir),
        Some(cs) => {
            &&& node.is_dir
            &&& node.has_more == Some(false)
            &&& descends(depth, max_depth)
            &&& sorted(cs@)
            &&& forall|i: int|
                0 <= i < cs@.len() ==> well_formed(#[trigger] cs@[i], child_depth(depth), max_depth)
        },
    }
}

proof fn lemma_insert_sorted_at(x: FileNode, s: Seq<FileNode>, j: int)
    requires
        0 <= j <= s.len(),
        forall|k: int| j <= k < s.len() ==> before(x, #[trigger] s[k]),
        j == 0 || !before(x, s[j - 1]),
    ensures
        insert_sorted(x, s) == s.insert(j, x),
    decreases s.len(),
{
    if s.len() == 0 {
        assert(seq![x] =~= s.insert(j, x));
    } else if j == s.len() {
        assert(s.push(x) =~= s.insert(j, x));
    } else {
        assert(before(x, s[s.len() - 1]));
        lemma_insert_sorted_at(x, s.drop_last(), j);
        assert(s.drop_last().insert(j, x).push(s.last()) =~= s.insert(j, x));
    }
}

proof fn lemma_insert_keeps_sorted(x: FileNode, s: Seq<FileNode>, j: int)
    requires
        sorted(s),
        0 <= j <= s.len(),
        forall|k: int| j <= k < s.len() ==> before(x, #[trigger] s[k]),
        j == 0 || !before(x, s[j - 1]),
    ensures
        sorted(s.insert(j, x)),
{
    let t = s.insert(j, x);
    assert forall|a: int, b: int| 0 <= a < b < t.len() implies !before(
        #[trigger] t[b],
        #[trigger] t[a],
    ) by {
        if a == j {
            lemma_key_before_asymmetric(x.is_dir, x.name@, s[b - 1].is_dir, s[b - 1].name@);
        } else if b == j {
            if a < j - 1 {
                assert(!before(s[j - 1], s[a]));
                lemma_not_before_transitive(
                    s[a].is_dir,
                    s[a].name@,
                    s[j - 1].is_dir,
                    s[j - 1].name@,
                    x.is_dir,
                    x.name@,
                );
            }
        } else if a < j && b > j {
            assert(!before(s[b - 1], s[a]));
        } else if b < j {
            assert(!before(s[b], s[a]));
        } else {
            assert(!before(s[b - 1], s[a - 1]));
        }
    }
}

/// Builds the node for `scan` at `depth`: `None` exactly for an unreadable
/// entry. A directory where the policy descends is expanded, its readable
/// entries built at the next depth and sorted, directories first and then by
/// lowercase name; one past the limit is left unexpanded, with `has_more`
/// telling whether it has an entry.
pub fn build_node(scan: &Scan, depth: u32, max_depth: Option<u32>) -> (r: Option<FileNode>)
    ensures
        r is None <==> scan is Unreadable,
        r matches Some(node) ==> builds(*scan, depth, max_depth, node),
        r matches Some(node) ==> well_formed(node, depth, max_depth),
    decreases scan,
{
    match scan {
        Scan::Unreadable => None,
        Scan::Leaf { name, path } => Some(
            FileNode {
                name: name.clone(),
                path: path.clone(),
                is_dir: false,
                children: None,
                has_more: Some(false),
            },
        ),
        Scan::Dir { name, path, entries } => {
            if !may_descend(depth, max_depth) {
                return Some(
                    FileNode {
                        name: name.clone(),
                        path: path.clone(),
                        is_dir: true,
                        children: None,
                        has_more: Some(entries.len() > 0),
                    },
                );
            }
            let cd = deeper(depth);
            let mut out: Vec<FileNode> = Vec::new();
            let mut keys: Vec<String> = Vec::new();
            let ghost mut bs: Seq<FileNode> = Seq::empty();
            let mut i: usize = 0;
            while i < entries.len()
                invariant
                    i <= entries@.len(),
                    *scan == (Scan::Dir { name: *name, path: *path, entries: *entries }),
                    cd == child_depth(depth),
                    out@.len() == keys@.len(),
                    forall|k: int| 0 <= k < keys@.len() ==> #[trigger] keys@[k]@ == lower_of(out@[k].name@),
                    builds_each(entries@, i as int, cd, max_depth, bs),
                    out@ == sort_nodes(bs),
                    sorted(out@),
                    forall|k: int| 0 <= k < out@.len() ==> well_formed(#[trigger] out@[k], cd, max_depth),
                decreases entries@.len() - i,
            {
                proof {
                    broadcast use vstd::std_specs::vec::axiom_vec_index_decreases;

                    assert(decreases_to!(*scan => scan->entries));
                    assert(decreases_to!(*entries => entries[i as int]));
                    assert(decreases_to!(*scan => entries[i as int]));
                }
                let ghost before_bs = bs;
                match build_node(&entries[i], cd, max_depth) {
                    None => {
                        assert(entries@[i as int] is Unreadable);
                    },
                    Some(node) => {
                        let key = lowercase(node.name.as_str());
                        let mut j: usize = out.len();
                        while j > 0 && precedes(node.is_dir, &key, out[j - 1].is_dir, &keys[j - 1])
                            invariant
                                j <= out@.len(),
                                out@.len() == keys@.len(),
                                key@ == lower_of(node.name@),
                                forall|k: int| 0 <= k < keys@.len() ==> #[trigger] keys@[k]@ == lower_of(out@[k].name@),
                                forall|k: int| j <= k < out@.len() ==> before(node, #[trigger] out@[k]),
                            decreases j,
                        {
                            j = j - 1;
                        }
                        proof {
                            lemma_insert_sorted_at(node, out@, j as int);
                            lemma_insert_keeps_sorted(node, out@, j as int);
                            bs = bs.push(node);
                            assert(bs.drop_last() =~= before_bs);
                            assert(bs.last() == node);
                        }
                        let ghost prev = out@;
                        let ghost gn = node;
                        out.insert(j, node);
                        keys.insert(j, key);
                        assert(out@ == prev.insert(j as int, gn));
                        assert forall|k: int| 0 <= k < out@.len() implies well_formed(#[trigger] out@[k], cd, max_depth) by {
                            if k < j {
                                assert(out@[k] == prev[k]);
                            } else if k > j {
                                assert(out@[k] == prev[k - 1]);
                            }
                        }
                    },
                }
                i = i + 1;
            }
            Some(
                FileNode {
                    name: name.clone(),
                    path: path.clone(),
                    is_dir: true,
                    children: Some(out),
                    has_more: Some(false),
                },
            )
        },
    }
}

/// The tree of `path`, read into `root`: `NotFound` exactly when the path
/// does not exist, `Unreadable` when it does but its metadata could not be
/// read, else the node that `root` becomes at depth 0.
pub fn read_directory(path: &str, root_exists: bool, root: &Scan, max_depth: Option<u32>) -> (r:
    Result<FileNode, ReadError>)
    ensures
        !root_exists <==> r matches Err(ReadError::NotFound { .. }),
        r matches Err(ReadError::NotFound { path: p }) ==> p@ == path@,
        r matches Err(ReadError::Unreadable { path: p }) ==> p@ == path@ && root is Unreadable,
        root_exists && root is Unreadable ==> r is Err,
        r matches Ok(node) ==> builds(*root, 0, max_depth, node) && well_formed(node, 0, max_depth),
        root_exists && !(root is Unreadable) ==> r is Ok,
{
    if !root_exists {
        return Err(ReadError::NotFound { path: path.to_owned() });
    }
    match build_node(root, 0, max_depth) {
        Some(node) => Ok(node),
        None => Err(ReadError::Unreadable { path: path.to_owned() }),
    }
}

} // verus!

verus! {

/// Whether two trees are structurally identical: the same names, paths,
/// flags and markers, and children alike one by one.
pub open spec fn same_tree(a: FileNode, b: FileNode) -> bool
    decreases a,
{
    &&& a.name@ == b.name@
    &&& a.path@ == b.path@
    &&& a.is_dir == b.is_dir
    &&& a.has_more == b.has_more
    &&& match a.children {
        None => b.children is None,
        Some(xs) => {
            &&& b.children is Some
            &&& xs@.len() == b.children->0@.len()
            &&& forall|i: int|
                0 <= i < xs@.len() ==> same_tree(#[trigger] xs@[i], b.children->0@[i])
        },
    }
}

/// Whether two sequences of trees are alike one by one.
pub open spec fn same_trees(xs: Seq<FileNode>, ys: Seq<FileNode>) -> bool {
    &&& xs.len() == ys.len()
    &&& forall|i: int| 0 <= i < xs.len() ==> same_tree(#[trigger] xs[i], ys[i])
}

proof fn lemma_insert_same(x: FileNode, y: FileNode, s: Seq<FileNode>, t: Seq<FileNode>)
    requires
        same_tree(x, y),
        same_trees(s, t),
    ensures
        same_trees(insert_sorted(x, s), insert_sorted(y, t)),
    decreases s.len(),
{
    if s.len() > 0 {
        assert(same_tree(s[s.len() - 1], t[t.len() - 1]));
        if before(x, s.last()) {
            lemma_insert_same(x, y, s.drop_last(), t.drop_last());
            let (u, v) = (insert_sorted(x, s.drop_last()), insert_sorted(y, t.drop_last()));
            assert forall|i: int| 0 <= i < u.len() + 1 implies same_tree(
                #[trigger] u.push(s.last())[i],
                v.push(t.last())[i],
            ) by {
                if i < u.len() {
                    assert(same_tree(u[i], v[i]));
                }
            }
        } else {
            assert forall|i: int| 0 <= i < s.len() + 1 implies same_tree(
                #[trigger] s.push(x)[i],
                t.push(y)[i],
            ) by {
                if i < s.len() {
                    assert(same_tree(s[i], t[i]));
                }
            }
        }
    }
}

proof fn lemma_sort_same(xs: Seq<FileNode>, ys: Seq<FileNode>)
    requires
        same_trees(xs, ys),
    ensures
        same_trees(sort_nodes(xs), sort_nodes(ys)),
    decreases xs.len(),
{
    if xs.len() > 0 {
        let (xp, yp) = (xs.drop_last(), ys.drop_last());
        assert forall|i: int| 0 <= i < xp.len() implies same_tree(#[trigger] xp[i], yp[i]) by {
            assert(same_tree(xs[i], ys[i]));
        }
        lemma_sort_same(xp, yp);
        assert(same_tree(xs[xs.len() - 1], ys[ys.len() - 1]));
        lemma_insert_same(xs.last(), ys.last(), sort_nodes(xp), sort_nodes(yp));
    }
}

proof fn lemma_each_deterministic(
    entries: Seq<Scan>,
    n: int,
    depth: u32,
    max_depth: Option<u32>,
    xs: Seq<FileNode>,
    ys: Seq<FileNode>,
)
    requires
        builds_each(entries, n, depth, max_depth, xs),
        builds_each(entries, n, depth, max_depth, ys),
    ensures
        same_trees(xs, ys),
    decreases entries, n,
{
    if 0 < n <= entries.len() {
        if entries[n - 1] is Unreadable {
            lemma_each_deterministic(entries, n - 1, depth, max_depth, xs, ys);
        } else {
            lemma_build_deterministic(entries[n - 1], depth, max_depth, xs.last(), ys.last());
            lemma_each_deterministic(
                entries,
                n - 1,
                depth,
                max_depth,
                xs.drop_last(),
                ys.drop_last(),
            );
            assert forall|i: int| 0 <= i < xs.len() implies same_tree(#[trigger] xs[i], ys[i]) by {
                if i < xs.len() - 1 {
                    assert(same_tree(xs.drop_last()[i], ys.drop_last()[i]));
                }
            }
        }
    }
}

/// Building is a function of what was read: two builds of the same scan,
/// at the same depth under the same limit, give structurally identical
/// trees. So two walks of a subtree that did not change agree.
pub proof fn lemma_build_deterministic(
    scan: Scan,
    depth: u32,
    max_depth: Option<u32>,
    a: FileNode,
    b: FileNode,
)
    requires
        builds(scan, depth, max_depth, a),
        builds(scan, depth, max_depth, b),
    ensures
        same_tree(a, b),
    decreases scan, 0int,
{
    match scan {
        Scan::Dir { name, path, entries } => {
            if descends(depth, max_depth) {
                let cd = child_depth(depth);
                let n = entries@.len() as int;
                let xs = choose|bs: Seq<FileNode>|
                    builds_each(entries@, n, cd, max_depth, bs) && a.children->0@ == sort_nodes(bs);
                let ys = choose|bs: Seq<FileNode>|
                    builds_each(entries@, n, cd, max_depth, bs) && b.children->0@ == sort_nodes(bs);
                assert(decreases_to!(scan => scan->entries));
                assert(decreases_to!(scan->entries => scan->entries@)) by {
                    broadcast use vstd::std_specs::vec::axiom_vec_decreases_to_view;

                }
                lemma_each_deterministic(entries@, n, cd, max_depth, xs, ys);
                lemma_sort_same(xs, ys);
                let (ca, cb) = (a.children->0@, b.children->0@);
                assert forall|i: int| 0 <= i < ca.len() implies same_tree(
                    #[trigger] ca[i],
                    cb[i],
                ) by {
                    assert(same_tree(sort_nodes(xs)[i], sort_nodes(ys)[i]));
                }
            }
        },
        _ => {},
    }
}

} // verus!
