//! Why the two walks reach the same paths. Without a depth limit, the
//! paths in a tree built from a scan are those that the flat walk gathers
//! when it lists each directory as the scan holds it; and each step of the
//! flat walk (`Collector::next_dir`, then `Collector::absorb`) keeps what it
//! will gather in all, so that a walk that runs out of directories has
//! gathered exactly the paths of the tree.

use vstd::prelude::*;

use crate::flat::{emitted_of, pushed_of};
use crate::policy::{child_depth, FileKind};
use crate::tree::{before, builds, builds_each, insert_sorted, sort_nodes, FileNode, Scan};

verus! {

/// The path that was read for an entry; none for an unreadable one.
pub open spec fn scan_path(s: Scan) -> Seq<char> {
    match s {
        Scan::Unreadable => Seq::empty(),
        Scan::Leaf { path, .. } => path@,
        Scan::Dir { path, .. } => path@,
    }
}

/// The paths of gathered pairs.
pub open spec fn gathered_paths(s: Seq<(Seq<char>, FileKind)>) -> Seq<Seq<char>> {
    s.map_values(|e: (Seq<char>, FileKind)| e.0)
}

/// Whether `listing`, as the flat walk gets it from listing a directory,
/// holds the same reads as `entries`: one by one, the kind is unknown
/// exactly for an unreadable entry, and the paths agree.
pub open spec fn lists(listing: Seq<(String, Option<FileKind>)>, entries: Seq<Scan>) -> bool {
    &&& listing.len() == entries.len()
    &&& forall|i: int|
        0 <= i < entries.len() ==> {
            &&& (#[trigger] entries[i] is Unreadable <==> listing[i].1 is None)
            &&& (!(entries[i] is Unreadable) ==> listing[i].0@ == scan_path(entries[i]))
        }
}

/// Whether `listing` holds the same reads as `entries`, and tells the
/// directories among them as they are.
pub open spec fn lists_kinds(listing: Seq<(String, Option<FileKind>)>, entries: Seq<Scan>) -> bool {
    &&& lists(listing, entries)
    &&& forall|i: int|
        0 <= i < entries.len() ==> (#[trigger] listing[i].1 == Some(FileKind::Directory)
            <==> entries[i] is Dir)
}

/// Every path in the tree below `node`, `node`'s own excluded.
pub open spec fn tree_paths(node: FileNode) -> Set<Seq<char>>
    decreases node,
{
    match node.children {
        None => Set::empty(),
        Some(cs) => forest_paths(cs@),
    }
}

/// Every path of the nodes `s` and of the trees below them.
pub open spec fn forest_paths(s: Seq<FileNode>) -> Set<Seq<char>>
    decreases s,
{
    if s.len() == 0 {
        Set::empty()
    } else {
        forest_paths(s.subrange(0, s.len() - 1)).insert(s[s.len() - 1].path@).union(
            tree_paths(s[s.len() - 1]),
        )
    }
}

/// Every path that the flat walk without a depth limit gathers from listing
/// `scan` and each directory found below it, when it reads what `scan` holds.
pub open spec fn gathered(scan: Scan) -> Set<Seq<char>>
    decreases scan,
{
    match scan {
        Scan::Dir { entries, .. } => gathered_each(entries@),
        _ => Set::empty(),
    }
}

/// What the flat walk without a depth limit gathers from the listed
/// `entries`: the path of each readable one, and what lies below each
/// directory among them.
pub open spec fn gathered_each(entries: Seq<Scan>) -> Set<Seq<char>>
    decreases entries,
{
    if entries.len() == 0 {
        Set::empty()
    } else {
        let e = entries[entries.len() - 1];
        let pre = gathered_each(entries.subrange(0, entries.len() - 1));
        if e is Unreadable {
            pre
        } else {
            pre.insert(scan_path(e)).union(gathered(e))
        }
    }
}

proof fn lemma_forest_insert(x: FileNode, s: Seq<FileNode>)
    ensures
        forest_paths(insert_sorted(x, s)) == forest_paths(s).insert(x.path@).union(tree_paths(x)),
    decreases s.len(),
{
    if s.len() == 0 {
        assert(seq![x].subrange(0, 0) =~= s);
    } else {
        let last = s[s.len() - 1];
        assert(s.subrange(0, s.len() - 1) =~= s.drop_last());
        if before(x, s.last()) {
            let t = insert_sorted(x, s.drop_last());
            lemma_forest_insert(x, s.drop_last());
            assert(t.push(last).subrange(0, t.len() as int) =~= t);
            assert(t.push(last)[t.len() as int] == last);
        } else {
            assert(s.push(x).subrange(0, s.len() as int) =~= s);
            assert(s.push(x)[s.len() as int] == x);
        }
        assert(forest_paths(insert_sorted(x, s)) =~= forest_paths(s).insert(x.path@).union(
            tree_paths(x),
        ));
    }
}

proof fn lemma_forest_sort(s: Seq<FileNode>)
    ensures
        forest_paths(sort_nodes(s)) == forest_paths(s),
    decreases s.len(),
{
    if s.len() > 0 {
        assert(s.subrange(0, s.len() - 1) =~= s.drop_last());
        lemma_forest_sort(s.drop_last());
        lemma_forest_insert(s.last(), sort_nodes(s.drop_last()));
    }
}

proof fn lemma_each_gathered(entries: Seq<Scan>, n: int, depth: u32, bs: Seq<FileNode>)
    requires
        0 <= n <= entries.len(),
        builds_each(entries, n, depth, None, bs),
    ensures
        forest_paths(bs) == gathered_each(entries.subrange(0, n)),
    decreases entries, n,
{
    if n > 0 {
        let sub = entries.subrange(0, n);
        assert(sub.subrange(0, n - 1) =~= entries.subrange(0, n - 1));
        assert(sub[n - 1] == entries[n - 1]);
        if entries[n - 1] is Unreadable {
            lemma_each_gathered(entries, n - 1, depth, bs);
        } else {
            lemma_each_gathered(entries, n - 1, depth, bs.drop_last());
            assert(builds(entries[n - 1], depth, None, bs.last()));
            lemma_tree_gathered(entries[n - 1], depth, bs.last());
            assert(bs.subrange(0, bs.len() - 1) =~= bs.drop_last());
            assert(bs.last().path@ == scan_path(entries[n - 1]));
            assert(forest_paths(bs) =~= gathered_each(sub));
        }
    } else {
        assert(entries.subrange(0, 0) =~= Seq::<Scan>::empty());
    }
}

/// Without a depth limit the two walks reach the same paths: the paths in
/// the tree built from `scan` are exactly those that the flat walk gathers
/// when it lists each directory as `scan` holds it.
pub proof fn lemma_tree_gathered(scan: Scan, depth: u32, node: FileNode)
    requires
        builds(scan, depth, None, node),
    ensures
        tree_paths(node) == gathered(scan),
    decreases scan, 0int,
{
    match scan {
        Scan::Dir { entries, .. } => {
            let cd = child_depth(depth);
            let n = entries@.len() as int;
            let bs = choose|bs: Seq<FileNode>|
                builds_each(entries@, n, cd, None, bs) && node.children->0@ == sort_nodes(bs);
            assert(decreases_to!(scan => scan->entries));
            assert(decreases_to!(scan->entries => scan->entries@)) by {
                broadcast use vstd::std_specs::vec::axiom_vec_decreases_to_view;

            }
            lemma_each_gathered(entries@, n, cd, bs);
            lemma_forest_sort(bs);
            assert(entries@.subrange(0, n) =~= entries@);
        },
        _ => {},
    }
}

/// The directories among `entries`, in order.
pub open spec fn dirs_of(entries: Seq<Scan>) -> Seq<Scan>
    decreases entries.len(),
{
    if entries.len() == 0 {
        seq![]
    } else if entries.last() is Dir {
        dirs_of(entries.drop_last()).push(entries.last())
    } else {
        dirs_of(entries.drop_last())
    }
}

/// What the flat walk without a depth limit gathers from the directories `ss`.
pub open spec fn pending_gathered(ss: Seq<Scan>) -> Set<Seq<char>>
    decreases ss.len(),
{
    if ss.len() == 0 {
        Set::empty()
    } else {
        pending_gathered(ss.drop_last()).union(gathered(ss.last()))
    }
}

/// Whether a flat walk without a depth limit, with directories `pending`
/// still to list and `emitted` gathered, stands for the directories `ss`,
/// and gathers `goal` in all once each of them is listed as it is there.
pub open spec fn walk_covers(
    pending: Seq<(Seq<char>, u32)>,
    emitted: Seq<(Seq<char>, FileKind)>,
    ss: Seq<Scan>,
    goal: Set<Seq<char>>,
) -> bool {
    &&& pending.len() == ss.len()
    &&& forall|i: int| 0 <= i < ss.len() ==> #[trigger] ss[i] is Dir && pending[i].0 == scan_path(ss[i])
    &&& gathered_paths(emitted).to_set().union(pending_gathered(ss)) == goal
}

proof fn lemma_pending_concat(a: Seq<Scan>, b: Seq<Scan>)
    ensures
        pending_gathered(a + b) == pending_gathered(a).union(pending_gathered(b)),
    decreases b.len(),
{
    if b.len() == 0 {
        assert(a + b =~= a);
        assert(pending_gathered(a).union(Set::empty()) =~= pending_gathered(a));
    } else {
        assert((a + b).drop_last() =~= a + b.drop_last());
        assert((a + b).last() == b.last());
        lemma_pending_concat(a, b.drop_last());
        assert(pending_gathered(a + b) =~= pending_gathered(a).union(pending_gathered(b)));
    }
}

proof fn lemma_gathered_concat(a: Seq<(Seq<char>, FileKind)>, b: Seq<(Seq<char>, FileKind)>)
    ensures
        gathered_paths(a + b).to_set() == gathered_paths(a).to_set().union(
            gathered_paths(b).to_set(),
        ),
{
    assert(gathered_paths(a + b) =~= gathered_paths(a) + gathered_paths(b));
    vstd::seq_lib::seq_to_set_distributes_over_add(gathered_paths(a), gathered_paths(b));
}

proof fn lemma_listing_parts(
    entries: Seq<Scan>,
    listing: Seq<(String, Option<FileKind>)>,
    depth: u32,
    n: int,
)
    requires
        lists_kinds(listing, entries),
        0 <= n <= entries.len(),
    ensures
        pushed_of(listing.take(n), depth, None).len() == dirs_of(entries.take(n)).len(),
        forall|i: int|
            0 <= i < dirs_of(entries.take(n)).len() ==> #[trigger] dirs_of(entries.take(n))[i] is Dir
                && pushed_of(listing.take(n), depth, None)[i].0 == scan_path(
                dirs_of(entries.take(n))[i],
            ),
        gathered_each(entries.take(n)) == gathered_paths(emitted_of(listing.take(n))).to_set().union(
            pending_gathered(dirs_of(entries.take(n))),
        ),
    decreases n,
{
    broadcast use vstd::seq::Seq::lemma_push_to_set_commute;

    let (et, lt) = (entries.take(n), listing.take(n));
    if n == 0 {
        assert(et =~= Seq::<Scan>::empty());
        assert(lt =~= Seq::<(String, Option<FileKind>)>::empty());
        assert(gathered_paths(emitted_of(lt)) =~= Seq::<Seq<char>>::empty());
        assert(gathered_paths(emitted_of(lt)).to_set() =~= Set::<Seq<char>>::empty());
        assert(gathered_each(et) =~= gathered_paths(emitted_of(lt)).to_set().union(
            pending_gathered(dirs_of(et)),
        ));
    } else {
        lemma_listing_parts(entries, listing, depth, n - 1);
        let (ep, lp) = (entries.take(n - 1), listing.take(n - 1));
        assert(et.drop_last() =~= ep);
        assert(et.subrange(0, n - 1) =~= ep);
        assert(lt.drop_last() =~= lp);
        let (e, l) = (entries[n - 1], listing[n - 1]);
        assert(et.last() == e && et[n - 1] == e);
        assert(lt.last() == l);
        assert(e is Unreadable <==> l.1 is None);
        assert(l.1 == Some(FileKind::Directory) <==> e is Dir);
        let g0 = gathered_paths(emitted_of(lp));
        if !(e is Unreadable) {
            let x = (l.0@, l.1->0);
            assert(emitted_of(lt) == emitted_of(lp).push(x));
            assert(gathered_paths(emitted_of(lp).push(x)) =~= g0.push(l.0@));
            assert(l.0@ == scan_path(e));
            if e is Dir {
                assert(dirs_of(et) == dirs_of(ep).push(e));
                assert(dirs_of(ep).push(e).drop_last() =~= dirs_of(ep));
            } else {
                assert(dirs_of(et) == dirs_of(ep));
                assert(gathered(e) =~= Set::<Seq<char>>::empty());
            }
        }
        assert(gathered_each(et) =~= gathered_paths(emitted_of(lt)).to_set().union(
            pending_gathered(dirs_of(et)),
        ));
    }
}

/// A flat walk without a depth limit that starts at a directory `root`
/// stands for it, and has all that it gathers still to come.
pub proof fn lemma_walk_start(root: Scan)
    requires
        root is Dir,
    ensures
        walk_covers(seq![(scan_path(root), 0u32)], seq![], seq![root], gathered(root)),
{
    let (ss, e) = (seq![root], Seq::<(Seq<char>, FileKind)>::empty());
    assert(ss.drop_last() =~= Seq::<Scan>::empty());
    assert(ss.last() == root);
    assert(pending_gathered(Seq::<Scan>::empty()) == Set::<Seq<char>>::empty());
    assert(pending_gathered(ss) =~= gathered(root));
    assert(gathered_paths(e) =~= Seq::<Seq<char>>::empty());
    assert(gathered_paths(e).to_set() =~= Set::<Seq<char>>::empty());
    assert(gathered_paths(e).to_set().union(pending_gathered(ss)) =~= gathered(root));
}

/// Listing the next directory as it is there, and recording what was
/// listed, keeps what the walk gathers in all.
pub proof fn lemma_walk_step(
    pending: Seq<(Seq<char>, u32)>,
    emitted: Seq<(Seq<char>, FileKind)>,
    ss: Seq<Scan>,
    goal: Set<Seq<char>>,
    listing: Seq<(String, Option<FileKind>)>,
)
    requires
        walk_covers(pending, emitted, ss, goal),
        ss.len() > 0,
        lists_kinds(listing, ss.last()->entries@),
    ensures
        walk_covers(
            pending.drop_last() + pushed_of(listing, pending.last().1, None),
            emitted + emitted_of(listing),
            ss.drop_last() + dirs_of(ss.last()->entries@),
            goal,
        ),
{
    let s = ss.last();
    assert(ss[ss.len() - 1] is Dir);
    let entries = s->entries@;
    let n = entries.len() as int;
    lemma_listing_parts(entries, listing, pending.last().1, n);
    assert(entries.take(n) =~= entries);
    assert(listing.take(n) =~= listing);
    let (p2, e2, s2) = (
        pending.drop_last() + pushed_of(listing, pending.last().1, None),
        emitted + emitted_of(listing),
        ss.drop_last() + dirs_of(entries),
    );
    assert forall|i: int| 0 <= i < s2.len() implies #[trigger] s2[i] is Dir && p2[i].0 == scan_path(
        s2[i],
    ) by {
        if i < ss.len() - 1 {
            assert(ss[i] is Dir);
        } else {
            assert(dirs_of(entries)[i - (ss.len() - 1)] is Dir);
        }
    }
    lemma_pending_concat(ss.drop_last(), dirs_of(entries));
    lemma_gathered_concat(emitted, emitted_of(listing));
    assert(gathered(s) == gathered_each(entries));
    assert(pending_gathered(ss) == pending_gathered(ss.drop_last()).union(gathered(s)));
    assert(gathered_paths(e2).to_set().union(pending_gathered(s2)) =~= goal);
}

/// A flat walk with no directory left to list has gathered all it stands for.
pub proof fn lemma_walk_end(emitted: Seq<(Seq<char>, FileKind)>, goal: Set<Seq<char>>)
    requires
        walk_covers(seq![], emitted, seq![], goal),
    ensures
        gathered_paths(emitted).to_set() == goal,
{
    assert(gathered_paths(emitted).to_set().union(pending_gathered(seq![])) =~= gathered_paths(
        emitted,
    ).to_set());
}

} // verus!

verus! {

/// Without a depth limit the flat walk gathers the paths of the tree: a
/// walk of `root` that has run out of directories, having listed each as
/// `root` holds it (so that `lemma_walk_start` and `lemma_walk_step` carry
/// its state), has gathered exactly the paths in the tree built from `root`.
pub proof fn lemma_walk_gathers_tree(
    root: Scan,
    node: FileNode,
    emitted: Seq<(Seq<char>, FileKind)>,
)
    requires
        builds(root, 0, None, node),
        walk_covers(seq![], emitted, seq![], gathered(root)),
    ensures
        gathered_paths(emitted).to_set() == tree_paths(node),
{
    lemma_walk_end(emitted, gathered(root));
    lemma_tree_gathered(root, 0, node);
}

} // verus!
