//! The flat collector: an iterative walk with an explicit stack of
//! directories still to list, gathering `(path, kind)` pairs.
//!
//! The caller runs the walk: it takes the next directory from `next_dir`,
//! lists it, and hands the entries to `absorb`, until `next_dir` has none.

use vstd::prelude::*;

use crate::policy::{child_depth, deeper, descends, may_descend, FileKind};
use crate::tree::ReadError;

verus! {

/// The `(path, kind)` pairs of the listed entries whose kind is known, in order.
pub open spec fn emitted_of(entries: Seq<(String, Option<FileKind>)>) -> Seq<(Seq<char>, FileKind)>
    decreases entries.len(),
{
    if entries.len() == 0 {
        seq![]
    } else {
        let e = entries.last();
        let pre = emitted_of(entries.drop_last());
        match e.1 {
            Some(k) => pre.push((e.0@, k)),
            None => pre,
        }
    }
}

/// The directories among listed entries that a walk listing them at `depth`
/// goes on to list, each with its depth, in order.
pub open spec fn pushed_of(
    entries: Seq<(String, Option<FileKind>)>,
    depth: u32,
    max_depth: Option<u32>,
) -> Seq<(Seq<char>, u32)>
    decreases entries.len(),
{
    if entries.len() == 0 {
        seq![]
    } else {
        let e = entries.last();
        let pre = pushed_of(entries.drop_last(), depth, max_depth);
        if e.1 == Some(FileKind::Directory) && descends(depth, max_depth) {
            pre.push((e.0@, child_depth(depth)))
        } else {
            pre
        }
    }
}

/// The state of a flat walk.
#[derive(Debug)]
pub struct Collector {
    max_depth: Option<u32>,
    stack: Vec<(String, u32)>,
    out: Vec<(String, FileKind)>,
}

impl Collector {
    /// The depth limit of the walk.
    pub closed spec fn limit(&self) -> Option<u32> {
        self.max_depth
    }

    /// The directories still to list, with their depths; the last is next.
    pub closed spec fn pending(&self) -> Seq<(Seq<char>, u32)> {
        self.stack@.map_values(|p: (String, u32)| (p.0@, p.1))
    }

    /// The pairs gathered so far, in the order found.
    pub closed spec fn emitted(&self) -> Seq<(Seq<char>, FileKind)> {
        self.out@.map_values(|p: (String, FileKind)| (p.0@, p.1))
    }

    /// A walk that starts by listing `root` at depth 0.
    pub fn new(root: String, max_depth: Option<u32>) -> (r: Self)
        ensures
            r.limit() == max_depth,
            r.pending() == seq![(root@, 0u32)],
            r.emitted() == Seq::<(Seq<char>, FileKind)>::empty(),
    {
        let ghost root_view = root@;
        let mut stack: Vec<(String, u32)> = Vec::new();
        stack.push((root, 0));
        let r = Collector { max_depth, stack, out: Vec::new() };
        assert(r.pending() =~= seq![(root_view, 0u32)]);
        assert(r.emitted() =~= Seq::<(Seq<char>, FileKind)>::empty());
        r
    }

    /// Takes the next directory to list, the one pushed last; `None` when
    /// the walk is over.
    pub fn next_dir(&mut self) -> (r: Option<(String, u32)>)
        ensures
            final(self).limit() == old(self).limit(),
            final(self).emitted() == old(self).emitted(),
            old(self).pending().len() == 0 ==> r is None && final(self).pending() == old(
                self,
            ).pending(),
            old(self).pending().len() > 0 ==> (r matches Some(d) && (d.0@, d.1) == old(
                self,
            ).pending().last()) && final(self).pending() == old(self).pending().drop_last(),
    {
        let r = self.stack.pop();
        proof {
            assert(self.pending() =~= old(self).pending().drop_last() || old(self).pending().len()
                == 0);
        }
        r
    }

    /// Records the entries listed in a directory taken at `depth`: each whose
    /// kind is known is gathered, and each directory among them is queued
    /// at the next depth where the policy descends. An entry of unknown kind
    /// is left out.
    pub fn absorb(&mut self, depth: u32, entries: Vec<(String, Option<FileKind>)>)
        ensures
            final(self).limit() == old(self).limit(),
            final(self).emitted() == old(self).emitted() + emitted_of(entries@),
            final(self).pending() == old(self).pending() + pushed_of(
                entries@,
                depth,
                old(self).limit(),
            ),
    {
        let descend = may_descend(depth, self.max_depth);
        let next = deeper(depth);
        let mut i: usize = 0;
        while i < entries.len()
            invariant
                i <= entries@.len(),
                descend == descends(depth, self.max_depth),
                next == child_depth(depth),
                self.max_depth == old(self).max_depth,
                self.emitted() == old(self).emitted() + emitted_of(entries@.take(i as int)),
                self.pending() == old(self).pending() + pushed_of(
                    entries@.take(i as int),
                    depth,
                    self.max_depth,
                ),
            decreases entries@.len() - i,
        {
            let ghost taken = entries@.take(i + 1);
            assert(taken.drop_last() =~= entries@.take(i as int));
            assert(taken.last() == entries@[i as int]);
            let ghost out0 = self.emitted();
            let ghost stack0 = self.pending();
            match entries[i].1 {
                Some(kind) => {
                    self.out.push((entries[i].0.clone(), kind));
                    assert(self.emitted() =~= out0.push((entries@[i as int].0@, kind)));
                    if descend && kind == FileKind::Directory {
                        self.stack.push((entries[i].0.clone(), next));
                        assert(self.pending() =~= stack0.push((entries@[i as int].0@, next)));
                    }
                },
                None => {},
            }
            i = i + 1;
        }
        assert(entries@.take(entries@.len() as int) =~= entries@);
    }

    /// The pairs gathered, in the order found.
    pub fn into_paths(self) -> (r: Vec<(String, FileKind)>)
        ensures
            r@.map_values(|p: (String, FileKind)| (p.0@, p.1)) == self.emitted(),
    {
        self.out
    }
}

/// The start of a flat walk of `path`: `NotFound` exactly when the path does
/// not exist, else a walk that lists `path` first.
pub fn read_directory_fast(path: &str, root_exists: bool, max_depth: Option<u32>) -> (r: Result<
    Collector,
    ReadError,
>)
    ensures
        !root_exists <==> r is Err,
        r matches Err(e) ==> (e matches ReadError::NotFound { path: p } && p@ == path@),
        r matches Ok(c) ==> c.limit() == max_depth && c.pending() == seq![(path@, 0u32)]
            && c.emitted().len() == 0,
{
    if !root_exists {
        return Err(ReadError::NotFound { path: path.to_owned() });
    }
    Ok(Collector::new(path.to_owned(), max_depth))
}

} // verus!

verus! {

/// A symbolic link is gathered as a link and never queued for listing,
/// whatever it points to, so it brings in no entries below it.
pub proof fn lemma_link_not_descended(
    entries: Seq<(String, Option<FileKind>)>,
    link: String,
    depth: u32,
    max_depth: Option<u32>,
)
    ensures
        pushed_of(entries.push((link, Some(FileKind::SymbolicLink))), depth, max_depth)
            == pushed_of(entries, depth, max_depth),
        emitted_of(entries.push((link, Some(FileKind::SymbolicLink)))) == emitted_of(entries).push(
            (link@, FileKind::SymbolicLink),
        ),
{
    assert(entries.push((link, Some(FileKind::SymbolicLink))).drop_last() =~= entries);
}

} // verus!
