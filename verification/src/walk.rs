//! Walking the folders of a FAT volume, whatever the format of its directories.

use crate::heap::{unseen, visit_keeps, visit_shrinks, ClusterHeapView};
use crate::model::{views, views_push, Deleted, DeletedView};
use std::collections::HashSet;
use vstd::prelude::*;

verus! {

/// One file or folder of a directory.
pub struct Entry {
    pub name: String,
    pub first: u32,
    pub size: u64,
    pub is_dir: bool,
    pub deleted: bool,
    /// The data is known to stand in consecutive clusters, without a chain.
    pub contiguous: bool,
}

/// The view of `Entry`.
pub struct EntryView {
    pub name: Seq<char>,
    pub first: u32,
    pub size: u64,
    pub is_dir: bool,
    pub deleted: bool,
    pub contiguous: bool,
}

impl View for Entry {
    type V = EntryView;

    open spec fn view(&self) -> EntryView {
        EntryView {
            name: self.name@,
            first: self.first,
            size: self.size,
            is_dir: self.is_dir,
            deleted: self.deleted,
            contiguous: self.contiguous,
        }
    }
}

/// A directory that is still to be read: its first cluster, its length in bytes where it is
/// known to be contiguous (else 0), the path in front of its entries, and whether it is
/// deleted.
pub struct Folder {
    pub first: u32,
    pub len: u64,
    pub prefix: String,
    pub deleted: bool,
}

/// The view of `Folder`.
pub struct FolderView {
    pub first: u32,
    pub len: u64,
    pub prefix: Seq<char>,
    pub deleted: bool,
}

impl View for Folder {
    type V = FolderView;

    open spec fn view(&self) -> FolderView {
        FolderView { first: self.first, len: self.len, prefix: self.prefix@, deleted: self.deleted }
    }
}

/// The root directory, which starts at cluster `first`.
pub open spec fn root_at(first: u32) -> FolderView {
    FolderView { first, len: 0, prefix: ""@, deleted: false }
}

/// The folders and files of a volume: its clusters, what stands in a folder, the deleted file
/// that an entry of a folder stands for, and the folder that it leads to.
pub struct TreeView {
    pub heap: ClusterHeapView,
    pub entries: spec_fn(FolderView) -> Seq<EntryView>,
    pub file: spec_fn(FolderView, EntryView) -> Option<DeletedView>,
    pub folder: spec_fn(FolderView, EntryView) -> Option<FolderView>,
}

/// What stands in the folder `d`.
pub open spec fn entries_of(t: TreeView, d: FolderView) -> Seq<EntryView> {
    (t.entries)(d)
}

/// The deleted file that the entry `e` of the folder `d` stands for, if it is one.
pub open spec fn deleted_file(t: TreeView, d: FolderView, e: EntryView) -> Option<DeletedView> {
    (t.file)(d, e)
}

/// The folder that the entry `e` of the folder `d` leads to, if any.
pub open spec fn subfolder(t: TreeView, d: FolderView, e: EntryView) -> Option<FolderView> {
    (t.folder)(d, e)
}

/// Whether the tree tells deleted files and folders from live ones: a file counts only where
/// its entry or its folder is deleted, and a folder is deleted exactly if its entry is or the
/// folder that it lies in.
pub open spec fn sound(t: TreeView) -> bool {
    &&& forall|d: FolderView, e: EntryView| #[trigger]
        deleted_file(t, d, e) is Some ==> e.deleted || d.deleted
    &&& forall|d: FolderView, e: EntryView|
        #[trigger] subfolder(t, d, e) matches Some(f) ==> f.deleted == (e.deleted || d.deleted)
}

/// A volume whose folders can be read.
pub trait Tree {
    /// The folders and files.
    spec fn tree(&self) -> TreeView;

    /// Whether the folders can be read: a cluster holds bytes.
    spec fn ready(&self) -> bool;

    /// Whether `c` is the number of a cluster.
    fn is_cluster(&self, c: u32) -> (r: bool)
        ensures
            r == self.tree().heap.valid(c as int),
    ;

    /// What stands in the folder `d`.
    fn entries(&self, d: &Folder) -> (r: Vec<Entry>)
        requires
            self.ready(),
            self.tree().heap.valid(d.first as int),
        ensures
            views(r@) == entries_of(self.tree(), d@),
    ;

    /// The deleted file that the entry `e` of the folder `d` stands for.
    fn find_deleted(&self, d: &Folder, e: &Entry) -> (r: Option<Deleted>)
        requires
            self.ready(),
        ensures
            match r {
                Some(f) => deleted_file(self.tree(), d@, e@) == Some(f@),
                None => deleted_file(self.tree(), d@, e@) is None,
            },
    ;

    /// The folder that the entry `e` of the folder `d` leads to.
    fn find_folder(&self, d: &Folder, e: &Entry) -> (r: Option<Folder>)
        ensures
            match r {
                Some(f) => subfolder(self.tree(), d@, e@) == Some(f@),
                None => subfolder(self.tree(), d@, e@) is None,
            },
    ;
}

/// The deleted files of the folder `d` with the entries `es`, in their order.
pub open spec fn files_in(t: TreeView, d: FolderView, es: Seq<EntryView>) -> Seq<DeletedView>
    decreases es.len(),
{
    if es.len() == 0 {
        seq![]
    } else {
        let before = files_in(t, d, es.drop_last());
        match deleted_file(t, d, es.last()) {
            Some(f) => before.push(f),
            None => before,
        }
    }
}

/// The folders in the folder `d` with the entries `es`, in their order.
pub open spec fn folders_in(t: TreeView, d: FolderView, es: Seq<EntryView>) -> Seq<FolderView>
    decreases es.len(),
{
    if es.len() == 0 {
        seq![]
    } else {
        let before = folders_in(t, d, es.drop_last());
        match subfolder(t, d, es.last()) {
            Some(f) => before.push(f),
            None => before,
        }
    }
}

/// The deleted files found by reading the folders in `stack`, the last one first, and the
/// folders in them; a folder whose first cluster is in `seen` is not read again.
pub open spec fn files_found(t: TreeView, stack: Seq<FolderView>, seen: Set<u32>) -> Seq<DeletedView>
    decreases unseen(t.heap.bound(), seen).len(), stack.len(),
{
    if stack.len() == 0 {
        seq![]
    } else {
        let d = stack.last();
        proof {
            visit_keeps(t.heap.bound(), seen, d.first);
            if !seen.contains(d.first) && t.heap.valid(d.first as int) {
                visit_shrinks(t.heap.bound(), seen, d.first);
            }
        }
        if seen.contains(d.first) || !t.heap.valid(d.first as int) {
            files_found(t, stack.drop_last(), seen.insert(d.first))
        } else {
            let es = entries_of(t, d);
            files_in(t, d, es) + files_found(t, stack.drop_last() + folders_in(t, d, es), seen.insert(d.first))
        }
    }
}

/// The deleted files in the folder `root` and below it.
pub open spec fn files_below(t: TreeView, root: FolderView) -> Seq<DeletedView> {
    files_found(t, seq![root], Set::empty())
}

/// Find the deleted files in the folder `root` and below it.
pub fn walk<T: Tree>(t: &T, root: Folder) -> (out: Vec<Deleted>)
    requires
        t.ready(),
    ensures
        views(out@) == files_below(t.tree(), root@),
{
    let mut out: Vec<Deleted> = Vec::new();
    let mut seen: HashSet<u32> = HashSet::new();
    let ghost first = root@;
    let mut stack: Vec<Folder> = Vec::new();
    stack.push(root);
    let ghost tree = t.tree();
    let ghost all = files_below(tree, first);
    assert(views(stack@) =~= seq![first]);
    assert(views(out@) + all =~= all);
    while stack.len() > 0
        invariant
            t.ready(),
            tree == t.tree(),
            views(out@) + files_found(tree, views(stack@), seen@) == all,
        decreases unseen(tree.heap.bound(), seen@).len(), stack@.len(),
    {
        let ghost before = views(stack@);
        let ghost seen0 = seen@;
        let ghost out0 = views(out@);
        let d = stack.pop().unwrap();
        assert(before.drop_last() =~= views(stack@));
        assert(before.last() == d@);
        proof {
            visit_keeps(tree.heap.bound(), seen0, d.first);
        }
        if !seen.insert(d.first) || !t.is_cluster(d.first) {
            continue ;
        }
        proof {
            visit_shrinks(tree.heap.bound(), seen0, d.first);
        }
        let es = t.entries(&d);
        let ghost entries = views(es@);
        let ghost rest = views(stack@);
        assert(entries.take(0) =~= seq![]);
        assert(out0 + files_in(tree, d@, entries.take(0)) =~= out0);
        assert(rest + folders_in(tree, d@, entries.take(0)) =~= rest);
        let mut k: usize = 0;
        while k < es.len()
            invariant
                k <= es@.len(),
                t.ready(),
                tree == t.tree(),
                entries == views(es@),
                views(out@) == out0 + files_in(tree, d@, entries.take(k as int)),
                views(stack@) == rest + folders_in(tree, d@, entries.take(k as int)),
            decreases es@.len() - k,
        {
            assert(entries.take(k + 1).drop_last() =~= entries.take(k as int));
            assert(entries.take(k + 1).last() == es@[k as int]@);
            if let Some(found) = t.find_deleted(&d, &es[k]) {
                proof {
                    views_push(out@, found);
                }
                out.push(found);
            }
            if let Some(folder) = t.find_folder(&d, &es[k]) {
                proof {
                    views_push(stack@, folder);
                }
                stack.push(folder);
            }
            assert(views(out@) =~= out0 + files_in(tree, d@, entries.take(k + 1)));
            assert(views(stack@) =~= rest + folders_in(tree, d@, entries.take(k + 1)));
            k += 1;
        }
        assert(entries.take(k as int) =~= entries);
        assert(views(out@) + files_found(tree, views(stack@), seen@) =~= out0 + files_found(tree, before, seen0));
    }
    assert(views(out@) =~= all);
    out
}

/// The folders that are read, in their order, where those in `stack` are to be read, and none
/// whose first cluster is in `seen`.
pub open spec fn folders_read(t: TreeView, stack: Seq<FolderView>, seen: Set<u32>) -> Seq<FolderView>
    decreases unseen(t.heap.bound(), seen).len(), stack.len(),
{
    if stack.len() == 0 {
        seq![]
    } else {
        let d = stack.last();
        proof {
            visit_keeps(t.heap.bound(), seen, d.first);
            if !seen.contains(d.first) && t.heap.valid(d.first as int) {
                visit_shrinks(t.heap.bound(), seen, d.first);
            }
        }
        if seen.contains(d.first) || !t.heap.valid(d.first as int) {
            folders_read(t, stack.drop_last(), seen.insert(d.first))
        } else {
            seq![d] + folders_read(t, stack.drop_last() + folders_in(t, d, entries_of(t, d)), seen.insert(d.first))
        }
    }
}

/// The deleted files of the folders, one after the other.
pub open spec fn files_of(t: TreeView, folders: Seq<FolderView>) -> Seq<DeletedView>
    decreases folders.len(),
{
    if folders.len() == 0 {
        seq![]
    } else {
        files_in(t, folders[0], entries_of(t, folders[0])) + files_of(t, folders.skip(1))
    }
}

/// What is listed are the deleted files of the folders that are read.
pub proof fn files_come_from_the_folders_read(t: TreeView, stack: Seq<FolderView>, seen: Set<u32>)
    ensures
        files_found(t, stack, seen) == files_of(t, folders_read(t, stack, seen)),
    decreases unseen(t.heap.bound(), seen).len(), stack.len(),
{
    if stack.len() > 0 {
        let d = stack.last();
        visit_keeps(t.heap.bound(), seen, d.first);
        if seen.contains(d.first) || !t.heap.valid(d.first as int) {
            files_come_from_the_folders_read(t, stack.drop_last(), seen.insert(d.first));
        } else {
            visit_shrinks(t.heap.bound(), seen, d.first);
            let next = stack.drop_last() + folders_in(t, d, entries_of(t, d));
            files_come_from_the_folders_read(t, next, seen.insert(d.first));
            let rest = folders_read(t, next, seen.insert(d.first));
            assert((seq![d] + rest).skip(1) =~= rest);
        }
    }
}

/// No folder is read twice: the folders that are read exist, were not seen before, and start
/// at different clusters.
pub proof fn folders_are_read_once(t: TreeView, stack: Seq<FolderView>, seen: Set<u32>)
    ensures
        forall|i: int|
            0 <= i < folders_read(t, stack, seen).len() ==> {
                let c = (#[trigger] folders_read(t, stack, seen)[i]).first;
                t.heap.valid(c as int) && !seen.contains(c)
            },
        forall|i: int, j: int|
            0 <= i < j < folders_read(t, stack, seen).len() ==> folders_read(t, stack, seen)[i].first
                != folders_read(t, stack, seen)[j].first,
    decreases unseen(t.heap.bound(), seen).len(), stack.len(),
{
    if stack.len() > 0 {
        let d = stack.last();
        let all = folders_read(t, stack, seen);
        visit_keeps(t.heap.bound(), seen, d.first);
        if seen.contains(d.first) || !t.heap.valid(d.first as int) {
            folders_are_read_once(t, stack.drop_last(), seen.insert(d.first));
            let rest = folders_read(t, stack.drop_last(), seen.insert(d.first));
            assert(all == rest);
            assert forall|i: int| 0 <= i < all.len() implies
                t.heap.valid((#[trigger] all[i]).first as int) && !seen.contains(all[i].first) by {
                assert(!seen.insert(d.first).contains(rest[i].first));
            }
        } else {
            visit_shrinks(t.heap.bound(), seen, d.first);
            let next = stack.drop_last() + folders_in(t, d, entries_of(t, d));
            folders_are_read_once(t, next, seen.insert(d.first));
            let rest = folders_read(t, next, seen.insert(d.first));
            assert(all == seq![d] + rest);
            assert forall|i: int| 0 <= i < all.len() implies
                t.heap.valid((#[trigger] all[i]).first as int) && !seen.contains(all[i].first) by {
                if i > 0 {
                    assert(all[i] == rest[i - 1]);
                }
            }
            assert forall|i: int, j: int| 0 <= i < j < all.len() implies all[i].first != all[j].first by {
                assert(all[j] == rest[j - 1]);
                if i > 0 {
                    assert(all[i] == rest[i - 1]);
                } else {
                    assert(!seen.insert(d.first).contains(rest[j - 1].first));
                }
            }
        }
    }
}

/// Whether one of the folders starts at cluster `c`.
pub open spec fn is_read(folders: Seq<FolderView>, c: u32) -> bool {
    exists|i: int| 0 <= i < folders.len() && (#[trigger] folders[i]).first == c
}

/// Whether each folder in `todo` that exists was seen, or is one of `folders`.
pub open spec fn all_read(t: TreeView, folders: Seq<FolderView>, seen: Set<u32>, todo: Seq<FolderView>) -> bool {
    forall|k: int|
        0 <= k < todo.len() && t.heap.valid((#[trigger] todo[k]).first as int) ==>
            seen.contains(todo[k].first) || is_read(folders, todo[k].first)
}

/// No folder is left out: those in `stack` are read, and with every folder that is read the
/// folders in it are, unless their first cluster was seen before.
pub proof fn folders_are_read_throughout(t: TreeView, stack: Seq<FolderView>, seen: Set<u32>)
    ensures
        all_read(t, folders_read(t, stack, seen), seen, stack),
        forall|i: int|
            0 <= i < folders_read(t, stack, seen).len() ==> all_read(
                t,
                folders_read(t, stack, seen),
                seen,
                folders_in(
                    t,
                    #[trigger] folders_read(t, stack, seen)[i],
                    entries_of(t, folders_read(t, stack, seen)[i]),
                ),
            ),
    decreases unseen(t.heap.bound(), seen).len(), stack.len(),
{
    if stack.len() > 0 {
        let d = stack.last();
        let all = folders_read(t, stack, seen);
        let seen2 = seen.insert(d.first);
        visit_keeps(t.heap.bound(), seen, d.first);
        if seen.contains(d.first) || !t.heap.valid(d.first as int) {
            let rest = folders_read(t, stack.drop_last(), seen2);
            folders_are_read_throughout(t, stack.drop_last(), seen2);
            assert(all == rest);
            assert forall|todo: Seq<FolderView>| all_read(t, rest, seen2, todo) implies
                #[trigger] all_read(t, all, seen, todo) by {}
            assert forall|k: int| 0 <= k < stack.len() && t.heap.valid((#[trigger] stack[k]).first as int) implies
                seen.contains(stack[k].first) || is_read(all, stack[k].first) by {
                if k < stack.len() - 1 {
                    assert(stack.drop_last()[k] == stack[k]);
                }
            }
            assert forall|i: int| 0 <= i < all.len() implies
                all_read(t, all, seen, folders_in(t, #[trigger] all[i], entries_of(t, all[i]))) by {
                assert(all_read(t, rest, seen2, folders_in(t, rest[i], entries_of(t, rest[i]))));
            }
        } else {
            visit_shrinks(t.heap.bound(), seen, d.first);
            let subs = folders_in(t, d, entries_of(t, d));
            let next = stack.drop_last() + subs;
            let rest = folders_read(t, next, seen2);
            folders_are_read_throughout(t, next, seen2);
            assert(all == seq![d] + rest);
            assert forall|c: u32| seen2.contains(c) || is_read(rest, c) implies
                seen.contains(c) || #[trigger] is_read(all, c) by {
                if c == d.first {
                    assert(all[0].first == c);
                } else if is_read(rest, c) {
                    let i = choose|i: int| 0 <= i < rest.len() && (#[trigger] rest[i]).first == c;
                    assert(all[i + 1] == rest[i]);
                }
            }
            assert forall|todo: Seq<FolderView>| all_read(t, rest, seen2, todo) implies
                #[trigger] all_read(t, all, seen, todo) by {
                assert forall|k: int| 0 <= k < todo.len() && t.heap.valid((#[trigger] todo[k]).first as int) implies
                    seen.contains(todo[k].first) || is_read(all, todo[k].first) by {}
            }
            assert(all_read(t, all, seen, next));
            assert forall|k: int| 0 <= k < stack.len() && t.heap.valid((#[trigger] stack[k]).first as int) implies
                seen.contains(stack[k].first) || is_read(all, stack[k].first) by {
                if k < stack.len() - 1 {
                    assert(next[k] == stack[k]);
                } else {
                    assert(all[0].first == stack[k].first);
                }
            }
            assert forall|i: int| 0 <= i < all.len() implies
                all_read(t, all, seen, folders_in(t, #[trigger] all[i], entries_of(t, all[i]))) by {
                if i > 0 {
                    assert(all[i] == rest[i - 1]);
                    assert(all_read(t, rest, seen2, folders_in(t, rest[i - 1], entries_of(t, rest[i - 1]))));
                } else {
                    assert forall|k: int| 0 <= k < subs.len() && t.heap.valid((#[trigger] subs[k]).first as int) implies
                        seen.contains(subs[k].first) || is_read(all, subs[k].first) by {
                        assert(next[stack.len() - 1 + k] == subs[k]);
                    }
                }
            }
        }
    }
}

/// Whether the folder `d` is reached from `root` by going down `n` times, through entries that
/// stand on the disk.
pub open spec fn reached(t: TreeView, root: FolderView, d: FolderView, n: nat) -> bool
    decreases n,
{
    if n == 0 {
        d == root
    } else {
        exists|p: FolderView, e: EntryView|
            #[trigger] subfolder(t, p, e) == Some(d) && entries_of(t, p).contains(e) && reached(t, root, p, (n - 1) as nat)
    }
}

/// Whether the folder `d` is reached from `root` at all.
pub open spec fn reachable(t: TreeView, root: FolderView, d: FolderView) -> bool {
    exists|n: nat| reached(t, root, d, n)
}

proof fn folders_in_come_from_entries(t: TreeView, d: FolderView, es: Seq<EntryView>)
    ensures
        forall|k: int|
            0 <= k < folders_in(t, d, es).len() ==> exists|j: int|
                0 <= j < es.len() && subfolder(t, d, #[trigger] es[j]) == Some(#[trigger] folders_in(t, d, es)[k]),
    decreases es.len(),
{
    if es.len() > 0 {
        let init = es.drop_last();
        folders_in_come_from_entries(t, d, init);
        let before = folders_in(t, d, init);
        let all = folders_in(t, d, es);
        assert(es[es.len() - 1] == es.last());
        assert forall|k: int| 0 <= k < all.len() implies exists|j: int|
            0 <= j < es.len() && subfolder(t, d, #[trigger] es[j]) == Some(#[trigger] all[k]) by {
            if k < before.len() {
                assert(all[k] == before[k]);
                let j = choose|j: int| 0 <= j < init.len() && subfolder(t, d, #[trigger] init[j]) == Some(before[k]);
                assert(es[j] == init[j]);
            }
        }
    }
}

proof fn folders_read_are_reachable(t: TreeView, root: FolderView, stack: Seq<FolderView>, seen: Set<u32>)
    requires
        forall|k: int| 0 <= k < stack.len() ==> reachable(t, root, #[trigger] stack[k]),
    ensures
        forall|i: int|
            0 <= i < folders_read(t, stack, seen).len() ==>
                reachable(t, root, #[trigger] folders_read(t, stack, seen)[i]),
    decreases unseen(t.heap.bound(), seen).len(), stack.len(),
{
    if stack.len() > 0 {
        let d = stack.last();
        let all = folders_read(t, stack, seen);
        assert(stack[stack.len() - 1] == d);
        assert forall|k: int| 0 <= k < stack.len() - 1 implies
            reachable(t, root, #[trigger] stack.drop_last()[k]) by {
            assert(stack.drop_last()[k] == stack[k]);
        }
        visit_keeps(t.heap.bound(), seen, d.first);
        if seen.contains(d.first) || !t.heap.valid(d.first as int) {
            folders_read_are_reachable(t, root, stack.drop_last(), seen.insert(d.first));
            let rest = folders_read(t, stack.drop_last(), seen.insert(d.first));
            assert forall|i: int| 0 <= i < all.len() implies reachable(t, root, #[trigger] all[i]) by {
                assert(all[i] == rest[i]);
            }
        } else {
            visit_shrinks(t.heap.bound(), seen, d.first);
            let es = entries_of(t, d);
            let subs = folders_in(t, d, es);
            let next = stack.drop_last() + subs;
            folders_in_come_from_entries(t, d, es);
            let n = choose|n: nat| reached(t, root, d, n);
            assert forall|k: int| 0 <= k < next.len() implies reachable(t, root, #[trigger] next[k]) by {
                if k < stack.len() - 1 {
                    assert(next[k] == stack[k]);
                } else {
                    let s = subs[k - (stack.len() - 1)];
                    assert(next[k] == s);
                    let j = choose|j: int| 0 <= j < es.len() && subfolder(t, d, #[trigger] es[j]) == Some(s);
                    assert(es.contains(es[j]));
                    assert(reached(t, root, s, n + 1));
                }
            }
            folders_read_are_reachable(t, root, next, seen.insert(d.first));
            let rest = folders_read(t, next, seen.insert(d.first));
            assert forall|i: int| 0 <= i < all.len() implies reachable(t, root, #[trigger] all[i]) by {
                if i > 0 {
                    assert(all[i] == rest[i - 1]);
                }
            }
        }
    }
}

/// Whether `f` stands for an entry of a folder below `root` that is deleted itself, or lies in
/// a deleted folder.
pub open spec fn was_deleted(t: TreeView, root: FolderView, f: DeletedView) -> bool {
    exists|d: FolderView, e: EntryView|
        #[trigger] deleted_file(t, d, e) == Some(f) && reachable(t, root, d) && entries_of(t, d).contains(e) && (e.deleted
            || d.deleted)
}

proof fn files_in_were_deleted(t: TreeView, root: FolderView, d: FolderView, es: Seq<EntryView>)
    requires
        sound(t),
        reachable(t, root, d),
        forall|j: int| 0 <= j < es.len() ==> entries_of(t, d).contains(#[trigger] es[j]),
    ensures
        forall|i: int|
            0 <= i < files_in(t, d, es).len() ==> was_deleted(t, root, #[trigger] files_in(t, d, es)[i]),
    decreases es.len(),
{
    if es.len() > 0 {
        let init = es.drop_last();
        assert forall|j: int| 0 <= j < init.len() implies entries_of(t, d).contains(#[trigger] init[j]) by {
            assert(init[j] == es[j]);
        }
        files_in_were_deleted(t, root, d, init);
        let before = files_in(t, d, init);
        let all = files_in(t, d, es);
        assert(es[es.len() - 1] == es.last());
        assert forall|i: int| 0 <= i < all.len() implies was_deleted(t, root, #[trigger] all[i]) by {
            if i < before.len() {
                assert(all[i] == before[i]);
            } else {
                assert(deleted_file(t, d, es.last()) == Some(all[i]));
            }
        }
    }
}

proof fn files_of_were_deleted(t: TreeView, root: FolderView, folders: Seq<FolderView>)
    requires
        sound(t),
        forall|k: int| 0 <= k < folders.len() ==> reachable(t, root, #[trigger] folders[k]),
    ensures
        forall|i: int|
            0 <= i < files_of(t, folders).len() ==> was_deleted(t, root, #[trigger] files_of(t, folders)[i]),
    decreases folders.len(),
{
    if folders.len() > 0 {
        let d = folders[0];
        let rest = folders.skip(1);
        assert forall|k: int| 0 <= k < rest.len() implies reachable(t, root, #[trigger] rest[k]) by {
            assert(rest[k] == folders[k + 1]);
        }
        files_of_were_deleted(t, root, rest);
        files_in_were_deleted(t, root, d, entries_of(t, d));
        let a = files_in(t, d, entries_of(t, d));
        let b = files_of(t, rest);
        let all = files_of(t, folders);
        assert forall|i: int| 0 <= i < all.len() implies was_deleted(t, root, #[trigger] all[i]) by {
            if i < a.len() {
                assert(all[i] == a[i]);
            } else {
                assert(all[i] == b[i - a.len()]);
            }
        }
    }
}

/// Live files are never listed: every file that is found stands for an entry, in a folder that
/// is reached from the root, that is deleted or lies in a deleted folder.
pub proof fn listed_files_were_deleted(t: TreeView, root: FolderView)
    requires
        sound(t),
    ensures
        forall|i: int|
            0 <= i < files_below(t, root).len() ==> was_deleted(t, root, #[trigger] files_below(t, root)[i]),
{
    assert(reached(t, root, root, 0));
    files_come_from_the_folders_read(t, seq![root], Set::empty());
    folders_read_are_reachable(t, root, seq![root], Set::empty());
    files_of_were_deleted(t, root, folders_read(t, seq![root], Set::empty()));
}

/// A folder counts as deleted only where an entry on the way to it is.
pub proof fn deleted_folders_lie_below_deleted_entries(t: TreeView, root: FolderView, d: FolderView, n: nat)
    requires
        sound(t),
        reached(t, root, d, n),
        d.deleted,
        !root.deleted,
    ensures
        exists|p: FolderView, e: EntryView|
            #[trigger] subfolder(t, p, e) is Some && reachable(t, root, p) && entries_of(t, p).contains(e)
                && e.deleted,
    decreases n,
{
    if n > 0 {
        let (p, e) = choose|p: FolderView, e: EntryView|
            #[trigger] subfolder(t, p, e) == Some(d) && entries_of(t, p).contains(e) && reached(t, root, p, (n - 1) as nat);
        if e.deleted {
            assert(subfolder(t, p, e) is Some);
        } else {
            deleted_folders_lie_below_deleted_entries(t, root, p, (n - 1) as nat);
        }
    }
}

/// No deleted file is left out: each entry of a folder that stands for one is listed with it.
pub proof fn deleted_entries_are_listed(t: TreeView, d: FolderView, es: Seq<EntryView>, j: int)
    requires
        0 <= j < es.len(),
    ensures
        deleted_file(t, d, es[j]) matches Some(f) ==> files_in(t, d, es).contains(f),
    decreases es.len(),
{
    let init = es.drop_last();
    let all = files_in(t, d, es);
    if let Some(f) = deleted_file(t, d, es[j]) {
        if j < init.len() {
            assert(init[j] == es[j]);
            deleted_entries_are_listed(t, d, init, j);
            let before = files_in(t, d, init);
            let i = choose|i: int| 0 <= i < before.len() && before[i] == f;
            assert(all[i] == f);
        } else {
            assert(all[all.len() - 1] == f);
        }
    }
}

proof fn files_of_hold_each_folder(t: TreeView, folders: Seq<FolderView>, i: int, f: DeletedView)
    requires
        0 <= i < folders.len(),
        files_in(t, folders[i], entries_of(t, folders[i])).contains(f),
    ensures
        files_of(t, folders).contains(f),
    decreases folders.len(),
{
    let first = files_in(t, folders[0], entries_of(t, folders[0]));
    let others = files_of(t, folders.skip(1));
    let all = files_of(t, folders);
    if i == 0 {
        let k = choose|k: int| 0 <= k < first.len() && first[k] == f;
        assert(all[k] == f);
    } else {
        assert(folders.skip(1)[i - 1] == folders[i]);
        files_of_hold_each_folder(t, folders.skip(1), i - 1, f);
        let k = choose|k: int| 0 <= k < others.len() && others[k] == f;
        assert(all[first.len() + k] == f);
    }
}

/// Whatever stands for a deleted file in a folder that is read is listed.
pub proof fn deleted_files_are_listed(t: TreeView, root: FolderView, d: FolderView, e: EntryView)
    requires
        folders_read(t, seq![root], Set::empty()).contains(d),
        entries_of(t, d).contains(e),
    ensures
        deleted_file(t, d, e) matches Some(f) ==> files_below(t, root).contains(f),
{
    let folders = folders_read(t, seq![root], Set::empty());
    let i = choose|i: int| 0 <= i < folders.len() && folders[i] == d;
    let es = entries_of(t, d);
    let j = choose|j: int| 0 <= j < es.len() && es[j] == e;
    files_come_from_the_folders_read(t, seq![root], Set::empty());
    deleted_entries_are_listed(t, d, es, j);
    if let Some(f) = deleted_file(t, d, e) {
        files_of_hold_each_folder(t, folders, i, f);
    }
}

/// Whether every folder entry is followed, live or deleted: an entry that is one of a folder and
/// whose first cluster exists leads to the folder there, and what stands in it is listed below
/// the name of the entry.
pub open spec fn follows_folders(t: TreeView) -> bool {
    forall|d: FolderView, e: EntryView|
        #![trigger subfolder(t, d, e)]
        e.is_dir && t.heap.valid(e.first as int) ==> (subfolder(t, d, e) matches Some(f) && f.first == e.first && f.prefix
            == d.prefix + e.name + "/"@ && f.deleted == (e.deleted || d.deleted))
}

/// The folder that is reached from `root` by going down through the entries `es` in turn.
pub open spec fn way_down(t: TreeView, root: FolderView, es: Seq<EntryView>) -> FolderView
    decreases es.len(),
{
    if es.len() == 0 {
        root
    } else {
        subfolder(t, way_down(t, root, es.drop_last()), es.last())->Some_0
    }
}

/// Whether each of the entries `es` is one of a folder, stands in the one before it, the first
/// in `root`, and has a first cluster that exists.
pub open spec fn leads_down(t: TreeView, root: FolderView, es: Seq<EntryView>) -> bool
    decreases es.len(),
{
    es.len() > 0 ==> {
        let p = way_down(t, root, es.drop_last());
        leads_down(t, root, es.drop_last()) && entries_of(t, p).contains(es.last()) && es.last().is_dir && t.heap.valid(
            es.last().first as int,
        )
    }
}

/// The names of the entries, each with a slash behind it.
pub open spec fn names_of_way(es: Seq<EntryView>) -> Seq<char>
    decreases es.len(),
{
    if es.len() == 0 {
        seq![]
    } else {
        names_of_way(es.drop_last()) + es.last().name + seq!['/']
    }
}

/// Whether no cluster is entered in two ways.
pub open spec fn entered_once(t: TreeView, root: FolderView) -> bool {
    forall|a: FolderView, b: FolderView|
        #![trigger reachable(t, root, a), reachable(t, root, b)]
        reachable(t, root, a) && reachable(t, root, b) && a.first == b.first ==> a == b
}

proof fn way_down_is_reachable(t: TreeView, root: FolderView, es: Seq<EntryView>)
    requires
        follows_folders(t),
        leads_down(t, root, es),
    ensures
        reached(t, root, way_down(t, root, es), es.len()),
        es.len() > 0 ==> way_down(t, root, es).first == es.last().first,
        root.prefix == ""@ ==> way_down(t, root, es).prefix == names_of_way(es),
        way_down(t, root, es).deleted <==> root.deleted || exists|i: int| 0 <= i < es.len() && (#[trigger] es[i]).deleted,
    decreases es.len(),
{
    reveal_strlit("");
    reveal_strlit("/");
    if es.len() == 0 {
        assert(names_of_way(es) =~= ""@);
    } else {
        let init = es.drop_last();
        let e = es.last();
        way_down_is_reachable(t, root, init);
        let p = way_down(t, root, init);
        assert(subfolder(t, p, e) is Some);
        assert(subfolder(t, p, e) == Some(way_down(t, root, es)));
        assert("/"@ =~= seq!['/']);
        assert(es[es.len() - 1] == e);
        assert forall|i: int| 0 <= i < init.len() implies #[trigger] init[i] == es[i] by {}
        if exists|i: int| 0 <= i < es.len() && (#[trigger] es[i]).deleted {
            let i = choose|i: int| 0 <= i < es.len() && (#[trigger] es[i]).deleted;
            if i < init.len() {
                assert(init[i].deleted);
            }
        }
        if exists|i: int| 0 <= i < init.len() && (#[trigger] init[i]).deleted {
            let i = choose|i: int| 0 <= i < init.len() && (#[trigger] init[i]).deleted;
            assert(es[i].deleted);
        }
    }
}

/// Every folder is read: the root, and with it each folder that is reached through folder
/// entries, live or deleted, however deep.
pub proof fn folders_below_are_read(t: TreeView, root: FolderView, es: Seq<EntryView>)
    requires
        follows_folders(t),
        t.heap.valid(root.first as int),
        entered_once(t, root),
        leads_down(t, root, es),
    ensures
        folders_read(t, seq![root], Set::empty()).contains(way_down(t, root, es)),
    decreases es.len(),
{
    let folders = folders_read(t, seq![root], Set::empty());
    let d = way_down(t, root, es);
    assert(reached(t, root, root, 0));
    folders_are_read_throughout(t, seq![root], Set::empty());
    folders_read_are_reachable(t, root, seq![root], Set::empty());
    way_down_is_reachable(t, root, es);
    if es.len() == 0 {
        assert(seq![root][0] == root);
        assert(is_read(folders, root.first));
    } else {
        let init = es.drop_last();
        let e = es.last();
        let p = way_down(t, root, init);
        folders_below_are_read(t, root, init);
        let i = choose|i: int| 0 <= i < folders.len() && folders[i] == p;
        assert(folders[i] == p);
        let es_p = entries_of(t, p);
        let subs = folders_in(t, p, es_p);
        assert(all_read(t, folders, Set::empty(), subs));
        let j = choose|j: int| 0 <= j < es_p.len() && es_p[j] == e;
        folder_is_among(t, p, es_p, j);
        let k = choose|k: int| 0 <= k < subs.len() && subs[k] == d;
        assert(subs[k].first == e.first);
        assert(is_read(folders, d.first));
    }
    let i = choose|i: int| 0 <= i < folders.len() && (#[trigger] folders[i]).first == d.first;
    assert(reachable(t, root, folders[i]));
    assert(reachable(t, root, d));
}

proof fn folder_is_among(t: TreeView, d: FolderView, es: Seq<EntryView>, j: int)
    requires
        0 <= j < es.len(),
    ensures
        subfolder(t, d, es[j]) matches Some(f) ==> folders_in(t, d, es).contains(f),
    decreases es.len(),
{
    let init = es.drop_last();
    let all = folders_in(t, d, es);
    if let Some(f) = subfolder(t, d, es[j]) {
        if j < init.len() {
            assert(init[j] == es[j]);
            folder_is_among(t, d, init, j);
            let before = folders_in(t, d, init);
            let i = choose|i: int| 0 <= i < before.len() && before[i] == f;
            assert(all[i] == f);
        } else {
            assert(all[all.len() - 1] == f);
        }
    }
}

/// Whatever stands for a deleted file in a folder that is reached through folder entries, live
/// or deleted, however deep, is listed.
pub proof fn files_below_are_listed(t: TreeView, root: FolderView, es: Seq<EntryView>, e: EntryView)
    requires
        follows_folders(t),
        t.heap.valid(root.first as int),
        entered_once(t, root),
        leads_down(t, root, es),
        entries_of(t, way_down(t, root, es)).contains(e),
    ensures
        deleted_file(t, way_down(t, root, es), e) matches Some(f) ==> files_below(t, root).contains(f),
        root.prefix == ""@ ==> way_down(t, root, es).prefix == names_of_way(es),
        way_down(t, root, es).deleted <==> root.deleted || exists|i: int| 0 <= i < es.len() && (#[trigger] es[i]).deleted,
{
    folders_below_are_read(t, root, es);
    deleted_files_are_listed(t, root, way_down(t, root, es), e);
    way_down_is_reachable(t, root, es);
}

/// The files of a folder are listed in the order of its entries, and so are its folders: those of
/// the entries `a` and then those of the entries `b`. One entry gives the file or the folder that
/// it stands for, if any.
pub proof fn entries_are_listed_in_order(t: TreeView, d: FolderView, a: Seq<EntryView>, b: Seq<EntryView>, e: EntryView)
    ensures
        files_in(t, d, a + b) == files_in(t, d, a) + files_in(t, d, b),
        folders_in(t, d, a + b) == folders_in(t, d, a) + folders_in(t, d, b),
        (t.file)(d, e) matches Some(f) ==> files_in(t, d, seq![e]) == seq![f],
        (t.file)(d, e) is None ==> files_in(t, d, seq![e]).len() == 0,
        (t.folder)(d, e) matches Some(f) ==> folders_in(t, d, seq![e]) == seq![f],
        (t.folder)(d, e) is None ==> folders_in(t, d, seq![e]).len() == 0,
    decreases b.len(),
{
    reveal_with_fuel(files_in, 2);
    reveal_with_fuel(folders_in, 2);
    assert(seq![e].drop_last() =~= seq![]);
    if let Some(f) = (t.file)(d, e) {
        assert(files_in(t, d, seq![e]) =~= seq![f]);
    }
    if let Some(f) = (t.folder)(d, e) {
        assert(folders_in(t, d, seq![e]) =~= seq![f]);
    }
    if b.len() == 0 {
        assert(a + b =~= a);
    } else {
        assert((a + b).drop_last() =~= a + b.drop_last());
        entries_are_listed_in_order(t, d, a, b.drop_last(), e);
    }
    assert(files_in(t, d, a + b) =~= files_in(t, d, a) + files_in(t, d, b));
    assert(folders_in(t, d, a + b) =~= folders_in(t, d, a) + folders_in(t, d, b));
}

/// The files of the root directory come first.
pub proof fn files_of_the_root_come_first(t: TreeView, root: FolderView)
    requires
        t.heap.valid(root.first as int),
    ensures
        ({
            let first = files_in(t, root, entries_of(t, root));
            first.len() <= files_below(t, root).len() && files_below(t, root).take(first.len() as int) == first
        }),
{
    let stack = seq![root];
    let none = Set::<u32>::empty();
    let first = files_in(t, root, entries_of(t, root));
    let later = files_found(t, stack.drop_last() + folders_in(t, root, entries_of(t, root)), none.insert(root.first));
    assert(stack.last() == root);
    assert(!none.contains(root.first));
    assert(files_below(t, root) == first + later);
    assert((first + later).take(first.len() as int) =~= first);
}

} // verus!
