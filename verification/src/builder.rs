//! Building the snapshot from the enumerated filesystem entries.
//!
//! The walk itself (and every metadata read) happens outside the core;
//! the core folds the resulting per-entry facts into the mapping.  First
//! every directory is registered under its normalized path, then every
//! file is appended to its parent's record and every directory linked
//! into its parent's child list; a missing parent is a fatal invariant
//! violation, never silently dropped.

use vstd::prelude::*;

use crate::classify::spec_file_type;
use crate::error::Error;
use crate::record::Dir;
use crate::record::DirView;
use crate::record::File;
use crate::record::FileView;
use crate::record::spec_files_size;
use crate::record::lemma_files_size_nonneg;
use crate::snapshot::Snapshot;
use crate::snapshot::snap_map;
use crate::snapshot::snap_wf;
use crate::snapshot::lemma_snap_map;

verus! {

/// One enumerated filesystem entry, as the walk hands it to the core:
/// a directory with its normalized path and (optionally) its parent's
/// normalized path, or a file with its parent's path, base name and size.
/// A file whose size could not be read carries `None` for the size.
pub enum Entry {
    Dir { path: String, parent: Option<String> },
    File { parent: Option<String>, name: String, size: Option<u64> },
}

/// Mathematical image of an [`Entry`].
pub enum EntryView {
    Dir { path: Seq<char>, parent: Option<Seq<char>> },
    File { parent: Option<Seq<char>>, name: Seq<char>, size: Option<u64> },
}

impl View for Entry {
    type V = EntryView;

    open spec fn view(&self) -> EntryView {
        match self {
            Entry::Dir { path, parent } => EntryView::Dir {
                path: path@,
                parent: match parent {
                    Some(p) => Some(p@),
                    None => None,
                },
            },
            Entry::File { parent, name, size } => EntryView::File {
                parent: match parent {
                    Some(p) => Some(p@),
                    None => None,
                },
                name: name@,
                size: *size,
            },
        }
    }
}

/// View of a whole entry list.
pub open spec fn entries_view(es: Seq<Entry>) -> Seq<EntryView> {
    es.map_values(|e: Entry| e@)
}

/// Whether some entry registers `p` as a directory path.
pub open spec fn spec_dir_listed(es: Seq<EntryView>, p: Seq<char>) -> bool {
    exists|i: int|
        0 <= i < es.len() && ((#[trigger] es[i]) matches EntryView::Dir { path, .. } && path == p)
}

/// Whether an entry is a file that belongs to directory `p`.
pub open spec fn spec_file_in(e: EntryView, p: Seq<char>) -> bool {
    e is File && e->File_parent == Some(p)
}

/// Whether an entry is a directory whose child-link lands in `p` (the
/// root's empty parent produces no link).
pub open spec fn spec_child_in(e: EntryView, p: Seq<char>) -> bool {
    e is Dir && e->Dir_parent == Some(p) && p.len() > 0
}

/// The file record an entry denotes.
pub open spec fn spec_entry_file(e: EntryView) -> FileView {
    FileView {
        typ: spec_file_type(e->File_name),
        name: e->File_name,
        size: e->File_size->Some_0,
    }
}

/// The files of directory `p`, in entry order.
pub open spec fn spec_files_of(es: Seq<EntryView>, p: Seq<char>) -> Seq<FileView> {
    es.filter(|e: EntryView| spec_file_in(e, p)).map_values(|e: EntryView| spec_entry_file(e))
}

/// The child paths of directory `p`, in entry order.
pub open spec fn spec_children_of(es: Seq<EntryView>, p: Seq<char>) -> Seq<Seq<char>> {
    es.filter(|e: EntryView| spec_child_in(e, p)).map_values(|e: EntryView| e->Dir_path)
}

/// The own size of directory `p`: the sum of its immediate files' sizes.
pub open spec fn spec_own_size(es: Seq<EntryView>, p: Seq<char>) -> int {
    spec_files_size(spec_files_of(es, p))
}

/// Whether one entry respects the build invariants: a file (that has a
/// parent at all) has a readable size and a registered parent, and a
/// directory's non-empty parent is registered.
pub open spec fn spec_entry_ok(es: Seq<EntryView>, e: EntryView) -> bool {
    match e {
        EntryView::Dir { path, parent } => match parent {
            Some(pp) => pp.len() > 0 ==> spec_dir_listed(es, pp),
            None => true,
        },
        EntryView::File { parent, name, size } => match parent {
            Some(pp) => size is Some && spec_dir_listed(es, pp),
            None => true,
        },
    }
}

/// Whether the whole entry list builds cleanly: every entry is sound and
/// every directory's own size fits in 64 bits.
pub open spec fn spec_entries_ok(es: Seq<EntryView>) -> bool {
    &&& forall|i: int| 0 <= i < es.len() ==> spec_entry_ok(es, #[trigger] es[i])
    &&& forall|p: Seq<char>| spec_dir_listed(es, p) ==> #[trigger] spec_own_size(es, p)
        <= u64::MAX
}

/// The mapping a clean entry list builds: one record per registered
/// directory path, holding its files, its child links, and its own size.
pub open spec fn spec_build(es: Seq<EntryView>) -> Map<Seq<char>, DirView> {
    Map::new(
        |p: Seq<char>| spec_dir_listed(es, p),
        |p: Seq<char>|
            DirView {
                size: spec_own_size(es, p) as u64,
                files: spec_files_of(es, p),
                children: spec_children_of(es, p),
            },
    )
}

/// Filtered views of a one-longer prefix: the step either appends the new
/// entry's contribution to directory `p` or leaves it unchanged.
proof fn lemma_prefix_step(es: Seq<EntryView>, k: int, p: Seq<char>)
    requires
        0 <= k < es.len(),
    ensures
        spec_files_of(es.take(k + 1), p) == if spec_file_in(es[k], p) {
            spec_files_of(es.take(k), p).push(spec_entry_file(es[k]))
        } else {
            spec_files_of(es.take(k), p)
        },
        spec_children_of(es.take(k + 1), p) == if spec_child_in(es[k], p) {
            spec_children_of(es.take(k), p).push(es[k]->Dir_path)
        } else {
            spec_children_of(es.take(k), p)
        },
        spec_own_size(es.take(k + 1), p) == if spec_file_in(es[k], p) {
            spec_own_size(es.take(k), p) + es[k]->File_size->Some_0
        } else {
            spec_own_size(es.take(k), p)
        },
        spec_dir_listed(es.take(k + 1), p) <==> spec_dir_listed(es.take(k), p) || (es[k] matches
            EntryView::Dir { path, .. } && path == p),
{
    let fpred = |e: EntryView| spec_file_in(e, p);
    let cpred = |e: EntryView| spec_child_in(e, p);
    assert(es.take(k + 1).drop_last() =~= es.take(k));
    assert(es.take(k + 1).last() == es[k]);
    reveal_with_fuel(Seq::filter, 2);
    assert(es.take(k + 1).filter(fpred) == if fpred(es[k]) {
        es.take(k).filter(fpred).push(es[k])
    } else {
        es.take(k).filter(fpred)
    });
    assert(es.take(k + 1).filter(cpred) == if cpred(es[k]) {
        es.take(k).filter(cpred).push(es[k])
    } else {
        es.take(k).filter(cpred)
    });
    if fpred(es[k]) {
        assert(spec_files_of(es.take(k + 1), p) =~= spec_files_of(es.take(k), p).push(
            spec_entry_file(es[k]),
        ));
        let fs = spec_files_of(es.take(k + 1), p);
        assert(fs.drop_last() =~= spec_files_of(es.take(k), p));
        assert(fs.last() == spec_entry_file(es[k]));
    } else {
        assert(spec_files_of(es.take(k + 1), p) =~= spec_files_of(es.take(k), p));
    }
    if cpred(es[k]) {
        assert(spec_children_of(es.take(k + 1), p) =~= spec_children_of(es.take(k), p).push(
            es[k]->Dir_path,
        ));
    } else {
        assert(spec_children_of(es.take(k + 1), p) =~= spec_children_of(es.take(k), p));
    }
    if spec_dir_listed(es.take(k), p) {
        let i = choose|i: int|
            0 <= i < k && ((#[trigger] es.take(k)[i]) matches EntryView::Dir { path, .. } && path == p);
        assert(es.take(k + 1)[i] == es.take(k)[i]);
        assert(spec_dir_listed(es.take(k + 1), p));
    }
    if es[k] matches EntryView::Dir { path, .. } && path == p {
        assert(es.take(k + 1)[k] == es[k]);
        assert(spec_dir_listed(es.take(k + 1), p));
    }
    if spec_dir_listed(es.take(k + 1), p) {
        let i = choose|i: int|
            0 <= i <= k && ((#[trigger] es.take(k + 1)[i]) matches EntryView::Dir { path, .. } && path == p);
        if i < k {
            assert(es.take(k)[i] == es.take(k + 1)[i]);
            assert(spec_dir_listed(es.take(k), p));
        }
    }
}

/// A directory's own size never shrinks as the prefix grows.
proof fn lemma_own_size_mono(es: Seq<EntryView>, k: int, p: Seq<char>)
    requires
        0 <= k <= es.len(),
    ensures
        spec_own_size(es.take(k), p) <= spec_own_size(es, p),
    decreases es.len() - k,
{
    if k == es.len() {
        assert(es.take(k) =~= es);
    } else {
        lemma_prefix_step(es, k, p);
        if spec_file_in(es[k], p) {
            let fs = spec_files_of(es.take(k + 1), p);
            assert(fs.drop_last() =~= spec_files_of(es.take(k), p));
        }
        lemma_own_size_mono(es, k + 1, p);
    }
}

/// What the record of directory `p` must hold after the first `k`
/// entries are folded in.
pub open spec fn spec_partial_record(es: Seq<EntryView>, k: int, p: Seq<char>) -> DirView {
    DirView {
        size: spec_own_size(es.take(k), p) as u64,
        files: spec_files_of(es.take(k), p),
        children: spec_children_of(es.take(k), p),
    }
}

/// Builds the mapping from normalized directory path to directory record
/// out of the enumerated entries: every directory is registered first,
/// then files and child links are folded into their parents' records.
/// Succeeds exactly when every entry is sound and every directory's own
/// size fits; the record of each directory then holds its immediate
/// files in entry order, its child links in entry order, and the sum of
/// its immediate files' sizes.
pub fn build_tree(entries: &Vec<Entry>) -> (r: Result<Snapshot, Error>)
    ensures
        r is Ok <==> spec_entries_ok(entries_view(entries@)),
        r matches Ok(snap) ==> snap_wf(snap@) && snap_map(snap@) == spec_build(
            entries_view(entries@),
        ),
        r matches Err(e) ==> match e {
            Error::Metadata(n) => exists|i: int|
                0 <= i < entries@.len() && (#[trigger] entries_view(entries@)[i] matches
                    EntryView::File { parent, name, size } && parent is Some && size is None
                    && name == n@),
            Error::MissingParent(p) => !spec_dir_listed(entries_view(entries@), p@) && exists|
                i: int,
            |
                0 <= i < entries@.len() && (spec_file_in(#[trigger] entries_view(entries@)[i], p@)
                    || spec_child_in(entries_view(entries@)[i], p@)),
            Error::SizeOverflow => exists|p: Seq<char>|
                spec_dir_listed(entries_view(entries@), p) && #[trigger] spec_own_size(
                    entries_view(entries@),
                    p,
                ) > u64::MAX,
            _ => false,
        },
{
    let ghost es = entries_view(entries@);
    let mut snap = Snapshot::new();
    let mut i: usize = 0;
    // Phase A: register every directory once, under its normalized path.
    while i < entries.len()
        invariant
            i <= entries.len(),
            es == entries_view(entries@),
            snap_wf(snap@),
            forall|k: Seq<char>|
                #[trigger] snap_map(snap@).contains_key(k) <==> spec_dir_listed(
                    es.take(i as int),
                    k,
                ),
            forall|j: int|
                0 <= j < snap@.len() ==> #[trigger] snap@[j].1 == (DirView {
                    size: 0u64,
                    files: Seq::<FileView>::empty(),
                    children: Seq::<Seq<char>>::empty(),
                }),
        decreases entries.len() - i,
    {
        proof {
            lemma_snap_map(snap@);
        }
        match &entries[i] {
            Entry::Dir { path, parent: _unused } => {
                assert(es[i as int] matches EntryView::Dir { path: pv, .. } && pv == path@);
                match snap.find_idx(path) {
                    Some(found) => {
                        proof {
                            assert(snap@[found as int].0 == path@);
                            assert(exists|j: int| 0 <= j < snap@.len() && snap@[j].0 == path@);
                            assert(snap_map(snap@).contains_key(path@));
                            assert forall|k: Seq<char>| #[trigger]
                                snap_map(snap@).contains_key(k) <==> spec_dir_listed(
                                es.take(i + 1),
                                k,
                            ) by {
                                lemma_prefix_step(es, i as int, k);
                                if snap_map(snap@).contains_key(k) {
                                    assert(spec_dir_listed(es.take(i as int), k));
                                }
                                if spec_dir_listed(es.take(i + 1), k) && !spec_dir_listed(
                                    es.take(i as int),
                                    k,
                                ) {
                                    assert(es[i as int] matches EntryView::Dir { path: pv, .. }
                                        && pv == k);
                                    assert(k == path@);
                                }
                            }
                        }
                    },
                    None => {
                        let d = Dir::default();
                        let ghost oldsnap = snap@;
                        snap.insert_new(path.clone(), d);
                        proof {
                            assert(snap@.drop_last() =~= oldsnap);
                            lemma_snap_map(oldsnap);
                            assert(snap@.last().0 == path@);
                            assert(snap_map(snap@) == snap_map(oldsnap).insert(
                                path@,
                                snap@.last().1,
                            ));
                            assert forall|k: Seq<char>| #[trigger]
                                snap_map(snap@).contains_key(k) <==> spec_dir_listed(
                                es.take(i + 1),
                                k,
                            ) by {
                                lemma_prefix_step(es, i as int, k);
                                if k == path@ {
                                    assert(snap_map(snap@).contains_key(k));
                                    assert(spec_dir_listed(es.take(i + 1), k));
                                } else {
                                    assert(snap_map(snap@).contains_key(k) <==> snap_map(
                                        oldsnap,
                                    ).contains_key(k));
                                    if spec_dir_listed(es.take(i + 1), k) && !spec_dir_listed(
                                        es.take(i as int),
                                        k,
                                    ) {
                                        assert(es[i as int] matches EntryView::Dir {
                                            path: pv,
                                            ..
                                        } && pv == k);
                                        assert(k == path@);
                                    }
                                }
                            }
                        }
                    },
                }
            },
            Entry::File { .. } => {
                proof {
                    assert forall|k: Seq<char>| #[trigger]
                        snap_map(snap@).contains_key(k) <==> spec_dir_listed(
                        es.take(i + 1),
                        k,
                    ) by {
                        lemma_prefix_step(es, i as int, k);
                    }
                }
            },
        }
        i = i + 1;
    }
    proof {
        assert(es.take(entries@.len() as int) =~= es);
    }
    // Phase B: fold every file and every child link into its parent.
    let mut i: usize = 0;
    proof {
        assert forall|j: int| 0 <= j < snap@.len() implies #[trigger] snap@[j].1
            == spec_partial_record(es, 0, snap@[j].0) by {
            assert(es.take(0) =~= Seq::<EntryView>::empty());
            assert(spec_files_of(es.take(0), snap@[j].0) =~= Seq::<FileView>::empty());
            assert(spec_children_of(es.take(0), snap@[j].0) =~= Seq::<Seq<char>>::empty());
        }
    }
    while i < entries.len()
        invariant
            i <= entries.len(),
            es == entries_view(entries@),
            snap_wf(snap@),
            forall|k: Seq<char>|
                #[trigger] snap_map(snap@).contains_key(k) <==> spec_dir_listed(es, k),
            forall|j: int|
                0 <= j < snap@.len() ==> #[trigger] snap@[j].1 == spec_partial_record(
                    es,
                    i as int,
                    snap@[j].0,
                ),
            forall|j: int|
                0 <= j < snap@.len() ==> spec_own_size(es.take(i as int), #[trigger] snap@[j].0)
                    <= u64::MAX,
            forall|t: int| 0 <= t < i ==> spec_entry_ok(es, #[trigger] es[t]),
        decreases entries.len() - i,
    {
        proof {
            lemma_snap_map(snap@);
        }
        let ghost presnap = snap@;
        match &entries[i] {
            Entry::File { parent, name, size } => {
                assert(es[i as int] matches EntryView::File { .. });
                match parent {
                    Some(pstr) => {
                        let sz = match size {
                            Some(sz) => *sz,
                            None => {
                                assert(es[i as int]->File_size is None);
                                return Err(Error::Metadata(name.clone()));
                            },
                        };
                        match snap.find_idx(pstr) {
                            Some(idx) => {
                                let (key, mut d) = snap.take_at(idx);
                                assert(key@ == pstr@);
                                assert(presnap[idx as int].1 == spec_partial_record(
                                    es,
                                    i as int,
                                    pstr@,
                                ));
                                proof {
                                    lemma_own_size_mono(es, i as int, pstr@);
                                    lemma_files_size_nonneg(spec_files_of(es.take(i as int), pstr@));
                                }
                                if sz > u64::MAX - d.size {
                                    proof {
                                        lemma_prefix_step(es, i as int, pstr@);
                                        lemma_own_size_mono(es, i + 1, pstr@);
                                        assert(spec_own_size(es, pstr@) > u64::MAX);
                                        assert(presnap[idx as int].0 == pstr@);
                                        assert(exists|j: int|
                                            0 <= j < presnap.len() && presnap[j].0 == pstr@);
                                        assert(snap_map(presnap).contains_key(pstr@));
                                        assert(spec_dir_listed(es, pstr@));
                                        assert(!spec_entries_ok(es));
                                    }
                                    return Err(Error::SizeOverflow);
                                }
                                let f = File::new(name.clone(), sz);
                                d.add_file(f);
                                snap.restore_at(idx, key, d);
                                proof {
                                    assert(snap@ =~= presnap.update(
                                        idx as int,
                                        (pstr@, snap@[idx as int].1),
                                    ));
                                    assert forall|j: int| 0 <= j < snap@.len() implies #[trigger]
                                        snap@[j].1 == spec_partial_record(
                                        es,
                                        i + 1,
                                        snap@[j].0,
                                    ) by {
                                        lemma_prefix_step(es, i as int, snap@[j].0);
                                        if j != idx {
                                            assert(snap@[j] == presnap[j]);
                                            assert(snap_wf(presnap));
                                            assert(presnap[j].0 != pstr@);
                                            assert(!spec_file_in(es[i as int], snap@[j].0));
                                        }
                                    }
                                    assert forall|j: int| 0 <= j < snap@.len() implies
                                        spec_own_size(es.take(i + 1), #[trigger] snap@[j].0)
                                        <= u64::MAX by {
                                        lemma_prefix_step(es, i as int, snap@[j].0);
                                        lemma_files_size_nonneg(
                                            spec_files_of(es.take(i as int), snap@[j].0),
                                        );
                                    }
                                    assert(spec_entry_ok(es, es[i as int])) by {
                                        assert(presnap[idx as int].0 == pstr@);
                                        assert(exists|j: int|
                                            0 <= j < presnap.len() && presnap[j].0 == pstr@);
                                        assert(snap_map(presnap).contains_key(pstr@));
                                        assert(spec_dir_listed(es, pstr@));
                                    }
                                }
                            },
                            None => {
                                proof {
                                    assert(!snap_map(presnap).contains_key(pstr@));
                                    assert(!spec_dir_listed(es, pstr@));
                                    assert(spec_file_in(es[i as int], pstr@));
                                    assert(!spec_entry_ok(es, es[i as int]));
                                }
                                return Err(Error::MissingParent(pstr.clone()));
                            },
                        }
                    },
                    None => {
                        proof {
                            assert forall|j: int| 0 <= j < snap@.len() implies #[trigger]
                                snap@[j].1 == spec_partial_record(es, i + 1, snap@[j].0) by {
                                lemma_prefix_step(es, i as int, snap@[j].0);
                            }
                            assert forall|j: int| 0 <= j < snap@.len() implies spec_own_size(
                                es.take(i + 1),
                                #[trigger] snap@[j].0,
                            ) <= u64::MAX by {
                                lemma_prefix_step(es, i as int, snap@[j].0);
                            }
                        }
                    },
                }
            },
            Entry::Dir { path, parent } => {
                assert(es[i as int] matches EntryView::Dir { .. });
                let linked: Option<&String> = match parent {
                    Some(pstr) => {
                        if pstr.as_str().is_empty() {
                            None
                        } else {
                            Some(pstr)
                        }
                    },
                    None => None,
                };
                match linked {
                    Some(pstr) => {
                        assert(spec_child_in(es[i as int], pstr@));
                        match snap.find_idx(pstr) {
                            Some(idx) => {
                                let (key, mut d) = snap.take_at(idx);
                                assert(key@ == pstr@);
                                assert(presnap[idx as int].1 == spec_partial_record(
                                    es,
                                    i as int,
                                    pstr@,
                                ));
                                d.add_child(path.clone());
                                snap.restore_at(idx, key, d);
                                proof {
                                    assert(snap@ =~= presnap.update(
                                        idx as int,
                                        (pstr@, snap@[idx as int].1),
                                    ));
                                    assert forall|j: int| 0 <= j < snap@.len() implies #[trigger]
                                        snap@[j].1 == spec_partial_record(
                                        es,
                                        i + 1,
                                        snap@[j].0,
                                    ) by {
                                        lemma_prefix_step(es, i as int, snap@[j].0);
                                        if j != idx {
                                            assert(snap@[j] == presnap[j]);
                                            assert(snap_wf(presnap));
                                            assert(presnap[j].0 != pstr@);
                                            assert(!spec_child_in(es[i as int], snap@[j].0));
                                        }
                                    }
                                    assert forall|j: int| 0 <= j < snap@.len() implies
                                        spec_own_size(es.take(i + 1), #[trigger] snap@[j].0)
                                        <= u64::MAX by {
                                        lemma_prefix_step(es, i as int, snap@[j].0);
                                    }
                                    assert(spec_entry_ok(es, es[i as int])) by {
                                        assert(presnap[idx as int].0 == pstr@);
                                        assert(exists|j: int|
                                            0 <= j < presnap.len() && presnap[j].0 == pstr@);
                                        assert(snap_map(presnap).contains_key(pstr@));
                                        assert(spec_dir_listed(es, pstr@));
                                    }
                                }
                            },
                            None => {
                                proof {
                                    assert(!snap_map(presnap).contains_key(pstr@));
                                    assert(!spec_dir_listed(es, pstr@));
                                    assert(!spec_entry_ok(es, es[i as int]));
                                }
                                return Err(Error::MissingParent(pstr.clone()));
                            },
                        }
                    },
                    None => {
                        proof {
                            assert(!(es[i as int] matches EntryView::Dir { parent, .. }
                                && parent matches Some(pp) && pp.len() > 0));
                            assert forall|j: int| 0 <= j < snap@.len() implies #[trigger]
                                snap@[j].1 == spec_partial_record(es, i + 1, snap@[j].0) by {
                                lemma_prefix_step(es, i as int, snap@[j].0);
                            }
                            assert forall|j: int| 0 <= j < snap@.len() implies spec_own_size(
                                es.take(i + 1),
                                #[trigger] snap@[j].0,
                            ) <= u64::MAX by {
                                lemma_prefix_step(es, i as int, snap@[j].0);
                            }
                        }
                    },
                }
            },
        }
        proof {
            lemma_snap_map(snap@);
            assert(snap@.len() == presnap.len());
            assert(forall|j: int| 0 <= j < snap@.len() ==> #[trigger] snap@[j].0 == presnap[j].0);
            assert forall|k: Seq<char>| #[trigger] snap_map(snap@).contains_key(k)
                <==> spec_dir_listed(es, k) by {
                if snap_map(snap@).contains_key(k) {
                    let j = choose|j: int| 0 <= j < snap@.len() && snap@[j].0 == k;
                    assert(presnap[j].0 == k);
                    assert(exists|t: int| 0 <= t < presnap.len() && presnap[t].0 == k);
                    assert(snap_map(presnap).contains_key(k));
                }
                if spec_dir_listed(es, k) {
                    assert(snap_map(presnap).contains_key(k));
                    let j = choose|j: int| 0 <= j < presnap.len() && presnap[j].0 == k;
                    assert(snap@[j].0 == k);
                    assert(exists|t: int| 0 <= t < snap@.len() && snap@[t].0 == k);
                }
            }
        }
        i = i + 1;
    }
    proof {
        assert(es.take(entries@.len() as int) =~= es);
        lemma_snap_map(snap@);
        assert forall|p: Seq<char>| spec_dir_listed(es, p) implies #[trigger] spec_own_size(es, p)
            <= u64::MAX by {
            assert(snap_map(snap@).contains_key(p));
            let j = choose|j: int| 0 <= j < snap@.len() && snap@[j].0 == p;
        }
        assert(spec_entries_ok(es));
        assert forall|p: Seq<char>| #[trigger]
            spec_build(es).contains_key(p) implies snap_map(snap@).contains_key(p) && snap_map(
            snap@,
        )[p] == spec_build(es)[p] by {
            assert(spec_dir_listed(es, p));
            assert(snap_map(snap@).contains_key(p));
            assert(exists|j: int| 0 <= j < snap@.len() && snap@[j].0 == p);
            let j = choose|j: int| 0 <= j < snap@.len() && snap@[j].0 == p;
            assert(snap_map(snap@).contains_key(snap@[j].0));
            assert(snap_map(snap@)[p] == snap@[j].1);
            assert(snap@[j].1 == spec_partial_record(es, entries@.len() as int, p));
        }
        assert(snap_map(snap@) =~= spec_build(es));
    }
    Ok(snap)
}


/// The walk's phases may meet the entries in any order: two entry lists
/// holding the same entries register exactly the same directory paths,
/// so the built mappings have the same keys.  (For one and the same
/// entry list the whole built mapping is a function of the list alone:
/// see the ensures of [`build_tree`].)
pub proof fn lemma_build_keys_order_free(es1: Seq<EntryView>, es2: Seq<EntryView>)
    requires
        es1.to_multiset() == es2.to_multiset(),
    ensures
        forall|p: Seq<char>| spec_dir_listed(es1, p) <==> #[trigger] spec_dir_listed(es2, p),
{
    es1.to_multiset_ensures();
    es2.to_multiset_ensures();
    assert forall|p: Seq<char>|
        spec_dir_listed(es1, p) <==> #[trigger] spec_dir_listed(es2, p) by {
        if spec_dir_listed(es1, p) {
            let i = choose|i: int|
                0 <= i < es1.len() && ((#[trigger] es1[i]) matches EntryView::Dir { path, .. }
                    && path == p);
            assert(es1.contains(es1[i]));
            assert(es1.to_multiset().contains(es1[i]));
            assert(es2.to_multiset().contains(es1[i]));
            assert(es2.contains(es1[i]));
            let j = choose|j: int| 0 <= j < es2.len() && es2[j] == es1[i];
            assert(spec_dir_listed(es2, p));
        }
        if spec_dir_listed(es2, p) {
            let i = choose|i: int|
                0 <= i < es2.len() && ((#[trigger] es2[i]) matches EntryView::Dir { path, .. }
                    && path == p);
            assert(es2.contains(es2[i]));
            assert(es2.to_multiset().contains(es2[i]));
            assert(es1.to_multiset().contains(es2[i]));
            assert(es1.contains(es2[i]));
            let j = choose|j: int| 0 <= j < es1.len() && es1[j] == es2[i];
            assert(spec_dir_listed(es1, p));
        }
    }
}

} // verus!
