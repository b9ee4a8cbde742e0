//! The two entry points of the system: building, aggregating and
//! packing a snapshot into bytes, and fully reconstructing a snapshot
//! out of such bytes.

use vstd::prelude::*;

use crate::aggregate::calc_size;
use crate::aggregate::sizes_view;
use crate::aggregate::spec_sizes_ok;
use crate::aggregate::sz_map;
use crate::builder::Entry;
use crate::builder::EntryView;
use crate::builder::build_tree;
use crate::builder::entries_view;
use crate::builder::spec_build;
use crate::builder::spec_dir_listed;
use crate::builder::spec_entries_ok;
use crate::builder::spec_file_in;
use crate::builder::spec_child_in;
use crate::codec::decode;
use crate::codec::encode;
use crate::codec::spec_encode;
use crate::compress::compress;
use crate::compress::decompress;
use crate::compress::zstd_inflate;
use crate::error::Error;
use crate::record::DirView;
use crate::snapshot::Snapshot;
use crate::snapshot::lemma_snap_map;
use crate::snapshot::snap_map;
use crate::snapshot::snap_wf;

verus! {

/// How a snapshot relates to the mapping the walk built: same keys,
/// same files and children everywhere, and every size overwritten with
/// its aggregated total where the aggregation listed one.
pub open spec fn spec_sized_output(
    built: Map<Seq<char>, DirView>,
    szs: Map<Seq<char>, u64>,
    out: Map<Seq<char>, DirView>,
) -> bool {
    &&& forall|p: Seq<char>| out.contains_key(p) <==> #[trigger] built.contains_key(p)
    &&& forall|p: Seq<char>|
        #[trigger] out.contains_key(p) ==> out[p].files == built[p].files && out[p].children
            == built[p].children && out[p].size == if szs.contains_key(p) {
            szs[p]
        } else {
            built[p].size
        }
}

/// What a successful `map` hands back: a compressed frame holding the
/// deterministic encoding of a well-formed snapshot whose records are
/// the built mapping's, with every aggregated size written in.
pub open spec fn spec_map_output(es: Seq<EntryView>, start: Seq<char>, bytes: Seq<u8>) -> bool {
    exists|s: Seq<(Seq<char>, DirView)>, lst: Seq<(Seq<char>, u64)>|
        #![trigger spec_encode(s), sz_map(lst)]
        {
            &&& snap_wf(s)
            &&& zstd_inflate(bytes) == Some(spec_encode(s))
            &&& spec_sizes_ok(spec_build(es), lst, start)
            &&& spec_sized_output(spec_build(es), sz_map(lst), snap_map(s))
        }
}

/// Builds the directory mapping out of the enumerated entries, rewrites
/// every reachable directory's size to its recursive total, serializes
/// the result and compresses it.  The first error of any stage aborts
/// the whole operation.
pub fn map(entries: &Vec<Entry>, start_path: &str) -> (r: Result<Vec<u8>, Error>)
    ensures
        r matches Ok(bytes) ==> spec_entries_ok(entries_view(entries@)) && spec_map_output(
            entries_view(entries@),
            start_path@,
            bytes@,
        ),
        // on a sound, acyclic, overflow-free input only the compressor
        // itself may still fail
        spec_entries_ok(entries_view(entries@)) && (exists|lst: Seq<(Seq<char>, u64)>|
            spec_sizes_ok(spec_build(entries_view(entries@)), lst, start_path@)) ==> (r is Ok || r
            == Err::<Vec<u8>, Error>(Error::Compress)),
        r matches Err(e) ==> match e {
            Error::Metadata(n) => exists|i: int|
                0 <= i < entries@.len() && (#[trigger] entries_view(entries@)[i] matches
                    EntryView::File { parent, name, size } && parent is Some && size is None
                    && name == n@),
            Error::MissingParent(p) => !spec_dir_listed(entries_view(entries@), p@) && exists|
                i: int,
            |
                0 <= i < entries@.len() && (spec_file_in(#[trigger] entries_view(entries@)[i], p@)
                    || spec_child_in(entries_view(entries@)[i], p@)),
            Error::MissingDir(p) => !spec_dir_listed(entries_view(entries@), p@),
            Error::Cycle(p) => spec_dir_listed(entries_view(entries@), p@),
            Error::SizeOverflow => true,
            Error::Compress => true,
            Error::Corrupt => false,
        },
{
    let ghost es = entries_view(entries@);
    let mut tree = match build_tree(entries) {
        Ok(t) => t,
        Err(e) => {
            return Err(e);
        },
    };
    let ghost builtm = snap_map(tree@);
    let sizes = match calc_size(&tree, start_path) {
        Ok(v) => v,
        Err(e) => {
            proof {
                if exists|lst: Seq<(Seq<char>, u64)>|
                    spec_sizes_ok(spec_build(es), lst, start_path@) {
                    let lst2 = choose|lst: Seq<(Seq<char>, u64)>|
                        spec_sizes_ok(spec_build(es), lst, start_path@);
                    assert(snap_map(tree@) == spec_build(es));
                    assert(spec_sizes_ok(snap_map(tree@), lst2, start_path@));
                    assert(exists|lst: Seq<(Seq<char>, u64)>|
                        spec_sizes_ok(snap_map(tree@), lst, start_path@));
                    assert(false);
                }
                match &e {
                    Error::Cycle(p) => {
                        assert(snap_map(tree@).contains_key(p@));
                        assert(spec_dir_listed(es, p@));
                    },
                    Error::MissingDir(p) => {
                        assert(!spec_dir_listed(es, p@));
                    },
                    _ => {},
                }
            }
            return Err(e);
        },
    };
    let ghost lstv = sizes_view(sizes@);
    let mut j: usize = 0;
    proof {
        assert(lstv.take(0) =~= Seq::<(Seq<char>, u64)>::empty());
        assert forall|p: Seq<char>| #[trigger]
            snap_map(tree@).contains_key(p) implies snap_map(tree@)[p].files == builtm[p].files
            && snap_map(tree@)[p].children == builtm[p].children && snap_map(tree@)[p].size == (
        if sz_map(lstv.take(0)).contains_key(p) {
            sz_map(lstv.take(0))[p]
        } else {
            builtm[p].size
        }) by {
            crate::aggregate::lemma_sz_map(lstv.take(0));
        }
    }
    while j < sizes.len()
        invariant
            j <= sizes@.len(),
            lstv == sizes_view(sizes@),
            snap_wf(tree@),
            spec_sizes_ok(builtm, lstv, start_path@),
            forall|p: Seq<char>|
                snap_map(tree@).contains_key(p) <==> #[trigger] builtm.contains_key(p),
            forall|p: Seq<char>|
                #[trigger] snap_map(tree@).contains_key(p) ==> snap_map(tree@)[p].files == builtm[p].files
                    && snap_map(tree@)[p].children == builtm[p].children && snap_map(tree@)[p].size
                    == (if sz_map(lstv.take(j as int)).contains_key(p) {
                    sz_map(lstv.take(j as int))[p]
                } else {
                    builtm[p].size
                }),
        decreases sizes@.len() - j,
    {
        let ghost pretree = tree@;
        proof {
            lemma_snap_map(tree@);
            crate::aggregate::lemma_sz_map(lstv);
            assert(crate::aggregate::spec_row_ok(builtm, lstv, j as int));
        }
        let idx = match tree.find_idx(&sizes[j].0) {
            Some(i) => i,
            None => {
                proof {
                    reveal(crate::aggregate::spec_row_ok);
                    assert(builtm.contains_key(lstv[j as int].0));
                    assert(snap_map(pretree).contains_key(lstv[j as int].0));
                    assert(exists|t: int|
                        0 <= t < pretree.len() && pretree[t].0 == lstv[j as int].0);
                    assert(false);
                }
                return Err(Error::MissingDir(sizes[j].0.clone()));
            },
        };
        let total = sizes[j].1;
        let (key, mut d) = tree.take_at(idx);
        d.size = total;
        tree.restore_at(idx, key, d);
        proof {
            assert(tree@ =~= pretree.update(idx as int, (pretree[idx as int].0, tree@[idx as int].1)));
            assert(snap_wf(tree@)) by {
                assert forall|a: int, b: int| 0 <= a < b < tree@.len() implies tree@[a].0
                    != tree@[b].0 by {
                    assert(tree@[a].0 == pretree[a].0 && tree@[b].0 == pretree[b].0);
                }
            }
            lemma_snap_map(tree@);
            lemma_snap_map(pretree);
            let ghost kj = lstv[j as int].0;
            assert(lstv.take(j + 1).drop_last() =~= lstv.take(j as int));
            assert(lstv.take(j + 1).last() == lstv[j as int]);
            assert(sz_map(lstv.take(j + 1)) == sz_map(lstv.take(j as int)).insert(
                kj,
                lstv[j as int].1,
            ));
            assert(pretree[idx as int].0 == kj);
            assert forall|p: Seq<char>| #[trigger]
                snap_map(tree@).contains_key(p) <==> snap_map(pretree).contains_key(p) by {
                if snap_map(tree@).contains_key(p) {
                    let t = choose|t: int| 0 <= t < tree@.len() && tree@[t].0 == p;
                    assert(pretree[t].0 == p);
                    assert(exists|t2: int| 0 <= t2 < pretree.len() && pretree[t2].0 == p);
                }
                if snap_map(pretree).contains_key(p) {
                    let t = choose|t: int| 0 <= t < pretree.len() && pretree[t].0 == p;
                    assert(tree@[t].0 == p);
                    assert(exists|t2: int| 0 <= t2 < tree@.len() && tree@[t2].0 == p);
                }
            }
            assert forall|p: Seq<char>| #[trigger]
                snap_map(tree@).contains_key(p) implies snap_map(tree@)[p].files
                == builtm[p].files && snap_map(tree@)[p].children == builtm[p].children && snap_map(
                tree@,
            )[p].size == (if sz_map(lstv.take(j + 1)).contains_key(p) {
                sz_map(lstv.take(j + 1))[p]
            } else {
                builtm[p].size
            }) by {
                let t = choose|t: int| 0 <= t < tree@.len() && tree@[t].0 == p;
                assert(snap_map(tree@)[p] == tree@[t].1);
                assert(snap_map(pretree)[p] == pretree[t].1);
                if t == idx as int {
                    assert(p == kj);
                    assert(tree@[t].1.size == lstv[j as int].1);
                    assert(tree@[t].1.files == pretree[t].1.files);
                    assert(tree@[t].1.children == pretree[t].1.children);
                    assert(sz_map(lstv.take(j + 1)).contains_key(p));
                    assert(sz_map(lstv.take(j + 1))[p] == lstv[j as int].1);
                } else {
                    assert(tree@[t] == pretree[t]);
                    assert(p != kj);
                }
            }
        }
        j = j + 1;
    }
    proof {
        assert(lstv.take(sizes@.len() as int) =~= lstv);
    }
    let encoded = encode(&tree);
    match compress(encoded.as_slice(), 3) {
        Ok(out) => {
            proof {
                let s = tree@;
                let lst = lstv;
                assert(zstd_inflate(out@) == Some(spec_encode(s)));
                assert(sz_map(lst) == sz_map(lst));
                assert(spec_sized_output(builtm, sz_map(lst), snap_map(s)));
                assert(spec_map_output(es, start_path@, out@));
            }
            Ok(out)
        },
        Err(_e) => Err(Error::Compress),
    }
}

/// Decompresses and decodes a snapshot.  Succeeds exactly on a valid
/// frame holding the encoding of a well-formed snapshot, reconstructing
/// that snapshot; anything else is rejected as corrupt.
pub fn unmap(data: &[u8]) -> (r: Result<Snapshot, Error>)
    ensures
        r matches Ok(snap) ==> snap_wf(snap@) && zstd_inflate(data@) == Some(spec_encode(snap@)),
        forall|s: Seq<(Seq<char>, DirView)>|
            snap_wf(s) && zstd_inflate(data@) == Some(#[trigger] spec_encode(s)) ==> (r matches Ok(
                snap,
            ) && snap@ == s),
        r is Err ==> r == Err::<Snapshot, Error>(Error::Corrupt),
{
    let bytes = match decompress(data) {
        Ok(v) => v,
        Err(e) => {
            return Err(e);
        },
    };
    decode(bytes.as_slice())
}

} // verus!
