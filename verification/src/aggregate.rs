//! Bottom-up size aggregation over the snapshot, free of call-stack
//! recursion: an explicit two-tag work stack ensures every directory's
//! children are computed before the directory itself, on arbitrarily
//! deep trees.  A re-entered directory whose total is still pending is a
//! child-reference cycle and fails fast; a missing child is a fatal
//! structural error.

use vstd::prelude::*;
use vstd::string::StringExecFns;

use crate::error::Error;
use crate::record::DirView;
use crate::snapshot::Snapshot;
use crate::snapshot::snap_map;
use crate::snapshot::snap_wf;
use crate::snapshot::lemma_snap_map;

verus! {

/// One unit of pending work: `Process` means "make sure the children are
/// aggregated first"; `Calculate` means "every child is known, total up
/// this directory now".
enum StackOp {
    Process(usize),
    Calculate(usize),
}

/// The snapshot index an operation works on.
spec fn op_idx(op: StackOp) -> int {
    match op {
        StackOp::Process(i) => i as int,
        StackOp::Calculate(i) => i as int,
    }
}

/// The per-row view of a size listing: path characters and total.
pub open spec fn sizes_view(rows: Seq<(String, u64)>) -> Seq<(Seq<char>, u64)> {
    rows.map_values(|row: (String, u64)| (row.0@, row.1))
}

/// The mapping an aggregated size listing denotes.
pub open spec fn sz_map(lst: Seq<(Seq<char>, u64)>) -> Map<Seq<char>, u64>
    decreases lst.len(),
{
    if lst.len() == 0 {
        Map::empty()
    } else {
        sz_map(lst.drop_last()).insert(lst.last().0, lst.last().1)
    }
}

/// No two rows of the listing share a key.
pub open spec fn sz_uniq(lst: Seq<(Seq<char>, u64)>) -> bool {
    forall|i: int, j: int| 0 <= i < j < lst.len() ==> lst[i].0 != lst[j].0
}

/// How the size mapping reads off the listing.
pub proof fn lemma_sz_map(lst: Seq<(Seq<char>, u64)>)
    ensures
        forall|k: Seq<char>|
            #[trigger] sz_map(lst).contains_key(k) <==> exists|i: int|
                0 <= i < lst.len() && lst[i].0 == k,
        sz_uniq(lst) ==> forall|i: int|
            0 <= i < lst.len() ==> sz_map(lst).contains_key(#[trigger] lst[i].0) && sz_map(
                lst,
            )[lst[i].0] == lst[i].1,
    decreases lst.len(),
{
    if lst.len() > 0 {
        lemma_sz_map(lst.drop_last());
        assert forall|k: Seq<char>| #[trigger]
            sz_map(lst).contains_key(k) implies exists|i: int|
            0 <= i < lst.len() && lst[i].0 == k by {
            if k == lst.last().0 {
                assert(lst[lst.len() - 1].0 == k);
            } else {
                assert(sz_map(lst.drop_last()).contains_key(k));
                let i = choose|i: int| 0 <= i < lst.drop_last().len() && lst.drop_last()[i].0 == k;
                assert(lst.drop_last()[i] == lst[i]);
                assert(lst[i].0 == k);
            }
        }
        assert forall|k: Seq<char>|
            (exists|i: int| 0 <= i < lst.len() && lst[i].0 == k) implies #[trigger] sz_map(
            lst,
        ).contains_key(k) by {
            let i = choose|i: int| 0 <= i < lst.len() && lst[i].0 == k;
            if i < lst.len() - 1 {
                assert(lst.drop_last()[i].0 == k);
                assert(exists|j: int| 0 <= j < lst.drop_last().len() && lst.drop_last()[j].0 == k);
                assert(sz_map(lst.drop_last()).contains_key(k));
            }
        }
        if sz_uniq(lst) {
            assert forall|i: int, j: int|
                0 <= i < j < lst.drop_last().len() implies lst.drop_last()[i].0
                != lst.drop_last()[j].0 by {
                assert(lst[i].0 != lst[j].0);
            }
            assert forall|i: int| 0 <= i < lst.len() implies sz_map(lst).contains_key(
                #[trigger] lst[i].0,
            ) && sz_map(lst)[lst[i].0] == lst[i].1 by {
                if i < lst.len() - 1 {
                    assert(lst.drop_last()[i].0 == lst[i].0);
                    assert(lst[i].0 != lst.last().0);
                }
            }
        }
    }
}

/// Sum of the recorded sizes of the given child paths.
pub open spec fn spec_child_sum(cs: Seq<Seq<char>>, szm: Map<Seq<char>, u64>) -> int
    decreases cs.len(),
{
    if cs.len() == 0 {
        0
    } else {
        spec_child_sum(cs.drop_last(), szm) + szm[cs.last()]
    }
}

/// One row of the listing is sound: its directory exists, every one of
/// its children was totalled in an earlier row, and the row's total is
/// the directory's own size plus its children's recorded totals.
#[verifier::opaque]
pub open spec fn spec_row_ok(
    m: Map<Seq<char>, DirView>,
    lst: Seq<(Seq<char>, u64)>,
    i: int,
) -> bool {
    let p = lst[i].0;
    &&& m.contains_key(p)
    &&& forall|c: int|
        0 <= c < m[p].children.len() ==> exists|j: int|
            0 <= j < i && lst[j].0 == #[trigger] m[p].children[c]
    &&& lst[i].1 == m[p].size + spec_child_sum(m[p].children, sz_map(lst.take(i)))
}

/// The whole listing is sound: keys unique, the start path totalled,
/// every row sound.  The children-before-parent order makes the listing
/// its own witness that no aggregated directory sits on a cycle.
pub open spec fn spec_sizes_ok(
    m: Map<Seq<char>, DirView>,
    lst: Seq<(Seq<char>, u64)>,
    start: Seq<char>,
) -> bool {
    &&& sz_uniq(lst)
    &&& sz_map(lst).contains_key(start)
    &&& forall|i: int| 0 <= i < lst.len() ==> spec_row_ok(m, lst, i)
}

/// A walk along child links: every step goes from a present directory
/// to one of its listed children.
#[verifier::opaque]
pub open spec fn spec_is_path(m: Map<Seq<char>, DirView>, ks: Seq<Seq<char>>) -> bool {
    &&& ks.len() >= 1
    &&& forall|t: int|
        0 <= t < ks.len() - 1 ==> m.contains_key(#[trigger] ks[t]) && m[ks[t]].children.contains(
            ks[t + 1],
        )
}

/// Whether `p` can be reached from `start` by following child links.
#[verifier::opaque]
pub open spec fn spec_reachable(m: Map<Seq<char>, DirView>, start: Seq<char>, p: Seq<char>) -> bool {
    exists|ks: Seq<Seq<char>>| spec_is_path(m, ks) && ks.first() == start && ks.last() == p
}

/// Whether a chain of child links leads from `p` back to `p`.
#[verifier::opaque]
pub open spec fn spec_on_cycle(m: Map<Seq<char>, DirView>, p: Seq<char>) -> bool {
    exists|ks: Seq<Seq<char>>|
        spec_is_path(m, ks) && ks.len() >= 2 && ks.first() == p && ks.last() == p
}

/// Every directory reaches itself.
proof fn lemma_reach_self(m: Map<Seq<char>, DirView>, start: Seq<char>)
    ensures
        spec_reachable(m, start, start),
{
    reveal(spec_is_path);
    reveal(spec_reachable);
    let ks = seq![start];
    assert(spec_is_path(m, ks) && ks.first() == start && ks.last() == start);
}

/// Reachability extends over one child link.
proof fn lemma_reach_step(
    m: Map<Seq<char>, DirView>,
    start: Seq<char>,
    p: Seq<char>,
    c: Seq<char>,
)
    requires
        spec_reachable(m, start, p),
        m.contains_key(p),
        m[p].children.contains(c),
    ensures
        spec_reachable(m, start, c),
{
    reveal(spec_is_path);
    reveal(spec_reachable);
    let ks = choose|ks: Seq<Seq<char>>| spec_is_path(m, ks) && ks.first() == start && ks.last()
        == p;
    let ks2 = ks.push(c);
    assert(spec_is_path(m, ks2)) by {
        assert forall|t: int|
            0 <= t < ks2.len() - 1 implies m.contains_key(#[trigger] ks2[t])
            && m[ks2[t]].children.contains(ks2[t + 1]) by {
            if t < ks.len() - 1 {
                assert(ks2[t] == ks[t] && ks2[t + 1] == ks[t + 1]);
            } else {
                assert(ks2[t] == ks.last() && ks2[t + 1] == c);
            }
        }
    }
    assert(ks2.first() == start && ks2.last() == c);
}

/// Along a walk that starts at a totalled directory, every station is
/// totalled: a sound listing totals each child before its parent.
proof fn lemma_path_listed(
    m: Map<Seq<char>, DirView>,
    lst: Seq<(Seq<char>, u64)>,
    ks: Seq<Seq<char>>,
    t: int,
)
    requires
        sz_uniq(lst),
        forall|i: int| 0 <= i < lst.len() ==> #[trigger] spec_row_ok(m, lst, i),
        spec_is_path(m, ks),
        sz_map(lst).contains_key(ks.first()),
        0 <= t < ks.len(),
    ensures
        sz_map(lst).contains_key(ks[t]),
    decreases t,
{
    reveal(spec_is_path);
    lemma_sz_map(lst);
    if t > 0 {
        lemma_path_listed(m, lst, ks, t - 1);
        let j = choose|j: int| 0 <= j < lst.len() && lst[j].0 == ks[t - 1];
        assert(spec_row_ok(m, lst, j));
        reveal(spec_row_ok);
        lemma_chain_step(m, lst, j, ks[t]);
    }
}

/// Every directory reachable from a totalled one is totalled.
pub proof fn lemma_reachable_listed(
    m: Map<Seq<char>, DirView>,
    lst: Seq<(Seq<char>, u64)>,
    start: Seq<char>,
    p: Seq<char>,
)
    requires
        sz_uniq(lst),
        forall|i: int| 0 <= i < lst.len() ==> #[trigger] spec_row_ok(m, lst, i),
        sz_map(lst).contains_key(start),
        spec_reachable(m, start, p),
    ensures
        sz_map(lst).contains_key(p),
{
    reveal(spec_reachable);
    reveal(spec_is_path);
    let ks = choose|ks: Seq<Seq<char>>| spec_is_path(m, ks) && ks.first() == start && ks.last()
        == p;
    lemma_path_listed(m, lst, ks, ks.len() - 1);
}

/// A key listed before row `j` reads the same total off the prefix map
/// as off the whole map.
proof fn lemma_sz_map_take(lst: Seq<(Seq<char>, u64)>, j: int, c: Seq<char>)
    requires
        sz_uniq(lst),
        0 <= j <= lst.len(),
        exists|j2: int| 0 <= j2 < j && (#[trigger] lst[j2]).0 == c,
    ensures
        sz_map(lst.take(j)).contains_key(c),
        sz_map(lst.take(j))[c] == sz_map(lst)[c],
        sz_map(lst).contains_key(c),
{
    let pre = lst.take(j);
    lemma_sz_map(lst);
    lemma_sz_map(pre);
    assert(sz_uniq(pre)) by {
        assert forall|a: int, b: int| 0 <= a < b < pre.len() implies pre[a].0 != pre[b].0 by {
            assert(pre[a] == lst[a] && pre[b] == lst[b]);
        }
    }
    let j2 = choose|j2: int| 0 <= j2 < j && lst[j2].0 == c;
    assert(pre[j2] == lst[j2]);
    assert(sz_map(pre).contains_key(pre[j2].0) && sz_map(pre)[pre[j2].0] == pre[j2].1);
    assert(sz_map(lst).contains_key(lst[j2].0) && sz_map(lst)[lst[j2].0] == lst[j2].1);
}

/// Two total maps that agree on every listed child give the same sum.
proof fn lemma_child_sum_agree(
    cs: Seq<Seq<char>>,
    m1: Map<Seq<char>, u64>,
    m2: Map<Seq<char>, u64>,
)
    requires
        forall|k: int| 0 <= k < cs.len() ==> m1[#[trigger] cs[k]] == m2[cs[k]],
    ensures
        spec_child_sum(cs, m1) == spec_child_sum(cs, m2),
    decreases cs.len(),
{
    if cs.len() > 0 {
        assert forall|k: int|
            0 <= k < cs.drop_last().len() implies m1[#[trigger] cs.drop_last()[k]]
            == m2[cs.drop_last()[k]] by {
            assert(cs.drop_last()[k] == cs[k]);
        }
        lemma_child_sum_agree(cs.drop_last(), m1, m2);
        assert(cs.last() == cs[cs.len() - 1]);
    }
}

/// A sum over a prefix of the children never exceeds the whole sum, and
/// grows by exactly the next child's recorded total.
proof fn lemma_child_sum_take(cs: Seq<Seq<char>>, k: int, szm: Map<Seq<char>, u64>)
    requires
        0 <= k <= cs.len(),
    ensures
        spec_child_sum(cs.take(k), szm) <= spec_child_sum(cs, szm),
        k < cs.len() ==> spec_child_sum(cs.take(k + 1), szm) == spec_child_sum(cs.take(k), szm)
            + szm[cs[k]],
        spec_child_sum(cs.take(k), szm) >= 0,
    decreases cs.len() - k,
{
    lemma_child_sum_nonneg(cs.take(k), szm);
    if k < cs.len() {
        assert(cs.take(k + 1).drop_last() =~= cs.take(k));
        assert(cs.take(k + 1).last() == cs[k]);
        lemma_child_sum_take(cs, k + 1, szm);
        if k + 1 == cs.len() {
            assert(cs.take(k + 1) =~= cs);
        }
    } else {
        assert(cs.take(k) =~= cs);
    }
}

/// Recorded totals are unsigned, so their sums never go below zero.
proof fn lemma_child_sum_nonneg(cs: Seq<Seq<char>>, szm: Map<Seq<char>, u64>)
    ensures
        spec_child_sum(cs, szm) >= 0,
    decreases cs.len(),
{
    if cs.len() > 0 {
        lemma_child_sum_nonneg(cs.drop_last(), szm);
    }
}

/// Sound listings agree: any two listings whose rows are all sound give
/// a key they both total the same value.
proof fn lemma_rows_value_unique(
    m: Map<Seq<char>, DirView>,
    lst1: Seq<(Seq<char>, u64)>,
    lst2: Seq<(Seq<char>, u64)>,
    j1: int,
)
    requires
        sz_uniq(lst1),
        sz_uniq(lst2),
        forall|i: int| 0 <= i < lst1.len() ==> #[trigger] spec_row_ok(m, lst1, i),
        forall|i: int| 0 <= i < lst2.len() ==> #[trigger] spec_row_ok(m, lst2, i),
        0 <= j1 < lst1.len(),
        sz_map(lst2).contains_key(lst1[j1].0),
    ensures
        sz_map(lst2)[lst1[j1].0] == lst1[j1].1,
    decreases j1,
{
    lemma_sz_map(lst1);
    lemma_sz_map(lst2);
    let k = lst1[j1].0;
    let j2 = choose|j: int| 0 <= j < lst2.len() && lst2[j].0 == k;
    assert(spec_row_ok(m, lst1, j1));
    assert(spec_row_ok(m, lst2, j2));
    reveal(spec_row_ok);
    let cs = m[k].children;
    assert forall|w: int|
        0 <= w < cs.len() implies sz_map(lst1.take(j1))[#[trigger] cs[w]] == sz_map(
        lst2.take(j2),
    )[cs[w]] by {
        let c = cs[w];
        assert(exists|j: int| 0 <= j < j1 && (#[trigger] lst1[j]).0 == c);
        let ja = choose|j: int| 0 <= j < j1 && lst1[j].0 == c;
        assert(exists|j: int| 0 <= j < j2 && (#[trigger] lst2[j]).0 == c);
        lemma_sz_map_take(lst1, j1, c);
        lemma_sz_map_take(lst2, j2, c);
        lemma_rows_value_unique(m, lst1, lst2, ja);
        assert(sz_map(lst1)[c] == lst1[ja].1);
        assert(sz_map(lst2)[c] == lst1[ja].1);
    }
    lemma_child_sum_agree(cs, sz_map(lst1.take(j1)), sz_map(lst2.take(j2)));
    assert(sz_map(lst2)[k] == lst2[j2].1);
}

/// How many directories are still untouched.
spec fn count_unseen(st: Seq<u8>) -> int
    decreases st.len(),
{
    if st.len() == 0 {
        0
    } else {
        count_unseen(st.drop_last()) + if st.last() == 0u8 {
            1int
        } else {
            0int
        }
    }
}

/// Flipping one status away from "unseen" lowers the count by one;
/// flipping a non-unseen status leaves it unchanged.
proof fn lemma_count_unseen_update(st: Seq<u8>, i: int, v: u8)
    requires
        0 <= i < st.len(),
        v != 0,
    ensures
        st[i] == 0 ==> count_unseen(st.update(i, v)) == count_unseen(st) - 1,
        st[i] != 0 ==> count_unseen(st.update(i, v)) == count_unseen(st),
        count_unseen(st) >= 0,
    decreases st.len(),
{
    lemma_count_unseen_nonneg(st);
    if st.len() > 0 {
        if i == st.len() - 1 {
            assert(st.update(i, v).drop_last() =~= st.drop_last());
        } else {
            assert(st.update(i, v).drop_last() =~= st.drop_last().update(i, v));
            assert(st.update(i, v).last() == st.last());
            lemma_count_unseen_update(st.drop_last(), i, v);
        }
    }
}

/// The count of untouched directories is never negative.
proof fn lemma_count_unseen_nonneg(st: Seq<u8>)
    ensures
        count_unseen(st) >= 0,
    decreases st.len(),
{
    if st.len() > 0 {
        lemma_count_unseen_nonneg(st.drop_last());
    }
}

/// Computes, for every directory reachable from `start_path`, its full
/// recursive size: its own size plus the aggregated sizes of all its
/// descendants.  The result lists children before their parents, so a
/// successful aggregation is itself evidence that the reachable part of
/// the snapshot is free of child-reference cycles.
#[verifier::rlimit(100)]
pub fn calc_size(dirs: &Snapshot, start_path: &str) -> (r: Result<Vec<(String, u64)>, Error>)
    requires
        snap_wf(dirs@),
    ensures
        r is Ok <==> exists|lst: Seq<(Seq<char>, u64)>|
            spec_sizes_ok(snap_map(dirs@), lst, start_path@),
        r matches Ok(lst) ==> spec_sizes_ok(snap_map(dirs@), sizes_view(lst@), start_path@) && (
        forall|i: int|
            0 <= i < lst@.len() ==> spec_reachable(
                snap_map(dirs@),
                start_path@,
                #[trigger] sizes_view(lst@)[i].0,
            )),
        r matches Err(e) ==> match e {
            Error::MissingDir(p) => !snap_map(dirs@).contains_key(p@) && (p@ == start_path@
                || exists|q: Seq<char>|
                spec_reachable(snap_map(dirs@), start_path@, q) && snap_map(dirs@).contains_key(q)
                    && #[trigger] snap_map(dirs@)[q].children.contains(p@)),
            Error::Cycle(p) => snap_map(dirs@).contains_key(p@) && spec_reachable(
                snap_map(dirs@),
                start_path@,
                p@,
            ) && spec_on_cycle(snap_map(dirs@), p@),
            Error::SizeOverflow => true,
            _ => false,
        },
{
    let ghost m = snap_map(dirs@);
    let n = dirs.len();
    proof {
        lemma_snap_map(dirs@);
    }
    let start = String::from_str(start_path);
    let start_idx = match dirs.find_idx(&start) {
        Some(i) => i,
        None => {
            proof {
                if exists|lst: Seq<(Seq<char>, u64)>| spec_sizes_ok(m, lst, start_path@) {
                    let lst2 = choose|lst: Seq<(Seq<char>, u64)>|
                        spec_sizes_ok(m, lst, start_path@);
                    lemma_sz_map(lst2);
                    let j = choose|j: int| 0 <= j < lst2.len() && lst2[j].0 == start_path@;
                    assert(spec_row_ok(m, lst2, j));
                    reveal(spec_row_ok);
                    assert(m.contains_key(start_path@));
                    let t = choose|t: int| 0 <= t < dirs@.len() && dirs@[t].0 == start_path@;
                    assert(false);
                }
            }
            return Err(Error::MissingDir(start));
        },
    };
    let mut status: Vec<u8> = Vec::new();
    let mut vals: Vec<u64> = Vec::new();
    let mut k: usize = 0;
    while k < n
        invariant
            status@.len() == k,
            vals@.len() == k,
            k <= n,
            forall|t: int| 0 <= t < k ==> status@[t] == 0u8,
        decreases n - k,
    {
        status.push(0);
        vals.push(0);
        k = k + 1;
    }
    let mut out: Vec<(String, u64)> = Vec::new();
    let mut stack: Vec<StackOp> = Vec::new();
    stack.push(StackOp::Process(start_idx));
    let ghost mut chain: Seq<int> = Seq::empty();
    let ghost mut owners: Seq<int> = seq![0int];
    proof {
        assert(stack@[0] == StackOp::Process(start_idx));
        assert(op_idx(stack@[0]) == start_idx as int);
        assert(sizes_view(out@) =~= Seq::<(
            Seq<char>,
            u64,
        )>::empty());
        lemma_reach_self(m, start_path@);
        assert(chain_inv(dirs@, status@, stack@, owners, chain, start_idx as int)) by {
            reveal(chain_inv);
            assert(owners[0] == 0);
            assert(stack@[0] is Process);
        }
    }
    while stack.len() > 0
        invariant
            n == dirs@.len(),
            snap_wf(dirs@),
            m == snap_map(dirs@),
            start_idx < n,
            dirs@[start_idx as int].0 == start_path@,
            status@.len() == n,
            vals@.len() == n,
            forall|t: int| 0 <= t < n ==> #[trigger] status@[t] == 0 || status@[t] == 1
                || status@[t] == 2,
            // every stack operation points into the snapshot
            forall|a: int| 0 <= a < stack@.len() ==> 0 <= op_idx(#[trigger] stack@[a]) < n,
            // a pending Calculate marks an open directory
            forall|a: int|
                0 <= a < stack@.len() && stack@[a] is Calculate ==> status@[op_idx(
                    #[trigger] stack@[a],
                )] == 1,
            // no directory has two pending Calculates
            forall|a: int, b: int|
                0 <= a < b < stack@.len() && stack@[a] is Calculate && stack@[b] is Calculate
                    ==> op_idx(#[trigger] stack@[a]) != op_idx(#[trigger] stack@[b]),
            // every open directory's children are either done or pending
            // above their Calculate
            forall|a: int, c: int|
                0 <= a < stack@.len() && stack@[a] is Calculate && 0 <= c < dirs@[op_idx(
                    #[trigger] stack@[a],
                )].1.children.len() ==> child_settled(
                    dirs@,
                    status@,
                    stack@,
                    a,
                    #[trigger] dirs@[op_idx(stack@[a])].1.children[c],
                ),
            // a done directory has its total recorded in the listing
            forall|t: int|
                0 <= t < n && #[trigger] status@[t] == 2 ==> sz_map(
                    sizes_view(out@),
                ).contains_key(dirs@[t].0) && sz_map(
                    sizes_view(out@),
                )[dirs@[t].0] == vals@[t],
            // every listed directory is done
            forall|j: int|
                0 <= j < out@.len() ==> exists|t: int|
                    0 <= t < n && dirs@[t].0 == (#[trigger] out@[j]).0@ && status@[t] == 2,
            sz_uniq(sizes_view(out@)),
            forall|j: int|
                0 <= j < out@.len() ==> #[trigger] spec_row_ok(m, sizes_view(out@), j),
            // the start directory is done or still pending
            status@[start_idx as int] == 2 || exists|a: int|
                0 <= a < stack@.len() && op_idx(#[trigger] stack@[a]) == start_idx as int,
            // every pending or touched directory is reachable from the start
            forall|a: int|
                0 <= a < stack@.len() ==> spec_reachable(
                    m,
                    start_path@,
                    dirs@[op_idx(#[trigger] stack@[a])].0,
                ),
            forall|t: int|
                0 <= t < n && #[trigger] status@[t] != 0 ==> spec_reachable(
                    m,
                    start_path@,
                    dirs@[t].0,
                ),
            forall|jj: int|
                0 <= jj < out@.len() ==> spec_reachable(
                    m,
                    start_path@,
                    #[trigger] sizes_view(out@)[jj].0,
                ),
            // the open directories form a chain of child links, and each
            // stack entry belongs to the chain depth that opened it
            owners.len() == stack@.len(),
            chain_inv(dirs@, status@, stack@, owners, chain, start_idx as int),
        decreases count_unseen(status@), stack@.len(),
    {
        let ghost prestack = stack@;
        let ghost prestatus = status@;
        let ghost preowners = owners;
        let ghost prechain = chain;
        let ghost old_out_snap = out@;
        let ghost preout = sizes_view(out@);
        let op = match stack.pop() {
            Some(op) => op,
            None => {
                proof {
                    assert(false);
                }
                return Err(Error::Corrupt);
            },
        };
        proof {
            assert(stack@ =~= prestack.drop_last());
            assert(prestack.last() == op);
            owners = owners.drop_last();
        }
        match op {
            StackOp::Process(idx) => {
                assert(op_idx(prestack.last()) == idx as int);
                let st = status[idx];
                if st == 1 {
                    let key = dirs.entry_at(idx).0.clone();
                    proof {
                        lemma_snap_map(dirs@);
                        assert(key@ == dirs@[idx as int].0);
                        assert(exists|t: int| 0 <= t < dirs@.len() && dirs@[t].0 == key@);
                        assert(snap_map(dirs@).contains_key(key@));
                        lemma_chain_cycle(
                            dirs@,
                            prestatus,
                            prestack,
                            preowners,
                            chain,
                            start_idx as int,
                            idx as int,
                            start_path@,
                        );
                    }
                    return Err(Error::Cycle(key));
                } else if st == 2 {
                    proof {
                        lemma_count_unseen_nonneg(status@);
                        lemma_settle_after_pop(dirs@, status@, prestack, stack@, idx as int);
                        assert(owners =~= preowners.drop_last());
                        assert(prestack[prestack.len() - 1] is Process);
                        lemma_chain_skip(
                            dirs@,
                            status@,
                            prestack,
                            preowners,
                            chain,
                            start_idx as int,
                        );
                        assert(status@[start_idx as int] == 2 || exists|a: int|
                            0 <= a < stack@.len() && op_idx(#[trigger] stack@[a])
                                == start_idx as int) by {
                            if prestatus[start_idx as int] != 2 {
                                let a = choose|a: int|
                                    0 <= a < prestack.len() && op_idx(#[trigger] prestack[a])
                                        == start_idx as int;
                                if a < prestack.len() - 1 {
                                    assert(stack@[a] == prestack[a]);
                                } else {
                                    assert(idx as int == start_idx as int);
                                }
                            }
                        }
                    }
                } else {
                    assert(st == 0);
                    status.set(idx, 1);
                    proof {
                        chain = chain.push(idx as int);
                        assert(chain.last() == idx as int);
                        assert(chain.drop_last() =~= prechain);
                        lemma_count_unseen_update(prestatus, idx as int, 1);
                        assert(count_unseen(status@) == count_unseen(prestatus) - 1);
                        assert forall|j: int| 0 <= j < out@.len() implies exists|t: int|
                            0 <= t < n && dirs@[t].0 == (#[trigger] out@[j]).0@ && status@[t]
                                == 2 by {
                            let t = choose|t: int|
                                0 <= t < n && dirs@[t].0 == out@[j].0@ && prestatus[t] == 2;
                            assert(t != idx as int);
                            assert(status@[t] == 2);
                        }
                    }
                    stack.push(StackOp::Calculate(idx));
                    let ghost stack_snap = stack@;
                    let ghost stack_base = stack@.len() as int;
                    let ghost status_mid = status@;
                    let ghost vals_mid = vals@;
                    let ghost out_mid = out@;
                    proof {
                        owners = owners.push(chain.len() as int);
                        assert(owners.drop_last() =~= preowners.drop_last());
                        assert(owners.last() == chain.len() as int);
                        assert(stack_snap[stack_base - 1] == StackOp::Calculate(idx));
                        assert(stack_snap.drop_last() =~= prestack.drop_last());
                        lemma_count_unseen_nonneg(status@);
                    }
                    let ghost owners_snap = owners;
                    let ghost newdepth = chain.len() as int;
                    let ghost chain_mid = chain;
                    proof {
                        assert(owners.len() == stack@.len());
                        assert(owners[stack_base - 1] == newdepth);
                    }
                    let dir = &dirs.entry_at(idx).1;
                    let children = dir.children();
                    let mut c: usize = 0;
                    let ghost cs = dirs@[idx as int].1.children;
                    assert(children@.map_values(|s: String| s@) == cs);
                    while c < children.len()
                        invariant
                            n == dirs@.len(),
                            snap_wf(dirs@),
                            c <= children.len(),
                            children@.map_values(|s: String| s@) == cs,
                            cs == dirs@[idx as int].1.children,
                            idx < n,
                            status@ == status_mid,
                            vals@ == vals_mid,
                            out@ == out_mid,
                            status@.len() == n,
                            status@[idx as int] == 1,
                            forall|t: int| 0 <= t < n ==> #[trigger] status@[t] == 0 || status@[t]
                                == 1 || status@[t] == 2,
                            stack@.len() == stack_base + c,
                            forall|a: int|
                                0 <= a < stack_base ==> #[trigger] stack@[a] == stack_snap[a],
                            stack_snap.len() == stack_base,
                            stack_snap[stack_base - 1] == StackOp::Calculate(idx),
                            forall|a: int|
                                stack_base <= a < stack@.len() ==> (#[trigger] stack@[a]) is Process
                                    && 0 <= op_idx(stack@[a]) < n && dirs@[op_idx(stack@[a])].0
                                    == cs[a - stack_base],
                            m == snap_map(dirs@),
                            chain == chain_mid,
                            owners.len() == stack@.len(),
                            owners_snap.len() == stack_base,
                            forall|a: int| 0 <= a < stack_base ==> #[trigger] owners[a]
                                == owners_snap[a],
                            forall|a: int|
                                stack_base <= a < owners.len() ==> #[trigger] owners[a]
                                    == newdepth,
                            forall|a: int|
                                stack_base <= a < stack@.len() ==> spec_reachable(
                                    m,
                                    start_path@,
                                    dirs@[op_idx(#[trigger] stack@[a])].0,
                                ),
                            spec_reachable(m, start_path@, dirs@[idx as int].0),
                        decreases children.len() - c,
                    {
                        let child = &children[c];
                        proof {
                            lemma_snap_map(dirs@);
                            assert(exists|t: int|
                                0 <= t < dirs@.len() && dirs@[t].0 == dirs@[idx as int].0);
                            assert(m.contains_key(dirs@[idx as int].0));
                            assert(m[dirs@[idx as int].0] == dirs@[idx as int].1);
                            assert(cs[c as int] == child@);
                            assert(m[dirs@[idx as int].0].children.contains(child@));
                        }
                        match dirs.find_idx(child) {
                            Some(ci) => {
                                proof {
                                    lemma_reach_step(
                                        m,
                                        start_path@,
                                        dirs@[idx as int].0,
                                        child@,
                                    );
                                }
                                stack.push(StackOp::Process(ci));
                                proof {
                                    owners = owners.push(newdepth);
                                }
                            },
                            None => {
                                proof {
                                    if snap_map(dirs@).contains_key(child@) {
                                        assert(exists|t: int|
                                            0 <= t < dirs@.len() && dirs@[t].0 == child@);
                                        let t = choose|t: int|
                                            0 <= t < dirs@.len() && dirs@[t].0 == child@;
                                        assert(dirs@[t].0 != child@);
                                    }
                                    assert(!snap_map(dirs@).contains_key(child@));
                                    // the parent is reachable and refers to
                                    // the absent child: no sound listing can
                                    // exist
                                    if exists|lst: Seq<(Seq<char>, u64)>|
                                        spec_sizes_ok(m, lst, start_path@) {
                                        let lst2 = choose|lst: Seq<(Seq<char>, u64)>|
                                            spec_sizes_ok(m, lst, start_path@);
                                        lemma_reachable_listed(
                                            m,
                                            lst2,
                                            start_path@,
                                            dirs@[idx as int].0,
                                        );
                                        lemma_sz_map(lst2);
                                        let j = choose|j: int|
                                            0 <= j < lst2.len() && lst2[j].0 == dirs@[
                                            idx as int].0;
                                        assert(spec_row_ok(m, lst2, j));
                                        lemma_chain_step(m, lst2, j, child@);
                                        let j2 = choose|j2: int|
                                            0 <= j2 < j && lst2[j2].0 == child@;
                                        assert(spec_row_ok(m, lst2, j2));
                                        reveal(spec_row_ok);
                                        assert(m.contains_key(child@));
                                        assert(false);
                                    }
                                }
                                return Err(Error::MissingDir(child.clone()));
                            },
                        }
                        c = c + 1;
                    }
                    proof {
                        assert(out@ == old_out_snap);
                        lemma_after_expand(
                            dirs@,
                            prestatus,
                            status@,
                            prestack,
                            stack_snap,
                            stack@,
                            idx as int,
                        );
                        assert(chain =~= prechain.push(idx as int));
                        assert forall|a: int|
                            0 <= a < stack_snap.len() - 1 implies #[trigger] owners[a]
                            == preowners[a] by {
                            assert(owners[a] == owners_snap[a]);
                            assert(owners_snap.drop_last()[a] == owners_snap[a]);
                            assert(preowners.drop_last()[a] == preowners[a]);
                        }
                        assert forall|a: int|
                            stack_snap.len() - 1 <= a < owners.len() implies #[trigger] owners[a]
                            == prechain.len() + 1 by {
                            if a < stack_base {
                                assert(owners[a] == owners_snap[a]);
                            }
                        }
                        lemma_chain_open(
                            dirs@,
                            prestatus,
                            status@,
                            prestack,
                            stack_snap,
                            stack@,
                            preowners,
                            owners,
                            prechain,
                            chain,
                            start_idx as int,
                            idx as int,
                        );
                        let pl = prestack.len() - 1;
                        assert forall|a: int|
                            0 <= a < stack@.len() implies spec_reachable(
                            m,
                            start_path@,
                            dirs@[op_idx(#[trigger] stack@[a])].0,
                        ) by {
                            if a < stack_base - 1 {
                                assert(stack@[a] == stack_snap[a]);
                                assert(stack_snap.drop_last()[a] == stack_snap[a]);
                                assert(prestack.drop_last()[a] == prestack[a]);
                                assert(stack@[a] == prestack[a]);
                            } else if a == stack_base - 1 {
                                assert(stack@[a] == stack_snap[a]);
                                assert(op_idx(stack@[a]) == idx as int);
                                assert(op_idx(prestack[pl]) == idx as int);
                            }
                        }
                        assert forall|t: int|
                            0 <= t < n && #[trigger] status@[t] != 0 implies spec_reachable(
                            m,
                            start_path@,
                            dirs@[t].0,
                        ) by {
                            if t != idx as int {
                                assert(prestatus[t] != 0);
                            } else {
                                assert(op_idx(prestack[pl]) == idx as int);
                            }
                        }
                        assert(status@[start_idx as int] == 2 || exists|a: int|
                            0 <= a < stack@.len() && op_idx(#[trigger] stack@[a])
                                == start_idx as int) by {
                            if prestatus[start_idx as int] == 2 {
                                if start_idx as int == idx as int {
                                    assert(false);
                                }
                            } else {
                                let a = choose|a: int|
                                    0 <= a < prestack.len() && op_idx(#[trigger] prestack[a])
                                        == start_idx as int;
                                if a < prestack.len() - 1 {
                                    assert(stack@[a] == prestack[a]);
                                } else {
                                    assert(stack@[stack_base - 1] == StackOp::Calculate(idx));
                                }
                            }
                        }
                    }
                }
            },
            StackOp::Calculate(idx) => {
                let ghost outv = preout;
                assert(status@[idx as int] == 1);
                let dir = &dirs.entry_at(idx).1;
                let own = dir.size();
                let children = dir.children();
                let ghost cs = dirs@[idx as int].1.children;
                assert(children@.map_values(|s: String| s@) == cs);
                let mut total: u64 = own;
                let mut c: usize = 0;
                proof {
                    assert(cs.take(0) =~= Seq::<Seq<char>>::empty());
                    let top = prestack.len() - 1;
                    assert(prestack[top] is Calculate && op_idx(prestack[top]) == idx as int);
                    assert forall|cc: int| 0 <= cc < cs.len() implies exists|t: int|
                        0 <= t < n && dirs@[t].0 == #[trigger] cs[cc] && status@[t] == 2 by {
                        assert(child_settled(
                            dirs@,
                            prestatus,
                            prestack,
                            top,
                            dirs@[op_idx(prestack[top])].1.children[cc],
                        ));
                        reveal(child_settled);
                        if exists|b: int|
                            top < b < prestack.len() && dirs@[op_idx(
                                #[trigger] prestack[b],
                            )].0 == cs[cc] {
                            let b = choose|b: int|
                                top < b < prestack.len() && dirs@[op_idx(
                                    #[trigger] prestack[b],
                                )].0 == cs[cc];
                            assert(false);
                        }
                    }
                }
                while c < children.len()
                    invariant
                        n == dirs@.len(),
                        snap_wf(dirs@),
                        m == snap_map(dirs@),
                        c <= children.len(),
                        children@.map_values(|s: String| s@) == cs,
                        cs == dirs@[idx as int].1.children,
                        idx < n,
                        status@.len() == n,
                        vals@.len() == n,
                        outv == sizes_view(out@),
                        snap_wf(dirs@),
                        sz_uniq(outv),
                        forall|j: int| 0 <= j < outv.len() ==> #[trigger] spec_row_ok(m, outv, j),
                        spec_reachable(m, start_path@, dirs@[idx as int].0),
                        forall|t: int|
                            0 <= t < n && #[trigger] status@[t] == 2 ==> sz_map(
                                outv,
                            ).contains_key(dirs@[t].0) && sz_map(outv)[dirs@[t].0] == vals@[t],
                        forall|cc: int|
                            0 <= cc < cs.len() ==> exists|t: int|
                                0 <= t < n && dirs@[t].0 == #[trigger] cs[cc] && status@[t] == 2,
                        total == dirs@[idx as int].1.size + spec_child_sum(
                            cs.take(c as int),
                            sz_map(outv),
                        ),
                    decreases children.len() - c,
                {
                    let child = &children[c];
                    let ci = match dirs.find_idx(child) {
                        Some(ci) => ci,
                        None => {
                            proof {
                                let t = choose|t: int|
                                    0 <= t < n && dirs@[t].0 == cs[c as int] && status@[t] == 2;
                                assert(dirs@[t].0 == child@);
                            }
                            return Err(Error::Corrupt);
                        },
                    };
                    proof {
                        let t = choose|t: int|
                            0 <= t < n && dirs@[t].0 == cs[c as int] && status@[t] == 2;
                        assert(dirs@[t].0 == dirs@[ci as int].0);
                        assert(t == ci as int) by {
                            if t != ci as int {
                                assert(snap_wf(dirs@));
                            }
                        }
                        assert(status@[ci as int] == 2);
                        assert(sz_map(outv)[cs[c as int]] == vals@[ci as int]);
                    }
                    let v = vals[ci];
                    if v > u64::MAX - total {
                        proof {
                            if exists|lst: Seq<(Seq<char>, u64)>|
                                spec_sizes_ok(m, lst, start_path@) {
                                let lst2 = choose|lst: Seq<(Seq<char>, u64)>|
                                    spec_sizes_ok(m, lst, start_path@);
                                let key = dirs@[idx as int].0;
                                lemma_reachable_listed(m, lst2, start_path@, key);
                                lemma_sz_map(lst2);
                                let j2 = choose|j: int| 0 <= j < lst2.len() && lst2[j].0 == key;
                                assert(spec_row_ok(m, lst2, j2));
                                lemma_snap_map(dirs@);
                                assert(exists|t: int|
                                    0 <= t < dirs@.len() && dirs@[t].0 == key);
                                assert(m.contains_key(key) && m[key] == dirs@[idx as int].1);
                                reveal(spec_row_ok);
                                assert(m[key].children == cs);
                                assert forall|w: int|
                                    0 <= w < cs.take(c + 1).len() implies sz_map(outv)[#[trigger] cs.take(
                                    c + 1,
                                )[w]] == sz_map(lst2.take(j2))[cs.take(c + 1)[w]] by {
                                    assert(cs.take(c + 1)[w] == cs[w]);
                                    let cw = cs[w];
                                    assert(exists|j: int|
                                        0 <= j < j2 && (#[trigger] lst2[j]).0 == m[key].children[w]);
                                    lemma_sz_map_take(lst2, j2, cw);
                                    let t = choose|t: int|
                                        0 <= t < n && dirs@[t].0 == cs[w] && status@[t] == 2;
                                    assert(sz_map(outv).contains_key(cw));
                                    lemma_sz_map(outv);
                                    let ja = choose|j: int|
                                        0 <= j < outv.len() && outv[j].0 == cw;
                                    lemma_rows_value_unique(m, outv, lst2, ja);
                                    assert(sz_map(lst2)[cw] == outv[ja].1);
                                    assert(sz_map(outv)[cw] == outv[ja].1);
                                }
                                lemma_child_sum_agree(
                                    cs.take(c + 1),
                                    sz_map(outv),
                                    sz_map(lst2.take(j2)),
                                );
                                lemma_child_sum_take(cs, c as int, sz_map(outv));
                                assert(sz_map(outv)[cs[c as int]] == v);
                                assert(total + v == dirs@[idx as int].1.size + spec_child_sum(
                                    cs.take(c + 1),
                                    sz_map(outv),
                                ));
                                lemma_child_sum_take(cs, c + 1, sz_map(lst2.take(j2)));
                                assert(spec_child_sum(cs.take(c + 1), sz_map(lst2.take(j2)))
                                    <= spec_child_sum(cs, sz_map(lst2.take(j2))));
                                assert(lst2[j2].1 == m[key].size + spec_child_sum(
                                    cs,
                                    sz_map(lst2.take(j2)),
                                ));
                                assert(total + v <= lst2[j2].1);
                                assert(false);
                            }
                        }
                        return Err(Error::SizeOverflow);
                    }
                    proof {
                        assert(cs.take(c + 1).drop_last() =~= cs.take(c as int));
                        assert(cs.take(c + 1).last() == cs[c as int]);
                    }
                    total = total + v;
                    c = c + 1;
                }
                proof {
                    assert(cs.take(cs.len() as int) =~= cs);
                }
                let key = dirs.entry_at(idx).0.clone();
                status.set(idx, 2);
                vals.set(idx, total);
                out.push((key, total));
                proof {
                    chain = chain.drop_last();
                    assert(chain =~= prechain.drop_last());
                    lemma_count_unseen_update(prestatus, idx as int, 2);
                    lemma_count_unseen_nonneg(status@);
                    lemma_chain_close(
                        dirs@,
                        prestatus,
                        status@,
                        prestack,
                        preowners,
                        prechain,
                        start_idx as int,
                        idx as int,
                    );
                    let newout = sizes_view(out@);
                    assert(newout =~= preout.push((dirs@[idx as int].0, total)));
                    assert forall|j: int|
                        #![trigger spec_row_ok(m, preout, j)]
                        0 <= j < preout.len() implies spec_row_ok(m, preout, j) by {
                        assert(0 <= j < old_out_snap.len());
                        assert(old_out_snap[j] == old_out_snap[j]);
                    }
                    assert forall|j: int|
                        #![trigger preout[j]]
                        0 <= j < preout.len() implies exists|t: int|
                        0 <= t < dirs@.len() && dirs@[t].0 == preout[j].0 && prestatus[t]
                            == 2 by {
                        assert(0 <= j < old_out_snap.len());
                        assert(old_out_snap[j] == old_out_snap[j]);
                        assert(preout[j] == (old_out_snap[j].0@, old_out_snap[j].1));
                        let t = choose|t: int|
                            0 <= t < n && dirs@[t].0 == old_out_snap[j].0@ && prestatus[t] == 2;
                        assert(dirs@[t].0 == preout[j].0);
                    }
                    lemma_calculate_done(
                        dirs@,
                        m,
                        prestatus,
                        status@,
                        prestack,
                        stack@,
                        preout,
                        newout,
                        vals@,
                        idx as int,
                        total,
                    );
                    assert forall|j: int|
                        0 <= j < out@.len() implies #[trigger] spec_row_ok(
                        m,
                        sizes_view(out@),
                        j,
                    ) by {
                        assert(spec_row_ok(m, newout, j));
                    }
                    assert forall|j: int|
                        #![trigger out@[j]]
                        0 <= j < out@.len() implies exists|t: int|
                        0 <= t < n && dirs@[t].0 == out@[j].0@ && status@[t] == 2 by {
                        assert(newout[j] == (out@[j].0@, out@[j].1));
                        let t = choose|t: int|
                            0 <= t < dirs@.len() && dirs@[t].0 == newout[j].0 && status@[t] == 2;
                        assert(dirs@[t].0 == out@[j].0@);
                    }
                    assert(status@[start_idx as int] == 2 || exists|a: int|
                        0 <= a < stack@.len() && op_idx(#[trigger] stack@[a])
                            == start_idx as int) by {
                        if prestatus[start_idx as int] == 2 {
                            assert(status@[start_idx as int] == 2);
                        } else {
                            let a = choose|a: int|
                                0 <= a < prestack.len() && op_idx(#[trigger] prestack[a])
                                    == start_idx as int;
                            if a < prestack.len() - 1 {
                                assert(stack@[a] == prestack[a]);
                            } else {
                                assert(status@[start_idx as int] == 2);
                            }
                        }
                    }
                }
            },
        }
    }
    proof {
        let outv = sizes_view(out@);
        assert(status@[start_idx as int] == 2);
        assert(sz_map(outv).contains_key(dirs@[start_idx as int].0));
        assert forall|i: int| 0 <= i < outv.len() implies spec_row_ok(m, outv, i) by {
            assert(spec_row_ok(m, sizes_view(out@), i));
        }
        assert(spec_sizes_ok(m, outv, start_path@));
        assert(exists|lst: Seq<(Seq<char>, u64)>| spec_sizes_ok(m, lst, start_path@));
    }
    Ok(out)
}

/// Whether child path `ch` of an open directory is already totalled, or
/// still pending above position `a` of the stack.
#[verifier::opaque]
spec fn child_settled(
    dirs: Seq<(Seq<char>, DirView)>,
    st: Seq<u8>,
    stack: Seq<StackOp>,
    a: int,
    ch: Seq<char>,
) -> bool {
    ||| exists|t: int| 0 <= t < dirs.len() && dirs[t].0 == ch && st[t] == 2
    ||| exists|b: int| a < b < stack.len() && dirs[op_idx(#[trigger] stack[b])].0 == ch
}

/// After popping the top of the stack, every remaining open directory's
/// children stay settled, as long as the popped operation's directory is
/// done or freshly re-covered.
proof fn lemma_settle_after_pop(
    dirs: Seq<(Seq<char>, DirView)>,
    st: Seq<u8>,
    prestack: Seq<StackOp>,
    stack: Seq<StackOp>,
    popped: int,
)
    requires
        prestack.len() > 0,
        stack =~= prestack.drop_last(),
        op_idx(prestack.last()) == popped,
        0 <= popped < dirs.len(),
        0 <= popped < st.len(),
        st[popped] == 2,
        forall|a: int, c: int|
            0 <= a < prestack.len() && prestack[a] is Calculate && 0 <= c < dirs[op_idx(
                #[trigger] prestack[a],
            )].1.children.len() ==> child_settled(
                dirs,
                st,
                prestack,
                a,
                #[trigger] dirs[op_idx(prestack[a])].1.children[c],
            ),
    ensures
        forall|a: int, c: int|
            0 <= a < stack.len() && stack[a] is Calculate && 0 <= c < dirs[op_idx(
                #[trigger] stack[a],
            )].1.children.len() ==> child_settled(
                dirs,
                st,
                stack,
                a,
                #[trigger] dirs[op_idx(stack[a])].1.children[c],
            ),
{
    reveal(child_settled);
    assert forall|a: int, c: int|
        0 <= a < stack.len() && stack[a] is Calculate && 0 <= c < dirs[op_idx(
            #[trigger] stack[a],
        )].1.children.len() implies child_settled(
        dirs,
        st,
        stack,
        a,
        #[trigger] dirs[op_idx(stack[a])].1.children[c],
    ) by {
        assert(stack[a] == prestack[a]);
        let ch = dirs[op_idx(prestack[a])].1.children[c];
        assert(child_settled(dirs, st, prestack, a, ch));
        if !(exists|t: int| 0 <= t < dirs.len() && dirs[t].0 == ch && st[t] == 2) {
            let b = choose|b: int|
                a < b < prestack.len() && dirs[op_idx(#[trigger] prestack[b])].0 == ch;
            if b < prestack.len() - 1 {
                assert(stack[b] == prestack[b]);
                assert(child_settled(dirs, st, stack, a, ch));
            } else {
                assert(dirs[popped].0 == ch);
                assert(child_settled(dirs, st, stack, a, ch));
            }
        }
    }
}

/// After a directory is opened — its Calculate pushed and one Process
/// pushed per child — every open directory's children are settled, and
/// the other stack invariants carry over.
#[verifier::rlimit(30)]
proof fn lemma_after_expand(
    dirs: Seq<(Seq<char>, DirView)>,
    prest: Seq<u8>,
    st: Seq<u8>,
    prestack: Seq<StackOp>,
    base: Seq<StackOp>,
    stack: Seq<StackOp>,
    opened: int,
)
    requires
        prestack.len() > 0,
        0 <= opened < dirs.len(),
        dirs.len() == prest.len(),
        st =~= prest.update(opened, 1),
        prest[opened] == 0,
        op_idx(prestack.last()) == opened,
        base.len() == prestack.len(),
        base.drop_last() =~= prestack.drop_last(),
        base.last() is Calculate,
        op_idx(base.last()) == opened,
        stack.len() == base.len() + dirs[opened].1.children.len(),
        forall|a: int| 0 <= a < base.len() ==> #[trigger] stack[a] == base[a],
        forall|a: int|
            base.len() <= a < stack.len() ==> (#[trigger] stack[a]) is Process && 0 <= op_idx(
                stack[a],
            ) < dirs.len() && dirs[op_idx(stack[a])].0 == dirs[opened].1.children[a - base.len()],
        forall|a: int| 0 <= a < prestack.len() ==> 0 <= op_idx(#[trigger] prestack[a]) < dirs.len(),
        forall|a: int|
            0 <= a < prestack.len() && prestack[a] is Calculate ==> prest[op_idx(
                #[trigger] prestack[a],
            )] == 1,
        forall|a: int, b: int|
            0 <= a < b < prestack.len() && prestack[a] is Calculate && prestack[b] is Calculate
                ==> op_idx(#[trigger] prestack[a]) != op_idx(#[trigger] prestack[b]),
        forall|a: int, c: int|
            0 <= a < prestack.len() && prestack[a] is Calculate && 0 <= c < dirs[op_idx(
                #[trigger] prestack[a],
            )].1.children.len() ==> child_settled(
                dirs,
                prest,
                prestack,
                a,
                #[trigger] dirs[op_idx(prestack[a])].1.children[c],
            ),
    ensures
        forall|a: int| 0 <= a < stack.len() ==> 0 <= op_idx(#[trigger] stack[a]) < dirs.len(),
        forall|a: int|
            0 <= a < stack.len() && stack[a] is Calculate ==> st[op_idx(#[trigger] stack[a])] == 1,
        forall|a: int, b: int|
            0 <= a < b < stack.len() && stack[a] is Calculate && stack[b] is Calculate ==> op_idx(
                #[trigger] stack[a],
            ) != op_idx(#[trigger] stack[b]),
        forall|a: int, c: int|
            0 <= a < stack.len() && stack[a] is Calculate && 0 <= c < dirs[op_idx(
                #[trigger] stack[a],
            )].1.children.len() ==> child_settled(
                dirs,
                st,
                stack,
                a,
                #[trigger] dirs[op_idx(stack[a])].1.children[c],
            ),
{
    let nb = base.len();
    reveal(child_settled);
    assert forall|a: int| 0 <= a < nb - 1 implies #[trigger] stack[a] == prestack[a] by {
        assert(stack[a] == base[a]);
        assert(base.drop_last()[a] == base[a]);
        assert(prestack.drop_last()[a] == prestack[a]);
    }
    assert(stack[nb - 1] == base[nb - 1]);
    assert(op_idx(stack[nb - 1]) == opened);
    assert(stack[nb - 1] is Calculate);
    assert forall|a: int|
        0 <= a < stack.len() && stack[a] is Calculate implies st[op_idx(#[trigger] stack[a])]
        == 1 by {
        if a < nb - 1 {
            assert(stack[a] == prestack[a]);
            assert(prest[op_idx(prestack[a])] == 1);
            assert(op_idx(prestack[a]) != opened);
        } else if a == nb - 1 {
            assert(op_idx(stack[a]) == opened);
        }
    }
    assert forall|a: int, b: int|
        0 <= a < b < stack.len() && stack[a] is Calculate && stack[b] is Calculate implies op_idx(
        #[trigger] stack[a],
    ) != op_idx(#[trigger] stack[b]) by {
        if b < nb - 1 {
            assert(stack[a] == prestack[a] && stack[b] == prestack[b]);
        } else if b == nb - 1 {
            assert(stack[a] == prestack[a]);
            assert(prest[op_idx(prestack[a])] == 1);
            assert(op_idx(stack[b]) == opened);
            assert(prest[opened] == 0);
        }
    }
    assert forall|a: int, c: int|
        0 <= a < stack.len() && stack[a] is Calculate && 0 <= c < dirs[op_idx(
            #[trigger] stack[a],
        )].1.children.len() implies child_settled(
        dirs,
        st,
        stack,
        a,
        #[trigger] dirs[op_idx(stack[a])].1.children[c],
    ) by {
        let ch = dirs[op_idx(stack[a])].1.children[c];
        if a == nb - 1 {
            assert(op_idx(stack[a]) == opened);
            let b = nb + c;
            assert(dirs[op_idx(stack[b])].0 == ch);
            assert(child_settled(dirs, st, stack, a, ch));
        } else if a < nb - 1 {
            assert(stack[a] == prestack[a]);
            assert(child_settled(dirs, prest, prestack, a, ch));
            if exists|t: int| 0 <= t < dirs.len() && dirs[t].0 == ch && prest[t] == 2 {
                let t = choose|t: int| 0 <= t < dirs.len() && dirs[t].0 == ch && prest[t] == 2;
                assert(st[t] == 2);
                assert(child_settled(dirs, st, stack, a, ch));
            } else {
                let b = choose|b: int|
                    a < b < prestack.len() && dirs[op_idx(#[trigger] prestack[b])].0 == ch;
                if b < prestack.len() - 1 {
                    assert(stack[b] == prestack[b]);
                    assert(child_settled(dirs, st, stack, a, ch));
                } else {
                    assert(dirs[opened].0 == ch);
                    assert(op_idx(stack[nb - 1]) == opened);
                    assert(a < nb - 1 < stack.len());
                    assert(child_settled(dirs, st, stack, a, ch));
                }
            }
        }
    }
}

/// After a directory is totalled — status set to done, total recorded,
/// row appended — every invariant of the main loop carries over.
#[verifier::rlimit(30)]
proof fn lemma_calculate_done(
    dirs: Seq<(Seq<char>, DirView)>,
    m: Map<Seq<char>, DirView>,
    prest: Seq<u8>,
    st: Seq<u8>,
    prestack: Seq<StackOp>,
    stack: Seq<StackOp>,
    preout: Seq<(Seq<char>, u64)>,
    newout: Seq<(Seq<char>, u64)>,
    vals: Seq<u64>,
    done: int,
    total: u64,
)
    requires
        snap_wf(dirs),
        m == snap_map(dirs),
        prestack.len() > 0,
        stack =~= prestack.drop_last(),
        prestack.last() is Calculate,
        op_idx(prestack.last()) == done,
        0 <= done < dirs.len(),
        dirs.len() == prest.len(),
        dirs.len() == vals.len(),
        st =~= prest.update(done, 2),
        prest[done] == 1,
        vals[done] == total,
        newout =~= preout.push((dirs[done].0, total)),
        total == dirs[done].1.size + spec_child_sum(dirs[done].1.children, sz_map(preout)),
        forall|cc: int|
            0 <= cc < dirs[done].1.children.len() ==> exists|t: int|
                0 <= t < dirs.len() && dirs[t].0 == #[trigger] dirs[done].1.children[cc] && prest[t]
                    == 2,
        forall|a: int| 0 <= a < prestack.len() ==> 0 <= op_idx(#[trigger] prestack[a]) < dirs.len(),
        forall|a: int|
            0 <= a < prestack.len() && prestack[a] is Calculate ==> prest[op_idx(
                #[trigger] prestack[a],
            )] == 1,
        forall|a: int, b: int|
            0 <= a < b < prestack.len() && prestack[a] is Calculate && prestack[b] is Calculate
                ==> op_idx(#[trigger] prestack[a]) != op_idx(#[trigger] prestack[b]),
        forall|a: int, c: int|
            0 <= a < prestack.len() && prestack[a] is Calculate && 0 <= c < dirs[op_idx(
                #[trigger] prestack[a],
            )].1.children.len() ==> child_settled(
                dirs,
                prest,
                prestack,
                a,
                #[trigger] dirs[op_idx(prestack[a])].1.children[c],
            ),
        forall|t: int|
            0 <= t < dirs.len() && #[trigger] prest[t] == 2 ==> sz_map(preout).contains_key(
                dirs[t].0,
            ) && sz_map(preout)[dirs[t].0] == vals[t],
        forall|j: int|
            0 <= j < preout.len() ==> exists|t: int|
                0 <= t < dirs.len() && dirs[t].0 == (#[trigger] preout[j]).0 && prest[t] == 2,
        sz_uniq(preout),
        forall|j: int| 0 <= j < preout.len() ==> spec_row_ok(m, preout, j),
    ensures
        forall|a: int|
            0 <= a < stack.len() && stack[a] is Calculate ==> st[op_idx(#[trigger] stack[a])] == 1,
        forall|a: int, c: int|
            0 <= a < stack.len() && stack[a] is Calculate && 0 <= c < dirs[op_idx(
                #[trigger] stack[a],
            )].1.children.len() ==> child_settled(
                dirs,
                st,
                stack,
                a,
                #[trigger] dirs[op_idx(stack[a])].1.children[c],
            ),
        forall|t: int|
            0 <= t < dirs.len() && #[trigger] st[t] == 2 ==> sz_map(newout).contains_key(dirs[t].0)
                && sz_map(newout)[dirs[t].0] == vals[t],
        forall|j: int|
            0 <= j < newout.len() ==> exists|t: int|
                0 <= t < dirs.len() && dirs[t].0 == (#[trigger] newout[j]).0 && st[t] == 2,
        sz_uniq(newout),
        forall|j: int| 0 <= j < newout.len() ==> spec_row_ok(m, newout, j),
{
    reveal(child_settled);
    reveal(spec_row_ok);
    lemma_sz_map(preout);
    // the done directory's key was not yet listed
    assert(!sz_map(preout).contains_key(dirs[done].0)) by {
        if sz_map(preout).contains_key(dirs[done].0) {
            let j = choose|j: int| 0 <= j < preout.len() && preout[j].0 == dirs[done].0;
            let t = choose|t: int|
                0 <= t < dirs.len() && dirs[t].0 == preout[j].0 && prest[t] == 2;
            assert(t != done);
            assert(dirs[t].0 == dirs[done].0);
            assert(false);
        }
    };
    assert forall|j: int| 0 <= j < preout.len() implies preout[j].0 != dirs[done].0 by {
        lemma_sz_map(preout);
        if preout[j].0 == dirs[done].0 {
            assert(exists|i: int| 0 <= i < preout.len() && preout[i].0 == dirs[done].0);
            assert(sz_map(preout).contains_key(dirs[done].0));
        }
    }
    assert(sz_uniq(newout)) by {
        assert forall|i: int, j: int| 0 <= i < j < newout.len() implies newout[i].0
            != newout[j].0 by {
            if j < newout.len() - 1 {
                assert(newout[i] == preout[i] && newout[j] == preout[j]);
            } else {
                assert(newout[i] == preout[i]);
                assert(newout[j].0 == dirs[done].0);
            }
        }
    }
    lemma_sz_map(newout);
    assert(sz_map(newout) == sz_map(preout).insert(dirs[done].0, total)) by {
        assert(newout.drop_last() =~= preout);
        assert(newout.last() == (dirs[done].0, total));
    }
    assert forall|a: int|
        0 <= a < stack.len() && stack[a] is Calculate implies st[op_idx(#[trigger] stack[a])]
        == 1 by {
        assert(stack[a] == prestack[a]);
        assert(op_idx(prestack[a]) != done);
    }
    assert forall|a: int, c: int|
        0 <= a < stack.len() && stack[a] is Calculate && 0 <= c < dirs[op_idx(
            #[trigger] stack[a],
        )].1.children.len() implies child_settled(
        dirs,
        st,
        stack,
        a,
        #[trigger] dirs[op_idx(stack[a])].1.children[c],
    ) by {
        assert(stack[a] == prestack[a]);
        let ch = dirs[op_idx(prestack[a])].1.children[c];
        assert(child_settled(dirs, prest, prestack, a, ch));
        if exists|t: int| 0 <= t < dirs.len() && dirs[t].0 == ch && prest[t] == 2 {
            let t = choose|t: int| 0 <= t < dirs.len() && dirs[t].0 == ch && prest[t] == 2;
            assert(st[t] == 2);
        } else {
            let b = choose|b: int|
                a < b < prestack.len() && dirs[op_idx(#[trigger] prestack[b])].0 == ch;
            if b < prestack.len() - 1 {
                assert(stack[b] == prestack[b]);
            } else {
                assert(dirs[done].0 == ch);
                assert(st[done] == 2);
            }
        }
    }
    assert forall|t: int|
        0 <= t < dirs.len() && #[trigger] st[t] == 2 implies sz_map(newout).contains_key(dirs[t].0)
        && sz_map(newout)[dirs[t].0] == vals[t] by {
        if t == done {
            assert(sz_map(newout)[dirs[done].0] == total);
        } else {
            assert(prest[t] == 2);
            assert(dirs[t].0 != dirs[done].0);
        }
    }
    assert forall|j: int| 0 <= j < newout.len() implies exists|t: int|
        0 <= t < dirs.len() && dirs[t].0 == (#[trigger] newout[j]).0 && st[t] == 2 by {
        if j < newout.len() - 1 {
            assert(newout[j] == preout[j]);
            let t = choose|t: int|
                0 <= t < dirs.len() && dirs[t].0 == (preout[j]).0 && prest[t] == 2;
            assert(t != done);
            assert(st[t] == 2);
        } else {
            assert(dirs[done].0 == newout[j].0 && st[done] == 2);
        }
    }
    lemma_snap_map(dirs);
    assert forall|j: int| 0 <= j < newout.len() implies spec_row_ok(m, newout, j) by {
        if j < newout.len() - 1 {
            assert(spec_row_ok(m, preout, j));
            assert(newout.take(j) =~= preout.take(j));
            assert(newout[j] == preout[j]);
            assert forall|cx: int|
                0 <= cx < m[newout[j].0].children.len() implies exists|jj: int|
                0 <= jj < j && newout[jj].0 == #[trigger] m[newout[j].0].children[cx] by {
                let jj = choose|jj: int|
                    0 <= jj < j && preout[jj].0 == m[preout[j].0].children[cx];
                assert(newout[jj] == preout[jj]);
            }
        } else {
            // the fresh row
            let p = newout[j].0;
            assert(p == dirs[done].0);
            assert(m.contains_key(p) && m[p] == dirs[done].1);
            assert(newout.take(j) =~= preout);
            assert forall|cx: int|
                0 <= cx < m[p].children.len() implies exists|jj: int|
                0 <= jj < j && newout[jj].0 == #[trigger] m[p].children[cx] by {
                let ch = m[p].children[cx];
                let t = choose|t: int| 0 <= t < dirs.len() && dirs[t].0 == ch && prest[t] == 2;
                assert(sz_map(preout).contains_key(ch));
                let jj = choose|jj: int| 0 <= jj < preout.len() && preout[jj].0 == ch;
                assert(newout[jj] == preout[jj]);
            }
            assert(newout[j].1 == m[p].size + spec_child_sum(m[p].children, sz_map(preout)));
        }
    }
}


/// One child link always points at an earlier row of a sound listing.
proof fn lemma_chain_step(
    m: Map<Seq<char>, DirView>,
    lst: Seq<(Seq<char>, u64)>,
    j: int,
    c: Seq<char>,
)
    requires
        forall|i: int| 0 <= i < lst.len() ==> #[trigger] spec_row_ok(m, lst, i),
        0 <= j < lst.len(),
        m.contains_key(lst[j].0),
        m[lst[j].0].children.contains(c),
    ensures
        exists|j2: int| 0 <= j2 < j && lst[j2].0 == c,
{
    reveal(spec_row_ok);
    assert(spec_row_ok(m, lst, j));
    let ci = choose|ci: int| 0 <= ci < m[lst[j].0].children.len() && m[lst[j].0].children[ci] == c;
    assert(exists|j2: int| 0 <= j2 < j && lst[j2].0 == m[lst[j].0].children[ci]);
}

/// Following a chain of child links from a listed directory descends
/// strictly through the listing.
proof fn lemma_chain_desc(
    m: Map<Seq<char>, DirView>,
    lst: Seq<(Seq<char>, u64)>,
    ks: Seq<Seq<char>>,
    t: int,
    j: int,
)
    requires
        forall|i: int| 0 <= i < lst.len() ==> #[trigger] spec_row_ok(m, lst, i),
        0 <= t < ks.len(),
        0 <= j < lst.len(),
        lst[j].0 == ks[t],
        forall|u: int|
            0 <= u < ks.len() - 1 ==> m.contains_key(#[trigger] ks[u]) && m[ks[u]].children.contains(
                ks[u + 1],
            ),
    ensures
        exists|j2: int|
            0 <= j2 < lst.len() && lst[j2].0 == ks[ks.len() - 1] && j2 <= j - (ks.len() - 1 - t),
    decreases ks.len() - t,
{
    if t == ks.len() - 1 {
        assert(0 <= j < lst.len() && lst[j].0 == ks[ks.len() - 1] && j <= j - (ks.len() - 1 - t));
    } else {
        lemma_chain_step(m, lst, j, ks[t + 1]);
        let jn = choose|j2: int| 0 <= j2 < j && lst[j2].0 == ks[t + 1];
        lemma_chain_desc(m, lst, ks, t + 1, jn);
    }
}

/// No cycle of child links can pass through any directory of a sound
/// size listing: the listing totals every child before its parent, so a
/// chain of child links starting at a totalled directory never returns
/// to its start.  A successful aggregation therefore certifies that the
/// directories it totalled — all of them reachable from the start path —
/// sit on no child-reference cycle.
pub proof fn lemma_no_cycle(
    m: Map<Seq<char>, DirView>,
    lst: Seq<(Seq<char>, u64)>,
    ks: Seq<Seq<char>>,
)
    requires
        sz_uniq(lst),
        forall|i: int| 0 <= i < lst.len() ==> #[trigger] spec_row_ok(m, lst, i),
        ks.len() >= 2,
        sz_map(lst).contains_key(ks[0]),
        forall|u: int|
            0 <= u < ks.len() - 1 ==> m.contains_key(#[trigger] ks[u]) && m[ks[u]].children.contains(
                ks[u + 1],
            ),
    ensures
        ks[0] != ks[ks.len() - 1],
{
    lemma_sz_map(lst);
    let j0 = choose|j: int| 0 <= j < lst.len() && lst[j].0 == ks[0];
    lemma_chain_desc(m, lst, ks, 0, j0);
    let j2 = choose|j2: int|
        0 <= j2 < lst.len() && lst[j2].0 == ks[ks.len() - 1] && j2 <= j0 - (ks.len() - 1);
    if ks[0] == ks[ks.len() - 1] {
        assert(lst[j2].0 == lst[j0].0);
        assert(j2 == j0);
        assert(false);
    }
}


/// Whether the pending total for chain level `u` still sits in the stack.
spec fn depth_calc(stack: Seq<StackOp>, owners: Seq<int>, chain: Seq<int>, u: int) -> bool {
    exists|a: int|
        0 <= a < stack.len() && stack[a] is Calculate && owners[a] == u + 1 && op_idx(stack[a])
            == chain[u]
}

/// The bookkeeping that ties the work stack to the open directories: the
/// open ones form, in opening order, a chain of child links, and every
/// stack entry belongs to the chain depth that pushed it — pending work
/// always hangs off the deepest open directory.
#[verifier::opaque]
spec fn chain_inv(
    dirs: Seq<(Seq<char>, DirView)>,
    st: Seq<u8>,
    stack: Seq<StackOp>,
    owners: Seq<int>,
    chain: Seq<int>,
    start_idx: int,
) -> bool {
    &&& 0 <= start_idx < st.len()
    &&& st.len() == dirs.len()
    &&& forall|u: int|
        0 <= u < chain.len() ==> 0 <= #[trigger] chain[u] < dirs.len() && st[chain[u]] == 1
    &&& forall|u: int, v: int|
        0 <= u < v < chain.len() ==> #[trigger] chain[u] != #[trigger] chain[v]
    &&& forall|t: int|
        0 <= t < st.len() && #[trigger] st[t] == 1 ==> exists|u: int|
            0 <= u < chain.len() && chain[u] == t
    &&& forall|u: int|
        0 <= u < chain.len() - 1 ==> dirs[#[trigger] chain[u]].1.children.contains(
            dirs[chain[u + 1]].0,
        )
    &&& owners.len() == stack.len()
    &&& forall|a: int, b: int|
        0 <= a < b < owners.len() ==> #[trigger] owners[a] <= #[trigger] owners[b]
    &&& forall|a: int| 0 <= a < owners.len() ==> 0 <= #[trigger] owners[a] <= chain.len()
    &&& forall|a: int|
        0 <= a < stack.len() && stack[a] is Calculate ==> 1 <= owners[a] && op_idx(
            #[trigger] stack[a],
        ) == chain[owners[a] - 1]
    &&& forall|a: int|
        0 <= a < stack.len() && stack[a] is Process && owners[a] >= 1 ==> dirs[chain[owners[a]
            - 1]].1.children.contains(dirs[op_idx(#[trigger] stack[a])].0)
    &&& forall|a: int|
        0 <= a < stack.len() && #[trigger] owners[a] == 0 ==> stack.len() == 1 && a == 0 && op_idx(
            stack[0],
        ) == start_idx && st[start_idx] == 0
    &&& forall|u: int| 0 <= u < chain.len() ==> #[trigger] depth_calc(stack, owners, chain, u)
    &&& forall|a: int, b: int|
        0 <= a < b < stack.len() && stack[b] is Calculate ==> #[trigger] owners[a]
            < #[trigger] owners[b]
}

/// The last stack entry always belongs to the deepest occupied level.
proof fn lemma_top_depth(
    dirs: Seq<(Seq<char>, DirView)>,
    st: Seq<u8>,
    stack: Seq<StackOp>,
    owners: Seq<int>,
    chain: Seq<int>,
    start_idx: int,
)
    requires
        chain_inv(dirs, st, stack, owners, chain, start_idx),
        stack.len() >= 1,
    ensures
        chain.len() >= 1 ==> owners[stack.len() - 1] == chain.len(),
        chain.len() == 0 ==> owners[stack.len() - 1] == 0,
{
    reveal(chain_inv);
    if chain.len() >= 1 {
        let u = chain.len() - 1;
        assert(depth_calc(stack, owners, chain, u));
        let a = choose|a: int|
            0 <= a < stack.len() && stack[a] is Calculate && owners[a] == u + 1 && op_idx(stack[a])
                == chain[u];
        if a < stack.len() - 1 {
            assert(owners[a] <= owners[stack.len() - 1]);
        }
    }
}

/// Popping a pending visit of an already-totalled directory keeps the
/// bookkeeping intact.
proof fn lemma_chain_skip(
    dirs: Seq<(Seq<char>, DirView)>,
    st: Seq<u8>,
    prestack: Seq<StackOp>,
    preowners: Seq<int>,
    chain: Seq<int>,
    start_idx: int,
)
    requires
        chain_inv(dirs, st, prestack, preowners, chain, start_idx),
        prestack.len() >= 1,
        prestack.last() is Process,
    ensures
        chain_inv(dirs, st, prestack.drop_last(), preowners.drop_last(), chain, start_idx),
{
    reveal(chain_inv);
    let stack = prestack.drop_last();
    let owners = preowners.drop_last();
    assert forall|a: int| 0 <= a < stack.len() implies #[trigger] stack[a] == prestack[a]
        && #[trigger] owners[a] == preowners[a] by {
        assert(prestack.drop_last()[a] == prestack[a]);
        assert(preowners.drop_last()[a] == preowners[a]);
    }
    assert forall|a: int|
        0 <= a < stack.len() && stack[a] is Calculate implies 1 <= owners[a] && op_idx(
        #[trigger] stack[a],
    ) == chain[owners[a] - 1] by {
        assert(stack[a] == prestack[a] && owners[a] == preowners[a]);
    }
    assert forall|a: int|
        0 <= a < stack.len() && stack[a] is Process && owners[a] >= 1 implies dirs[chain[owners[a]
        - 1]].1.children.contains(dirs[op_idx(#[trigger] stack[a])].0) by {
        assert(stack[a] == prestack[a] && owners[a] == preowners[a]);
    }
    assert forall|a: int, b: int|
        0 <= a < b < owners.len() implies #[trigger] owners[a] <= #[trigger] owners[b] by {
        assert(owners[a] == preowners[a] && owners[b] == preowners[b]);
    }
    assert forall|a: int, b: int|
        0 <= a < b < stack.len() && stack[b] is Calculate implies #[trigger] owners[a]
        < #[trigger] owners[b] by {
        assert(stack[b] == prestack[b]);
        assert(owners[a] == preowners[a] && owners[b] == preowners[b]);
    }
    assert forall|a: int| 0 <= a < owners.len() implies 0 <= #[trigger] owners[a]
        <= chain.len() by {
        assert(owners[a] == preowners[a]);
    }
    assert forall|a: int|
        0 <= a < stack.len() && #[trigger] owners[a] == 0 implies stack.len() == 1 && a == 0
        && op_idx(stack[0]) == start_idx && st[start_idx] == 0 by {
        assert(preowners[a] == 0);
        assert(prestack.len() == 1);
        assert(false);
    }
    assert forall|u: int| 0 <= u < chain.len() implies #[trigger] depth_calc(
        stack,
        owners,
        chain,
        u,
    ) by {
        assert(depth_calc(prestack, preowners, chain, u));
        let a = choose|a: int|
            0 <= a < prestack.len() && prestack[a] is Calculate && preowners[a] == u + 1 && op_idx(
                prestack[a],
            ) == chain[u];
        assert(a < prestack.len() - 1);
        assert(stack[a] == prestack[a] && owners[a] == preowners[a]);
    }
}

/// Opening a directory — marking it open, appending it to the chain,
/// pushing its Calculate and one visit per child — keeps the bookkeeping
/// intact, and hangs the new directory off the previously deepest one.
#[verifier::rlimit(50)]
proof fn lemma_chain_open(
    dirs: Seq<(Seq<char>, DirView)>,
    prest: Seq<u8>,
    st: Seq<u8>,
    prestack: Seq<StackOp>,
    base: Seq<StackOp>,
    stack: Seq<StackOp>,
    preowners: Seq<int>,
    owners: Seq<int>,
    prechain: Seq<int>,
    chain: Seq<int>,
    start_idx: int,
    opened: int,
)
    requires
        chain_inv(dirs, prest, prestack, preowners, prechain, start_idx),
        prestack.len() >= 1,
        prestack.last() is Process,
        op_idx(prestack.last()) == opened,
        0 <= opened < dirs.len(),
        prest[opened] == 0,
        st =~= prest.update(opened, 1),
        chain =~= prechain.push(opened),
        base.len() == prestack.len(),
        base.drop_last() =~= prestack.drop_last(),
        base.last() is Calculate,
        op_idx(base.last()) == opened,
        stack.len() == base.len() + dirs[opened].1.children.len(),
        forall|a: int| 0 <= a < base.len() ==> #[trigger] stack[a] == base[a],
        forall|a: int|
            base.len() <= a < stack.len() ==> (#[trigger] stack[a]) is Process && 0 <= op_idx(
                stack[a],
            ) < dirs.len() && dirs[op_idx(stack[a])].0 == dirs[opened].1.children[a - base.len()],
        owners.len() == stack.len(),
        forall|a: int| 0 <= a < base.len() - 1 ==> #[trigger] owners[a] == preowners[a],
        forall|a: int|
            base.len() - 1 <= a < owners.len() ==> #[trigger] owners[a] == prechain.len() + 1,
    ensures
        chain_inv(dirs, st, stack, owners, chain, start_idx),
{
    lemma_top_depth(dirs, prest, prestack, preowners, prechain, start_idx);
    reveal(chain_inv);
    let nb = base.len();
    let loy = preowners[prestack.len() - 1];
    assert forall|a: int| 0 <= a < nb - 1 implies #[trigger] base[a] == prestack[a] by {
        assert(base.drop_last()[a] == base[a]);
        assert(prestack.drop_last()[a] == prestack[a]);
    }
    assert forall|u: int| 0 <= u < chain.len() implies 0 <= #[trigger] chain[u] < dirs.len()
        && st[chain[u]] == 1 by {
        if u < chain.len() - 1 {
            assert(chain[u] == prechain[u]);
            assert(prest[prechain[u]] == 1);
            assert(prechain[u] != opened);
        }
    }
    assert forall|u: int, v: int|
        0 <= u < v < chain.len() implies #[trigger] chain[u] != #[trigger] chain[v] by {
        if v < chain.len() - 1 {
            assert(chain[u] == prechain[u] && chain[v] == prechain[v]);
        } else {
            assert(chain[u] == prechain[u]);
            assert(prest[prechain[u]] == 1 && prest[opened] == 0);
        }
    }
    assert forall|t: int|
        0 <= t < st.len() && #[trigger] st[t] == 1 implies exists|u: int|
        0 <= u < chain.len() && chain[u] == t by {
        if t == opened {
            assert(chain[chain.len() - 1] == t);
        } else {
            assert(prest[t] == 1);
            let u = choose|u: int| 0 <= u < prechain.len() && prechain[u] == t;
            assert(chain[u] == t);
        }
    }
    assert forall|u: int|
        0 <= u < chain.len() - 1 implies dirs[#[trigger] chain[u]].1.children.contains(
        dirs[chain[u + 1]].0,
    ) by {
        if u < chain.len() - 2 {
            assert(chain[u] == prechain[u] && chain[u + 1] == prechain[u + 1]);
        } else {
            assert(loy == prechain.len());
            assert(chain[u] == prechain[prechain.len() - 1]);
            assert(chain[u + 1] == opened);
            assert(dirs[prechain[loy - 1]].1.children.contains(dirs[opened].0));
        }
    }
    assert forall|a: int, b: int|
        0 <= a < b < owners.len() implies #[trigger] owners[a] <= #[trigger] owners[b] by {
        if b < nb - 1 {
            assert(owners[a] == preowners[a] && owners[b] == preowners[b]);
        } else if a < nb - 1 {
            assert(owners[a] == preowners[a]);
            assert(preowners[a] <= prechain.len());
        }
    }
    assert forall|a: int| 0 <= a < owners.len() implies 0 <= #[trigger] owners[a]
        <= chain.len() by {
        if a < nb - 1 {
            assert(owners[a] == preowners[a]);
            assert(preowners[a] <= prechain.len());
        }
    }
    assert forall|a: int|
        0 <= a < stack.len() && stack[a] is Calculate implies 1 <= owners[a] && op_idx(
        #[trigger] stack[a],
    ) == chain[owners[a] - 1] by {
        if a < nb - 1 {
            assert(stack[a] == base[a] && base[a] == prestack[a]);
            assert(owners[a] == preowners[a]);
            assert(chain[preowners[a] - 1] == prechain[preowners[a] - 1]);
        } else if a == nb - 1 {
            assert(owners[a] == prechain.len() + 1);
            assert(chain[chain.len() - 1] == opened);
        }
    }
    assert forall|a: int|
        0 <= a < stack.len() && stack[a] is Process && owners[a] >= 1 implies dirs[chain[owners[a]
        - 1]].1.children.contains(dirs[op_idx(#[trigger] stack[a])].0) by {
        if a < nb - 1 {
            assert(stack[a] == base[a] && base[a] == prestack[a]);
            assert(owners[a] == preowners[a]);
            assert(chain[preowners[a] - 1] == prechain[preowners[a] - 1]);
        } else if a >= nb {
            assert(owners[a] == prechain.len() + 1);
            assert(chain[prechain.len() as int] == opened);
            assert(dirs[op_idx(stack[a])].0 == dirs[opened].1.children[a - nb]);
            assert(dirs[opened].1.children.contains(dirs[opened].1.children[a - nb]));
        }
    }
    assert forall|a: int|
        0 <= a < stack.len() && #[trigger] owners[a] == 0 implies stack.len() == 1 && a == 0
        && op_idx(stack[0]) == start_idx && st[start_idx] == 0 by {
        if a < nb - 1 {
            assert(owners[a] == preowners[a]);
            assert(prestack.len() == 1);
            assert(false);
        } else {
            assert(owners[a] == prechain.len() + 1);
        }
    }
    assert forall|u: int| 0 <= u < chain.len() implies #[trigger] depth_calc(
        stack,
        owners,
        chain,
        u,
    ) by {
        if u < chain.len() - 1 {
            assert(depth_calc(prestack, preowners, prechain, u));
            let a = choose|a: int|
                0 <= a < prestack.len() && prestack[a] is Calculate && preowners[a] == u + 1
                    && op_idx(prestack[a]) == prechain[u];
            assert(a < prestack.len() - 1);
            assert(stack[a] == base[a] && base[a] == prestack[a]);
            assert(owners[a] == preowners[a]);
            assert(chain[u] == prechain[u]);
        } else {
            assert(stack[nb - 1] == base[nb - 1]);
            assert(stack[nb - 1] is Calculate);
            assert(owners[nb - 1] == prechain.len() + 1);
            assert(op_idx(stack[nb - 1]) == opened);
            assert(chain[u] == opened);
        }
    }
    assert forall|a: int, b: int|
        0 <= a < b < stack.len() && stack[b] is Calculate implies #[trigger] owners[a]
        < #[trigger] owners[b] by {
        if b < nb - 1 {
            assert(stack[a] == prestack[a] && stack[b] == prestack[b]);
            assert(owners[a] == preowners[a] && owners[b] == preowners[b]);
        } else if b == nb - 1 {
            assert(owners[b] == prechain.len() + 1);
            assert(owners[a] == preowners[a]);
            assert(preowners[a] <= prechain.len());
        }
    }
}

/// Totalling the deepest open directory closes exactly the last chain
/// level and keeps the bookkeeping intact.
proof fn lemma_chain_close(
    dirs: Seq<(Seq<char>, DirView)>,
    prest: Seq<u8>,
    st: Seq<u8>,
    prestack: Seq<StackOp>,
    preowners: Seq<int>,
    prechain: Seq<int>,
    start_idx: int,
    idx: int,
)
    requires
        chain_inv(dirs, prest, prestack, preowners, prechain, start_idx),
        prestack.len() >= 1,
        prestack.last() is Calculate,
        op_idx(prestack.last()) == idx,
        0 <= idx < dirs.len(),
        st =~= prest.update(idx, 2),
    ensures
        prechain.len() >= 1,
        prechain.last() == idx,
        chain_inv(
            dirs,
            st,
            prestack.drop_last(),
            preowners.drop_last(),
            prechain.drop_last(),
            start_idx,
        ),
{
    lemma_top_depth(dirs, prest, prestack, preowners, prechain, start_idx);
    reveal(chain_inv);
    let pl = prestack.len() - 1;
    assert(preowners[pl] >= 1);
    assert(prechain.len() >= 1);
    assert(preowners[pl] == prechain.len());
    assert(prechain[prechain.len() - 1] == idx);
    let stack = prestack.drop_last();
    let owners = preowners.drop_last();
    let chain = prechain.drop_last();
    assert forall|a: int| 0 <= a < stack.len() implies #[trigger] stack[a] == prestack[a]
        && #[trigger] owners[a] == preowners[a] by {
        assert(prestack.drop_last()[a] == prestack[a]);
        assert(preowners.drop_last()[a] == preowners[a]);
    }
    assert forall|u: int| 0 <= u < chain.len() implies #[trigger] chain[u] == prechain[u] by {
        assert(prechain.drop_last()[u] == prechain[u]);
    }
    assert forall|a: int| 0 <= a < owners.len() implies 0 <= #[trigger] owners[a]
        <= chain.len() by {
        assert(owners[a] == preowners[a]);
        assert(preowners[a] < preowners[pl]);
    }
    assert forall|a: int, b: int|
        0 <= a < b < owners.len() implies #[trigger] owners[a] <= #[trigger] owners[b] by {
        assert(owners[a] == preowners[a] && owners[b] == preowners[b]);
    }
    assert forall|a: int, b: int|
        0 <= a < b < stack.len() && stack[b] is Calculate implies #[trigger] owners[a]
        < #[trigger] owners[b] by {
        assert(stack[b] == prestack[b]);
        assert(owners[a] == preowners[a] && owners[b] == preowners[b]);
    }
    assert forall|u: int, v: int|
        0 <= u < v < chain.len() implies #[trigger] chain[u] != #[trigger] chain[v] by {
        assert(chain[u] == prechain[u] && chain[v] == prechain[v]);
    }
    assert forall|u: int| 0 <= u < chain.len() implies 0 <= #[trigger] chain[u] < dirs.len()
        && st[chain[u]] == 1 by {
        assert(chain[u] == prechain[u]);
        assert(prechain[u] != prechain[prechain.len() - 1]);
    }
    assert forall|t: int|
        0 <= t < st.len() && #[trigger] st[t] == 1 implies exists|u: int|
        0 <= u < chain.len() && chain[u] == t by {
        assert(prest[t] == 1);
        let u = choose|u: int| 0 <= u < prechain.len() && prechain[u] == t;
        assert(t != idx);
        assert(u < prechain.len() - 1);
        assert(chain[u] == t);
    }
    assert forall|u: int|
        0 <= u < chain.len() - 1 implies dirs[#[trigger] chain[u]].1.children.contains(
        dirs[chain[u + 1]].0,
    ) by {
        assert(chain[u] == prechain[u] && chain[u + 1] == prechain[u + 1]);
    }
    assert forall|a: int|
        0 <= a < stack.len() && stack[a] is Calculate implies 1 <= owners[a] && op_idx(
        #[trigger] stack[a],
    ) == chain[owners[a] - 1] by {
        assert(stack[a] == prestack[a] && owners[a] == preowners[a]);
        assert(preowners[a] < preowners[pl]);
        assert(chain[preowners[a] - 1] == prechain[preowners[a] - 1]);
    }
    assert forall|a: int|
        0 <= a < stack.len() && stack[a] is Process && owners[a] >= 1 implies dirs[chain[owners[a]
        - 1]].1.children.contains(dirs[op_idx(#[trigger] stack[a])].0) by {
        assert(stack[a] == prestack[a] && owners[a] == preowners[a]);
        assert(preowners[a] < preowners[pl]);
        assert(chain[preowners[a] - 1] == prechain[preowners[a] - 1]);
    }
    assert forall|a: int|
        0 <= a < stack.len() && #[trigger] owners[a] == 0 implies stack.len() == 1 && a == 0
        && op_idx(stack[0]) == start_idx && st[start_idx] == 0 by {
        assert(preowners[a] == 0);
        assert(prestack.len() == 1);
        assert(prestack[0] is Process);
        assert(false);
    }
    assert forall|u: int| 0 <= u < chain.len() implies #[trigger] depth_calc(
        stack,
        owners,
        chain,
        u,
    ) by {
        assert(chain[u] == prechain[u]);
        assert(depth_calc(prestack, preowners, prechain, u));
        let a = choose|a: int|
            0 <= a < prestack.len() && prestack[a] is Calculate && preowners[a] == u + 1 && op_idx(
                prestack[a],
            ) == prechain[u];
        assert(preowners[a] < preowners[pl]);
        assert(a != pl);
        assert(stack[a] == prestack[a] && owners[a] == preowners[a]);
    }
}

/// Meeting a directory that is still open refutes every sound listing:
/// the open chain from that directory down to the one that pushed the
/// pending visit, closed by the child link just followed, is a cycle,
/// and a sound listing admits none through a totalled directory.
proof fn lemma_chain_cycle(
    dirs: Seq<(Seq<char>, DirView)>,
    st: Seq<u8>,
    prestack: Seq<StackOp>,
    preowners: Seq<int>,
    chain: Seq<int>,
    start_idx: int,
    idx: int,
    start: Seq<char>,
)
    requires
        snap_wf(dirs),
        chain_inv(dirs, st, prestack, preowners, chain, start_idx),
        prestack.len() >= 1,
        prestack.last() is Process,
        op_idx(prestack.last()) == idx,
        0 <= idx < dirs.len(),
        st[idx] == 1,
        spec_reachable(snap_map(dirs), start, dirs[idx].0),
    ensures
        spec_on_cycle(snap_map(dirs), dirs[idx].0),
        !(exists|lst: Seq<(Seq<char>, u64)>| spec_sizes_ok(snap_map(dirs), lst, start)),
{
    lemma_top_depth(dirs, st, prestack, preowners, chain, start_idx);
    reveal(chain_inv);
    lemma_snap_map(dirs);
    let m = snap_map(dirs);
    let key = dirs[idx].0;
    assert(exists|u: int| 0 <= u < chain.len() && chain[u] == idx);
    let t = choose|u: int| 0 <= u < chain.len() && chain[u] == idx;
    let pl = prestack.len() - 1;
    let lo = preowners[pl];
    assert(chain.len() >= 1);
    assert(lo >= 1) by {
        if lo == 0 {
            assert(st[start_idx] == 0);
            assert(prestack.len() == 1);
            assert(op_idx(prestack[0]) == start_idx);
            assert(idx == start_idx);
        }
    }
    assert(lo == chain.len());
    assert(dirs[chain[lo - 1]].1.children.contains(dirs[idx].0));
    let ks = Seq::new(
        (lo - t + 1) as nat,
        |v: int|
            if v < lo - t {
                dirs[chain[t + v]].0
            } else {
                dirs[idx].0
            },
    );
    assert(ks.len() == lo - t + 1 >= 2);
    assert(ks.first() == dirs[chain[t]].0);
    assert(ks.last() == key);
    assert(spec_is_path(m, ks)) by {
        reveal(spec_is_path);
        assert forall|w: int|
            0 <= w < ks.len() - 1 implies m.contains_key(#[trigger] ks[w])
            && m[ks[w]].children.contains(ks[w + 1]) by {
            assert(ks[w] == dirs[chain[t + w]].0);
            assert(exists|i: int| 0 <= i < dirs.len() && dirs[i].0 == ks[w]);
            assert(m.contains_key(ks[w]));
            assert(m[ks[w]] == dirs[chain[t + w]].1);
            if w + 1 < ks.len() - 1 {
                assert(ks[w + 1] == dirs[chain[t + w + 1]].0);
            } else {
                assert(t + w == lo - 1);
                assert(ks[w + 1] == dirs[idx].0);
            }
        }
    }
    assert(spec_on_cycle(m, key)) by {
        reveal(spec_on_cycle);
    }
    if exists|lst: Seq<(Seq<char>, u64)>| spec_sizes_ok(m, lst, start) {
        let lst2 = choose|lst: Seq<(Seq<char>, u64)>| spec_sizes_ok(m, lst, start);
        lemma_reachable_listed(m, lst2, start, key);
        reveal(spec_is_path);
        lemma_no_cycle(m, lst2, ks);
        assert(false);
    }
}

} // verus!
