//! The snapshot: a mapping from normalized directory path to directory
//! record, held as an ordered sequence of pairs with pairwise-distinct
//! keys.

use vstd::prelude::*;

use crate::record::Dir;
use crate::record::DirView;

verus! {

/// The full mapping from directory path to directory record for one scan.
#[derive(Debug)]
pub struct Snapshot {
    pub entries: Vec<(String, Dir)>,
}

impl View for Snapshot {
    type V = Seq<(Seq<char>, DirView)>;

    open spec fn view(&self) -> Seq<(Seq<char>, DirView)> {
        self.entries@.map_values(|p: (String, Dir)| (p.0@, p.1@))
    }
}

/// Well-formed: no two entries share a key.
pub open spec fn snap_wf(s: Seq<(Seq<char>, DirView)>) -> bool {
    forall|i: int, j: int| 0 <= i < j < s.len() ==> s[i].0 != s[j].0
}

/// The mapping that an entry sequence denotes; a later entry would win,
/// though a well-formed sequence never repeats a key.
pub open spec fn snap_map(s: Seq<(Seq<char>, DirView)>) -> Map<Seq<char>, DirView>
    decreases s.len(),
{
    if s.len() == 0 {
        Map::empty()
    } else {
        snap_map(s.drop_last()).insert(s.last().0, s.last().1)
    }
}

/// How the mapping reads off the sequence: its keys are exactly the keys
/// of the entries, and under well-formedness each key maps to its entry's
/// record.
pub proof fn lemma_snap_map(s: Seq<(Seq<char>, DirView)>)
    ensures
        forall|k: Seq<char>|
            #[trigger] snap_map(s).contains_key(k) <==> exists|i: int|
                0 <= i < s.len() && s[i].0 == k,
        snap_wf(s) ==> forall|i: int|
            0 <= i < s.len() ==> snap_map(s).contains_key(#[trigger] s[i].0) && snap_map(s)[s[i].0]
                == s[i].1,
    decreases s.len(),
{
    if s.len() > 0 {
        lemma_snap_map(s.drop_last());
        assert forall|k: Seq<char>| #[trigger]
            snap_map(s).contains_key(k) implies exists|i: int| 0 <= i < s.len() && s[i].0 == k by {
            if k == s.last().0 {
                assert(s[s.len() - 1].0 == k);
            } else {
                assert(snap_map(s.drop_last()).contains_key(k));
                let i = choose|i: int| 0 <= i < s.drop_last().len() && s.drop_last()[i].0 == k;
                assert(s.drop_last()[i] == s[i]);
                assert(s[i].0 == k);
            }
        }
        assert forall|k: Seq<char>|
            (exists|i: int| 0 <= i < s.len() && s[i].0 == k) implies #[trigger] snap_map(
            s,
        ).contains_key(k) by {
            let i = choose|i: int| 0 <= i < s.len() && s[i].0 == k;
            if i < s.len() - 1 {
                assert(s.drop_last()[i].0 == k);
                assert(exists|j: int| 0 <= j < s.drop_last().len() && s.drop_last()[j].0 == k);
                assert(snap_map(s.drop_last()).contains_key(k));
            }
        }
        if snap_wf(s) {
            assert forall|i: int, j: int|
                0 <= i < j < s.drop_last().len() implies s.drop_last()[i].0
                != s.drop_last()[j].0 by {
                assert(s[i].0 != s[j].0);
            }
            assert forall|i: int| 0 <= i < s.len() implies snap_map(s).contains_key(
                #[trigger] s[i].0,
            ) && snap_map(s)[s[i].0] == s[i].1 by {
                if i < s.len() - 1 {
                    assert(s.drop_last()[i].0 == s[i].0);
                    assert(s[i].0 != s.last().0);
                }
            }
        }
    }
}

impl Snapshot {
    /// An empty snapshot.
    pub fn new() -> (s: Snapshot)
        ensures
            s@ == Seq::<(Seq<char>, DirView)>::empty(),
    {
        let s = Snapshot { entries: Vec::new() };
        proof {
            assert(s@ =~= Seq::<(Seq<char>, DirView)>::empty());
        }
        s
    }

    /// How many directories the snapshot holds.
    pub fn len(&self) -> (n: usize)
        ensures
            n == self@.len(),
    {
        self.entries.len()
    }

    /// The entry at a position, for walking the snapshot from outside.
    pub fn entry_at(&self, i: usize) -> (e: &(String, Dir))
        requires
            i < self@.len(),
        ensures
            e.0@ == self@[i as int].0,
            e.1@ == self@[i as int].1,
    {
        &self.entries[i]
    }

    /// Index of the entry keyed `key`, if one exists.
    pub fn find_idx(&self, key: &String) -> (r: Option<usize>)
        ensures
            match r {
                Some(i) => i < self@.len() && self@[i as int].0 == key@,
                None => forall|i: int| 0 <= i < self@.len() ==> self@[i].0 != key@,
            },
    {
        let mut i: usize = 0;
        while i < self.entries.len()
            invariant
                i <= self.entries.len(),
                forall|j: int| 0 <= j < i ==> self@[j].0 != key@,
            decreases self.entries.len() - i,
        {
            if self.entries[i].0 == *key {
                assert(self@[i as int].0 == key@);
                return Some(i);
            }
            i = i + 1;
        }
        None
    }

    /// The record of the directory keyed `key`, if one exists.
    pub fn get(&self, key: &String) -> (r: Option<&Dir>)
        ensures
            match r {
                Some(d) => snap_map(self@).contains_key(key@) && (snap_wf(self@) ==> d@ == snap_map(
                    self@,
                )[key@]),
                None => !snap_map(self@).contains_key(key@),
            },
    {
        proof {
            lemma_snap_map(self@);
        }
        match self.find_idx(key) {
            Some(i) => Some(&self.entries[i].1),
            None => {
                proof {
                    if snap_map(self@).contains_key(key@) {
                        let i = choose|i: int| 0 <= i < self@.len() && self@[i].0 == key@;
                    }
                }
                None
            },
        }
    }

    /// Appends an entry under a key not yet present.
    pub fn insert_new(&mut self, key: String, d: Dir)
        ensures
            final(self)@ == old(self)@.push((key@, d@)),
    {
        let ghost kv = key@;
        let ghost dv = d@;
        self.entries.push((key, d));
        proof {
            assert(self@ =~= old(self)@.push((kv, dv)));
        }
    }

    /// Replaces the record at position `i`, keeping its key.
    pub fn replace_at(&mut self, i: usize, d: Dir)
        requires
            i < old(self)@.len(),
        ensures
            final(self)@ == old(self)@.update(i as int, (old(self)@[i as int].0, d@)),
    {
        let ghost dv = d@;
        let (key, _discarded) = self.entries.remove(i);
        let ghost kv = key@;
        self.entries.insert(i, (key, d));
        proof {
            assert(self@ =~= old(self)@.update(i as int, (kv, dv)));
        }
    }

    /// Removes the record at position `i` and hands it out, so that a
    /// caller can put a reworked record back with [`Snapshot::restore_at`].
    pub fn take_at(&mut self, i: usize) -> (r: (String, Dir))
        requires
            i < old(self)@.len(),
        ensures
            r.0@ == old(self)@[i as int].0,
            r.1@ == old(self)@[i as int].1,
            final(self)@ == old(self)@.remove(i as int),
    {
        self.entries.remove(i)
    }

    /// Puts an entry back at position `i`.
    pub fn restore_at(&mut self, i: usize, key: String, d: Dir)
        requires
            i <= old(self)@.len(),
        ensures
            final(self)@ == old(self)@.insert(i as int, (key@, d@)),
    {
        let ghost kv = key@;
        let ghost dv = d@;
        self.entries.insert(i, (key, d));
        proof {
            assert(self@ =~= old(self)@.insert(i as int, (kv, dv)));
        }
    }
}

} // verus!
