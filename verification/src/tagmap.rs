//! A mapping from repository identifiers to release tags, stored as a
//! vector of key/value pairs with pairwise-distinct keys.

use vstd::prelude::*;
use vstd::pervasive::VecAdditionalExecFns;

verus! {

/// True when no two entries share a key.
pub open spec fn distinct_keys(es: Seq<(Seq<char>, Seq<char>)>) -> bool {
    forall|i: int, j: int| 0 <= i < j < es.len() ==> es[i].0 != es[j].0
}

/// The mapping denoted by a sequence of key/value pairs; on duplicate
/// keys the later entry wins.
pub open spec fn map_of(es: Seq<(Seq<char>, Seq<char>)>) -> Map<Seq<char>, Seq<char>>
    decreases es.len(),
{
    if es.len() == 0 {
        Map::empty()
    } else {
        map_of(es.drop_last()).insert(es.last().0, es.last().1)
    }
}

/// A set of repository-to-tag associations: the Release Cache and the
/// per-cycle Change Set are both values of this type.
pub struct TagMap {
    entries: Vec<(String, String)>,
}

impl View for TagMap {
    type V = Map<Seq<char>, Seq<char>>;

    closed spec fn view(&self) -> Map<Seq<char>, Seq<char>> {
        map_of(self.entries_seq())
    }
}

impl TagMap {
    /// The stored entries, by view, in storage order.
    pub closed spec fn entries_seq(&self) -> Seq<(Seq<char>, Seq<char>)> {
        self.entries@.map_values(|e: (String, String)| (e.0@, e.1@))
    }

    /// Well-formed: no key occurs twice.
    pub open spec fn wf(&self) -> bool {
        distinct_keys(self.entries_seq())
    }

    pub fn new() -> (c: TagMap)
        ensures
            c.wf(),
            c.entries_seq() == Seq::<(Seq<char>, Seq<char>)>::empty(),
            c@ == Map::<Seq<char>, Seq<char>>::empty(),
    {
        let c = TagMap { entries: Vec::new() };
        proof {
            assert(c.entries_seq() =~= Seq::<(Seq<char>, Seq<char>)>::empty());
        }
        c
    }

    pub fn len(&self) -> (n: usize)
        ensures
            n == self.entries_seq().len(),
    {
        self.entries.len()
    }

    pub fn is_empty(&self) -> (r: bool)
        ensures
            r == (self.entries_seq().len() == 0),
    {
        self.entries.len() == 0
    }

    pub fn key_at(&self, i: usize) -> (k: &String)
        requires
            i < self.entries_seq().len(),
        ensures
            k@ == self.entries_seq()[i as int].0,
    {
        &self.entries[i].0
    }

    pub fn tag_at(&self, i: usize) -> (t: &String)
        requires
            i < self.entries_seq().len(),
        ensures
            t@ == self.entries_seq()[i as int].1,
    {
        &self.entries[i].1
    }

    /// The tag recorded for `k`, if any.
    pub fn get(&self, k: &String) -> (r: Option<&String>)
        requires
            self.wf(),
        ensures
            match r {
                Some(v) => self@.contains_key(k@) && v@ == self@[k@],
                None => !self@.contains_key(k@),
            },
    {
        let n: usize = self.entries.len();
        let mut i: usize = 0;
        while i < n
            invariant
                n == self.entries_seq().len(),
                i <= n,
                self.wf(),
                forall|j: int| 0 <= j < i ==> self.entries_seq()[j].0 != k@,
            decreases n - i,
        {
            if self.entries[i].0 == *k {
                proof {
                    lemma_map_of_index(self.entries_seq(), i as int);
                }
                return Some(&self.entries[i].1);
            }
            i = i + 1;
        }
        proof {
            lemma_map_of_absent(self.entries_seq(), k@);
        }
        None
    }

    /// Records `v` for `k`: replaces the entry holding `k`, or appends
    /// a fresh one.
    pub fn upsert(&mut self, k: &String, v: &String)
        requires
            old(self).wf(),
        ensures
            final(self).wf(),
            final(self)@ == old(self)@.insert(k@, v@),
            !old(self)@.contains_key(k@) ==> final(self).entries_seq()
                == old(self).entries_seq().push((k@, v@)),
            old(self)@.contains_key(k@) ==> (exists|j: int|
                0 <= j < old(self).entries_seq().len()
                    && old(self).entries_seq()[j].0 == k@
                    && final(self).entries_seq() == old(self).entries_seq().update(j, (k@, v@))),
    {
        let n: usize = self.entries.len();
        let mut i: usize = 0;
        while i < n
            invariant
                n == self.entries_seq().len(),
                i <= n,
                self.wf(),
                self == old(self),
                forall|j: int| 0 <= j < i ==> self.entries_seq()[j].0 != k@,
            decreases n - i,
        {
            if self.entries[i].0 == *k {
                proof {
                    lemma_map_of_index(self.entries_seq(), i as int);
                }
                self.entries.set(i, (k.clone(), v.clone()));
                proof {
                    assert(self.entries_seq() =~= old(self).entries_seq().update(
                        i as int,
                        (k@, v@),
                    ));
                    lemma_map_of_update(old(self).entries_seq(), i as int, v@);
                    assert(self@ == old(self)@.insert(k@, v@));
                }
                return ;
            }
            i = i + 1;
        }
        proof {
            lemma_map_of_absent(self.entries_seq(), k@);
        }
        self.entries.push((k.clone(), v.clone()));
        proof {
            assert(self.entries_seq() =~= old(self).entries_seq().push((k@, v@)));
            assert(self.entries_seq().drop_last() =~= old(self).entries_seq());
        }
    }
}

/// The mapping a `TagMap` denotes is exactly the one its entries
/// denote.
pub proof fn lemma_view_is_map_of(c: &TagMap)
    ensures
        c@ == map_of(c.entries_seq()),
{
}

/// An entry's key is in the denoted mapping, and when keys are
/// distinct it is mapped to that entry's value.
pub proof fn lemma_map_of_index(es: Seq<(Seq<char>, Seq<char>)>, j: int)
    requires
        distinct_keys(es),
        0 <= j < es.len(),
    ensures
        map_of(es).contains_key(es[j].0),
        map_of(es)[es[j].0] == es[j].1,
    decreases es.len(),
{
    if j == es.len() - 1 {
    } else {
        lemma_map_of_index(es.drop_last(), j);
    }
}

/// A key held by no entry is outside the denoted mapping.
pub proof fn lemma_map_of_absent(es: Seq<(Seq<char>, Seq<char>)>, k: Seq<char>)
    requires
        forall|j: int| 0 <= j < es.len() ==> es[j].0 != k,
    ensures
        !map_of(es).contains_key(k),
    decreases es.len(),
{
    if es.len() > 0 {
        lemma_map_of_absent(es.drop_last(), k);
    }
}

/// Updating the entry that holds a key denotes the same mapping as
/// inserting the new value for that key.
pub proof fn lemma_map_of_update(es: Seq<(Seq<char>, Seq<char>)>, j: int, v: Seq<char>)
    requires
        distinct_keys(es),
        0 <= j < es.len(),
    ensures
        map_of(es.update(j, (es[j].0, v))) == map_of(es).insert(es[j].0, v),
    decreases es.len(),
{
    let k = es[j].0;
    if j == es.len() - 1 {
        assert(es.update(j, (k, v)).drop_last() =~= es.drop_last());
        assert(map_of(es.update(j, (k, v))) =~= map_of(es).insert(k, v));
    } else {
        lemma_map_of_update(es.drop_last(), j, v);
        assert(es.update(j, (k, v)).drop_last() =~= es.drop_last().update(j, (k, v)));
        assert(es.update(j, (k, v)).last() == es.last());
        assert(map_of(es.update(j, (k, v))) == map_of(es.drop_last().update(j, (k, v))).insert(
            es.last().0,
            es.last().1,
        ));
        assert(map_of(es.drop_last()).insert(k, v).insert(es.last().0, es.last().1)
            =~= map_of(es.drop_last()).insert(es.last().0, es.last().1).insert(k, v));
    }
}

} // verus!
