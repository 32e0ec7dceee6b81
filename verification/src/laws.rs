//! Laws of the poll cycle and the persisted cache, proved once and for
//! all over the spec-level models that the executable contracts use.

use vstd::prelude::*;
use crate::tagmap::{TagMap, map_of, lemma_view_is_map_of};
use crate::codec::{cache_text, spec_parse_cache, lemma_cache_text_round_trip};
use crate::cycle::{cycle_cache, cycle_changes, distinct_obs_keys, lemma_cycle_cache_frame,
    lemma_cycle_cache_observed, lemma_cycle_changes_keys};

verus! {

/// A repository never previously cached never enters the Change Set:
/// its first observed tag is written to the cache and no notification
/// entry is made for it.
pub proof fn lemma_first_observation_silent(
    m: Map<Seq<char>, Seq<char>>,
    o: Seq<(Seq<char>, Option<Seq<char>>)>,
    i: int,
)
    requires
        distinct_obs_keys(o),
        0 <= i < o.len(),
        !m.contains_key(o[i].0),
        o[i].1 is Some,
    ensures
        cycle_cache(m, o).contains_key(o[i].0),
        cycle_cache(m, o)[o[i].0] == o[i].1.unwrap(),
        !map_of(cycle_changes(m, o)).contains_key(o[i].0),
    decreases o.len(),
{
    lemma_cycle_cache_observed(m, o, i);
    let k = o[i].0;
    if i == o.len() - 1 {
        let prevch = cycle_changes(m, o.drop_last());
        let prevm = cycle_cache(m, o.drop_last());
        assert(forall|j: int| 0 <= j < o.drop_last().len() ==> o.drop_last()[j].0 != k);
        lemma_cycle_cache_frame(m, o.drop_last(), k);
        assert(!prevm.contains_key(k));
        assert(cycle_changes(m, o) == prevch);
        if map_of(prevch).contains_key(k) {
            lemma_cycle_changes_keys(m, o.drop_last(), k);
            assert(false);
        }
    } else {
        assert(o.drop_last()[i] == o[i]);
        lemma_first_observation_silent(m, o.drop_last(), i);
        let prevch = cycle_changes(m, o.drop_last());
        let ch = cycle_changes(m, o);
        if ch != prevch {
            assert(ch.drop_last() =~= prevch);
            assert(ch.last().0 == o.last().0);
            assert(o.last().0 != k);
            assert(map_of(ch) == map_of(prevch).insert(ch.last().0, ch.last().1));
        }
    }
}

/// A repository cached with tag T and then observed with tag T': when
/// T' differs, the Change Set carries (repo, T') and the cache is
/// updated to T'; when T' equals T, the Change Set omits the
/// repository and its cache entry is unchanged.
pub proof fn lemma_changed_tag_notified(
    m: Map<Seq<char>, Seq<char>>,
    o: Seq<(Seq<char>, Option<Seq<char>>)>,
    i: int,
)
    requires
        distinct_obs_keys(o),
        0 <= i < o.len(),
        m.contains_key(o[i].0),
        o[i].1 is Some,
    ensures
        o[i].1.unwrap() != m[o[i].0] ==> map_of(cycle_changes(m, o)).contains_key(o[i].0)
            && map_of(cycle_changes(m, o))[o[i].0] == o[i].1.unwrap(),
        o[i].1.unwrap() == m[o[i].0] ==> !map_of(cycle_changes(m, o)).contains_key(o[i].0),
        cycle_cache(m, o).contains_key(o[i].0),
        cycle_cache(m, o)[o[i].0] == o[i].1.unwrap(),
    decreases o.len(),
{
    lemma_cycle_cache_observed(m, o, i);
    let k = o[i].0;
    let t = o[i].1.unwrap();
    if i == o.len() - 1 {
        let prevch = cycle_changes(m, o.drop_last());
        let prevm = cycle_cache(m, o.drop_last());
        assert(forall|j: int| 0 <= j < o.drop_last().len() ==> o.drop_last()[j].0 != k);
        lemma_cycle_cache_frame(m, o.drop_last(), k);
        assert(prevm.contains_key(k) && prevm[k] == m[k]);
        if map_of(prevch).contains_key(k) {
            lemma_cycle_changes_keys(m, o.drop_last(), k);
            assert(false);
        }
        if t != m[k] {
            let ch = cycle_changes(m, o);
            assert(ch == prevch.push((k, t)));
            assert(ch.drop_last() =~= prevch);
            assert(map_of(ch) == map_of(prevch).insert(k, t));
        } else {
            assert(cycle_changes(m, o) == prevch);
        }
    } else {
        assert(o.drop_last()[i] == o[i]);
        lemma_changed_tag_notified(m, o.drop_last(), i);
        let prevch = cycle_changes(m, o.drop_last());
        let ch = cycle_changes(m, o);
        if ch != prevch {
            assert(ch.drop_last() =~= prevch);
            assert(ch.last().0 == o.last().0);
            assert(o.last().0 != k);
            assert(map_of(ch) == map_of(prevch).insert(ch.last().0, ch.last().1));
        }
    }
}

/// Every observation in the list is already reflected in the mapping.
pub open spec fn settled(
    m: Map<Seq<char>, Seq<char>>,
    o: Seq<(Seq<char>, Option<Seq<char>>)>,
) -> bool {
    forall|j: int|
        0 <= j < o.len() && o[j].1 is Some ==> m.contains_key(o[j].0) && m[o[j].0]
            == o[j].1.unwrap()
}

/// A cycle over a settled cache changes nothing and notifies nothing.
proof fn lemma_cycle_settled(m: Map<Seq<char>, Seq<char>>, o: Seq<(Seq<char>, Option<Seq<char>>)>)
    requires
        settled(m, o),
    ensures
        cycle_cache(m, o) == m,
        cycle_changes(m, o) == Seq::<(Seq<char>, Seq<char>)>::empty(),
    decreases o.len(),
{
    if o.len() > 0 {
        assert(forall|j: int|
            0 <= j < o.drop_last().len() && o.drop_last()[j].1 is Some ==> o.drop_last()[j]
                == o[j]);
        lemma_cycle_settled(m, o.drop_last());
        match o.last().1 {
            Option::None => {},
            Option::Some(t) => {
                assert(m.contains_key(o.last().0) && m[o.last().0] == t);
                assert(m.insert(o.last().0, t) =~= m);
            },
        }
    }
}

/// After a cycle, every observation is reflected in the cache.
proof fn lemma_cycle_settles(m: Map<Seq<char>, Seq<char>>, o: Seq<(Seq<char>, Option<Seq<char>>)>)
    requires
        distinct_obs_keys(o),
    ensures
        settled(cycle_cache(m, o), o),
{
    assert forall|j: int| 0 <= j < o.len() && o[j].1 is Some implies cycle_cache(
        m,
        o,
    ).contains_key(o[j].0) && cycle_cache(m, o)[o[j].0] == o[j].1.unwrap() by {
        lemma_cycle_cache_observed(m, o, j);
    }
}

/// Idempotence: running the same cycle twice with unchanged upstream
/// tags leaves the cache as it was and yields an empty Change Set the
/// second time.
pub proof fn lemma_cycle_idempotent(
    m: Map<Seq<char>, Seq<char>>,
    o: Seq<(Seq<char>, Option<Seq<char>>)>,
)
    requires
        distinct_obs_keys(o),
    ensures
        cycle_cache(cycle_cache(m, o), o) == cycle_cache(m, o),
        cycle_changes(cycle_cache(m, o), o) == Seq::<(Seq<char>, Seq<char>)>::empty(),
{
    lemma_cycle_settles(m, o);
    lemma_cycle_settled(cycle_cache(m, o), o);
}

/// Round trip: the persisted text of any cache reads back as an equal
/// mapping.
pub proof fn lemma_save_load_round_trip(c: &TagMap)
    ensures
        spec_parse_cache(cache_text(c.entries_seq())) == Some(c.entries_seq()),
        map_of(c.entries_seq()) == c@,
{
    lemma_cache_text_round_trip(c.entries_seq());
    lemma_view_is_map_of(c);
}

} // verus!
