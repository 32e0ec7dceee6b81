//! The poll-cycle decision logic.
//!
//! One cycle walks the configured repositories in a fixed order. For
//! each repository with an observed tag, the cache entry is compared:
//! a differing previous entry puts the repository into the Change Set;
//! in every case the observed tag is written to the cache, so a
//! first-time observation seeds the cache silently.

use vstd::prelude::*;
use crate::tagmap::{TagMap, map_of, lemma_view_is_map_of};
use crate::fetch::{FetchParse, BodyClass, body_class_of, class_matches, classify_release_body};

verus! {

/// The views of an observation list: repository identifier and
/// observed tag, if any.
pub open spec fn obs_view(obs: Seq<(String, Option<String>)>) -> Seq<
    (Seq<char>, Option<Seq<char>>),
> {
    obs.map_values(
        |o: (String, Option<String>)|
            (
                o.0@,
                match o.1 {
                    Option::None => Option::<Seq<char>>::None,
                    Option::Some(t) => Option::Some(t@),
                },
            ),
    )
}

/// No repository occurs twice in the observation list.
pub open spec fn distinct_obs_keys(o: Seq<(Seq<char>, Option<Seq<char>>)>) -> bool {
    forall|i: int, j: int| 0 <= i < j < o.len() ==> o[i].0 != o[j].0
}

/// The cache after a cycle: each observed tag is written, in order.
pub open spec fn cycle_cache(
    m: Map<Seq<char>, Seq<char>>,
    o: Seq<(Seq<char>, Option<Seq<char>>)>,
) -> Map<Seq<char>, Seq<char>>
    decreases o.len(),
{
    if o.len() == 0 {
        m
    } else {
        let prev = cycle_cache(m, o.drop_last());
        match o.last().1 {
            Option::None => prev,
            Option::Some(t) => prev.insert(o.last().0, t),
        }
    }
}

/// The Change Set entries of a cycle, in observation order: a
/// repository enters it exactly when the cache held a different tag at
/// the moment it was observed.
pub open spec fn cycle_changes(
    m: Map<Seq<char>, Seq<char>>,
    o: Seq<(Seq<char>, Option<Seq<char>>)>,
) -> Seq<(Seq<char>, Seq<char>)>
    decreases o.len(),
{
    if o.len() == 0 {
        Seq::empty()
    } else {
        let prevch = cycle_changes(m, o.drop_last());
        let prevm = cycle_cache(m, o.drop_last());
        match o.last().1 {
            Option::None => prevch,
            Option::Some(t) => if prevm.contains_key(o.last().0) && prevm[o.last().0] != t {
                prevch.push((o.last().0, t))
            } else {
                prevch
            },
        }
    }
}

/// Every key of the cycle's Change Set is an observed repository.
pub proof fn lemma_cycle_changes_keys(
    m: Map<Seq<char>, Seq<char>>,
    o: Seq<(Seq<char>, Option<Seq<char>>)>,
    k: Seq<char>,
)
    requires
        map_of(cycle_changes(m, o)).contains_key(k),
    ensures
        exists|j: int| 0 <= j < o.len() && o[j].0 == k,
    decreases o.len(),
{
    if o.len() > 0 {
        let prevch = cycle_changes(m, o.drop_last());
        if map_of(prevch).contains_key(k) {
            lemma_cycle_changes_keys(m, o.drop_last(), k);
            let j = choose|j: int| 0 <= j < o.drop_last().len() && o.drop_last()[j].0 == k;
            assert(o[j].0 == k);
        } else {
            assert(cycle_changes(m, o) != prevch);
            assert(o[o.len() - 1].0 == k) by {
                let ch = cycle_changes(m, o);
                assert(ch.drop_last() =~= prevch);
                assert(map_of(ch) == map_of(prevch).insert(ch.last().0, ch.last().1));
            }
        }
    }
}

/// A repository observed nowhere in the list keeps its cache entry.
pub proof fn lemma_cycle_cache_frame(
    m: Map<Seq<char>, Seq<char>>,
    o: Seq<(Seq<char>, Option<Seq<char>>)>,
    k: Seq<char>,
)
    requires
        forall|j: int| 0 <= j < o.len() ==> o[j].0 != k,
    ensures
        cycle_cache(m, o).contains_key(k) == m.contains_key(k),
        m.contains_key(k) ==> cycle_cache(m, o)[k] == m[k],
    decreases o.len(),
{
    if o.len() > 0 {
        lemma_cycle_cache_frame(m, o.drop_last(), k);
    }
}

/// After a cycle over pairwise-distinct repositories, the cache holds
/// each observed tag.
pub proof fn lemma_cycle_cache_observed(
    m: Map<Seq<char>, Seq<char>>,
    o: Seq<(Seq<char>, Option<Seq<char>>)>,
    i: int,
)
    requires
        distinct_obs_keys(o),
        0 <= i < o.len(),
        o[i].1 is Some,
    ensures
        cycle_cache(m, o).contains_key(o[i].0),
        cycle_cache(m, o)[o[i].0] == o[i].1.unwrap(),
    decreases o.len(),
{
    if i == o.len() - 1 {
    } else {
        lemma_cycle_cache_observed(m, o.drop_last(), i);
        assert(o.drop_last()[i] == o[i]);
    }
}

/// Applies one observed tag to the cache and the change set.
pub fn apply_tag(cache: &mut TagMap, changes: &mut TagMap, repo: &String, tag: &String)
    requires
        old(cache).wf(),
        old(changes).wf(),
    ensures
        final(cache).wf(),
        final(changes).wf(),
        final(cache)@ == old(cache)@.insert(repo@, tag@),
        (if old(cache)@.contains_key(repo@) && old(cache)@[repo@] != tag@ {
            final(changes)@ == old(changes)@.insert(repo@, tag@) && (!old(
                changes,
            )@.contains_key(repo@) ==> final(changes).entries_seq() == old(
                changes,
            ).entries_seq().push((repo@, tag@)))
        } else {
            *final(changes) == *old(changes)
        }),
{
    let tag_differs: bool = match cache.get(repo) {
        Some(prev) => *prev != *tag,
        None => false,
    };
    if tag_differs {
        changes.upsert(repo, tag);
    }
    cache.upsert(repo, tag);
}

/// Runs the decision part of one poll cycle: applies every observation
/// to the cache and returns the cycle's Change Set.
pub fn run_cycle(cache: &mut TagMap, obs: &Vec<(String, Option<String>)>) -> (changes: TagMap)
    requires
        old(cache).wf(),
        distinct_obs_keys(obs_view(obs@)),
    ensures
        final(cache).wf(),
        changes.wf(),
        final(cache)@ == cycle_cache(old(cache)@, obs_view(obs@)),
        changes.entries_seq() == cycle_changes(old(cache)@, obs_view(obs@)),
        changes@ == map_of(cycle_changes(old(cache)@, obs_view(obs@))),
{
    let ghost m0 = old(cache)@;
    let ghost ov = obs_view(obs@);
    let mut changes = TagMap::new();
    let n: usize = obs.len();
    let mut i: usize = 0;
    while i < n
        invariant
            n == obs@.len(),
            i <= n,
            ov == obs_view(obs@),
            distinct_obs_keys(ov),
            cache.wf(),
            changes.wf(),
            cache@ == cycle_cache(m0, ov.take(i as int)),
            changes.entries_seq() == cycle_changes(m0, ov.take(i as int)),
        decreases n - i,
    {
        proof {
            assert(ov.take(i + 1 as int).drop_last() =~= ov.take(i as int));
            assert(ov.take(i + 1 as int).last() == ov[i as int]);
        }
        match &obs[i].1 {
            None => {
                proof {
                    assert(ov[i as int].1 is None);
                }
            },
            Some(t) => {
                let repo = &obs[i].0;
                proof {
                    assert(ov[i as int].1 == Some(t@));
                    lemma_view_is_map_of(&changes);
                    if cache@.contains_key(repo@) && cache@[repo@] != t@ {
                        if changes@.contains_key(repo@) {
                            lemma_cycle_changes_keys(m0, ov.take(i as int), repo@);
                            let j = choose|j: int|
                                0 <= j < i && ov.take(i as int)[j].0 == repo@;
                            assert(ov[j].0 == ov[i as int].0);
                            assert(false);
                        }
                    }
                }
                apply_tag(cache, &mut changes, repo, t);
            },
        }
        i = i + 1;
    }
    proof {
        assert(ov.take(n as int) =~= ov);
        lemma_view_is_map_of(&changes);
    }
    changes
}

/// Classifies a fetched body and, when it carries a tag, applies it to
/// the cache and the change set; any other outcome leaves both as they
/// were. The returned classification tells the caller what happened.
pub fn observe_body(cache: &mut TagMap, changes: &mut TagMap, repo: &String, body: &str) -> (r:
    FetchParse)
    requires
        old(cache).wf(),
        old(changes).wf(),
    ensures
        final(cache).wf(),
        final(changes).wf(),
        class_matches(r, body_class_of(body@)),
        match body_class_of(body@) {
            BodyClass::Tag(t) => final(cache)@ == old(cache)@.insert(repo@, t) && (if old(
                cache,
            )@.contains_key(repo@) && old(cache)@[repo@] != t {
                final(changes)@ == old(changes)@.insert(repo@, t)
            } else {
                *final(changes) == *old(changes)
            }),
            _ => *final(cache) == *old(cache) && *final(changes) == *old(changes),
        },
{
    let parsed = classify_release_body(body);
    match &parsed {
        FetchParse::Tag(t) => {
            apply_tag(cache, changes, repo, t);
        },
        _ => {},
    }
    parsed
}

} // verus!
