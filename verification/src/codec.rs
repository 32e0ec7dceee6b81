//! The textual format in which a tag mapping is persisted: a brace-
//! delimited object of quoted key/value string pairs, with `"` and `\`
//! escaped by a backslash, e.g. `{"owner/repo":"v1.2.3"}`.
//!
//! `render_cache_text` produces that text; `parse_cache_text` reads it
//! back, yielding the empty mapping on any malformed input.

use vstd::prelude::*;
use crate::tagmap::{TagMap, map_of};

verus! {

/// The escaped form of one character.
pub open spec fn esc_char(c: char) -> Seq<char> {
    if c == '"' || c == '\\' {
        seq!['\\', c]
    } else {
        seq![c]
    }
}

/// The escaped form of a string.
pub open spec fn esc(s: Seq<char>) -> Seq<char>
    decreases s.len(),
{
    if s.len() == 0 {
        Seq::empty()
    } else {
        esc_char(s[0]) + esc(s.skip(1))
    }
}

/// A quoted, escaped string.
pub open spec fn quoted_text(s: Seq<char>) -> Seq<char> {
    seq!['"'] + esc(s) + seq!['"']
}

/// One `"key":"value"` pair.
pub open spec fn pair_text(p: (Seq<char>, Seq<char>)) -> Seq<char> {
    quoted_text(p.0) + seq![':'] + quoted_text(p.1)
}

/// Comma-separated pairs.
pub open spec fn pairs_text(es: Seq<(Seq<char>, Seq<char>)>) -> Seq<char>
    decreases es.len(),
{
    if es.len() == 0 {
        Seq::empty()
    } else if es.len() == 1 {
        pair_text(es[0])
    } else {
        pair_text(es[0]) + seq![','] + pairs_text(es.skip(1))
    }
}

/// The full persisted text for a sequence of entries.
pub open spec fn cache_text(es: Seq<(Seq<char>, Seq<char>)>) -> Seq<char> {
    if es.len() == 0 {
        seq!['{', '}']
    } else {
        seq!['{'] + pairs_text(es) + seq!['}']
    }
}

/// Reads a string body up to its closing quote; yields the unescaped
/// content and the remainder after the quote, or nothing when the text
/// is not a well-formed string body.
pub open spec fn spec_parse_string(s: Seq<char>) -> Option<(Seq<char>, Seq<char>)>
    decreases s.len(),
{
    if s.len() == 0 {
        None
    } else if s[0] == '"' {
        Some((Seq::empty(), s.skip(1)))
    } else if s[0] == '\\' {
        if s.len() >= 2 && (s[1] == '"' || s[1] == '\\') {
            match spec_parse_string(s.skip(2)) {
                None => None,
                Some(p) => Some((seq![s[1]] + p.0, p.1)),
            }
        } else {
            None
        }
    } else {
        match spec_parse_string(s.skip(1)) {
            None => None,
            Some(p) => Some((seq![s[0]] + p.0, p.1)),
        }
    }
}

/// Reads one `"key":"value"` pair; yields the pair and the remainder.
pub open spec fn spec_parse_pair(s: Seq<char>) -> Option<((Seq<char>, Seq<char>), Seq<char>)> {
    if s.len() >= 1 && s[0] == '"' {
        match spec_parse_string(s.skip(1)) {
            None => None,
            Some(kp) => if kp.1.len() >= 2 && kp.1[0] == ':' && kp.1[1] == '"' {
                match spec_parse_string(kp.1.skip(2)) {
                    None => None,
                    Some(vp) => Some(((kp.0, vp.0), vp.1)),
                }
            } else {
                None
            },
        }
    } else {
        None
    }
}

/// Reads a non-empty pair list that must end exactly with the closing
/// brace as the final character of the text.
pub open spec fn spec_parse_pairs(s: Seq<char>) -> Option<Seq<(Seq<char>, Seq<char>)>>
    decreases s.len(),
{
    match spec_parse_pair(s) {
        None => None,
        Some(pr) => if pr.1.len() == 1 && pr.1[0] == '}' {
            Some(seq![pr.0])
        } else if pr.1.len() >= 1 && pr.1[0] == ',' && pr.1.len() < s.len() {
            match spec_parse_pairs(pr.1.skip(1)) {
                None => None,
                Some(es) => Some(seq![pr.0] + es),
            }
        } else {
            None
        },
    }
}

/// Reads a whole persisted text: the entry sequence it encodes, or
/// nothing when the text is malformed.
pub open spec fn spec_parse_cache(s: Seq<char>) -> Option<Seq<(Seq<char>, Seq<char>)>> {
    if s.len() >= 2 && s[0] == '{' {
        if s.len() == 2 && s[1] == '}' {
            Some(Seq::empty())
        } else {
            spec_parse_pairs(s.skip(1))
        }
    } else {
        None
    }
}

/// Relies on `String::push`: appends the character to the string.
#[verifier::external_body]
pub(crate) fn push_char(s: &mut String, c: char)
    ensures
        final(s)@ == old(s)@.push(c),
{
    s.push(c);
}

/// Escaping distributes over appending one character.
proof fn lemma_esc_push(s: Seq<char>, c: char)
    ensures
        esc(s.push(c)) == esc(s) + esc_char(c),
    decreases s.len(),
{
    if s.len() == 0 {
        assert(s.push(c).skip(1) =~= Seq::<char>::empty());
        assert(s.push(c)[0] == c);
        assert(esc(s.push(c)) == esc_char(c) + esc(s.push(c).skip(1)));
        assert(esc(s.push(c)) =~= esc(s) + esc_char(c));
    } else {
        lemma_esc_push(s.skip(1), c);
        assert(s.push(c).skip(1) =~= s.skip(1).push(c));
        assert(s.push(c)[0] == s[0]);
        assert(esc(s.push(c)) == esc_char(s[0]) + esc(s.skip(1).push(c)));
        assert(esc(s.push(c)) =~= esc(s) + esc_char(c));
    }
}

/// Renders `s` as a quoted, escaped string appended to `out`.
fn append_quoted(out: &mut String, s: &String)
    ensures
        final(out)@ == old(out)@ + quoted_text(s@),
{
    push_char(out, '"');
    let n: usize = s.as_str().unicode_len();
    let mut i: usize = 0;
    while i < n
        invariant
            n == s@.len(),
            i <= n,
            out@ == old(out)@ + seq!['"'] + esc(s@.take(i as int)),
        decreases n - i,
    {
        let c = s.as_str().get_char(i);
        if c == '"' || c == '\\' {
            push_char(out, '\\');
            push_char(out, c);
        } else {
            push_char(out, c);
        }
        proof {
            assert(s@.take(i + 1 as int) =~= s@.take(i as int).push(s@[i as int]));
            lemma_esc_push(s@.take(i as int), s@[i as int]);
            assert(out@ =~= old(out)@ + seq!['"'] + esc(s@.take(i + 1 as int)));
        }
        i = i + 1;
    }
    push_char(out, '"');
    proof {
        assert(s@.take(n as int) =~= s@);
        assert(out@ =~= old(out)@ + quoted_text(s@));
    }
}

/// Appending one entry extends the rendered pair list by a comma (when
/// non-empty) and the entry's own text.
proof fn lemma_pairs_text_push(es: Seq<(Seq<char>, Seq<char>)>, p: (Seq<char>, Seq<char>))
    ensures
        es.len() == 0 ==> pairs_text(es.push(p)) == pair_text(p),
        es.len() > 0 ==> pairs_text(es.push(p)) == pairs_text(es) + seq![','] + pair_text(p),
    decreases es.len(),
{
    if es.len() == 0 {
        assert(es.push(p)[0] == p);
    } else if es.len() == 1 {
        assert(es.push(p).skip(1) =~= seq![p]);
        assert(es.push(p)[0] == es[0]);
        assert(seq![p][0] == p);
        assert(pairs_text(seq![p]) == pair_text(p));
        assert(pairs_text(es.push(p)) == pair_text(es[0]) + seq![','] + pairs_text(seq![p]));
        assert(pairs_text(es.push(p)) =~= pairs_text(es) + seq![','] + pair_text(p));
    } else {
        lemma_pairs_text_push(es.skip(1), p);
        assert(es.push(p).skip(1) =~= es.skip(1).push(p));
        assert(es.push(p)[0] == es[0]);
        assert(es.push(p).len() >= 2);
        assert(pairs_text(es.push(p)) == pair_text(es[0]) + seq![','] + pairs_text(
            es.skip(1).push(p),
        ));
        assert(pairs_text(es.push(p)) =~= pairs_text(es) + seq![','] + pair_text(p));
    }
}

/// Serializes the full mapping as persisted text.
pub fn render_cache_text(cache: &TagMap) -> (r: String)
    ensures
        r@ == cache_text(cache.entries_seq()),
{
    let ghost es = cache.entries_seq();
    let mut out = String::new();
    push_char(&mut out, '{');
    let n: usize = cache.len();
    let mut i: usize = 0;
    while i < n
        invariant
            n == es.len(),
            i <= n,
            es == cache.entries_seq(),
            out@ == seq!['{'] + pairs_text(es.take(i as int)),
        decreases n - i,
    {
        if i > 0 {
            push_char(&mut out, ',');
        }
        append_quoted(&mut out, cache.key_at(i));
        push_char(&mut out, ':');
        append_quoted(&mut out, cache.tag_at(i));
        proof {
            assert(es.take(i + 1 as int) =~= es.take(i as int).push(es[i as int]));
            lemma_pairs_text_push(es.take(i as int), es[i as int]);
            assert(pair_text(es[i as int]) == quoted_text(es[i as int].0) + seq![':']
                + quoted_text(es[i as int].1));
            assert(out@ =~= seq!['{'] + pairs_text(es.take(i + 1 as int)));
        }
        i = i + 1;
    }
    push_char(&mut out, '}');
    proof {
        assert(es.take(n as int) =~= es);
        if n == 0 {
            assert(out@ =~= cache_text(es));
        } else {
            assert(out@ =~= cache_text(es));
        }
    }
    out
}

/// Reads a string body; mirrors `spec_parse_string`.
fn parse_string<'a>(s: &'a str) -> (r: Option<(String, &'a str)>)
    ensures
        match r {
            Some(p) => spec_parse_string(s@) == Some::<(Seq<char>, Seq<char>)>((p.0@, p.1@)),
            None => spec_parse_string(s@) is None,
        },
    decreases s@.len(),
{
    let n: usize = s.unicode_len();
    if n == 0 {
        return None;
    }
    let c = s.get_char(0);
    if c == '"' {
        let rest = s.substring_char(1, n);
        proof {
            assert(rest@ =~= s@.skip(1));
        }
        Some((String::new(), rest))
    } else if c == '\\' {
        if n >= 2 {
            let e = s.get_char(1);
            if e == '"' || e == '\\' {
                let tail = s.substring_char(2, n);
                proof {
                    assert(tail@ =~= s@.skip(2));
                }
                match parse_string(tail) {
                    None => None,
                    Some(p) => {
                        let mut content = String::new();
                        push_char(&mut content, e);
                        content.append(p.0.as_str());
                        proof {
                            assert(content@ =~= seq![s@[1]] + p.0@);
                        }
                        Some((content, p.1))
                    },
                }
            } else {
                None
            }
        } else {
            None
        }
    } else {
        let tail = s.substring_char(1, n);
        proof {
            assert(tail@ =~= s@.skip(1));
        }
        match parse_string(tail) {
            None => None,
            Some(p) => {
                let mut content = String::new();
                push_char(&mut content, c);
                content.append(p.0.as_str());
                proof {
                    assert(content@ =~= seq![s@[0]] + p.0@);
                }
                Some((content, p.1))
            },
        }
    }
}

/// Reads one pair; mirrors `spec_parse_pair`.
fn parse_pair<'a>(s: &'a str) -> (r: Option<((String, String), &'a str)>)
    ensures
        match r {
            Some(p) => spec_parse_pair(s@) == Some::<((Seq<char>, Seq<char>), Seq<char>)>((
                ((p.0).0@, (p.0).1@),
                p.1@,
            )),
            None => spec_parse_pair(s@) is None,
        },
{
    let n: usize = s.unicode_len();
    if n >= 1 && s.get_char(0) == '"' {
        let tail = s.substring_char(1, n);
        proof {
            assert(tail@ =~= s@.skip(1));
        }
        match parse_string(tail) {
            None => None,
            Some(kp) => {
                let r1 = kp.1;
                let rn: usize = r1.unicode_len();
                if rn >= 2 && r1.get_char(0) == ':' && r1.get_char(1) == '"' {
                    let vtail = r1.substring_char(2, rn);
                    proof {
                        assert(vtail@ =~= r1@.skip(2));
                    }
                    match parse_string(vtail) {
                        None => None,
                        Some(vp) => Some(((kp.0, vp.0), vp.1)),
                    }
                } else {
                    None
                }
            },
        }
    } else {
        None
    }
}

/// Reads a non-empty pair list; mirrors `spec_parse_pairs`.
fn parse_pairs<'a>(s: &'a str) -> (r: Option<Vec<(String, String)>>)
    ensures
        match r {
            Some(v) => spec_parse_pairs(s@) == Some(
                v@.map_values(|e: (String, String)| (e.0@, e.1@)),
            ),
            None => spec_parse_pairs(s@) is None,
        },
    decreases s@.len(),
{
    match parse_pair(s) {
        None => None,
        Some(pr) => {
            let p = pr.0;
            let rest = pr.1;
            let rn: usize = rest.unicode_len();
            if rn == 1 && rest.get_char(0) == '}' {
                let mut v: Vec<(String, String)> = Vec::new();
                v.push(p);
                proof {
                    assert(v@.map_values(|e: (String, String)| (e.0@, e.1@)) =~= seq![
                        (v@[0].0@, v@[0].1@),
                    ]);
                }
                Some(v)
            } else if rn >= 1 && rest.get_char(0) == ',' && rn < s.unicode_len() {
                let tail = rest.substring_char(1, rn);
                proof {
                    assert(tail@ =~= rest@.skip(1));
                }
                match parse_pairs(tail) {
                    None => None,
                    Some(mut v) => {
                        let ghost prior = v@;
                        v.insert(0, p);
                        proof {
                            assert(v@.map_values(|e: (String, String)| (e.0@, e.1@)) =~= seq![
                                ((p.0)@, (p.1)@),
                            ] + prior.map_values(|e: (String, String)| (e.0@, e.1@)));
                        }
                        Some(v)
                    },
                }
            } else {
                None
            }
        },
    }
}

/// Reads persisted text into a mapping; any malformed text yields the
/// empty mapping rather than an error.
pub fn parse_cache_text(s: &str) -> (c: TagMap)
    ensures
        c.wf(),
        match spec_parse_cache(s@) {
            Some(es) => c@ == map_of(es),
            None => c@ == Map::<Seq<char>, Seq<char>>::empty(),
        },
{
    let n: usize = s.unicode_len();
    if n >= 2 && s.get_char(0) == '{' {
        if n == 2 && s.get_char(1) == '}' {
            TagMap::new()
        } else {
            let tail = s.substring_char(1, n);
            proof {
                assert(tail@ =~= s@.skip(1));
            }
            match parse_pairs(tail) {
                None => TagMap::new(),
                Some(v) => {
                    let ghost es = v@.map_values(|e: (String, String)| (e.0@, e.1@));
                    let mut c = TagMap::new();
                    let m: usize = v.len();
                    let mut i: usize = 0;
                    while i < m
                        invariant
                            m == v@.len(),
                            i <= m,
                            es == v@.map_values(|e: (String, String)| (e.0@, e.1@)),
                            c.wf(),
                            c@ == map_of(es.take(i as int)),
                        decreases m - i,
                    {
                        c.upsert(&v[i].0, &v[i].1);
                        proof {
                            assert(es.take(i + 1 as int).drop_last() =~= es.take(i as int));
                            assert(c@ == map_of(es.take(i + 1 as int)));
                        }
                        i = i + 1;
                    }
                    proof {
                        assert(es.take(m as int) =~= es);
                    }
                    c
                },
            }
        }
    } else {
        TagMap::new()
    }
}

/// A rendered string body (content escaped, closing quote, remainder)
/// always reads back as that content and remainder.
proof fn lemma_parse_quoted(s: Seq<char>, rest: Seq<char>)
    ensures
        spec_parse_string(esc(s) + seq!['"'] + rest) == Some::<(Seq<char>, Seq<char>)>((s, rest)),
    decreases s.len(),
{
    let t = esc(s) + seq!['"'] + rest;
    if s.len() == 0 {
        assert(t[0] == '"');
        assert(t.skip(1) =~= rest);
    } else {
        let c = s[0];
        lemma_parse_quoted(s.skip(1), rest);
        if c == '"' || c == '\\' {
            assert(t[0] == '\\');
            assert(t[1] == c);
            assert(t.skip(2) =~= esc(s.skip(1)) + seq!['"'] + rest);
            assert(seq![t[1]] + s.skip(1) =~= s);
        } else {
            assert(t[0] == c);
            assert(t.skip(1) =~= esc(s.skip(1)) + seq!['"'] + rest);
            assert(seq![t[0]] + s.skip(1) =~= s);
        }
    }
}

/// A rendered pair followed by any remainder reads back as that pair
/// and remainder.
proof fn lemma_parse_pair_text(p: (Seq<char>, Seq<char>), rest: Seq<char>)
    ensures
        spec_parse_pair(pair_text(p) + rest) == Some::<((Seq<char>, Seq<char>), Seq<char>)>((
            p,
            rest,
        )),
{
    let t = pair_text(p) + rest;
    let mid = seq![':'] + quoted_text(p.1) + rest;
    assert(t[0] == '"');
    assert(t.skip(1) =~= esc(p.0) + seq!['"'] + mid);
    lemma_parse_quoted(p.0, mid);
    assert(mid[0] == ':');
    assert(mid[1] == '"');
    assert(mid.skip(2) =~= esc(p.1) + seq!['"'] + rest);
    lemma_parse_quoted(p.1, rest);
}

/// A rendered non-empty pair list closed by a brace reads back as the
/// same entries.
proof fn lemma_parse_pairs_text(es: Seq<(Seq<char>, Seq<char>)>)
    requires
        es.len() >= 1,
    ensures
        spec_parse_pairs(pairs_text(es) + seq!['}']) == Some(es),
    decreases es.len(),
{
    let t = pairs_text(es) + seq!['}'];
    if es.len() == 1 {
        lemma_parse_pair_text(es[0], seq!['}']);
        assert(t =~= pair_text(es[0]) + seq!['}']);
        assert(seq![es[0]] =~= es);
    } else {
        let rest0 = seq![','] + pairs_text(es.skip(1)) + seq!['}'];
        assert(t =~= pair_text(es[0]) + rest0);
        lemma_parse_pair_text(es[0], rest0);
        assert(rest0[0] == ',');
        assert(pair_text(es[0]).len() >= 5);
        assert(rest0.len() < t.len());
        assert(rest0.skip(1) =~= pairs_text(es.skip(1)) + seq!['}']);
        lemma_parse_pairs_text(es.skip(1));
        assert(seq![es[0]] + es.skip(1) =~= es);
    }
}

/// Round trip: the rendered text of any entry sequence reads back as
/// exactly that sequence.
pub proof fn lemma_cache_text_round_trip(es: Seq<(Seq<char>, Seq<char>)>)
    ensures
        spec_parse_cache(cache_text(es)) == Some(es),
{
    let t = cache_text(es);
    if es.len() == 0 {
        assert(t[0] == '{');
        assert(t[1] == '}');
    } else {
        assert(t[0] == '{');
        assert(pairs_text(es).len() >= 5);
        assert(t.skip(1) =~= pairs_text(es) + seq!['}']);
        lemma_parse_pairs_text(es);
    }
}

} // verus!
