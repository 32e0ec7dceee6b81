//! The notification text for a cycle's Change Set: one line per
//! changed repository, formatted `repo: tag` and newline-terminated.

use vstd::prelude::*;
use crate::tagmap::TagMap;
use crate::codec::push_char;

verus! {

/// One notification line: `repo: tag` followed by a newline.
pub open spec fn line_text(p: (Seq<char>, Seq<char>)) -> Seq<char> {
    p.0 + seq![':', ' '] + p.1 + seq!['\n']
}

/// The full notification body: the entries' lines in order.
pub open spec fn body_text(es: Seq<(Seq<char>, Seq<char>)>) -> Seq<char>
    decreases es.len(),
{
    if es.len() == 0 {
        Seq::empty()
    } else {
        body_text(es.drop_last()) + line_text(es.last())
    }
}

/// Builds the notification body for a Change Set.
pub fn notification_body(changes: &TagMap) -> (r: String)
    ensures
        r@ == body_text(changes.entries_seq()),
{
    let ghost es = changes.entries_seq();
    let mut out = String::new();
    let n: usize = changes.len();
    let mut i: usize = 0;
    while i < n
        invariant
            n == es.len(),
            i <= n,
            es == changes.entries_seq(),
            out@ == body_text(es.take(i as int)),
        decreases n - i,
    {
        out.append(changes.key_at(i).as_str());
        push_char(&mut out, ':');
        push_char(&mut out, ' ');
        out.append(changes.tag_at(i).as_str());
        push_char(&mut out, '\n');
        proof {
            assert(es.take(i + 1 as int).drop_last() =~= es.take(i as int));
            assert(es.take(i + 1 as int).last() == es[i as int]);
            assert(out@ =~= body_text(es.take(i + 1 as int)));
        }
        i = i + 1;
    }
    proof {
        assert(es.take(n as int) =~= es);
    }
    out
}

/// The fixed notification title.
pub fn notification_summary() -> (r: &'static str)
    ensures
        r@ == "New release"@,
{
    "New release"
}

/// The fixed notification icon identifier.
pub fn notification_icon() -> (r: &'static str)
    ensures
        r@ == "librewolf"@,
{
    "librewolf"
}

} // verus!
