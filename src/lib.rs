//! A play-script dialect on top of a Markdown event stream: lines such as
//! `Character (direction)> speech` become speeches, parenthesized text in a
//! speech becomes a stage direction, and HTML-comment directives switch
//! between dialogue, monologue and plain rendering or add title fragments.
pub mod convert;
pub mod event;
pub mod interface;
pub mod lookahead;
pub mod mdfilter;
pub mod parser;
pub mod preprocessor;
pub mod renderer;
pub mod speech;
pub mod text;
pub mod token;

use vstd::prelude::*;
use crate::text::chars_of;
use crate::token::{lemma_run_len, run_len};

verus! {

/// The first character of `s` that occurs in `ps`, with its index among
/// the characters of `s`.
pub fn find_one_of(s: &str, ps: &str) -> (r: Option<(usize, char)>)
    ensures
        match r {
            Some((i, c)) => {
                &&& i < s@.len()
                &&& s@[i as int] == c
                &&& ps@.contains(c)
                &&& forall|j: int| 0 <= j < i ==> !ps@.contains(#[trigger] s@[j])
            },
            None => forall|j: int| 0 <= j < s@.len() ==> !ps@.contains(#[trigger] s@[j]),
        },
{
    let cs = chars_of(s);
    let pcs = chars_of(ps);
    let mut i: usize = 0;
    while i < cs.len()
        invariant
            cs@ == s@,
            pcs@ == ps@,
            i <= cs@.len(),
            forall|j: int| 0 <= j < i ==> !ps@.contains(#[trigger] s@[j]),
        decreases cs@.len() - i,
    {
        let c = cs[i];
        let mut k: usize = 0;
        while k < pcs.len()
            invariant
                cs@ == s@,
                pcs@ == ps@,
                i < cs@.len(),
                c == s@[i as int],
                forall|j: int| 0 <= j < i ==> !ps@.contains(#[trigger] s@[j]),
                k <= pcs@.len(),
                forall|m: int| 0 <= m < k ==> pcs@[m] != c,
            decreases pcs@.len() - k,
        {
            if pcs[k] == c {
                assert(ps@[k as int] == c);
                return Some((i, c));
            }
            k = k + 1;
        }
        assert(!ps@.contains(c));
        i = i + 1;
    }
    None
}

/// Splits `s`, which starts with `p`, after the run of `p` that starts it.
pub fn find_puncts_end(s: &str, p: char) -> (r: (&str, &str))
    requires
        s@.len() > 0,
        s@[0] == p,
    ensures
        r.0@ == s@.take(run_len(s@, p) as int),
        r.1@ == s@.skip(run_len(s@, p) as int),
{
    let cs = chars_of(s);
    let mut i: usize = 1;
    while i < cs.len() && cs[i] == p
        invariant
            cs@ == s@,
            1 <= i <= cs@.len(),
            forall|j: int| 0 <= j < i ==> s@[j] == p,
        decreases cs@.len() - i,
    {
        i = i + 1;
    }
    proof {
        lemma_run_len(s@, p);
        if run_len(s@, p) < i {
            assert(s@[run_len(s@, p) as int] == p);
        }
        if run_len(s@, p) > i {
            assert(s@[i as int] == p);
        }
    }
    (s.substring_char(0, i), s.substring_char(i, cs.len()))
}

} // verus!
