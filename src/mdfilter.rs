//! Custom heading ids: a heading text may end with `{#id}`.
use vstd::prelude::*;
use crate::speech::index_of;
use crate::text::{chars_of, trim_end_spec};

verus! {

/// Where the first `{#` of `s` starts, or the length of `s`.
pub open spec fn id_open_index(s: Seq<char>) -> int
    decreases s.len(),
{
    if s.len() < 2 {
        s.len() as int
    } else if s[0] == '{' && s[1] == '#' {
        0
    } else {
        1 + id_open_index(s.drop_first())
    }
}

/// The text of a heading and its custom id: `text {#id}` gives the text
/// (without trailing whitespace) and `id`; anything else gives itself and
/// no id.
pub open spec fn custom_id_spec(s: Seq<char>) -> (Seq<char>, Option<Seq<char>>) {
    let p = id_open_index(s);
    if p >= s.len() {
        (s, None)
    } else {
        let after = s.skip(p + 2);
        let q = index_of(after, '}');
        if q >= after.len() {
            (s, None)
        } else {
            (trim_end_spec(s.take(p)), Some(after.take(q)))
        }
    }
}

proof fn lemma_id_open_index(s: Seq<char>, k: int)
    requires
        0 <= k <= s.len(),
        forall|j: int| 0 <= j < k && j + 1 < s.len() ==> !(#[trigger] s[j] == '{' && s[j + 1] == '#'),
        k + 1 < s.len() ==> s[k] == '{' && s[k + 1] == '#',
        k + 1 >= s.len() ==> k == s.len(),
    ensures
        id_open_index(s) == k,
    decreases k,
{
    if k > 0 && s.len() >= 2 {
        assert(!(s[0] == '{' && s[1] == '#'));
        assert forall|j: int| 0 <= j < k - 1 && j + 1 < s.len() - 1 implies !(#[trigger] s.drop_first()[j] == '{' && s.drop_first()[j + 1] == '#') by {
            assert(s.drop_first()[j] == s[j + 1]);
            assert(s.drop_first()[j + 1] == s[j + 2]);
        }
        lemma_id_open_index(s.drop_first(), k - 1);
    }
}

proof fn lemma_index_of_is(s: Seq<char>, c: char, k: int)
    requires
        0 <= k <= s.len(),
        forall|j: int| 0 <= j < k ==> s[j] != c,
        k == s.len() || s[k] == c,
    ensures
        index_of(s, c) == k,
    decreases k,
{
    if k > 0 {
        assert forall|j: int| 0 <= j < k - 1 implies s.drop_first()[j] != c by {
            assert(s.drop_first()[j] == s[j + 1]);
        }
        lemma_index_of_is(s.drop_first(), c, k - 1);
    }
}

/// Splits a heading text into its text and its custom id `{#id}`, if it
/// has one.
pub fn find_custom_id(s: &str) -> (r: (&str, Option<&str>))
    ensures
        (r.0@, match r.1 {
            Some(x) => Some(x@),
            None => None,
        }) == custom_id_spec(s@),
{
    let cs = chars_of(s);
    let n = cs.len();
    let mut p: usize = 0;
    while n - p > 1 && !(cs[p] == '{' && cs[p + 1] == '#')
        invariant
            cs@ == s@,
            n == cs@.len(),
            p <= n,
            forall|j: int| 0 <= j < p && j + 1 < n ==> !(#[trigger] s@[j] == '{' && s@[j + 1] == '#'),
        decreases n - p,
    {
        p = p + 1;
    }
    if n - p <= 1 {
        proof {
            lemma_id_open_index(s@, n as int);
        }
        return (s, None);
    }
    proof {
        lemma_id_open_index(s@, p as int);
    }
    let mut q: usize = p + 2;
    while q < n && cs[q] != '}'
        invariant
            cs@ == s@,
            n == cs@.len(),
            p + 2 <= q <= n,
            forall|j: int| p + 2 <= j < q ==> s@[j] != '}',
        decreases n - q,
    {
        q = q + 1;
    }
    let ghost after = s@.skip(p + 2);
    proof {
        assert forall|j: int| 0 <= j < q - (p + 2) implies after[j] != '}' by {
            assert(after[j] == s@[j + p + 2]);
        }
        if q < n {
            assert(after[q - (p + 2)] == s@[q as int]);
        }
        lemma_index_of_is(after, '}', q - (p + 2));
    }
    if q >= n {
        return (s, None);
    }
    let before = s.substring_char(0, p);
    let end = crate::text::trim_end_len(before);
    let text = s.substring_char(0, end);
    let id = s.substring_char(p + 2, q);
    assert(after.take(q - (p + 2)) =~= s@.subrange(p + 2, q as int));
    (text, Some(id))
}

} // verus!
