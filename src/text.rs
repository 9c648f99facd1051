//! Character sequences: literal substring search and first-occurrence
//! replacement, with their mathematical meaning.

use vstd::prelude::*;
use vstd::std_specs::iter::IteratorSpec;

verus! {

/// `p` occurs in `s` starting at character position `k`.
pub open spec fn occurs_at(s: Seq<char>, p: Seq<char>, k: int) -> bool {
    0 <= k && k + p.len() <= s.len() && s.subrange(k, k + p.len()) == p
}

/// `p` occurs somewhere in `s` as a literal substring.
pub open spec fn occurs(s: Seq<char>, p: Seq<char>) -> bool {
    exists|k: int| occurs_at(s, p, k)
}

/// `k` is the leftmost position at which `p` occurs in `s`.
pub open spec fn leftmost(s: Seq<char>, p: Seq<char>, k: int) -> bool {
    occurs_at(s, p, k) && forall|j: int| 0 <= j < k ==> !occurs_at(s, p, j)
}

/// `s` with the leftmost occurrence of `p` replaced by `q`; `s` itself when
/// `p` does not occur.
pub open spec fn replace_first(s: Seq<char>, p: Seq<char>, q: Seq<char>) -> Seq<char> {
    if occurs(s, p) {
        let k = choose|k: int| leftmost(s, p, k);
        s.subrange(0, k) + q + s.subrange(k + p.len(), s.len() as int)
    } else {
        s
    }
}

/// Every occurrence has a leftmost one at or before it.
pub proof fn lemma_leftmost_exists(s: Seq<char>, p: Seq<char>, k: int)
    requires
        occurs_at(s, p, k),
    ensures
        exists|m: int| leftmost(s, p, m),
    decreases k,
{
    if exists|j: int| 0 <= j < k && occurs_at(s, p, j) {
        let j = choose|j: int| 0 <= j < k && occurs_at(s, p, j);
        lemma_leftmost_exists(s, p, j);
    } else {
        assert(leftmost(s, p, k));
    }
}

/// The leftmost occurrence is unique.
pub proof fn lemma_leftmost_unique(s: Seq<char>, p: Seq<char>, a: int, b: int)
    requires
        leftmost(s, p, a),
        leftmost(s, p, b),
    ensures
        a == b,
{
    if a < b {
        assert(!occurs_at(s, p, a));
    } else if b < a {
        assert(!occurs_at(s, p, b));
    }
}

/// Whether `p` occurs in `s` at position `k`.
pub fn matches_at(s: &Vec<char>, p: &Vec<char>, k: usize) -> (r: bool)
    requires
        k + p@.len() <= s@.len(),
    ensures
        r == occurs_at(s@, p@, k as int),
{
    let n = s.len();
    let mut i: usize = 0;
    while i < p.len()
        invariant
            i <= p@.len(),
            n == s@.len(),
            k + p@.len() <= s@.len(),
            forall|j: int| 0 <= j < i ==> s@[k + j] == p@[j],
        decreases p@.len() - i,
    {
        if s[k + i] != p[i] {
            assert(s@.subrange(k as int, k + p@.len())[i as int] != p@[i as int]);
            return false;
        }
        i = i + 1;
    }
    assert(s@.subrange(k as int, k + p@.len()) =~= p@);
    true
}

/// The leftmost position at which `p` occurs in `s`, if any.
pub fn find_first(s: &Vec<char>, p: &Vec<char>) -> (r: Option<usize>)
    ensures
        match r {
            Some(k) => leftmost(s@, p@, k as int),
            None => !occurs(s@, p@),
        },
{
    if p.len() > s.len() {
        assert forall|k: int| !occurs_at(s@, p@, k) by {}
        return None;
    }
    let last = s.len() - p.len();
    let mut k: usize = 0;
    while k < last
        invariant
            k <= last,
            last + p@.len() == s@.len(),
            forall|j: int| 0 <= j < k ==> !occurs_at(s@, p@, j),
        decreases last - k,
    {
        if matches_at(s, p, k) {
            return Some(k);
        }
        k = k + 1;
    }
    if matches_at(s, p, k) {
        return Some(k);
    }
    assert forall|j: int| !occurs_at(s@, p@, j) by {
        if 0 <= j <= k {
        }
    }
    None
}

/// `s` with the leftmost occurrence of `p` replaced by `q`.
pub fn replace_first_exec(s: &Vec<char>, p: &Vec<char>, q: &Vec<char>) -> (r: Vec<char>)
    ensures
        r@ == replace_first(s@, p@, q@),
{
    match find_first(s, p) {
        None => s.clone(),
        Some(k) => {
            let n = s.len();
            let mut out: Vec<char> = Vec::new();
            let mut i: usize = 0;
            while i < k
                invariant
                    i <= k,
                    k <= s@.len(),
                    out@ == s@.subrange(0, i as int),
                decreases k - i,
            {
                out.push(s[i]);
                i = i + 1;
                assert(out@ =~= s@.subrange(0, i as int));
            }
            let mut i: usize = 0;
            while i < q.len()
                invariant
                    i <= q@.len(),
                    out@ == s@.subrange(0, k as int) + q@.subrange(0, i as int),
                decreases q@.len() - i,
            {
                out.push(q[i]);
                i = i + 1;
                assert(out@ =~= s@.subrange(0, k as int) + q@.subrange(0, i as int));
            }
            let mut i: usize = k + p.len();
            while i < n
                invariant
                    n == s@.len(),
                    k + p@.len() <= i <= s@.len(),
                    out@ == s@.subrange(0, k as int) + q@ + s@.subrange(k + p@.len(), i as int),
                decreases s@.len() - i,
            {
                out.push(s[i]);
                i = i + 1;
                assert(out@ =~= s@.subrange(0, k as int) + q@ + s@.subrange(k + p@.len(), i as int));
            }
            proof {
                assert(q@.subrange(0, q@.len() as int) =~= q@);
                let c = choose|c: int| leftmost(s@, p@, c);
                lemma_leftmost_unique(s@, p@, c, k as int);
            }
            out
        },
    }
}

/// The characters of `s`, in order.
pub fn chars_of(s: &str) -> (r: Vec<char>)
    ensures
        r@ == s@,
{
    broadcast use vstd::string::group_string_axioms;

    let mut it = s.chars();
    let mut out: Vec<char> = Vec::new();
    loop
        invariant
            it.obeys_prophetic_iter_laws(),
            it.decrease() is Some,
            out@ + it.remaining() == s@,
        ensures
            out@ == s@,
        decreases it.decrease()->0,
    {
        let ghost before = it.remaining();
        match it.next() {
            Some(c) => {
                out.push(c);
                assert(out@ + it.remaining() =~= s@);
            },
            None => {
                assert(before.len() == 0);
                assert(out@ =~= s@);
                break;
            },
        }
    }
    out
}

/// The string made of the characters of `v`, in order.
///
/// Relies on collecting a `char` iterator into a `String`: each character
/// appended once, in order.
#[verifier::external_body]
pub fn string_of(v: &Vec<char>) -> (r: String)
    ensures
        r@ == v@,
{
    v.iter().collect()
}

} // verus!
