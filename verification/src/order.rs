//! Keeping first occurrences: a list takes in candidates in order, each one
//! unless it is already there.

use crate::locale::{push_locale, LanguageIdentifier};
use vstd::prelude::*;

verus! {

/// `seen` after it has taken in `cands` in order: a candidate is appended
/// unless the list holds it already.
pub open spec fn take_in<A>(seen: Seq<A>, cands: Seq<A>) -> Seq<A>
    decreases cands.len(),
{
    if cands.len() == 0 {
        seen
    } else {
        let prev = take_in(seen, cands.drop_last());
        if prev.contains(cands.last()) {
            prev
        } else {
            prev.push(cands.last())
        }
    }
}

/// The first occurrence of each item of `s`, in order.
pub open spec fn unique<A>(s: Seq<A>) -> Seq<A> {
    take_in(Seq::empty(), s)
}

/// A list made of two holds what either of them holds.
pub proof fn lemma_concat_contains<A>(a: Seq<A>, b: Seq<A>, y: A)
    ensures
        (a + b).contains(y) <==> a.contains(y) || b.contains(y),
{
    if a.contains(y) {
        let i = choose|i: int| 0 <= i < a.len() && a[i] == y;
        assert((a + b)[i] == y);
    }
    if b.contains(y) {
        let i = choose|i: int| 0 <= i < b.len() && b[i] == y;
        assert((a + b)[a.len() + i] == y);
    }
    if (a + b).contains(y) {
        let i = choose|i: int| 0 <= i < (a + b).len() && (a + b)[i] == y;
        if i < a.len() {
            assert(a[i] == y);
        } else {
            assert(b[i - a.len()] == y);
        }
    }
}

/// Taking candidates in only appends: the list starts as it was.
pub proof fn lemma_take_in_extends<A>(seen: Seq<A>, cands: Seq<A>)
    ensures
        seen.len() <= take_in(seen, cands).len() <= seen.len() + cands.len(),
        take_in(seen, cands).take(seen.len() as int) == seen,
    decreases cands.len(),
{
    if cands.len() == 0 {
        assert(seen.take(seen.len() as int) =~= seen);
    } else {
        lemma_take_in_extends(seen, cands.drop_last());
        let prev = take_in(seen, cands.drop_last());
        assert(prev.push(cands.last()).take(seen.len() as int) =~= prev.take(seen.len() as int));
    }
}

/// A list holds, after taking candidates in, what it held and the candidates,
/// and nothing else.
pub proof fn lemma_take_in_contains<A>(seen: Seq<A>, cands: Seq<A>, x: A)
    ensures
        take_in(seen, cands).contains(x) <==> seen.contains(x) || cands.contains(x),
    decreases cands.len(),
{
    if cands.len() > 0 {
        let front = cands.drop_last();
        let prev = take_in(seen, front);
        lemma_take_in_contains(seen, front, x);
        if cands.contains(x) {
            let i = choose|i: int| 0 <= i < cands.len() && cands[i] == x;
            if i < front.len() {
                assert(front[i] == x);
            }
        }
        if front.contains(x) {
            let i = choose|i: int| 0 <= i < front.len() && front[i] == x;
            assert(cands[i] == x);
        }
        assert(cands[cands.len() - 1] == cands.last());
        if !prev.contains(cands.last()) {
            let next = prev.push(cands.last());
            assert(next[next.len() - 1] == cands.last());
            if prev.contains(x) {
                let i = choose|i: int| 0 <= i < prev.len() && prev[i] == x;
                assert(next[i] == x);
            }
            if next.contains(x) {
                let i = choose|i: int| 0 <= i < next.len() && next[i] == x;
                if i < prev.len() {
                    assert(prev[i] == x);
                }
            }
        }
    }
}

/// A list without duplicates has none after taking candidates in.
pub proof fn lemma_take_in_no_duplicates<A>(seen: Seq<A>, cands: Seq<A>)
    requires
        seen.no_duplicates(),
    ensures
        take_in(seen, cands).no_duplicates(),
    decreases cands.len(),
{
    if cands.len() > 0 {
        lemma_take_in_no_duplicates(seen, cands.drop_last());
    }
}

/// Takes the locales of `cands` into `seen`, in order, each one unless the
/// list holds it already.
pub fn take_in_locales(seen: &mut Vec<LanguageIdentifier>, cands: &Vec<LanguageIdentifier>)
    ensures
        final(seen).deep_view() == take_in(old(seen).deep_view(), cands.deep_view()),
{
    let ghost start = seen.deep_view();
    let mut i: usize = 0;
    assert(cands.deep_view().take(0) =~= Seq::empty());
    while i < cands.len()
        invariant
            i <= cands.len(),
            seen.deep_view() == take_in(start, cands.deep_view().take(i as int)),
        decreases cands.len() - i,
    {
        let known = cands[i].is_in(seen);
        if !known {
            push_locale(seen, cands[i].clone());
        }
        i += 1;
        proof {
            let done = cands.deep_view().take(i as int);
            assert(done.drop_last() =~= cands.deep_view().take(i as int - 1));
            assert(done.last() == cands[i as int - 1]@);
        }
    }
    assert(cands.deep_view().take(cands.len() as int) =~= cands.deep_view());
}

} // verus!
