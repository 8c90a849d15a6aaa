//! The solver: the closure of a rulebook's direct fallbacks and of the
//! widenings of what is found, breadth first and without duplicates.

use crate::locale::{extend_locales, push_locale, LanguageIdentifier, LocaleView};
use crate::omit::find_rules_omit_optparts;
use crate::order::take_in_locales;
use crate::rulebook::{PolyL10nRulebook, Rulebook};
use vstd::prelude::*;

verus! {

/// Finds the fallbacks of a locale by the rules of `rulebook`.
pub struct LocaleFallbackSolver<R: PolyL10nRulebook = Rulebook> {
    pub rulebook: R,
}

/// The direct fallbacks of `l`: what the rulebook makes, then what it holds.
pub open spec fn direct_fallbacks<R: PolyL10nRulebook>(rb: &R, l: LocaleView) -> Seq<LocaleView> {
    rb.fallback_locales(l) + rb.fallback_locales_ref(l)
}

/// What one found locale leads to: its direct fallbacks, then its widenings.
pub open spec fn neighbors<R: PolyL10nRulebook>(rb: &R, x: LocaleView) -> Seq<LocaleView> {
    direct_fallbacks(rb, x) + crate::omit::omissions(x)
}

/// What the locales of `frontier` lead to, in their order.
pub open spec fn expand<R: PolyL10nRulebook>(rb: &R, frontier: Seq<LocaleView>) -> Seq<LocaleView>
    decreases frontier.len(),
{
    if frontier.len() == 0 {
        Seq::empty()
    } else {
        expand(rb, frontier.drop_last()) + neighbors(rb, frontier.last())
    }
}

/// The search after `n` rounds: what has been found, in order, and how much
/// of it had been found a round earlier. The rest, its tail, is the frontier.
///
/// The search starts with the direct fallbacks of `l`, each once. A round
/// takes in what the frontier leads to, each locale unless it was found
/// before.
pub open spec fn progress<R: PolyL10nRulebook>(rb: &R, l: LocaleView, n: nat) -> (
    Seq<LocaleView>,
    nat,
)
    decreases n,
{
    if n == 0 {
        (crate::order::unique(direct_fallbacks(rb, l)), 0)
    } else {
        let (found, old) = progress(rb, l, (n - 1) as nat);
        (crate::order::take_in(found, expand(rb, found.skip(old as int))), found.len())
    }
}

/// Round `n` has nothing left to look at: the round before found nothing new.
pub open spec fn settled<R: PolyL10nRulebook>(rb: &R, l: LocaleView, n: nat) -> bool {
    progress(rb, l, n).1 == progress(rb, l, n).0.len()
}

/// `y` can be reached from `l` in at most `d` steps after the first: it is
/// a direct fallback of `l`, or one of the locales that a locale within
/// `d - 1` steps leads to.
pub open spec fn reached_within<R: PolyL10nRulebook>(
    rb: &R,
    l: LocaleView,
    d: nat,
    y: LocaleView,
) -> bool
    decreases d,
{
    if d == 0 {
        direct_fallbacks(rb, l).contains(y)
    } else {
        reached_within(rb, l, (d - 1) as nat, y) || exists|x: LocaleView|
            reached_within(rb, l, (d - 1) as nat, x) && #[trigger] neighbors(rb, x).contains(y)
    }
}

/// The locales that can be reached from `l` by the rules and by widening, in
/// any number of steps.
pub open spec fn reachable<R: PolyL10nRulebook>(rb: &R, l: LocaleView) -> Set<LocaleView> {
    Set::new(|y: LocaleView| exists|d: nat| reached_within(rb, l, d, y))
}

/// The fallbacks of `l`: what the search has found when it settles.
pub open spec fn closure<R: PolyL10nRulebook>(rb: &R, l: LocaleView) -> Seq<LocaleView> {
    progress(rb, l, choose|n: nat| settled(rb, l, n)).0
}

/// What has been found holds no locale twice, and a round keeps what the
/// rounds before it found, in place.
pub proof fn lemma_progress_grows<R: PolyL10nRulebook>(rb: &R, l: LocaleView, n: nat)
    ensures
        progress(rb, l, n).0.no_duplicates(),
        progress(rb, l, n).1 <= progress(rb, l, n).0.len(),
        n > 0 ==> progress(rb, l, n).1 == progress(rb, l, (n - 1) as nat).0.len(),
        n > 0 ==> progress(rb, l, n).0.take(progress(rb, l, n).1 as int) == progress(
            rb,
            l,
            (n - 1) as nat,
        ).0,
    decreases n,
{
    if n == 0 {
        crate::order::lemma_take_in_no_duplicates(Seq::empty(), direct_fallbacks(rb, l));
    } else {
        lemma_progress_grows(rb, l, (n - 1) as nat);
        let (found, old) = progress(rb, l, (n - 1) as nat);
        let more = expand(rb, found.skip(old as int));
        crate::order::lemma_take_in_no_duplicates(found, more);
        crate::order::lemma_take_in_extends(found, more);
    }
}

/// Once the search has settled, it stays as it is.
pub proof fn lemma_settled_stays<R: PolyL10nRulebook>(rb: &R, l: LocaleView, n: nat, m: nat)
    requires
        settled(rb, l, n),
        n <= m,
    ensures
        settled(rb, l, m),
        progress(rb, l, m).0 == progress(rb, l, n).0,
    decreases m - n,
{
    if n < m {
        lemma_settled_stays(rb, l, n, (m - 1) as nat);
        let (found, old) = progress(rb, l, (m - 1) as nat);
        assert(found.skip(old as int) =~= Seq::empty());
    }
}

/// The closure is what the search has found in any round in which it has
/// settled.
pub proof fn lemma_closure_is<R: PolyL10nRulebook>(rb: &R, l: LocaleView, n: nat)
    requires
        settled(rb, l, n),
    ensures
        closure(rb, l) == progress(rb, l, n).0,
{
    let m = choose|m: nat| settled(rb, l, m);
    if n <= m {
        lemma_settled_stays(rb, l, n, m);
    } else {
        lemma_settled_stays(rb, l, m, n);
    }
}

/// What the search has found is never more than what it can reach.
pub proof fn lemma_found_within_reach<R: PolyL10nRulebook>(rb: &R, l: LocaleView, n: nat)
    requires
        reachable(rb, l).finite(),
    ensures
        progress(rb, l, n).0.len() <= reachable(rb, l).len(),
{
    let found = progress(rb, l, n).0;
    lemma_progress_grows(rb, l, n);
    found.unique_seq_to_set();
    assert forall|x: LocaleView| found.to_set().contains(x) implies reachable(rb, l).contains(x) by {
        lemma_found_is_within(rb, l, n, x);
    }
    vstd::set_lib::lemma_len_subset(found.to_set(), reachable(rb, l));
}

/// What a frontier leads to is what its locales lead to.
proof fn lemma_expand_contains<R: PolyL10nRulebook>(rb: &R, frontier: Seq<LocaleView>, y: LocaleView)
    ensures
        expand(rb, frontier).contains(y) <==> exists|k: int|
            0 <= k < frontier.len() && neighbors(rb, #[trigger] frontier[k]).contains(y),
    decreases frontier.len(),
{
    if frontier.len() > 0 {
        let front = frontier.drop_last();
        lemma_expand_contains(rb, front, y);
        crate::order::lemma_concat_contains(expand(rb, front), neighbors(rb, frontier.last()), y);
        if expand(rb, front).contains(y) {
            let k = choose|k: int| 0 <= k < front.len() && neighbors(rb, #[trigger] front[k]).contains(y);
            assert(frontier[k] == front[k]);
        }
        if neighbors(rb, frontier.last()).contains(y) {
            assert(frontier[frontier.len() - 1] == frontier.last());
        }
        if exists|k: int| 0 <= k < frontier.len() && neighbors(rb, #[trigger] frontier[k]).contains(y) {
            let k = choose|k: int|
                0 <= k < frontier.len() && neighbors(rb, #[trigger] frontier[k]).contains(y);
            if k < front.len() {
                assert(front[k] == frontier[k]);
            }
        }
    }
}

/// What can be reached within some number of steps can be reached within more.
pub proof fn lemma_reached_within_more<R: PolyL10nRulebook>(
    rb: &R,
    l: LocaleView,
    d: nat,
    e: nat,
    y: LocaleView,
)
    requires
        d <= e,
        reached_within(rb, l, d, y),
    ensures
        reached_within(rb, l, e, y),
    decreases e - d,
{
    if d < e {
        lemma_reached_within_more(rb, l, d, (e - 1) as nat, y);
    }
}

/// After `n` rounds the search has found exactly what can be reached within
/// `n` steps.
pub proof fn lemma_found_is_within<R: PolyL10nRulebook>(rb: &R, l: LocaleView, n: nat, y: LocaleView)
    ensures
        progress(rb, l, n).0.contains(y) <==> reached_within(rb, l, n, y),
    decreases n,
{
    if n == 0 {
        crate::order::lemma_take_in_contains(Seq::empty(), direct_fallbacks(rb, l), y);
    } else {
        let before = (n - 1) as nat;
        let (found, old) = progress(rb, l, before);
        let frontier = found.skip(old as int);
        crate::order::lemma_take_in_contains(found, expand(rb, frontier), y);
        lemma_expand_contains(rb, frontier, y);
        lemma_found_is_within(rb, l, before, y);
        lemma_progress_grows(rb, l, before);
        if expand(rb, frontier).contains(y) {
            let k = choose|k: int|
                0 <= k < frontier.len() && neighbors(rb, #[trigger] frontier[k]).contains(y);
            let x = frontier[k];
            assert(found[old + k] == x);
            lemma_found_is_within(rb, l, before, x);
            assert(neighbors(rb, x).contains(y));
        }
        if reached_within(rb, l, n, y) && !reached_within(rb, l, before, y) {
            let x = choose|x: LocaleView|
                reached_within(rb, l, before, x) && #[trigger] neighbors(rb, x).contains(y);
            lemma_found_is_within(rb, l, before, x);
            let k = choose|k: int| 0 <= k < found.len() && found[k] == x;
            if k >= old {
                assert(frontier[k - old] == x);
            } else {
                let earlier = (before - 1) as nat;
                assert(progress(rb, l, earlier).0 == found.take(old as int));
                assert(found.take(old as int)[k] == x);
                lemma_found_is_within(rb, l, earlier, x);
                assert(reached_within(rb, l, before, y));
            }
        }
    }
}

/// What a round finds new cannot be reached in fewer steps.
pub proof fn lemma_new_is_deeper<R: PolyL10nRulebook>(rb: &R, l: LocaleView, n: nat, i: int)
    requires
        n > 0,
        progress(rb, l, n).1 <= i < progress(rb, l, n).0.len(),
    ensures
        !reached_within(rb, l, (n - 1) as nat, progress(rb, l, n).0[i]),
{
    let before = (n - 1) as nat;
    let found = progress(rb, l, n).0;
    let y = found[i];
    lemma_progress_grows(rb, l, n);
    lemma_found_is_within(rb, l, before, y);
    if progress(rb, l, before).0.contains(y) {
        let earlier = progress(rb, l, before).0;
        let k = choose|k: int| 0 <= k < earlier.len() && earlier[k] == y;
        assert(found.take(earlier.len() as int)[k] == found[k]);
        assert(found[k] == found[i]);
    }
}

/// Breadth first, round by round: in what the search has found, a locale
/// that can be reached within `d` steps is never behind one that cannot.
pub proof fn lemma_rounds_breadth_first<R: PolyL10nRulebook>(
    rb: &R,
    l: LocaleView,
    n: nat,
    i: int,
    j: int,
    d: nat,
)
    requires
        0 <= i <= j < progress(rb, l, n).0.len(),
        reached_within(rb, l, d, progress(rb, l, n).0[j]),
    ensures
        reached_within(rb, l, d, progress(rb, l, n).0[i]),
    decreases n,
{
    let found = progress(rb, l, n).0;
    let old = progress(rb, l, n).1;
    lemma_progress_grows(rb, l, n);
    if n == 0 {
        assert(found.contains(found[i]));
        lemma_found_is_within(rb, l, 0, found[i]);
        lemma_reached_within_more(rb, l, 0, d, found[i]);
    } else if j < old {
        let earlier = progress(rb, l, (n - 1) as nat).0;
        assert(found.take(old as int)[i] == found[i]);
        assert(found.take(old as int)[j] == found[j]);
        lemma_rounds_breadth_first(rb, l, (n - 1) as nat, i, j, d);
    } else {
        lemma_new_is_deeper(rb, l, n, j);
        if d < n {
            lemma_reached_within_more(rb, l, d, (n - 1) as nat, found[j]);
        }
        assert(found.contains(found[i]));
        lemma_found_is_within(rb, l, n, found[i]);
        lemma_reached_within_more(rb, l, n, d, found[i]);
    }
}

/// As long as the search has not settled, each round has found something.
proof fn lemma_unsettled_grows<R: PolyL10nRulebook>(rb: &R, l: LocaleView, n: nat)
    requires
        forall|m: nat| m <= n ==> !settled(rb, l, m),
    ensures
        progress(rb, l, n).0.len() >= n + 1,
    decreases n,
{
    lemma_progress_grows(rb, l, n);
    assert(!settled(rb, l, n));
    if n > 0 {
        lemma_unsettled_grows(rb, l, (n - 1) as nat);
    }
}

/// A search that can reach finitely many locales only settles.
pub proof fn lemma_search_ends<R: PolyL10nRulebook>(rb: &R, l: LocaleView)
    requires
        reachable(rb, l).finite(),
    ensures
        exists|n: nat| settled(rb, l, n),
{
    let bound = reachable(rb, l).len();
    if forall|m: nat| m <= bound ==> !settled(rb, l, m) {
        lemma_unsettled_grows(rb, l, bound);
        lemma_found_within_reach(rb, l, bound);
    }
}

/// The locales of `u` lead to locales of `u` only.
pub open spec fn closed_under<R: PolyL10nRulebook>(rb: &R, u: Set<LocaleView>) -> bool {
    forall|x: LocaleView, y: LocaleView|
        u.contains(x) && #[trigger] neighbors(rb, x).contains(y) ==> u.contains(y)
}

/// What can be reached lies in every set that holds the direct fallbacks of
/// `l` and is closed under the rules and under widening.
proof fn lemma_reached_in_closed<R: PolyL10nRulebook>(
    rb: &R,
    l: LocaleView,
    u: Set<LocaleView>,
    d: nat,
    y: LocaleView,
)
    requires
        closed_under(rb, u),
        forall|x: LocaleView| direct_fallbacks(rb, l).contains(x) ==> u.contains(x),
        reached_within(rb, l, d, y),
    ensures
        u.contains(y),
    decreases d,
{
    if d > 0 {
        if reached_within(rb, l, (d - 1) as nat, y) {
            lemma_reached_in_closed(rb, l, u, (d - 1) as nat, y);
        } else {
            let x = choose|x: LocaleView|
                reached_within(rb, l, (d - 1) as nat, x) && #[trigger] neighbors(rb, x).contains(y);
            lemma_reached_in_closed(rb, l, u, (d - 1) as nat, x);
        }
    }
}

/// The search can reach finitely many locales only where a finite set holds
/// the direct fallbacks of `l` and is closed under the rules and under
/// widening.
pub proof fn lemma_finite_reach<R: PolyL10nRulebook>(rb: &R, l: LocaleView, u: Set<LocaleView>)
    requires
        u.finite(),
        closed_under(rb, u),
        forall|x: LocaleView| direct_fallbacks(rb, l).contains(x) ==> u.contains(x),
    ensures
        reachable(rb, l).finite(),
{
    assert forall|y: LocaleView| reachable(rb, l).contains(y) implies u.contains(y) by {
        let d = choose|d: nat| reached_within(rb, l, d, y);
        lemma_reached_in_closed(rb, l, u, d, y);
    }
    vstd::set_lib::lemma_len_subset(reachable(rb, l), u);
}

/// `found` is in breadth-first order: a locale that can be reached within `d`
/// steps is never behind one that cannot, whatever `d` is.
pub open spec fn breadth_first<R: PolyL10nRulebook>(
    rb: &R,
    l: LocaleView,
    found: Seq<LocaleView>,
) -> bool {
    forall|i: int, j: int, d: nat|
        #![trigger reached_within(rb, l, d, found[j]), found[i]]
        0 <= i <= j < found.len() && reached_within(rb, l, d, found[j]) ==> reached_within(
            rb,
            l,
            d,
            found[i],
        )
}

/// `d` is the depth of `y`: the least number of steps within which it can be
/// reached.
pub open spec fn is_depth<R: PolyL10nRulebook>(rb: &R, l: LocaleView, y: LocaleView, d: nat) -> bool {
    reached_within(rb, l, d, y) && (d > 0 ==> !reached_within(rb, l, (d - 1) as nat, y))
}

/// The fallbacks of `l` hold no locale twice, for every rulebook and every
/// locale.
pub proof fn lemma_closure_no_duplicates<R: PolyL10nRulebook>(rb: &R, l: LocaleView)
    ensures
        closure(rb, l).no_duplicates(),
{
    lemma_progress_grows(rb, l, choose|n: nat| settled(rb, l, n));
}

/// Breadth first: the fallbacks of `l` come grouped by the number of steps
/// that it takes to reach them, the nearest first, for every rulebook and
/// every locale.
pub proof fn lemma_breadth_first<R: PolyL10nRulebook>(rb: &R, l: LocaleView)
    ensures
        breadth_first(rb, l, closure(rb, l)),
{
    let n = choose|n: nat| settled(rb, l, n);
    let found = closure(rb, l);
    assert forall|i: int, j: int, d: nat|
        #![trigger reached_within(rb, l, d, found[j]), found[i]]
        0 <= i <= j < found.len() && reached_within(rb, l, d, found[j]) implies reached_within(
        rb,
        l,
        d,
        found[i],
    ) by {
        lemma_rounds_breadth_first(rb, l, n, i, j, d);
    }
}

/// In the fallbacks of `l`, no locale stands before one of lesser depth.
pub proof fn lemma_depth_order<R: PolyL10nRulebook>(
    rb: &R,
    l: LocaleView,
    i: int,
    j: int,
    a: nat,
    b: nat,
)
    requires
        0 <= i <= j < closure(rb, l).len(),
        is_depth(rb, l, closure(rb, l)[i], a),
        is_depth(rb, l, closure(rb, l)[j], b),
    ensures
        a <= b,
{
    lemma_breadth_first(rb, l);
    let found = closure(rb, l);
    assert(reached_within(rb, l, b, found[j]));
    assert(reached_within(rb, l, b, found[i]));
    if b < a {
        lemma_reached_within_more(rb, l, b, (a - 1) as nat, found[i]);
    }
}

/// The fallbacks of `l` are the locales that can be reached from it, each of
/// them once.
pub proof fn lemma_closure_complete<R: PolyL10nRulebook>(rb: &R, l: LocaleView, y: LocaleView)
    requires
        reachable(rb, l).finite(),
    ensures
        closure(rb, l).no_duplicates(),
        closure(rb, l).contains(y) <==> reachable(rb, l).contains(y),
{
    lemma_search_ends(rb, l);
    let n = choose|n: nat| settled(rb, l, n);
    lemma_progress_grows(rb, l, n);
    lemma_found_is_within(rb, l, n, y);
    if exists|d: nat| reached_within(rb, l, d, y) {
        let d = choose|d: nat| reached_within(rb, l, d, y);
        if d <= n {
            lemma_reached_within_more(rb, l, d, n, y);
        } else {
            lemma_settled_stays(rb, l, n, d);
            lemma_found_is_within(rb, l, d, y);
        }
    }
}

impl<R: PolyL10nRulebook> LocaleFallbackSolver<R> {
    /// The direct fallbacks of `l`: what the rulebook makes, then copies of
    /// what it holds.
    pub fn direct_fallbacks(&self, l: &LanguageIdentifier) -> (r: Vec<LanguageIdentifier>)
        ensures
            r.deep_view() == direct_fallbacks(&self.rulebook, l@),
    {
        let mut out = self.rulebook.find_fallback_locale(l);
        let held = self.rulebook.find_fallback_locale_ref(l);
        let ghost made = out.deep_view();
        let mut i: usize = 0;
        assert(out.deep_view() =~= made + held.deep_view().take(0));
        while i < held.len()
            invariant
                i <= held.len(),
                out.deep_view() == made + held.deep_view().take(i as int),
            decreases held.len() - i,
        {
            let ghost before = out.deep_view();
            push_locale(&mut out, held[i].clone());
            i += 1;
            assert(out.deep_view() =~= made + held.deep_view().take(i as int)) by {
                assert(held.deep_view()[i as int - 1] == held[i as int - 1]@);
            }
        }
        assert(held.deep_view().take(held.len() as int) =~= held.deep_view());
        out
    }

    /// What the locales `found[from..]` lead to, in their order.
    fn expand_frontier(&self, found: &Vec<LanguageIdentifier>, from: usize) -> (r: Vec<
        LanguageIdentifier,
    >)
        requires
            from <= found.len(),
        ensures
            r.deep_view() == expand(&self.rulebook, found.deep_view().skip(from as int)),
    {
        let ghost frontier = found.deep_view().skip(from as int);
        let mut out: Vec<LanguageIdentifier> = Vec::new();
        let mut i: usize = from;
        assert(out.deep_view() =~= Seq::empty());
        assert(frontier.take(0) =~= Seq::empty());
        while i < found.len()
            invariant
                from <= i <= found.len(),
                frontier == found.deep_view().skip(from as int),
                out.deep_view() == expand(&self.rulebook, frontier.take(i - from)),
            decreases found.len() - i,
        {
            let direct = self.direct_fallbacks(&found[i]);
            extend_locales(&mut out, &direct);
            let weaker = find_rules_omit_optparts(&found[i]);
            extend_locales(&mut out, &weaker);
            i += 1;
            proof {
                let done = frontier.take(i - from);
                assert(done.drop_last() =~= frontier.take(i - from - 1));
                assert(done.last() == found[i as int - 1]@);
                assert(out.deep_view() =~= expand(&self.rulebook, done));
            }
        }
        assert(frontier.take(found.len() - from) =~= frontier);
        out
    }

    /// The fallbacks of `locale`: the closure of the direct fallbacks of the
    /// rulebook and of the widenings of what is found.
    ///
    /// The list starts with the direct fallbacks of `locale`. Then, round by
    /// round, it takes in what the locales of the round before lead to: for
    /// each of them its direct fallbacks and then its widenings. No locale
    /// comes twice; each stands where it was found first. `locale` itself is
    /// in the list only where a rule leads back to it.
    ///
    /// The list is in breadth-first order: the locales that take fewer steps
    /// to reach come first.
    ///
    /// The search ends because finitely many locales can be reached from
    /// `locale`: that is what is asked of the rulebook.
    pub fn solve_locale(&self, locale: &LanguageIdentifier) -> (r: Vec<LanguageIdentifier>)
        requires
            reachable(&self.rulebook, locale@).finite(),
        ensures
            r.deep_view() == closure(&self.rulebook, locale@),
            r.deep_view().no_duplicates(),
            breadth_first(&self.rulebook, locale@, r.deep_view()),
    {
        let seeds = self.direct_fallbacks(locale);
        let mut locales: Vec<LanguageIdentifier> = Vec::new();
        assert(locales.deep_view() =~= Seq::empty());
        take_in_locales(&mut locales, &seeds);
        let mut old_len: usize = 0;
        let ghost mut n: nat = 0;
        while old_len != locales.len()
            invariant
                reachable(&self.rulebook, locale@).finite(),
                old_len <= locales.len(),
                locales.deep_view().len() == locales.len(),
                (locales.deep_view(), old_len as nat) == progress(&self.rulebook, locale@, n),
            decreases reachable(&self.rulebook, locale@).len() - old_len,
        {
            proof {
                lemma_found_within_reach(&self.rulebook, locale@, n);
            }
            let found = locales.len();
            let more = self.expand_frontier(&locales, old_len);
            take_in_locales(&mut locales, &more);
            old_len = found;
            proof {
                n = n + 1;
                lemma_progress_grows(&self.rulebook, locale@, n);
            }
        }
        proof {
            lemma_closure_is(&self.rulebook, locale@, n);
            lemma_progress_grows(&self.rulebook, locale@, n);
            lemma_breadth_first(&self.rulebook, locale@);
        }
        locales
    }
}

impl Default for LocaleFallbackSolver<Rulebook> {
    /// The solver with the rulebook of the default rules. Its search ends for
    /// every locale.
    fn default() -> (r: LocaleFallbackSolver<Rulebook>)
        ensures
            forall|l: LocaleView| #[trigger]
                r.rulebook.fallback_locales(l) == crate::default_rulebook::default_fallbacks(l),
            forall|l: LocaleView| #[trigger]
                r.rulebook.fallback_locales_ref(l) == Seq::<LocaleView>::empty(),
            forall|l: LocaleView| #[trigger] reachable(&r.rulebook, l).finite(),
    {
        let r = LocaleFallbackSolver { rulebook: Rulebook::default() };
        proof {
            assert forall|l: LocaleView| #[trigger] reachable(&r.rulebook, l).finite() by {
                crate::convergence::lemma_default_rules_converge(&r.rulebook, l);
            }
        }
        r
    }
}

} // verus!
