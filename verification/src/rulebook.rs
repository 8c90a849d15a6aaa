//! Rulebooks: what gives the direct fallbacks of a locale.

use crate::default_rulebook::default_rulebook_with;
use crate::locale::{extend_locales, LanguageIdentifier, LocaleView};
use crate::per_lang_default_rules::LangRules;
use std::rc::Rc;
use vstd::prelude::*;

verus! {

/// A source of direct fallbacks.
///
/// A rulebook gives its fallbacks as values of its own making
/// ([`Self::find_fallback_locale`]), or as references into a table that it
/// owns ([`Self::find_fallback_locale_ref`]), or both: the solver takes the
/// first list and then the second. What it gives depends on the locale alone:
/// the two spec functions say what that is.
pub trait PolyL10nRulebook {
    /// What [`Self::find_fallback_locale`] gives for `l`.
    open spec fn fallback_locales(&self, l: LocaleView) -> Seq<LocaleView> {
        Seq::empty()
    }

    /// What [`Self::find_fallback_locale_ref`] gives for `l`.
    open spec fn fallback_locales_ref(&self, l: LocaleView) -> Seq<LocaleView> {
        Seq::empty()
    }

    /// The direct fallbacks of `l` that this rulebook makes.
    fn find_fallback_locale(&self, l: &LanguageIdentifier) -> (r: Vec<LanguageIdentifier>)
        ensures
            r.deep_view() == self.fallback_locales(l@),
    ;

    /// The direct fallbacks of `l` that this rulebook holds.
    fn find_fallback_locale_ref<'a>(&'a self, l: &LanguageIdentifier) -> (r: Vec<
        &'a LanguageIdentifier,
    >)
        ensures
            r.deep_view() == self.fallback_locales_ref(l@),
    ;
}

/// One rule of a [`Rulebook`]: anything that gives fallbacks.
pub struct Rule(pub Box<dyn PolyL10nRulebook>);

/// The rules of a [`Rulebook`], in the order in which they are asked.
pub type FnRules = Vec<Rule>;

/// Whether `f` can stand as a rule: it accepts every locale, and what it
/// returns depends on the value of the locale alone.
pub open spec fn is_rule<F: Fn(&LanguageIdentifier) -> Vec<LanguageIdentifier>>(f: F) -> bool {
    &&& forall|l: &LanguageIdentifier| call_requires(f, (l,))
    &&& forall|
        a: &LanguageIdentifier,
        b: &LanguageIdentifier,
        x: Vec<LanguageIdentifier>,
        y: Vec<LanguageIdentifier>,
    |
        a@ == b@ && call_ensures(f, (a,), x) && call_ensures(f, (b,), y) ==> x.deep_view()
            == y.deep_view()
}

/// What the function `f` returns for a locale of value `l`.
pub open spec fn rule_output<F: Fn(&LanguageIdentifier) -> Vec<LanguageIdentifier>>(
    f: F,
    l: LocaleView,
) -> Seq<LocaleView> {
    let (a, x) = choose|a: &LanguageIdentifier, x: Vec<LanguageIdentifier>|
        a@ == l && call_ensures(f, (a,), x);
    x.deep_view()
}

/// A function as a rule.
pub struct FnRule<F: Fn(&LanguageIdentifier) -> Vec<LanguageIdentifier>> {
    f: F,
}

impl<F: Fn(&LanguageIdentifier) -> Vec<LanguageIdentifier>> FnRule<F> {
    /// The function can stand as a rule.
    #[verifier::type_invariant]
    spec fn holds_a_rule(self) -> bool {
        is_rule(self.f)
    }

    /// The function.
    pub closed spec fn function(self) -> F {
        self.f
    }

    /// The function `f` as a rule.
    pub fn new(f: F) -> (r: Self)
        requires
            is_rule(f),
        ensures
            r.function() == f,
    {
        FnRule { f }
    }
}

impl<F: Fn(&LanguageIdentifier) -> Vec<LanguageIdentifier>> PolyL10nRulebook for FnRule<F> {
    open spec fn fallback_locales(&self, l: LocaleView) -> Seq<LocaleView> {
        rule_output(self.function(), l)
    }

    fn find_fallback_locale(&self, l: &LanguageIdentifier) -> (r: Vec<LanguageIdentifier>) {
        proof {
            use_type_invariant(self);
        }
        let r = (self.f)(l);
        proof {
            let (a, x) = choose|a: &LanguageIdentifier, x: Vec<LanguageIdentifier>|
                a@ == l@ && call_ensures(self.f, (a,), x);
            assert(a@ == l@ && call_ensures(self.f, (a,), x));
        }
        r
    }

    fn find_fallback_locale_ref<'a>(&'a self, l: &LanguageIdentifier) -> (r: Vec<
        &'a LanguageIdentifier,
    >) {
        let r: Vec<&'a LanguageIdentifier> = Vec::new();
        assert(r.deep_view() =~= Seq::empty());
        r
    }
}

/// What the rules give for `l`, one after the other.
pub open spec fn rules_output(rules: Seq<Rule>, l: LocaleView) -> Seq<
    LocaleView,
>
    decreases rules.len(),
{
    if rules.len() == 0 {
        Seq::empty()
    } else {
        rules_output(rules.drop_last(), l) + rules.last().0.fallback_locales(l)
    }
}

/// An ordered list of rules, with whatever the rules share.
pub struct Rulebook<A = ()> {
    pub rules: FnRules,
    pub owned_values: A,
}

impl<A> PolyL10nRulebook for Rulebook<A> {
    open spec fn fallback_locales(&self, l: LocaleView) -> Seq<LocaleView> {
        rules_output(self.rules@, l)
    }

    fn find_fallback_locale(&self, l: &LanguageIdentifier) -> (r: Vec<LanguageIdentifier>) {
        let mut out: Vec<LanguageIdentifier> = Vec::new();
        let mut i: usize = 0;
        assert(out.deep_view() =~= Seq::empty());
        assert(self.rules@.take(0) =~= Seq::empty());
        while i < self.rules.len()
            invariant
                i <= self.rules.len(),
                out.deep_view() == rules_output(self.rules@.take(i as int), l@),
            decreases self.rules.len() - i,
        {
            let more = self.rules[i].0.find_fallback_locale(l);
            extend_locales(&mut out, &more);
            i += 1;
            proof {
                let done = self.rules@.take(i as int);
                assert(done.drop_last() =~= self.rules@.take(i as int - 1));
                assert(done.last() == self.rules@[i as int - 1]);
            }
        }
        assert(self.rules@.take(self.rules.len() as int) =~= self.rules@);
        out
    }

    fn find_fallback_locale_ref<'a>(&'a self, l: &LanguageIdentifier) -> (r: Vec<
        &'a LanguageIdentifier,
    >) {
        let r: Vec<&'a LanguageIdentifier> = Vec::new();
        assert(r.deep_view() =~= Seq::empty());
        r
    }
}

/// The function `f` as one rule of a [`Rulebook`].
fn fn_rule<F: Fn(&LanguageIdentifier) -> Vec<LanguageIdentifier> + 'static>(f: F) -> (r: Rule)
    requires
        is_rule(f),
    ensures
        forall|l: LocaleView| #[trigger] r.0.fallback_locales(l) == rule_output(f, l),
{
    Rule(Box::new(FnRule::new(f)))
}

/// The rulebook that holds `rule` alone.
fn single<A>(rule: Rule, owned_values: A) -> (r: Rulebook<A>)
    ensures
        r.rules@ == seq![rule],
        r.owned_values == owned_values,
        forall|l: LocaleView| #[trigger] r.fallback_locales(l) == rule.0.fallback_locales(l),
{
    let mut rules: Vec<Rule> = Vec::new();
    rules.push(rule);
    let r = Rulebook { rules, owned_values };
    assert(r.rules@ =~= seq![rule]);
    assert forall|l: LocaleView| #[trigger] r.fallback_locales(l) == rule.0.fallback_locales(l) by {
        assert(r.rules@.drop_last() =~= Seq::empty());
        assert(r.rules@.last() == rule);
        assert(rules_output(r.rules@.drop_last(), l) =~= Seq::empty());
    }
    r
}

/// The default rules, with the rule table that they read.
pub struct DefaultRule {
    pub table: LangRules,
}

impl PolyL10nRulebook for DefaultRule {
    open spec fn fallback_locales(&self, l: LocaleView) -> Seq<LocaleView> {
        crate::default_rulebook::default_fallbacks(l)
    }

    fn find_fallback_locale(&self, l: &LanguageIdentifier) -> (r: Vec<LanguageIdentifier>) {
        default_rulebook_with(&self.table, l)
    }

    fn find_fallback_locale_ref<'a>(&'a self, l: &LanguageIdentifier) -> (r: Vec<
        &'a LanguageIdentifier,
    >) {
        let r: Vec<&'a LanguageIdentifier> = Vec::new();
        assert(r.deep_view() =~= Seq::empty());
        r
    }
}

/// The default rules as one rule of a [`Rulebook`], with a table of their own.
fn default_rule() -> (r: Rule)
    ensures
        forall|l: LocaleView| #[trigger]
            r.0.fallback_locales(l) == crate::default_rulebook::default_fallbacks(l),
{
    Rule(Box::new(DefaultRule { table: LangRules::new() }))
}

/// What a table gives for `l`: the fallbacks of the first entry whose key is
/// `l`, and nothing where no key is.
pub open spec fn table_lookup(entries: Seq<(LocaleView, Seq<LocaleView>)>, l: LocaleView) -> Seq<
    LocaleView,
>
    decreases entries.len(),
{
    if entries.len() == 0 {
        Seq::empty()
    } else if entries[0].0 == l {
        entries[0].1
    } else {
        table_lookup(entries.drop_first(), l)
    }
}

/// Whether a table has an entry whose key is `l`.
pub open spec fn table_has(entries: Seq<(LocaleView, Seq<LocaleView>)>, l: LocaleView) -> bool {
    exists|k: int| 0 <= k < entries.len() && (#[trigger] entries[k]).0 == l
}

/// A rulebook that is a table: each entry is a locale with its direct
/// fallbacks. It hands out references to what it holds.
pub struct MapRules {
    pub entries: Vec<(LanguageIdentifier, Vec<LanguageIdentifier>)>,
}

impl MapRules {
    /// The fallbacks of the first entry whose key is `l`.
    pub fn find<'a>(&'a self, l: &LanguageIdentifier) -> (r: Option<&'a Vec<LanguageIdentifier>>)
        ensures
            r is Some <==> table_has(self.entries.deep_view(), l@),
            match r {
                Some(found) => found.deep_view() == table_lookup(self.entries.deep_view(), l@),
                None => table_lookup(self.entries.deep_view(), l@) == Seq::<LocaleView>::empty(),
            },
    {
        let ghost all = self.entries.deep_view();
        let mut i: usize = 0;
        assert(all.skip(0) =~= all);
        while i < self.entries.len()
            invariant
                all == self.entries.deep_view(),
                i <= self.entries.len(),
                table_lookup(all, l@) == table_lookup(all.skip(i as int), l@),
                forall|k: int| 0 <= k < i ==> (#[trigger] all[k]).0 != l@,
            decreases self.entries.len() - i,
        {
            assert(all.skip(i as int)[0] == all[i as int]);
            assert(all[i as int] == self.entries[i as int].deep_view());
            if self.entries[i].0.same_as(l) {
                return Some(&self.entries[i].1);
            }
            assert(all.skip(i as int).drop_first() =~= all.skip(i as int + 1));
            i += 1;
        }
        assert(all.skip(i as int) =~= Seq::empty());
        None
    }
}

impl PolyL10nRulebook for MapRules {
    open spec fn fallback_locales_ref(&self, l: LocaleView) -> Seq<LocaleView> {
        table_lookup(self.entries.deep_view(), l)
    }

    fn find_fallback_locale(&self, l: &LanguageIdentifier) -> (r: Vec<LanguageIdentifier>) {
        let r: Vec<LanguageIdentifier> = Vec::new();
        assert(r.deep_view() =~= Seq::empty());
        r
    }

    fn find_fallback_locale_ref<'a>(&'a self, l: &LanguageIdentifier) -> (r: Vec<
        &'a LanguageIdentifier,
    >) {
        let mut out: Vec<&'a LanguageIdentifier> = Vec::new();
        match self.find(l) {
            Some(found) => {
                let mut i: usize = 0;
                while i < found.len()
                    invariant
                        i <= found.len(),
                        out.len() == i,
                        forall|k: int| 0 <= k < i ==> out[k]@ == found[k]@,
                    decreases found.len() - i,
                {
                    out.push(&found[i]);
                    i += 1;
                }
                assert(out.deep_view() =~= found.deep_view());
            },
            None => {
                assert(out.deep_view() =~= Seq::empty());
            },
        }
        out
    }
}

/// A table as a rule that hands out copies of what the table holds.
pub struct MapCopies {
    pub map: MapRules,
}

impl PolyL10nRulebook for MapCopies {
    open spec fn fallback_locales(&self, l: LocaleView) -> Seq<LocaleView> {
        table_lookup(self.map.entries.deep_view(), l)
    }

    fn find_fallback_locale(&self, l: &LanguageIdentifier) -> (r: Vec<LanguageIdentifier>) {
        let mut out: Vec<LanguageIdentifier> = Vec::new();
        assert(out.deep_view() =~= Seq::empty());
        match self.map.find(l) {
            Some(found) => {
                extend_locales(&mut out, found);
                assert(out.deep_view() =~= found.deep_view());
            },
            None => {},
        }
        out
    }

    fn find_fallback_locale_ref<'a>(&'a self, l: &LanguageIdentifier) -> (r: Vec<
        &'a LanguageIdentifier,
    >) {
        let r: Vec<&'a LanguageIdentifier> = Vec::new();
        assert(r.deep_view() =~= Seq::empty());
        r
    }
}

/// A table as one rule of a [`Rulebook`].
fn map_rule(map: MapRules) -> (r: Rule)
    ensures
        forall|l: LocaleView| #[trigger]
            r.0.fallback_locales(l) == table_lookup(map.entries.deep_view(), l),
{
    Rule(Box::new(MapCopies { map }))
}

/// What the rulebooks give for `l`, one after the other.
pub open spec fn books_output<A>(books: Seq<Rulebook<A>>, l: LocaleView) -> Seq<LocaleView>
    decreases books.len(),
{
    if books.len() == 0 {
        Seq::empty()
    } else {
        books_output(books.drop_last(), l) + rules_output(books.last().rules@, l)
    }
}

/// What the shared rulebooks give for `l`, one after the other.
pub open spec fn shared_books_output<A>(books: Seq<Rc<Rulebook<A>>>, l: LocaleView) -> Seq<
    LocaleView,
>
    decreases books.len(),
{
    if books.len() == 0 {
        Seq::empty()
    } else {
        shared_books_output(books.drop_last(), l) + rules_output(books.last().rules@, l)
    }
}

/// `Rc::clone`: another pointer to the same value.
#[verifier::external_body]
fn share<T>(rc: &Rc<T>) -> (r: Rc<T>)
    ensures
        r == *rc,
{
    Rc::clone(rc)
}

/// Rulebooks as one rule: each is asked in turn.
pub struct Combined {
    pub children: Rc<Vec<Rulebook>>,
}

impl PolyL10nRulebook for Combined {
    open spec fn fallback_locales(&self, l: LocaleView) -> Seq<LocaleView> {
        books_output(self.children@, l)
    }

    fn find_fallback_locale(&self, l: &LanguageIdentifier) -> (r: Vec<LanguageIdentifier>) {
        let mut out: Vec<LanguageIdentifier> = Vec::new();
        let mut i: usize = 0;
        assert(out.deep_view() =~= Seq::empty());
        assert(self.children@.take(0) =~= Seq::empty());
        while i < self.children.len()
            invariant
                i <= self.children.len(),
                out.deep_view() == books_output(self.children@.take(i as int), l@),
            decreases self.children.len() - i,
        {
            let more = self.children[i].find_fallback_locale(l);
            extend_locales(&mut out, &more);
            i += 1;
            proof {
                let done = self.children@.take(i as int);
                assert(done.drop_last() =~= self.children@.take(i as int - 1));
                assert(done.last() == self.children@[i as int - 1]);
            }
        }
        assert(self.children@.take(self.children.len() as int) =~= self.children@);
        out
    }

    fn find_fallback_locale_ref<'a>(&'a self, l: &LanguageIdentifier) -> (r: Vec<
        &'a LanguageIdentifier,
    >) {
        let r: Vec<&'a LanguageIdentifier> = Vec::new();
        assert(r.deep_view() =~= Seq::empty());
        r
    }
}

/// Rulebooks as one rule of a [`Rulebook`].
fn combined_rule(children: Rc<Vec<Rulebook>>) -> (r: Rule)
    ensures
        forall|l: LocaleView| #[trigger] r.0.fallback_locales(l) == books_output(children@, l),
{
    Rule(Box::new(Combined { children }))
}

/// Shared rulebooks as one rule: each is asked in turn.
pub struct CombinedShared<R: 'static> {
    pub children: Rc<Vec<Rc<Rulebook<R>>>>,
}

impl<R: 'static> PolyL10nRulebook for CombinedShared<R> {
    open spec fn fallback_locales(&self, l: LocaleView) -> Seq<LocaleView> {
        shared_books_output(self.children@, l)
    }

    fn find_fallback_locale(&self, l: &LanguageIdentifier) -> (r: Vec<LanguageIdentifier>) {
        let mut out: Vec<LanguageIdentifier> = Vec::new();
        let mut i: usize = 0;
        assert(out.deep_view() =~= Seq::empty());
        assert(self.children@.take(0) =~= Seq::empty());
        while i < self.children.len()
            invariant
                i <= self.children.len(),
                out.deep_view() == shared_books_output(self.children@.take(i as int), l@),
            decreases self.children.len() - i,
        {
            let more = self.children[i].find_fallback_locale(l);
            extend_locales(&mut out, &more);
            i += 1;
            proof {
                let done = self.children@.take(i as int);
                assert(done.drop_last() =~= self.children@.take(i as int - 1));
                assert(done.last() == self.children@[i as int - 1]);
            }
        }
        assert(self.children@.take(self.children.len() as int) =~= self.children@);
        out
    }

    fn find_fallback_locale_ref<'a>(&'a self, l: &LanguageIdentifier) -> (r: Vec<
        &'a LanguageIdentifier,
    >) {
        let r: Vec<&'a LanguageIdentifier> = Vec::new();
        assert(r.deep_view() =~= Seq::empty());
        r
    }
}

/// Shared rulebooks as one rule of a [`Rulebook`].
fn combined_shared_rule<R: 'static>(children: Rc<Vec<Rc<Rulebook<R>>>>) -> (r: Rule)
    ensures
        forall|l: LocaleView| #[trigger]
            r.0.fallback_locales(l) == shared_books_output(children@, l),
{
    Rule(Box::new(CombinedShared { children }))
}

impl Rulebook<Rc<Vec<Rulebook>>> {
    /// Combines rulebooks into one, which gives for every locale what each of
    /// them gives, in their order. The rulebooks are kept in `owned_values`.
    pub fn from_rulebooks(rulebooks: Vec<Rulebook>) -> (r: Self)
        ensures
            r.rules@.len() == 1,
            r.owned_values@ == rulebooks@,
            forall|l: LocaleView| #[trigger] r.fallback_locales(l) == books_output(rulebooks@, l),
    {
        let owned_values = Rc::new(rulebooks);
        let rule = combined_rule(share(&owned_values));
        single(rule, owned_values)
    }
}

impl<R: 'static> Rulebook<Rc<Vec<Rc<Rulebook<R>>>>> {
    /// Combines shared rulebooks into one, which gives for every locale what
    /// each of them gives, in their order. The rulebooks are kept in
    /// `owned_values`.
    pub fn from_ref_rulebooks(rulebooks: Vec<Rc<Rulebook<R>>>) -> (r: Self)
        ensures
            r.rules@.len() == 1,
            r.owned_values@ == rulebooks@,
            forall|l: LocaleView| #[trigger]
                r.fallback_locales(l) == shared_books_output(rulebooks@, l),
    {
        let owned_values = Rc::new(rulebooks);
        let rule = combined_shared_rule(share(&owned_values));
        single(rule, owned_values)
    }
}

impl Rulebook {
    /// The rulebook of one rule, the function `f`: it gives for a locale what
    /// `f` returns for it.
    pub fn from_fn<F: Fn(&LanguageIdentifier) -> Vec<LanguageIdentifier> + 'static>(f: F) -> (r:
        Rulebook)
        requires
            is_rule(f),
        ensures
            r.rules@.len() == 1,
            forall|l: LocaleView| #[trigger] r.fallback_locales(l) == rule_output(f, l),
            forall|a: &LanguageIdentifier, x: Vec<LanguageIdentifier>| #[trigger]
                call_ensures(f, (a,), x) ==> r.fallback_locales(a@) == x.deep_view(),
    {
        let r = single(fn_rule(f), ());
        proof {
            assert forall|a: &LanguageIdentifier, x: Vec<LanguageIdentifier>| #[trigger]
                call_ensures(f, (a,), x) implies r.fallback_locales(a@) == x.deep_view() by {
                let (b, y) = choose|b: &LanguageIdentifier, y: Vec<LanguageIdentifier>|
                    b@ == a@ && call_ensures(f, (b,), y);
                assert(b@ == a@ && call_ensures(f, (b,), y));
            }
        }
        r
    }

    /// The rulebook of the given rules, asked in their order.
    pub fn from_fns(rules: FnRules) -> (r: Rulebook)
        ensures
            r.rules@ == rules@,
    {
        Rulebook { rules, owned_values: () }
    }

    /// The rulebook of one rule, which gives for every locale copies of what
    /// the table `map` holds for it.
    pub fn from_map(map: MapRules) -> (r: Rulebook)
        ensures
            r.rules@.len() == 1,
            forall|l: LocaleView| #[trigger]
                r.fallback_locales(l) == table_lookup(map.entries.deep_view(), l),
    {
        single(map_rule(map), ())
    }
}

impl Default for Rulebook {
    /// The rulebook of one rule, the default rules.
    fn default() -> (r: Rulebook)
        ensures
            r.rules@.len() == 1,
            forall|l: LocaleView| #[trigger]
                r.fallback_locales(l) == crate::default_rulebook::default_fallbacks(l),
            forall|l: LocaleView| #[trigger] r.fallback_locales_ref(l) == Seq::<LocaleView>::empty(),
    {
        single(default_rule(), ())
    }
}

/// Putting the rules of two rulebooks in one list gives what the first gives
/// and then what the second gives.
pub proof fn lemma_rules_output_concat(a: Seq<Rule>, b: Seq<Rule>, l: LocaleView)
    ensures
        rules_output(a + b, l) == rules_output(a, l) + rules_output(b, l),
    decreases b.len(),
{
    if b.len() == 0 {
        assert(a + b =~= a);
        assert(rules_output(a, l) + rules_output(b, l) =~= rules_output(a, l));
    } else {
        lemma_rules_output_concat(a, b.drop_last(), l);
        assert((a + b).drop_last() =~= a + b.drop_last());
        assert((a + b).last() == b.last());
        assert(rules_output(a + b, l) =~= rules_output(a, l) + rules_output(b, l));
    }
}

/// Combining two lists of rulebooks, one after the other, gives what the
/// first list gives and then what the second gives: combination nests.
pub proof fn lemma_books_output_concat<A>(a: Seq<Rulebook<A>>, b: Seq<Rulebook<A>>, l: LocaleView)
    ensures
        books_output(a + b, l) == books_output(a, l) + books_output(b, l),
    decreases b.len(),
{
    if b.len() == 0 {
        assert(a + b =~= a);
        assert(books_output(a, l) + books_output(b, l) =~= books_output(a, l));
    } else {
        lemma_books_output_concat(a, b.drop_last(), l);
        assert((a + b).drop_last() =~= a + b.drop_last());
        assert((a + b).last() == b.last());
        assert(books_output(a + b, l) =~= books_output(a, l) + books_output(b, l));
    }
}

/// Combining two rulebooks gives what one rulebook gives that holds the rules
/// of the first and then the rules of the second.
pub proof fn lemma_combined_is_registered<A>(a: Rulebook<A>, b: Rulebook<A>, l: LocaleView)
    ensures
        books_output(seq![a, b], l) == rules_output(a.rules@ + b.rules@, l),
{
    lemma_rules_output_concat(a.rules@, b.rules@, l);
    let both = seq![a, b];
    let first = seq![a];
    assert(both.drop_last() =~= first);
    assert(first.drop_last() =~= Seq::empty());
    assert(books_output(first.drop_last(), l) =~= Seq::empty());
    assert(books_output(first, l) =~= rules_output(a.rules@, l));
}

} // verus!
