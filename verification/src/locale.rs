//! The locale identifier: a language with an optional script, an optional
//! region and a list of variants.

use vstd::prelude::*;

verus! {

/// The value of a locale identifier: what two identifiers must share to be the
/// same locale.
pub struct LocaleView {
    pub language: Seq<char>,
    pub script: Option<Seq<char>>,
    pub region: Option<Seq<char>>,
    pub variants: Seq<Seq<char>>,
}

/// Strict lexicographic order on subtags, by character code.
pub open spec fn subtag_lt(a: Seq<char>, b: Seq<char>) -> bool
    decreases a.len(),
{
    if b.len() == 0 {
        false
    } else if a.len() == 0 {
        true
    } else if a[0] != b[0] {
        (a[0] as u32) < (b[0] as u32)
    } else {
        subtag_lt(a.drop_first(), b.drop_first())
    }
}

/// The subtags are in strictly increasing order.
pub open spec fn strictly_increasing(subtags: Seq<Seq<char>>) -> bool {
    forall|i: int, j: int|
        0 <= i < j < subtags.len() ==> subtag_lt(#[trigger] subtags[i], #[trigger] subtags[j])
}

impl LocaleView {
    /// The variants are in strictly increasing order. A normalized identifier
    /// names each variant once and in one order only, so two normalized
    /// identifiers with the same set of variants are equal.
    pub open spec fn is_normalized(self) -> bool {
        strictly_increasing(self.variants)
    }

    /// The identifier of a language alone.
    pub open spec fn bare(language: Seq<char>) -> LocaleView {
        LocaleView { language, script: None, region: None, variants: Seq::empty() }
    }

    /// The identifier of a language with the given script and region and no variant.
    pub open spec fn tagged(
        language: Seq<char>,
        script: Option<Seq<char>>,
        region: Option<Seq<char>>,
    ) -> LocaleView {
        LocaleView { language, script, region, variants: Seq::empty() }
    }
}

/// No subtag is below itself.
pub proof fn lemma_subtag_lt_irreflexive(a: Seq<char>)
    ensures
        !subtag_lt(a, a),
    decreases a.len(),
{
    if a.len() > 0 {
        lemma_subtag_lt_irreflexive(a.drop_first());
    }
}

/// The order of subtags is transitive.
pub proof fn lemma_subtag_lt_transitive(a: Seq<char>, b: Seq<char>, c: Seq<char>)
    requires
        subtag_lt(a, b),
        subtag_lt(b, c),
    ensures
        subtag_lt(a, c),
    decreases a.len(),
{
    if a.len() > 0 && a[0] == b[0] && b[0] == c[0] {
        lemma_subtag_lt_transitive(a.drop_first(), b.drop_first(), c.drop_first());
    }
}

/// Of two different subtags one is below the other.
pub proof fn lemma_subtag_lt_total(a: Seq<char>, b: Seq<char>)
    requires
        !subtag_lt(a, b),
        !subtag_lt(b, a),
    ensures
        a == b,
    decreases a.len(),
{
    if a.len() > 0 && b.len() > 0 {
        if a[0] != b[0] {
            assert(a[0] as u32 != b[0] as u32) by {
                vstd::utf8::char_u32_cast(a[0], a[0] as u32);
                vstd::utf8::char_u32_cast(b[0], b[0] as u32);
            }
        }
        lemma_subtag_lt_total(a.drop_first(), b.drop_first());
        assert(a =~= seq![a[0]] + a.drop_first());
        assert(b =~= seq![b[0]] + b.drop_first());
    } else {
        assert(a =~= b);
    }
}

/// Subtags in strictly increasing order are told by what they hold: two such
/// lists with the same items are the same list.
pub proof fn lemma_strictly_increasing_unique(s: Seq<Seq<char>>, t: Seq<Seq<char>>)
    requires
        strictly_increasing(s),
        strictly_increasing(t),
        forall|x: Seq<char>| s.contains(x) <==> t.contains(x),
    ensures
        s == t,
    decreases s.len(),
{
    if s.len() == 0 {
        if t.len() > 0 {
            assert(t.contains(t[0]));
        }
        assert(s =~= t);
    } else if t.len() == 0 {
        assert(s.contains(s[0]));
    } else {
        let a = s.last();
        let b = t.last();
        assert(s.contains(a));
        assert(t.contains(b));
        let k = choose|k: int| 0 <= k < t.len() && t[k] == a;
        let m = choose|m: int| 0 <= m < s.len() && s[m] == b;
        if a != b {
            assert(k < t.len() - 1);
            assert(m < s.len() - 1);
            assert(subtag_lt(t[k], t[t.len() - 1]));
            assert(subtag_lt(s[m], s[s.len() - 1]));
            lemma_subtag_lt_transitive(a, b, a);
            lemma_subtag_lt_irreflexive(a);
        }
        let s0 = s.drop_last();
        let t0 = t.drop_last();
        lemma_subtag_lt_irreflexive(a);
        assert forall|x: Seq<char>| s0.contains(x) <==> t0.contains(x) by {
            if s0.contains(x) {
                let i = choose|i: int| 0 <= i < s0.len() && s0[i] == x;
                assert(subtag_lt(s[i], s[s.len() - 1]));
                assert(s.contains(x));
                let j = choose|j: int| 0 <= j < t.len() && t[j] == x;
                assert(t0[j] == x);
            }
            if t0.contains(x) {
                let i = choose|i: int| 0 <= i < t0.len() && t0[i] == x;
                assert(subtag_lt(t[i], t[t.len() - 1]));
                assert(t.contains(x));
                let j = choose|j: int| 0 <= j < s.len() && s[j] == x;
                assert(s0[j] == x);
            }
        }
        assert(strictly_increasing(s0)) by {
            assert forall|i: int, j: int| 0 <= i < j < s0.len() implies subtag_lt(
                #[trigger] s0[i],
                #[trigger] s0[j],
            ) by {
                assert(subtag_lt(s[i], s[j]));
            }
        }
        assert(strictly_increasing(t0)) by {
            assert forall|i: int, j: int| 0 <= i < j < t0.len() implies subtag_lt(
                #[trigger] t0[i],
                #[trigger] t0[j],
            ) by {
                assert(subtag_lt(t[i], t[j]));
            }
        }
        lemma_strictly_increasing_unique(s0, t0);
        assert(s =~= s0.push(a));
        assert(t =~= t0.push(b));
    }
}

/// Normalized locales are equal where they have the same language, script and
/// region and the same set of variants.
pub proof fn lemma_normalized_equal(a: LocaleView, b: LocaleView)
    requires
        a.is_normalized(),
        b.is_normalized(),
        a.language == b.language,
        a.script == b.script,
        a.region == b.region,
        forall|x: Seq<char>| a.variants.contains(x) <==> b.variants.contains(x),
    ensures
        a == b,
{
    lemma_strictly_increasing_unique(a.variants, b.variants);
}

/// A normalized identifier names no variant twice.
pub proof fn lemma_normalized_no_duplicates(l: LocaleView)
    requires
        l.is_normalized(),
    ensures
        l.variants.no_duplicates(),
{
    assert forall|i: int, j: int|
        0 <= i < l.variants.len() && 0 <= j < l.variants.len() && i != j implies l.variants[i]
        != l.variants[j] by {
        lemma_subtag_lt_irreflexive(l.variants[i]);
        if i < j {
            assert(subtag_lt(l.variants[i], l.variants[j]));
        } else {
            assert(subtag_lt(l.variants[j], l.variants[i]));
        }
    }
}

/// A locale identifier: a language, an optional script, an optional region
/// and variants. It is normalized, and it does not change: what clears a
/// subtag gives a new identifier.
#[derive(Debug, Hash)]
pub struct LanguageIdentifier {
    pub(crate) language: String,
    pub(crate) script: Option<String>,
    pub(crate) region: Option<String>,
    pub(crate) variants: Vec<String>,
}

impl View for LanguageIdentifier {
    type V = LocaleView;

    closed spec fn view(&self) -> LocaleView {
        LocaleView {
            language: self.language@,
            script: self.script.deep_view(),
            region: self.region.deep_view(),
            variants: self.variants.deep_view(),
        }
    }
}

impl DeepView for LanguageIdentifier {
    type V = LocaleView;

    open spec fn deep_view(&self) -> LocaleView {
        self@
    }
}

/// Whether two optional subtags are the same.
pub fn same_subtag(a: &Option<String>, b: &Option<String>) -> (r: bool)
    ensures
        r == (a.deep_view() == b.deep_view()),
{
    match a {
        Some(x) => match b {
            Some(y) => *x == *y,
            None => false,
        },
        None => b.is_none(),
    }
}

/// Whether two lists of subtags are the same, item by item.
pub fn same_subtags(a: &Vec<String>, b: &Vec<String>) -> (r: bool)
    ensures
        r == (a.deep_view() == b.deep_view()),
{
    if a.len() != b.len() {
        assert(a.deep_view().len() != b.deep_view().len());
        return false;
    }
    let mut i: usize = 0;
    while i < a.len()
        invariant
            a.len() == b.len(),
            i <= a.len(),
            forall|k: int| 0 <= k < i ==> a[k]@ == b[k]@,
        decreases a.len() - i,
    {
        if a[i] != b[i] {
            assert(a.deep_view()[i as int] != b.deep_view()[i as int]);
            return false;
        }
        i += 1;
    }
    assert(a.deep_view() =~= b.deep_view());
    true
}

/// A byte with an ASCII capital letter turned into the small one.
pub open spec fn ascii_lower(b: u8) -> u8 {
    if 0x41 <= b <= 0x5a {
        (b + 0x20) as u8
    } else {
        b
    }
}

/// Whether two subtags are the same but for the case of their ASCII letters.
pub open spec fn same_ignoring_ascii_case(a: Seq<char>, b: Seq<char>) -> bool {
    let x = vstd::utf8::encode_utf8(a);
    let y = vstd::utf8::encode_utf8(b);
    x.len() == y.len() && forall|i: int| 0 <= i < x.len() ==> ascii_lower(#[trigger] x[i]) == ascii_lower(y[i])
}

/// Whether two subtags are the same but for the case of their ASCII letters.
pub fn eq_ignore_ascii_case(a: &str, b: &str) -> (r: bool)
    ensures
        r == same_ignoring_ascii_case(a@, b@),
{
    let x = a.as_bytes();
    let y = b.as_bytes();
    if x.len() != y.len() {
        return false;
    }
    let mut i: usize = 0;
    while i < x.len()
        invariant
            x@ == vstd::utf8::encode_utf8(a@),
            y@ == vstd::utf8::encode_utf8(b@),
            x.len() == y.len(),
            i <= x.len(),
            forall|k: int| 0 <= k < i ==> ascii_lower(#[trigger] x@[k]) == ascii_lower(y@[k]),
        decreases x.len() - i,
    {
        let p = x[i];
        let q = y[i];
        let p = if 0x41 <= p && p <= 0x5a {
            p + 0x20
        } else {
            p
        };
        let q = if 0x41 <= q && q <= 0x5a {
            q + 0x20
        } else {
            q
        };
        if p != q {
            return false;
        }
        i += 1;
    }
    true
}

/// Whether the subtag `a` is below the subtag `b`.
pub fn subtag_less(a: &str, b: &str) -> (r: bool)
    ensures
        r == subtag_lt(a@, b@),
{
    let la = a.unicode_len();
    let lb = b.unicode_len();
    let mut i: usize = 0;
    assert(a@.skip(0) =~= a@);
    assert(b@.skip(0) =~= b@);
    loop
        invariant
            la == a@.len(),
            lb == b@.len(),
            i <= la,
            i <= lb,
            subtag_lt(a@, b@) == subtag_lt(a@.skip(i as int), b@.skip(i as int)),
        decreases la - i,
    {
        if i == lb {
            return false;
        }
        if i == la {
            return true;
        }
        let x = a.get_char(i);
        let y = b.get_char(i);
        assert(a@.skip(i as int)[0] == x);
        assert(b@.skip(i as int)[0] == y);
        if x != y {
            return (x as u32) < (y as u32);
        }
        assert(a@.skip(i as int).drop_first() =~= a@.skip(i as int + 1));
        assert(b@.skip(i as int).drop_first() =~= b@.skip(i as int + 1));
        i += 1;
    }
}

/// Puts `x` into `sorted` at its place, unless it is there already.
pub fn insert_subtag(sorted: &mut Vec<String>, x: String)
    requires
        strictly_increasing(old(sorted).deep_view()),
    ensures
        strictly_increasing(final(sorted).deep_view()),
        forall|y: Seq<char>|
            final(sorted).deep_view().contains(y) <==> old(sorted).deep_view().contains(y) || y
                == x@,
{
    let ghost before = sorted.deep_view();
    let mut i: usize = 0;
    while i < sorted.len() && subtag_less(sorted[i].as_str(), x.as_str())
        invariant
            sorted.deep_view() == before,
            i <= sorted.len(),
            forall|k: int| 0 <= k < i ==> subtag_lt(#[trigger] before[k], x@),
        decreases sorted.len() - i,
    {
        assert(before[i as int] == sorted[i as int]@);
        i += 1;
    }
    if i < sorted.len() {
        assert(before[i as int] == sorted[i as int]@);
        if !subtag_less(x.as_str(), sorted[i].as_str()) {
            proof {
                lemma_subtag_lt_total(before[i as int], x@);
            }
            return;
        }
    }
    sorted.insert(i, x);
    proof {
        let after = sorted.deep_view();
        assert(after =~= before.insert(i as int, x@));
        assert forall|j: int, k: int| 0 <= j < k < after.len() implies subtag_lt(
            #[trigger] after[j],
            #[trigger] after[k],
        ) by {
            if k < i {
                assert(subtag_lt(before[j], before[k]));
            } else if k == i {
            } else if j == i {
                if k - 1 > i {
                    assert(subtag_lt(before[i as int], before[k - 1]));
                    lemma_subtag_lt_transitive(x@, before[i as int], before[k - 1]);
                }
            } else if j < i {
                assert(subtag_lt(before[j], before[k - 1]));
            } else {
                assert(subtag_lt(before[j - 1], before[k - 1]));
            }
        }
        assert forall|y: Seq<char>| after.contains(y) <==> before.contains(y) || y == x@ by {
            if after.contains(y) {
                let k = choose|k: int| 0 <= k < after.len() && after[k] == y;
                if k < i {
                    assert(before[k] == y);
                } else if k > i {
                    assert(before[k - 1] == y);
                }
            }
            if before.contains(y) {
                let k = choose|k: int| 0 <= k < before.len() && before[k] == y;
                if k < i {
                    assert(after[k] == y);
                } else {
                    assert(after[k + 1] == y);
                }
            }
            assert(after[i as int] == x@);
        }
    }
}

/// Whether a subtag is exactly `text`.
pub fn subtag_is(subtag: &String, text: &str) -> (r: bool)
    ensures
        r == (subtag@ == text@),
{
    let other = text.to_owned();
    *subtag == other
}

/// Appends `x` to `out`.
pub fn push_locale(out: &mut Vec<LanguageIdentifier>, x: LanguageIdentifier)
    ensures
        final(out).deep_view() == old(out).deep_view().push(x@),
{
    let ghost before = out.deep_view();
    out.push(x);
    assert(out.deep_view() =~= before.push(x@));
}

/// Appends copies of the locales of `more` to `out`.
pub fn extend_locales(out: &mut Vec<LanguageIdentifier>, more: &Vec<LanguageIdentifier>)
    ensures
        final(out).deep_view() == old(out).deep_view() + more.deep_view(),
{
    let ghost before = out.deep_view();
    let mut i: usize = 0;
    assert(out.deep_view() =~= before + more.deep_view().take(0));
    while i < more.len()
        invariant
            i <= more.len(),
            out.deep_view() == before + more.deep_view().take(i as int),
        decreases more.len() - i,
    {
        let ghost so_far = out.deep_view();
        out.push(more[i].clone());
        i += 1;
        assert(out.deep_view() =~= so_far.push(more[i - 1]@));
        assert(out.deep_view() =~= before + more.deep_view().take(i as int));
    }
    assert(more.deep_view().take(more.len() as int) =~= more.deep_view());
}

/// A copy of an optional subtag.
pub fn copy_subtag(a: &Option<String>) -> (r: Option<String>)
    ensures
        r.deep_view() == a.deep_view(),
{
    match a {
        Some(x) => Some(x.clone()),
        None => None,
    }
}

/// A copy of a list of subtags.
pub fn copy_subtags(a: &Vec<String>) -> (r: Vec<String>)
    ensures
        r.deep_view() == a.deep_view(),
{
    let mut out: Vec<String> = Vec::new();
    let mut i: usize = 0;
    while i < a.len()
        invariant
            i <= a.len(),
            out.len() == i,
            forall|k: int| 0 <= k < i ==> out[k]@ == a[k]@,
        decreases a.len() - i,
    {
        out.push(a[i].clone());
        i += 1;
    }
    assert(out.deep_view() =~= a.deep_view());
    out
}

impl LanguageIdentifier {
    /// Every identifier is normalized: its variants are in strictly increasing
    /// order.
    #[verifier::type_invariant]
    pub closed spec fn well_formed(self) -> bool {
        strictly_increasing(self.variants.deep_view())
    }

    /// The identifier of a language alone.
    pub fn bare(language: &str) -> (r: LanguageIdentifier)
        ensures
            r@ == LocaleView::bare(language@),
    {
        let r = LanguageIdentifier {
            language: language.to_owned(),
            script: None,
            region: None,
            variants: Vec::new(),
        };
        assert(r@.variants =~= Seq::empty());
        r
    }

    /// The identifier of a language with the given script and region and no variant.
    pub fn tagged(language: &str, script: Option<&str>, region: Option<&str>) -> (r:
        LanguageIdentifier)
        ensures
            r@ == LocaleView::tagged(language@, script.deep_view(), region.deep_view()),
    {
        let script = match script {
            Some(s) => Some(s.to_owned()),
            None => None,
        };
        let region = match region {
            Some(s) => Some(s.to_owned()),
            None => None,
        };
        let r = LanguageIdentifier { language: language.to_owned(), script, region, variants: Vec::new() };
        assert(r@.variants =~= Seq::empty());
        r
    }

    /// The identifier of the given parts. The variants are put in order, each
    /// of them once.
    pub fn from_parts(
        language: String,
        script: Option<String>,
        region: Option<String>,
        variants: Vec<String>,
    ) -> (r: LanguageIdentifier)
        ensures
            r@.language == language@,
            r@.script == script.deep_view(),
            r@.region == region.deep_view(),
            r@.is_normalized(),
            forall|x: Seq<char>| r@.variants.contains(x) <==> variants.deep_view().contains(x),
    {
        let ghost given = variants.deep_view();
        let mut sorted: Vec<String> = Vec::new();
        let mut i: usize = 0;
        assert(sorted.deep_view() =~= Seq::empty());
        while i < variants.len()
            invariant
                given == variants.deep_view(),
                i <= variants.len(),
                strictly_increasing(sorted.deep_view()),
                forall|x: Seq<char>|
                    sorted.deep_view().contains(x) <==> given.take(i as int).contains(x),
            decreases variants.len() - i,
        {
            let ghost so_far = sorted.deep_view();
            insert_subtag(&mut sorted, variants[i].clone());
            i += 1;
            proof {
                let done = given.take(i as int);
                assert(done.drop_last() =~= given.take(i as int - 1));
                assert(done.last() == variants[i as int - 1]@);
                assert forall|x: Seq<char>| sorted.deep_view().contains(x) <==> done.contains(
                    x,
                ) by {
                    if done.contains(x) {
                        let k = choose|k: int| 0 <= k < done.len() && done[k] == x;
                        if k < done.len() - 1 {
                            assert(done.drop_last()[k] == x);
                        }
                    }
                    if done.drop_last().contains(x) {
                        let k = choose|k: int| 0 <= k < done.len() - 1 && done.drop_last()[k] == x;
                        assert(done[k] == x);
                    }
                    assert(done[done.len() - 1] == done.last());
                }
            }
        }
        assert(given.take(variants.len() as int) =~= given);
        LanguageIdentifier { language, script, region, variants: sorted }
    }

    /// The identifier of the given parts, where the variants are in strictly
    /// increasing order.
    pub(crate) fn from_sorted_parts(
        language: String,
        script: Option<String>,
        region: Option<String>,
        variants: Vec<String>,
    ) -> (r: LanguageIdentifier)
        requires
            strictly_increasing(variants.deep_view()),
        ensures
            r@ == (LocaleView {
                language: language@,
                script: script.deep_view(),
                region: region.deep_view(),
                variants: variants.deep_view(),
            }),
    {
        LanguageIdentifier { language, script, region, variants }
    }

    /// The language.
    pub fn language(&self) -> (r: &String)
        ensures
            r@ == self@.language,
    {
        &self.language
    }

    /// The script, if there is one.
    pub fn script(&self) -> (r: &Option<String>)
        ensures
            r.deep_view() == self@.script,
    {
        &self.script
    }

    /// The region, if there is one.
    pub fn region(&self) -> (r: &Option<String>)
        ensures
            r.deep_view() == self@.region,
    {
        &self.region
    }

    /// The variants, which are in strictly increasing order.
    pub fn variants(&self) -> (r: &Vec<String>)
        ensures
            r.deep_view() == self@.variants,
            self@.is_normalized(),
    {
        proof {
            use_type_invariant(self);
        }
        &self.variants
    }

    /// The same locale without its script.
    pub fn without_script(&self) -> (r: LanguageIdentifier)
        ensures
            r@ == (LocaleView { script: None, ..self@ }),
    {
        proof {
            use_type_invariant(self);
        }
        LanguageIdentifier {
            language: self.language.clone(),
            script: None,
            region: copy_subtag(&self.region),
            variants: copy_subtags(&self.variants),
        }
    }

    /// The same locale without its region.
    pub fn without_region(&self) -> (r: LanguageIdentifier)
        ensures
            r@ == (LocaleView { region: None, ..self@ }),
    {
        proof {
            use_type_invariant(self);
        }
        LanguageIdentifier {
            language: self.language.clone(),
            script: copy_subtag(&self.script),
            region: None,
            variants: copy_subtags(&self.variants),
        }
    }

    /// The same locale without its variants.
    pub fn without_variants(&self) -> (r: LanguageIdentifier)
        ensures
            r@ == (LocaleView { variants: Seq::empty(), ..self@ }),
    {
        let r = LanguageIdentifier {
            language: self.language.clone(),
            script: copy_subtag(&self.script),
            region: copy_subtag(&self.region),
            variants: Vec::new(),
        };
        assert(r@.variants =~= Seq::empty());
        r
    }

    /// Whether `self` and `other` are the same locale.
    pub fn same_as(&self, other: &LanguageIdentifier) -> (r: bool)
        ensures
            r == (self@ == other@),
    {
        self.language == other.language && same_subtag(&self.script, &other.script) && same_subtag(
            &self.region,
            &other.region,
        ) && same_subtags(&self.variants, &other.variants)
    }

    /// Whether `list` holds the locale `self`.
    pub fn is_in(&self, list: &Vec<LanguageIdentifier>) -> (r: bool)
        ensures
            r == list.deep_view().contains(self@),
    {
        let mut i: usize = 0;
        while i < list.len()
            invariant
                i <= list.len(),
                forall|k: int| 0 <= k < i ==> list[k]@ != self@,
            decreases list.len() - i,
        {
            if list[i].same_as(self) {
                assert(list.deep_view()[i as int] == self@);
                return true;
            }
            i += 1;
        }
        assert forall|k: int| 0 <= k < list.deep_view().len() implies list.deep_view()[k]
            != self@ by {
            assert(list.deep_view()[k] == list[k]@);
        }
        false
    }
}

impl Clone for LanguageIdentifier {
    fn clone(&self) -> (r: LanguageIdentifier)
        ensures
            r@ == self@,
    {
        proof {
            use_type_invariant(self);
        }
        LanguageIdentifier {
            language: self.language.clone(),
            script: copy_subtag(&self.script),
            region: copy_subtag(&self.region),
            variants: copy_subtags(&self.variants),
        }
    }
}

impl PartialEq for LanguageIdentifier {
    fn eq(&self, other: &LanguageIdentifier) -> (r: bool) {
        self.same_as(other)
    }
}

impl vstd::std_specs::cmp::PartialEqSpecImpl for LanguageIdentifier {
    open spec fn obeys_eq_spec() -> bool {
        true
    }

    open spec fn eq_spec(&self, other: &LanguageIdentifier) -> bool {
        self@ == other@
    }
}

impl Eq for LanguageIdentifier {

}

} // verus!
