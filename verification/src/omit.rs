//! Widening a locale by omitting optional subtags: the script, the region and
//! each variant are kept or dropped independently of one another.

use crate::locale::{copy_subtag, copy_subtags, LanguageIdentifier, LocaleView};
use vstd::arithmetic::power2::pow2;
use vstd::prelude::*;

verus! {

/// Each of `choices` with `first` put in front.
pub open spec fn prepend_each(first: Seq<char>, choices: Seq<Seq<Seq<char>>>) -> Seq<
    Seq<Seq<char>>,
> {
    Seq::new(choices.len(), |i: int| seq![first] + choices[i])
}

/// Every selection of `variants` that keeps the order of what it keeps. The
/// selections that drop the first variant come first, so the empty selection
/// is the first and the full one the last.
pub open spec fn variant_choices(variants: Seq<Seq<char>>) -> Seq<Seq<Seq<char>>>
    decreases variants.len(),
{
    if variants.len() == 0 {
        seq![Seq::empty()]
    } else {
        let rest = variant_choices(variants.drop_first());
        rest + prepend_each(variants[0], rest)
    }
}

/// The locales with the language of `l`, the given script and region, and each
/// selection of the variants of `l` in turn.
pub open spec fn with_variants(
    l: LocaleView,
    script: Option<Seq<char>>,
    region: Option<Seq<char>>,
) -> Seq<LocaleView> {
    let choices = variant_choices(l.variants);
    Seq::new(
        choices.len(),
        |i: int| LocaleView { language: l.language, script, region, variants: choices[i] },
    )
}

/// The locales with the given script: first those without a region, then, if
/// `l` has a region, those with it.
pub open spec fn region_block(l: LocaleView, script: Option<Seq<char>>) -> Seq<LocaleView> {
    if l.region is Some {
        with_variants(l, script, None) + with_variants(l, script, l.region)
    } else {
        with_variants(l, script, None)
    }
}

/// Every way to keep or drop the optional subtags of `l`: first the locales
/// without a script, then, if `l` has a script, those with it. The last one
/// keeps everything and is `l` itself.
pub open spec fn all_choices(l: LocaleView) -> Seq<LocaleView> {
    if l.script is Some {
        region_block(l, None) + region_block(l, l.script)
    } else {
        region_block(l, None)
    }
}

/// The strictly weaker locales of `l`: every choice but the one that keeps
/// everything.
pub open spec fn omissions(l: LocaleView) -> Seq<LocaleView> {
    all_choices(l).drop_last()
}

/// How many locales [`omissions`] gives: a present script and a present region
/// double the number of choices, and so does each variant; the choice that
/// keeps everything is left out.
pub open spec fn omission_count(l: LocaleView) -> int {
    (if l.script is Some { 2int } else { 1int }) * (if l.region is Some { 2int } else { 1int })
        * pow2(l.variants.len()) - 1
}

/// There are `2^k` selections of `k` variants; the last one keeps them all.
pub proof fn lemma_variant_choices_shape(variants: Seq<Seq<char>>)
    ensures
        variant_choices(variants).len() == pow2(variants.len()),
        variant_choices(variants).len() > 0,
        variant_choices(variants).last() == variants,
        variant_choices(variants)[0] == Seq::<Seq<char>>::empty(),
    decreases variants.len(),
{
    vstd::arithmetic::power2::lemma_pow2_pos(variants.len());
    if variants.len() == 0 {
        vstd::arithmetic::power2::lemma2_to64();
        assert(variants =~= Seq::empty());
    } else {
        lemma_variant_choices_shape(variants.drop_first());
        vstd::arithmetic::power2::lemma_pow2_unfold(variants.len());
        assert(seq![variants[0]] + variants.drop_first() =~= variants);
    }
}

/// Each item of a selection is one of the variants.
pub proof fn lemma_variant_choices_members(variants: Seq<Seq<char>>, n: int, k: int)
    requires
        0 <= n < variant_choices(variants).len(),
        0 <= k < variant_choices(variants)[n].len(),
    ensures
        variants.contains(variant_choices(variants)[n][k]),
    decreases variants.len(),
{
    if variants.len() > 0 {
        let rest = variant_choices(variants.drop_first());
        if n < rest.len() {
            lemma_variant_choices_members(variants.drop_first(), n, k);
            let x = rest[n][k];
            let j = choose|j: int| 0 <= j < variants.drop_first().len() && variants.drop_first()[j] == x;
            assert(variants[j + 1] == x);
        } else if k == 0 {
            assert(variants[0] == variant_choices(variants)[n][k]);
        } else {
            lemma_variant_choices_members(variants.drop_first(), n - rest.len(), k - 1);
            let x = rest[n - rest.len()][k - 1];
            let j = choose|j: int| 0 <= j < variants.drop_first().len() && variants.drop_first()[j] == x;
            assert(variants[j + 1] == x);
        }
    }
}

/// No selection of distinct variants comes twice.
pub proof fn lemma_variant_choices_distinct(variants: Seq<Seq<char>>)
    requires
        variants.no_duplicates(),
    ensures
        variant_choices(variants).no_duplicates(),
    decreases variants.len(),
{
    if variants.len() > 0 {
        let tail = variants.drop_first();
        let rest = variant_choices(tail);
        let all = variant_choices(variants);
        lemma_variant_choices_distinct(tail);
        assert forall|a: int, b: int| 0 <= a < all.len() && 0 <= b < all.len() && a != b implies all[a]
            != all[b] by {
            if a < rest.len() && b < rest.len() {
            } else if a >= rest.len() && b >= rest.len() {
                let x = rest[a - rest.len()];
                let y = rest[b - rest.len()];
                if all[a] == all[b] {
                    assert((seq![variants[0]] + x).drop_first() =~= x);
                    assert((seq![variants[0]] + y).drop_first() =~= y);
                }
            } else {
                let (lo, hi) = if a < b {
                    (a, b)
                } else {
                    (b, a)
                };
                if all[lo] == all[hi] {
                    assert(all[hi][0] == variants[0]);
                    lemma_variant_choices_members(tail, lo, 0);
                    let j = choose|j: int| 0 <= j < tail.len() && tail[j] == rest[lo][0];
                    assert(variants[j + 1] == variants[0]);
                }
            }
        }
    }
}

/// A selection of variants in strictly increasing order is in strictly
/// increasing order.
pub proof fn lemma_variant_choices_normalized(l: LocaleView, n: int)
    requires
        l.is_normalized(),
        0 <= n < variant_choices(l.variants).len(),
    ensures
        (LocaleView { variants: variant_choices(l.variants)[n], ..l }).is_normalized(),
    decreases l.variants.len(),
{
    let variants = l.variants;
    if variants.len() > 0 {
        let tail = variants.drop_first();
        let rest = variant_choices(tail);
        let lt = LocaleView { variants: tail, ..l };
        let m = if n < rest.len() {
            n
        } else {
            n - rest.len()
        };
        assert(lt.is_normalized()) by {
            assert forall|i: int, j: int| 0 <= i < j < tail.len() implies crate::locale::subtag_lt(
                #[trigger] tail[i],
                #[trigger] tail[j],
            ) by {
                assert(crate::locale::subtag_lt(variants[i + 1], variants[j + 1]));
            }
        }
        lemma_variant_choices_normalized(lt, m);
        let inner = LocaleView { variants: rest[m], ..l };
        assert(inner.is_normalized());
        if n >= rest.len() {
            let c = variant_choices(variants)[n];
            assert(c == seq![variants[0]] + rest[m]);
            assert forall|i: int, j: int| 0 <= i < j < c.len() implies crate::locale::subtag_lt(
                #[trigger] c[i],
                #[trigger] c[j],
            ) by {
                if i == 0 {
                    lemma_variant_choices_members(tail, m, j - 1);
                    let k = choose|k: int| 0 <= k < tail.len() && tail[k] == rest[m][j - 1];
                    assert(crate::locale::subtag_lt(variants[0], variants[k + 1]));
                } else {
                    assert(crate::locale::subtag_lt(inner.variants[i - 1], inner.variants[j - 1]));
                }
            }
        }
    }
}

/// [`omissions`] gives [`omission_count`] locales.
pub proof fn lemma_omission_count(l: LocaleView)
    ensures
        omissions(l).len() == omission_count(l),
        all_choices(l).len() == omission_count(l) + 1,
        all_choices(l).last() == l,
{
    lemma_variant_choices_shape(l.variants);
    let n = pow2(l.variants.len()) as int;
    assert(with_variants(l, l.script, l.region).last() == l);
    assert(2 * n == n + n);
    assert(2 * 2 * n == n + n + n + n) by (nonlinear_arith);
    assert(1 * 1 * n == n) by (nonlinear_arith);
    assert(1 * 2 * n == n + n) by (nonlinear_arith);
    assert(2 * 1 * n == n + n) by (nonlinear_arith);
}

/// The locales of one block are distinct and normalized, and carry the
/// block's script and region.
proof fn lemma_with_variants(l: LocaleView, script: Option<Seq<char>>, region: Option<Seq<char>>)
    requires
        l.is_normalized(),
    ensures
        with_variants(l, script, region).no_duplicates(),
        forall|i: int|
            0 <= i < with_variants(l, script, region).len() ==> {
                let x = #[trigger] with_variants(l, script, region)[i];
                x.script == script && x.region == region && x.is_normalized()
            },
{
    crate::locale::lemma_normalized_no_duplicates(l);
    lemma_variant_choices_distinct(l.variants);
    let block = with_variants(l, script, region);
    assert forall|i: int| 0 <= i < block.len() implies {
        let x = #[trigger] block[i];
        x.script == script && x.region == region && x.is_normalized()
    } by {
        lemma_variant_choices_normalized(l, i);
        let kept = LocaleView { variants: variant_choices(l.variants)[i], ..l };
        assert(block[i].variants == kept.variants);
        assert forall|a: int, b: int| 0 <= a < b < block[i].variants.len() implies crate::locale::subtag_lt(
            #[trigger] block[i].variants[a],
            #[trigger] block[i].variants[b],
        ) by {
            assert(crate::locale::subtag_lt(kept.variants[a], kept.variants[b]));
        }
    }
}

/// The locales with one script are distinct and normalized.
proof fn lemma_region_block(l: LocaleView, script: Option<Seq<char>>)
    requires
        l.is_normalized(),
    ensures
        region_block(l, script).no_duplicates(),
        forall|i: int|
            0 <= i < region_block(l, script).len() ==> {
                let x = #[trigger] region_block(l, script)[i];
                x.script == script && x.is_normalized()
            },
{
    lemma_with_variants(l, script, None);
    lemma_with_variants(l, script, l.region);
    if l.region is Some {
        vstd::seq_lib::lemma_no_dup_in_concat(
            with_variants(l, script, None),
            with_variants(l, script, l.region),
        );
    }
}

/// The widenings of a normalized locale are distinct from one another and
/// from the locale itself, and each of them is normalized.
pub proof fn lemma_omissions_distinct(l: LocaleView)
    requires
        l.is_normalized(),
    ensures
        omissions(l).no_duplicates(),
        !omissions(l).contains(l),
        forall|i: int| 0 <= i < omissions(l).len() ==> (#[trigger] omissions(l)[i]).is_normalized(),
{
    lemma_omission_count(l);
    lemma_region_block(l, None);
    lemma_region_block(l, l.script);
    if l.script is Some {
        vstd::seq_lib::lemma_no_dup_in_concat(region_block(l, None), region_block(l, l.script));
    }
    let all = all_choices(l);
    assert(all.no_duplicates());
    assert forall|i: int| 0 <= i < omissions(l).len() implies (#[trigger] omissions(l)[i])
        != l && omissions(l)[i].is_normalized() by {
        assert(omissions(l)[i] == all[i]);
        assert(all[all.len() - 1] == l);
    }
}

/// A widening has the language of the locale; its script and its region are
/// those of the locale or absent; its variants are a selection of the
/// locale's.
pub proof fn lemma_omission_shape(l: LocaleView, y: LocaleView)
    requires
        omissions(l).contains(y),
    ensures
        y.language == l.language,
        y.script is None || y.script == l.script,
        y.region is None || y.region == l.region,
        variant_choices(l.variants).contains(y.variants),
{
    lemma_omission_count(l);
    let i = choose|i: int| 0 <= i < omissions(l).len() && omissions(l)[i] == y;
    assert(all_choices(l)[i] == y);
    let a = with_variants(l, None, None);
    let b = with_variants(l, None, l.region);
    let c = with_variants(l, l.script, None);
    let d = with_variants(l, l.script, l.region);
    crate::order::lemma_concat_contains(region_block(l, None), region_block(l, l.script), y);
    crate::order::lemma_concat_contains(a, b, y);
    crate::order::lemma_concat_contains(c, d, y);
    let block = if a.contains(y) {
        a
    } else if b.contains(y) {
        b
    } else if c.contains(y) {
        c
    } else {
        d
    };
    assert(block.contains(y));
    let k = choose|k: int| 0 <= k < block.len() && block[k] == y;
    assert(variant_choices(l.variants)[k] == y.variants);
}

/// Every selection of `variants`, in the order of [`variant_choices`].
fn variant_selections(variants: &Vec<String>) -> (r: Vec<Vec<String>>)
    ensures
        r.deep_view() == variant_choices(variants.deep_view()),
{
    let ghost all = variants.deep_view();
    let mut out: Vec<Vec<String>> = Vec::new();
    out.push(Vec::new());
    let mut k: usize = variants.len();
    proof {
        assert(all.subrange(k as int, all.len() as int) =~= Seq::empty());
        assert(out[0].deep_view() =~= Seq::empty());
        assert(out.deep_view() =~= seq![Seq::<Seq<char>>::empty()]);
        assert(out.deep_view() =~= variant_choices(all.subrange(k as int, all.len() as int)));
    }
    while k > 0
        invariant
            all == variants.deep_view(),
            k <= variants.len(),
            out.deep_view() == variant_choices(all.subrange(k as int, all.len() as int)),
        decreases k,
    {
        k -= 1;
        let m = out.len();
        let ghost rest = out.deep_view();
        let mut j: usize = 0;
        while j < m
            invariant
                all == variants.deep_view(),
                k < variants.len(),
                m == rest.len(),
                j <= m,
                out.len() == m + j,
                out.deep_view() == rest + prepend_each(all[k as int], rest).take(j as int),
            decreases m - j,
        {
            let mut tail = copy_subtags(&out[j]);
            let mut item: Vec<String> = Vec::new();
            item.push(variants[k].clone());
            item.append(&mut tail);
            proof {
                assert(out.deep_view()[j as int] == rest[j as int]);
                assert(item.deep_view() =~= seq![all[k as int]] + rest[j as int]);
            }
            let ghost before = out.deep_view();
            out.push(item);
            j += 1;
            proof {
                assert(out.deep_view() =~= before.push(item.deep_view()));
                assert(out.deep_view() =~= rest + prepend_each(all[k as int], rest).take(j as int));
            }
        }
        proof {
            let suffix = all.subrange(k as int, all.len() as int);
            assert(suffix.drop_first() =~= all.subrange(k as int + 1, all.len() as int));
            assert(suffix[0] == all[k as int]);
            assert(prepend_each(all[k as int], rest).take(m as int) =~= prepend_each(
                all[k as int],
                rest,
            ));
        }
    }
    proof {
        assert(all.subrange(0, all.len() as int) =~= all);
    }
    out
}

/// Appends to `out` the locales of one block: the language of `rule`, its
/// script and its region as far as they are kept, and each selection of its
/// variants.
fn push_with_variants(
    out: &mut Vec<LanguageIdentifier>,
    rule: &LanguageIdentifier,
    keep_script: bool,
    keep_region: bool,
    choices: &Vec<Vec<String>>,
)
    requires
        choices.deep_view() == variant_choices(rule@.variants),
        rule@.is_normalized(),
    ensures
        final(out).deep_view() == old(out).deep_view() + with_variants(
            rule@,
            if keep_script {
                rule@.script
            } else {
                None
            },
            if keep_region {
                rule@.region
            } else {
                None
            },
        ),
{
    let ghost start = out.deep_view();
    let ghost script = if keep_script {
        rule@.script
    } else {
        None
    };
    let ghost region = if keep_region {
        rule@.region
    } else {
        None
    };
    let mut i: usize = 0;
    proof {
        assert(out.deep_view() =~= start + with_variants(rule@, script, region).take(0));
    }
    while i < choices.len()
        invariant
            choices.deep_view() == variant_choices(rule@.variants),
            rule@.is_normalized(),
            i <= choices.len(),
            script == (if keep_script {
                rule@.script
            } else {
                None
            }),
            region == (if keep_region {
                rule@.region
            } else {
                None
            }),
            out.deep_view() == start + with_variants(rule@, script, region).take(i as int),
        decreases choices.len() - i,
    {
        proof {
            assert(choices.deep_view()[i as int] == choices[i as int].deep_view());
            lemma_variant_choices_normalized(rule@, i as int);
        }
        let item = LanguageIdentifier::from_sorted_parts(
            rule.language().clone(),
            if keep_script {
                copy_subtag(rule.script())
            } else {
                None
            },
            if keep_region {
                copy_subtag(rule.region())
            } else {
                None
            },
            copy_subtags(&choices[i]),
        );
        proof {
            assert(item@ == with_variants(rule@, script, region)[i as int]);
        }
        let ghost before = out.deep_view();
        out.push(item);
        i += 1;
        proof {
            assert(out.deep_view() =~= before.push(item@));
            assert(out.deep_view() =~= start + with_variants(rule@, script, region).take(i as int));
        }
    }
    proof {
        let block = with_variants(rule@, script, region);
        assert(block.take(block.len() as int) =~= block);
        assert(choices.deep_view().len() == choices.len());
    }
}

/// Appends to `out` the locales with the script of `rule` kept or dropped:
/// first those without a region, then, if `rule` has a region, those with it.
fn push_region_block(
    out: &mut Vec<LanguageIdentifier>,
    rule: &LanguageIdentifier,
    keep_script: bool,
    choices: &Vec<Vec<String>>,
)
    requires
        choices.deep_view() == variant_choices(rule@.variants),
        rule@.is_normalized(),
    ensures
        final(out).deep_view() == old(out).deep_view() + region_block(
            rule@,
            if keep_script {
                rule@.script
            } else {
                None
            },
        ),
{
    push_with_variants(out, rule, keep_script, false, choices);
    if rule.region().is_some() {
        push_with_variants(out, rule, keep_script, true, choices);
    }
}

/// The locales that are strictly weaker than `rule`: each way to keep or drop
/// its script, its region and each of its variants, but for keeping them all.
/// They differ from one another and from `rule`.
///
/// The locales without the script come first; among those with the same
/// script, the ones without the region; among those with the same script and
/// region, the selections of variants in the order of [`variant_choices`].
pub fn find_rules_omit_optparts(rule: &LanguageIdentifier) -> (r: Vec<LanguageIdentifier>)
    ensures
        r.deep_view() == omissions(rule@),
        r.len() == omission_count(rule@),
        r.deep_view().no_duplicates(),
        !r.deep_view().contains(rule@),
{
    let choices = variant_selections(rule.variants());
    let mut out: Vec<LanguageIdentifier> = Vec::new();
    push_region_block(&mut out, rule, false, &choices);
    if rule.script().is_some() {
        push_region_block(&mut out, rule, true, &choices);
    }
    proof {
        lemma_omission_count(rule@);
        assert(out.deep_view() =~= all_choices(rule@));
        assert(out.deep_view().len() == out.len());
    }
    let ghost full = out.deep_view();
    out.pop();
    proof {
        assert(out.deep_view() =~= full.drop_last());
        assert(out.deep_view().len() == out.len());
        lemma_omissions_distinct(rule@);
    }
    out
}

} // verus!
