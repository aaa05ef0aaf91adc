//! Settling on one of several detected languages.

use vstd::prelude::*;

use crate::lang::Lang;

verus! {

/// How often the language occurs.
pub open spec fn times(langs: Seq<Lang>, lang: Lang) -> nat
    decreases langs.len(),
{
    if langs.len() == 0 {
        0
    } else {
        times(langs.drop_last(), lang) + if langs.last().same(lang) {
            1nat
        } else {
            0
        }
    }
}

/// No language occurs more often than the one at `i`, and none before it as
/// often.
pub open spec fn leads(langs: Seq<Lang>, i: int) -> bool {
    &&& 0 <= i < langs.len()
    &&& forall|j: int|
        0 <= j < langs.len() ==> times(langs, #[trigger] langs[j]) <= times(langs, langs[i])
    &&& forall|j: int| 0 <= j < i ==> times(langs, #[trigger] langs[j]) < times(langs, langs[i])
}

/// The most frequent language; of several, the one that occurred first.
pub open spec fn most_frequent(langs: Seq<Lang>) -> Lang
    recommends
        langs.len() > 0,
{
    langs[choose|i: int| leads(langs, i)]
}

/// Only one place leads.
proof fn lemma_one_leads(langs: Seq<Lang>, i: int, j: int)
    requires
        leads(langs, i),
        leads(langs, j),
    ensures
        i == j,
{
    if i < j {
        assert(times(langs, langs[i]) < times(langs, langs[j]));
    }
    if j < i {
        assert(times(langs, langs[j]) < times(langs, langs[i]));
    }
}


/// How often the language occurs.
fn count(langs: &[Lang], lang: &Lang) -> (n: usize)
    ensures
        n == times(langs@, *lang),
{
    let mut n: usize = 0;
    let mut i: usize = 0;
    assert(langs@.take(0) =~= Seq::empty());
    while i < langs.len()
        invariant
            i <= langs@.len(),
            n == times(langs@.take(i as int), *lang),
            n <= i,
        decreases langs@.len() - i,
    {
        proof {
            assert(langs@.take(i + 1).drop_last() =~= langs@.take(i as int));
            assert(langs@.take(i + 1).last() == langs@[i as int]);
        }
        if langs[i] == *lang {
            n += 1;
        }
        i += 1;
    }
    assert(langs@.take(i as int) =~= langs@);
    n
}

/// The most frequent language; of several, the one that occurred first.
pub fn most_frequent_language(langs: &[Lang]) -> (lang: Lang)
    requires
        langs@.len() > 0,
    ensures
        lang == most_frequent(langs@),
{
    let mut best: usize = 0;
    let mut most: usize = count(langs, &langs[0]);
    let mut i: usize = 1;
    while i < langs.len()
        invariant
            1 <= i <= langs@.len(),
            best < i,
            most == times(langs@, langs@[best as int]),
            forall|j: int| 0 <= j < i ==> times(langs@, #[trigger] langs@[j]) <= most,
            forall|j: int| 0 <= j < best ==> times(langs@, #[trigger] langs@[j]) < most,
        decreases langs@.len() - i,
    {
        let n: usize = count(langs, &langs[i]);
        if n > most {
            best = i;
            most = n;
        }
        i += 1;
    }
    proof {
        assert(leads(langs@, best as int));
        lemma_one_leads(langs@, best as int, choose|k: int| leads(langs@, k));
    }
    langs[best].clone()
}

/// The most frequent language is one of those detected, and none of them was
/// detected more often.
pub proof fn the_most_frequent_was_detected(langs: Seq<Lang>)
    requires
        langs.len() > 0,
    ensures
        langs.contains(most_frequent(langs)),
        forall|j: int|
            0 <= j < langs.len() ==> times(langs, #[trigger] langs[j]) <= times(
                langs,
                most_frequent(langs),
            ),
{
    lemma_some_leads(langs, langs.len() as int);
    let i = choose|i: int| leads(langs, i);
    assert(langs[i] == most_frequent(langs));
}

/// The language settled on is the one with the most occurrences among those
/// detected; where several have as many, it is the one detected first.
pub proof fn ties_go_to_the_language_detected_first(langs: Seq<Lang>) -> (first: int)
    requires
        langs.len() > 0,
    ensures
        0 <= first < langs.len(),
        most_frequent(langs) == langs[first],
        forall|j: int|
            0 <= j < langs.len() ==> langs.filter(
                |lang: Lang| lang.same(#[trigger] langs[j]),
            ).len() <= langs.filter(|lang: Lang| lang.same(langs[first])).len(),
        forall|j: int|
            0 <= j < first ==> langs.filter(|lang: Lang| lang.same(#[trigger] langs[j])).len()
                < langs.filter(|lang: Lang| lang.same(langs[first])).len(),
{
    let some = lemma_some_leads(langs, langs.len() as int);
    assert(leads(langs, some));
    let first = choose|i: int| leads(langs, i);
    lemma_times_counts(langs, langs[first]);
    assert forall|j: int| 0 <= j < langs.len() implies langs.filter(
        |lang: Lang| lang.same(#[trigger] langs[j]),
    ).len() <= langs.filter(|lang: Lang| lang.same(langs[first])).len() by {
        lemma_times_counts(langs, langs[j]);
    }
    assert forall|j: int| 0 <= j < first implies langs.filter(
        |lang: Lang| lang.same(#[trigger] langs[j]),
    ).len() < langs.filter(|lang: Lang| lang.same(langs[first])).len() by {
        lemma_times_counts(langs, langs[j]);
    }
    first
}

proof fn lemma_times_counts(langs: Seq<Lang>, wanted: Lang)
    ensures
        times(langs, wanted) == langs.filter(|lang: Lang| lang.same(wanted)).len(),
    decreases langs.len(),
{
    reveal(Seq::filter);
    if langs.len() > 0 {
        lemma_times_counts(langs.drop_last(), wanted);
    }
}

proof fn lemma_some_leads(langs: Seq<Lang>, n: int) -> (best: int)
    requires
        0 < n <= langs.len(),
    ensures
        0 <= best < n,
        forall|j: int|
            0 <= j < n ==> times(langs, #[trigger] langs[j]) <= times(langs, langs[best]),
        forall|j: int| 0 <= j < best ==> times(langs, #[trigger] langs[j]) < times(langs, langs[best]),
        n == langs.len() ==> leads(langs, best),
    decreases n,
{
    if n == 1 {
        0
    } else {
        let before = lemma_some_leads(langs, n - 1);
        if times(langs, langs[before]) < times(langs, langs[n - 1]) {
            n - 1
        } else {
            before
        }
    }
}

} // verus!
