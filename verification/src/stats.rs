//! The selections behind a report's statistics. Within a report every
//! affinity has the same denominator (twice the number of questions), so
//! affinities compare as their numerators: the ordering of a group's
//! affinities for the median and the best matches of each submission for
//! the uninominal share are decided here on numerators, and only the final
//! divisions are left to floating point.

use vstd::prelude::*;

use crate::matching::AffinityRatio;
use crate::config::Platform;
use crate::dates::Date;
use crate::reports::{report_global, ResultsPublicGlobal, SubmissionRatios};

verus! {

/// The numerator of the first affinity of group `id` among `ratios`, if
/// the group is there.
pub open spec fn first_numerator_of(ratios: Seq<AffinityRatio>, id: i16) -> Option<i16>
    decreases ratios.len(),
{
    if ratios.len() == 0 {
        None
    } else if ratios[0].id == id {
        Some(ratios[0].numerator)
    } else {
        first_numerator_of(ratios.drop_first(), id)
    }
}

/// The numerators of group `id` in each submission, in the order of the
/// submissions; a submission without the group is skipped.
pub open spec fn spec_group_numerators(all: Seq<SubmissionRatios>, id: i16) -> Seq<i16>
    decreases all.len(),
{
    if all.len() == 0 {
        Seq::empty()
    } else {
        let rest = spec_group_numerators(all.drop_last(), id);
        match first_numerator_of(all.last().ratios@, id) {
            Some(n) => rest.push(n),
            None => rest,
        }
    }
}

/// The values go from the highest to the lowest.
pub open spec fn sorted_desc(s: Seq<i16>) -> bool {
    forall|i: int, j: int| 0 <= i < j < s.len() ==> s[i] >= s[j]
}

/// The highest numerator among `ratios` (0 when there is none).
pub open spec fn top_numerator(ratios: Seq<AffinityRatio>) -> int
    decreases ratios.len(),
{
    if ratios.len() == 0 {
        0
    } else if ratios.len() == 1 {
        ratios[0].numerator as int
    } else {
        let m = top_numerator(ratios.drop_last());
        let n = ratios.last().numerator as int;
        if n > m {
            n
        } else {
            m
        }
    }
}

/// How many of `ratios` have numerator `m`.
pub open spec fn count_numerator(ratios: Seq<AffinityRatio>, m: int) -> nat
    decreases ratios.len(),
{
    if ratios.len() == 0 {
        0
    } else {
        count_numerator(ratios.drop_last(), m) + if ratios.last().numerator == m { 1nat } else { 0nat }
    }
}

/// Group `id` is among the best matches of a submission: one of its
/// affinities is the highest.
pub open spec fn among_best(ratios: Seq<AffinityRatio>, id: i16) -> bool {
    exists|k: int| 0 <= k < ratios.len() && ratios[k].id == id && ratios[k].numerator == top_numerator(ratios)
}

/// For each submission of which group `id` is among the best matches, in
/// order, the number of best matches it shares that rank with.
pub open spec fn spec_uninominal_ties(all: Seq<SubmissionRatios>, id: i16) -> Seq<int>
    decreases all.len(),
{
    if all.len() == 0 {
        Seq::empty()
    } else {
        let rest = spec_uninominal_ties(all.drop_last(), id);
        let ratios = all.last().ratios@;
        if among_best(ratios, id) {
            rest.push(count_numerator(ratios, top_numerator(ratios)) as int)
        } else {
            rest
        }
    }
}

proof fn lemma_drop_first_subrange<A>(s: Seq<A>, i: int)
    requires
        0 <= i < s.len(),
    ensures
        s.subrange(i, s.len() as int).drop_first() == s.subrange(i + 1, s.len() as int),
        s.subrange(i, s.len() as int)[0] == s[i],
        s.subrange(i, s.len() as int).len() > 0,
{
    assert(s.subrange(i, s.len() as int).drop_first() =~= s.subrange(i + 1, s.len() as int));
}

proof fn lemma_take_step<A>(s: Seq<A>, i: int)
    requires
        0 <= i < s.len(),
    ensures
        s.take(i + 1).drop_last() == s.take(i),
        s.take(i + 1).last() == s[i],
        s.take(i + 1).len() == i + 1,
{
    assert(s.take(i + 1).drop_last() =~= s.take(i));
}

/// The top numerator is the highest: no numerator exceeds it, and one
/// reaches it.
pub proof fn lemma_top_numerator_is_highest(ratios: Seq<AffinityRatio>)
    requires
        ratios.len() > 0,
    ensures
        forall|k: int| 0 <= k < ratios.len() ==> ratios[k].numerator <= top_numerator(ratios),
        exists|k: int| 0 <= k < ratios.len() && ratios[k].numerator == top_numerator(ratios),
    decreases ratios.len(),
{
    if ratios.len() > 1 {
        let init = ratios.drop_last();
        lemma_top_numerator_is_highest(init);
        let w = choose|k: int| 0 <= k < init.len() && init[k].numerator == top_numerator(init);
        assert(ratios[w] == init[w]);
        assert forall|k: int| 0 <= k < ratios.len() implies ratios[k].numerator <= top_numerator(ratios) by {
            if k < init.len() {
                assert(ratios[k] == init[k]);
            }
        }
    } else {
        assert(ratios[0].numerator == top_numerator(ratios));
    }
}

proof fn lemma_count_numerator_positive(ratios: Seq<AffinityRatio>, m: int, k: int)
    requires
        0 <= k < ratios.len(),
        ratios[k].numerator == m,
    ensures
        count_numerator(ratios, m) >= 1,
    decreases ratios.len(),
{
    if k < ratios.len() - 1 {
        assert(ratios.drop_last()[k] == ratios[k]);
        lemma_count_numerator_positive(ratios.drop_last(), m, k);
    }
}

/// A group among the best matches of a submission shares that rank with at
/// least itself: the share of each best match is one over a positive count.
pub proof fn lemma_ties_are_positive(all: Seq<SubmissionRatios>, id: i16)
    ensures
        forall|t: int| 0 <= t < spec_uninominal_ties(all, id).len() ==> spec_uninominal_ties(all, id)[t] >= 1,
        spec_uninominal_ties(all, id).len() <= all.len(),
    decreases all.len(),
{
    if all.len() > 0 {
        lemma_ties_are_positive(all.drop_last(), id);
        let ratios = all.last().ratios@;
        if among_best(ratios, id) {
            let k = choose|k: int|
                0 <= k < ratios.len() && ratios[k].id == id && ratios[k].numerator == top_numerator(ratios);
            lemma_count_numerator_positive(ratios, top_numerator(ratios), k);
        }
    }
}

/// Whether an affinity has numerator `m`.
pub open spec fn has_numerator(m: int) -> spec_fn(AffinityRatio) -> bool {
    |r: AffinityRatio| r.numerator == m
}

/// The count of a numerator is the number of affinities that have it: the
/// length of the affinities kept when only those with numerator `m` are
/// kept.
pub proof fn lemma_count_numerator_counts(ratios: Seq<AffinityRatio>, m: int)
    ensures
        count_numerator(ratios, m) == ratios.filter(has_numerator(m)).len(),
        count_numerator(ratios, m) <= ratios.len(),
    decreases ratios.len(),
{
    if ratios.len() > 0 {
        lemma_count_numerator_counts(ratios.drop_last(), m);
        assert(has_numerator(m)(ratios.last()) == (ratios.last().numerator == m));
        reveal(Seq::filter);
        assert(ratios.filter(has_numerator(m)) == if has_numerator(m)(ratios.last()) {
            ratios.drop_last().filter(has_numerator(m)).push(ratios.last())
        } else {
            ratios.drop_last().filter(has_numerator(m))
        });
    }
}

/// Appending an affinity adds one to the count of its numerator and leaves
/// the other counts as they were.
pub proof fn lemma_count_numerator_push(ratios: Seq<AffinityRatio>, x: AffinityRatio, m: int)
    ensures
        count_numerator(ratios.push(x), m) == count_numerator(ratios, m) + if x.numerator == m { 1int } else { 0int },
{
    assert(ratios.push(x).drop_last() =~= ratios);
}

/// Each tie count of a group is the number of affinities of that
/// submission that reach the submission's highest numerator.
pub proof fn lemma_ties_count_the_best(all: Seq<SubmissionRatios>, id: i16)
    ensures
        spec_uninominal_ties(all, id).len() <= all.len(),
        forall|t: int|
            #![trigger spec_uninominal_ties(all, id)[t]]
            0 <= t < spec_uninominal_ties(all, id).len() ==> exists|g: int|
                0 <= g < all.len() && among_best(#[trigger] all[g].ratios@, id) && spec_uninominal_ties(all, id)[t]
                    == all[g].ratios@.filter(has_numerator(top_numerator(all[g].ratios@))).len(),
    decreases all.len(),
{
    if all.len() > 0 {
        let init = all.drop_last();
        lemma_ties_count_the_best(init, id);
        let ratios = all.last().ratios@;
        let rest = spec_uninominal_ties(init, id);
        assert forall|t: int|
            #![trigger spec_uninominal_ties(all, id)[t]]
            0 <= t < spec_uninominal_ties(all, id).len() implies exists|g: int|
            0 <= g < all.len() && among_best(#[trigger] all[g].ratios@, id) && spec_uninominal_ties(all, id)[t]
                == all[g].ratios@.filter(has_numerator(top_numerator(all[g].ratios@))).len() by {
            if t < rest.len() {
                assert(spec_uninominal_ties(all, id)[t] == rest[t]);
                let g = choose|g: int|
                    0 <= g < init.len() && among_best(#[trigger] init[g].ratios@, id) && rest[t]
                        == init[g].ratios@.filter(has_numerator(top_numerator(init[g].ratios@))).len();
                assert(all[g] == init[g]);
            } else {
                let g = all.len() - 1;
                assert(all[g] == all.last());
                lemma_count_numerator_counts(ratios, top_numerator(ratios));
            }
        }
    }
}

/// The numerator of the first affinity of group `id`, if any.
fn first_numerator(ratios: &[AffinityRatio], id: i16) -> (r: Option<i16>)
    ensures
        r == first_numerator_of(ratios@, id),
{
    let ghost s = ratios@;
    let mut i: usize = 0;
    proof {
        assert(s.subrange(0, s.len() as int) =~= s);
    }
    while i < ratios.len()
        invariant
            i <= s.len(),
            s == ratios@,
            first_numerator_of(s, id) == first_numerator_of(s.subrange(i as int, s.len() as int), id),
        decreases ratios.len() - i,
    {
        proof {
            lemma_drop_first_subrange(s, i as int);
        }
        if ratios[i].id == id {
            return Some(ratios[i].numerator);
        }
        i += 1;
    }
    None
}

/// Inserts `x` into a list sorted from the highest to the lowest, after the
/// values that are not lower.
fn insert_desc(v: &mut Vec<i16>, x: i16)
    requires
        sorted_desc(old(v)@),
    ensures
        sorted_desc(final(v)@),
        final(v)@.to_multiset() == old(v)@.to_multiset().insert(x),
{
    let mut p: usize = 0;
    while p < v.len() && v[p] >= x
        invariant
            p <= v@.len(),
            v@ == old(v)@,
            forall|j: int| 0 <= j < p ==> v@[j] >= x,
        decreases v.len() - p,
    {
        p += 1;
    }
    let ghost before = v@;
    v.insert(p, x);
    proof {
        broadcast use vstd::seq_lib::group_to_multiset_ensures;

        assert(v@ == before.insert(p as int, x));
        assert forall|i: int, j: int| 0 <= i < j < v@.len() implies v@[i] >= v@[j] by {
            if p < before.len() {
                assert(before[p as int] < x);
            }
            if j < p {
                assert(v@[i] == before[i] && v@[j] == before[j]);
            } else if j == p {
                assert(v@[i] == before[i]);
            } else if i == p {
                assert(v@[j] == before[j - 1]);
                assert(before[j - 1] <= before[p as int]);
            } else if i < p {
                assert(v@[i] == before[i] && v@[j] == before[j - 1]);
                assert(before[j - 1] <= before[p as int]);
            } else {
                assert(v@[i] == before[i - 1] && v@[j] == before[j - 1]);
            }
        }
    }
}

/// The affinities of group `group_id` across the scored submissions, as
/// their numerators, from the highest to the lowest; a submission without
/// the group is skipped.
pub fn group_numerators(group_id: i16, all: &[SubmissionRatios]) -> (r: Vec<i16>)
    ensures
        r@.to_multiset() == spec_group_numerators(all@, group_id).to_multiset(),
        sorted_desc(r@),
{
    let mut v: Vec<i16> = Vec::new();
    let mut g: usize = 0;
    proof {
        broadcast use vstd::seq_lib::group_to_multiset_ensures;

        assert(all@.take(0) =~= Seq::<SubmissionRatios>::empty());
        assert(v@.to_multiset() =~= spec_group_numerators(all@.take(0), group_id).to_multiset());
    }
    while g < all.len()
        invariant
            g <= all@.len(),
            sorted_desc(v@),
            v@.to_multiset() == spec_group_numerators(all@.take(g as int), group_id).to_multiset(),
        decreases all.len() - g,
    {
        proof {
            lemma_take_step(all@, g as int);
        }
        match first_numerator(all[g].ratios.as_slice(), group_id) {
            Some(n) => {
                insert_desc(&mut v, n);
                proof {
                    broadcast use vstd::seq_lib::group_to_multiset_ensures;

                    let prev = spec_group_numerators(all@.take(g as int), group_id);
                    assert(spec_group_numerators(all@.take(g + 1), group_id) == prev.push(n));
                }
            },
            None => {},
        }
        g += 1;
    }
    proof {
        assert(all@.take(all@.len() as int) =~= all@);
    }
    v
}

/// The median of values sorted from the highest to the lowest: the one at
/// half their count, rounded down; `None` when there is no value.
pub fn median_of(sorted: &[i16]) -> (r: Option<i16>)
    ensures
        r == (if sorted@.len() == 0 {
            None
        } else {
            Some(sorted@[(sorted@.len() / 2) as int])
        }),
{
    if sorted.len() == 0 {
        None
    } else {
        Some(sorted[sorted.len() / 2])
    }
}

/// The highest numerator among non-empty `ratios`.
fn top_of(ratios: &[AffinityRatio]) -> (m: i16)
    requires
        ratios@.len() > 0,
    ensures
        m == top_numerator(ratios@),
{
    let mut m: i16 = ratios[0].numerator;
    let mut i: usize = 1;
    proof {
        assert(ratios@.take(1).drop_last() =~= Seq::<AffinityRatio>::empty());
    }
    while i < ratios.len()
        invariant
            1 <= i <= ratios@.len(),
            m == top_numerator(ratios@.take(i as int)),
        decreases ratios.len() - i,
    {
        proof {
            lemma_take_step(ratios@, i as int);
        }
        if ratios[i].numerator > m {
            m = ratios[i].numerator;
        }
        i += 1;
    }
    proof {
        assert(ratios@.take(ratios@.len() as int) =~= ratios@);
    }
    m
}

/// How many of `ratios` have numerator `m`, and whether one of them is
/// group `id`.
fn count_top(ratios: &[AffinityRatio], m: i16, id: i16) -> (r: (usize, bool))
    ensures
        r.0 == count_numerator(ratios@, m as int),
        r.1 == exists|k: int| 0 <= k < ratios@.len() && ratios@[k].id == id && ratios@[k].numerator == m,
{
    let mut count: usize = 0;
    let mut found: bool = false;
    let mut i: usize = 0;
    proof {
        assert(ratios@.take(0) =~= Seq::<AffinityRatio>::empty());
    }
    while i < ratios.len()
        invariant
            i <= ratios@.len(),
            count == count_numerator(ratios@.take(i as int), m as int),
            count <= i,
            found == exists|k: int| 0 <= k < i && ratios@[k].id == id && ratios@[k].numerator == m,
        decreases ratios.len() - i,
    {
        proof {
            lemma_take_step(ratios@, i as int);
        }
        if ratios[i].numerator == m {
            count += 1;
            if ratios[i].id == id {
                found = true;
            }
        }
        i += 1;
    }
    proof {
        assert(ratios@.take(ratios@.len() as int) =~= ratios@);
    }
    (count, found)
}

/// For each scored submission of which group `group_id` is among the best
/// matches (its affinity is the highest of that submission, ties
/// included), in order, the number of groups that share that rank: the
/// group's uninominal share of the submission is one over that number.
pub fn uninominal_ties(group_id: i16, all: &[SubmissionRatios]) -> (r: Vec<usize>)
    ensures
        r@.len() == spec_uninominal_ties(all@, group_id).len(),
        forall|t: int| 0 <= t < r@.len() ==> r@[t] == spec_uninominal_ties(all@, group_id)[t],
        forall|t: int| 0 <= t < r@.len() ==> r@[t] >= 1,
{
    let mut ties: Vec<usize> = Vec::new();
    let mut g: usize = 0;
    proof {
        assert(all@.take(0) =~= Seq::<SubmissionRatios>::empty());
    }
    while g < all.len()
        invariant
            g <= all@.len(),
            ties@.len() == spec_uninominal_ties(all@.take(g as int), group_id).len(),
            forall|t: int|
                0 <= t < ties@.len() ==> ties@[t] == spec_uninominal_ties(all@.take(g as int), group_id)[t],
        decreases all.len() - g,
    {
        proof {
            lemma_take_step(all@, g as int);
        }
        let ratios: &[AffinityRatio] = all[g].ratios.as_slice();
        if ratios.len() > 0 {
            let m: i16 = top_of(ratios);
            let (count, found) = count_top(ratios, m, group_id);
            if found {
                ties.push(count);
            }
        }
        g += 1;
    }
    proof {
        assert(all@.take(all@.len() as int) =~= all@);
        lemma_ties_are_positive(all@, group_id);
    }
    ties
}

/// The statistics of one group in a report, before any division: its
/// affinities' numerators from the highest to the lowest, and the tie
/// counts of the submissions of which it is among the best matches.
pub struct GroupNumerators {
    pub id: i16,
    pub numerators: Vec<i16>,
    pub ties: Vec<usize>,
}

/// A report before any division: its global part and, for each group of
/// the platform in order, the group's numerators and tie counts.
pub struct ReportCore {
    pub global: ResultsPublicGlobal,
    pub groups: Vec<GroupNumerators>,
}

/// Assembles a report made on day `generated_at` for `platform`, from the
/// counts of its submissions (`total`, of which `valid` are counted) and
/// the affinities of the scored submissions.
pub fn report_core(
    platform: &Platform,
    generated_at: Date,
    total: i64,
    valid: i64,
    all: &[SubmissionRatios],
) -> (r: ReportCore)
    ensures
        r.global.platform_id == platform.id,
        r.global.started_at == platform.begin_at,
        r.global.generated_at == generated_at,
        r.global.participations.total == total,
        r.global.participations.valid == valid,
        r.groups@.len() == platform.groups@.len(),
        forall|g: int|
            0 <= g < r.groups@.len() ==> {
                let id = platform.groups@[g];
                &&& (#[trigger] r.groups@[g]).id == id
                &&& r.groups@[g].numerators@.to_multiset() == spec_group_numerators(all@, id).to_multiset()
                &&& sorted_desc(r.groups@[g].numerators@)
                &&& r.groups@[g].ties@.len() == spec_uninominal_ties(all@, id).len()
                &&& forall|t: int|
                    0 <= t < r.groups@[g].ties@.len() ==> r.groups@[g].ties@[t] == spec_uninominal_ties(all@, id)[t]
            },
{
    let mut groups: Vec<GroupNumerators> = Vec::new();
    let mut g: usize = 0;
    while g < platform.groups.len()
        invariant
            g <= platform.groups@.len(),
            groups@.len() == g,
            forall|g2: int|
                0 <= g2 < g ==> {
                    let id = platform.groups@[g2];
                    &&& (#[trigger] groups@[g2]).id == id
                    &&& groups@[g2].numerators@.to_multiset() == spec_group_numerators(all@, id).to_multiset()
                    &&& sorted_desc(groups@[g2].numerators@)
                    &&& groups@[g2].ties@.len() == spec_uninominal_ties(all@, id).len()
                    &&& forall|t: int|
                        0 <= t < groups@[g2].ties@.len() ==> groups@[g2].ties@[t] == spec_uninominal_ties(all@, id)[t]
                },
        decreases platform.groups.len() - g,
    {
        let id: i16 = platform.groups[g];
        let numerators: Vec<i16> = group_numerators(id, all);
        let ties: Vec<usize> = uninominal_ties(id, all);
        groups.push(GroupNumerators { id, numerators, ties });
        g += 1;
    }
    ReportCore { global: report_global(platform, generated_at, total, valid), groups }
}

} // verus!
