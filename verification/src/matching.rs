use vstd::prelude::*;

use crate::config::{Platform, Scrutin};
use crate::database::Choice;

verus! {

/// A participant's answer to one question.
#[derive(Debug, Clone, Copy, PartialEq, Eq, Structural)]
pub struct UserOpinion {
    /// Must be the `question_id` of one of the poll's scrutins.
    pub question_id: i16,
    pub vote: Choice,
}

/// How close a participant is to a group: the sum of the points earned on
/// each question.
#[derive(Debug, Clone, Copy, PartialEq, Eq, Structural)]
pub struct GroupScore {
    pub id: i16,
    pub score: i16,
}

// ---------------------------------------------------------------------------
// The model of the scoring.
// ---------------------------------------------------------------------------

/// The points that a group earns on one question: agreeing with its vote
/// earns one point and opposing it costs one (the other way round for a
/// question with inverted votes); abstaining together earns one point; any
/// other pairing involving an abstention earns nothing.
pub open spec fn vote_points(vote: Choice, group_vote: Choice, invert: bool) -> int {
    let agreement: int = if invert { -1 } else { 1 };
    if vote == Choice::Abstention && group_vote == Choice::Abstention {
        1
    } else if vote == Choice::Abstention || group_vote == Choice::Abstention {
        0
    } else if vote == group_vote {
        agreement
    } else {
        -agreement
    }
}

/// The group ids of a list of scores.
pub open spec fn score_ids(actors: Seq<GroupScore>) -> Seq<i16> {
    actors.map_values(|a: GroupScore| a.id)
}

/// The values of a list of scores.
pub open spec fn score_values(actors: Seq<GroupScore>) -> Seq<int> {
    actors.map_values(|a: GroupScore| a.score as int)
}

/// A score of zero for each group.
pub open spec fn zero_scores(n: nat) -> Seq<int> {
    Seq::new(n, |k: int| 0int)
}

/// `k` is the first position of `id` among the poll's groups: a group
/// listed twice only earns points at its first position.
pub open spec fn is_first_of(groups: Seq<i16>, k: int, id: i16) -> bool {
    &&& 0 <= k < groups.len()
    &&& groups[k] == id
    &&& forall|j: int| 0 <= j < k ==> groups[j] != id
}

/// Gives `pts` points to group `id`, at its first position.
pub open spec fn credit(scores: Seq<int>, groups: Seq<i16>, id: i16, pts: int) -> Seq<int> {
    Seq::new(
        scores.len(),
        |k: int|
            if is_first_of(groups, k, id) {
                scores[k] + pts
            } else {
                scores[k]
            },
    )
}

/// Gives `pts` points to each of the groups `ids`, in order.
pub open spec fn credit_all(scores: Seq<int>, groups: Seq<i16>, ids: Seq<i16>, pts: int) -> Seq<
    int,
>
    decreases ids.len(),
{
    if ids.len() == 0 {
        scores
    } else {
        credit(credit_all(scores, groups, ids.drop_last(), pts), groups, ids.last(), pts)
    }
}

/// Scores one answer against the groups' votes on its question, choice by
/// choice in the order in which they are listed.
pub open spec fn apply_organes(
    scores: Seq<int>,
    groups: Seq<i16>,
    organes: Seq<(Choice, Vec<i16>)>,
    vote: Choice,
    invert: bool,
) -> Seq<int>
    decreases organes.len(),
{
    if organes.len() == 0 {
        scores
    } else {
        credit_all(
            apply_organes(scores, groups, organes.drop_last(), vote, invert),
            groups,
            organes.last().1@,
            vote_points(vote, organes.last().0, invert),
        )
    }
}

/// `k` is the first scrutin about question `qid`.
pub open spec fn is_first_scrutin(scrutins: Seq<Scrutin>, qid: i16, k: int) -> bool {
    &&& 0 <= k < scrutins.len()
    &&& scrutins[k].question_id == qid
    &&& forall|j: int| 0 <= j < k ==> scrutins[j].question_id != qid
}

/// Some scrutin is about question `qid`.
pub open spec fn scrutin_found(scrutins: Seq<Scrutin>, qid: i16) -> bool {
    exists|k: int| 0 <= k < scrutins.len() && scrutins[k].question_id == qid
}

/// The position of the first scrutin about question `qid`.
pub open spec fn first_scrutin(scrutins: Seq<Scrutin>, qid: i16) -> int {
    choose|k: int| is_first_scrutin(scrutins, qid, k)
}

/// Scores one answer (an answer to an unknown question changes nothing).
pub open spec fn apply_opinion(
    scores: Seq<int>,
    groups: Seq<i16>,
    scrutins: Seq<Scrutin>,
    op: UserOpinion,
) -> Seq<int> {
    if scrutin_found(scrutins, op.question_id) {
        let s = scrutins[first_scrutin(scrutins, op.question_id)];
        apply_organes(scores, groups, s.organes@, op.vote, s.invert_votes)
    } else {
        scores
    }
}

/// Scores the answers in order.
pub open spec fn apply_opinions(
    scores: Seq<int>,
    groups: Seq<i16>,
    scrutins: Seq<Scrutin>,
    ops: Seq<UserOpinion>,
) -> Seq<int>
    decreases ops.len(),
{
    if ops.len() == 0 {
        scores
    } else {
        apply_opinion(apply_opinions(scores, groups, scrutins, ops.drop_last()), groups, scrutins, ops.last())
    }
}

/// The scores that a submission earns, one per group of the poll.
pub open spec fn final_scores(groups: Seq<i16>, scrutins: Seq<Scrutin>, ops: Seq<UserOpinion>) -> Seq<int> {
    apply_opinions(zero_scores(groups.len()), groups, scrutins, ops)
}

/// Answer `i` repeats no earlier question and is about a known question.
pub open spec fn opinion_ok(scrutins: Seq<Scrutin>, ops: Seq<UserOpinion>, i: int) -> bool {
    &&& forall|j: int| 0 <= j < i ==> ops[j].question_id != ops[i].question_id
    &&& scrutin_found(scrutins, ops[i].question_id)
}

/// The first `n` answers are acceptable.
pub open spec fn accepted_prefix(scrutins: Seq<Scrutin>, ops: Seq<UserOpinion>, n: int) -> bool {
    forall|i: int| 0 <= i < n ==> #[trigger] opinion_ok(scrutins, ops, i)
}

/// A submission is accepted when it answers as many questions as there are
/// scrutins, never twice the same question, and only known questions.
pub open spec fn accepted(scrutins: Seq<Scrutin>, ops: Seq<UserOpinion>) -> bool {
    &&& ops.len() == scrutins.len()
    &&& accepted_prefix(scrutins, ops, ops.len() as int)
}

/// Every value fits in an `i16`.
pub open spec fn fits(scores: Seq<int>) -> bool {
    forall|k: int| 0 <= k < scores.len() ==> i16::MIN <= #[trigger] scores[k] <= i16::MAX
}

/// Every intermediate state while crediting `ids` fits in an `i16`.
pub open spec fn ids_fit(scores: Seq<int>, groups: Seq<i16>, ids: Seq<i16>, pts: int) -> bool {
    forall|m: int| 0 <= m <= ids.len() ==> #[trigger] fits(credit_all(scores, groups, ids.take(m), pts))
}

/// The groups that voted the `j`-th choice can be credited without leaving
/// the range of an `i16`.
pub open spec fn organe_fits(
    scores: Seq<int>,
    groups: Seq<i16>,
    organes: Seq<(Choice, Vec<i16>)>,
    vote: Choice,
    invert: bool,
    j: int,
) -> bool {
    ids_fit(
        apply_organes(scores, groups, organes.take(j), vote, invert),
        groups,
        organes[j].1@,
        vote_points(vote, organes[j].0, invert),
    )
}

/// Every intermediate state while scoring one answer fits in an `i16`.
pub open spec fn organes_fit(
    scores: Seq<int>,
    groups: Seq<i16>,
    organes: Seq<(Choice, Vec<i16>)>,
    vote: Choice,
    invert: bool,
) -> bool {
    forall|j: int| 0 <= j < organes.len() ==> #[trigger] organe_fits(scores, groups, organes, vote, invert, j)
}

/// Every intermediate state while scoring answer `i` fits in an `i16`.
pub open spec fn opinion_fits_at(
    groups: Seq<i16>,
    scrutins: Seq<Scrutin>,
    ops: Seq<UserOpinion>,
    i: int,
) -> bool {
    let scores = apply_opinions(zero_scores(groups.len()), groups, scrutins, ops.take(i));
    let s = scrutins[first_scrutin(scrutins, ops[i].question_id)];
    organes_fit(scores, groups, s.organes@, ops[i].vote, s.invert_votes)
}

/// Scoring the submission never leaves the range of an `i16` before it is
/// rejected or finished: the scores are `i16` values, and the scoring
/// cannot go on past such an overflow.
pub open spec fn run_fits(groups: Seq<i16>, scrutins: Seq<Scrutin>, ops: Seq<UserOpinion>) -> bool {
    ops.len() == scrutins.len() ==> forall|i: int|
        0 <= i < ops.len() && accepted_prefix(scrutins, ops, i + 1) ==> #[trigger] opinion_fits_at(
            groups,
            scrutins,
            ops,
            i,
        )
}

// ---------------------------------------------------------------------------
// Facts about the model.
// ---------------------------------------------------------------------------

proof fn lemma_first_scrutin(scrutins: Seq<Scrutin>, qid: i16, k: int)
    requires
        is_first_scrutin(scrutins, qid, k),
    ensures
        scrutin_found(scrutins, qid),
        first_scrutin(scrutins, qid) == k,
{
    let c = first_scrutin(scrutins, qid);
    assert(is_first_scrutin(scrutins, qid, c));
    if c < k {
        assert(scrutins[c].question_id != qid);
    } else if k < c {
        assert(scrutins[k].question_id != qid);
    }
}

proof fn lemma_take_step<A>(s: Seq<A>, i: int)
    requires
        0 <= i < s.len(),
    ensures
        s.take(i + 1).drop_last() == s.take(i),
        s.take(i + 1).last() == s[i],
        s.take(i + 1).len() == i + 1,
{
    assert(s.take(i + 1).drop_last() =~= s.take(i));
}

proof fn lemma_credit_at(scores: Seq<int>, groups: Seq<i16>, id: i16, pts: int, k: int)
    requires
        scores.len() == groups.len(),
        0 <= k < groups.len(),
        groups[k] == id,
        forall|j: int| 0 <= j < k ==> groups[j] != id,
    ensures
        credit(scores, groups, id, pts) == scores.update(k, scores[k] + pts),
{
    let c = credit(scores, groups, id, pts);
    assert forall|k2: int| 0 <= k2 < scores.len() implies c[k2] == scores.update(k, scores[k] + pts)[k2] by {
        if k2 > k {
            assert(!is_first_of(groups, k2, id)) by {
                assert(groups[k] == id);
            }
        }
    }
    assert(c =~= scores.update(k, scores[k] + pts));
}

proof fn lemma_credit_absent(scores: Seq<int>, groups: Seq<i16>, id: i16, pts: int)
    requires
        scores.len() == groups.len(),
        forall|j: int| 0 <= j < groups.len() ==> groups[j] != id,
    ensures
        credit(scores, groups, id, pts) == scores,
{
    assert(credit(scores, groups, id, pts) =~= scores);
}

proof fn lemma_credit_all_len(scores: Seq<int>, groups: Seq<i16>, ids: Seq<i16>, pts: int)
    ensures
        credit_all(scores, groups, ids, pts).len() == scores.len(),
    decreases ids.len(),
{
    if ids.len() > 0 {
        lemma_credit_all_len(scores, groups, ids.drop_last(), pts);
    }
}

proof fn lemma_apply_organes_len(
    scores: Seq<int>,
    groups: Seq<i16>,
    organes: Seq<(Choice, Vec<i16>)>,
    vote: Choice,
    invert: bool,
)
    ensures
        apply_organes(scores, groups, organes, vote, invert).len() == scores.len(),
    decreases organes.len(),
{
    if organes.len() > 0 {
        lemma_apply_organes_len(scores, groups, organes.drop_last(), vote, invert);
        lemma_credit_all_len(
            apply_organes(scores, groups, organes.drop_last(), vote, invert),
            groups,
            organes.last().1@,
            vote_points(vote, organes.last().0, invert),
        );
    }
}

proof fn lemma_apply_opinions_len(
    scores: Seq<int>,
    groups: Seq<i16>,
    scrutins: Seq<Scrutin>,
    ops: Seq<UserOpinion>,
)
    ensures
        apply_opinions(scores, groups, scrutins, ops).len() == scores.len(),
    decreases ops.len(),
{
    if ops.len() > 0 {
        let prev = apply_opinions(scores, groups, scrutins, ops.drop_last());
        lemma_apply_opinions_len(scores, groups, scrutins, ops.drop_last());
        if scrutin_found(scrutins, ops.last().question_id) {
            let s = scrutins[first_scrutin(scrutins, ops.last().question_id)];
            lemma_apply_organes_len(prev, groups, s.organes@, ops.last().vote, s.invert_votes);
        }
    }
}

// ---------------------------------------------------------------------------
// The scoring.
// ---------------------------------------------------------------------------

/// How a scoring run ended.
pub enum ScoreRun {
    /// The submission was rejected.
    Rejected,
    /// A score left the range of an `i16`.
    Overflow,
    /// The scores of the poll's groups.
    Scored(Vec<GroupScore>),
}

/// The points of a vote, as computed by `vote_points`.
fn points(vote: Choice, group_vote: Choice, invert: bool) -> (p: i16)
    ensures
        p as int == vote_points(vote, group_vote, invert),
        -1 <= p <= 1,
{
    let agreement: i16 = if invert { -1 } else { 1 };
    match (vote, group_vote) {
        (Choice::Abstention, Choice::Abstention) => 1,
        (Choice::Abstention, _) => 0,
        (_, Choice::Abstention) => 0,
        (Choice::Pour, Choice::Pour) => agreement,
        (Choice::Contre, Choice::Contre) => agreement,
        _ => -agreement,
    }
}

/// Credits `pts` to the first actor with id `gr_id`; false when that would
/// leave the range of an `i16`.
fn credit_first(actors: &mut Vec<GroupScore>, gr_id: i16, pts: i16) -> (ok: bool)
    ensures
        score_ids(final(actors)@) == score_ids(old(actors)@),
        ok == fits(credit(score_values(old(actors)@), score_ids(old(actors)@), gr_id, pts as int)),
        ok ==> score_values(final(actors)@) == credit(
            score_values(old(actors)@),
            score_ids(old(actors)@),
            gr_id,
            pts as int,
        ),
{
    let ghost scores = score_values(actors@);
    let ghost groups = score_ids(actors@);
    let mut k: usize = 0;
    while k < actors.len()
        invariant
            k <= actors.len(),
            actors@ == old(actors)@,
            scores == score_values(actors@),
            groups == score_ids(actors@),
            forall|j: int| 0 <= j < k ==> groups[j] != gr_id,
        decreases actors.len() - k,
    {
        if actors[k].id == gr_id {
            proof {
                lemma_credit_at(scores, groups, gr_id, pts as int, k as int);
            }
            let cur: i16 = actors[k].score;
            match cur.checked_add(pts) {
                None => {
                    assert(!(i16::MIN <= credit(scores, groups, gr_id, pts as int)[k as int] <= i16::MAX));
                    return false;
                },
                Some(v) => {
                    actors.set(k, GroupScore { id: gr_id, score: v });
                    proof {
                        let c = credit(scores, groups, gr_id, pts as int);
                        assert(score_values(actors@) =~= c);
                        assert(score_ids(actors@) =~= groups);
                        assert(fits(c)) by {
                            assert forall|k2: int| 0 <= k2 < c.len() implies i16::MIN <= #[trigger] c[k2]
                                <= i16::MAX by {
                                assert(c[k2] == score_values(actors@)[k2]);
                            }
                        }
                    }
                    return true;
                },
            }
        }
        k += 1;
    }
    proof {
        lemma_credit_absent(scores, groups, gr_id, pts as int);
        assert(fits(scores)) by {
            assert forall|k2: int| 0 <= k2 < scores.len() implies i16::MIN <= #[trigger] scores[k2]
                <= i16::MAX by {
                assert(scores[k2] == actors@[k2].score as int);
            }
        }
    }
    true
}

proof fn lemma_values_fit(actors: Seq<GroupScore>)
    ensures
        fits(score_values(actors)),
        score_values(actors).len() == actors.len(),
        score_ids(actors).len() == actors.len(),
{
    let v = score_values(actors);
    assert forall|k: int| 0 <= k < v.len() implies i16::MIN <= #[trigger] v[k] <= i16::MAX by {
        assert(v[k] == actors[k].score as int);
    }
}

/// Credits `pts` to each group of `ids` in order; false when a score would
/// leave the range of an `i16`.
fn credit_ids(actors: &mut Vec<GroupScore>, ids: &Vec<i16>, pts: i16) -> (ok: bool)
    ensures
        score_ids(final(actors)@) == score_ids(old(actors)@),
        ok == ids_fit(score_values(old(actors)@), score_ids(old(actors)@), ids@, pts as int),
        ok ==> score_values(final(actors)@) == credit_all(
            score_values(old(actors)@),
            score_ids(old(actors)@),
            ids@,
            pts as int,
        ),
{
    let ghost s0 = score_values(actors@);
    let ghost groups = score_ids(actors@);
    proof {
        lemma_values_fit(actors@);
        assert(ids@.take(0) =~= Seq::<i16>::empty());
    }
    let mut m: usize = 0;
    while m < ids.len()
        invariant
            m <= ids.len(),
            score_ids(actors@) == groups,
            groups == score_ids(old(actors)@),
            s0 == score_values(old(actors)@),
            score_values(actors@) == credit_all(s0, groups, ids@.take(m as int), pts as int),
            forall|m2: int| 0 <= m2 <= m ==> #[trigger] fits(credit_all(s0, groups, ids@.take(m2), pts as int)),
        decreases ids.len() - m,
    {
        let gr_id: i16 = ids[m];
        proof {
            lemma_take_step(ids@, m as int);
        }
        let ok: bool = credit_first(actors, gr_id, pts);
        if !ok {
            assert(!fits(credit_all(s0, groups, ids@.take(m + 1), pts as int)));
            return false;
        }
        m += 1;
    }
    proof {
        assert(ids@.take(ids@.len() as int) =~= ids@);
    }
    true
}

/// Scores one answer against the groups' votes on its question; false when
/// a score would leave the range of an `i16`.
fn credit_organes(
    actors: &mut Vec<GroupScore>,
    organes: &Vec<(Choice, Vec<i16>)>,
    vote: Choice,
    invert: bool,
) -> (ok: bool)
    ensures
        score_ids(final(actors)@) == score_ids(old(actors)@),
        ok == organes_fit(score_values(old(actors)@), score_ids(old(actors)@), organes@, vote, invert),
        ok ==> score_values(final(actors)@) == apply_organes(
            score_values(old(actors)@),
            score_ids(old(actors)@),
            organes@,
            vote,
            invert,
        ),
{
    let ghost s0 = score_values(actors@);
    let ghost groups = score_ids(actors@);
    proof {
        assert(organes@.take(0) =~= Seq::<(Choice, Vec<i16>)>::empty());
    }
    let mut j: usize = 0;
    while j < organes.len()
        invariant
            j <= organes.len(),
            score_ids(actors@) == groups,
            groups == score_ids(old(actors)@),
            s0 == score_values(old(actors)@),
            score_values(actors@) == apply_organes(s0, groups, organes@.take(j as int), vote, invert),
            forall|j2: int| 0 <= j2 < j ==> #[trigger] organe_fits(s0, groups, organes@, vote, invert, j2),
        decreases organes.len() - j,
    {
        let pts: i16 = points(vote, organes[j].0, invert);
        proof {
            lemma_take_step(organes@, j as int);
        }
        let ok: bool = credit_ids(actors, &organes[j].1, pts);
        if !ok {
            assert(!organe_fits(s0, groups, organes@, vote, invert, j as int));
            return false;
        }
        j += 1;
    }
    proof {
        assert(organes@.take(organes@.len() as int) =~= organes@);
    }
    true
}

/// The position of the first scrutin about question `qid`, if any.
fn find_scrutin(scrutins: &[Scrutin], qid: i16) -> (r: Option<usize>)
    ensures
        r is None <==> !scrutin_found(scrutins@, qid),
        r matches Some(k) ==> is_first_scrutin(scrutins@, qid, k as int) && first_scrutin(
            scrutins@,
            qid,
        ) == k as int,
{
    let mut k: usize = 0;
    while k < scrutins.len()
        invariant
            k <= scrutins@.len(),
            forall|j: int| 0 <= j < k ==> scrutins@[j].question_id != qid,
        decreases scrutins.len() - k,
    {
        if scrutins[k].question_id == qid {
            proof {
                lemma_first_scrutin(scrutins@, qid, k as int);
            }
            return Some(k);
        }
        k += 1;
    }
    None
}

/// Whether an earlier answer than the `i`-th is about the same question.
fn answered_before(ops: &[UserOpinion], i: usize) -> (r: bool)
    requires
        i < ops@.len(),
    ensures
        r == exists|j: int| 0 <= j < i && ops@[j].question_id == ops@[i as int].question_id,
{
    let qid: i16 = ops[i].question_id;
    let mut j: usize = 0;
    while j < i
        invariant
            j <= i < ops@.len(),
            qid == ops@[i as int].question_id,
            forall|j2: int| 0 <= j2 < j ==> ops@[j2].question_id != qid,
        decreases i - j,
    {
        if ops[j].question_id == qid {
            return true;
        }
        j += 1;
    }
    false
}

/// Scores a submission, answer by answer, and says how the run ended: a
/// rejection, an overflow, or the scores.
fn score_run(groups: &Vec<i16>, scrutins: &[Scrutin], ops: &[UserOpinion]) -> (r: ScoreRun)
    ensures
        r is Overflow <==> !run_fits(groups@, scrutins@, ops@),
        r is Rejected <==> run_fits(groups@, scrutins@, ops@) && !accepted(scrutins@, ops@),
        r matches ScoreRun::Scored(v) ==> score_ids(v@) == groups@ && score_values(v@) == final_scores(
            groups@,
            scrutins@,
            ops@,
        ),
{
    let mut actors: Vec<GroupScore> = Vec::new();
    let mut g: usize = 0;
    while g < groups.len()
        invariant
            g <= groups@.len(),
            actors@.len() == g,
            forall|k: int| 0 <= k < g ==> (#[trigger] actors@[k]).id == groups@[k] && actors@[k].score == 0,
        decreases groups.len() - g,
    {
        actors.push(GroupScore { id: groups[g], score: 0 });
        g += 1;
    }
    proof {
        assert(score_ids(actors@) =~= groups@);
        assert(score_values(actors@) =~= zero_scores(groups@.len()));
    }
    if ops.len() != scrutins.len() {
        return ScoreRun::Rejected;
    }
    let ghost zeros = zero_scores(groups@.len());
    proof {
        assert(ops@.take(0) =~= Seq::<UserOpinion>::empty());
    }
    let mut i: usize = 0;
    while i < ops.len()
        invariant
            i <= ops@.len(),
            ops@.len() == scrutins@.len(),
            score_ids(actors@) == groups@,
            zeros == zero_scores(groups@.len()),
            score_values(actors@) == apply_opinions(zeros, groups@, scrutins@, ops@.take(i as int)),
            accepted_prefix(scrutins@, ops@, i as int),
            forall|i2: int| 0 <= i2 < i ==> #[trigger] opinion_fits_at(groups@, scrutins@, ops@, i2),
        decreases ops.len() - i,
    {
        proof {
            lemma_take_step(ops@, i as int);
        }
        if answered_before(ops, i) {
            proof {
                assert(!opinion_ok(scrutins@, ops@, i as int));
                assert forall|i2: int|
                    0 <= i2 < ops@.len() && accepted_prefix(scrutins@, ops@, i2 + 1) implies #[trigger] opinion_fits_at(
                    groups@,
                    scrutins@,
                    ops@,
                    i2,
                ) by {
                    if i2 >= i {
                        assert(opinion_ok(scrutins@, ops@, i as int));
                    }
                }
            }
            return ScoreRun::Rejected;
        }
        let found: Option<usize> = find_scrutin(scrutins, ops[i].question_id);
        match found {
            None => {
                proof {
                    assert(!opinion_ok(scrutins@, ops@, i as int));
                    assert forall|i2: int|
                        0 <= i2 < ops@.len() && accepted_prefix(scrutins@, ops@, i2 + 1) implies #[trigger] opinion_fits_at(
                        groups@,
                        scrutins@,
                        ops@,
                        i2,
                    ) by {
                        if i2 >= i {
                            assert(opinion_ok(scrutins@, ops@, i as int));
                        }
                    }
                }
                return ScoreRun::Rejected;
            },
            Some(k) => {
                assert(opinion_ok(scrutins@, ops@, i as int));
                assert(accepted_prefix(scrutins@, ops@, i + 1));
                let ok: bool = credit_organes(
                    &mut actors,
                    &scrutins[k].organes,
                    ops[i].vote,
                    scrutins[k].invert_votes,
                );
                if !ok {
                    assert(!opinion_fits_at(groups@, scrutins@, ops@, i as int));
                    return ScoreRun::Overflow;
                }
            },
        }
        i += 1;
    }
    proof {
        assert(ops@.take(ops@.len() as int) =~= ops@);
    }
    ScoreRun::Scored(actors)
}

/// Scores a participant's answers against the platform's groups, as the
/// client does, and checks them on the way: returns `None` when the
/// submission does not answer exactly as many questions as there are
/// scrutins, answers a question twice, or answers an unknown question;
/// otherwise one score per group of the platform, in the platform's order.
pub fn calculate_score(platform: &Platform, scrutins: &[Scrutin], user_submission: &[UserOpinion]) -> (r:
    Option<Vec<GroupScore>>)
    requires
        run_fits(platform.groups@, scrutins@, user_submission@),
    ensures
        r is Some <==> accepted(scrutins@, user_submission@),
        r matches Some(v) ==> score_ids(v@) == platform.groups@ && score_values(v@) == final_scores(
            platform.groups@,
            scrutins@,
            user_submission@,
        ),
{
    match score_run(&platform.groups, scrutins, user_submission) {
        ScoreRun::Scored(v) => Some(v),
        _ => None,
    }
}

/// Whether `calculate_score` can score this submission without a score
/// leaving the range of an `i16`.
pub fn score_fits(platform: &Platform, scrutins: &[Scrutin], user_submission: &[UserOpinion]) -> (r: bool)
    ensures
        r == run_fits(platform.groups@, scrutins@, user_submission@),
{
    match score_run(&platform.groups, scrutins, user_submission) {
        ScoreRun::Overflow => false,
        _ => true,
    }
}

// ---------------------------------------------------------------------------
// From scores to affinities.
// ---------------------------------------------------------------------------

/// A group's affinity as a fraction: `numerator / denominator` is the share
/// of the best possible score that the participant reached, the worst
/// possible score counting as none of it.
#[derive(Debug, Clone, Copy, PartialEq, Eq, Structural)]
pub struct AffinityRatio {
    pub id: i16,
    pub numerator: i16,
    pub denominator: i16,
}

/// The affinities of `group_scores` for `qcount` questions can be computed
/// in `i16` arithmetic: `score + qcount` and `qcount * 2` fit.
pub open spec fn affinity_in_range(scores: Seq<int>, qcount: int) -> bool {
    scores.len() > 0 && qcount <= i16::MAX ==> {
        &&& qcount * 2 <= i16::MAX
        &&& forall|k: int| 0 <= k < scores.len() ==> #[trigger] scores[k] + qcount <= i16::MAX
    }
}

/// The affinity of each group as the fraction `(score + qcount) / (2 *
/// qcount)`, `qcount` being the number of questions answered. `None` when
/// there is a score and `qcount` does not fit in an `i16`.
pub fn calculate_affinity_ratios(group_scores: &[GroupScore], qcount: usize) -> (r: Option<
    Vec<AffinityRatio>,
>)
    requires
        affinity_in_range(score_values(group_scores@), qcount as int),
    ensures
        r is None <==> group_scores@.len() > 0 && qcount > i16::MAX,
        r matches Some(v) ==> {
            &&& v@.len() == group_scores@.len()
            &&& forall|k: int|
                0 <= k < v@.len() ==> (#[trigger] v@[k]).id == group_scores@[k].id && v@[k].numerator
                    == group_scores@[k].score + qcount && v@[k].denominator == 2 * qcount
        },
{
    let mut group_match: Vec<AffinityRatio> = Vec::new();
    let mut k: usize = 0;
    while k < group_scores.len()
        invariant
            k <= group_scores@.len(),
            affinity_in_range(score_values(group_scores@), qcount as int),
            k > 0 ==> qcount <= i16::MAX,
            group_match@.len() == k,
            forall|k2: int|
                0 <= k2 < k ==> (#[trigger] group_match@[k2]).id == group_scores@[k2].id
                    && group_match@[k2].numerator == group_scores@[k2].score + qcount
                    && group_match@[k2].denominator == 2 * qcount,
        decreases group_scores.len() - k,
    {
        if qcount > 32767 {
            return None;
        }
        let q: i16 = qcount as i16;
        let score: i16 = group_scores[k].score;
        assert(score + q <= i16::MAX) by {
            assert(score_values(group_scores@)[k as int] == score as int);
        }
        group_match.push(AffinityRatio { id: group_scores[k].id, numerator: score + q, denominator: q * 2 });
        k += 1;
    }
    Some(group_match)
}

/// Whether `calculate_affinity_ratios` can compute these affinities in
/// `i16` arithmetic.
pub fn affinity_fits(group_scores: &[GroupScore], qcount: usize) -> (r: bool)
    ensures
        r == affinity_in_range(score_values(group_scores@), qcount as int),
{
    if group_scores.len() == 0 || qcount > 32767 {
        return true;
    }
    if qcount > 16383 {
        return false;
    }
    let mut k: usize = 0;
    while k < group_scores.len()
        invariant
            k <= group_scores@.len(),
            qcount <= 16383,
            forall|k2: int| 0 <= k2 < k ==> #[trigger] score_values(group_scores@)[k2] + qcount <= i16::MAX,
        decreases group_scores.len() - k,
    {
        assert(score_values(group_scores@)[k as int] == group_scores@[k as int].score as int);
        if group_scores[k].score as i32 + qcount as i32 > 32767 {
            return false;
        }
        k += 1;
    }
    true
}


// ---------------------------------------------------------------------------
// Laws of the scoring.
// ---------------------------------------------------------------------------

/// How many of `ids` credit the group at position `k`, that is are its id
/// with no earlier position holding the same id.
pub open spec fn hits(groups: Seq<i16>, ids: Seq<i16>, k: int) -> int
    decreases ids.len(),
{
    if ids.len() == 0 {
        0
    } else {
        hits(groups, ids.drop_last(), k) + if is_first_of(groups, k, ids.last()) { 1int } else { 0int }
    }
}

/// How many times the group at position `k` is credited by one scrutin's
/// lists of votes.
pub open spec fn organe_hits(groups: Seq<i16>, organes: Seq<(Choice, Vec<i16>)>, k: int) -> int
    decreases organes.len(),
{
    if organes.len() == 0 {
        0
    } else {
        organe_hits(groups, organes.drop_last(), k) + hits(groups, organes.last().1@, k)
    }
}

/// How many times `id` occurs in `ids`.
pub open spec fn count_in(ids: Seq<i16>, id: i16) -> int
    decreases ids.len(),
{
    if ids.len() == 0 {
        0
    } else {
        count_in(ids.drop_last(), id) + if ids.last() == id { 1int } else { 0int }
    }
}

/// How many times group `id` is listed among a scrutin's votes, all
/// choices together.
pub open spec fn times_listed(organes: Seq<(Choice, Vec<i16>)>, id: i16) -> int
    decreases organes.len(),
{
    if organes.len() == 0 {
        0
    } else {
        times_listed(organes.drop_last(), id) + count_in(organes.last().1@, id)
    }
}

proof fn lemma_hits_nonneg_le_count(groups: Seq<i16>, ids: Seq<i16>, k: int)
    requires
        0 <= k < groups.len(),
    ensures
        0 <= hits(groups, ids, k) <= count_in(ids, groups[k]),
        (exists|j: int| 0 <= j < k && groups[j] == groups[k]) ==> hits(groups, ids, k) == 0,
    decreases ids.len(),
{
    if ids.len() > 0 {
        lemma_hits_nonneg_le_count(groups, ids.drop_last(), k);
    }
}

proof fn lemma_organe_hits_bound(groups: Seq<i16>, organes: Seq<(Choice, Vec<i16>)>, k: int)
    requires
        0 <= k < groups.len(),
    ensures
        0 <= organe_hits(groups, organes, k) <= times_listed(organes, groups[k]),
        (exists|j: int| 0 <= j < k && groups[j] == groups[k]) ==> organe_hits(groups, organes, k) == 0,
    decreases organes.len(),
{
    if organes.len() > 0 {
        lemma_organe_hits_bound(groups, organes.drop_last(), k);
        lemma_hits_nonneg_le_count(groups, organes.last().1@, k);
    }
}

proof fn lemma_credit_all_delta(scores: Seq<int>, groups: Seq<i16>, ids: Seq<i16>, pts: int, k: int)
    requires
        scores.len() == groups.len(),
        0 <= k < groups.len(),
    ensures
        credit_all(scores, groups, ids, pts)[k] == scores[k] + pts * hits(groups, ids, k),
    decreases ids.len(),
{
    lemma_credit_all_len(scores, groups, ids, pts);
    if ids.len() > 0 {
        lemma_credit_all_delta(scores, groups, ids.drop_last(), pts, k);
        lemma_credit_all_len(scores, groups, ids.drop_last(), pts);
        let h = hits(groups, ids.drop_last(), k);
        assert(pts * (h + 1) == pts * h + pts) by (nonlinear_arith);
    }
}

proof fn lemma_apply_organes_delta(
    scores: Seq<int>,
    groups: Seq<i16>,
    organes: Seq<(Choice, Vec<i16>)>,
    vote: Choice,
    invert: bool,
    k: int,
)
    requires
        scores.len() == groups.len(),
        0 <= k < groups.len(),
    ensures
        scores[k] - organe_hits(groups, organes, k) <= apply_organes(scores, groups, organes, vote, invert)[k]
            <= scores[k] + organe_hits(groups, organes, k),
    decreases organes.len(),
{
    if organes.len() > 0 {
        let prev = apply_organes(scores, groups, organes.drop_last(), vote, invert);
        lemma_apply_organes_delta(scores, groups, organes.drop_last(), vote, invert, k);
        lemma_apply_organes_len(scores, groups, organes.drop_last(), vote, invert);
        let pts = vote_points(vote, organes.last().0, invert);
        let h = hits(groups, organes.last().1@, k);
        lemma_credit_all_delta(prev, groups, organes.last().1@, pts, k);
        lemma_hits_nonneg_le_count(groups, organes.last().1@, k);
        assert(-h <= pts * h <= h) by (nonlinear_arith)
            requires
                -1 <= pts <= 1,
                h >= 0,
        ;
    }
}

proof fn lemma_apply_opinions_bound(
    scores: Seq<int>,
    groups: Seq<i16>,
    scrutins: Seq<Scrutin>,
    ops: Seq<UserOpinion>,
    k: int,
    c: int,
)
    requires
        scores.len() == groups.len(),
        0 <= k < groups.len(),
        c >= 0,
        forall|i: int| 0 <= i < scrutins.len() ==> organe_hits(groups, #[trigger] scrutins[i].organes@, k) <= c,
    ensures
        scores[k] - c * ops.len() <= apply_opinions(scores, groups, scrutins, ops)[k] <= scores[k] + c * ops.len(),
    decreases ops.len(),
{
    if ops.len() > 0 {
        let prev = apply_opinions(scores, groups, scrutins, ops.drop_last());
        lemma_apply_opinions_bound(scores, groups, scrutins, ops.drop_last(), k, c);
        lemma_apply_opinions_len(scores, groups, scrutins, ops.drop_last());
        let n = ops.len() - 1;
        assert(c * n + c == c * ops.len()) by (nonlinear_arith)
            requires
                n == ops.len() - 1,
        ;
        if scrutin_found(scrutins, ops.last().question_id) {
            let f = first_scrutin(scrutins, ops.last().question_id);
            assert(is_first_scrutin(scrutins, ops.last().question_id, f)) by {
                let w = choose|w: int| 0 <= w < scrutins.len() && scrutins[w].question_id == ops.last().question_id;
                lemma_first_scrutin_exists(scrutins, ops.last().question_id, w);
            }
            let s = scrutins[f];
            lemma_apply_organes_delta(prev, groups, s.organes@, ops.last().vote, s.invert_votes, k);
        }
    }
}

/// A scrutin about `qid` at position `w` means that there is a first one.
proof fn lemma_first_scrutin_exists(scrutins: Seq<Scrutin>, qid: i16, w: int)
    requires
        0 <= w < scrutins.len(),
        scrutins[w].question_id == qid,
    ensures
        exists|k: int| is_first_scrutin(scrutins, qid, k),
    decreases w,
{
    if forall|j: int| 0 <= j < w ==> scrutins[j].question_id != qid {
        assert(is_first_scrutin(scrutins, qid, w));
    } else {
        let j = choose|j: int| 0 <= j < w && scrutins[j].question_id == qid;
        lemma_first_scrutin_exists(scrutins, qid, j);
    }
}

/// When each scrutin lists a group at most once among its votes, the
/// group's score lies between minus and plus the number of answers: each
/// answer moves it by one point at most.
pub proof fn lemma_score_bounded_by_answers(
    groups: Seq<i16>,
    scrutins: Seq<Scrutin>,
    ops: Seq<UserOpinion>,
    k: int,
)
    requires
        0 <= k < groups.len(),
        forall|i: int| 0 <= i < scrutins.len() ==> times_listed(#[trigger] scrutins[i].organes@, groups[k]) <= 1,
    ensures
        -ops.len() <= final_scores(groups, scrutins, ops)[k] <= ops.len(),
{
    assert forall|i: int| 0 <= i < scrutins.len() implies organe_hits(groups, #[trigger] scrutins[i].organes@, k)
        <= 1 by {
        lemma_organe_hits_bound(groups, scrutins[i].organes@, k);
    }
    lemma_apply_opinions_bound(zero_scores(groups.len()), groups, scrutins, ops, k, 1);
}

/// A group that no scrutin lists among its votes, and a group listed a
/// second time in the platform's groups, keep a score of zero.
pub proof fn lemma_unlisted_group_scores_zero(
    groups: Seq<i16>,
    scrutins: Seq<Scrutin>,
    ops: Seq<UserOpinion>,
    k: int,
)
    requires
        0 <= k < groups.len(),
        (forall|i: int| 0 <= i < scrutins.len() ==> times_listed(#[trigger] scrutins[i].organes@, groups[k]) == 0)
            || (exists|j: int| 0 <= j < k && groups[j] == groups[k]),
    ensures
        final_scores(groups, scrutins, ops)[k] == 0,
{
    assert forall|i: int| 0 <= i < scrutins.len() implies organe_hits(groups, #[trigger] scrutins[i].organes@, k)
        <= 0 by {
        lemma_organe_hits_bound(groups, scrutins[i].organes@, k);
    }
    lemma_apply_opinions_bound(zero_scores(groups.len()), groups, scrutins, ops, k, 0);
}

/// When each scrutin lists a group at most once among its votes, the
/// group's affinity with an accepted submission is a share between 0 and
/// 100 percent: `0 <= score + q <= 2 * q` for `q` answers.
pub proof fn lemma_affinity_is_a_share(groups: Seq<i16>, scrutins: Seq<Scrutin>, ops: Seq<UserOpinion>, k: int)
    requires
        0 <= k < groups.len(),
        forall|i: int| 0 <= i < scrutins.len() ==> times_listed(#[trigger] scrutins[i].organes@, groups[k]) <= 1,
    ensures
        0 <= final_scores(groups, scrutins, ops)[k] + ops.len() <= 2 * ops.len(),
{
    lemma_score_bounded_by_answers(groups, scrutins, ops, k);
}


/// The sum of `f` over the items of `s`.
pub open spec fn sum_of<A>(s: Seq<A>, f: spec_fn(A) -> int) -> int
    decreases s.len(),
{
    if s.len() == 0 {
        0
    } else {
        sum_of(s.drop_last(), f) + f(s.last())
    }
}

proof fn lemma_sum_remove<A>(s: Seq<A>, f: spec_fn(A) -> int, i: int)
    requires
        0 <= i < s.len(),
    ensures
        sum_of(s, f) == sum_of(s.remove(i), f) + f(s[i]),
    decreases s.len(),
{
    if i == s.len() - 1 {
        assert(s.remove(i) =~= s.drop_last());
    } else {
        let rest = s.drop_last();
        assert(s.remove(i).drop_last() =~= rest.remove(i));
        assert(s.remove(i).last() == s.last());
        lemma_sum_remove(rest, f, i);
    }
}

/// A sum does not depend on the order of the items.
proof fn lemma_sum_permutation<A>(s1: Seq<A>, s2: Seq<A>, f: spec_fn(A) -> int)
    requires
        s1.to_multiset() == s2.to_multiset(),
    ensures
        sum_of(s1, f) == sum_of(s2, f),
    decreases s2.len(),
{
    broadcast use vstd::seq_lib::group_to_multiset_ensures;

    if s2.len() == 0 {
        assert(s1.to_multiset().len() == 0);
        assert(s1 =~= s2);
    } else {
        let n = s2.len() - 1;
        let x = s2.last();
        assert(s2.remove(n) =~= s2.drop_last());
        assert(s2.drop_last().to_multiset() == s2.to_multiset().remove(x));
        assert(s2.contains(x)) by {
            assert(s2[n] == x);
        }
        assert(s2.to_multiset().count(x) > 0);
        assert(s1.to_multiset().count(x) > 0);
        assert(s1.contains(x));
        let i = choose|i: int| 0 <= i < s1.len() && s1[i] == x;
        assert(s1.remove(i).to_multiset() == s1.to_multiset().remove(s1[i]));
        lemma_sum_permutation(s1.remove(i), s2.drop_last(), f);
        lemma_sum_remove(s1, f, i);
    }
}

/// What one scrutin's lists of votes add to the score of the group at
/// position `k`.
pub open spec fn organe_delta(
    groups: Seq<i16>,
    organes: Seq<(Choice, Vec<i16>)>,
    vote: Choice,
    invert: bool,
    k: int,
) -> int {
    sum_of(organes, |o: (Choice, Vec<i16>)| vote_points(vote, o.0, invert) * hits(groups, o.1@, k))
}

proof fn lemma_apply_organes_is_delta(
    scores: Seq<int>,
    groups: Seq<i16>,
    organes: Seq<(Choice, Vec<i16>)>,
    vote: Choice,
    invert: bool,
    k: int,
)
    requires
        scores.len() == groups.len(),
        0 <= k < groups.len(),
    ensures
        apply_organes(scores, groups, organes, vote, invert)[k] == scores[k] + organe_delta(
            groups,
            organes,
            vote,
            invert,
            k,
        ),
    decreases organes.len(),
{
    if organes.len() > 0 {
        let prev = apply_organes(scores, groups, organes.drop_last(), vote, invert);
        lemma_apply_organes_is_delta(scores, groups, organes.drop_last(), vote, invert, k);
        lemma_apply_organes_len(scores, groups, organes.drop_last(), vote, invert);
        lemma_credit_all_delta(
            prev,
            groups,
            organes.last().1@,
            vote_points(vote, organes.last().0, invert),
            k,
        );
    }
}

/// Scores one answer the same way whatever the order of a scrutin's lists
/// of votes.
proof fn lemma_apply_organes_permutation(
    scores: Seq<int>,
    groups: Seq<i16>,
    o1: Seq<(Choice, Vec<i16>)>,
    o2: Seq<(Choice, Vec<i16>)>,
    vote: Choice,
    invert: bool,
)
    requires
        scores.len() == groups.len(),
        o1.to_multiset() == o2.to_multiset(),
    ensures
        apply_organes(scores, groups, o1, vote, invert) == apply_organes(scores, groups, o2, vote, invert),
{
    let a1 = apply_organes(scores, groups, o1, vote, invert);
    let a2 = apply_organes(scores, groups, o2, vote, invert);
    lemma_apply_organes_len(scores, groups, o1, vote, invert);
    lemma_apply_organes_len(scores, groups, o2, vote, invert);
    assert forall|k: int| 0 <= k < a1.len() implies a1[k] == a2[k] by {
        lemma_apply_organes_is_delta(scores, groups, o1, vote, invert, k);
        lemma_apply_organes_is_delta(scores, groups, o2, vote, invert, k);
        lemma_sum_permutation(
            o1,
            o2,
            |o: (Choice, Vec<i16>)| vote_points(vote, o.0, invert) * hits(groups, o.1@, k),
        );
    }
    assert(a1 =~= a2);
}

/// Two lists of scrutins that differ only in the order in which each
/// scrutin lists its votes.
pub open spec fn same_but_vote_order(s1: Seq<Scrutin>, s2: Seq<Scrutin>) -> bool {
    &&& s1.len() == s2.len()
    &&& forall|i: int|
        0 <= i < s1.len() ==> {
            &&& (#[trigger] s1[i]).question_id == s2[i].question_id
            &&& s1[i].invert_votes == s2[i].invert_votes
            &&& s1[i].organes@.to_multiset() == s2[i].organes@.to_multiset()
        }
}

proof fn lemma_apply_opinions_vote_order(
    scores: Seq<int>,
    groups: Seq<i16>,
    s1: Seq<Scrutin>,
    s2: Seq<Scrutin>,
    ops: Seq<UserOpinion>,
)
    requires
        scores.len() == groups.len(),
        same_but_vote_order(s1, s2),
    ensures
        apply_opinions(scores, groups, s1, ops) == apply_opinions(scores, groups, s2, ops),
    decreases ops.len(),
{
    if ops.len() > 0 {
        let prev = apply_opinions(scores, groups, s1, ops.drop_last());
        lemma_apply_opinions_vote_order(scores, groups, s1, s2, ops.drop_last());
        lemma_apply_opinions_len(scores, groups, s1, ops.drop_last());
        let q = ops.last().question_id;
        if scrutin_found(s1, q) {
            let w = choose|w: int| 0 <= w < s1.len() && s1[w].question_id == q;
            lemma_first_scrutin_exists(s1, q, w);
            let f = choose|f: int| is_first_scrutin(s1, q, f);
            assert(is_first_scrutin(s2, q, f)) by {
                assert(s1[f].question_id == s2[f].question_id);
                assert forall|j: int| 0 <= j < f implies s2[j].question_id != q by {
                    assert(s1[j].question_id == s2[j].question_id);
                }
            }
            lemma_first_scrutin(s1, q, f);
            lemma_first_scrutin(s2, q, f);
            assert(s1[f].question_id == s2[f].question_id);
            lemma_apply_organes_permutation(
                prev,
                groups,
                s1[f].organes@,
                s2[f].organes@,
                ops.last().vote,
                s1[f].invert_votes,
            );
        } else {
            assert(!scrutin_found(s2, q)) by {
                if scrutin_found(s2, q) {
                    let w = choose|w: int| 0 <= w < s2.len() && s2[w].question_id == q;
                    assert(s1[w].question_id == s2[w].question_id);
                }
            }
        }
    }
}

/// The scores of a submission do not depend on the order in which each
/// scrutin lists its votes: the votes of a scrutin are a map from choices,
/// whose order of iteration is left open.
pub proof fn lemma_scores_ignore_vote_order(
    groups: Seq<i16>,
    s1: Seq<Scrutin>,
    s2: Seq<Scrutin>,
    ops: Seq<UserOpinion>,
)
    requires
        same_but_vote_order(s1, s2),
    ensures
        final_scores(groups, s1, ops) == final_scores(groups, s2, ops),
{
    lemma_apply_opinions_vote_order(zero_scores(groups.len()), groups, s1, s2, ops);
}

/// What answer `op` adds to the score of the group at position `k`.
pub open spec fn opinion_delta(groups: Seq<i16>, scrutins: Seq<Scrutin>, op: UserOpinion, k: int) -> int {
    if scrutin_found(scrutins, op.question_id) {
        let s = scrutins[first_scrutin(scrutins, op.question_id)];
        organe_delta(groups, s.organes@, op.vote, s.invert_votes, k)
    } else {
        0
    }
}

proof fn lemma_apply_opinions_is_sum(
    scores: Seq<int>,
    groups: Seq<i16>,
    scrutins: Seq<Scrutin>,
    ops: Seq<UserOpinion>,
    k: int,
)
    requires
        scores.len() == groups.len(),
        0 <= k < groups.len(),
    ensures
        apply_opinions(scores, groups, scrutins, ops)[k] == scores[k] + sum_of(
            ops,
            |op: UserOpinion| opinion_delta(groups, scrutins, op, k),
        ),
    decreases ops.len(),
{
    if ops.len() > 0 {
        let prev = apply_opinions(scores, groups, scrutins, ops.drop_last());
        lemma_apply_opinions_is_sum(scores, groups, scrutins, ops.drop_last(), k);
        lemma_apply_opinions_len(scores, groups, scrutins, ops.drop_last());
        let op = ops.last();
        if scrutin_found(scrutins, op.question_id) {
            let s = scrutins[first_scrutin(scrutins, op.question_id)];
            lemma_apply_organes_is_delta(prev, groups, s.organes@, op.vote, s.invert_votes, k);
        }
    }
}

/// The scores of a submission do not depend on the order of its answers:
/// each answer adds its own points. Answers read back in another order, as
/// a report reads them from the database, score as they did when they
/// were submitted.
pub proof fn lemma_scores_ignore_answer_order(
    groups: Seq<i16>,
    scrutins: Seq<Scrutin>,
    ops1: Seq<UserOpinion>,
    ops2: Seq<UserOpinion>,
)
    requires
        ops1.to_multiset() == ops2.to_multiset(),
    ensures
        final_scores(groups, scrutins, ops1) == final_scores(groups, scrutins, ops2),
{
    let z = zero_scores(groups.len());
    let f1 = final_scores(groups, scrutins, ops1);
    let f2 = final_scores(groups, scrutins, ops2);
    lemma_apply_opinions_len(z, groups, scrutins, ops1);
    lemma_apply_opinions_len(z, groups, scrutins, ops2);
    assert forall|k: int| 0 <= k < f1.len() implies f1[k] == f2[k] by {
        lemma_apply_opinions_is_sum(z, groups, scrutins, ops1, k);
        lemma_apply_opinions_is_sum(z, groups, scrutins, ops2, k);
        lemma_sum_permutation(ops1, ops2, |op: UserOpinion| opinion_delta(groups, scrutins, op, k));
    }
    assert(f1 =~= f2);
}

/// No two answers are about the same question.
pub open spec fn distinct_questions(ops: Seq<UserOpinion>) -> bool {
    forall|i: int, j: int| 0 <= i < j < ops.len() ==> #[trigger] ops[i].question_id != #[trigger] ops[j].question_id
}

/// Every answer is about a known question.
pub open spec fn all_known(scrutins: Seq<Scrutin>, ops: Seq<UserOpinion>) -> bool {
    forall|i: int| 0 <= i < ops.len() ==> #[trigger] scrutin_found(scrutins, ops[i].question_id)
}

proof fn lemma_accepted_iff(scrutins: Seq<Scrutin>, ops: Seq<UserOpinion>)
    ensures
        accepted(scrutins, ops) <==> ops.len() == scrutins.len() && distinct_questions(ops) && all_known(scrutins, ops),
{
    if accepted(scrutins, ops) {
        assert forall|i: int, j: int| 0 <= i < j < ops.len() implies #[trigger] ops[i].question_id
            != #[trigger] ops[j].question_id by {
            assert(opinion_ok(scrutins, ops, j));
        }
        assert forall|i: int| 0 <= i < ops.len() implies #[trigger] scrutin_found(scrutins, ops[i].question_id) by {
            assert(opinion_ok(scrutins, ops, i));
        }
    }
    if ops.len() == scrutins.len() && distinct_questions(ops) && all_known(scrutins, ops) {
        assert forall|i: int| 0 <= i < ops.len() implies #[trigger] opinion_ok(scrutins, ops, i) by {
            assert(scrutin_found(scrutins, ops[i].question_id));
            assert forall|j: int| 0 <= j < i implies ops[j].question_id != ops[i].question_id by {
                assert(ops[j].question_id != ops[i].question_id);
            }
        }
    }
}

proof fn lemma_count_at_most_one(ops: Seq<UserOpinion>, x: UserOpinion)
    requires
        distinct_questions(ops),
    ensures
        ops.to_multiset().count(x) <= 1,
    decreases ops.len(),
{
    broadcast use vstd::seq_lib::group_to_multiset_ensures;

    if ops.len() > 0 {
        let init = ops.drop_last();
        assert(distinct_questions(init)) by {
            assert forall|i: int, j: int| 0 <= i < j < init.len() implies #[trigger] init[i].question_id
                != #[trigger] init[j].question_id by {
                assert(ops[i].question_id != ops[j].question_id);
            }
        }
        lemma_count_at_most_one(init, x);
        assert(init.push(ops.last()) =~= ops);
        if ops.last() == x {
            assert(!init.contains(x)) by {
                if init.contains(x) {
                    let i = choose|i: int| 0 <= i < init.len() && init[i] == x;
                    assert(ops[i].question_id != ops[ops.len() - 1].question_id);
                }
            }
        }
    }
}

proof fn lemma_accepted_transfers(scrutins: Seq<Scrutin>, ops1: Seq<UserOpinion>, ops2: Seq<UserOpinion>)
    requires
        ops1.to_multiset() == ops2.to_multiset(),
        accepted(scrutins, ops1),
    ensures
        accepted(scrutins, ops2),
{
    broadcast use vstd::seq_lib::group_to_multiset_ensures;

    lemma_accepted_iff(scrutins, ops1);
    lemma_accepted_iff(scrutins, ops2);
    assert(ops1.len() == ops1.to_multiset().len());
    assert(ops2.len() == ops2.to_multiset().len());
    assert forall|i: int| 0 <= i < ops2.len() implies exists|p: int| 0 <= p < ops1.len() && ops1[p] == #[trigger] ops2[i] by {
        assert(ops2.contains(ops2[i]));
        assert(ops1.to_multiset().count(ops2[i]) > 0);
        assert(ops1.contains(ops2[i]));
    }
    assert forall|i: int| 0 <= i < ops2.len() implies #[trigger] scrutin_found(scrutins, ops2[i].question_id) by {
        let p = choose|p: int| 0 <= p < ops1.len() && ops1[p] == ops2[i];
        assert(scrutin_found(scrutins, ops1[p].question_id));
    }
    assert forall|i: int, j: int| 0 <= i < j < ops2.len() implies #[trigger] ops2[i].question_id
        != #[trigger] ops2[j].question_id by {
        let p = choose|p: int| 0 <= p < ops1.len() && ops1[p] == ops2[i];
        let q = choose|q: int| 0 <= q < ops1.len() && ops1[q] == ops2[j];
        if ops2[i].question_id == ops2[j].question_id {
            if ops2[i] == ops2[j] {
                let x = ops2[i];
                assert(ops2.remove(j)[i] == x);
                assert(ops2.remove(j).contains(x));
                assert(ops2.remove(j).to_multiset().count(x) > 0);
                assert(ops2.to_multiset().count(x) >= 2);
                lemma_count_at_most_one(ops1, x);
            } else {
                assert(p != q);
                if p < q {
                    assert(ops1[p].question_id != ops1[q].question_id);
                } else {
                    assert(ops1[q].question_id != ops1[p].question_id);
                }
            }
        }
    }
}

/// Whether a submission is accepted does not depend on the order of its
/// answers either.
pub proof fn lemma_acceptance_ignores_answer_order(
    scrutins: Seq<Scrutin>,
    ops1: Seq<UserOpinion>,
    ops2: Seq<UserOpinion>,
)
    requires
        ops1.to_multiset() == ops2.to_multiset(),
    ensures
        accepted(scrutins, ops1) == accepted(scrutins, ops2),
{
    if accepted(scrutins, ops1) {
        lemma_accepted_transfers(scrutins, ops1, ops2);
    }
    if accepted(scrutins, ops2) {
        lemma_accepted_transfers(scrutins, ops2, ops1);
    }
}

proof fn lemma_count_in_nonneg(ids: Seq<i16>, id: i16)
    ensures
        count_in(ids, id) >= 0,
    decreases ids.len(),
{
    if ids.len() > 0 {
        lemma_count_in_nonneg(ids.drop_last(), id);
    }
}

proof fn lemma_count_in_prefix(ids: Seq<i16>, id: i16, m: int)
    requires
        0 <= m <= ids.len(),
    ensures
        count_in(ids.take(m), id) <= count_in(ids, id),
    decreases ids.len() - m,
{
    if m == ids.len() {
        assert(ids.take(m) =~= ids);
    } else {
        lemma_count_in_prefix(ids, id, m + 1);
        assert(ids.take(m + 1).drop_last() =~= ids.take(m));
    }
}

proof fn lemma_times_listed_nonneg(organes: Seq<(Choice, Vec<i16>)>, id: i16)
    ensures
        times_listed(organes, id) >= 0,
    decreases organes.len(),
{
    if organes.len() > 0 {
        lemma_times_listed_nonneg(organes.drop_last(), id);
        lemma_count_in_nonneg(organes.last().1@, id);
    }
}

/// The choices before the `j`-th and the `j`-th itself list a group no
/// more often than all of them.
proof fn lemma_times_listed_prefix(organes: Seq<(Choice, Vec<i16>)>, id: i16, j: int)
    requires
        0 <= j < organes.len(),
    ensures
        times_listed(organes.take(j), id) + count_in(organes[j].1@, id) <= times_listed(organes, id),
    decreases organes.len() - j,
{
    assert(organes.take(j + 1).drop_last() =~= organes.take(j));
    assert(organes.take(j + 1).last() == organes[j]);
    if j + 1 == organes.len() {
        assert(organes.take(j + 1) =~= organes);
    } else {
        lemma_times_listed_prefix(organes, id, j + 1);
        lemma_times_listed_nonneg(organes.take(j + 1), id);
        lemma_count_in_nonneg(organes[j + 1].1@, id);
    }
}

/// While one answer is being scored, a group listed at most once by its
/// scrutin moves by at most one point from where the earlier answers left
/// it.
proof fn lemma_scoring_step_bounded(
    scores: Seq<int>,
    groups: Seq<i16>,
    organes: Seq<(Choice, Vec<i16>)>,
    vote: Choice,
    invert: bool,
    j: int,
    m: int,
    k: int,
    bound: int,
)
    requires
        scores.len() == groups.len(),
        0 <= k < groups.len(),
        -bound <= scores[k] <= bound,
        times_listed(organes, groups[k]) <= 1,
        0 <= j < organes.len(),
        0 <= m <= organes[j].1@.len(),
    ensures
        -(bound + 1) <= credit_all(
            apply_organes(scores, groups, organes.take(j), vote, invert),
            groups,
            organes[j].1@.take(m),
            vote_points(vote, organes[j].0, invert),
        )[k] <= bound + 1,
{
    let g = groups[k];
    let before = apply_organes(scores, groups, organes.take(j), vote, invert);
    let ids = organes[j].1@;
    let pts = vote_points(vote, organes[j].0, invert);
    lemma_apply_organes_len(scores, groups, organes.take(j), vote, invert);
    lemma_apply_organes_delta(scores, groups, organes.take(j), vote, invert, k);
    lemma_organe_hits_bound(groups, organes.take(j), k);
    lemma_credit_all_delta(before, groups, ids.take(m), pts, k);
    lemma_hits_nonneg_le_count(groups, ids.take(m), k);
    lemma_count_in_prefix(ids, g, m);
    lemma_times_listed_prefix(organes, g, j);
    let h = hits(groups, ids.take(m), k);
    assert(-h <= pts * h <= h) by (nonlinear_arith)
        requires
            -1 <= pts <= 1,
            h >= 0,
    ;
}

/// Scrutins that list each of the platform's groups at most once among
/// their votes, and a submission of at most `i16::MAX` answers: no score
/// can leave the range of an `i16`, whatever the answers and their order.
pub proof fn lemma_listed_once_never_overflows(groups: Seq<i16>, scrutins: Seq<Scrutin>, ops: Seq<UserOpinion>)
    requires
        ops.len() <= i16::MAX,
        forall|i: int, k: int|
            0 <= i < scrutins.len() && 0 <= k < groups.len() ==> times_listed(
                #[trigger] scrutins[i].organes@,
                #[trigger] groups[k],
            ) <= 1,
    ensures
        run_fits(groups, scrutins, ops),
{
    let zero = zero_scores(groups.len());
    assert forall|i: int|
        0 <= i < ops.len() && accepted_prefix(scrutins, ops, i + 1) implies #[trigger] opinion_fits_at(
        groups,
        scrutins,
        ops,
        i,
    ) by {
        let prefix = ops.take(i);
        let scores = apply_opinions(zero, groups, scrutins, prefix);
        lemma_apply_opinions_len(zero, groups, scrutins, prefix);
        assert(opinion_ok(scrutins, ops, i));
        let q = ops[i].question_id;
        let w = choose|w: int| 0 <= w < scrutins.len() && scrutins[w].question_id == q;
        lemma_first_scrutin_exists(scrutins, q, w);
        let f = choose|f: int| is_first_scrutin(scrutins, q, f);
        lemma_first_scrutin(scrutins, q, f);
        let s = scrutins[f];
        let organes = s.organes@;
        assert forall|j: int| 0 <= j < organes.len() implies #[trigger] organe_fits(
            scores,
            groups,
            organes,
            ops[i].vote,
            s.invert_votes,
            j,
        ) by {
            let before = apply_organes(scores, groups, organes.take(j), ops[i].vote, s.invert_votes);
            let ids = organes[j].1@;
            let pts = vote_points(ops[i].vote, organes[j].0, s.invert_votes);
            lemma_apply_organes_len(scores, groups, organes.take(j), ops[i].vote, s.invert_votes);
            assert forall|m: int| 0 <= m <= ids.len() implies #[trigger] fits(
                credit_all(before, groups, ids.take(m), pts),
            ) by {
                let st = credit_all(before, groups, ids.take(m), pts);
                lemma_credit_all_len(before, groups, ids.take(m), pts);
                assert forall|k: int| 0 <= k < st.len() implies i16::MIN <= #[trigger] st[k] <= i16::MAX by {
                    assert forall|i2: int| 0 <= i2 < scrutins.len() implies organe_hits(
                        groups,
                        #[trigger] scrutins[i2].organes@,
                        k,
                    ) <= 1 by {
                        lemma_organe_hits_bound(groups, scrutins[i2].organes@, k);
                        assert(times_listed(scrutins[i2].organes@, groups[k]) <= 1);
                    }
                    lemma_apply_opinions_bound(zero, groups, scrutins, prefix, k, 1);
                    assert(times_listed(scrutins[f].organes@, groups[k]) <= 1);
                    lemma_scoring_step_bounded(
                        scores,
                        groups,
                        organes,
                        ops[i].vote,
                        s.invert_votes,
                        j,
                        m,
                        k,
                        i,
                    );
                }
            }
        }
    }
}

/// What `calculate_score` answers for these answers: the scores of an
/// accepted submission, `None` otherwise.
pub open spec fn score_outcome(groups: Seq<i16>, scrutins: Seq<Scrutin>, ops: Seq<UserOpinion>) -> Option<
    Seq<int>,
> {
    if accepted(scrutins, ops) {
        Some(final_scores(groups, scrutins, ops))
    } else {
        None
    }
}

/// `calculate_score` answers the same for the same answers in any order.
/// It can be called on every order when the scrutins list each group at
/// most once and there are at most `i16::MAX` answers; otherwise the
/// running scores of some order may leave the range of an `i16`, where the
/// scoring cannot go on.
pub proof fn lemma_calculate_score_ignores_answer_order(
    groups: Seq<i16>,
    scrutins: Seq<Scrutin>,
    ops1: Seq<UserOpinion>,
    ops2: Seq<UserOpinion>,
)
    requires
        ops1.to_multiset() == ops2.to_multiset(),
    ensures
        score_outcome(groups, scrutins, ops1) == score_outcome(groups, scrutins, ops2),
        (ops1.len() <= i16::MAX && forall|i: int, k: int|
            0 <= i < scrutins.len() && 0 <= k < groups.len() ==> times_listed(
                #[trigger] scrutins[i].organes@,
                #[trigger] groups[k],
            ) <= 1) ==> run_fits(groups, scrutins, ops1) && run_fits(groups, scrutins, ops2),
{
    broadcast use vstd::seq_lib::group_to_multiset_ensures;

    lemma_acceptance_ignores_answer_order(scrutins, ops1, ops2);
    lemma_scores_ignore_answer_order(groups, scrutins, ops1, ops2);
    assert(ops1.len() == ops1.to_multiset().len());
    assert(ops2.len() == ops2.to_multiset().len());
    if ops1.len() <= i16::MAX && forall|i: int, k: int|
        0 <= i < scrutins.len() && 0 <= k < groups.len() ==> times_listed(
            #[trigger] scrutins[i].organes@,
            #[trigger] groups[k],
        ) <= 1 {
        lemma_listed_once_never_overflows(groups, scrutins, ops1);
        lemma_listed_once_never_overflows(groups, scrutins, ops2);
    }
}

proof fn lemma_hits_of_first(groups: Seq<i16>, ids: Seq<i16>, k: int)
    requires
        0 <= k < groups.len(),
        forall|j: int| 0 <= j < k ==> groups[j] != groups[k],
    ensures
        hits(groups, ids, k) == count_in(ids, groups[k]),
    decreases ids.len(),
{
    if ids.len() > 0 {
        lemma_hits_of_first(groups, ids.drop_last(), k);
        assert(is_first_of(groups, k, ids.last()) <==> ids.last() == groups[k]);
    }
}

proof fn lemma_count_in_contains(ids: Seq<i16>, id: i16)
    requires
        ids.contains(id),
    ensures
        count_in(ids, id) >= 1,
    decreases ids.len(),
{
    let i = choose|i: int| 0 <= i < ids.len() && ids[i] == id;
    lemma_count_in_nonneg(ids.drop_last(), id);
    if i < ids.len() - 1 {
        assert(ids.drop_last()[i] == id);
        lemma_count_in_contains(ids.drop_last(), id);
    }
}

proof fn lemma_delta_unlisted(
    groups: Seq<i16>,
    organes: Seq<(Choice, Vec<i16>)>,
    vote: Choice,
    invert: bool,
    k: int,
)
    requires
        0 <= k < groups.len(),
        forall|j: int| 0 <= j < k ==> groups[j] != groups[k],
        times_listed(organes, groups[k]) == 0,
    ensures
        organe_delta(groups, organes, vote, invert, k) == 0,
    decreases organes.len(),
{
    if organes.len() > 0 {
        let g = groups[k];
        let init = organes.drop_last();
        let last = organes.last();
        lemma_times_listed_nonneg(init, g);
        lemma_count_in_nonneg(last.1@, g);
        assert(times_listed(organes, g) == times_listed(init, g) + count_in(last.1@, g));
        lemma_delta_unlisted(groups, init, vote, invert, k);
        lemma_hits_of_first(groups, last.1@, k);
        assert(organe_delta(groups, organes, vote, invert, k) == organe_delta(groups, init, vote, invert, k)
            + vote_points(vote, last.0, invert) * count_in(last.1@, g));
        assert(vote_points(vote, last.0, invert) * 0 == 0);
    }
}

#[verifier::spinoff_prover]
proof fn lemma_delta_listed_once(
    groups: Seq<i16>,
    organes: Seq<(Choice, Vec<i16>)>,
    vote: Choice,
    invert: bool,
    k: int,
    j: int,
)
    requires
        0 <= k < groups.len(),
        forall|i: int| 0 <= i < k ==> groups[i] != groups[k],
        times_listed(organes, groups[k]) == 1,
        0 <= j < organes.len(),
        organes[j].1@.contains(groups[k]),
    ensures
        organe_delta(groups, organes, vote, invert, k) == vote_points(vote, organes[j].0, invert),
    decreases organes.len(),
{
    let g = groups[k];
    let n = organes.len() - 1;
    let init = organes.drop_last();
    let last = organes.last();
    lemma_times_listed_nonneg(init, g);
    lemma_count_in_nonneg(last.1@, g);
    lemma_hits_of_first(groups, last.1@, k);
    let cl = count_in(last.1@, g);
    let vl = vote_points(vote, last.0, invert);
    assert(times_listed(organes, g) == times_listed(init, g) + cl);
    assert(organe_delta(groups, organes, vote, invert, k) == organe_delta(groups, init, vote, invert, k) + vl * cl);
    if j == n {
        assert(organes[j] == last);
        lemma_count_in_contains(organes[j].1@, g);
        assert(cl == 1 && times_listed(init, g) == 0);
        lemma_delta_unlisted(groups, init, vote, invert, k);
        assert(vl * 1 == vl);
    } else {
        assert(init[j] == organes[j]);
        lemma_count_in_contains(init[j].1@, g);
        lemma_times_listed_prefix(init, g, j);
        lemma_times_listed_nonneg(init.take(j), g);
        assert(cl == 0 && times_listed(init, g) == 1);
        assert(vl * 0 == 0);
        lemma_delta_listed_once(groups, init, vote, invert, k, j);
    }
}

/// The points that one more answer gives a group that its scrutin lists
/// once, under choice `c`: agreeing earns a point and opposing costs one
/// (the other way round on a question with inverted votes), abstaining
/// together earns a point, and any other pairing with an abstention on
/// either side earns nothing.
pub proof fn lemma_points_of_an_answer(
    groups: Seq<i16>,
    scrutins: Seq<Scrutin>,
    ops: Seq<UserOpinion>,
    op: UserOpinion,
    k: int,
    f: int,
    j: int,
)
    requires
        0 <= k < groups.len(),
        forall|i: int| 0 <= i < k ==> groups[i] != groups[k],
        is_first_scrutin(scrutins, op.question_id, f),
        0 <= j < scrutins[f].organes@.len(),
        scrutins[f].organes@[j].1@.contains(groups[k]),
        times_listed(scrutins[f].organes@, groups[k]) == 1,
    ensures
        ({
            let c = scrutins[f].organes@[j].0;
            let inv = scrutins[f].invert_votes;
            let d = final_scores(groups, scrutins, ops.push(op))[k] - final_scores(groups, scrutins, ops)[k];
            &&& op.vote == Choice::Abstention && c == Choice::Abstention ==> d == 1
            &&& op.vote == Choice::Abstention && c != Choice::Abstention ==> d == 0
            &&& op.vote != Choice::Abstention && c == Choice::Abstention ==> d == 0
            &&& op.vote != Choice::Abstention && op.vote == c ==> d == (if inv { -1int } else { 1int })
            &&& op.vote != Choice::Abstention && c != Choice::Abstention && op.vote != c ==> d == (if inv {
                1int
            } else {
                -1int
            })
        }),
{
    let zero = zero_scores(groups.len());
    let prev = apply_opinions(zero, groups, scrutins, ops);
    lemma_apply_opinions_len(zero, groups, scrutins, ops);
    assert(ops.push(op).drop_last() =~= ops);
    assert(ops.push(op).last() == op);
    lemma_first_scrutin(scrutins, op.question_id, f);
    let s = scrutins[f];
    assert(final_scores(groups, scrutins, ops.push(op)) == apply_organes(
        prev,
        groups,
        s.organes@,
        op.vote,
        s.invert_votes,
    ));
    lemma_apply_organes_is_delta(prev, groups, s.organes@, op.vote, s.invert_votes, k);
    lemma_delta_listed_once(groups, s.organes@, op.vote, s.invert_votes, k, j);
}

/// A group that no scrutin about the answer's question lists gets nothing
/// from the answer, whatever it is.
pub proof fn lemma_unlisted_group_gets_no_points(
    groups: Seq<i16>,
    scrutins: Seq<Scrutin>,
    ops: Seq<UserOpinion>,
    op: UserOpinion,
    k: int,
    f: int,
)
    requires
        0 <= k < groups.len(),
        forall|i: int| 0 <= i < k ==> groups[i] != groups[k],
        is_first_scrutin(scrutins, op.question_id, f),
        forall|j: int| 0 <= j < scrutins[f].organes@.len() ==> !(#[trigger] scrutins[f].organes@[j]).1@.contains(groups[k]),
    ensures
        final_scores(groups, scrutins, ops.push(op))[k] == final_scores(groups, scrutins, ops)[k],
{
    let zero = zero_scores(groups.len());
    let prev = apply_opinions(zero, groups, scrutins, ops);
    lemma_apply_opinions_len(zero, groups, scrutins, ops);
    assert(ops.push(op).drop_last() =~= ops);
    assert(ops.push(op).last() == op);
    lemma_first_scrutin(scrutins, op.question_id, f);
    let s = scrutins[f];
    lemma_apply_organes_is_delta(prev, groups, s.organes@, op.vote, s.invert_votes, k);
    lemma_times_listed_unlisted(s.organes@, groups[k]);
    lemma_delta_unlisted(groups, s.organes@, op.vote, s.invert_votes, k);
}

proof fn lemma_count_in_absent(ids: Seq<i16>, id: i16)
    requires
        !ids.contains(id),
    ensures
        count_in(ids, id) == 0,
    decreases ids.len(),
{
    if ids.len() > 0 {
        assert(!ids.drop_last().contains(id)) by {
            if ids.drop_last().contains(id) {
                let i = choose|i: int| 0 <= i < ids.drop_last().len() && ids.drop_last()[i] == id;
                assert(ids[i] == id);
            }
        }
        assert(ids.last() != id) by {
            if ids.last() == id {
                assert(ids[ids.len() - 1] == id);
            }
        }
        lemma_count_in_absent(ids.drop_last(), id);
    }
}

proof fn lemma_times_listed_unlisted(organes: Seq<(Choice, Vec<i16>)>, id: i16)
    requires
        forall|j: int| 0 <= j < organes.len() ==> !(#[trigger] organes[j]).1@.contains(id),
    ensures
        times_listed(organes, id) == 0,
    decreases organes.len(),
{
    if organes.len() > 0 {
        assert(organes[organes.len() - 1] == organes.last());
        lemma_count_in_absent(organes.last().1@, id);
        assert forall|j: int| 0 <= j < organes.drop_last().len() implies !(#[trigger] organes.drop_last()[j]).1@.contains(
            id,
        ) by {
            assert(organes.drop_last()[j] == organes[j]);
        }
        lemma_times_listed_unlisted(organes.drop_last(), id);
    }
}

} // verus!
