use vstd::prelude::*;
use vstd::string::to_string_from_display_ensures;

use crate::config::{Platform, Scrutin};
use crate::database::{spec_from_db, Choice, SubmissionsChoices};
use crate::dates::{date_text, date_text_of, Date};
use crate::errors::{throw, ErrorKind, InstanceError};
use crate::matching::{
    accepted, calculate_affinity_ratios, calculate_score, final_scores, run_fits, affinity_in_range,
    AffinityRatio, UserOpinion,
};

verus! {

/// Participation counts published with the results.
#[derive(Debug, Clone, Copy, PartialEq, Eq, Structural)]
pub struct ResultsParticipations {
    pub total: i64,
    pub valid: i64,
}

/// The global part of the published results.
#[derive(Debug, Clone, Copy, PartialEq, Eq, Structural)]
pub struct ResultsPublicGlobal {
    pub platform_id: i16,
    pub started_at: Date,
    pub generated_at: Date,
    pub participations: ResultsParticipations,
}

/// `number` rounded toward zero to a multiple of ten.
pub open spec fn spec_round_data(number: i64) -> int {
    if number >= 0 {
        number - number % 10
    } else {
        number + (-number) % 10
    }
}

/// Hides the last digit of a count, rounding it toward zero to a multiple
/// of ten, so that it does not tell which attempts were counted.
pub fn round_data(number: i64) -> (r: i64)
    ensures
        r == spec_round_data(number),
{
    if number % 10 == 0 {
        number
    } else {
        number - number % 10
    }
}

/// Rounding keeps a count within ten of itself, on the side of zero, makes
/// it a multiple of ten, and changes nothing when applied again.
pub proof fn lemma_round_data(number: i64)
    ensures
        spec_round_data(number) % 10 == 0,
        number >= 0 ==> 0 <= spec_round_data(number) <= number < spec_round_data(number) + 10,
        number < 0 ==> spec_round_data(number) - 10 < number <= spec_round_data(number) <= 0,
        spec_round_data(spec_round_data(number) as i64) == spec_round_data(number),
{
}

/// The report cannot be made once the poll has ended before the day of the
/// report.
pub fn check_report_window(platform: &Platform, generated_at: Date) -> (r: Result<(), InstanceError>)
    ensures
        r is Err <==> platform.end_at.days_from_ce < generated_at.days_from_ce,
        r matches Err(e) ==> e.kind == ErrorKind::InfoPollClosed && exists|id: String|
            #[trigger] to_string_from_display_ensures::<i16>(&platform.id, id) && e.msg@ == id@ + ": "@
                + date_text_of(platform.end_at.days_from_ce) + " - "@ + date_text_of(generated_at.days_from_ce),
{
    if platform.end_at.days_from_ce < generated_at.days_from_ce {
        let id: String = platform.id.to_string();
        let mut msg: String = String::new();
        msg.append(id.as_str());
        msg.append(": ");
        msg.append(date_text(platform.end_at).as_str());
        msg.append(" - ");
        msg.append(date_text(generated_at).as_str());
        assert(msg@ == id@ + ": "@ + date_text_of(platform.end_at.days_from_ce) + " - "@ + date_text_of(
            generated_at.days_from_ce,
        ));
        return Err(throw(ErrorKind::InfoPollClosed, msg));
    }
    Ok(())
}

/// The report cannot be made before the poll has gathered its minimum of
/// valid participations.
pub fn check_participations(platform: &Platform, valid_sub_count: i64) -> (r: Result<(), InstanceError>)
    ensures
        r is Err <==> valid_sub_count < platform.minimum_participations,
        r matches Err(e) ==> e.kind == ErrorKind::InfoNotEnoughSubs && exists|id: String, valid: String, minimum: String|
            #[trigger] to_string_from_display_ensures::<i16>(&platform.id, id)
                && #[trigger] to_string_from_display_ensures::<i64>(&valid_sub_count, valid)
                && #[trigger] to_string_from_display_ensures::<u32>(&platform.minimum_participations, minimum)
                && e.msg@ == id@ + ": "@ + valid@ + " / "@ + minimum@,
{
    if valid_sub_count < platform.minimum_participations as i64 {
        let id: String = platform.id.to_string();
        let valid: String = valid_sub_count.to_string();
        let minimum: String = platform.minimum_participations.to_string();
        let mut msg: String = String::new();
        msg.append(id.as_str());
        msg.append(": ");
        msg.append(valid.as_str());
        msg.append(" / ");
        msg.append(minimum.as_str());
        assert(msg@ == id@ + ": "@ + valid@ + " / "@ + minimum@);
        return Err(throw(ErrorKind::InfoNotEnoughSubs, msg));
    }
    Ok(())
}

/// How many valid participations the poll still lacks before its results
/// are published.
pub fn remaining_participations(minimum_participations: u32, valid: i64) -> (r: u32)
    requires
        valid as u32 <= minimum_participations,
    ensures
        r == minimum_participations - valid as u32,
{
    minimum_participations - valid as u32
}

/// The text announcing, before the results are published, how many valid
/// participations the poll still lacks, out of its minimum.
pub open spec fn remaining_text(remaining: Seq<char>, minimum: Seq<char>) -> Seq<char> {
    "Participations restantes avant la publication des r\u{e9}sultats : "@ + remaining + " / "@ + minimum
        + ".\n#QuelParti https://quelparti.fr\n"@
}

/// The message published while the poll has not reached its minimum of
/// valid participations: how many it still lacks, out of the minimum.
pub fn remaining_message(minimum_participations: u32, valid: i64) -> (r: String)
    requires
        valid as u32 <= minimum_participations,
    ensures
        exists|remaining: String, minimum: String|
            #[trigger] to_string_from_display_ensures::<u32>(
                &((minimum_participations - valid as u32) as u32),
                remaining,
            ) && #[trigger] to_string_from_display_ensures::<u32>(&minimum_participations, minimum) && r@
                == remaining_text(remaining@, minimum@),
{
    let left: u32 = remaining_participations(minimum_participations, valid);
    assert(left == (minimum_participations - valid as u32) as u32);
    let remaining: String = left.to_string();
    let minimum: String = minimum_participations.to_string();
    let mut msg: String = String::new();
    msg.append("Participations restantes avant la publication des r\u{e9}sultats : ");
    msg.append(remaining.as_str());
    msg.append(" / ");
    msg.append(minimum.as_str());
    msg.append(".\n#QuelParti https://quelparti.fr\n");
    assert(msg@ == remaining_text(remaining@, minimum@));
    msg
}

/// Every group of a report has a description among the organes: `ids`
/// are the report's groups, `organe_ids` the described ones. Otherwise the
/// results image cannot be drawn (`CritNoLeadingGroup`, with the message
/// `None`, the lookup that failed).
pub fn check_groups_known(ids: &[i16], organe_ids: &[i16]) -> (r: Result<(), InstanceError>)
    ensures
        r is Ok <==> forall|i: int| 0 <= i < ids@.len() ==> organe_ids@.contains(#[trigger] ids@[i]),
        r matches Err(e) ==> e.kind == ErrorKind::CritNoLeadingGroup && e.msg@ == "None"@,
{
    let mut i: usize = 0;
    while i < ids.len()
        invariant
            i <= ids@.len(),
            forall|i2: int| 0 <= i2 < i ==> organe_ids@.contains(#[trigger] ids@[i2]),
        decreases ids.len() - i,
    {
        let mut j: usize = 0;
        let mut found: bool = false;
        while j < organe_ids.len()
            invariant
                j <= organe_ids@.len(),
                i < ids@.len(),
                found ==> organe_ids@.contains(ids@[i as int]),
                !found ==> forall|j2: int| 0 <= j2 < j ==> organe_ids@[j2] != ids@[i as int],
            decreases organe_ids.len() - j,
        {
            if organe_ids[j] == ids[i] {
                assert(organe_ids@[j as int] == ids@[i as int]);
                found = true;
            }
            j += 1;
        }
        if !found {
            let mut msg: String = String::new();
            msg.append("None");
            return Err(throw(ErrorKind::CritNoLeadingGroup, msg));
        }
        i += 1;
    }
    Ok(())
}

/// The two captions of the results image about participations: the total,
/// and how many of them are counted.
pub fn participation_captions(total: i64, valid: i64) -> (r: (String, String))
    ensures
        exists|t: String, v: String|
            #[trigger] to_string_from_display_ensures::<i64>(&total, t) && #[trigger] to_string_from_display_ensures::<
                i64,
            >(&valid, v) && r.0@ == t@ + " participations"@ && r.1@ == "dont "@ + v@ + " comptabilis\u{e9}es"@,
{
    let t: String = total.to_string();
    let v: String = valid.to_string();
    let mut first: String = String::new();
    first.append(t.as_str());
    first.append(" participations");
    let mut second: String = String::new();
    second.append("dont ");
    second.append(v.as_str());
    second.append(" comptabilis\u{e9}es");
    (first, second)
}

/// The answers of one stored submission.
#[derive(Debug, PartialEq, Eq)]
pub struct SubmissionGroup {
    pub submission_id: i64,
    pub opinions: Vec<UserOpinion>,
}

/// The state of the grouping after some stored answers: each submission
/// seen with its answers, and the submission of the last answer (-1
/// before the first).
pub open spec fn group_step(
    state: Result<(Map<i64, Seq<UserOpinion>>, i64), ErrorKind>,
    sc: SubmissionsChoices,
) -> Result<(Map<i64, Seq<UserOpinion>>, i64), ErrorKind> {
    match state {
        Err(e) => Err(e),
        Ok((m, prev)) => match spec_from_db(sc.userchoice) {
            None => Err(ErrorKind::FatalUnmatchedChoice),
            Some(v) => {
                let op = UserOpinion { question_id: sc.question_id, vote: v };
                if prev == sc.submission_id {
                    if m.contains_key(prev) {
                        Ok((m.insert(prev, m[prev].push(op)), prev))
                    } else {
                        Err(ErrorKind::FatalMissingSubmission)
                    }
                } else {
                    Ok((m.insert(sc.submission_id, seq![op]), sc.submission_id))
                }
            },
        },
    }
}

/// Groups stored answers by submission, in order: an answer joins the
/// answers before it when it belongs to the same submission, and starts
/// the submission afresh otherwise.
pub open spec fn group_fold(subs: Seq<SubmissionsChoices>) -> Result<(Map<i64, Seq<UserOpinion>>, i64), ErrorKind>
    decreases subs.len(),
{
    if subs.len() == 0 {
        Ok((Map::empty(), -1i64))
    } else {
        group_step(group_fold(subs.drop_last()), subs.last())
    }
}

/// The groups hold exactly the submissions of `m`, once each, with their
/// answers.
pub open spec fn groups_match(groups: Seq<SubmissionGroup>, m: Map<i64, Seq<UserOpinion>>) -> bool {
    &&& forall|i: int, j: int|
        0 <= i < j < groups.len() ==> #[trigger] groups[i].submission_id != #[trigger] groups[j].submission_id
    &&& forall|i: int|
        0 <= i < groups.len() ==> m.contains_key(#[trigger] groups[i].submission_id) && m[groups[i].submission_id]
            == groups[i].opinions@
    &&& forall|k: i64| m.contains_key(k) ==> exists|i: int| 0 <= i < groups.len() && #[trigger] groups[i].submission_id == k
}

/// The text of a stored answer, as its debug form shows it, given the
/// texts of its three numbers.
pub open spec fn choice_text(submission_id: Seq<char>, question_id: Seq<char>, userchoice: Seq<char>) -> Seq<
    char,
> {
    "SubmissionsChoices { submission_id: "@ + submission_id + ", question_id: "@ + question_id
        + ", userchoice: "@ + userchoice + " }"@
}

/// The text of a stored answer, as its debug form shows it.
fn describe_choice(sc: &SubmissionsChoices) -> (r: String)
    ensures
        exists|a: String, b: String, c: String|
            #[trigger] to_string_from_display_ensures::<i64>(&sc.submission_id, a)
                && #[trigger] to_string_from_display_ensures::<i16>(&sc.question_id, b)
                && #[trigger] to_string_from_display_ensures::<i16>(&sc.userchoice, c) && r@ == choice_text(
                a@,
                b@,
                c@,
            ),
{
    let mut msg: String = String::new();
    msg.append("SubmissionsChoices { submission_id: ");
    let a: String = sc.submission_id.to_string();
    msg.append(a.as_str());
    msg.append(", question_id: ");
    let b: String = sc.question_id.to_string();
    msg.append(b.as_str());
    msg.append(", userchoice: ");
    let c: String = sc.userchoice.to_string();
    msg.append(c.as_str());
    msg.append(" }");
    assert(msg@ == choice_text(a@, b@, c@));
    msg
}

/// Groups the valid stored answers, ordered by submission, into the answers
/// of each submission. Fails on a stored choice that stands for nothing
/// (`FatalUnmatchedChoice`) and on an answer that claims to continue a
/// submission that was never started (`FatalMissingSubmission`).
pub fn group_submissions(subchoices: &[SubmissionsChoices]) -> (r: Result<Vec<SubmissionGroup>, InstanceError>)
    ensures
        r is Ok <==> group_fold(subchoices@) is Ok,
        r matches Err(e) ==> group_fold(subchoices@) == Err::<(Map<i64, Seq<UserOpinion>>, i64), ErrorKind>(
            e.kind,
        ),
        r matches Ok(v) ==> groups_match(v@, group_fold(subchoices@)->Ok_0.0),
{
    let mut groups: Vec<SubmissionGroup> = Vec::new();
    let mut prev_subid: i64 = -1;
    let mut prev_idx: usize = 0;
    let ghost mut m: Map<i64, Seq<UserOpinion>> = Map::empty();
    let mut i: usize = 0;
    proof {
        assert(subchoices@.take(0) =~= Seq::<SubmissionsChoices>::empty());
    }
    while i < subchoices.len()
        invariant
            i <= subchoices@.len(),
            group_fold(subchoices@.take(i as int)) == Ok::<(Map<i64, Seq<UserOpinion>>, i64), ErrorKind>(
                (m, prev_subid),
            ),
            groups_match(groups@, m),
            m.contains_key(prev_subid) ==> prev_idx < groups@.len() && groups@[prev_idx as int].submission_id
                == prev_subid,
        decreases subchoices.len() - i,
    {
        let subc: SubmissionsChoices = subchoices[i];
        proof {
            assert(subchoices@.take(i + 1).drop_last() =~= subchoices@.take(i as int));
            assert(subchoices@.take(i + 1).last() == subc);
        }
        let new_vote: Choice = match Choice::from_db(subc.userchoice) {
            Some(v) => v,
            None => {
                proof {
                    lemma_group_err_sticky(subchoices@, i + 1);
                }
                return Err(throw(ErrorKind::FatalUnmatchedChoice, subc.userchoice.to_string()));
            },
        };
        let op: UserOpinion = UserOpinion { question_id: subc.question_id, vote: new_vote };
        if prev_subid == subc.submission_id {
            if !(prev_idx < groups.len() && groups[prev_idx].submission_id == prev_subid) {
                proof {
                    lemma_group_err_sticky(subchoices@, i + 1);
                }
                return Err(throw(ErrorKind::FatalMissingSubmission, describe_choice(&subc)));
            }
            let ghost old_groups = groups@;
            groups[prev_idx].opinions.push(op);
            proof {
                assert(m.contains_key(prev_subid)) by {
                    assert(groups_match(old_groups, m));
                    assert(m.contains_key(old_groups[prev_idx as int].submission_id));
                }
                let m2 = m.insert(prev_subid, m[prev_subid].push(op));
                assert forall|j: int| 0 <= j < groups@.len() implies m2.contains_key(
                    #[trigger] groups@[j].submission_id,
                ) && m2[groups@[j].submission_id] == groups@[j].opinions@ by {
                    if j != prev_idx {
                        assert(groups@[j] == old_groups[j]);
                        assert(old_groups[j].submission_id != old_groups[prev_idx as int].submission_id);
                    }
                }
                assert forall|k: i64| m2.contains_key(k) implies exists|j: int|
                    0 <= j < groups@.len() && #[trigger] groups@[j].submission_id == k by {
                    if k != prev_subid {
                        let j = choose|j: int| 0 <= j < old_groups.len() && #[trigger] old_groups[j].submission_id == k;
                        assert(groups@[j].submission_id == k);
                    } else {
                        assert(groups@[prev_idx as int].submission_id == k);
                    }
                }
                m = m2;
            }
        } else {
            let mut j: usize = 0;
            while j < groups.len()
                invariant
                    j <= groups@.len(),
                    forall|j2: int| 0 <= j2 < j ==> groups@[j2].submission_id != subc.submission_id,
                ensures
                    j <= groups@.len(),
                    j < groups@.len() ==> groups@[j as int].submission_id == subc.submission_id,
                    forall|j2: int| 0 <= j2 < j ==> groups@[j2].submission_id != subc.submission_id,
                decreases groups.len() - j,
            {
                if groups[j].submission_id == subc.submission_id {
                    break;
                }
                j += 1;
            }
            let ghost old_groups = groups@;
            let mut fresh: Vec<UserOpinion> = Vec::new();
            fresh.push(op);
            if j < groups.len() {
                groups.set(j, SubmissionGroup { submission_id: subc.submission_id, opinions: fresh });
            } else {
                groups.push(SubmissionGroup { submission_id: subc.submission_id, opinions: fresh });
            }
            proof {
                let m2 = m.insert(subc.submission_id, seq![op]);
                assert(groups@[j as int].opinions@ =~= seq![op]);
                assert forall|a: int, b: int|
                    0 <= a < b < groups@.len() implies #[trigger] groups@[a].submission_id
                    != #[trigger] groups@[b].submission_id by {
                    if a != j && b != j {
                        assert(groups@[a] == old_groups[a]);
                        assert(groups@[b] == old_groups[b]);
                    }
                }
                assert forall|a: int| 0 <= a < groups@.len() implies m2.contains_key(
                    #[trigger] groups@[a].submission_id,
                ) && m2[groups@[a].submission_id] == groups@[a].opinions@ by {
                    if a != j {
                        assert(groups@[a] == old_groups[a]);
                    }
                }
                assert forall|k: i64| m2.contains_key(k) implies exists|a: int|
                    0 <= a < groups@.len() && #[trigger] groups@[a].submission_id == k by {
                    if k != subc.submission_id {
                        let a = choose|a: int| 0 <= a < old_groups.len() && #[trigger] old_groups[a].submission_id == k;
                        assert(groups@[a].submission_id == k);
                    } else {
                        assert(groups@[j as int].submission_id == k);
                    }
                }
                m = m2;
            }
            prev_subid = subc.submission_id;
            prev_idx = j;
        }
        i += 1;
    }
    proof {
        assert(subchoices@.take(subchoices@.len() as int) =~= subchoices@);
    }
    Ok(groups)
}

proof fn lemma_group_err_sticky(subs: Seq<SubmissionsChoices>, i: int)
    requires
        0 <= i <= subs.len(),
        group_fold(subs.take(i)) is Err,
    ensures
        group_fold(subs) == group_fold(subs.take(i)),
    decreases subs.len() - i,
{
    if i == subs.len() {
        assert(subs.take(i) =~= subs);
    } else {
        assert(subs.take(i + 1).drop_last() =~= subs.take(i));
        lemma_group_err_sticky(subs, i + 1);
    }
}

/// The affinities of one submission with each group of the platform.
#[derive(Debug, PartialEq, Eq)]
pub struct SubmissionRatios {
    pub submission_id: i64,
    pub ratios: Vec<AffinityRatio>,
}

/// The fractions `(score + q) / (2 * q)` of a scored submission, one per
/// group of the platform.
pub open spec fn spec_ratios(groups: Seq<i16>, scores: Seq<int>, q: int) -> Seq<AffinityRatio> {
    Seq::new(
        groups.len(),
        |k: int|
            AffinityRatio {
                id: groups[k],
                numerator: (scores[k] + q) as i16,
                denominator: (2 * q) as i16,
            },
    )
}

/// Scoring the submission and turning its scores into affinities stays in
/// the range of an `i16`.
pub open spec fn scoring_fits(groups: Seq<i16>, scrutins: Seq<Scrutin>, ops: Seq<UserOpinion>) -> bool {
    &&& run_fits(groups, scrutins, ops)
    &&& accepted(scrutins, ops) ==> affinity_in_range(final_scores(groups, scrutins, ops), ops.len() as int)
}

/// The submission is accepted and its affinities can be computed.
pub open spec fn submission_scorable(groups: Seq<i16>, scrutins: Seq<Scrutin>, ops: Seq<UserOpinion>) -> bool {
    &&& accepted(scrutins, ops)
    &&& groups.len() > 0 ==> ops.len() <= i16::MAX
}

/// Whether the answers of a stored submission can be scored and turned
/// into affinities without leaving the range of an `i16`.
pub fn submission_scoring_fits(platform: &Platform, scrutins: &[Scrutin], opinions: &[UserOpinion]) -> (r: bool)
    ensures
        r == scoring_fits(platform.groups@, scrutins@, opinions@),
{
    if !crate::matching::score_fits(platform, scrutins, opinions) {
        return false;
    }
    match calculate_score(platform, scrutins, opinions) {
        Some(v) => crate::matching::affinity_fits(v.as_slice(), opinions.len()),
        None => true,
    }
}

/// How a choice shows in its debug form.
pub open spec fn vote_text(c: Choice) -> Seq<char> {
    match c {
        Choice::Pour => "Pour"@,
        Choice::Contre => "Contre"@,
        Choice::Abstention => "Abstention"@,
    }
}

/// The debug form of an answer, given the text of its question's number.
pub open spec fn opinion_text(op: UserOpinion, id: Seq<char>) -> Seq<char> {
    "UserOpinion { question_id: "@ + id + ", vote: "@ + vote_text(op.vote) + " }"@
}

/// The debug forms of answers, separated by commas, given the texts of
/// their questions' numbers.
pub open spec fn opinions_items(ops: Seq<UserOpinion>, ids: Seq<String>) -> Seq<char>
    decreases ops.len(),
{
    if ops.len() == 0 {
        Seq::empty()
    } else {
        let sep: Seq<char> = if ops.len() == 1 { Seq::empty() } else { ", "@ };
        opinions_items(ops.drop_last(), ids.drop_last()) + sep + opinion_text(ops.last(), ids.last()@)
    }
}

/// `text` is the debug form of a list of answers, as `{:?}` writes it, the
/// numbers of the questions written as `to_string` writes them.
pub open spec fn describes_opinions(ops: Seq<UserOpinion>, text: Seq<char>) -> bool {
    exists|ids: Seq<String>|
        {
            &&& ids.len() == ops.len()
            &&& forall|k: int|
                0 <= k < ops.len() ==> #[trigger] to_string_from_display_ensures::<i16>(&ops[k].question_id, ids[k])
            &&& text == "["@ + #[trigger] opinions_items(ops, ids) + "]"@
        }
}

fn vote_name(c: Choice) -> (r: &'static str)
    ensures
        r@ == vote_text(c),
{
    match c {
        Choice::Pour => "Pour",
        Choice::Contre => "Contre",
        Choice::Abstention => "Abstention",
    }
}

/// The debug form of a list of answers.
fn describe_opinions(ops: &[UserOpinion]) -> (r: String)
    ensures
        describes_opinions(ops@, r@),
{
    let mut msg: String = String::new();
    msg.append("[");
    let ghost mut ids: Seq<String> = Seq::empty();
    let mut i: usize = 0;
    proof {
        assert(ops@.take(0) =~= Seq::<UserOpinion>::empty());
    }
    while i < ops.len()
        invariant
            i <= ops@.len(),
            ids.len() == i,
            forall|k: int| 0 <= k < i ==> #[trigger] to_string_from_display_ensures::<i16>(&ops@[k].question_id, ids[k]),
            msg@ == "["@ + opinions_items(ops@.take(i as int), ids),
        decreases ops.len() - i,
    {
        if i > 0 {
            msg.append(", ");
        }
        let id: String = ops[i].question_id.to_string();
        msg.append("UserOpinion { question_id: ");
        msg.append(id.as_str());
        msg.append(", vote: ");
        msg.append(vote_name(ops[i].vote));
        msg.append(" }");
        proof {
            let prev = ids;
            ids = ids.push(id);
            assert(ops@.take(i + 1).drop_last() =~= ops@.take(i as int));
            assert(ids.drop_last() =~= prev);
            assert(ops@.take(i + 1).last() == ops@[i as int]);
            assert(msg@ =~= "["@ + opinions_items(ops@.take(i + 1), ids));
        }
        i += 1;
    }
    msg.append("]");
    proof {
        assert(ops@.take(ops@.len() as int) =~= ops@);
        assert(msg@ =~= "["@ + opinions_items(ops@, ids) + "]"@);
    }
    msg
}

/// Scores each stored submission against the platform's groups and turns
/// the scores into affinities, in order. Fails on the first submission that
/// `calculate_score` rejects (`FatalInvalidScoreCalc`) or whose affinities
/// cannot be computed (`FatalInvalidScoreConv`).
pub fn score_submissions(platform: &Platform, scrutins: &[Scrutin], subs: &[SubmissionGroup]) -> (r: Result<
    Vec<SubmissionRatios>,
    InstanceError,
>)
    requires
        forall|g: int| 0 <= g < subs@.len() ==> scoring_fits(platform.groups@, scrutins@, #[trigger] subs@[g].opinions@),
    ensures
        r is Ok <==> forall|g: int|
            0 <= g < subs@.len() ==> submission_scorable(platform.groups@, scrutins@, #[trigger] subs@[g].opinions@),
        r matches Ok(v) ==> {
            &&& v@.len() == subs@.len()
            &&& forall|g: int|
                0 <= g < v@.len() ==> (#[trigger] v@[g]).submission_id == subs@[g].submission_id && v@[g].ratios@
                    == spec_ratios(
                    platform.groups@,
                    final_scores(platform.groups@, scrutins@, subs@[g].opinions@),
                    subs@[g].opinions@.len() as int,
                )
        },
        r matches Err(e) ==> exists|g: int|
            0 <= g < subs@.len() && !submission_scorable(platform.groups@, scrutins@, #[trigger] subs@[g].opinions@)
                && (forall|g2: int|
                0 <= g2 < g ==> submission_scorable(platform.groups@, scrutins@, #[trigger] subs@[g2].opinions@))
                && e.kind == (if accepted(scrutins@, subs@[g].opinions@) {
                ErrorKind::FatalInvalidScoreConv
            } else {
                ErrorKind::FatalInvalidScoreCalc
            }) && describes_opinions(subs@[g].opinions@, e.msg@),
{
    let mut all_scores: Vec<SubmissionRatios> = Vec::new();
    let mut g: usize = 0;
    while g < subs.len()
        invariant
            g <= subs@.len(),
            forall|g2: int| 0 <= g2 < subs@.len() ==> scoring_fits(platform.groups@, scrutins@, #[trigger] subs@[g2].opinions@),
            forall|g2: int| 0 <= g2 < g ==> submission_scorable(platform.groups@, scrutins@, #[trigger] subs@[g2].opinions@),
            all_scores@.len() == g,
            forall|g2: int|
                0 <= g2 < g ==> (#[trigger] all_scores@[g2]).submission_id == subs@[g2].submission_id
                    && all_scores@[g2].ratios@ == spec_ratios(
                    platform.groups@,
                    final_scores(platform.groups@, scrutins@, subs@[g2].opinions@),
                    subs@[g2].opinions@.len() as int,
                ),
        decreases subs.len() - g,
    {
        let sub: &SubmissionGroup = &subs[g];
        assert(scoring_fits(platform.groups@, scrutins@, subs@[g as int].opinions@));
        let entry_score: Vec<crate::matching::GroupScore> = match calculate_score(
            platform,
            scrutins,
            sub.opinions.as_slice(),
        ) {
            Some(v) => v,
            None => {
                return Err(throw(ErrorKind::FatalInvalidScoreCalc, describe_opinions(sub.opinions.as_slice())));
            },
        };
        let ghost scores = final_scores(platform.groups@, scrutins@, subs@[g as int].opinions@);
        assert(crate::matching::score_values(entry_score@) == scores);
        let ratios: Vec<AffinityRatio> = match calculate_affinity_ratios(
            entry_score.as_slice(),
            sub.opinions.len(),
        ) {
            Some(v) => v,
            None => {
                return Err(throw(ErrorKind::FatalInvalidScoreConv, describe_opinions(sub.opinions.as_slice())));
            },
        };
        proof {
            let q = subs@[g as int].opinions@.len() as int;
            assert forall|k: int| 0 <= k < ratios@.len() implies ratios@[k] == spec_ratios(platform.groups@, scores, q)[k] by {
                assert(crate::matching::score_ids(entry_score@)[k] == entry_score@[k].id);
                assert(scores[k] == entry_score@[k].score as int);
            }
            assert(ratios@ =~= spec_ratios(platform.groups@, scores, q));
        }
        all_scores.push(SubmissionRatios { submission_id: sub.submission_id, ratios });
        g += 1;
    }
    Ok(all_scores)
}

/// The answer that a stored row stands for, when its choice is valid.
pub open spec fn opinion_of(sc: SubmissionsChoices) -> UserOpinion {
    UserOpinion { question_id: sc.question_id, vote: spec_from_db(sc.userchoice)->Some_0 }
}

/// The answers of submission `id` among the stored rows, in order.
pub open spec fn opinions_of(subs: Seq<SubmissionsChoices>, id: i64) -> Seq<UserOpinion>
    decreases subs.len(),
{
    if subs.len() == 0 {
        Seq::empty()
    } else if subs.last().submission_id == id {
        opinions_of(subs.drop_last(), id).push(opinion_of(subs.last()))
    } else {
        opinions_of(subs.drop_last(), id)
    }
}

/// The rows come ordered by submission.
pub open spec fn sorted_by_submission(subs: Seq<SubmissionsChoices>) -> bool {
    forall|i: int, j: int| 0 <= i <= j < subs.len() ==> #[trigger] subs[i].submission_id <= #[trigger] subs[j].submission_id
}

/// Every row stores a valid choice.
pub open spec fn all_choices_valid(subs: Seq<SubmissionsChoices>) -> bool {
    forall|i: int| 0 <= i < subs.len() ==> (#[trigger] spec_from_db(subs[i].userchoice)) is Some
}

proof fn lemma_opinions_of_absent(subs: Seq<SubmissionsChoices>, id: i64)
    requires
        forall|i: int| 0 <= i < subs.len() ==> subs[i].submission_id != id,
    ensures
        opinions_of(subs, id) == Seq::<UserOpinion>::empty(),
    decreases subs.len(),
{
    if subs.len() > 0 {
        lemma_opinions_of_absent(subs.drop_last(), id);
    }
}

/// Rows ordered by submission, with valid choices and no submission
/// numbered -1 at the start, are grouped into each of their submissions
/// with exactly that submission's answers, in order: the grouping is a
/// GROUP BY.
pub proof fn lemma_grouping_collects_each_submission(subs: Seq<SubmissionsChoices>)
    requires
        sorted_by_submission(subs),
        all_choices_valid(subs),
        subs.len() > 0 ==> subs[0].submission_id != -1,
    ensures
        group_fold(subs) is Ok,
        forall|id: i64|
            #[trigger] group_fold(subs)->Ok_0.0.contains_key(id) <==> exists|i: int|
                0 <= i < subs.len() && subs[i].submission_id == id,
        forall|id: i64|
            #[trigger] group_fold(subs)->Ok_0.0.contains_key(id) ==> group_fold(subs)->Ok_0.0[id] == opinions_of(
                subs,
                id,
            ),
        group_fold(subs)->Ok_0.1 == (if subs.len() == 0 { -1i64 } else { subs.last().submission_id }),
    decreases subs.len(),
{
    if subs.len() > 0 {
        let init = subs.drop_last();
        assert(sorted_by_submission(init));
        assert(all_choices_valid(init));
        lemma_grouping_collects_each_submission(init);
        let (m, prev) = group_fold(init)->Ok_0;
        let e = subs.last();
        assert(spec_from_db(subs[subs.len() - 1].userchoice) is Some);
        let op = opinion_of(e);
        if init.len() > 0 {
            assert(prev == subs[init.len() - 1].submission_id);
        }
        if prev == e.submission_id {
            assert(m.contains_key(prev)) by {
                assert(init[init.len() - 1].submission_id == prev);
            }
            let m2 = m.insert(prev, m[prev].push(op));
            assert(group_fold(subs) == Ok::<(Map<i64, Seq<UserOpinion>>, i64), ErrorKind>((m2, prev)));
            assert forall|id: i64| #[trigger] m2.contains_key(id) <==> exists|i: int|
                0 <= i < subs.len() && subs[i].submission_id == id by {
                if m2.contains_key(id) && id != prev {
                    let i = choose|i: int| 0 <= i < init.len() && init[i].submission_id == id;
                    assert(subs[i].submission_id == id);
                }
                if exists|i: int| 0 <= i < subs.len() && subs[i].submission_id == id {
                    let i = choose|i: int| 0 <= i < subs.len() && subs[i].submission_id == id;
                    if i < init.len() {
                        assert(init[i].submission_id == id);
                    }
                }
            }
        } else {
            assert forall|i: int| 0 <= i < init.len() implies init[i].submission_id != e.submission_id by {
                assert(subs[i].submission_id <= subs[init.len() - 1].submission_id);
                assert(subs[init.len() - 1].submission_id <= subs[subs.len() - 1].submission_id);
            }
            lemma_opinions_of_absent(init, e.submission_id);
            let m2 = m.insert(e.submission_id, seq![op]);
            assert(group_fold(subs) == Ok::<(Map<i64, Seq<UserOpinion>>, i64), ErrorKind>((m2, e.submission_id)));
            assert(opinions_of(subs, e.submission_id) =~= seq![op]);
            assert forall|id: i64| #[trigger] m2.contains_key(id) <==> exists|i: int|
                0 <= i < subs.len() && subs[i].submission_id == id by {
                if m2.contains_key(id) && id != e.submission_id {
                    let i = choose|i: int| 0 <= i < init.len() && init[i].submission_id == id;
                    assert(subs[i].submission_id == id);
                }
                if exists|i: int| 0 <= i < subs.len() && subs[i].submission_id == id {
                    let i = choose|i: int| 0 <= i < subs.len() && subs[i].submission_id == id;
                    if i < init.len() {
                        assert(init[i].submission_id == id);
                    }
                }
            }
        }
    }
}

/// The global part of a report made on day `generated_at` for `platform`,
/// with `total` submissions of which `valid` are counted.
pub fn report_global(platform: &Platform, generated_at: Date, total: i64, valid: i64) -> (r: ResultsPublicGlobal)
    ensures
        r.platform_id == platform.id,
        r.started_at == platform.begin_at,
        r.generated_at == generated_at,
        r.participations.total == total,
        r.participations.valid == valid,
{
    ResultsPublicGlobal {
        platform_id: platform.id,
        started_at: platform.begin_at,
        generated_at,
        participations: ResultsParticipations { total, valid },
    }
}

/// The global results shown before any report was made: no total, the
/// valid participations rounded toward zero to a multiple of ten, and the
/// poll's start as the date.
pub fn placeholder_global(platform: &Platform, valid_sub_count: i64) -> (r: ResultsPublicGlobal)
    ensures
        r.platform_id == platform.id,
        r.started_at == platform.begin_at,
        r.generated_at == platform.begin_at,
        r.participations.total == 0,
        r.participations.valid == spec_round_data(valid_sub_count),
{
    ResultsPublicGlobal {
        platform_id: platform.id,
        started_at: platform.begin_at,
        generated_at: platform.begin_at,
        participations: ResultsParticipations { total: 0, valid: round_data(valid_sub_count) },
    }
}

} // verus!
