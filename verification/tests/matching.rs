use quelparti::config::{Platform, Scrutin};
use quelparti::database::Choice;
use quelparti::dates::Date;
use quelparti::matching::{
    affinity_fits, calculate_affinity_ratios, calculate_score, score_fits, AffinityRatio, GroupScore,
    UserOpinion,
};

fn platform(groups: Vec<i16>) -> Platform {
    Platform {
        id: 1,
        host: "quelparti.fr".to_string(),
        name: "QuelParti".to_string(),
        begin_at: Date { days_from_ce: 738000 },
        end_at: Date { days_from_ce: 738100 },
        minimum_participations: 10,
        groups,
    }
}

fn scrutin(question_id: i16, invert_votes: bool, organes: Vec<(Choice, Vec<i16>)>) -> Scrutin {
    Scrutin {
        id: format!("VTANR5L15V{}", question_id),
        question_id,
        name: "question".to_string(),
        description: "description".to_string(),
        arguments: vec![],
        invert_votes,
        date_scrutin: "2021-01-01".to_string(),
        nbre_votants: 100,
        organes,
        deputes: vec![],
    }
}

fn op(question_id: i16, vote: Choice) -> UserOpinion {
    UserOpinion { question_id, vote }
}

fn scrutins() -> Vec<Scrutin> {
    vec![
        scrutin(1, false, vec![(Choice::Pour, vec![10]), (Choice::Contre, vec![20]), (Choice::Abstention, vec![30])]),
        scrutin(2, true, vec![(Choice::Pour, vec![10, 20]), (Choice::Abstention, vec![30])]),
    ]
}

#[test]
fn score_follows_the_table_of_points() {
    let p = platform(vec![10, 20, 30]);
    let s = scrutins();
    let sub = vec![op(1, Choice::Pour), op(2, Choice::Pour)];
    assert!(score_fits(&p, &s, &sub));
    let scores = calculate_score(&p, &s, &sub).unwrap();
    // question 1: 10 agrees (+1), 20 opposes (-1), 30 abstains (0);
    // question 2 (inverted): 10 and 20 agree (-1 each), 30 abstains (0).
    assert_eq!(
        scores,
        vec![
            GroupScore { id: 10, score: 0 },
            GroupScore { id: 20, score: -2 },
            GroupScore { id: 30, score: 0 },
        ]
    );
}

#[test]
fn abstaining_together_earns_a_point() {
    let p = platform(vec![10, 20, 30]);
    let s = scrutins();
    let sub = vec![op(2, Choice::Abstention), op(1, Choice::Abstention)];
    let scores = calculate_score(&p, &s, &sub).unwrap();
    assert_eq!(scores[2], GroupScore { id: 30, score: 2 });
    assert_eq!(scores[0], GroupScore { id: 10, score: 0 });
}

#[test]
fn contre_against_inverted_pour_earns() {
    let p = platform(vec![10, 20, 30]);
    let s = scrutins();
    let sub = vec![op(1, Choice::Contre), op(2, Choice::Contre)];
    let scores = calculate_score(&p, &s, &sub).unwrap();
    // question 1: 10 opposes (-1), 20 agrees (+1); question 2 inverted:
    // both oppose the participant, which counts +1.
    assert_eq!(scores[0].score, 0);
    assert_eq!(scores[1].score, 2);
}

#[test]
fn submission_with_wrong_count_is_rejected() {
    let p = platform(vec![10, 20, 30]);
    let s = scrutins();
    assert!(calculate_score(&p, &s, &[op(1, Choice::Pour)]).is_none());
    assert!(calculate_score(&p, &s, &[]).is_none());
}

#[test]
fn duplicate_answer_is_rejected() {
    let p = platform(vec![10, 20, 30]);
    let s = scrutins();
    assert!(calculate_score(&p, &s, &[op(1, Choice::Pour), op(1, Choice::Contre)]).is_none());
}

#[test]
fn unknown_question_is_rejected() {
    let p = platform(vec![10, 20, 30]);
    let s = scrutins();
    assert!(calculate_score(&p, &s, &[op(1, Choice::Pour), op(7, Choice::Pour)]).is_none());
}

#[test]
fn duplicated_group_is_credited_once() {
    let p = platform(vec![10, 10, 40]);
    let s = scrutins();
    let scores = calculate_score(&p, &s, &[op(1, Choice::Pour), op(2, Choice::Contre)]).unwrap();
    // 10 earns +1 then +1 (inverted question, participant against); only
    // the first 10 and never the unlisted 40.
    assert_eq!(scores[0], GroupScore { id: 10, score: 2 });
    assert_eq!(scores[1], GroupScore { id: 10, score: 0 });
    assert_eq!(scores[2], GroupScore { id: 40, score: 0 });
}

#[test]
fn score_overflow_is_detected() {
    let many: Vec<i16> = vec![10; 40000];
    let p = platform(vec![10]);
    let s = vec![scrutin(1, false, vec![(Choice::Pour, many)])];
    let sub = vec![op(1, Choice::Pour)];
    assert!(!score_fits(&p, &s, &sub));
    let s_small = scrutins();
    assert!(score_fits(&p, &s_small, &[op(1, Choice::Pour)]));
}

#[test]
fn affinity_ratios_are_score_plus_count_over_twice_count() {
    let scores = vec![GroupScore { id: 10, score: -2 }, GroupScore { id: 20, score: 3 }];
    assert!(affinity_fits(&scores, 3));
    let ratios = calculate_affinity_ratios(&scores, 3).unwrap();
    assert_eq!(
        ratios,
        vec![
            AffinityRatio { id: 10, numerator: 1, denominator: 6 },
            AffinityRatio { id: 20, numerator: 6, denominator: 6 },
        ]
    );
}

#[test]
fn affinity_ratios_refuse_too_many_questions() {
    let scores = vec![GroupScore { id: 10, score: 0 }];
    assert!(calculate_affinity_ratios(&scores, 40000).is_none());
    assert_eq!(calculate_affinity_ratios(&[], 40000), Some(vec![]));
    assert!(!affinity_fits(&scores, 20000));
    assert!(affinity_fits(&scores, 40000));
}

#[test]
fn order_of_a_scrutins_votes_does_not_matter() {
    let p = platform(vec![10, 20, 30]);
    let reordered = vec![
        scrutin(1, false, vec![(Choice::Abstention, vec![30]), (Choice::Pour, vec![10]), (Choice::Contre, vec![20])]),
        scrutin(2, true, vec![(Choice::Abstention, vec![30]), (Choice::Pour, vec![10, 20])]),
    ];
    for sub in [
        vec![op(1, Choice::Pour), op(2, Choice::Pour)],
        vec![op(2, Choice::Abstention), op(1, Choice::Contre)],
    ] {
        assert_eq!(calculate_score(&p, &scrutins(), &sub), calculate_score(&p, &reordered, &sub));
    }
}

#[test]
fn order_of_the_answers_does_not_matter() {
    let p = platform(vec![10, 20, 30]);
    let s = scrutins();
    let a = vec![op(1, Choice::Contre), op(2, Choice::Abstention)];
    let b = vec![op(2, Choice::Abstention), op(1, Choice::Contre)];
    assert!(score_fits(&p, &s, &a) && score_fits(&p, &s, &b));
    assert_eq!(calculate_score(&p, &s, &a), calculate_score(&p, &s, &b));
    assert!(calculate_score(&p, &s, &a).is_some());
    let dup_a = vec![op(1, Choice::Contre), op(1, Choice::Pour)];
    let dup_b = vec![op(1, Choice::Pour), op(1, Choice::Contre)];
    assert!(calculate_score(&p, &s, &dup_a).is_none());
    assert!(calculate_score(&p, &s, &dup_b).is_none());
}
