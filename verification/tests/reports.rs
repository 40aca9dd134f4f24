use chrono::Datelike;
use quelparti::config::{Platform, Scrutin};
use quelparti::database::{Choice, SubmissionsChoices};
use quelparti::dates::Date;
use quelparti::errors::ErrorKind;
use quelparti::matching::{AffinityRatio, UserOpinion};
use quelparti::reports::{
    check_groups_known, check_participations, check_report_window, group_submissions, participation_captions, remaining_message, report_global, remaining_participations, round_data,
    score_submissions, submission_scoring_fits, SubmissionGroup, SubmissionRatios,
};
use quelparti::stats::{group_numerators, median_of, report_core, uninominal_ties};

fn day(y: i32, m: u32, d: u32) -> Date {
    Date { days_from_ce: chrono::NaiveDate::from_ymd_opt(y, m, d).unwrap().num_days_from_ce() }
}

fn platform() -> Platform {
    Platform {
        id: 4,
        host: "quelparti.fr".to_string(),
        name: "QuelParti".to_string(),
        begin_at: day(2022, 1, 1),
        end_at: day(2022, 4, 10),
        minimum_participations: 100,
        groups: vec![10, 20],
    }
}

fn scrutins() -> Vec<Scrutin> {
    vec![Scrutin {
        id: "V1".to_string(),
        question_id: 1,
        name: "q".to_string(),
        description: "d".to_string(),
        arguments: vec![],
        invert_votes: false,
        date_scrutin: "2021-01-01".to_string(),
        nbre_votants: 10,
        organes: vec![(Choice::Pour, vec![10]), (Choice::Contre, vec![20])],
        deputes: vec![],
    }]
}

fn row(submission_id: i64, question_id: i16, userchoice: i16) -> SubmissionsChoices {
    SubmissionsChoices { submission_id, question_id, userchoice }
}

#[test]
fn round_data_hides_the_last_digit() {
    assert_eq!(round_data(0), 0);
    assert_eq!(round_data(7), 0);
    assert_eq!(round_data(40), 40);
    assert_eq!(round_data(1234), 1230);
    assert_eq!(round_data(-17), -10);
    assert_eq!(round_data(round_data(1239)), 1230);
}

#[test]
fn report_window_closes_after_the_end() {
    let p = platform();
    assert!(check_report_window(&p, day(2022, 4, 10)).is_ok());
    let e = check_report_window(&p, day(2022, 4, 11)).unwrap_err();
    assert_eq!(e.kind, ErrorKind::InfoPollClosed);
    assert_eq!(e.msg, "4: 2022-04-10 - 2022-04-11");
}

#[test]
fn report_needs_minimum_participations() {
    let p = platform();
    assert!(check_participations(&p, 100).is_ok());
    let e = check_participations(&p, 99).unwrap_err();
    assert_eq!(e.kind, ErrorKind::InfoNotEnoughSubs);
    assert_eq!(e.msg, "4: 99 / 100");
    assert_eq!(remaining_participations(100, 40), 60);
    assert_eq!(
        remaining_message(100, 40),
        "Participations restantes avant la publication des r\u{e9}sultats : 60 / 100.\n#QuelParti https://quelparti.fr\n"
    );
}

#[test]
fn dates_are_written_as_chrono_writes_them() {
    let mut p = platform();
    p.end_at = day(2021, 12, 31);
    let e = check_report_window(&p, day(2022, 1, 1)).unwrap_err();
    assert_eq!(e.msg, "4: 2021-12-31 - 2022-01-01");
}

#[test]
fn grouping_collects_answers_by_submission() {
    let rows = vec![row(1, 1, 1), row(1, 2, -1), row(2, 1, 0), row(3, 2, 1)];
    let groups = group_submissions(&rows).unwrap();
    assert_eq!(
        groups,
        vec![
            SubmissionGroup {
                submission_id: 1,
                opinions: vec![
                    UserOpinion { question_id: 1, vote: Choice::Pour },
                    UserOpinion { question_id: 2, vote: Choice::Contre },
                ],
            },
            SubmissionGroup {
                submission_id: 2,
                opinions: vec![UserOpinion { question_id: 1, vote: Choice::Abstention }],
            },
            SubmissionGroup { submission_id: 3, opinions: vec![UserOpinion { question_id: 2, vote: Choice::Pour }] },
        ]
    );
}

#[test]
fn grouping_restarts_a_submission_seen_again() {
    let rows = vec![row(1, 1, 1), row(2, 1, 1), row(1, 2, -1)];
    let groups = group_submissions(&rows).unwrap();
    assert_eq!(groups.len(), 2);
    assert_eq!(groups[0].opinions, vec![UserOpinion { question_id: 2, vote: Choice::Contre }]);
}

#[test]
fn grouping_refuses_unknown_choices_and_missing_submissions() {
    let e = group_submissions(&[row(1, 1, 1), row(1, 2, 5)]).unwrap_err();
    assert_eq!(e.kind, ErrorKind::FatalUnmatchedChoice);
    assert_eq!(e.msg, "5");
    let e = group_submissions(&[row(-1, 1, 1)]).unwrap_err();
    assert_eq!(e.kind, ErrorKind::FatalMissingSubmission);
    assert_eq!(e.msg, "SubmissionsChoices { submission_id: -1, question_id: 1, userchoice: 1 }");
    assert_eq!(group_submissions(&[]).unwrap(), vec![]);
}

#[test]
fn submissions_are_scored_into_ratios() {
    let p = platform();
    let s = scrutins();
    let subs = vec![
        SubmissionGroup { submission_id: 8, opinions: vec![UserOpinion { question_id: 1, vote: Choice::Pour }] },
        SubmissionGroup { submission_id: 9, opinions: vec![UserOpinion { question_id: 1, vote: Choice::Contre }] },
    ];
    assert!(subs.iter().all(|g| submission_scoring_fits(&p, &s, &g.opinions)));
    let scored = score_submissions(&p, &s, &subs).unwrap();
    assert_eq!(scored[0].submission_id, 8);
    assert_eq!(
        scored[0].ratios,
        vec![
            AffinityRatio { id: 10, numerator: 2, denominator: 2 },
            AffinityRatio { id: 20, numerator: 0, denominator: 2 },
        ]
    );
    assert_eq!(scored[1].ratios[1], AffinityRatio { id: 20, numerator: 2, denominator: 2 });
}

#[test]
fn rejected_submission_fails_the_report() {
    let p = platform();
    let s = scrutins();
    let subs = vec![SubmissionGroup { submission_id: 8, opinions: vec![] }];
    let e = score_submissions(&p, &s, &subs).unwrap_err();
    assert_eq!(e.kind, ErrorKind::FatalInvalidScoreCalc);
    assert_eq!(e.msg, "[]");
    let twice = vec![UserOpinion { question_id: 1, vote: Choice::Pour }, UserOpinion { question_id: 1, vote: Choice::Abstention }];
    let subs = vec![SubmissionGroup { submission_id: 9, opinions: twice.clone() }];
    let e = score_submissions(&p, &s, &subs).unwrap_err();
    assert_eq!(e.kind, ErrorKind::FatalInvalidScoreCalc);
    assert_eq!(e.msg, format!("{:?}", twice));
    assert_eq!(e.msg, "[UserOpinion { question_id: 1, vote: Pour }, UserOpinion { question_id: 1, vote: Abstention }]");
}

fn scored(submission_id: i64, numerators: &[(i16, i16)]) -> SubmissionRatios {
    SubmissionRatios {
        submission_id,
        ratios: numerators.iter().map(|&(id, numerator)| AffinityRatio { id, numerator, denominator: 4 }).collect(),
    }
}

#[test]
fn group_affinities_are_ordered_from_the_highest() {
    let all = vec![
        scored(1, &[(10, 1), (20, 3)]),
        scored(2, &[(10, 4), (20, 0)]),
        scored(3, &[(20, 2)]),
        scored(4, &[(10, 1), (20, 4)]),
    ];
    assert_eq!(group_numerators(10, &all), vec![4, 1, 1]);
    assert_eq!(group_numerators(20, &all), vec![4, 3, 2, 0]);
    assert_eq!(group_numerators(30, &all), Vec::<i16>::new());
    assert_eq!(median_of(&[4, 1, 1]), Some(1));
    assert_eq!(median_of(&[4, 3, 2, 0]), Some(2));
    assert_eq!(median_of(&[]), None);
}

#[test]
fn uninominal_counts_ex_aequo_best_matches() {
    let all = vec![
        scored(1, &[(10, 3), (20, 3), (30, 1)]),
        scored(2, &[(10, 4), (20, 0), (30, 2)]),
        scored(3, &[(10, 0), (20, 2), (30, 2)]),
        scored(4, &[]),
    ];
    assert_eq!(uninominal_ties(10, &all), vec![2, 1]);
    assert_eq!(uninominal_ties(20, &all), vec![2, 2]);
    assert_eq!(uninominal_ties(30, &all), vec![2]);
    assert_eq!(uninominal_ties(40, &all), Vec::<usize>::new());
}

#[test]
fn report_global_packs_the_counts() {
    let p = platform();
    let g = report_global(&p, day(2022, 3, 1), 250, 180);
    assert_eq!(g.platform_id, 4);
    assert_eq!(g.started_at, day(2022, 1, 1));
    assert_eq!(g.generated_at, day(2022, 3, 1));
    assert_eq!(g.participations.total, 250);
    assert_eq!(g.participations.valid, 180);
}

#[test]
fn report_groups_must_be_described() {
    assert!(check_groups_known(&[10, 20], &[30, 20, 10]).is_ok());
    assert!(check_groups_known(&[], &[]).is_ok());
    let e = check_groups_known(&[10, 40], &[10, 20]).unwrap_err();
    assert_eq!(e.kind, ErrorKind::CritNoLeadingGroup);
    assert_eq!(e.msg, "None");
}

#[test]
fn participation_captions_show_the_counts() {
    let (total, valid) = participation_captions(1234, 987);
    assert_eq!(total, "1234 participations");
    assert_eq!(valid, "dont 987 comptabilis\u{e9}es");
}

#[test]
fn report_core_keeps_the_platform_order() {
    let p = platform();
    let all = vec![scored(1, &[(10, 1), (20, 3)]), scored(2, &[(10, 4), (20, 4)])];
    let core = report_core(&p, day(2022, 3, 1), 5, 2, &all);
    assert_eq!(core.global.generated_at, day(2022, 3, 1));
    assert_eq!(core.global.participations.total, 5);
    assert_eq!(core.groups.len(), 2);
    assert_eq!(core.groups[0].id, 10);
    assert_eq!(core.groups[0].numerators, vec![4, 1]);
    assert_eq!(core.groups[0].ties, vec![2]);
    assert_eq!(core.groups[1].numerators, vec![4, 3]);
    assert_eq!(core.groups[1].ties, vec![1, 2]);
}
