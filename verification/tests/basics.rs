use csrf::CsrfProtection;
use quelparti::abuseipdb::read_abuse_reply;
use quelparti::tweet::twitter_id;
use quelparti::colors::{color_hex2rgb, Rgba8};
use quelparti::config::Platform;
use quelparti::database::{Choice, SubmissionsChoices};
use quelparti::dates::Date;
use quelparti::errors::{throw, ErrorKind, InstanceError};
use quelparti::global::AC_IPABUSEDB_FAIL;
use quelparti::matching::UserOpinion;
use quelparti::submit::{
    abuse_code_to_db, asn_to_db, cap_abuse_score, duration_to_db, recorded_abuse_code, submission_choices,
    submission_row,
};
use quelparti::tokens::{check_duration, new_csrf_pair, verify_csrf_token, Timestamp};

#[test]
fn choices_are_stored_as_numbers() {
    assert_eq!(Choice::Pour.to_db(), 1);
    assert_eq!(Choice::Abstention.to_db(), 0);
    assert_eq!(Choice::Contre.to_db(), -1);
    for c in [Choice::Pour, Choice::Contre, Choice::Abstention] {
        assert_eq!(Choice::from_db(c.to_db()), Some(c));
    }
    assert_eq!(Choice::from_db(2), None);
    assert_eq!(Choice::from_db(-2), None);
}

#[test]
fn error_classes_decide_the_answer() {
    let info = throw(ErrorKind::InfoAlreadyPolled, "1.2.3.4".to_string());
    assert_eq!(info.kind, ErrorKind::InfoAlreadyPolled);
    assert_eq!(info.msg, "1.2.3.4");
    assert!(info.kind.is_info());
    assert!(!info.kind.is_client_error());
    assert_eq!(info.status_code(), 200);
    assert_eq!(info.response_body(false), "OK");

    let client = throw(ErrorKind::WarnInvalidAnswer, String::new());
    assert!(client.kind.is_client_error());
    assert_eq!(client.status_code(), 400);
    assert_eq!(client.response_body(true), "OK");
    assert!(client.response_body(false).starts_with("Une erreur a \u{e9}t\u{e9} rencontr\u{e9}e"));

    let crit: InstanceError = throw(ErrorKind::CritInsertAddr, String::new());
    assert!(!crit.kind.is_info() && !crit.kind.is_client_error());
    assert_eq!(crit.status_code(), 500);
    assert_ne!(crit.response_body(true), "OK");
}

#[test]
fn colors_are_read_from_hex() {
    assert_eq!(color_hex2rgb("#ff8000"), Some(Rgba8 { r: 255, g: 128, b: 0, a: 255 }));
    assert_eq!(color_hex2rgb("#AbCdEf"), Some(Rgba8 { r: 171, g: 205, b: 239, a: 255 }));
    assert_eq!(color_hex2rgb("#+f0102"), Some(Rgba8 { r: 15, g: 1, b: 2, a: 255 }));
    assert_eq!(color_hex2rgb("#gg0000"), None);
}

#[test]
fn stored_values_saturate() {
    assert_eq!(asn_to_db(64500), 64500);
    assert_eq!(asn_to_db(u32::MAX), i32::MAX);
    assert_eq!(abuse_code_to_db(2000), 2000);
    assert_eq!(abuse_code_to_db(40000), i16::MAX);
    assert_eq!(cap_abuse_score(42), 42);
    assert_eq!(cap_abuse_score(1000), 100);
    assert_eq!(recorded_abuse_code(Some(12)), 12);
    assert_eq!(recorded_abuse_code(None), AC_IPABUSEDB_FAIL);
}

#[test]
fn durations_must_fit() {
    assert_eq!(duration_to_db(30).unwrap(), 30);
    assert_eq!(duration_to_db(-1).unwrap_err().kind, ErrorKind::SevereDurationOverflow);
    assert_eq!(duration_to_db(1 << 40).unwrap_err().kind, ErrorKind::SevereDurationOverflow);
    assert_eq!(check_duration(None).unwrap_err().kind, ErrorKind::WarnNoDurationCookie);
    let start = chrono::Utc::now() - chrono::Duration::seconds(30);
    let d = check_duration(Some(Timestamp { secs: start.timestamp(), nanos: start.timestamp_subsec_nanos() })).unwrap();
    assert!((30..=31).contains(&d));
    let future = chrono::Utc::now() + chrono::Duration::seconds(3600);
    let e = check_duration(Some(Timestamp { secs: future.timestamp(), nanos: 0 })).unwrap_err();
    assert_eq!(e.kind, ErrorKind::SevereDurationOverflow);
}

#[test]
fn durations_need_a_representable_start() {
    let far = check_duration(Some(Timestamp { secs: i64::MAX, nanos: 0 })).unwrap_err();
    assert_eq!(far.kind, ErrorKind::SevereDurationOverflow);
    let bad_nanos = check_duration(Some(Timestamp { secs: 1_600_000_000, nanos: 1_500_000_000 })).unwrap_err();
    assert_eq!(bad_nanos.kind, ErrorKind::SevereDurationOverflow);
    // a leap second: 1_600_000_019 is the last second of a minute
    let leap = check_duration(Some(Timestamp { secs: 1_600_000_019, nanos: 1_500_000_000 }));
    assert!(leap.is_ok());
}

#[test]
fn rows_of_a_submission() {
    let p = Platform {
        id: 3,
        host: "h".to_string(),
        name: "n".to_string(),
        begin_at: Date { days_from_ce: 1 },
        end_at: Date { days_from_ce: 2 },
        minimum_participations: 0,
        groups: vec![],
    };
    let r = submission_row(&p, u32::MAX, 7, 45, Date { days_from_ce: 738000 });
    assert_eq!(r.platform_id, 3);
    assert_eq!(r.asn, i32::MAX);
    assert_eq!(r.abuse_code, 7);
    assert_eq!(r.duration, 45);
    let choices = submission_choices(
        77,
        &[UserOpinion { question_id: 1, vote: Choice::Contre }, UserOpinion { question_id: 2, vote: Choice::Pour }],
    );
    assert_eq!(
        choices,
        vec![
            SubmissionsChoices { submission_id: 77, question_id: 1, userchoice: -1 },
            SubmissionsChoices { submission_id: 77, question_id: 2, userchoice: 1 },
        ]
    );
}

#[test]
fn csrf_pair_verifies() {
    let key = *b"0123456789abcdef0123456789abcdef";
    let (token, cookie) = new_csrf_pair(key).unwrap();
    assert_eq!(base64::decode_config(&token, base64::URL_SAFE_NO_PAD).unwrap().len(), 124);
    assert_eq!(base64::decode_config(&cookie, base64::URL_SAFE_NO_PAD).unwrap().len(), 132);
    assert_eq!(verify_csrf_token(key, Some(cookie.clone()), &token).unwrap(), true);
    let (other_token, _) = new_csrf_pair(key).unwrap();
    assert_eq!(verify_csrf_token(key, Some(cookie.clone()), &other_token).unwrap(), false);
    let decoded_token = base64::decode_config(&token, base64::URL_SAFE_NO_PAD).unwrap();
    let decoded_cookie = base64::decode_config(&cookie, base64::URL_SAFE_NO_PAD).unwrap();
    let protection = csrf::AesGcmCsrfProtection::from_key(key);
    assert_eq!(
        protection.parse_token(&decoded_token).unwrap().value(),
        protection.parse_cookie(&decoded_cookie).unwrap().value()
    );
    let other_key = *b"ffffffffffffffffffffffffffffffff";
    assert_eq!(
        verify_csrf_token(other_key, Some(cookie.clone()), &token).unwrap_err().kind,
        ErrorKind::WarnParseCsrfCookie
    );
}

#[test]
fn csrf_refusals_come_in_order() {
    let key = *b"0123456789abcdef0123456789abcdef";
    let (token, cookie) = new_csrf_pair(key).unwrap();
    assert_eq!(verify_csrf_token(key, None, &token).unwrap_err().kind, ErrorKind::WarnNoCsrfCookie);
    assert_eq!(
        verify_csrf_token(key, Some("***".to_string()), &token).unwrap_err().kind,
        ErrorKind::WarnDecodeCsrfCookie
    );
    assert_eq!(verify_csrf_token(key, Some(cookie.clone()), "***").unwrap_err().kind, ErrorKind::WarnDecodeCsrfToken);
    assert_eq!(
        verify_csrf_token(key, Some("AAAA".to_string()), &token).unwrap_err().kind,
        ErrorKind::WarnParseCsrfCookie
    );
    assert_eq!(verify_csrf_token(key, Some(cookie), "AAAA").unwrap_err().kind, ErrorKind::WarnParseCsrfToken);
}

#[test]
fn abuseipdb_replies_are_read_in_order() {
    let h = |s: &str| Some(s.as_bytes().to_vec());
    let body = br#"{"data":{"ipAddress":"1.2.3.4","abuseConfidenceScore":37}}"#;
    assert_eq!(read_abuse_reply(body, h("10"), h("1000")), Ok(37));
    assert_eq!(read_abuse_reply(br#"{"data":{"abuseConfidenceScore":250}}"#, h("1"), h("2")), Ok(100));
    let e = read_abuse_reply(&[0xff, 0xfe], h("1"), h("2")).unwrap_err();
    assert!(e.starts_with("converting response body to utf8 failed: "));
    let e = read_abuse_reply(b"not json", h("1"), h("2")).unwrap_err();
    assert!(e.starts_with("parsing json from response body failed: "));
    assert_eq!(read_abuse_reply(br#"{"errors":[]}"#, h("1"), h("2")).unwrap_err(), "getting data key from json failed");
    assert_eq!(
        read_abuse_reply(br#"{"data":{}}"#, h("1"), h("2")).unwrap_err(),
        "getting abuseConfidenceScore key from json failed"
    );
    assert_eq!(read_abuse_reply(body, None, h("2")).unwrap_err(), "getting remaining ratelimit from headers failed");
    assert_eq!(
        read_abuse_reply(body, Some(vec![b'1', 0x7f]), h("2")).unwrap_err(),
        "converting remaining ratelimit to str failed: ToStrError { _priv: () }"
    );
    assert_eq!(read_abuse_reply(body, h("1"), None).unwrap_err(), "getting max ratelimit from headers failed");
    assert_eq!(
        read_abuse_reply(body, h("1"), Some(vec![0x80])).unwrap_err(),
        "converting max ratelimit to str failed: ToStrError { _priv: () }"
    );
    assert_eq!(
        read_abuse_reply(br#"{"data":{"abuseConfidenceScore":-3}}"#, h("1"), h("2")).unwrap_err(),
        "abuse score u64 conversion failed"
    );
    assert_eq!(read_abuse_reply(body, Some(b"1\t2".to_vec()), h("2")), Ok(37));
}

#[test]
fn twitter_ids_are_read_from_the_answer() {
    assert_eq!(twitter_id(Some((Some(42), "Number(42)".to_string()))).unwrap(), 42);
    let e = twitter_id(Some((None, "String(\"x\")".to_string()))).unwrap_err();
    assert_eq!(e.kind, ErrorKind::CritTwitterUpMediaInt);
    assert_eq!(e.msg, "String(\"x\")");
    let e = twitter_id(None).unwrap_err();
    assert_eq!(e.kind, ErrorKind::CritTwitterUpMediaGet);
    assert_eq!(e.msg, format!("{:?}", None::<u64>));
}

#[test]
fn csrf_texts_have_fixed_lengths() {
    let (token, cookie) = new_csrf_pair(*b"0123456789abcdef0123456789abcdef").unwrap();
    assert_eq!(token.len(), 166);
    assert_eq!(cookie.len(), 176);
}
