use quelparti::config::{ConfigFile, InstanceInfo, InvalidRange, Platform, RangeList};
use quelparti::dates::Date;
use quelparti::filters::{ASNBLEntry, ASNLEntry, IPV4BLEntry, IPV4WLEntry, ListParseError};
use quelparti::global::AC_IP_NOT_WHITELISTED;
use quelparti::errors::ErrorKind;
use quelparti::global::AC_IPABUSEDB_FAIL;
use quelparti::submit::{Screening, SubmitAction, SubmitEvent};
use quelparti::text::parse_unsigned;

fn config(csrf_key: &str) -> ConfigFile {
    ConfigFile {
        bind_address: "127.0.0.1".to_string(),
        bind_port: 8080,
        show_stats: false,
        debug_mode: false,
        database_path: "postgres://localhost/quelparti".to_string(),
        csrf_key: csrf_key.to_string(),
        hide_errors: true,
        hours_update_results: 24,
        abuseipdb_api_key: "SECRET-REDACTED".to_string(),
        twitter_api_client_id: "id".to_string(),
        twitter_api_client_secret: "SECRET-REDACTED".to_string(),
    }
}

fn platform(id: i16, host: &str, end: i32) -> Platform {
    Platform {
        id,
        host: host.to_string(),
        name: "poll".to_string(),
        begin_at: Date { days_from_ce: 700000 },
        end_at: Date { days_from_ce: end },
        minimum_participations: 5,
        groups: vec![1, 2],
    }
}

fn instance() -> InstanceInfo {
    InstanceInfo {
        config: config("0123456789abcdef0123456789abcdefXYZ"),
        platforms_list: vec![platform(1, "a.fr", 738000), platform(2, "b.fr", 738500), platform(3, "a.fr", 739000)],
        scrutins_list: vec![],
        ipv4_whitelist: vec![IPV4WLEntry { ip_start: 100, ip_end: 200 }, IPV4WLEntry { ip_start: 300, ip_end: 300 }],
        ipv4_blacklist: vec![
            IPV4BLEntry { ip_start: 150, ip_end: Some(160), abuse_code: 7 },
            IPV4BLEntry { ip_start: 170, ip_end: None, abuse_code: 9 },
            IPV4BLEntry { ip_start: 155, ip_end: None, abuse_code: 11 },
        ],
        asn_list: vec![
            ASNLEntry { ip_start: 0, ip_end: 120, asn: 64500 },
            ASNLEntry { ip_start: 100, ip_end: 400, asn: 64501 },
        ],
        asn_blacklist: vec![ASNBLEntry { asn: 64500, abuse_code: 30 }],
    }
}

#[test]
fn whitelist_count_sums_range_sizes() {
    let v = vec![IPV4WLEntry { ip_start: 10, ip_end: 20 }, IPV4WLEntry { ip_start: 5, ip_end: 5 }];
    assert_eq!(IPV4WLEntry::count(&v), 10);
    assert_eq!(IPV4WLEntry::count(&[]), 0);
}

#[test]
fn blacklist_count_counts_single_addresses_as_one() {
    let v = vec![
        IPV4BLEntry { ip_start: 10, ip_end: Some(20), abuse_code: 1 },
        IPV4BLEntry { ip_start: 7, ip_end: None, abuse_code: 1 },
    ];
    assert_eq!(IPV4BLEntry::count(&v), 11);
}

#[test]
fn asn_blacklist_count_sums_ranges_of_blocked_systems() {
    let inst = instance();
    assert_eq!(ASNBLEntry::count(&inst.asn_blacklist, &inst.asn_list), 120);
    let twice = vec![ASNBLEntry { asn: 64501, abuse_code: 1 }, ASNBLEntry { asn: 64501, abuse_code: 2 }];
    assert_eq!(ASNBLEntry::count(&twice, &inst.asn_list), 600);
}

#[test]
fn lookups_take_the_first_matching_entry() {
    let inst = instance();
    assert_eq!(inst.find_asn(110), 64500);
    assert_eq!(inst.find_asn(130), 64501);
    assert_eq!(inst.find_asn(500), 0);
    assert_eq!(inst.check_asn_blacklist(64500), 30);
    assert_eq!(inst.check_asn_blacklist(64501), 0);
    assert!(inst.check_ipv4_whitelist(100));
    assert!(inst.check_ipv4_whitelist(300));
    assert!(!inst.check_ipv4_whitelist(250));
    assert_eq!(inst.check_ipv4_blacklist(155), 7);
    assert_eq!(inst.check_ipv4_blacklist(170), 9);
    assert_eq!(inst.check_ipv4_blacklist(171), 0);
}

#[test]
fn screening_order() {
    let inst = instance();
    assert_eq!(
        inst.screen_client(110),
        Screening::Flagged { asn: 64500, abuse_code: 30, kind: ErrorKind::InfoAsnBlocklisted }
    );
    assert_eq!(
        inst.screen_client(250),
        Screening::Flagged { asn: 64501, abuse_code: AC_IP_NOT_WHITELISTED, kind: ErrorKind::InfoNotWhitelisted }
    );
    assert_eq!(
        inst.screen_client(170),
        Screening::Flagged { asn: 64501, abuse_code: 9, kind: ErrorKind::InfoIpBlocklisted }
    );
    assert_eq!(inst.screen_client(180), Screening::Clear { asn: 64501 });
    // an address of no known autonomous system
    let mut other = instance();
    other.ipv4_whitelist.push(IPV4WLEntry { ip_start: 900, ip_end: 900 });
    assert_eq!(other.screen_client(900), Screening::Clear { asn: 0 });
}

#[test]
fn validity_names_the_first_unordered_entry() {
    let mut inst = instance();
    assert_eq!(inst.check_validity(), Ok(()));
    inst.asn_list.push(ASNLEntry { ip_start: 9, ip_end: 1, asn: 1 });
    assert_eq!(inst.check_validity(), Err(InvalidRange { list: RangeList::AsnList, index: 2 }));
    inst.ipv4_blacklist[1].ip_end = Some(3);
    assert_eq!(inst.check_validity(), Err(InvalidRange { list: RangeList::Blacklist, index: 1 }));
    inst.ipv4_whitelist[0].ip_end = 1;
    assert_eq!(inst.check_validity(), Err(InvalidRange { list: RangeList::Whitelist, index: 0 }));
}

#[test]
fn csrf_key_is_the_first_32_bytes() {
    let inst = instance();
    assert_eq!(&inst.get_csrf_key()[..], b"0123456789abcdef0123456789abcdef");
}

#[test]
fn open_platform_is_the_first_with_the_host() {
    let inst = instance();
    assert_eq!(inst.check_open_on("a.fr", Date { days_from_ce: 737999 }).map(|p| p.id), Some(1));
    // the first platform of that host has ended: the later one is not used
    assert!(inst.check_open_on("a.fr", Date { days_from_ce: 738000 }).is_none());
    assert_eq!(inst.check_open_on("b.fr", Date { days_from_ce: 738000 }).map(|p| p.id), Some(2));
    assert!(inst.check_open_on("c.fr", Date { days_from_ce: 0 }).is_none());
    assert!(inst.check_open("c.fr").is_none());
}

#[test]
fn whitelist_parses_records_after_the_header() {
    let data = b"ip_start,ip_end\n# a comment\n1,5\n10,+20\n";
    assert_eq!(
        IPV4WLEntry::parse(data),
        Ok(vec![IPV4WLEntry { ip_start: 1, ip_end: 5 }, IPV4WLEntry { ip_start: 10, ip_end: 20 }])
    );
}

#[test]
fn whitelist_reports_bad_numbers() {
    assert_eq!(IPV4WLEntry::parse(b"a,b\n1,x\n"), Err(ListParseError::BadNumber(1)));
    assert_eq!(IPV4WLEntry::parse(b"a,b\n4294967296,1\n"), Err(ListParseError::BadNumber(0)));
    assert_eq!(IPV4WLEntry::parse(b"a,b\n-1,1\n"), Err(ListParseError::BadNumber(0)));
}

#[test]
fn whitelist_reports_missing_columns() {
    assert_eq!(IPV4WLEntry::parse(b"a\n1\n"), Err(ListParseError::MissingColumn(1)));
}

#[test]
fn unreadable_record_counts_after_earlier_ones() {
    // the third record has a different number of fields
    assert_eq!(IPV4WLEntry::parse(b"a,b\n1,2\n1,2,3\n"), Err(ListParseError::Unreadable));
    assert_eq!(IPV4WLEntry::parse(b"a,b\nz,2\n1,2,3\n"), Err(ListParseError::BadNumber(0)));
}

#[test]
fn blacklist_reads_optional_range_end() {
    let data = b"ip_start,ip_end,abuse_code\n1,,5\n2,3,65535\n";
    assert_eq!(
        IPV4BLEntry::parse(data),
        Ok(vec![
            IPV4BLEntry { ip_start: 1, ip_end: None, abuse_code: 5 },
            IPV4BLEntry { ip_start: 2, ip_end: Some(3), abuse_code: 65535 },
        ])
    );
    assert_eq!(IPV4BLEntry::parse(b"a,b,c\n1,,65536\n"), Err(ListParseError::BadNumber(2)));
}

#[test]
fn asn_lists_parse() {
    assert_eq!(
        ASNLEntry::parse(b"s,e,asn\n1,2,3\n"),
        Ok(vec![ASNLEntry { ip_start: 1, ip_end: 2, asn: 3 }])
    );
    assert_eq!(ASNBLEntry::parse(b"asn,code\n64500,12\n"), Ok(vec![ASNBLEntry { asn: 64500, abuse_code: 12 }]));
    assert_eq!(ASNBLEntry::parse(b"asn,code\n64500,1x\n"), Err(ListParseError::BadNumber(1)));
}

#[test]
fn unsigned_numbers_read_as_rust_reads_them() {
    assert_eq!(parse_unsigned("42", 100), Some(42));
    assert_eq!(parse_unsigned("+42", 100), Some(42));
    assert_eq!(parse_unsigned("007", 100), Some(7));
    assert_eq!(parse_unsigned("101", 100), None);
    assert_eq!(parse_unsigned("", 100), None);
    assert_eq!(parse_unsigned("+", 100), None);
    assert_eq!(parse_unsigned(" 1", 100), None);
    assert_eq!(parse_unsigned("18446744073709551615", u64::MAX), Some(u64::MAX));
    assert_eq!(parse_unsigned("18446744073709551616", u64::MAX), None);
    for s in ["0", "65535", "65536", "+1", "1+", "x", "99999999999"] {
        assert_eq!(parse_unsigned(s, 65535), s.parse::<u16>().ok().map(u64::from));
    }
}

#[test]
fn submission_steps() {
    let inst = instance();
    let checked = |client: u32, already_polled: bool| inst.submit_step(client, SubmitEvent::AddressChecked { already_polled });
    assert_eq!(checked(180, true), SubmitAction::Refuse(ErrorKind::InfoAlreadyPolled));
    assert_eq!(checked(110, true), SubmitAction::Refuse(ErrorKind::InfoAlreadyPolled));
    assert_eq!(
        checked(110, false),
        SubmitAction::Record { asn: 64500, abuse_code: 30, reply: Some(ErrorKind::InfoAsnBlocklisted) }
    );
    assert_eq!(
        checked(250, false),
        SubmitAction::Record { asn: 64501, abuse_code: AC_IP_NOT_WHITELISTED, reply: Some(ErrorKind::InfoNotWhitelisted) }
    );
    assert_eq!(checked(180, false), SubmitAction::QueryAbuseIpDb { asn: 64501 });
    assert_eq!(
        inst.submit_step(180, SubmitEvent::AbuseIpDbAnswered { asn: 64501, score: Some(12) }),
        SubmitAction::Record { asn: 64501, abuse_code: 12, reply: None }
    );
    assert_eq!(
        inst.submit_step(180, SubmitEvent::AbuseIpDbAnswered { asn: 64501, score: None }),
        SubmitAction::Record { asn: 64501, abuse_code: AC_IPABUSEDB_FAIL, reply: Some(ErrorKind::CritAbuseIpDbApiFail) }
    );
}

#[test]
fn valid_lists_are_counted() {
    let inst = instance();
    assert_eq!(inst.check_validity(), Ok(()));
    assert_eq!(IPV4WLEntry::count(&inst.ipv4_whitelist), 100);
    assert_eq!(IPV4BLEntry::count(&inst.ipv4_blacklist), 12);
    assert_eq!(ASNBLEntry::count(&inst.asn_blacklist, &inst.asn_list), 120);
}

#[test]
fn counts_that_overflow_are_detected() {
    let inst = instance();
    assert!(IPV4WLEntry::count_fits(&inst.ipv4_whitelist));
    assert!(IPV4BLEntry::count_fits(&inst.ipv4_blacklist));
    assert!(ASNBLEntry::count_fits(&inst.asn_blacklist, &inst.asn_list));
    let wide = vec![IPV4WLEntry { ip_start: 0, ip_end: u32::MAX }, IPV4WLEntry { ip_start: 0, ip_end: 1 }];
    assert!(!IPV4WLEntry::count_fits(&wide));
    assert!(IPV4WLEntry::count_fits(&wide[..1]));
    let wide_bl = vec![
        IPV4BLEntry { ip_start: 0, ip_end: Some(u32::MAX), abuse_code: 1 },
        IPV4BLEntry { ip_start: 5, ip_end: None, abuse_code: 1 },
    ];
    assert!(!IPV4BLEntry::count_fits(&wide_bl));
    let list = vec![ASNLEntry { ip_start: 0, ip_end: u32::MAX, asn: 7 }];
    let once = vec![ASNBLEntry { asn: 7, abuse_code: 1 }];
    let twice = vec![ASNBLEntry { asn: 7, abuse_code: 1 }, ASNBLEntry { asn: 7, abuse_code: 2 }];
    assert!(ASNBLEntry::count_fits(&once, &list));
    assert_eq!(ASNBLEntry::count(&once, &list), u32::MAX);
    assert!(!ASNBLEntry::count_fits(&twice, &list));
}
