use vstd::prelude::*;

use crate::database::Choice;
use crate::dates::{last_chrono_day, today, Date};
use crate::errors::{throw, ErrorKind, InstanceError};
use crate::filters::{ASNBLEntry, ASNLEntry, IPV4BLEntry, IPV4WLEntry};
use vstd::utf8::encode_utf8;

verus! {

/// The server's settings, read from its configuration file.
pub struct ConfigFile {
    pub bind_address: String,
    pub bind_port: u16,
    pub show_stats: bool,
    pub debug_mode: bool,
    pub database_path: String,
    pub csrf_key: String,
    pub hide_errors: bool,
    pub hours_update_results: u16,
    pub abuseipdb_api_key: String,
    pub twitter_api_client_id: String,
    pub twitter_api_client_secret: String,
}

/// A poll hosted by this server, reached through its own host name.
pub struct Platform {
    pub id: i16,
    pub host: String,
    pub name: String,
    pub begin_at: Date,
    pub end_at: Date,
    pub minimum_participations: u32,
    /// The parliamentary groups that the poll compares the participants
    /// with, in display order.
    pub groups: Vec<i16>,
}

/// One of the public votes that the poll asks about.
pub struct Scrutin {
    pub id: String,
    pub question_id: i16,
    pub name: String,
    pub description: String,
    pub arguments: Vec<ScrutinArgument>,
    /// Whether agreeing with a group's vote counts against it.
    pub invert_votes: bool,
    pub date_scrutin: String,
    pub nbre_votants: i32,
    /// For each choice, the groups that voted it.
    pub organes: Vec<(Choice, Vec<i16>)>,
    /// For each choice, the deputies that voted it.
    pub deputes: Vec<(Choice, Vec<String>)>,
}

/// An argument shown beside a question.
pub struct ScrutinArgument {
    pub typ: String,
    pub comment: String,
}

impl Scrutin {
    /// Each choice is listed at most once, as in a map from choices.
    pub open spec fn well_formed(&self) -> bool {
        &&& forall|i: int, j: int|
            0 <= i < j < self.organes@.len() ==> self.organes@[i].0 != self.organes@[j].0
        &&& forall|i: int, j: int|
            0 <= i < j < self.deputes@.len() ==> self.deputes@[i].0 != self.deputes@[j].0
    }
}

/// Everything that the server loaded at start: its settings, its polls,
/// the questions, and the lists used to screen clients.
pub struct InstanceInfo {
    pub config: ConfigFile,
    pub platforms_list: Vec<Platform>,
    pub scrutins_list: Vec<Scrutin>,
    pub ipv4_whitelist: Vec<IPV4WLEntry>,
    pub ipv4_blacklist: Vec<IPV4BLEntry>,
    pub asn_list: Vec<ASNLEntry>,
    pub asn_blacklist: Vec<ASNBLEntry>,
}

/// The list of ranges in which an entry ends before it starts.
#[derive(Debug, Clone, Copy, PartialEq, Eq, Structural)]
pub enum RangeList {
    Whitelist,
    Blacklist,
    AsnList,
}

/// An entry that ends before it starts: its list and its position there.
#[derive(Debug, Clone, Copy, PartialEq, Eq, Structural)]
pub struct InvalidRange {
    pub list: RangeList,
    pub index: usize,
}

/// The range of `e` holds address `client`.
pub open spec fn asn_covers(e: ASNLEntry, client: u32) -> bool {
    e.ip_start <= client && e.ip_end >= client
}

/// The range of `e` holds address `client`.
pub open spec fn wl_covers(e: IPV4WLEntry, client: u32) -> bool {
    e.ip_start <= client && e.ip_end >= client
}

/// The range or the single address of `e` holds address `client`.
pub open spec fn bl_covers(e: IPV4BLEntry, client: u32) -> bool {
    match e.ip_end {
        Some(end) => e.ip_start <= client && end >= client,
        None => e.ip_start == client,
    }
}

/// The autonomous system of the first range that holds `client`; 0 when
/// none does.
pub open spec fn spec_find_asn(list: Seq<ASNLEntry>, client: u32) -> u32
    decreases list.len(),
{
    if list.len() == 0 {
        0
    } else if asn_covers(list[0], client) {
        list[0].asn
    } else {
        spec_find_asn(list.drop_first(), client)
    }
}

/// The abuse code of the first blacklist entry for autonomous system
/// `asn`; 0 when there is none.
pub open spec fn spec_asn_abuse_code(list: Seq<ASNBLEntry>, asn: u32) -> u16
    decreases list.len(),
{
    if list.len() == 0 {
        0
    } else if list[0].asn == asn {
        list[0].abuse_code
    } else {
        spec_asn_abuse_code(list.drop_first(), asn)
    }
}

/// Some whitelisted range holds `client`.
pub open spec fn spec_whitelisted(list: Seq<IPV4WLEntry>, client: u32) -> bool {
    exists|k: int| 0 <= k < list.len() && wl_covers(#[trigger] list[k], client)
}

/// The abuse code of the first blacklist entry that holds `client`; 0 when
/// none does.
pub open spec fn spec_ip_abuse_code(list: Seq<IPV4BLEntry>, client: u32) -> u16
    decreases list.len(),
{
    if list.len() == 0 {
        0
    } else if bl_covers(list[0], client) {
        list[0].abuse_code
    } else {
        spec_ip_abuse_code(list.drop_first(), client)
    }
}

/// `k` is the first platform served under host name `host`.
pub open spec fn is_first_platform(list: Seq<Platform>, host: Seq<char>, k: int) -> bool {
    &&& 0 <= k < list.len()
    &&& list[k].host@ == host
    &&& forall|j: int| 0 <= j < k ==> list[j].host@ != host
}

/// `r` is what the lookup of host `host` answers on day `day`: the first
/// platform served under `host` when its poll ends after that day, and
/// `None` when there is no such platform or its poll has ended.
pub open spec fn open_outcome(list: Seq<Platform>, host: Seq<char>, day: Date, r: Option<&Platform>) -> bool {
    match r {
        Some(p) => exists|k: int|
            #[trigger] is_first_platform(list, host, k) && *p == list[k] && p.end_at.days_from_ce
                > day.days_from_ce,
        None => no_platform(list, host) || exists|k: int|
            #[trigger] is_first_platform(list, host, k) && list[k].end_at.days_from_ce <= day.days_from_ce,
    }
}

/// No platform is served under host name `host`.
pub open spec fn no_platform(list: Seq<Platform>, host: Seq<char>) -> bool {
    forall|k: int| 0 <= k < list.len() ==> list[k].host@ != host
}

/// Position of the first entry of a list that ends before it starts, if
/// any: `k` is such an entry and all the earlier ones are in order.
pub open spec fn first_unordered_wl(list: Seq<IPV4WLEntry>, k: int) -> bool {
    &&& 0 <= k < list.len()
    &&& list[k].ip_end < list[k].ip_start
    &&& forall|j: int| 0 <= j < k ==> list[j].ip_start <= list[j].ip_end
}

pub open spec fn first_unordered_bl(list: Seq<IPV4BLEntry>, k: int) -> bool {
    &&& 0 <= k < list.len()
    &&& !crate::filters::bl_ordered(list[k])
    &&& forall|j: int| 0 <= j < k ==> crate::filters::bl_ordered(#[trigger] list[j])
}

pub open spec fn first_unordered_asn(list: Seq<ASNLEntry>, k: int) -> bool {
    &&& 0 <= k < list.len()
    &&& list[k].ip_end < list[k].ip_start
    &&& forall|j: int| 0 <= j < k ==> list[j].ip_start <= list[j].ip_end
}

pub open spec fn wl_ordered(list: Seq<IPV4WLEntry>) -> bool {
    forall|j: int| 0 <= j < list.len() ==> list[j].ip_start <= list[j].ip_end
}

pub open spec fn bl_all_ordered(list: Seq<IPV4BLEntry>) -> bool {
    forall|j: int| 0 <= j < list.len() ==> crate::filters::bl_ordered(#[trigger] list[j])
}

pub open spec fn asn_ordered(list: Seq<ASNLEntry>) -> bool {
    forall|j: int| 0 <= j < list.len() ==> list[j].ip_start <= list[j].ip_end
}

proof fn lemma_drop_first_subrange<A>(s: Seq<A>, i: int)
    requires
        0 <= i < s.len(),
    ensures
        s.subrange(i, s.len() as int).drop_first() == s.subrange(i + 1, s.len() as int),
        s.subrange(i, s.len() as int)[0] == s[i],
        s.subrange(i, s.len() as int).len() > 0,
{
    assert(s.subrange(i, s.len() as int).drop_first() =~= s.subrange(i + 1, s.len() as int));
}

/// Whether two strings hold the same characters.
fn same_text(a: &str, b: &str) -> (r: bool)
    ensures
        r == (a@ == b@),
{
    let x: String = a.to_owned();
    let y: String = b.to_owned();
    x == y
}

impl InstanceInfo {
    /// The autonomous system of the first range of `asn_list` that holds
    /// `client`; 0 when none does.
    pub fn find_asn(&self, client: u32) -> (r: u32)
        ensures
            r == spec_find_asn(self.asn_list@, client),
    {
        let ghost list = self.asn_list@;
        let mut i: usize = 0;
        proof {
            assert(list.subrange(0, list.len() as int) =~= list);
        }
        while i < self.asn_list.len()
            invariant
                i <= list.len(),
                list == self.asn_list@,
                spec_find_asn(list, client) == spec_find_asn(list.subrange(i as int, list.len() as int), client),
            decreases self.asn_list.len() - i,
        {
            proof {
                lemma_drop_first_subrange(list, i as int);
            }
            let asn: &ASNLEntry = &self.asn_list[i];
            if asn.ip_start <= client && asn.ip_end >= client {
                return asn.asn;
            }
            i += 1;
        }
        0
    }

    /// The abuse code of the first blacklist entry for autonomous system
    /// `client_asn`; 0 when there is none.
    pub fn check_asn_blacklist(&self, client_asn: u32) -> (r: u16)
        ensures
            r == spec_asn_abuse_code(self.asn_blacklist@, client_asn),
    {
        let ghost list = self.asn_blacklist@;
        let mut i: usize = 0;
        proof {
            assert(list.subrange(0, list.len() as int) =~= list);
        }
        while i < self.asn_blacklist.len()
            invariant
                i <= list.len(),
                list == self.asn_blacklist@,
                spec_asn_abuse_code(list, client_asn) == spec_asn_abuse_code(
                    list.subrange(i as int, list.len() as int),
                    client_asn,
                ),
            decreases self.asn_blacklist.len() - i,
        {
            proof {
                lemma_drop_first_subrange(list, i as int);
            }
            if self.asn_blacklist[i].asn == client_asn {
                return self.asn_blacklist[i].abuse_code;
            }
            i += 1;
        }
        0
    }

    /// Whether a range of the whitelist holds `client`.
    pub fn check_ipv4_whitelist(&self, client: u32) -> (r: bool)
        ensures
            r == spec_whitelisted(self.ipv4_whitelist@, client),
    {
        let mut i: usize = 0;
        while i < self.ipv4_whitelist.len()
            invariant
                i <= self.ipv4_whitelist@.len(),
                forall|k: int| 0 <= k < i ==> !wl_covers(#[trigger] self.ipv4_whitelist@[k], client),
            decreases self.ipv4_whitelist.len() - i,
        {
            let ip: &IPV4WLEntry = &self.ipv4_whitelist[i];
            if ip.ip_start <= client && ip.ip_end >= client {
                assert(wl_covers(self.ipv4_whitelist@[i as int], client));
                return true;
            }
            i += 1;
        }
        false
    }

    /// The abuse code of the first blacklist entry that holds `client`,
    /// either as a range or as its single address; 0 when none does.
    pub fn check_ipv4_blacklist(&self, client: u32) -> (r: u16)
        ensures
            r == spec_ip_abuse_code(self.ipv4_blacklist@, client),
    {
        let ghost list = self.ipv4_blacklist@;
        let mut i: usize = 0;
        proof {
            assert(list.subrange(0, list.len() as int) =~= list);
        }
        while i < self.ipv4_blacklist.len()
            invariant
                i <= list.len(),
                list == self.ipv4_blacklist@,
                spec_ip_abuse_code(list, client) == spec_ip_abuse_code(
                    list.subrange(i as int, list.len() as int),
                    client,
                ),
            decreases self.ipv4_blacklist.len() - i,
        {
            proof {
                lemma_drop_first_subrange(list, i as int);
            }
            let ip: &IPV4BLEntry = &self.ipv4_blacklist[i];
            match ip.ip_end {
                Some(ip_end) => {
                    if ip.ip_start <= client && ip_end >= client {
                        return ip.abuse_code;
                    }
                },
                None => {
                    if ip.ip_start == client {
                        return ip.abuse_code;
                    }
                },
            }
            i += 1;
        }
        0
    }

    /// Checks that every range of the whitelist, the blacklist and the list
    /// of autonomous systems ends at or after its start; otherwise names
    /// the first entry that does not, looking at the lists in that order.
    pub fn check_validity(&self) -> (r: Result<(), InvalidRange>)
        ensures
            r is Ok <==> wl_ordered(self.ipv4_whitelist@) && bl_all_ordered(self.ipv4_blacklist@)
                && asn_ordered(self.asn_list@),
            r matches Err(e) ==> {
                ||| e.list == RangeList::Whitelist && first_unordered_wl(self.ipv4_whitelist@, e.index as int)
                ||| e.list == RangeList::Blacklist && wl_ordered(self.ipv4_whitelist@) && first_unordered_bl(
                    self.ipv4_blacklist@,
                    e.index as int,
                )
                ||| e.list == RangeList::AsnList && wl_ordered(self.ipv4_whitelist@) && bl_all_ordered(
                    self.ipv4_blacklist@,
                ) && first_unordered_asn(self.asn_list@, e.index as int)
            },
    {
        let mut i: usize = 0;
        while i < self.ipv4_whitelist.len()
            invariant
                i <= self.ipv4_whitelist@.len(),
                forall|j: int| 0 <= j < i ==> self.ipv4_whitelist@[j].ip_start <= self.ipv4_whitelist@[j].ip_end,
            decreases self.ipv4_whitelist.len() - i,
        {
            if self.ipv4_whitelist[i].ip_end < self.ipv4_whitelist[i].ip_start {
                return Err(InvalidRange { list: RangeList::Whitelist, index: i });
            }
            i += 1;
        }
        let mut i: usize = 0;
        while i < self.ipv4_blacklist.len()
            invariant
                i <= self.ipv4_blacklist@.len(),
                wl_ordered(self.ipv4_whitelist@),
                forall|j: int| 0 <= j < i ==> crate::filters::bl_ordered(#[trigger] self.ipv4_blacklist@[j]),
            decreases self.ipv4_blacklist.len() - i,
        {
            if let Some(ip_end) = self.ipv4_blacklist[i].ip_end {
                if ip_end < self.ipv4_blacklist[i].ip_start {
                    return Err(InvalidRange { list: RangeList::Blacklist, index: i });
                }
            }
            assert(crate::filters::bl_ordered(self.ipv4_blacklist@[i as int]));
            i += 1;
        }
        let mut i: usize = 0;
        while i < self.asn_list.len()
            invariant
                i <= self.asn_list@.len(),
                wl_ordered(self.ipv4_whitelist@),
                bl_all_ordered(self.ipv4_blacklist@),
                forall|j: int| 0 <= j < i ==> self.asn_list@[j].ip_start <= self.asn_list@[j].ip_end,
            decreases self.asn_list.len() - i,
        {
            if self.asn_list[i].ip_end < self.asn_list[i].ip_start {
                return Err(InvalidRange { list: RangeList::AsnList, index: i });
            }
            i += 1;
        }
        Ok(())
    }

    /// The key that protects the CSRF tokens: the first 32 bytes of the
    /// UTF-8 encoding of the configured `csrf_key`.
    pub fn get_csrf_key(&self) -> (key: [u8; 32])
        requires
            encode_utf8(self.config.csrf_key@).len() >= 32,
        ensures
            key@ == encode_utf8(self.config.csrf_key@).take(32),
    {
        let bytes: &[u8] = self.config.csrf_key.as_str().as_bytes();
        let mut key: [u8; 32] = [0u8; 32];
        let mut i: usize = 0;
        while i < 32
            invariant
                i <= 32,
                bytes@ == encode_utf8(self.config.csrf_key@),
                bytes@.len() >= 32,
                key@.len() == 32,
                forall|j: int| 0 <= j < i ==> key@[j] == bytes@[j],
            decreases 32 - i,
        {
            key[i] = bytes[i];
            i += 1;
        }
        assert(key@ =~= bytes@.take(32));
        key
    }

    /// The first platform served under `host`, provided its poll is still
    /// open on day `today`, that is ends after it; `None` otherwise.
    pub fn check_open_on(&self, host: &str, today: Date) -> (r: Option<&Platform>)
        ensures
            open_outcome(self.platforms_list@, host@, today, r),
            r matches Some(p) ==> exists|k: int|
                #[trigger] is_first_platform(self.platforms_list@, host@, k) && *p == self.platforms_list@[k]
                    && p.end_at.days_from_ce > today.days_from_ce,
            r is None ==> no_platform(self.platforms_list@, host@) || exists|k: int|
                #[trigger] is_first_platform(self.platforms_list@, host@, k)
                    && self.platforms_list@[k].end_at.days_from_ce <= today.days_from_ce,
    {
        let mut i: usize = 0;
        while i < self.platforms_list.len()
            invariant
                i <= self.platforms_list@.len(),
                forall|j: int| 0 <= j < i ==> self.platforms_list@[j].host@ != host@,
            decreases self.platforms_list.len() - i,
        {
            let platform: &Platform = &self.platforms_list[i];
            if same_text(platform.host.as_str(), host) {
                assert(is_first_platform(self.platforms_list@, host@, i as int));
                if platform.end_at.days_from_ce > today.days_from_ce {
                    return Some(platform);
                } else {
                    return None;
                }
            }
            i += 1;
        }
        None
    }

    /// The first platform served under `host`, provided its poll is still
    /// open today (by the system clock); `None` otherwise, in particular
    /// when no platform is served under `host`.
    pub fn check_open(&self, host: &str) -> (r: Option<&Platform>)
        ensures
            exists|day: Date|
                day.days_from_ce <= last_chrono_day() && #[trigger] open_outcome(
                    self.platforms_list@,
                    host@,
                    day,
                    r,
                ),
            r matches Some(p) ==> exists|k: int|
                #[trigger] is_first_platform(self.platforms_list@, host@, k) && *p == self.platforms_list@[k],
            no_platform(self.platforms_list@, host@) ==> r is None,
    {
        let day: Date = today();
        self.check_open_on(host, day)
    }
}

/// A nonzero abuse code for an address comes from a blacklist entry that
/// holds the address; when no entry holds it, its abuse code is zero.
pub proof fn lemma_ip_abuse_code_source(list: Seq<IPV4BLEntry>, client: u32)
    ensures
        spec_ip_abuse_code(list, client) != 0 ==> exists|k: int|
            0 <= k < list.len() && bl_covers(#[trigger] list[k], client) && list[k].abuse_code == spec_ip_abuse_code(
                list,
                client,
            ),
        (forall|k: int| 0 <= k < list.len() ==> !bl_covers(#[trigger] list[k], client)) ==> spec_ip_abuse_code(
            list,
            client,
        ) == 0,
    decreases list.len(),
{
    if list.len() > 0 && !bl_covers(list[0], client) {
        let rest = list.drop_first();
        lemma_ip_abuse_code_source(rest, client);
        if spec_ip_abuse_code(list, client) != 0 {
            let k = choose|k: int|
                0 <= k < rest.len() && bl_covers(#[trigger] rest[k], client) && rest[k].abuse_code == spec_ip_abuse_code(
                    rest,
                    client,
                );
            assert(list[k + 1] == rest[k]);
        }
        if forall|k: int| 0 <= k < list.len() ==> !bl_covers(#[trigger] list[k], client) {
            assert forall|k: int| 0 <= k < rest.len() implies !bl_covers(#[trigger] rest[k], client) by {
                assert(rest[k] == list[k + 1]);
            }
        }
    }
}

/// A nonzero autonomous system for an address comes from a range that holds
/// the address; when no range holds it, the address has autonomous system
/// zero.
pub proof fn lemma_find_asn_source(list: Seq<ASNLEntry>, client: u32)
    ensures
        spec_find_asn(list, client) != 0 ==> exists|k: int|
            0 <= k < list.len() && asn_covers(#[trigger] list[k], client) && list[k].asn == spec_find_asn(list, client),
        (forall|k: int| 0 <= k < list.len() ==> !asn_covers(#[trigger] list[k], client)) ==> spec_find_asn(list, client)
            == 0,
    decreases list.len(),
{
    if list.len() > 0 && !asn_covers(list[0], client) {
        let rest = list.drop_first();
        lemma_find_asn_source(rest, client);
        if spec_find_asn(list, client) != 0 {
            let k = choose|k: int|
                0 <= k < rest.len() && asn_covers(#[trigger] rest[k], client) && rest[k].asn == spec_find_asn(rest, client);
            assert(list[k + 1] == rest[k]);
        }
        if forall|k: int| 0 <= k < list.len() ==> !asn_covers(#[trigger] list[k], client) {
            assert forall|k: int| 0 <= k < rest.len() implies !asn_covers(#[trigger] rest[k], client) by {
                assert(rest[k] == list[k + 1]);
            }
        }
    }
}

impl InstanceInfo {
    /// The first platform served under `hostname`, whether its poll is open
    /// or not; `WarnResultsNoPlatform` when there is none.
    pub fn find_platform(&self, hostname: &str) -> (r: Result<&Platform, InstanceError>)
        ensures
            r matches Ok(p) ==> exists|k: int|
                #[trigger] is_first_platform(self.platforms_list@, hostname@, k) && *p == self.platforms_list@[k],
            r is Err <==> no_platform(self.platforms_list@, hostname@),
            r matches Err(e) ==> e.kind == ErrorKind::WarnResultsNoPlatform && e.msg@ == hostname@,
    {
        let mut i: usize = 0;
        while i < self.platforms_list.len()
            invariant
                i <= self.platforms_list@.len(),
                forall|j: int| 0 <= j < i ==> self.platforms_list@[j].host@ != hostname@,
            decreases self.platforms_list.len() - i,
        {
            if same_text(self.platforms_list[i].host.as_str(), hostname) {
                assert(is_first_platform(self.platforms_list@, hostname@, i as int));
                return Ok(&self.platforms_list[i]);
            }
            i += 1;
        }
        Err(throw(ErrorKind::WarnResultsNoPlatform, hostname.to_owned()))
    }
}

/// Lists that pass `check_validity` can be counted: every range that the
/// counts of the whitelist, the blacklist and the blocked autonomous
/// systems add up ends at or after its start.
pub proof fn lemma_valid_lists_can_be_counted(inst: InstanceInfo)
    requires
        wl_ordered(inst.ipv4_whitelist@),
        bl_all_ordered(inst.ipv4_blacklist@),
        asn_ordered(inst.asn_list@),
    ensures
        forall|i: int|
            0 <= i < inst.ipv4_whitelist@.len() ==> inst.ipv4_whitelist@[i].ip_start <= inst.ipv4_whitelist@[i].ip_end,
        forall|i: int| 0 <= i < inst.ipv4_blacklist@.len() ==> #[trigger] crate::filters::bl_ordered(inst.ipv4_blacklist@[i]),
        crate::filters::asnbl_ranges_ordered(inst.asn_blacklist@, inst.asn_list@),
{
}

/// The abuse code of an autonomous system comes from a blacklist entry for
/// that very system: a nonzero code is the code of an entry with that
/// number, the first one with it; a system that no entry names gets 0.
pub proof fn lemma_asn_abuse_code_source(list: Seq<ASNBLEntry>, asn: u32)
    ensures
        spec_asn_abuse_code(list, asn) != 0 ==> exists|k: int|
            0 <= k < list.len() && (#[trigger] list[k]).asn == asn && list[k].abuse_code == spec_asn_abuse_code(
                list,
                asn,
            ),
        (forall|k: int| 0 <= k < list.len() ==> (#[trigger] list[k]).asn != asn) ==> spec_asn_abuse_code(list, asn)
            == 0,
        forall|k: int|
            0 <= k < list.len() && (#[trigger] list[k]).asn == asn && (forall|j: int|
                0 <= j < k ==> list[j].asn != asn) ==> spec_asn_abuse_code(list, asn) == list[k].abuse_code,
    decreases list.len(),
{
    if list.len() > 0 {
        let rest = list.drop_first();
        lemma_asn_abuse_code_source(rest, asn);
        if list[0].asn != asn {
            if spec_asn_abuse_code(list, asn) != 0 {
                let k = choose|k: int|
                    0 <= k < rest.len() && (#[trigger] rest[k]).asn == asn && rest[k].abuse_code
                        == spec_asn_abuse_code(rest, asn);
                assert(list[k + 1] == rest[k]);
            }
            if forall|k: int| 0 <= k < list.len() ==> (#[trigger] list[k]).asn != asn {
                assert forall|k: int| 0 <= k < rest.len() implies (#[trigger] rest[k]).asn != asn by {
                    assert(rest[k] == list[k + 1]);
                }
            }
            assert forall|k: int|
                0 <= k < list.len() && (#[trigger] list[k]).asn == asn && (forall|j: int|
                    0 <= j < k ==> list[j].asn != asn) implies spec_asn_abuse_code(list, asn) == list[k].abuse_code by {
                assert(k > 0);
                assert(rest[k - 1] == list[k]);
                assert forall|j: int| 0 <= j < k - 1 implies rest[j].asn != asn by {
                    assert(rest[j] == list[j + 1]);
                }
            }
        } else {
            assert forall|k: int|
                0 <= k < list.len() && (#[trigger] list[k]).asn == asn && (forall|j: int|
                    0 <= j < k ==> list[j].asn != asn) implies spec_asn_abuse_code(list, asn) == list[k].abuse_code by {
                if k > 0 {
                    assert(list[0].asn == asn);
                }
            }
        }
    }
}

/// The lookups read ranges with both bounds included: an address is
/// whitelisted exactly when some whitelisted range starts at or before it
/// and ends at or after it; a nonzero autonomous system or blacklist code
/// comes from an entry whose bounds hold the address (or whose single
/// address is it).
pub proof fn lemma_lookups_include_bounds(
    wl: Seq<IPV4WLEntry>,
    bl: Seq<IPV4BLEntry>,
    asns: Seq<ASNLEntry>,
    client: u32,
)
    ensures
        spec_whitelisted(wl, client) <==> exists|k: int|
            0 <= k < wl.len() && (#[trigger] wl[k]).ip_start <= client && client <= wl[k].ip_end,
        spec_find_asn(asns, client) != 0 ==> exists|k: int|
            0 <= k < asns.len() && (#[trigger] asns[k]).ip_start <= client && client <= asns[k].ip_end && asns[k].asn
                == spec_find_asn(asns, client),
        spec_ip_abuse_code(bl, client) != 0 ==> exists|k: int|
            0 <= k < bl.len() && match (#[trigger] bl[k]).ip_end {
                Some(end) => bl[k].ip_start <= client && client <= end,
                None => bl[k].ip_start == client,
            } && bl[k].abuse_code == spec_ip_abuse_code(bl, client),
{
    lemma_find_asn_source(asns, client);
    lemma_ip_abuse_code_source(bl, client);
    if spec_whitelisted(wl, client) {
        let k = choose|k: int| 0 <= k < wl.len() && wl_covers(#[trigger] wl[k], client);
        assert(wl[k].ip_start <= client && client <= wl[k].ip_end);
    }
    if exists|k: int| 0 <= k < wl.len() && (#[trigger] wl[k]).ip_start <= client && client <= wl[k].ip_end {
        let k = choose|k: int| 0 <= k < wl.len() && (#[trigger] wl[k]).ip_start <= client && client <= wl[k].ip_end;
        assert(wl_covers(wl[k], client));
    }
    if spec_find_asn(asns, client) != 0 {
        let k = choose|k: int|
            0 <= k < asns.len() && asn_covers(#[trigger] asns[k], client) && asns[k].asn == spec_find_asn(asns, client);
        assert(asns[k].ip_start <= client && client <= asns[k].ip_end);
    }
    if spec_ip_abuse_code(bl, client) != 0 {
        let k = choose|k: int|
            0 <= k < bl.len() && bl_covers(#[trigger] bl[k], client) && bl[k].abuse_code == spec_ip_abuse_code(bl, client);
        assert(bl_covers(bl[k], client));
    }
}

} // verus!
