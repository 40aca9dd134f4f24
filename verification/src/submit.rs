use vstd::prelude::*;

use crate::config::{
    spec_asn_abuse_code, spec_find_asn, spec_ip_abuse_code, spec_whitelisted, InstanceInfo, Platform,
};
use crate::database::{spec_to_db, SubmissionsChoices};
use crate::dates::Date;
use crate::errors::{throw, ErrorKind, InstanceError};
use crate::global::{AC_IPABUSEDB_FAIL, AC_IP_NOT_WHITELISTED};
use crate::matching::UserOpinion;

verus! {

/// What the filter lists say of a client address.
#[derive(Debug, Clone, Copy, PartialEq, Eq, Structural)]
pub enum Screening {
    /// The submission is recorded with this abuse code and answered with
    /// this kind.
    Flagged { asn: u32, abuse_code: u16, kind: ErrorKind },
    /// No list objects: AbuseIPDB decides the abuse code.
    Clear { asn: u32 },
}

/// The screening of `client`: first the blocked autonomous systems (for a
/// known autonomous system), then the whitelist, then the blacklist.
pub open spec fn spec_screen(inst: InstanceInfo, client: u32) -> Screening {
    let asn = spec_find_asn(inst.asn_list@, client);
    let asn_code = spec_asn_abuse_code(inst.asn_blacklist@, asn);
    let ip_code = spec_ip_abuse_code(inst.ipv4_blacklist@, client);
    if asn != 0 && asn_code > 0 {
        Screening::Flagged { asn, abuse_code: asn_code, kind: ErrorKind::InfoAsnBlocklisted }
    } else if !spec_whitelisted(inst.ipv4_whitelist@, client) {
        Screening::Flagged { asn, abuse_code: AC_IP_NOT_WHITELISTED, kind: ErrorKind::InfoNotWhitelisted }
    } else if ip_code > 0 {
        Screening::Flagged { asn, abuse_code: ip_code, kind: ErrorKind::InfoIpBlocklisted }
    } else {
        Screening::Clear { asn }
    }
}

impl InstanceInfo {
    /// Screens a client address (as a 32-bit number) against the filter
    /// lists: a blocked autonomous system, an address outside the
    /// whitelist, or a blocked address flags the submission.
    pub fn screen_client(&self, client: u32) -> (r: Screening)
        ensures
            r == spec_screen(*self, client),
    {
        let client_asn: u32 = self.find_asn(client);
        if client_asn != 0 {
            let test_asnbl: u16 = self.check_asn_blacklist(client_asn);
            if test_asnbl > 0 {
                return Screening::Flagged {
                    asn: client_asn,
                    abuse_code: test_asnbl,
                    kind: ErrorKind::InfoAsnBlocklisted,
                };
            }
        }
        if !self.check_ipv4_whitelist(client) {
            return Screening::Flagged {
                asn: client_asn,
                abuse_code: AC_IP_NOT_WHITELISTED,
                kind: ErrorKind::InfoNotWhitelisted,
            };
        }
        let test_ipbl: u16 = self.check_ipv4_blacklist(client);
        if test_ipbl > 0 {
            return Screening::Flagged { asn: client_asn, abuse_code: test_ipbl, kind: ErrorKind::InfoIpBlocklisted };
        }
        Screening::Clear { asn: client_asn }
    }
}

/// The abuse code recorded after asking AbuseIPDB: its score, or
/// `AC_IPABUSEDB_FAIL` when it could not be asked.
pub fn recorded_abuse_code(response: Option<u16>) -> (code: u16)
    ensures
        code == (match response {
            Some(c) => c,
            None => AC_IPABUSEDB_FAIL,
        }),
{
    match response {
        Some(c) => c,
        None => AC_IPABUSEDB_FAIL,
    }
}

/// An abuse confidence score capped at 100.
pub fn cap_abuse_score(abuse_score: u64) -> (r: u16)
    ensures
        r == (if abuse_score <= 100 { abuse_score } else { 100 }),
{
    if abuse_score <= 100 {
        abuse_score as u16
    } else {
        100
    }
}

/// The time taken to answer, in seconds, as stored: refused when negative
/// or beyond an `i32`.
pub fn duration_to_db(duration: i64) -> (r: Result<i32, InstanceError>)
    ensures
        r is Ok <==> 0 <= duration <= i32::MAX,
        r matches Ok(d) ==> d == duration,
        r matches Err(e) ==> e.kind == ErrorKind::SevereDurationOverflow,
{
    if duration < 0 || duration > 2147483647 {
        let mut msg: String = String::new();
        msg.append("duration is ");
        msg.append(duration.to_string().as_str());
        return Err(throw(ErrorKind::SevereDurationOverflow, msg));
    }
    Ok(duration as i32)
}

/// An autonomous system as stored: saturated at `i32::MAX`.
pub fn asn_to_db(asn: u32) -> (r: i32)
    ensures
        r == (if asn <= i32::MAX { asn as int } else { i32::MAX as int }),
{
    if asn <= 2147483647 {
        asn as i32
    } else {
        2147483647
    }
}

/// An abuse code as stored: saturated at `i16::MAX`.
pub fn abuse_code_to_db(abuse_code: u16) -> (r: i16)
    ensures
        r == (if abuse_code <= i16::MAX { abuse_code as int } else { i16::MAX as int }),
{
    if abuse_code <= 32767 {
        abuse_code as i16
    } else {
        32767
    }
}

/// A submission as inserted in the database.
#[derive(Debug, Clone, Copy, PartialEq, Eq, Structural)]
pub struct InsertableSubmissions {
    pub platform_id: i16,
    pub asn: i32,
    pub abuse_code: i16,
    pub sent_timestamp: Date,
    pub duration: i32,
}

/// The row of a submission sent on day `sent` from autonomous system `asn`
/// and recorded with `abuse_code`.
pub fn submission_row(platform: &Platform, asn: u32, abuse_code: u16, duration: i32, sent: Date) -> (r:
    InsertableSubmissions)
    ensures
        r.platform_id == platform.id,
        r.asn == (if asn <= i32::MAX { asn as int } else { i32::MAX as int }),
        r.abuse_code == (if abuse_code <= i16::MAX { abuse_code as int } else { i16::MAX as int }),
        r.sent_timestamp == sent,
        r.duration == duration,
{
    InsertableSubmissions {
        platform_id: platform.id,
        asn: asn_to_db(asn),
        abuse_code: abuse_code_to_db(abuse_code),
        sent_timestamp: sent,
        duration,
    }
}

/// The rows of the answers of submission `submission_id`, one per answer,
/// in order.
pub fn submission_choices(submission_id: i64, user_opinion: &[UserOpinion]) -> (r: Vec<SubmissionsChoices>)
    ensures
        r@.len() == user_opinion@.len(),
        forall|k: int|
            0 <= k < r@.len() ==> #[trigger] r@[k] == (SubmissionsChoices {
                submission_id,
                question_id: user_opinion@[k].question_id,
                userchoice: spec_to_db(user_opinion@[k].vote),
            }),
{
    let mut choices: Vec<SubmissionsChoices> = Vec::new();
    let mut k: usize = 0;
    while k < user_opinion.len()
        invariant
            k <= user_opinion@.len(),
            choices@.len() == k,
            forall|k2: int|
                0 <= k2 < k ==> #[trigger] choices@[k2] == (SubmissionsChoices {
                    submission_id,
                    question_id: user_opinion@[k2].question_id,
                    userchoice: spec_to_db(user_opinion@[k2].vote),
                }),
        decreases user_opinion.len() - k,
    {
        choices.push(
            SubmissionsChoices {
                submission_id,
                question_id: user_opinion[k].question_id,
                userchoice: user_opinion[k].vote.to_db(),
            },
        );
        k += 1;
    }
    choices
}

/// What the submission handler does next, once the poll, the CSRF token,
/// the answers and the duration have been checked.
#[derive(Debug, Clone, Copy, PartialEq, Eq, Structural)]
pub enum SubmitAction {
    /// Answer with an error of this kind, recording nothing.
    Refuse(ErrorKind),
    /// Ask AbuseIPDB for the confidence score of the address.
    QueryAbuseIpDb { asn: u32 },
    /// Record the submission with this autonomous system and abuse code,
    /// then answer with an error of kind `reply`, or with success when it
    /// is `None`.
    Record { asn: u32, abuse_code: u16, reply: Option<ErrorKind> },
}

/// What the submission handler learnt from outside.
#[derive(Debug, Clone, Copy, PartialEq, Eq, Structural)]
pub enum SubmitEvent {
    /// Whether the address already answered this poll.
    AddressChecked { already_polled: bool },
    /// The score that AbuseIPDB gave the address of autonomous system
    /// `asn`, or `None` when it could not be asked.
    AbuseIpDbAnswered { asn: u32, score: Option<u16> },
}

/// The step that follows `event` for a submission from `client`: an
/// address that already answered is refused; otherwise a flagged address
/// is recorded and refused, and a clear one is sent on to AbuseIPDB, whose
/// answer (or failure) is recorded with the submission.
pub open spec fn spec_submit_step(inst: InstanceInfo, client: u32, event: SubmitEvent) -> SubmitAction {
    match event {
        SubmitEvent::AddressChecked { already_polled } => if already_polled {
            SubmitAction::Refuse(ErrorKind::InfoAlreadyPolled)
        } else {
            match spec_screen(inst, client) {
                Screening::Flagged { asn, abuse_code, kind } => SubmitAction::Record {
                    asn,
                    abuse_code,
                    reply: Some(kind),
                },
                Screening::Clear { asn } => SubmitAction::QueryAbuseIpDb { asn },
            }
        },
        SubmitEvent::AbuseIpDbAnswered { asn, score } => match score {
            Some(c) => SubmitAction::Record { asn, abuse_code: c, reply: None },
            None => SubmitAction::Record {
                asn,
                abuse_code: AC_IPABUSEDB_FAIL,
                reply: Some(ErrorKind::CritAbuseIpDbApiFail),
            },
        },
    }
}

impl InstanceInfo {
    /// Decides the next step of a submission from `client` (its address as
    /// a 32-bit number) after `event`.
    pub fn submit_step(&self, client: u32, event: SubmitEvent) -> (r: SubmitAction)
        ensures
            r == spec_submit_step(*self, client, event),
    {
        match event {
            SubmitEvent::AddressChecked { already_polled } => {
                if already_polled {
                    return SubmitAction::Refuse(ErrorKind::InfoAlreadyPolled);
                }
                match self.screen_client(client) {
                    Screening::Flagged { asn, abuse_code, kind } => SubmitAction::Record {
                        asn,
                        abuse_code,
                        reply: Some(kind),
                    },
                    Screening::Clear { asn } => SubmitAction::QueryAbuseIpDb { asn },
                }
            },
            SubmitEvent::AbuseIpDbAnswered { asn, score } => {
                let abuse_code: u16 = recorded_abuse_code(score);
                let reply: Option<ErrorKind> = match score {
                    Some(_) => None,
                    None => Some(ErrorKind::CritAbuseIpDbApiFail),
                };
                SubmitAction::Record { asn, abuse_code, reply }
            },
        }
    }
}

/// An address that already answered is refused and not recorded. One that
/// has not is either recorded at once, with a nonzero abuse code and a
/// refusal, or, when no list flags it, sent on to AbuseIPDB; a submission
/// is answered with success only once AbuseIPDB gave a score, and that
/// score is what is recorded.
pub proof fn lemma_submission_flow(inst: InstanceInfo, client: u32, asn: u32, score: Option<u16>)
    ensures
        spec_submit_step(inst, client, SubmitEvent::AddressChecked { already_polled: true })
            == SubmitAction::Refuse(ErrorKind::InfoAlreadyPolled),
        match spec_submit_step(inst, client, SubmitEvent::AddressChecked { already_polled: false }) {
            SubmitAction::Record { abuse_code, reply, .. } => abuse_code > 0 && reply is Some,
            SubmitAction::QueryAbuseIpDb { asn } => spec_screen(inst, client) == (Screening::Clear { asn }),
            SubmitAction::Refuse(_) => false,
        },
        spec_submit_step(inst, client, SubmitEvent::AbuseIpDbAnswered { asn, score }) matches SubmitAction::Record {
            abuse_code,
            reply,
            ..
        } && (reply is None <==> score is Some) && (score matches Some(c) ==> abuse_code == c),
{
    lemma_clear_means_allowed(inst, client);
}

/// A submission passes the screening only from an address in the
/// whitelist, with a blacklist code of zero, and from an autonomous system
/// that is unknown or not blocked.
pub proof fn lemma_clear_means_allowed(inst: InstanceInfo, client: u32)
    ensures
        spec_screen(inst, client) matches Screening::Clear { asn } ==> {
            &&& asn == spec_find_asn(inst.asn_list@, client)
            &&& spec_whitelisted(inst.ipv4_whitelist@, client)
            &&& spec_ip_abuse_code(inst.ipv4_blacklist@, client) == 0
            &&& (asn == 0 || spec_asn_abuse_code(inst.asn_blacklist@, asn) == 0)
        },
        spec_screen(inst, client) matches Screening::Flagged { abuse_code, .. } ==> abuse_code > 0,
{
}

} // verus!
