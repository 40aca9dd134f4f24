use vstd::prelude::*;

use crate::matching::UserOpinion;

verus! {

/// The query string sent to AbuseIPDB to check an address.
pub struct AbuseIpDbQuery {
    pub ip_address: String,
}

/// The answer to a request for a CSRF token; empty when the poll is
/// closed.
pub struct InitData {
    pub csrf_token: String,
}

/// A participant's submission: the CSRF token and the answers.
pub struct MatchData {
    pub csrf_token: String,
    pub results: Vec<UserOpinion>,
}

/// The host whose results are to be published.
pub struct PublishReportData {
    pub hostname: String,
}

} // verus!
