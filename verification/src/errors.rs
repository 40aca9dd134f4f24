use vstd::prelude::*;

verus! {

/// What went wrong while serving a request.
///
/// The prefix of each variant tells how serious it is:
/// Fatal (a logic flaw), Crit (mostly database failures), Severe (client
/// input that should only happen on purpose), Warn (client input or
/// probing), Info (not an error, a redirection).
#[derive(Debug, Clone, Copy, PartialEq, Eq, Structural)]
pub enum ErrorKind {
    SevereInvalidForm,
    FatalGenerateCsrf,
    WarnSetCsrfCookie,
    WarnSetDurationCookie,
    WarnGetCsrfCookie,
    WarnNoCsrfCookie,
    WarnDecodeCsrfCookie,
    WarnDecodeCsrfToken,
    WarnParseCsrfCookie,
    WarnParseCsrfToken,
    WarnGetDurationCookie,
    WarnNoDurationCookie,
    SevereDurationOverflow,
    CritUnknownRemoteAddr,
    CritIpv4AddrConvert,
    CritIpNetworkConvert,
    CritInsertAddr,
    CritInsertSub,
    CritInsertSubChoices,
    CritSubmitPool,
    WarnSubmitNoPlatform,
    WarnCsrfTokenInvalid,
    WarnInvalidAnswer,
    CritCheckAddress,
    InfoAlreadyPolled,
    InfoAsnBlocklisted,
    InfoNotWhitelisted,
    InfoIpBlocklisted,
    CritAbuseIpDbApiFail,
    InfoPollClosed,
    CritReportCountValid,
    InfoNotEnoughSubs,
    CritReportCountTotal,
    CritReportGetValid,
    FatalUnmatchedChoice,
    FatalMissingSubmission,
    FatalInvalidScoreCalc,
    FatalInvalidScoreConv,
    CritResultsPool,
    WarnResultsNoPlatform,
    CritResultsGetLatest,
    CritResultsGetGroups,
    CritResultsGetValid,
    CritReportPool,
    CritReportInsert,
    CritReportInsertGroups,
    CritCanvasModelOpen,
    CritCanvasModelLoad,
    CritNoLeadingGroup,
    CritCanvasGroupColor,
    CritCanvasGroupInfo,
    CritCanvasWriteBytes,
    CritTwitterUpReqFail,
    CritTwitterUpRespFail,
    CritTwitterUpMediaInt,
    CritTwitterUpMediaGet,
    CritTwitterReqFail,
    CritTwitterRespFail,
}

/// The kinds that are not errors at all: they only redirect the client.
pub open spec fn spec_is_info(kind: ErrorKind) -> bool {
    ||| kind == ErrorKind::InfoNotWhitelisted
    ||| kind == ErrorKind::InfoNotEnoughSubs
    ||| kind == ErrorKind::InfoPollClosed
    ||| kind == ErrorKind::InfoAlreadyPolled
    ||| kind == ErrorKind::InfoIpBlocklisted
    ||| kind == ErrorKind::InfoAsnBlocklisted
}

/// The kinds caused by what the client sent.
pub open spec fn spec_is_client_error(kind: ErrorKind) -> bool {
    ||| kind == ErrorKind::WarnSetCsrfCookie
    ||| kind == ErrorKind::WarnSetDurationCookie
    ||| kind == ErrorKind::WarnGetCsrfCookie
    ||| kind == ErrorKind::WarnNoCsrfCookie
    ||| kind == ErrorKind::WarnDecodeCsrfCookie
    ||| kind == ErrorKind::WarnDecodeCsrfToken
    ||| kind == ErrorKind::WarnGetDurationCookie
    ||| kind == ErrorKind::WarnNoDurationCookie
    ||| kind == ErrorKind::SevereDurationOverflow
    ||| kind == ErrorKind::WarnSubmitNoPlatform
    ||| kind == ErrorKind::WarnResultsNoPlatform
    ||| kind == ErrorKind::WarnCsrfTokenInvalid
    ||| kind == ErrorKind::WarnInvalidAnswer
}

/// The HTTP status that answers an error of this kind.
pub open spec fn spec_status_code(kind: ErrorKind) -> u16 {
    if spec_is_info(kind) {
        200
    } else if spec_is_client_error(kind) {
        400
    } else {
        500
    }
}

/// Whether the client is answered a plain "OK" rather than the generic
/// error message.
pub open spec fn spec_answers_ok(kind: ErrorKind, hide_errors: bool) -> bool {
    spec_is_info(kind) || (spec_is_client_error(kind) && hide_errors)
}

impl ErrorKind {
    /// True for the kinds that are shown only in debug mode and answered
    /// with "200 OK".
    pub fn is_info(&self) -> (r: bool)
        ensures
            r == spec_is_info(*self),
    {
        match self {
            ErrorKind::InfoNotWhitelisted
            | ErrorKind::InfoNotEnoughSubs
            | ErrorKind::InfoPollClosed
            | ErrorKind::InfoAlreadyPolled
            | ErrorKind::InfoIpBlocklisted
            | ErrorKind::InfoAsnBlocklisted => true,
            _ => false,
        }
    }

    /// True for the kinds that come from the client's input.
    pub fn is_client_error(&self) -> (r: bool)
        ensures
            r == spec_is_client_error(*self),
    {
        match self {
            ErrorKind::WarnSetCsrfCookie
            | ErrorKind::WarnSetDurationCookie
            | ErrorKind::WarnGetCsrfCookie
            | ErrorKind::WarnNoCsrfCookie
            | ErrorKind::WarnDecodeCsrfCookie
            | ErrorKind::WarnDecodeCsrfToken
            | ErrorKind::WarnGetDurationCookie
            | ErrorKind::WarnNoDurationCookie
            | ErrorKind::SevereDurationOverflow
            | ErrorKind::WarnSubmitNoPlatform
            | ErrorKind::WarnResultsNoPlatform
            | ErrorKind::WarnCsrfTokenInvalid
            | ErrorKind::WarnInvalidAnswer => true,
            _ => false,
        }
    }
}

/// An error raised while serving a request: its kind and a diagnostic
/// message for the server's log.
#[derive(Debug)]
pub struct InstanceError {
    pub kind: ErrorKind,
    pub msg: String,
}

/// Builds the error of the given kind with the given message.
pub fn throw(error_kind: ErrorKind, error_msg: String) -> (e: InstanceError)
    ensures
        e.kind == error_kind,
        e.msg == error_msg,
{
    InstanceError { kind: error_kind, msg: error_msg }
}

impl InstanceError {
    /// The HTTP status of the answer: 200 for the informational kinds, 400
    /// for the client's errors, 500 otherwise.
    pub fn status_code(&self) -> (code: u16)
        ensures
            code == spec_status_code(self.kind),
    {
        if self.kind.is_info() {
            200
        } else if self.kind.is_client_error() {
            400
        } else {
            500
        }
    }

    /// The body of the answer: "OK" for the informational kinds, and for
    /// the client's errors when errors are hidden; the generic apology
    /// otherwise.
    pub fn response_body(&self, hide_errors: bool) -> (body: &'static str)
        ensures
            spec_answers_ok(self.kind, hide_errors) ==> body@ == "OK"@,
            !spec_answers_ok(self.kind, hide_errors) ==> body@ == "Une erreur a \u{e9}t\u{e9} rencontr\u{e9}e lors de l'ex\u{e9}cution de votre requ\u{ea}te. Veuillez r\u{e9}essayer plus tard !"@,
    {
        if self.kind.is_info() || (self.kind.is_client_error() && hide_errors) {
            "OK"
        } else {
            "Une erreur a \u{e9}t\u{e9} rencontr\u{e9}e lors de l'ex\u{e9}cution de votre requ\u{ea}te. Veuillez r\u{e9}essayer plus tard !"
        }
    }
}

/// No kind is both informational and a client error, so the status of an
/// answer is 200 exactly for the informational kinds and 400 exactly for
/// the client's errors.
pub proof fn lemma_error_classes_disjoint(kind: ErrorKind)
    ensures
        !(spec_is_info(kind) && spec_is_client_error(kind)),
        spec_status_code(kind) == 200 <==> spec_is_info(kind),
        spec_status_code(kind) == 400 <==> spec_is_client_error(kind),
        spec_status_code(kind) == 500 <==> !spec_is_info(kind) && !spec_is_client_error(kind),
{
}

/// How each kind is answered: the six informational kinds (those named
/// `Info…`) with "200 OK", the client's thirteen errors with 400 (and
/// "OK" when errors are hidden), and every other kind (the `Crit…`,
/// `Fatal…`, the other `Severe…` and `Warn…` kinds) with 500 and the
/// generic apology.
pub proof fn lemma_answer_of_each_kind(kind: ErrorKind, hide_errors: bool)
    ensures
        (kind == ErrorKind::InfoAlreadyPolled || kind == ErrorKind::InfoAsnBlocklisted || kind
            == ErrorKind::InfoNotWhitelisted || kind == ErrorKind::InfoIpBlocklisted || kind == ErrorKind::InfoPollClosed
            || kind == ErrorKind::InfoNotEnoughSubs) ==> spec_status_code(kind) == 200 && spec_answers_ok(
            kind,
            hide_errors,
        ),
        (kind == ErrorKind::WarnSetCsrfCookie || kind == ErrorKind::WarnSetDurationCookie || kind
            == ErrorKind::WarnGetCsrfCookie || kind == ErrorKind::WarnNoCsrfCookie || kind
            == ErrorKind::WarnDecodeCsrfCookie || kind == ErrorKind::WarnDecodeCsrfToken || kind
            == ErrorKind::WarnGetDurationCookie || kind == ErrorKind::WarnNoDurationCookie || kind
            == ErrorKind::SevereDurationOverflow || kind == ErrorKind::WarnSubmitNoPlatform || kind
            == ErrorKind::WarnResultsNoPlatform || kind == ErrorKind::WarnCsrfTokenInvalid || kind
            == ErrorKind::WarnInvalidAnswer) ==> spec_status_code(kind) == 400 && (spec_answers_ok(kind, hide_errors)
            <==> hide_errors),
        (kind == ErrorKind::SevereInvalidForm || kind == ErrorKind::FatalGenerateCsrf || kind
            == ErrorKind::WarnParseCsrfCookie || kind == ErrorKind::WarnParseCsrfToken || kind
            == ErrorKind::CritUnknownRemoteAddr || kind == ErrorKind::CritIpv4AddrConvert || kind
            == ErrorKind::CritIpNetworkConvert || kind == ErrorKind::CritInsertAddr || kind == ErrorKind::CritInsertSub
            || kind == ErrorKind::CritInsertSubChoices || kind == ErrorKind::CritSubmitPool || kind
            == ErrorKind::CritCheckAddress || kind == ErrorKind::CritAbuseIpDbApiFail || kind
            == ErrorKind::CritReportCountValid || kind == ErrorKind::CritReportCountTotal || kind
            == ErrorKind::CritReportGetValid || kind == ErrorKind::FatalUnmatchedChoice || kind
            == ErrorKind::FatalMissingSubmission || kind == ErrorKind::FatalInvalidScoreCalc || kind
            == ErrorKind::FatalInvalidScoreConv || kind == ErrorKind::CritResultsPool || kind
            == ErrorKind::CritResultsGetLatest || kind == ErrorKind::CritResultsGetGroups || kind
            == ErrorKind::CritResultsGetValid || kind == ErrorKind::CritReportPool || kind
            == ErrorKind::CritReportInsert || kind == ErrorKind::CritReportInsertGroups || kind
            == ErrorKind::CritCanvasModelOpen || kind == ErrorKind::CritCanvasModelLoad || kind
            == ErrorKind::CritNoLeadingGroup || kind == ErrorKind::CritCanvasGroupColor || kind
            == ErrorKind::CritCanvasGroupInfo || kind == ErrorKind::CritCanvasWriteBytes || kind
            == ErrorKind::CritTwitterUpReqFail || kind == ErrorKind::CritTwitterUpRespFail || kind
            == ErrorKind::CritTwitterUpMediaInt || kind == ErrorKind::CritTwitterUpMediaGet || kind
            == ErrorKind::CritTwitterReqFail || kind == ErrorKind::CritTwitterRespFail) ==> spec_status_code(kind) == 500
            && !spec_answers_ok(kind, hide_errors),
{
}

} // verus!
