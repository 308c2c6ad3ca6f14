//! Errors answered by the web API, and the small decisions the handlers make on their inputs.
use vstd::prelude::*;

verus! {

/// `anyhow::Error`, carried inside `AppError::InternalError`.
#[verifier::external_type_specification]
#[verifier::external_body]
pub struct ExAnyhowError(anyhow::Error);

/// An error answered by the web API.
pub enum AppError {
    /// The item asked for is not there.
    NotFound,
    /// Something failed inside the server.
    InternalError(anyhow::Error),
}

impl AppError {
    /// The HTTP status and body answered for the error: 404 with `Item not found`, or 500
    /// with a message that hides the internal cause.
    pub fn response_parts(&self) -> (res: (u16, String))
        ensures
            self is NotFound ==> res.0 == 404 && res.1@ == "Item not found"@,
            self is InternalError ==> res.0 == 500 && res.1@ == "An internal error occurred"@,
    {
        match self {
            AppError::NotFound => (404, String::from_str("Item not found")),
            AppError::InternalError(_) => (500, String::from_str("An internal error occurred")),
        }
    }
}

/// The body of a request that saves the draft as a track.
pub struct SaveDraftPayload {
    pub name: String,
}

/// The plot number asked for by a layers request: missing or empty is not found.
pub fn lpm_param(lpm: Option<String>) -> (res: Result<String, AppError>)
    ensures
        lpm is None ==> (res matches Err(e) && e is NotFound),
        lpm matches Some(s) ==> (s@.len() == 0 ==> (res matches Err(e) && e is NotFound)),
        lpm matches Some(s) ==> (s@.len() > 0 ==> (res matches Ok(t) && t@ == s@)),
{
    match lpm {
        None => Err(AppError::NotFound),
        Some(s) => {
            if s.as_str().is_empty() {
                Err(AppError::NotFound)
            } else {
                Ok(s)
            }
        },
    }
}

/// The address of the single-plot report of plot `lpm`.
pub open spec fn lpm_report_url_spec(lpm: Seq<char>) -> Seq<char> {
    "https://bhunaksha.ap.gov.in/bhunakshalpm/rest/Reports/SinglePlotReportPDFUrl?giscode=2434007&state=28&plotno="@
        + lpm
}

/// The address of the single-plot report of plot `lpm`.
pub fn lpm_report_url(lpm: &str) -> (res: String)
    ensures
        res@ == lpm_report_url_spec(lpm@),
{
    let mut url = String::from_str(
        "https://bhunaksha.ap.gov.in/bhunakshalpm/rest/Reports/SinglePlotReportPDFUrl?giscode=2434007&state=28&plotno=",
    );
    url.append(lpm);
    url
}

} // verus!
