use rover::appstate::{lpm_param, lpm_report_url, AppError, SaveDraftPayload};

#[test]
fn error_answers() {
    assert_eq!(AppError::NotFound.response_parts(), (404, "Item not found".to_string()));
    let e = AppError::InternalError(anyhow::Error::msg("disk on fire"));
    assert_eq!(e.response_parts(), (500, "An internal error occurred".to_string()));
}

#[test]
fn layer_parameter() {
    assert!(matches!(lpm_param(None), Err(AppError::NotFound)));
    assert!(matches!(lpm_param(Some(String::new())), Err(AppError::NotFound)));
    assert!(matches!(lpm_param(Some("1203".to_string())), Ok(s) if s == "1203"));
}

#[test]
fn report_address() {
    assert_eq!(
        lpm_report_url("1203"),
        "https://bhunaksha.ap.gov.in/bhunakshalpm/rest/Reports/SinglePlotReportPDFUrl?giscode=2434007&state=28&plotno=1203"
    );
}

#[test]
fn draft_payload_holds_a_name() {
    let p = SaveDraftPayload { name: "North field".to_string() };
    assert_eq!(p.name, "North field");
}
