use blindspot::ors::{OrsErrorBody, OrsErrorDetail};

#[test]
fn structured_error_with_code() {
    let b = OrsErrorBody::Structured {
        error: OrsErrorDetail { code: Some(2010), message: "Route could not be found".to_string() },
    };
    assert_eq!(b.message(), "ORS 2010 — Route could not be found");
}

#[test]
fn structured_error_without_code() {
    let b = OrsErrorBody::Structured { error: OrsErrorDetail { code: None, message: "bad".to_string() } };
    assert_eq!(b.message(), "ORS — bad");
}

#[test]
fn simple_error() {
    let b = OrsErrorBody::Simple { error: "Access denied".to_string() };
    assert_eq!(b.message(), "ORS — Access denied");
}

#[test]
fn zero_code() {
    let b = OrsErrorBody::Structured { error: OrsErrorDetail { code: Some(0), message: "m".to_string() } };
    assert_eq!(b.message(), "ORS 0 — m");
}
