use blindspot::valhalla::{decode_polyline6, decode_varint, ValhallaError};

#[test]
fn decodes_reference_polyline() {
    // Reference example of the polyline algorithm; the integers do not depend on precision.
    let pts = decode_polyline6(b"_p~iF~ps|U_ulLnnqC_mqNvxq`@").unwrap();
    assert_eq!(pts, vec![(3850000, -12020000), (4070000, -12095000), (4325200, -12645300)]);
}

#[test]
fn decode_single_varint() {
    // "?" encodes 0, "@" encodes -1, "A" encodes 1, "_p~iF" encodes 3850000
    assert_eq!(decode_varint(b"?", 0), (0, 1));
    assert_eq!(decode_varint(b"@", 0), (-1, 1));
    assert_eq!(decode_varint(b"A", 0), (1, 1));
    assert_eq!(decode_varint(b"_p~iF", 0), (3850000, 5));
    assert_eq!(decode_varint(b"xx_p~iF", 2), (3850000, 7));
}

#[test]
fn empty_polyline_has_no_points() {
    assert_eq!(decode_polyline6(b""), Some(vec![]));
}

#[test]
fn truncated_polyline_is_rejected() {
    // a latitude without longitude
    assert_eq!(decode_polyline6(b"_p~iF"), None);
    // a value without its last chunk
    assert_eq!(decode_polyline6(b"_p~"), None);
}

#[test]
fn valhalla_error_messages() {
    let e = ValhallaError { error: Some("No path".to_string()), error_code: Some(442) };
    assert_eq!(e.message(), Some("Valhalla 442 — No path".to_string()));
    let e = ValhallaError { error: Some("oops".to_string()), error_code: None };
    assert_eq!(e.message(), Some("Valhalla — oops".to_string()));
    let e = ValhallaError { error: None, error_code: Some(1) };
    assert_eq!(e.message(), None);
}
