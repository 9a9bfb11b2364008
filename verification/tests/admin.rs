use blindspot::admin::{
    camera_filter, check_admin, escape_quotes, export_document, export_node, export_text_tag, export_type_tag,
    is_editable_cam_type, page_count, page_window, placeholders, AdminCamerasQuery,
};
use blindspot::error::AppError;

fn q(source: Option<&str>, t: Option<&str>, reported: Option<bool>) -> AdminCamerasQuery {
    AdminCamerasQuery {
        page: None,
        limit: None,
        source: source.map(|s| s.to_string()),
        cam_type: t.map(|s| s.to_string()),
        reported,
    }
}

#[test]
fn admin_token() {
    assert!(check_admin(Some("Bearer s3cret"), "s3cret").is_ok());
    assert!(matches!(check_admin(Some("Bearer nope"), "s3cret"), Err(AppError::Unauthorized)));
    assert!(matches!(check_admin(None, "s3cret"), Err(AppError::Unauthorized)));
    match check_admin(Some("Bearer "), "") {
        Err(AppError::BadRequest(m)) => assert_eq!(m, "ADMIN_TOKEN non configuré sur le serveur"),
        _ => panic!("expected BadRequest"),
    }
}

#[test]
fn pages() {
    let w = page_window(None, None);
    assert_eq!((w.page, w.limit, w.offset), (1, 50, 0));
    let w = page_window(Some(3), Some(500));
    assert_eq!((w.page, w.limit, w.offset), (3, 200, 400));
    let w = page_window(Some(-2), Some(0));
    assert_eq!((w.page, w.limit, w.offset), (1, 1, 0));
    assert_eq!(page_count(0, 50), 0);
    assert_eq!(page_count(100, 50), 2);
    assert_eq!(page_count(101, 50), 3);
}

#[test]
fn filters() {
    assert_eq!(camera_filter(&q(None, None, None)).ok(), Some(String::new()));
    assert_eq!(
        camera_filter(&q(Some("osm"), Some("ptz"), Some(true))).ok(),
        Some("WHERE source = 'osm' AND cam_type = 'ptz' AND report_count > 0".to_string())
    );
    assert_eq!(camera_filter(&q(None, None, Some(true))).ok(), Some("WHERE report_count > 0".to_string()));
    match camera_filter(&q(Some("evil'"), Some("ptz"), None)) {
        Err(AppError::BadRequest(m)) => assert_eq!(m, "source invalide"),
        _ => panic!("expected error"),
    }
    match camera_filter(&q(Some("user"), Some("dome"), None)) {
        Err(AppError::BadRequest(m)) => assert_eq!(m, "cam_type invalide"),
        _ => panic!("expected error"),
    }
}

#[test]
fn editable_types() {
    assert!(is_editable_cam_type("unknown"));
    assert!(!is_editable_cam_type("panoramic"));
}

#[test]
fn bulk_placeholders() {
    assert_eq!(placeholders(0), "");
    assert_eq!(placeholders(1), "?");
    assert_eq!(placeholders(3), "?,?,?");
}

#[test]
fn export_tags() {
    assert_eq!(escape_quotes(r#"a "b" c"#), "a &quot;b&quot; c");
    assert_eq!(export_type_tag("ptz"), "    <tag k=\"camera:type\" v=\"dome\"/>\n");
    assert_eq!(export_type_tag("fixed"), "    <tag k=\"camera:type\" v=\"fixed\"/>\n");
    assert_eq!(export_type_tag("unknown"), "");
    assert_eq!(export_text_tag("note", Some("x\"y")), "    <tag k=\"note\" v=\"x&quot;y\"/>\n");
    assert_eq!(export_text_tag("name", Some("")), "");
    assert_eq!(export_text_tag("name", None), "");
}

#[test]
fn export_node_layout() {
    let node = export_node(0, "45.5000000", "-73.6000000", "ptz", Some("90"), Some("Gare \"Centrale\""), None);
    let expected = "  <node id=\"-1\" lat=\"45.5000000\" lon=\"-73.6000000\" version=\"1\" action=\"create\">\n\
                    \x20   <tag k=\"camera:type\" v=\"dome\"/>\n\
                    \x20   <tag k=\"direction\" v=\"90\"/>\n\
                    \x20   <tag k=\"name\" v=\"Gare &quot;Centrale&quot;\"/>\n\
                    \t<tag k=\"man_made\" v=\"surveillance\"/>\n\
                    \t<tag k=\"surveillance\" v=\"outdoor\"/>\n\
                    \t<tag k=\"surveillance:type\" v=\"camera\"/>\n\
                    \t<tag k=\"source\" v=\"survey\"/>\n\
                    \t<tag k=\"note:source\" v=\"BlindSpot MTL\"/>\n\
                    </node>\n";
    assert_eq!(node, expected);

    let plain = export_node(41, "1", "2", "unknown", None, Some(""), Some("n"));
    assert!(plain.starts_with("  <node id=\"-42\" lat=\"1\" lon=\"2\""));
    assert!(!plain.contains("camera:type"));
    assert!(!plain.contains("direction"));
    assert!(!plain.contains("k=\"name\""));
    assert!(plain.contains("    <tag k=\"note\" v=\"n\"/>\n\t<tag k=\"man_made\""));
}

#[test]
fn export_document_layout() {
    assert_eq!(
        export_document("X"),
        "<?xml version=\"1.0\" encoding=\"UTF-8\"?>\n<osm version=\"0.6\" generator=\"BlindSpot MTL\">\nX</osm>\n"
    );
}
