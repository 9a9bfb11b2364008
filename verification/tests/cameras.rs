use blindspot::cameras::{
    insert_outcome, is_circular_type, pick_duplicate, plan_cross_source, plan_insert, source_clause,
    type_has_direction, CrossSourcePlan, DuplicateCandidate, DuplicateMatch, InsertPlan,
};

fn cand(id: i64, near: bool, agree: Option<bool>) -> DuplicateCandidate {
    DuplicateCandidate { id, within_radius: near, directions_agree: agree }
}

#[test]
fn confident_match_beats_earlier_ambiguous_one() {
    let c = vec![cand(1, true, None), cand(2, false, Some(true)), cand(3, true, Some(true)), cand(4, true, Some(true))];
    let m = pick_duplicate(&c, true).unwrap();
    assert_eq!((m.id, m.confident), (3, true));
}

#[test]
fn first_near_is_confident_without_direction_type() {
    let c = vec![cand(1, false, Some(true)), cand(2, true, Some(false)), cand(3, true, None)];
    let m = pick_duplicate(&c, false).unwrap();
    assert_eq!((m.id, m.confident), (2, true));
}

#[test]
fn fixed_camera_without_known_direction_is_ambiguous() {
    let c = vec![cand(6, true, None)];
    let m = pick_duplicate(&c, true).unwrap();
    assert_eq!((m.id, m.confident), (6, false));
}

#[test]
fn no_near_candidate_no_duplicate() {
    let c = vec![cand(1, false, Some(true))];
    assert!(pick_duplicate(&c, true).is_none());
    assert!(pick_duplicate(&vec![], true).is_none());
}

#[test]
fn disagreeing_directions_are_ambiguous() {
    let c = vec![cand(5, true, Some(false))];
    let m = pick_duplicate(&c, true).unwrap();
    assert_eq!((m.id, m.confident), (5, false));
}

#[test]
fn only_fixed_has_direction() {
    assert!(type_has_direction("fixed"));
    assert!(!type_has_direction("dome"));
    assert!(is_circular_type("panoramic"));
    assert!(is_circular_type("ptz"));
    assert!(!is_circular_type("fixed"));
}

#[test]
fn insert_plans() {
    let p = plan_insert(Some(DuplicateMatch { id: 4, confident: true }));
    assert!(matches!(p, InsertPlan::Corroborate(4)));
    let o = insert_outcome(&p, 99);
    assert_eq!((o.id, o.merged), (4, true));
    let p = plan_insert(Some(DuplicateMatch { id: 4, confident: false }));
    assert!(matches!(p, InsertPlan::Insert { flag_duplicate_of: Some(4) }));
    let o = insert_outcome(&p, 99);
    assert_eq!((o.id, o.merged), (99, false));
    assert!(matches!(plan_insert(None), InsertPlan::Insert { flag_duplicate_of: None }));
}

#[test]
fn cross_source_plans() {
    assert!(matches!(
        plan_cross_source(Some(DuplicateMatch { id: 2, confident: true }), 10),
        CrossSourcePlan::DeleteCommunity { community_id: 2, corroborate_id: 10 }
    ));
    assert!(matches!(
        plan_cross_source(Some(DuplicateMatch { id: 2, confident: false }), 10),
        CrossSourcePlan::FlagCommunity { community_id: 2, duplicate_of: 10 }
    ));
    assert!(matches!(plan_cross_source(None, 10), CrossSourcePlan::Nothing));
}

#[test]
fn source_clauses() {
    assert_eq!(source_clause(Some("osm")), " AND source = 'osm'");
    assert_eq!(source_clause(Some("user")), " AND source = 'user'");
    assert_eq!(source_clause(Some("inferred")), "");
    assert_eq!(source_clause(None), "");
}
