use blindspot::fetch::{next_fetch_step, FetchAction, FetchEvent};

#[test]
fn endpoints_tried_in_order_until_one_answers() {
    assert!(matches!(next_fetch_step(0, 3, FetchEvent::Failed), FetchAction::TryEndpoint(1)));
    assert!(matches!(next_fetch_step(1, 3, FetchEvent::Parsed), FetchAction::Done(Some(1))));
    assert!(matches!(next_fetch_step(2, 3, FetchEvent::Failed), FetchAction::Done(None)));
    assert!(matches!(next_fetch_step(2, 3, FetchEvent::Parsed), FetchAction::Done(Some(2))));
}
