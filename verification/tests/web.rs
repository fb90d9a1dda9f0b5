use linksuggestion_core::web::{ApiResponse, AppState};

#[test]
fn successful_answer_carries_data() {
    let r = ApiResponse::ok(vec![1, 2, 3]);
    assert!(r.success);
    assert_eq!(r.data, Some(vec![1, 2, 3]));
    assert_eq!(r.error, None);
}

#[test]
fn failed_answer_carries_the_error() {
    let r: ApiResponse<()> = ApiResponse::failed("no such article".to_string());
    assert!(!r.success);
    assert_eq!(r.data, None);
    assert_eq!(r.error, Some("no such article".to_string()));
    let _state = AppState {};
}
