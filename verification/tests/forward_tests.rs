use packet_log::forward::{classify_response, InferenceOutcome};

#[test]
fn structured_reply() {
    let body = String::from("{\"label\":\"ok\",\"score\":3}");
    match classify_response(true, 200, body) {
        Ok(InferenceOutcome::Structured(v)) => {
            assert_eq!(v["label"], serde_json::Value::String(String::from("ok")));
            assert_eq!(v["score"], serde_json::Value::from(3));
        },
        other => panic!("expected a structured outcome, got {:?}", other.is_ok()),
    }
}

#[test]
fn raw_text_reply() {
    let body = String::from("all good");
    match classify_response(true, 200, body) {
        Ok(InferenceOutcome::Raw(t)) => assert_eq!(t, "all good"),
        _ => panic!("expected the raw text outcome"),
    }
}

#[test]
fn failed_reply_carries_status_and_detail() {
    match classify_response(false, 503, String::from("overloaded")) {
        Err(e) => {
            assert_eq!(e.status, 503);
            assert_eq!(e.detail, "overloaded");
        },
        Ok(_) => panic!("expected a forwarding error"),
    }
}

#[test]
fn json_array_and_number_bodies_are_structured() {
    assert!(matches!(
        classify_response(true, 200, String::from("[1,2]")),
        Ok(InferenceOutcome::Structured(_))
    ));
    assert!(matches!(
        classify_response(true, 200, String::from("17")),
        Ok(InferenceOutcome::Structured(_))
    ));
    assert!(matches!(
        classify_response(true, 200, String::from("{broken")),
        Ok(InferenceOutcome::Raw(_))
    ));
}
