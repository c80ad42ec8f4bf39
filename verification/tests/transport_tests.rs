use bellande_probability::request::{decode_response, prepare_coordinate_request, prepare_function_request, BellandeError};

// With a transport that echoes the request body, the value decoded from the
// response equals the value that was sent: nothing in the payload is
// silently changed on the way through.
#[test]
fn echoed_body_round_trips() {
    let (_, body) =
        prepare_coordinate_request("https://b", "[0,0]", "[1,1]", "0.5", 2, false).unwrap();
    let echoed = body.clone();
    let v = decode_response(&echoed).unwrap();
    assert_eq!(v.serialize(), body);
}

#[test]
fn echoed_function_body_round_trips() {
    let (_, body) = prepare_function_request(
        "https://b",
        String::from("sin(x)"),
        String::from("1e-3"),
        "[[1,2],[3,4]]",
        2,
        true,
    )
    .unwrap();
    let v = decode_response(&body).unwrap();
    assert_eq!(v.serialize(), body);
}

#[test]
fn non_json_response_is_a_transport_error() {
    let r = decode_response("connection refused");
    assert!(matches!(r, Err(BellandeError::Transport(_))));
}

#[test]
fn empty_response_is_a_transport_error() {
    assert!(matches!(decode_response(""), Err(BellandeError::Transport(_))));
}

// The body this library emits is valid JSON for an independent decoder, and
// carries the fields the service expects.
#[test]
fn body_is_valid_json_for_serde() {
    let (_, body) =
        prepare_coordinate_request("https://b", "[0,0]", "[1,1]", "0.5", 2, false).unwrap();
    let v: serde_json::Value = serde_json::from_str(&body).unwrap();
    assert_eq!(v["auth"]["authorization_key"].as_str(), Some("bellande_web_api_opensource"));
    assert_eq!(v["dimensions"].as_i64(), Some(2));
    assert_eq!(v["threshold"].as_f64(), Some(0.5));
    assert_eq!(v["node0"][1].as_i64(), Some(0));
}

#[test]
fn full_auth_body_is_valid_json_for_serde() {
    let (_, body) = prepare_function_request(
        "https://b",
        String::from("mu \"q\" \\ μ"),
        String::from("s"),
        "[1]",
        1,
        true,
    )
    .unwrap();
    let v: serde_json::Value = serde_json::from_str(&body).unwrap();
    assert_eq!(v["auth"]["full_authorization_key"].as_str(), Some("bellande_web_api_full_auth"));
    assert_eq!(v["mu_func"].as_str(), Some("mu \"q\" \\ μ"));
}
