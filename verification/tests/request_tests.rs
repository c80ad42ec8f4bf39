use bellande_probability::json::JsonValue;
use bellande_probability::request::{
    auth_value, default_base_url, endpoint_path, parse_json_argument, prepare_coordinate_request,
    prepare_function_request, BellandeError,
};

#[test]
fn endpoint_opensource_suffix() {
    let e = endpoint_path("https://example.org/api/Bellande_Probability", false);
    assert_eq!(e, "https://example.org/api/Bellande_Probability/bellande_probability");
    assert!(e.ends_with("/bellande_probability"));
}

#[test]
fn endpoint_full_auth_suffix() {
    let e = endpoint_path("https://example.org/api/Bellande_Probability", true);
    assert_eq!(e, "https://example.org/api/Bellande_Probability/bellande_probability_full_auth");
    assert!(e.ends_with("/bellande_probability_full_auth"));
}

#[test]
fn default_base_is_the_service() {
    assert_eq!(
        default_base_url(),
        "https://bellande-robotics-sensors-research-innovation-center.org/api/Bellande_Probability"
    );
}

#[test]
fn auth_object_opensource() {
    let a = auth_value(false);
    assert_eq!(a.serialize(), "{\"authorization_key\":\"bellande_web_api_opensource\"}");
}

#[test]
fn auth_object_full() {
    let a = auth_value(true);
    assert_eq!(a.serialize(), "{\"full_authorization_key\":\"bellande_web_api_full_auth\"}");
}

#[test]
fn coordinate_request_example() {
    let r = prepare_coordinate_request("https://b", "[0,0]", "[1,1]", "0.5", 2, false).unwrap();
    assert_eq!(r.0, "https://b/bellande_probability");
    assert_eq!(
        r.1,
        "{\"node0\":[0,0],\"node1\":[1,1],\"threshold\":0.5,\"dimensions\":2,\
         \"auth\":{\"authorization_key\":\"bellande_web_api_opensource\"}}"
    );
}

#[test]
fn coordinate_request_full_auth() {
    let r = prepare_coordinate_request("https://b", "[0]", "[2]", "1", 1, true).unwrap();
    assert_eq!(r.0, "https://b/bellande_probability_full_auth");
    assert_eq!(
        r.1,
        "{\"node0\":[0],\"node1\":[2],\"threshold\":1,\"dimensions\":1,\
         \"auth\":{\"full_authorization_key\":\"bellande_web_api_full_auth\"}}"
    );
}

#[test]
fn function_request_body() {
    let r = prepare_function_request(
        "https://b",
        String::from("x0 + 1"),
        String::from("0.3"),
        "[1,2,3]",
        3,
        false,
    )
    .unwrap();
    assert_eq!(r.0, "https://b/bellande_probability");
    assert_eq!(
        r.1,
        "{\"mu_func\":\"x0 + 1\",\"sigma_func\":\"0.3\",\"x\":[1,2,3],\"dimensions\":3,\
         \"auth\":{\"authorization_key\":\"bellande_web_api_opensource\"}}"
    );
}

#[test]
fn malformed_vector_is_a_parse_error() {
    let r = prepare_coordinate_request("https://b", "[1,2", "[1,1]", "0.5", 2, false);
    assert!(matches!(r, Err(BellandeError::Parse(_))));
}

#[test]
fn malformed_second_vector_is_a_parse_error() {
    let r = prepare_coordinate_request("https://b", "[1,2]", "oops", "0.5", 2, false);
    assert!(matches!(r, Err(BellandeError::Parse(_))));
}

#[test]
fn malformed_x_is_a_parse_error() {
    let r = prepare_function_request("https://b", String::new(), String::new(), "{", 1, false);
    assert!(matches!(r, Err(BellandeError::Parse(_))));
}

#[test]
fn negative_dimensions_in_body() {
    let r = prepare_coordinate_request("https://b", "[0]", "[1]", "0.5", -2147483648, false)
        .unwrap();
    assert!(r.1.contains("\"dimensions\":-2147483648,"));
}

#[test]
fn zero_dimensions_in_body() {
    let r = prepare_coordinate_request("https://b", "[0]", "[1]", "0.5", 0, true).unwrap();
    assert!(r.1.contains("\"dimensions\":0,"));
}

#[test]
fn parse_error_message_text() {
    let e = parse_json_argument("[1,2").unwrap_err();
    assert_eq!(e.message(), "invalid JSON in argument");
}

#[test]
fn parse_accepts_whitespace_and_nesting() {
    let v = parse_json_argument(" { \"a\" : [ 1 , -2.5e3 , null , true , false ] , \"b\" : { } } ")
        .unwrap();
    assert_eq!(v.serialize(), "{\"a\":[1,-2.5e3,null,true,false],\"b\":{}}");
}

#[test]
fn parse_rejects_trailing_garbage() {
    assert!(parse_json_argument("[1,2] x").is_err());
}

#[test]
fn parse_rejects_leading_zero() {
    assert!(parse_json_argument("[01]").is_err());
}

#[test]
fn parse_rejects_lone_minus() {
    assert!(parse_json_argument("-").is_err());
}

#[test]
fn parse_rejects_unescaped_control() {
    assert!(parse_json_argument("\"a\u{1}b\"").is_err());
}

#[test]
fn parse_rejects_surrogate_escape() {
    assert!(parse_json_argument("\"\\ud800\"").is_err());
}

#[test]
fn parse_unescapes_strings() {
    let v = parse_json_argument("\"a\\u0041\\n\\\"\\\\\"").unwrap();
    match &v {
        JsonValue::Text(t) => assert_eq!(t, "aA\n\"\\"),
        _ => panic!("expected a string"),
    }
    assert_eq!(v.serialize(), "\"aA\\n\\\"\\\\\"");
}

#[test]
fn parse_accepts_number_forms() {
    for t in ["-0", "1e5", "0.5e-3", "-12.75E+2", "0", "null", "true", "false"] {
        assert!(parse_json_argument(t).is_ok(), "{t} should parse");
    }
}

#[test]
fn parse_rejects_malformed_forms() {
    for t in ["1.", "1e", "+1", ".5", "[1,]", "{\"a\":}", "nullx", "{\"a\"}", "", "\"open"] {
        assert!(parse_json_argument(t).is_err(), "{t} should be rejected");
    }
}

#[test]
fn serializer_uses_short_escapes() {
    let v = JsonValue::Text(String::from("\u{8}\u{c}\r\t"));
    assert_eq!(v.serialize(), "\"\\b\\f\\r\\t\"");
    let w = parse_json_argument("\"\\b\\f\\r\\t\"").unwrap();
    match w {
        JsonValue::Text(t) => assert_eq!(t, "\u{8}\u{c}\r\t"),
        _ => panic!("expected a string"),
    }
}

#[test]
fn serializer_escapes_strings() {
    let v = JsonValue::Text(String::from("a\"b\\c\nd\u{1}"));
    assert_eq!(v.serialize(), "\"a\\\"b\\\\c\\nd\\u0001\"");
}
