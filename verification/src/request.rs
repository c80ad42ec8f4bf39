//! Request construction for the Bellande probability service.
//!
//! A single boolean flag picks both the endpoint path and the fixed
//! authentication object; the caller's parameters are embedded in a JSON
//! body next to that object. Both are pinned down exactly: the endpoint is
//! the base URL plus one of two suffixes, and the body is the serialized
//! text of the payload value these spec functions describe.

use crate::json::{dec_int, jval, jval_fields, ser, JsonVal, JsonValue};
use crate::parse::parse_json;
use vstd::prelude::*;
use vstd::string::StringExecFns;

verus! {

broadcast use vstd::std_specs::vec::group_vec_axioms, vstd::seq::group_seq_axioms;

/// An error of this library: the caller's text was not JSON, or the
/// transport (or the decoding of what it returned) failed.
#[derive(Debug)]
pub enum BellandeError {
    Parse(String),
    Transport(String),
}

/// The error's text.
pub open spec fn error_text(e: BellandeError) -> Seq<char> {
    match e {
        BellandeError::Parse(m) => m@,
        BellandeError::Transport(m) => m@,
    }
}

impl BellandeError {
    /// The message carried by the error.
    pub fn message(&self) -> (r: &String)
        ensures
            r@ == error_text(*self),
    {
        match self {
            BellandeError::Parse(m) => m,
            BellandeError::Transport(m) => m,
        }
    }
}

/// The path appended to the base URL, by authentication tier.
pub open spec fn endpoint_suffix(full_auth: bool) -> Seq<char> {
    if full_auth {
        "/bellande_probability_full_auth"@
    } else {
        "/bellande_probability"@
    }
}

/// The full endpoint: the base URL followed by the tier's suffix.
pub open spec fn endpoint_text(base: Seq<char>, full_auth: bool) -> Seq<char> {
    base + endpoint_suffix(full_auth)
}

/// The fixed service base URL used when the caller supplies none.
pub open spec fn default_base_text() -> Seq<char> {
    "https://bellande-robotics-sensors-research-innovation-center.org/api/Bellande_Probability"@
}

/// The fixed service base URL used when the caller supplies none.
pub fn default_base_url() -> (r: String)
    ensures
        r@ == default_base_text(),
{
    String::from_str(
        "https://bellande-robotics-sensors-research-innovation-center.org/api/Bellande_Probability",
    )
}

/// The endpoint for one request.
pub fn endpoint_path(base_url: &str, full_auth: bool) -> (r: String)
    ensures
        r@ == endpoint_text(base_url@, full_auth),
{
    let b = String::from_str(base_url);
    if full_auth {
        b.concat("/bellande_probability_full_auth")
    } else {
        b.concat("/bellande_probability")
    }
}

/// The key of the authentication object, by tier.
pub open spec fn auth_key(full_auth: bool) -> Seq<char> {
    if full_auth {
        "full_authorization_key"@
    } else {
        "authorization_key"@
    }
}

/// The fixed credential literal, by tier.
pub open spec fn auth_token(full_auth: bool) -> Seq<char> {
    if full_auth {
        "bellande_web_api_full_auth"@
    } else {
        "bellande_web_api_opensource"@
    }
}

/// The authentication object: one member, keyed and valued by the tier.
pub open spec fn auth_val(full_auth: bool) -> JsonVal {
    JsonVal::Object(seq![(auth_key(full_auth), JsonVal::Text(auth_token(full_auth)))])
}

/// Builds the authentication object for the chosen tier.
pub fn auth_value(full_auth: bool) -> (r: JsonValue)
    ensures
        r@ == auth_val(full_auth),
{
    let key = if full_auth {
        String::from_str("full_authorization_key")
    } else {
        String::from_str("authorization_key")
    };
    let tok = if full_auth {
        String::from_str("bellande_web_api_full_auth")
    } else {
        String::from_str("bellande_web_api_opensource")
    };
    let mut fields: Vec<(String, JsonValue)> = Vec::new();
    fields.push((key, JsonValue::Text(tok)));
    proof {
        assert(jval(JsonValue::Text(tok)) == JsonVal::Text(tok@));
        lemma_fields_model(fields@, auth_val(full_auth));
    }
    JsonValue::Object(fields)
}

/// The parameters of one request: the two shapes the service accepts.
pub enum RequestParams {
    FunctionBased { mu_func: String, sigma_func: String, x: JsonValue, dimensions: i32 },
    CoordinateBased { node0: JsonValue, node1: JsonValue, threshold: JsonValue, dimensions: i32 },
}

/// The body of a function-based request.
pub open spec fn function_payload(
    mu: Seq<char>,
    sigma: Seq<char>,
    x: JsonVal,
    dimensions: int,
    full_auth: bool,
) -> JsonVal {
    JsonVal::Object(
        seq![
            ("mu_func"@, JsonVal::Text(mu)),
            ("sigma_func"@, JsonVal::Text(sigma)),
            ("x"@, x),
            ("dimensions"@, JsonVal::Number(dec_int(dimensions))),
            ("auth"@, auth_val(full_auth)),
        ],
    )
}

/// The body of a coordinate-based request.
pub open spec fn coordinate_payload(
    node0: JsonVal,
    node1: JsonVal,
    threshold: JsonVal,
    dimensions: int,
    full_auth: bool,
) -> JsonVal {
    JsonVal::Object(
        seq![
            ("node0"@, node0),
            ("node1"@, node1),
            ("threshold"@, threshold),
            ("dimensions"@, JsonVal::Number(dec_int(dimensions))),
            ("auth"@, auth_val(full_auth)),
        ],
    )
}

/// The body for a parameter set.
pub open spec fn payload_val(p: RequestParams, full_auth: bool) -> JsonVal {
    match p {
        RequestParams::FunctionBased { mu_func, sigma_func, x, dimensions } => function_payload(
            mu_func@,
            sigma_func@,
            jval(x),
            dimensions as int,
            full_auth,
        ),
        RequestParams::CoordinateBased { node0, node1, threshold, dimensions } => coordinate_payload(
            jval(node0),
            jval(node1),
            jval(threshold),
            dimensions as int,
            full_auth,
        ),
    }
}

/// Builds the JSON body value for a parameter set.
pub fn build_payload(params: RequestParams, full_auth: bool) -> (r: JsonValue)
    ensures
        r@ == payload_val(params, full_auth),
{
    let ghost p = params;
    match params {
        RequestParams::FunctionBased { mu_func, sigma_func, x, dimensions } => {
            let mut fields: Vec<(String, JsonValue)> = Vec::new();
            fields.push((String::from_str("mu_func"), JsonValue::Text(mu_func)));
            fields.push((String::from_str("sigma_func"), JsonValue::Text(sigma_func)));
            fields.push((String::from_str("x"), x));
            fields.push((String::from_str("dimensions"), JsonValue::from_i32(dimensions)));
            fields.push((String::from_str("auth"), auth_value(full_auth)));
            proof {
                lemma_fields_model(fields@, payload_val(p, full_auth));
            }
            JsonValue::Object(fields)
        },
        RequestParams::CoordinateBased { node0, node1, threshold, dimensions } => {
            let mut fields: Vec<(String, JsonValue)> = Vec::new();
            fields.push((String::from_str("node0"), node0));
            fields.push((String::from_str("node1"), node1));
            fields.push((String::from_str("threshold"), threshold));
            fields.push((String::from_str("dimensions"), JsonValue::from_i32(dimensions)));
            fields.push((String::from_str("auth"), auth_value(full_auth)));
            proof {
                lemma_fields_model(fields@, payload_val(p, full_auth));
            }
            JsonValue::Object(fields)
        },
    }
}

/// If each member of `fields` models the matching member of the object `v`,
/// the whole vector models the object's members.
proof fn lemma_fields_model(fields: Seq<(String, JsonValue)>, v: JsonVal)
    requires
        v is Object,
        fields.len() == v->Object_0.len(),
        forall|i: int|
            0 <= i < fields.len() ==> v->Object_0[i] == (fields[i].0@, jval(fields[i].1)),
    ensures
        jval_fields(fields) == v->Object_0,
    decreases fields.len(),
{
    if fields.len() == 0 {
        assert(jval_fields(fields) =~= v->Object_0);
    } else {
        lemma_fields_model_rec(fields);
        assert(jval_fields(fields) =~= v->Object_0);
    }
}

/// Each member of the model corresponds to the member of the vector.
proof fn lemma_fields_model_rec(fields: Seq<(String, JsonValue)>)
    ensures
        jval_fields(fields).len() == fields.len(),
        forall|i: int|
            0 <= i < fields.len() ==> jval_fields(fields)[i] == (fields[i].0@, jval(fields[i].1)),
    decreases fields.len(),
{
    if fields.len() > 0 {
        lemma_fields_model_rec(fields.drop_first());
        assert forall|i: int| 0 <= i < fields.len() implies jval_fields(fields)[i] == (
            fields[i].0@,
            jval(fields[i].1),
        ) by {
            if i > 0 {
                assert(jval_fields(fields)[i] == jval_fields(fields.drop_first())[i - 1]);
                assert(fields.drop_first()[i - 1] == fields[i]);
            }
        }
    }
}

/// Builds the endpoint and the serialized body for one request.
pub fn build_request(base_url: &str, params: RequestParams, full_auth: bool) -> (r: (
    String,
    String,
))
    ensures
        r.0@ == endpoint_text(base_url@, full_auth),
        r.1@ == ser(payload_val(params, full_auth)),
{
    let endpoint = endpoint_path(base_url, full_auth);
    let payload = build_payload(params, full_auth);
    let body = payload.serialize();
    (endpoint, body)
}

/// Parses caller text that must be a JSON value, reporting a parse error
/// otherwise.
pub fn parse_json_argument(text: &str) -> (r: Result<JsonValue, BellandeError>)
    ensures
        match r {
            Ok(v) => parse_json(text@) == Some(v@),
            Err(e) => parse_json(text@) is None && e is Parse,
        },
{
    match crate::parse::parse_json_text(text) {
        Some(v) => Ok(v),
        None => Err(BellandeError::Parse(String::from_str("invalid JSON in argument"))),
    }
}

/// Builds a function-based request from caller text: the `x` vector is
/// parsed first, and a parse failure is reported before anything else
/// happens. On success the endpoint and body are exactly those of
/// `build_request`.
pub fn prepare_function_request(
    base_url: &str,
    mu_func: String,
    sigma_func: String,
    x_text: &str,
    dimensions: i32,
    full_auth: bool,
) -> (r: Result<(String, String), BellandeError>)
    ensures
        match r {
            Ok(eb) => parse_json(x_text@) matches Some(x) && eb.0@ == endpoint_text(
                base_url@,
                full_auth,
            ) && eb.1@ == ser(
                function_payload(mu_func@, sigma_func@, x, dimensions as int, full_auth),
            ),
            Err(e) => parse_json(x_text@) is None && e is Parse,
        },
{
    let x = match parse_json_argument(x_text) {
        Ok(v) => v,
        Err(e) => {
            return Err(e);
        },
    };
    Ok(
        build_request(
            base_url,
            RequestParams::FunctionBased { mu_func, sigma_func, x, dimensions },
            full_auth,
        ),
    )
}

/// Builds a coordinate-based request from caller text: the two coordinate
/// vectors and the threshold are parsed first, in that order, and a parse
/// failure is reported before anything else happens. On success the
/// endpoint and body are exactly those of `build_request`.
pub fn prepare_coordinate_request(
    base_url: &str,
    node0_text: &str,
    node1_text: &str,
    threshold_text: &str,
    dimensions: i32,
    full_auth: bool,
) -> (r: Result<(String, String), BellandeError>)
    ensures
        match r {
            Ok(eb) => parse_json(node0_text@) matches Some(n0) && parse_json(
                node1_text@,
            ) matches Some(n1) && parse_json(threshold_text@) matches Some(t) && eb.0@
                == endpoint_text(base_url@, full_auth) && eb.1@ == ser(
                coordinate_payload(n0, n1, t, dimensions as int, full_auth),
            ),
            Err(e) => (parse_json(node0_text@) is None || parse_json(node1_text@) is None
                || parse_json(threshold_text@) is None) && e is Parse,
        },
{
    let node0 = match parse_json_argument(node0_text) {
        Ok(v) => v,
        Err(e) => {
            return Err(e);
        },
    };
    let node1 = match parse_json_argument(node1_text) {
        Ok(v) => v,
        Err(e) => {
            return Err(e);
        },
    };
    let threshold = match parse_json_argument(threshold_text) {
        Ok(v) => v,
        Err(e) => {
            return Err(e);
        },
    };
    Ok(
        build_request(
            base_url,
            RequestParams::CoordinateBased { node0, node1, threshold, dimensions },
            full_auth,
        ),
    )
}

/// Decodes the service's response body: the JSON it carries, verbatim; a
/// body that is not JSON is a transport-level failure.
pub fn decode_response(body: &str) -> (r: Result<JsonValue, BellandeError>)
    ensures
        match r {
            Ok(v) => parse_json(body@) == Some(v@),
            Err(e) => parse_json(body@) is None && e is Transport,
        },
{
    match crate::parse::parse_json_text(body) {
        Some(v) => Ok(v),
        None => Err(BellandeError::Transport(String::from_str("response body is not JSON"))),
    }
}

/// Whether `s` ends with `suffix`.
pub open spec fn ends_with(s: Seq<char>, suffix: Seq<char>) -> bool {
    s.len() >= suffix.len() && s.subrange(s.len() - suffix.len(), s.len() as int) == suffix
}

/// For every base URL and every parameter set, the opensource tier posts to
/// a path ending in `/bellande_probability`, and the body's last member is
/// an auth object holding exactly the key `authorization_key` with the fixed
/// opensource literal.
pub proof fn lemma_opensource_tier(base: Seq<char>, p: RequestParams)
    ensures
        ends_with(endpoint_text(base, false), "/bellande_probability"@),
        payload_val(p, false) is Object,
        payload_val(p, false)->Object_0.last() == ("auth"@, JsonVal::Object(
            seq![("authorization_key"@, JsonVal::Text("bellande_web_api_opensource"@))],
        )),
{
    let e = endpoint_text(base, false);
    assert(e.subrange(base.len() as int, e.len() as int) =~= "/bellande_probability"@);
}

/// For every base URL and every parameter set, the full-authentication tier
/// posts to a path ending in `/bellande_probability_full_auth`, and the
/// body's last member is an auth object holding exactly the key
/// `full_authorization_key` with the fixed full-tier literal.
pub proof fn lemma_full_auth_tier(base: Seq<char>, p: RequestParams)
    ensures
        ends_with(endpoint_text(base, true), "/bellande_probability_full_auth"@),
        payload_val(p, true) is Object,
        payload_val(p, true)->Object_0.last() == ("auth"@, JsonVal::Object(
            seq![("full_authorization_key"@, JsonVal::Text("bellande_web_api_full_auth"@))],
        )),
{
    let e = endpoint_text(base, true);
    assert(e.subrange(base.len() as int, e.len() as int) =~= "/bellande_probability_full_auth"@);
}

} // verus!
