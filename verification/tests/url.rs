//! The endpoint address.

use musubi::phoenix::url::{endpoint_url, percent_encode, Params};

fn params(entries: &[(&str, &str)]) -> Params {
    let mut params = Params::new();

    for (key, value) in entries {
        params.insert(key.to_string(), value.to_string());
    }

    params
}

#[test]
fn strips_a_trailing_slash_and_encodes_reserved_characters() {
    let params = params(&[("token", "a b/c")]);

    assert_eq!(
        endpoint_url("wss://example.test/socket/", &params),
        "wss://example.test/socket/websocket?vsn=2.0.0&token=a%20b%2Fc"
    );
}

#[test]
fn appends_websocket_and_vsn_without_params() {
    assert_eq!(
        endpoint_url("wss://example.test/socket", &Params::new()),
        "wss://example.test/socket/websocket?vsn=2.0.0"
    );
}

#[test]
fn orders_params_by_key_and_encodes_them() {
    let params = params(&[("zed", "ü"), ("api key", "1+2")]);

    assert_eq!(
        endpoint_url("wss://example.test/socket", &params),
        "wss://example.test/socket/websocket?vsn=2.0.0&api%20key=1%2B2&zed=%C3%BC"
    );
}

#[test]
fn the_last_value_of_a_param_is_the_one_kept() {
    let params = params(&[("b", "1"), ("a", "2"), ("b", "3")]);

    assert_eq!(
        endpoint_url("ws://host//", &params),
        "ws://host/websocket?vsn=2.0.0&a=2&b=3"
    );
}

#[test]
fn unreserved_characters_pass_and_every_other_is_escaped() {
    assert_eq!(percent_encode("AZaz09-_.~"), "AZaz09-_.~");
    assert_eq!(percent_encode("%&=/\u{0}\u{7f}"), "%25%26%3D%2F%00%7F");
}
