use block_modes::query::{
    decode_meta, encode_meta, encode_to_query_string, parse_query_string, profile_for,
};

fn pair(k: &str, v: &str) -> (String, String) {
    (k.to_string(), v.to_string())
}

#[test]
fn parse_simple_query() {
    assert_eq!(
        parse_query_string("foo=bar&baz=qux&zap=zazzle"),
        vec![pair("foo", "bar"), pair("baz", "qux"), pair("zap", "zazzle")]
    );
}

#[test]
fn parse_trailing_separator_and_escapes() {
    assert_eq!(
        parse_query_string("a=1%26b&c=x%3dy&"),
        vec![pair("a", "1&b"), pair("c", "x=y")]
    );
    assert_eq!(parse_query_string(""), vec![]);
    assert_eq!(parse_query_string("k=v=w"), vec![pair("k", "v=w")]);
}

#[test]
fn meta_encoding() {
    assert_eq!(encode_meta("a=b&c;d", &['=', '&']), "a%3db%26c;d");
    assert_eq!(decode_meta("a%3db%26c;d"), "a=b&c;d");
    assert_eq!(decode_meta("%41%62"), "Ab");
}

#[test]
fn profile_encoding() {
    assert_eq!(profile_for("foo@bar.com"), "email=foo@bar.com&uid=10&role=user");
    assert_eq!(
        profile_for("x@y.z&role=admin"),
        "email=x@y.z%26role%3dadmin&uid=10&role=user"
    );
}

#[test]
fn query_string_joins_pairs() {
    let pairs = vec![pair("a", "1"), pair("b;", "2")];
    assert_eq!(encode_to_query_string(&pairs, ';', ':'), "a:1;b%3b:2");
    assert_eq!(encode_to_query_string(&[], '&', '='), "");
}
