use oauth_signer::auth::{auth_header, auth_params, Token};
use oauth_signer::base::signature_base;

#[test]
fn test_signature_base() {
    let params = vec![
        ("b5", "%3D%253D"),
        ("a3", "a"),
        ("c%40", ""),
        ("a2", "r%20b"),
        ("oauth_consumer_key", "9djdj82h48djs9d2"),
        ("oauth_token", "kkk9d7dh3k39sjv7"),
        ("oauth_signature_method", "HMAC-SHA1"),
        ("oauth_timestamp", "137131201"),
        ("oauth_nonce", "7d8f3e4a"),
        ("c2", ""),
        ("a3", "2%20q"),
    ];

    let result = signature_base("POST", "http://example.com/request", params);

    let expected = "\
        POST&http%3A%2F%2Fexample.com%2Frequest&a2%3Dr%2520b%26a3%3D2%2520q\
        %26a3%3Da%26b5%3D%253D%25253D%26c%2540%3D%26c2%3D%26oauth_consumer_\
        key%3D9djdj82h48djs9d2%26oauth_nonce%3D7d8f3e4a%26oauth_signature_m\
        ethod%3DHMAC-SHA1%26oauth_timestamp%3D137131201%26oauth_token%3Dkkk\
        9d7dh3k39sjv7";
    assert_eq!(result, expected);
}

#[test]
fn test_auth_params() {
    let consumer = Token { key: "9djdj82h48djs9d2", secret: "j49sk3j29djd" };
    let token = Token { key: "kkk9d7dh3k39sjv7", secret: "dh893hdasih9" };

    let params = vec![
        ("b5", "=%3D"),
        ("a3", "a"),
        ("c@", ""),
        ("a2", "r b"),
        ("c2", ""),
        ("a3", "2 q"),
    ];

    let mut oauth_params = auth_params(
        "POST",
        "http://example.com/request",
        "137131201",
        "7d8f3e4a",
        consumer,
        Some(token),
        params,
    );
    // Sort so the ordering is the same in comparisons
    oauth_params.sort();

    let mut expected = vec![
        ("oauth_consumer_key", "9djdj82h48djs9d2"),
        ("oauth_token", "kkk9d7dh3k39sjv7"),
        ("oauth_signature_method", "HMAC-SHA1"),
        ("oauth_timestamp", "137131201"),
        ("oauth_nonce", "7d8f3e4a"),
        ("oauth_signature", "r6%2FTJjbCOr97%2F%2BUU0NsvSne7s5g%3D"),
    ];
    expected.sort();

    assert_eq!(oauth_params.len(), expected.len());
    assert!(oauth_params
        .into_iter()
        .zip(expected.into_iter())
        .all(|((k1, v1), (k2, v2))| k1 == k2 && v1 == v2));
}

#[test]
fn test_auth_header() {
    let oauth_params = vec![
        ("oauth_consumer_key", "9djdj82h48djs9d2"),
        ("oauth_token", "kkk9d7dh3k39sjv7"),
        ("oauth_signature_method", "HMAC-SHA1"),
        ("oauth_timestamp", "137131201"),
        ("oauth_nonce", "7d8f3e4a"),
        ("oauth_signature", "r6%2FTJjbCOr97%2F%2BUU0NsvSne7s5g%3D"),
    ];
    let result = auth_header(oauth_params);

    let expected = "\
        OAuth oauth_consumer_key=\"9djdj82h48djs9d2\", \
        oauth_token=\"kkk9d7dh3k39sjv7\", \
        oauth_signature_method=\"HMAC-SHA1\", \
        oauth_timestamp=\"137131201\", \
        oauth_nonce=\"7d8f3e4a\", \
        oauth_signature=\"r6%2FTJjbCOr97%2F%2BUU0NsvSne7s5g%3D\"";
    assert_eq!(result, expected);
}
