use oauth_signer::auth::{
    all_params, auth_header, auth_params, authorize, authorize_at, encode_params, key_of,
    oauth_params, secret_of, with_signature, Token,
};
use oauth_signer::base::signature_base;
use oauth_signer::sign::{sign, signature_value};

const BASE: &str = "POST&http%3A%2F%2Fexample.com%2Frequest&a2%3Dr%2520b%26a3%3D2%2520q\
    %26a3%3Da%26b5%3D%253D%25253D%26c%2540%3D%26c2%3D%26oauth_consumer_\
    key%3D9djdj82h48djs9d2%26oauth_nonce%3D7d8f3e4a%26oauth_signature_m\
    ethod%3DHMAC-SHA1%26oauth_timestamp%3D137131201%26oauth_token%3Dkkk\
    9d7dh3k39sjv7";

fn request_params() -> Vec<(&'static str, &'static str)> {
    vec![("b5", "=%3D"), ("a3", "a"), ("c@", ""), ("a2", "r b"), ("c2", ""), ("a3", "2 q")]
}

fn consumer() -> Token<'static> {
    Token { key: "9djdj82h48djs9d2", secret: "j49sk3j29djd" }
}

fn token() -> Token<'static> {
    Token { key: "kkk9d7dh3k39sjv7", secret: "dh893hdasih9" }
}

#[test]
fn base_without_parameters_ends_after_second_ampersand() {
    let base = signature_base("GET", "http://example.com/", Vec::new());
    assert_eq!(base, "GET&http%3A%2F%2Fexample.com%2F&");
}

#[test]
fn base_with_one_parameter_has_no_separator() {
    let base = signature_base("GET", "http://x/", vec![("k", "v")]);
    assert_eq!(base, "GET&http%3A%2F%2Fx%2F&k%3Dv");
}

#[test]
fn base_keeps_empty_values_and_duplicates() {
    let base = signature_base(
        "GET",
        "http://x/",
        vec![("é", "1"), ("z", "2"), ("e", "3"), ("Z", "0"), ("a", "b"), ("a", ""), ("ab", "")],
    );
    assert_eq!(
        base,
        "GET&http%3A%2F%2Fx%2F&Z%3D0%26a%3D%26a%3Db%26ab%3D%26e%3D3%26z%3D2%26%C3%A9%3D1"
    );
}

#[test]
fn base_does_not_depend_on_parameter_order() {
    let a = vec![("b", "1"), ("a", "2"), ("a", "1"), ("c", "")];
    let b = vec![("c", ""), ("a", "1"), ("b", "1"), ("a", "2")];
    let c = vec![("a", "1"), ("a", "2"), ("b", "1"), ("c", "")];
    let first = signature_base("PUT", "https://h/p", a);
    assert_eq!(first, "PUT&https%3A%2F%2Fh%2Fp&a%3D1%26a%3D2%26b%3D1%26c%3D");
    assert_eq!(signature_base("PUT", "https://h/p", b), first);
    assert_eq!(signature_base("PUT", "https://h/p", c), first);
}

#[test]
fn base_encodes_an_escaped_value_again() {
    let base = signature_base("GET", "http://x/", vec![("k", "%3D")]);
    assert_eq!(base, "GET&http%3A%2F%2Fx%2F&k%3D%253D");
}

#[test]
fn base_encodes_the_method() {
    let base = signature_base("a b", "", Vec::new());
    assert_eq!(base, "a%20b&&");
}

#[test]
fn sign_with_both_secrets() {
    let code = sign(BASE, "j49sk3j29djd", Some("dh893hdasih9"));
    assert_eq!(code, vec![0xaf, 0xaf, 0xd3, 0x26, 0x36, 0xc2, 0x3a, 0xbf, 0x7b, 0xff, 0xe5, 0x14, 0xd0, 0xdb, 0x2f, 0x4a, 0x77, 0xbb, 0xb3, 0x98]);
    assert_eq!(signature_value(&code), "r6/TJjbCOr97/+UU0NsvSne7s5g=");
}

#[test]
fn sign_file_request() {
    let base = "GET&http%3A%2F%2Fphotos.example.net%2Fphotos&file%3Dvacation.jpg%26\
        oauth_consumer_key%3Ddpf43f3p2l4k3l03%26oauth_nonce%3Dkllo9940pd9333jh%26\
        oauth_signature_method%3DHMAC-SHA1%26oauth_timestamp%3D1191242096%26\
        oauth_token%3Dnnch734d00sl2jdk%26oauth_version%3D1.0%26size%3Dlarge";
    let code = sign(base, "kd94hf93k423kf44", Some("pfkkdhi9sl3r4s00"));
    assert_eq!(code, vec![0xe9, 0x37, 0xbd, 0xf1, 0x5e, 0x88, 0xa1, 0xc3, 0xdf, 0xb2, 0xd1, 0x9c, 0x47, 0x1e, 0xe5, 0xe8, 0x0b, 0xf7, 0x46, 0x7a]);
    assert_eq!(signature_value(&code), "6Te98V6IocPfstGcRx7l6Av3Rno=");
}

#[test]
fn sign_without_token_secret() {
    let code = sign("abc", "secret", None);
    assert_eq!(code, vec![0x32, 0x07, 0x96, 0x94, 0x63, 0x16, 0x01, 0x69, 0x2c, 0xee, 0xa7, 0x79, 0xf0, 0x33, 0x29, 0x55, 0xbb, 0xc4, 0x42, 0xcb]);
    assert_eq!(sign("abc", "secret", Some("")), code);
    assert_eq!(signature_value(&code), "MgeWlGMWAWks7qd58DMpVbvEQss=");
}

#[test]
fn sign_empty_base_with_empty_secrets() {
    let code = sign("", "", None);
    assert_eq!(code, vec![0xe4, 0x2a, 0x04, 0x72, 0x8a, 0xbb, 0x5e, 0x82, 0x85, 0x8f, 0x06, 0x02, 0x89, 0xe4, 0x2f, 0xbb, 0x36, 0x9d, 0x79, 0x40]);
    assert_eq!(signature_value(&code), "5CoEcoq7XoKFjwYCieQvuzadeUA=");
}

#[test]
fn sign_with_key_longer_than_a_block() {
    let secret = "k".repeat(100);
    let code = sign("abc", &secret, Some("t"));
    assert_eq!(code, vec![0xa9, 0xfd, 0x8c, 0xc0, 0x2b, 0xea, 0xe0, 0x22, 0x24, 0xe0, 0x5e, 0x20, 0xad, 0x42, 0xaa, 0x05, 0xb9, 0x09, 0xa7, 0xb5]);
    assert_eq!(signature_value(&code), "qf2MwCvq4CIk4F4grUKqBbkJp7U=");
}

#[test]
fn sign_gives_twenty_bytes() {
    assert_eq!(sign("", "", None).len(), 20);
    assert_eq!(sign(BASE, "a", Some("b")).len(), 20);
    assert_eq!(sign(&"x".repeat(1000), &"k".repeat(65), None).len(), 20);
}

#[test]
fn sign_depends_on_base_and_on_secrets() {
    let s = sign("abc", "secret", None);
    assert_ne!(s, "abc".as_bytes().to_vec());
    assert_ne!(sign("abd", "secret", None), s);
    assert_ne!(sign("abc", "secres", None), s);
    assert_ne!(sign("abc", "secret", Some("t")), s);
}

#[test]
fn signature_value_is_padded_base64() {
    assert_eq!(signature_value(&[]), "");
    assert_eq!(signature_value(&[0x66]), "Zg==");
    assert_eq!(signature_value(&[0x66, 0x6f]), "Zm8=");
    assert_eq!(signature_value(&[0x66, 0x6f, 0x6f]), "Zm9v");
    assert_eq!(signature_value(&[0xfb, 0xff, 0xfe]), "+//+");
    assert_eq!(signature_value(&[0u8; 60]), "A".repeat(80));
}

#[test]
fn signature_value_of_a_code_has_twenty_eight_characters() {
    let text = signature_value(&sign(BASE, "j49sk3j29djd", Some("dh893hdasih9")));
    assert_eq!(text.len(), 28);
    assert!(text.ends_with('='));
    assert!(!text[..27].contains('='));
    assert!(!text.contains('\n'));
}

#[test]
fn oauth_params_with_token_in_second_place() {
    let p = oauth_params("137131201", "7d8f3e4a", "9djdj82h48djs9d2", Some("kkk9d7dh3k39sjv7"));
    assert_eq!(
        p,
        vec![
            ("oauth_consumer_key", "9djdj82h48djs9d2".to_string()),
            ("oauth_token", "kkk9d7dh3k39sjv7".to_string()),
            ("oauth_signature_method", "HMAC-SHA1".to_string()),
            ("oauth_timestamp", "137131201".to_string()),
            ("oauth_nonce", "7d8f3e4a".to_string()),
        ]
    );
}

#[test]
fn oauth_params_without_token() {
    let p = oauth_params("1", "n", "ck", None);
    assert_eq!(
        p,
        vec![
            ("oauth_consumer_key", "ck".to_string()),
            ("oauth_signature_method", "HMAC-SHA1".to_string()),
            ("oauth_timestamp", "1".to_string()),
            ("oauth_nonce", "n".to_string()),
        ]
    );
}

#[test]
fn oauth_params_encode_their_values() {
    let p = oauth_params("1 2", "a&b", "c k", Some("t=k"));
    assert_eq!(p[0].1, "c%20k");
    assert_eq!(p[1].1, "t%3Dk");
    assert_eq!(p[2].1, "HMAC-SHA1");
    assert_eq!(p[3].1, "1%202");
    assert_eq!(p[4].1, "a%26b");
}

#[test]
fn with_signature_appends_the_encoded_signature() {
    let p = with_signature(vec![("oauth_nonce", "n".to_string())], "a/b+c=");
    assert_eq!(
        p,
        vec![("oauth_nonce", "n".to_string()), ("oauth_signature", "a%2Fb%2Bc%3D".to_string())]
    );
}

#[test]
fn encode_params_encodes_names_and_values() {
    let p = encode_params(&vec![("c@", ""), ("a2", "r b"), ("b5", "=%3D")]);
    assert_eq!(
        p,
        vec![
            ("c%40".to_string(), "".to_string()),
            ("a2".to_string(), "r%20b".to_string()),
            ("b5".to_string(), "%3D%253D".to_string()),
        ]
    );
}

#[test]
fn all_params_puts_the_named_ones_first() {
    let fields = vec![("x", "1".to_string()), ("y", "2".to_string())];
    let extra = vec![("a".to_string(), "b".to_string())];
    assert_eq!(all_params(&fields, &extra), vec![("x", "1"), ("y", "2"), ("a", "b")]);
}

#[test]
fn key_and_secret_of_a_token() {
    assert_eq!(key_of(Some(token())), Some("kkk9d7dh3k39sjv7"));
    assert_eq!(secret_of(Some(token())), Some("dh893hdasih9"));
    assert_eq!(key_of(None), None);
    assert_eq!(secret_of(None), None);
}

#[test]
fn auth_params_in_fixed_order() {
    let p = auth_params(
        "POST",
        "http://example.com/request",
        "137131201",
        "7d8f3e4a",
        consumer(),
        Some(token()),
        request_params(),
    );
    assert_eq!(
        p,
        vec![
            ("oauth_consumer_key", "9djdj82h48djs9d2".to_string()),
            ("oauth_token", "kkk9d7dh3k39sjv7".to_string()),
            ("oauth_signature_method", "HMAC-SHA1".to_string()),
            ("oauth_timestamp", "137131201".to_string()),
            ("oauth_nonce", "7d8f3e4a".to_string()),
            ("oauth_signature", "r6%2FTJjbCOr97%2F%2BUU0NsvSne7s5g%3D".to_string()),
        ]
    );
}

#[test]
fn auth_params_without_token_omit_it() {
    let p = auth_params(
        "POST",
        "http://example.com/request",
        "137131201",
        "7d8f3e4a",
        consumer(),
        None,
        request_params(),
    );
    assert_eq!(
        p,
        vec![
            ("oauth_consumer_key", "9djdj82h48djs9d2".to_string()),
            ("oauth_signature_method", "HMAC-SHA1".to_string()),
            ("oauth_timestamp", "137131201".to_string()),
            ("oauth_nonce", "7d8f3e4a".to_string()),
            ("oauth_signature", "oO3lyVKBzw%2BirEvnSVfCw3zv2O8%3D".to_string()),
        ]
    );
}

#[test]
fn auth_params_without_extra_parameters() {
    let p = auth_params(
        "GET",
        "http://example.com/",
        "1",
        "n",
        Token { key: "ck", secret: "cs" },
        None,
        Vec::new(),
    );
    assert_eq!(p.len(), 5);
    assert_eq!(p[4], ("oauth_signature", "8mjicoKVw%2B12zuGuNK5iDpel0hQ%3D".to_string()));
}

#[test]
fn header_of_nothing_is_the_scheme() {
    assert_eq!(auth_header(Vec::new()), "OAuth ");
}

#[test]
fn header_of_one_parameter_has_no_comma() {
    assert_eq!(auth_header(vec![("k", "v")]), "OAuth k=\"v\"");
}

#[test]
fn header_keeps_order_and_values() {
    assert_eq!(
        auth_header(vec![("z", "%20"), ("a", ""), ("z", "1")]),
        "OAuth z=\"%20\", a=\"\", z=\"1\""
    );
}

#[test]
fn authorize_at_gives_the_known_header() {
    let header = authorize_at(
        "POST",
        "http://example.com/request",
        "137131201",
        "7d8f3e4a",
        consumer(),
        Some(token()),
        request_params(),
    );
    assert_eq!(
        header,
        "OAuth oauth_consumer_key=\"9djdj82h48djs9d2\", \
         oauth_token=\"kkk9d7dh3k39sjv7\", \
         oauth_signature_method=\"HMAC-SHA1\", \
         oauth_timestamp=\"137131201\", \
         oauth_nonce=\"7d8f3e4a\", \
         oauth_signature=\"r6%2FTJjbCOr97%2F%2BUU0NsvSne7s5g%3D\""
    );
}

#[test]
fn authorize_at_without_token() {
    let header = authorize_at(
        "POST",
        "http://example.com/request",
        "137131201",
        "7d8f3e4a",
        consumer(),
        None,
        request_params(),
    );
    assert_eq!(
        header,
        "OAuth oauth_consumer_key=\"9djdj82h48djs9d2\", \
         oauth_signature_method=\"HMAC-SHA1\", \
         oauth_timestamp=\"137131201\", \
         oauth_nonce=\"7d8f3e4a\", \
         oauth_signature=\"oO3lyVKBzw%2BirEvnSVfCw3zv2O8%3D\""
    );
}

#[test]
fn authorize_at_without_parameters() {
    let header = authorize_at(
        "GET",
        "http://example.com/",
        "1",
        "n",
        Token { key: "ck", secret: "cs" },
        None,
        Vec::new(),
    );
    assert_eq!(
        header,
        "OAuth oauth_consumer_key=\"ck\", oauth_signature_method=\"HMAC-SHA1\", \
         oauth_timestamp=\"1\", oauth_nonce=\"n\", \
         oauth_signature=\"8mjicoKVw%2B12zuGuNK5iDpel0hQ%3D\""
    );
}

#[test]
fn authorize_at_is_a_function_of_its_arguments() {
    let first = authorize_at("GET", "http://x/", "5", "abc", consumer(), Some(token()), vec![("a", "1")]);
    let second = authorize_at("GET", "http://x/", "5", "abc", consumer(), Some(token()), vec![("a", "1")]);
    assert_eq!(first, second);
    let other = authorize_at("GET", "http://x/", "5", "abd", consumer(), Some(token()), vec![("a", "1")]);
    assert_ne!(first, other);
}

fn field<'a>(header: &'a str, name: &str) -> &'a str {
    let start = header.find(name).unwrap() + name.len() + 2;
    let rest = &header[start..];
    &rest[..rest.find('"').unwrap()]
}

#[test]
fn authorize_agrees_with_authorize_at() {
    let header = authorize("GET", "http://x/", consumer(), Some(token()), vec![("a", "1")]);
    assert!(header.starts_with("OAuth oauth_consumer_key=\"9djdj82h48djs9d2\", oauth_token=\""));
    let timestamp = field(&header, "oauth_timestamp");
    let nonce = field(&header, "oauth_nonce");
    assert!(!timestamp.is_empty() && timestamp.len() <= 20);
    assert!(timestamp.parse::<i64>().is_ok());
    assert_eq!(nonce.len(), 32);
    assert!(nonce.chars().all(|c| c.is_ascii_digit() || ('a'..='f').contains(&c)));
    let again =
        authorize_at("GET", "http://x/", timestamp, nonce, consumer(), Some(token()), vec![("a", "1")]);
    assert_eq!(header, again);
}

#[test]
fn authorize_uses_a_fresh_nonce() {
    let a = authorize("GET", "http://x/", consumer(), None, Vec::new());
    let b = authorize("GET", "http://x/", consumer(), None, Vec::new());
    assert_ne!(field(&a, "oauth_nonce"), field(&b, "oauth_nonce"));
    assert!(!a.contains("oauth_token"));
}

#[test]
fn try_sign_gives_the_code() {
    assert_eq!(
        oauth_signer::try_sign(BASE, "j49sk3j29djd", Some("dh893hdasih9")),
        Some(sign(BASE, "j49sk3j29djd", Some("dh893hdasih9")))
    );
    let code = oauth_signer::try_sign("", "", None).unwrap();
    assert_eq!(signature_value(&code), "5CoEcoq7XoKFjwYCieQvuzadeUA=");
}

#[test]
fn try_auth_params_gives_the_parameter_set() {
    let p = oauth_signer::auth::try_auth_params(
        "POST",
        "http://example.com/request",
        "137131201",
        "7d8f3e4a",
        consumer(),
        Some(token()),
        request_params(),
    )
    .unwrap();
    assert_eq!(p.len(), 6);
    assert_eq!(p[1], ("oauth_token", "kkk9d7dh3k39sjv7".to_string()));
    assert_eq!(p[5], ("oauth_signature", "r6%2FTJjbCOr97%2F%2BUU0NsvSne7s5g%3D".to_string()));
}

#[test]
fn try_authorize_agrees_with_authorize_at() {
    let header =
        oauth_signer::try_authorize("GET", "http://x/", consumer(), None, vec![("a", "1")]).unwrap();
    let timestamp = field(&header, "oauth_timestamp");
    let nonce = field(&header, "oauth_nonce");
    let again = authorize_at("GET", "http://x/", timestamp, nonce, consumer(), None, vec![("a", "1")]);
    assert_eq!(header, again);
}

#[test]
fn fields_header_renders_owned_values() {
    let fields = vec![("a", "1".to_string()), ("b", "%20".to_string())];
    assert_eq!(oauth_signer::auth::fields_header(&fields), "OAuth a=\"1\", b=\"%20\"");
}

#[test]
fn header_of_auth_params_has_the_fixed_form() {
    let fields = auth_params("GET", "http://example.com/", "1", "n", Token { key: "ck", secret: "cs" }, None, Vec::new());
    let slices: Vec<(&str, &str)> = fields.iter().map(|(k, v)| (*k, v.as_str())).collect();
    assert_eq!(
        auth_header(slices),
        "OAuth oauth_consumer_key=\"ck\", oauth_signature_method=\"HMAC-SHA1\", \
         oauth_timestamp=\"1\", oauth_nonce=\"n\", \
         oauth_signature=\"8mjicoKVw%2B12zuGuNK5iDpel0hQ%3D\""
    );
}
