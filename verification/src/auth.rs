//! The OAuth parameter set of a request and the `Authorization` header value.

use crate::base::{lemma_base_len, params_within, signature_base, signature_base_text};
use crate::order::{params_view, Param};
use crate::percent::{
    encode, encode_byte, encode_bytes, encode_text, lemma_encode_text_concat, lemma_encoded_len, lemma_utf8_concat, lemma_utf8_len_at_most, utf8_len,
};
use crate::sign::{
    base64_shape, base64_text, hmac_sha1_code, lemma_shape_of_signature, digest_limit, opt_view, secret_or_empty, sign, signable, signature_text, signature_value, signing_key, try_sign,
};
use vstd::prelude::*;
use vstd::utf8::*;

verus! {

/// A credential pair: the consumer's, or an access token's.
#[derive(Clone, Copy)]
pub struct Token<'a> {
    pub key: &'a str,
    pub secret: &'a str,
}

/// The key of the token, where there is one.
pub open spec fn token_key(token: Option<Token>) -> Option<Seq<char>> {
    match token {
        Some(t) => Some(t.key@),
        None => None,
    }
}

/// The secret of the token, where there is one.
pub open spec fn token_secret(token: Option<Token>) -> Option<Seq<char>> {
    match token {
        Some(t) => Some(t.secret@),
        None => None,
    }
}

/// The `oauth_token` parameter, where there is a token.
pub open spec fn token_field(token_key: Option<Seq<char>>) -> Seq<Param> {
    match token_key {
        Some(k) => seq![("oauth_token"@, encode_text(k))],
        None => Seq::empty(),
    }
}

/// The OAuth parameters that are signed, in their fixed order, values encoded:
/// the consumer key, the token where there is one, the signature method, the
/// timestamp and the nonce.
pub open spec fn oauth_fields(
    timestamp: Seq<char>,
    nonce: Seq<char>,
    consumer_key: Seq<char>,
    token_key: Option<Seq<char>>,
) -> Seq<Param> {
    seq![("oauth_consumer_key"@, encode_text(consumer_key))] + token_field(token_key) + seq![
        ("oauth_signature_method"@, "HMAC-SHA1"@),
        ("oauth_timestamp"@, encode_text(timestamp)),
        ("oauth_nonce"@, encode_text(nonce)),
    ]
}

/// The caller's parameters, names and values encoded.
pub open spec fn encoded_params(extra: Seq<Param>) -> Seq<Param> {
    Seq::new(extra.len(), |i: int| (encode_text(extra[i].0), encode_text(extra[i].1)))
}

/// The base string of a request: over the OAuth parameters and the caller's.
pub open spec fn request_base_text(
    method: Seq<char>,
    uri: Seq<char>,
    timestamp: Seq<char>,
    nonce: Seq<char>,
    consumer_key: Seq<char>,
    token_key: Option<Seq<char>>,
    extra: Seq<Param>,
) -> Seq<char> {
    signature_base_text(
        method,
        uri,
        oauth_fields(timestamp, nonce, consumer_key, token_key) + encoded_params(extra),
    )
}

/// Whether the request's base string can be signed with the two secrets.
pub open spec fn request_signable(
    method: Seq<char>,
    uri: Seq<char>,
    timestamp: Seq<char>,
    nonce: Seq<char>,
    consumer: Token,
    token: Option<Token>,
    extra: Seq<Param>,
) -> bool {
    signable(
        request_base_text(method, uri, timestamp, nonce, consumer.key@, token_key(token), extra),
        consumer.secret@,
        token_secret(token),
    )
}

/// The signature of a request: that of its base string under the two secrets.
pub open spec fn request_signature(
    method: Seq<char>,
    uri: Seq<char>,
    timestamp: Seq<char>,
    nonce: Seq<char>,
    consumer: Token,
    token: Option<Token>,
    extra: Seq<Param>,
) -> Seq<char> {
    signature_text(
        request_base_text(method, uri, timestamp, nonce, consumer.key@, token_key(token), extra),
        consumer.secret@,
        token_secret(token),
    )
}

/// The full OAuth parameter set: the signed parameters, then `oauth_signature`
/// with the encoded signature of the request.
pub open spec fn auth_params_view(
    method: Seq<char>,
    uri: Seq<char>,
    timestamp: Seq<char>,
    nonce: Seq<char>,
    consumer: Token,
    token: Option<Token>,
    extra: Seq<Param>,
) -> Seq<Param> {
    oauth_fields(timestamp, nonce, consumer.key@, token_key(token)).push(
        (
            "oauth_signature"@,
            encode_text(
                request_signature(method, uri, timestamp, nonce, consumer, token, extra),
            ),
        ),
    )
}

/// One parameter in the header: the name, `="`, the value as it is, `"`.
pub open spec fn field_text(p: Param) -> Seq<char> {
    p.0 + seq!['=', '"'] + p.1 + seq!['"']
}

/// The parameters in the given order, with a comma and a space between them.
pub open spec fn joined_fields(ps: Seq<Param>) -> Seq<char>
    decreases ps.len(),
{
    if ps.len() == 0 {
        Seq::empty()
    } else if ps.len() == 1 {
        field_text(ps[0])
    } else {
        joined_fields(ps.drop_last()) + seq![',', ' '] + field_text(ps.last())
    }
}

/// The header value: `OAuth `, then the parameters.
pub open spec fn header_text(ps: Seq<Param>) -> Seq<char> {
    seq!['O', 'A', 'u', 't', 'h', ' '] + joined_fields(ps)
}

/// The header value of a request signed at the given time with the given nonce.
pub open spec fn authorization_text(
    method: Seq<char>,
    uri: Seq<char>,
    timestamp: Seq<char>,
    nonce: Seq<char>,
    consumer: Token,
    token: Option<Token>,
    extra: Seq<Param>,
) -> Seq<char> {
    header_text(auth_params_view(method, uri, timestamp, nonce, consumer, token, extra))
}

/// A list of named, owned values as the contracts see it.
pub open spec fn fields_view(s: Seq<(&'static str, String)>) -> Seq<Param> {
    Seq::new(s.len(), |i: int| (s[i].0@, s[i].1@))
}

/// A list of owned pairs as the contracts see it.
pub open spec fn owned_view(s: Seq<(String, String)>) -> Seq<Param> {
    Seq::new(s.len(), |i: int| (s[i].0@, s[i].1@))
}

/// The OAuth parameters that are signed, in their fixed order.
pub fn oauth_params(timestamp: &str, nonce: &str, consumer_key: &str, token_key: Option<&str>) -> (r:
    Vec<(&'static str, String)>)
    ensures
        fields_view(r@) == oauth_fields(timestamp@, nonce@, consumer_key@, opt_view(token_key)),
{
    let mut r: Vec<(&'static str, String)> = Vec::new();
    r.push(("oauth_consumer_key", encode(consumer_key)));
    r.push(("oauth_signature_method", "HMAC-SHA1".to_owned()));
    r.push(("oauth_timestamp", encode(timestamp)));
    r.push(("oauth_nonce", encode(nonce)));
    match token_key {
        Some(k) => {
            r.insert(1, ("oauth_token", encode(k)));
        },
        None => {},
    }
    assert(fields_view(r@) =~= oauth_fields(
        timestamp@,
        nonce@,
        consumer_key@,
        opt_view(token_key),
    ));
    r
}

/// The parameter set with `oauth_signature` and the encoded signature at its end.
pub fn with_signature(oauth_params: Vec<(&'static str, String)>, signature: &str) -> (r: Vec<
    (&'static str, String),
>)
    ensures
        fields_view(r@) == fields_view(oauth_params@).push(
            ("oauth_signature"@, encode_text(signature@)),
        ),
{
    let mut r = oauth_params;
    r.push(("oauth_signature", encode(signature)));
    assert(fields_view(r@) =~= fields_view(oauth_params@).push(
        ("oauth_signature"@, encode_text(signature@)),
    ));
    r
}

/// The caller's parameters with names and values encoded.
pub fn encode_params(params: &Vec<(&str, &str)>) -> (r: Vec<(String, String)>)
    ensures
        owned_view(r@) == encoded_params(params_view(params@)),
{
    let mut r: Vec<(String, String)> = Vec::new();
    let n = params.len();
    let mut i: usize = 0;
    while i < n
        invariant
            i <= n,
            n == params@.len(),
            r@.len() == i,
            forall|j: int|
                0 <= j < i ==> (#[trigger] r@[j]).0@ == encode_text(params@[j].0@) && r@[j].1@
                    == encode_text(params@[j].1@),
        decreases n - i,
    {
        let (k, v) = params[i];
        r.push((encode(k), encode(v)));
        i += 1;
    }
    assert(owned_view(r@) =~= encoded_params(params_view(params@)));
    r
}

/// The parameters of both lists as string slices, the named ones first.
pub fn all_params<'a>(
    fields: &'a Vec<(&'static str, String)>,
    extra: &'a Vec<(String, String)>,
) -> (r: Vec<(&'a str, &'a str)>)
    ensures
        params_view(r@) == fields_view(fields@) + owned_view(extra@),
{
    let mut r: Vec<(&'a str, &'a str)> = Vec::new();
    let n = fields.len();
    let m = extra.len();
    let mut i: usize = 0;
    while i < n
        invariant
            i <= n,
            n == fields@.len(),
            r@.len() == i,
            forall|j: int|
                0 <= j < i ==> (#[trigger] r@[j]).0@ == fields@[j].0@ && r@[j].1@
                    == fields@[j].1@,
        decreases n - i,
    {
        let p = &fields[i];
        r.push((p.0, p.1.as_str()));
        i += 1;
    }
    let mut k: usize = 0;
    while k < m
        invariant
            k <= m,
            n == fields@.len(),
            m == extra@.len(),
            r@.len() == n + k,
            forall|j: int|
                0 <= j < n ==> (#[trigger] r@[j]).0@ == fields@[j].0@ && r@[j].1@
                    == fields@[j].1@,
            forall|j: int|
                0 <= j < k ==> (#[trigger] r@[n + j]).0@ == extra@[j].0@ && r@[n + j].1@
                    == extra@[j].1@,
        decreases m - k,
    {
        let p = &extra[k];
        r.push((p.0.as_str(), p.1.as_str()));
        k += 1;
    }
    proof {
        let lhs = params_view(r@);
        let rhs = fields_view(fields@) + owned_view(extra@);
        assert(lhs.len() == rhs.len());
        assert forall|j: int| 0 <= j < lhs.len() implies lhs[j] == rhs[j] by {
            if j >= n {
                assert(r@[n + (j - n)] == r@[j]);
            }
        }
        assert(lhs =~= rhs);
    }
    r
}

/// The secret of the token as a string slice, where there is a token.
pub fn secret_of<'a>(token: Option<Token<'a>>) -> (r: Option<&'a str>)
    ensures
        opt_view(r) == token_secret(token),
{
    match token {
        Some(t) => Some(t.secret),
        None => None,
    }
}

/// The key of the token as a string slice, where there is a token.
pub fn key_of<'a>(token: Option<Token<'a>>) -> (r: Option<&'a str>)
    ensures
        opt_view(r) == token_key(token),
{
    match token {
        Some(t) => Some(t.key),
        None => None,
    }
}

/// The full OAuth parameter set of a request: the signed parameters in their
/// fixed order, then the signature over them and the caller's parameters.
pub fn auth_params(
    method: &str,
    uri: &str,
    timestamp: &str,
    nonce: &str,
    consumer: Token,
    token: Option<Token>,
    params: Vec<(&str, &str)>,
) -> (r: Vec<(&'static str, String)>)
    requires
        request_signable(
            method@,
            uri@,
            timestamp@,
            nonce@,
            consumer,
            token,
            params_view(params@),
        ),
    ensures
        fields_view(r@) == auth_params_view(
            method@,
            uri@,
            timestamp@,
            nonce@,
            consumer,
            token,
            params_view(params@),
        ),
        base64_shape(
            request_signature(
                method@,
                uri@,
                timestamp@,
                nonce@,
                consumer,
                token,
                params_view(params@),
            ),
            20,
        ),
{
    let fields = oauth_params(timestamp, nonce, consumer.key, key_of(token));
    let extra = encode_params(&params);
    let base = signature_base(method, uri, all_params(&fields, &extra));
    let code = sign(base.as_str(), consumer.secret, secret_of(token));
    let signature = signature_value(code.as_slice());
    with_signature(fields, signature.as_str())
}

/// The full OAuth parameter set of a request where it can be signed: `None`
/// where the base string or the key is past the digest's limit.
pub fn try_auth_params(
    method: &str,
    uri: &str,
    timestamp: &str,
    nonce: &str,
    consumer: Token,
    token: Option<Token>,
    params: Vec<(&str, &str)>,
) -> (r: Option<Vec<(&'static str, String)>>)
    ensures
        r.is_some() == request_signable(
            method@,
            uri@,
            timestamp@,
            nonce@,
            consumer,
            token,
            params_view(params@),
        ),
        r matches Some(p) ==> fields_view(p@) == auth_params_view(
            method@,
            uri@,
            timestamp@,
            nonce@,
            consumer,
            token,
            params_view(params@),
        ) && base64_shape(
            request_signature(
                method@,
                uri@,
                timestamp@,
                nonce@,
                consumer,
                token,
                params_view(params@),
            ),
            20,
        ),
{
    let fields = oauth_params(timestamp, nonce, consumer.key, key_of(token));
    let extra = encode_params(&params);
    let base = signature_base(method, uri, all_params(&fields, &extra));
    match try_sign(base.as_str(), consumer.secret, secret_of(token)) {
        Some(code) => {
            let signature = signature_value(code.as_slice());
            Some(with_signature(fields, signature.as_str()))
        },
        None => None,
    }
}

/// The header value of the parameters, in the order given, values as they are.
pub fn auth_header(oauth_params: Vec<(&str, &str)>) -> (auth: String)
    ensures
        auth@ == header_text(params_view(oauth_params@)),
{
    let mut auth = String::new();
    auth.push('O');
    auth.push('A');
    auth.push('u');
    auth.push('t');
    auth.push('h');
    auth.push(' ');
    let ghost head = auth@;
    let ghost ps = params_view(oauth_params@);
    assert(head =~= seq!['O', 'A', 'u', 't', 'h', ' ']);
    let n = oauth_params.len();
    let mut i: usize = 0;
    assert(ps.take(0) =~= Seq::<Param>::empty());
    assert(auth@ =~= head + joined_fields(ps.take(0)));
    while i < n
        invariant
            i <= n,
            n == oauth_params@.len(),
            ps == params_view(oauth_params@),
            auth@ == head + joined_fields(ps.take(i as int)),
        decreases n - i,
    {
        let ghost before = auth@;
        if i > 0 {
            auth.push(',');
            auth.push(' ');
        }
        let (k, v) = oauth_params[i];
        auth.append(k);
        auth.push('=');
        auth.push('"');
        auth.append(v);
        auth.push('"');
        proof {
            let next = ps.take(i + 1);
            assert(next.drop_last() =~= ps.take(i as int));
            assert(next.last() == ps[i as int]);
            assert(ps[i as int] == (k@, v@));
            if i > 0 {
                assert(auth@ =~= before + seq![',', ' '] + field_text(ps[i as int]));
            } else {
                assert(joined_fields(ps.take(0)) =~= Seq::<char>::empty());
                assert(auth@ =~= head + field_text(ps[i as int]));
                assert(next[0] == ps[i as int]);
            }
            assert(auth@ =~= head + joined_fields(next));
        }
        i += 1;
    }
    assert(ps.take(n as int) =~= ps);
    auth
}

/// The header value of a parameter set with owned values.
pub fn fields_header(fields: &Vec<(&'static str, String)>) -> (auth: String)
    ensures
        auth@ == header_text(fields_view(fields@)),
{
    let none: Vec<(String, String)> = Vec::new();
    let slices = all_params(fields, &none);
    assert(params_view(slices@) =~= fields_view(fields@));
    auth_header(slices)
}

/// The header value of a request signed at the given time with the given
/// nonce: a function of its arguments alone.
pub fn authorize_at(
    method: &str,
    uri: &str,
    timestamp: &str,
    nonce: &str,
    consumer: Token,
    token: Option<Token>,
    params: Vec<(&str, &str)>,
) -> (auth: String)
    requires
        request_signable(
            method@,
            uri@,
            timestamp@,
            nonce@,
            consumer,
            token,
            params_view(params@),
        ),
    ensures
        auth@ == authorization_text(
            method@,
            uri@,
            timestamp@,
            nonce@,
            consumer,
            token,
            params_view(params@),
        ),
{
    let fields = auth_params(method, uri, timestamp, nonce, consumer, token, params);
    fields_header(&fields)
}

/// Whether every request that `authorize` may build from these arguments can
/// be signed: whatever the timestamp, of at most twenty characters, and the
/// nonce, of thirty-two.
pub open spec fn authorizable(
    method: Seq<char>,
    uri: Seq<char>,
    consumer: Token,
    token: Option<Token>,
    extra: Seq<Param>,
) -> bool {
    forall|timestamp: Seq<char>, nonce: Seq<char>|
        timestamp.len() <= 20 && nonce.len() == 32 ==> #[trigger] request_signable(
            method,
            uri,
            timestamp,
            nonce,
            consumer,
            token,
            extra,
        )
}

/// `time::now_utc` and `time::Tm::to_timespec`: the seconds since the epoch,
/// a 64-bit signed number, written in decimal. Nothing is claimed of the
/// value; its text has at most nineteen digits and a sign.
#[verifier::external_body]
fn current_timestamp() -> (t: String)
    ensures
        t@.len() <= 20,
{
    time::now_utc().to_timespec().sec.to_string()
}

/// The shape of a nonce: thirty-two hexadecimal digits, letters in lower case.
pub open spec fn is_nonce_text(n: Seq<char>) -> bool {
    &&& n.len() == 32
    &&& forall|i: int|
        0 <= i < n.len() ==> '0' <= #[trigger] n[i] <= '9' || 'a' <= n[i] <= 'f'
}

/// `uuid::Uuid::new_v4` and `uuid::Uuid::simple`: a random identifier in its
/// compact form, thirty-two hexadecimal digits in lower case. Nothing is
/// claimed of which digits. The call relies on the system's source of
/// random numbers.
#[verifier::external_body]
fn fresh_nonce() -> (n: String)
    ensures
        is_nonce_text(n@),
{
    uuid::Uuid::new_v4().simple().to_string()
}

/// The header value of a request signed now, with a fresh nonce: that of
/// `authorize_at` for some timestamp and some nonce.
pub fn authorize(
    method: &str,
    uri: &str,
    consumer: Token,
    token: Option<Token>,
    params: Vec<(&str, &str)>,
) -> (auth: String)
    requires
        authorizable(method@, uri@, consumer, token, params_view(params@)),
    ensures
        exists|timestamp: Seq<char>, nonce: Seq<char>|
            timestamp.len() <= 20 && is_nonce_text(nonce) && auth@ == #[trigger] authorization_text(
                method@,
                uri@,
                timestamp,
                nonce,
                consumer,
                token,
                params_view(params@),
            ),
{
    let timestamp = current_timestamp();
    let nonce = fresh_nonce();
    assert(request_signable(
        method@,
        uri@,
        timestamp@,
        nonce@,
        consumer,
        token,
        params_view(params@),
    ));
    authorize_at(method, uri, timestamp.as_str(), nonce.as_str(), consumer, token, params)
}

/// The header value of a request signed now, with a fresh nonce, where the
/// request can be signed: `None` where its base string or the key is past
/// the digest's limit.
pub fn try_authorize(
    method: &str,
    uri: &str,
    consumer: Token,
    token: Option<Token>,
    params: Vec<(&str, &str)>,
) -> (r: Option<String>)
    ensures
        exists|timestamp: Seq<char>, nonce: Seq<char>|
            timestamp.len() <= 20 && is_nonce_text(nonce) && match r {
                Some(auth) => auth@ == authorization_text(
                    method@,
                    uri@,
                    timestamp,
                    nonce,
                    consumer,
                    token,
                    params_view(params@),
                ),
                None => !#[trigger] request_signable(
                    method@,
                    uri@,
                    timestamp,
                    nonce,
                    consumer,
                    token,
                    params_view(params@),
                ),
            },
{
    let timestamp = current_timestamp();
    let nonce = fresh_nonce();
    let r = match try_auth_params(
        method,
        uri,
        timestamp.as_str(),
        nonce.as_str(),
        consumer,
        token,
        params,
    ) {
        Some(fields) => Some(fields_header(&fields)),
        None => None,
    };
    proof {
        let can_sign = request_signable(
            method@,
            uri@,
            timestamp@,
            nonce@,
            consumer,
            token,
            params_view(params@),
        );
        assert(timestamp@.len() <= 20 && is_nonce_text(nonce@) && match r {
            Some(auth) => auth@ == authorization_text(
                method@,
                uri@,
                timestamp@,
                nonce@,
                consumer,
                token,
                params_view(params@),
            ),
            None => !can_sign,
        });
    }
    r
}

/// The names of the signed OAuth parameters, and the name of the signature
/// method, have at most twenty-two bytes.
pub proof fn lemma_names_short()
    ensures
        utf8_len("oauth_consumer_key"@) <= 22,
        utf8_len("oauth_token"@) <= 22,
        utf8_len("oauth_signature_method"@) <= 22,
        utf8_len("HMAC-SHA1"@) <= 22,
        utf8_len("oauth_timestamp"@) <= 22,
        utf8_len("oauth_nonce"@) <= 22,
{
    reveal_strlit("oauth_consumer_key");
    reveal_strlit("oauth_token");
    reveal_strlit("oauth_signature_method");
    reveal_strlit("HMAC-SHA1");
    reveal_strlit("oauth_timestamp");
    reveal_strlit("oauth_nonce");
    assert(is_ascii_chars("oauth_consumer_key"@));
    assert(is_ascii_chars("oauth_token"@));
    assert(is_ascii_chars("oauth_signature_method"@));
    assert(is_ascii_chars("HMAC-SHA1"@));
    assert(is_ascii_chars("oauth_timestamp"@));
    assert(is_ascii_chars("oauth_nonce"@));
    is_ascii_chars_encode_utf8("oauth_consumer_key"@);
    is_ascii_chars_encode_utf8("oauth_token"@);
    is_ascii_chars_encode_utf8("oauth_signature_method"@);
    is_ascii_chars_encode_utf8("HMAC-SHA1"@);
    is_ascii_chars_encode_utf8("oauth_timestamp"@);
    is_ascii_chars_encode_utf8("oauth_nonce"@);
}

/// A request can be signed where its parts are short enough: with at most
/// `m` bytes in the timestamp, the nonce, the two keys and each name and
/// value of the caller, and at most `count` parameters of the caller, the
/// bound on the base string is one on the lengths of the method and the URI.
pub proof fn lemma_request_signable(
    method: Seq<char>,
    uri: Seq<char>,
    timestamp: Seq<char>,
    nonce: Seq<char>,
    consumer: Token,
    token: Option<Token>,
    extra: Seq<Param>,
    m: int,
    count: int,
)
    requires
        extra.len() <= count,
        utf8_len(timestamp) <= m,
        utf8_len(nonce) <= m,
        utf8_len(consumer.key@) <= m,
        token matches Some(t) ==> utf8_len(t.key@) <= m,
        params_within(extra, m),
        utf8_len(consumer.secret@) + utf8_len(secret_or_empty(token_secret(token))) + 1
            < digest_limit(),
        3 * utf8_len(method) + 3 * utf8_len(uri) + (5 + count) * (18 * m + 138) + 66
            < digest_limit(),
    ensures
        request_signable(method, uri, timestamp, nonce, consumer, token, extra),
{
    let fields = oauth_fields(timestamp, nonce, consumer.key@, token_key(token));
    let encoded = encoded_params(extra);
    let all = fields + encoded;
    let w = 3 * m + 22;
    lemma_names_short();
    lemma_encoded_len(timestamp);
    lemma_encoded_len(nonce);
    lemma_encoded_len(consumer.key@);
    let c = ("oauth_consumer_key"@, encode_text(consumer.key@));
    let s = ("oauth_signature_method"@, "HMAC-SHA1"@);
    let t = ("oauth_timestamp"@, encode_text(timestamp));
    let n = ("oauth_nonce"@, encode_text(nonce));
    match token {
        Some(tok) => {
            lemma_encoded_len(tok.key@);
            assert(fields =~= seq![c, ("oauth_token"@, encode_text(tok.key@)), s, t, n]);
        },
        None => {
            assert(fields =~= seq![c, s, t, n]);
        },
    }
    assert forall|i: int| 0 <= i < all.len() implies utf8_len((#[trigger] all[i]).0) <= w
        && utf8_len(all[i].1) <= w by {
        if i >= fields.len() {
            let j = i - fields.len();
            assert(all[i] == encoded[j]);
            assert(utf8_len(extra[j].0) <= m && utf8_len(extra[j].1) <= m);
            lemma_encoded_len(extra[j].0);
            lemma_encoded_len(extra[j].1);
        } else {
            assert(all[i] == fields[i]);
        }
    }
    lemma_base_len(method, uri, all, w);
    assert(all.len() * (6 * w + 6) <= (5 + count) * (18 * m + 138)) by (nonlinear_arith)
        requires
            all.len() <= 5 + count,
            w == 3 * m + 22,
            m >= 0,
    ;
    let amp = seq!['&'];
    let secret = secret_or_empty(token_secret(token));
    assert(is_ascii_chars(amp));
    is_ascii_chars_encode_utf8(amp);
    lemma_utf8_concat(consumer.secret@, amp);
    lemma_utf8_concat(consumer.secret@ + amp, secret);
}

/// `authorize` can be called where the parts of the request are short
/// enough: the bound of `lemma_request_signable`, with room for the
/// timestamp and the nonce.
pub proof fn lemma_authorizable(
    method: Seq<char>,
    uri: Seq<char>,
    consumer: Token,
    token: Option<Token>,
    extra: Seq<Param>,
    m: int,
    count: int,
)
    requires
        extra.len() <= count,
        m >= 128,
        utf8_len(consumer.key@) <= m,
        token matches Some(t) ==> utf8_len(t.key@) <= m,
        params_within(extra, m),
        utf8_len(consumer.secret@) + utf8_len(secret_or_empty(token_secret(token))) + 1
            < digest_limit(),
        3 * utf8_len(method) + 3 * utf8_len(uri) + (5 + count) * (18 * m + 138) + 66
            < digest_limit(),
    ensures
        authorizable(method, uri, consumer, token, extra),
{
    assert forall|timestamp: Seq<char>, nonce: Seq<char>|
        timestamp.len() <= 20 && nonce.len() == 32 implies #[trigger] request_signable(
        method,
        uri,
        timestamp,
        nonce,
        consumer,
        token,
        extra,
    ) by {
        lemma_utf8_len_at_most(timestamp);
        lemma_utf8_len_at_most(nonce);
        lemma_request_signable(method, uri, timestamp, nonce, consumer, token, extra, m, count);
    }
}

/// Appending a parameter appends its text, after a separator where others precede it.
pub proof fn lemma_joined_fields_push(ps: Seq<Param>, p: Param)
    ensures
        joined_fields(ps.push(p)) == if ps.len() == 0 {
            field_text(p)
        } else {
            joined_fields(ps) + seq![',', ' '] + field_text(p)
        },
{
    assert(ps.push(p).drop_last() =~= ps);
}

/// The header of a signed request has the fixed form: `OAuth `, then the
/// consumer key, the token where there is one, the signature method, the
/// timestamp, the nonce and the signature, each as `name="value"` and
/// separated by a comma and a space.
pub proof fn lemma_header_format(
    method: Seq<char>,
    uri: Seq<char>,
    timestamp: Seq<char>,
    nonce: Seq<char>,
    consumer: Token,
    token: Option<Token>,
    extra: Seq<Param>,
)
    ensures
        authorization_text(method, uri, timestamp, nonce, consumer, token, extra) == match token {
            Some(t) => seq!['O', 'A', 'u', 't', 'h', ' '] + (field_text(
                ("oauth_consumer_key"@, encode_text(consumer.key@)),
            ) + seq![',', ' '] + field_text(("oauth_token"@, encode_text(t.key@))) + seq![',', ' ']
                + field_text(("oauth_signature_method"@, "HMAC-SHA1"@)) + seq![',', ' ']
                + field_text(("oauth_timestamp"@, encode_text(timestamp))) + seq![',', ' ']
                + field_text(("oauth_nonce"@, encode_text(nonce))) + seq![',', ' '] + field_text(
                (
                    "oauth_signature"@,
                    encode_text(
                        request_signature(method, uri, timestamp, nonce, consumer, token, extra),
                    ),
                ),
            )),
            None => seq!['O', 'A', 'u', 't', 'h', ' '] + (field_text(
                ("oauth_consumer_key"@, encode_text(consumer.key@)),
            ) + seq![',', ' '] + field_text(("oauth_signature_method"@, "HMAC-SHA1"@)) + seq![
                ',',
                ' ',
            ] + field_text(("oauth_timestamp"@, encode_text(timestamp))) + seq![',', ' ']
                + field_text(("oauth_nonce"@, encode_text(nonce))) + seq![',', ' '] + field_text(
                (
                    "oauth_signature"@,
                    encode_text(
                        request_signature(method, uri, timestamp, nonce, consumer, token, extra),
                    ),
                ),
            )),
        },
{
    let all = auth_params_view(method, uri, timestamp, nonce, consumer, token, extra);
    let c = ("oauth_consumer_key"@, encode_text(consumer.key@));
    let first = match token {
        Some(t) => seq![c].push(("oauth_token"@, encode_text(t.key@))),
        None => seq![c],
    };
    let second = first.push(("oauth_signature_method"@, "HMAC-SHA1"@));
    let third = second.push(("oauth_timestamp"@, encode_text(timestamp)));
    let fourth = third.push(("oauth_nonce"@, encode_text(nonce)));
    let fifth = fourth.push(
        (
            "oauth_signature"@,
            encode_text(request_signature(method, uri, timestamp, nonce, consumer, token, extra)),
        ),
    );
    assert(all =~= fifth);
    assert(joined_fields(seq![c]) == field_text(c));
    if token.is_some() {
        lemma_joined_fields_push(seq![c], first.last());
    }
    lemma_joined_fields_push(first, second.last());
    lemma_joined_fields_push(second, third.last());
    lemma_joined_fields_push(third, fourth.last());
    lemma_joined_fields_push(fourth, fifth.last());
}

/// Without parameters of the caller the base string is that of the OAuth
/// parameters alone.
pub proof fn lemma_request_without_params(
    method: Seq<char>,
    uri: Seq<char>,
    timestamp: Seq<char>,
    nonce: Seq<char>,
    consumer_key: Seq<char>,
    token_key: Option<Seq<char>>,
)
    ensures
        request_base_text(method, uri, timestamp, nonce, consumer_key, token_key, Seq::empty())
            == signature_base_text(
            method,
            uri,
            oauth_fields(timestamp, nonce, consumer_key, token_key),
        ),
{
    let fields = oauth_fields(timestamp, nonce, consumer_key, token_key);
    assert(fields + encoded_params(Seq::empty()) =~= fields);
}

/// Without a token the parameter set has no `oauth_token`, and the signing
/// key ends with the `&` that follows the consumer secret.
pub proof fn lemma_without_token(
    timestamp: Seq<char>,
    nonce: Seq<char>,
    consumer_key: Seq<char>,
    consumer_secret: Seq<char>,
)
    ensures
        oauth_fields(timestamp, nonce, consumer_key, None) == seq![
            ("oauth_consumer_key"@, encode_text(consumer_key)),
            ("oauth_signature_method"@, "HMAC-SHA1"@),
            ("oauth_timestamp"@, encode_text(timestamp)),
            ("oauth_nonce"@, encode_text(nonce)),
        ],
        signing_key(consumer_secret, None) == consumer_secret.push('&'),
{
    assert(oauth_fields(timestamp, nonce, consumer_key, None) =~= seq![
        ("oauth_consumer_key"@, encode_text(consumer_key)),
        ("oauth_signature_method"@, "HMAC-SHA1"@),
        ("oauth_timestamp"@, encode_text(timestamp)),
        ("oauth_nonce"@, encode_text(nonce)),
    ]);
    assert(signing_key(consumer_secret, None) =~= consumer_secret.push('&'));
}

/// Without a token the full parameter set has five parameters, none of
/// them `oauth_token`, and the signature is made with the consumer secret
/// and `&` as the key, over a base string without a token.
pub proof fn lemma_params_without_token(
    method: Seq<char>,
    uri: Seq<char>,
    timestamp: Seq<char>,
    nonce: Seq<char>,
    consumer: Token,
    extra: Seq<Param>,
)
    ensures
        auth_params_view(method, uri, timestamp, nonce, consumer, None, extra) == seq![
            ("oauth_consumer_key"@, encode_text(consumer.key@)),
            ("oauth_signature_method"@, "HMAC-SHA1"@),
            ("oauth_timestamp"@, encode_text(timestamp)),
            ("oauth_nonce"@, encode_text(nonce)),
            (
                "oauth_signature"@,
                encode_text(
                    request_signature(method, uri, timestamp, nonce, consumer, None, extra),
                ),
            ),
        ],
        request_signature(method, uri, timestamp, nonce, consumer, None, extra) == base64_text(
            hmac_sha1_code(
                encode_utf8(consumer.secret@.push('&')),
                encode_utf8(
                    signature_base_text(
                        method,
                        uri,
                        seq![
                            ("oauth_consumer_key"@, encode_text(consumer.key@)),
                            ("oauth_signature_method"@, "HMAC-SHA1"@),
                            ("oauth_timestamp"@, encode_text(timestamp)),
                            ("oauth_nonce"@, encode_text(nonce)),
                        ] + encoded_params(extra),
                    ),
                ),
            ),
        ),
{
    lemma_without_token(timestamp, nonce, consumer.key@, consumer.secret@);
    assert(auth_params_view(method, uri, timestamp, nonce, consumer, None, extra) =~= seq![
        ("oauth_consumer_key"@, encode_text(consumer.key@)),
        ("oauth_signature_method"@, "HMAC-SHA1"@),
        ("oauth_timestamp"@, encode_text(timestamp)),
        ("oauth_nonce"@, encode_text(nonce)),
        (
            "oauth_signature"@,
            encode_text(request_signature(method, uri, timestamp, nonce, consumer, None, extra)),
        ),
    ]);
}

/// The encoded signature value of a code of twenty bytes ends in `%3D`:
/// the one `=` of its padding, encoded.
pub proof fn lemma_encoded_signature_ends(signature: Seq<char>)
    requires
        base64_shape(signature, 20),
    ensures
        encode_text(signature) == encode_text(signature.drop_last()) + seq!['%', '3', 'D'],
{
    let eq = seq!['='];
    lemma_shape_of_signature(signature);
    assert(signature =~= signature.drop_last() + eq);
    lemma_encode_text_concat(signature.drop_last(), eq);
    assert(is_ascii_chars(eq));
    is_ascii_chars_encode_utf8(eq);
    assert(encode_utf8(eq) =~= seq![0x3Du8]);
    assert(seq![0x3Du8].drop_last() =~= Seq::<u8>::empty());
    assert(encode_byte(0x3Du8) =~= seq!['%', '3', 'D']);
    assert(encode_bytes(Seq::<u8>::empty()) =~= Seq::<char>::empty());
    assert(encode_bytes(seq![0x3Du8]) =~= seq!['%', '3', 'D']);
    assert(encode_text(eq) =~= seq!['%', '3', 'D']);
}

} // verus!
