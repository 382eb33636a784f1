//! The signature base string of a request.

use crate::order::{
    lemma_sort_ignores_input_order, lemma_sort_params, params_view, sort_params, sorted_params,
    Param,
};
use crate::percent::{
    encode_text, encode_to, lemma_encoded_len, lemma_escape_encoded_again, lemma_utf8_concat,
    utf8_len,
};
use vstd::utf8::*;
use vstd::prelude::*;

verus! {

/// One parameter in the base string: the encoded name, `%3D`, the encoded value.
pub open spec fn param_text(p: Param) -> Seq<char> {
    encode_text(p.0) + seq!['%', '3', 'D'] + encode_text(p.1)
}

/// The parameters in the given order, with `%26` between them.
pub open spec fn joined_params(ps: Seq<Param>) -> Seq<char>
    decreases ps.len(),
{
    if ps.len() == 0 {
        Seq::empty()
    } else if ps.len() == 1 {
        param_text(ps[0])
    } else {
        joined_params(ps.drop_last()) + seq!['%', '2', '6'] + param_text(ps.last())
    }
}

/// The base string: the encoded method, `&`, the encoded URI, `&`, and the
/// sorted parameters, each encoded once more.
pub open spec fn signature_base_text(
    method: Seq<char>,
    uri: Seq<char>,
    params: Seq<Param>,
) -> Seq<char> {
    encode_text(method) + seq!['&'] + encode_text(uri) + seq!['&'] + joined_params(
        sort_params(params),
    )
}

/// The base string does not depend on the order in which the parameters are
/// given: two sequences that hold the same parameters equally often give the
/// same base string.
pub proof fn lemma_base_ignores_param_order(
    method: Seq<char>,
    uri: Seq<char>,
    a: Seq<Param>,
    b: Seq<Param>,
)
    requires
        a.to_multiset() == b.to_multiset(),
    ensures
        signature_base_text(method, uri, a) == signature_base_text(method, uri, b),
{
    lemma_sort_ignores_input_order(a, b);
}

/// Without parameters the base string ends after the second `&`.
pub proof fn lemma_base_without_params(method: Seq<char>, uri: Seq<char>)
    ensures
        signature_base_text(method, uri, Seq::empty()) == encode_text(method) + seq!['&']
            + encode_text(uri) + seq!['&'],
{
    assert(joined_params(sort_params(Seq::empty())) =~= Seq::<char>::empty());
    assert(signature_base_text(method, uri, Seq::empty()) =~= encode_text(method) + seq!['&']
        + encode_text(uri) + seq!['&']);
}

/// Whether every name and every value has at most `m` bytes.
pub open spec fn params_within(ps: Seq<Param>, m: int) -> bool {
    forall|i: int|
        0 <= i < ps.len() ==> utf8_len((#[trigger] ps[i]).0) <= m && utf8_len(ps[i].1) <= m
}

/// A parameter in the base string has at most three bytes for each byte of
/// its name and value, and three for the separator.
pub proof fn lemma_param_text_len(p: Param)
    ensures
        utf8_len(param_text(p)) <= 3 * utf8_len(p.0) + 3 * utf8_len(p.1) + 3,
{
    let eq = seq!['%', '3', 'D'];
    lemma_utf8_concat(encode_text(p.0) + eq, encode_text(p.1));
    lemma_utf8_concat(encode_text(p.0), eq);
    assert(is_ascii_chars(eq));
    is_ascii_chars_encode_utf8(eq);
    lemma_encoded_len(p.0);
    lemma_encoded_len(p.1);
}

/// The joined parameters have at most `6 * m + 6` bytes for each parameter.
pub proof fn lemma_joined_params_len(ps: Seq<Param>, m: int)
    requires
        params_within(ps, m),
    ensures
        utf8_len(joined_params(ps)) <= ps.len() * (6 * m + 6),
    decreases ps.len(),
{
    let n = ps.len() as int;
    let c = 6 * m + 6;
    if n == 0 {
        assert(n * c == 0) by (nonlinear_arith)
            requires
                n == 0,
        ;
    } else {
        let init = ps.drop_last();
        let amp = seq!['%', '2', '6'];
        assert forall|i: int| 0 <= i < init.len() implies utf8_len((#[trigger] init[i]).0) <= m
            && utf8_len(init[i].1) <= m by {
            assert(init[i] == ps[i]);
        }
        lemma_joined_params_len(init, m);
        lemma_param_text_len(ps.last());
        assert(utf8_len(ps[n - 1].0) <= m && utf8_len(ps[n - 1].1) <= m);
        assert((n - 1) * c + c == n * c) by (nonlinear_arith);
        if n == 1 {
            assert((n - 1) * c == 0) by (nonlinear_arith)
                requires
                    n == 1,
            ;
        } else {
            lemma_utf8_concat(joined_params(init) + amp, param_text(ps.last()));
            lemma_utf8_concat(joined_params(init), amp);
            assert(is_ascii_chars(amp));
            is_ascii_chars_encode_utf8(amp);
        }
    }
}

/// Sorting keeps every name and value within the bound.
pub proof fn lemma_sorted_within(ps: Seq<Param>, m: int)
    requires
        params_within(ps, m),
    ensures
        params_within(sort_params(ps), m),
        sort_params(ps).len() == ps.len(),
{
    let sorted = sort_params(ps);
    lemma_sort_params(ps);
    sorted.to_multiset_ensures();
    ps.to_multiset_ensures();
    assert forall|i: int| 0 <= i < sorted.len() implies utf8_len((#[trigger] sorted[i]).0) <= m
        && utf8_len(sorted[i].1) <= m by {
        assert(sorted.contains(sorted[i]));
        assert(sorted.to_multiset().count(sorted[i]) > 0);
        assert(ps.contains(sorted[i]));
        let j = choose|j: int| 0 <= j < ps.len() && ps[j] == sorted[i];
        assert(utf8_len(ps[j].0) <= m);
    }
}

/// The length of the base string in bytes, bounded by the lengths of what
/// it is made from: where every name and value has at most `m` bytes.
pub proof fn lemma_base_len(method: Seq<char>, uri: Seq<char>, params: Seq<Param>, m: int)
    requires
        params_within(params, m),
    ensures
        utf8_len(signature_base_text(method, uri, params)) <= 3 * utf8_len(method) + 3 * utf8_len(
            uri,
        ) + 2 + params.len() * (6 * m + 6),
{
    let amp = seq!['&'];
    let joined = joined_params(sort_params(params));
    lemma_sorted_within(params, m);
    lemma_joined_params_len(sort_params(params), m);
    lemma_encoded_len(method);
    lemma_encoded_len(uri);
    assert(is_ascii_chars(amp));
    is_ascii_chars_encode_utf8(amp);
    lemma_utf8_concat(encode_text(method), amp);
    lemma_utf8_concat(encode_text(method) + amp, encode_text(uri));
    lemma_utf8_concat(encode_text(method) + amp + encode_text(uri), amp);
    lemma_utf8_concat(encode_text(method) + amp + encode_text(uri) + amp, joined);
}

/// Whether `part` stands somewhere in `text`, character for character.
pub open spec fn has_part(text: Seq<char>, part: Seq<char>) -> bool {
    exists|i: int|
        0 <= i && i + part.len() <= text.len() && #[trigger] text.subrange(i, i + part.len())
            == part
}

/// What stands in a text stands in every text around it.
pub proof fn lemma_part_of_concat(pre: Seq<char>, mid: Seq<char>, post: Seq<char>, part: Seq<char>)
    requires
        has_part(mid, part),
    ensures
        has_part(pre + mid + post, part),
{
    let i = choose|i: int|
        0 <= i && i + part.len() <= mid.len() && #[trigger] mid.subrange(i, i + part.len())
            == part;
    let j = pre.len() + i;
    let whole = pre + mid + post;
    assert(whole.subrange(j, j + part.len()) =~= mid.subrange(i, i + part.len()));
}

/// A text stands in itself.
pub proof fn lemma_part_of_itself(text: Seq<char>)
    ensures
        has_part(text, text),
{
    assert(text.subrange(0, 0int + text.len()) =~= text);
}

/// What stands in the text of one parameter stands in the joined parameters.
pub proof fn lemma_part_of_joined(ps: Seq<Param>, i: int, part: Seq<char>)
    requires
        0 <= i < ps.len(),
        has_part(param_text(ps[i]), part),
    ensures
        has_part(joined_params(ps), part),
    decreases ps.len(),
{
    let amp = seq!['%', '2', '6'];
    let init = ps.drop_last();
    let last = param_text(ps.last());
    if ps.len() > 1 {
        if i == ps.len() - 1 {
            lemma_part_of_concat(joined_params(init) + amp, last, Seq::empty(), part);
            assert(joined_params(init) + amp + last + Seq::<char>::empty() =~= joined_params(ps));
        } else {
            assert(init[i] == ps[i]);
            lemma_part_of_joined(init, i, part);
            lemma_part_of_concat(Seq::empty(), joined_params(init), amp + last, part);
            assert(Seq::<char>::empty() + joined_params(init) + (amp + last) =~= joined_params(ps));
        }
    }
}

/// An escape in a name or a value is encoded once more in the base string:
/// where a parameter holds `%3D`, the base string holds `%253D`.
pub proof fn lemma_base_encodes_escape_again(
    method: Seq<char>,
    uri: Seq<char>,
    params: Seq<Param>,
    i: int,
    before: Seq<char>,
    after: Seq<char>,
)
    requires
        0 <= i < params.len(),
        params[i].0 == before + seq!['%', '3', 'D'] + after || params[i].1 == before + seq![
            '%',
            '3',
            'D',
        ] + after,
    ensures
        has_part(signature_base_text(method, uri, params), seq!['%', '2', '5', '3', 'D']),
{
    let esc = seq!['%', '2', '5', '3', 'D'];
    let eq = seq!['%', '3', 'D'];
    let p = params[i];
    let sorted = sort_params(params);
    lemma_escape_encoded_again(before, after);
    lemma_part_of_itself(esc);
    lemma_part_of_concat(encode_text(before), esc, encode_text(after), esc);
    if p.0 == before + eq + after {
        lemma_part_of_concat(Seq::empty(), encode_text(p.0), eq + encode_text(p.1), esc);
        assert(Seq::<char>::empty() + encode_text(p.0) + (eq + encode_text(p.1)) =~= param_text(p));
    } else {
        lemma_part_of_concat(encode_text(p.0) + eq, encode_text(p.1), Seq::empty(), esc);
        assert(encode_text(p.0) + eq + encode_text(p.1) + Seq::<char>::empty() =~= param_text(p));
    }
    lemma_sort_params(params);
    sorted.to_multiset_ensures();
    params.to_multiset_ensures();
    assert(params.contains(p));
    assert(params.to_multiset().count(p) > 0);
    assert(sorted.contains(p));
    let j = choose|j: int| 0 <= j < sorted.len() && sorted[j] == p;
    lemma_part_of_joined(sorted, j, esc);
    let head = encode_text(method) + seq!['&'] + encode_text(uri) + seq!['&'];
    lemma_part_of_concat(head, joined_params(sorted), Seq::empty(), esc);
    assert(head + joined_params(sorted) + Seq::<char>::empty() =~= signature_base_text(
        method,
        uri,
        params,
    ));
}

/// The signature base string of a request with these parameters.
pub fn signature_base(method: &str, uri: &str, params: Vec<(&str, &str)>) -> (base: String)
    ensures
        base@ == signature_base_text(method@, uri@, params_view(params@)),
{
    let mut result = String::new();
    encode_to(method, &mut result);
    result.push('&');
    encode_to(uri, &mut result);
    result.push('&');
    let sorted = sorted_params(&params);
    let ghost head = result@;
    let ghost ps = params_view(sorted@);
    assert(head =~= encode_text(method@) + seq!['&'] + encode_text(uri@) + seq!['&']);
    let n = sorted.len();
    let mut i: usize = 0;
    assert(ps.take(0) =~= Seq::<Param>::empty());
    assert(result@ =~= head + joined_params(ps.take(0)));
    while i < n
        invariant
            i <= n,
            n == sorted@.len(),
            ps == params_view(sorted@),
            result@ == head + joined_params(ps.take(i as int)),
        decreases n - i,
    {
        let ghost before = result@;
        if i > 0 {
            result.push('%');
            result.push('2');
            result.push('6');
        }
        let (k, v) = sorted[i];
        encode_to(k, &mut result);
        result.push('%');
        result.push('3');
        result.push('D');
        encode_to(v, &mut result);
        proof {
            let next = ps.take(i + 1);
            assert(next.drop_last() =~= ps.take(i as int));
            assert(next.last() == ps[i as int]);
            assert(ps[i as int] == (k@, v@));
            if i > 0 {
                assert(result@ =~= before + seq!['%', '2', '6'] + param_text(ps[i as int]));
            } else {
                assert(joined_params(ps.take(0)) =~= Seq::<char>::empty());
                assert(result@ =~= head + param_text(ps[i as int]));
                assert(next[0] == ps[i as int]);
            }
            assert(result@ =~= head + joined_params(next));
        }
        i += 1;
    }
    assert(ps.take(n as int) =~= ps);
    result
}

} // verus!
