//! The order of parameters: by name, then by value, each compared byte by byte.

use vstd::prelude::*;
use vstd::utf8::*;

verus! {

/// A parameter as the contracts see it: the name and the value, each as text.
pub type Param = (Seq<char>, Seq<char>);

/// Whether `a` comes before `b`, given that they agree below index `i`.
pub open spec fn bytes_lt_from(a: Seq<u8>, b: Seq<u8>, i: int) -> bool
    decreases a.len() - i,
{
    if i < 0 || i >= b.len() {
        false
    } else if i >= a.len() {
        true
    } else if a[i] != b[i] {
        a[i] < b[i]
    } else {
        bytes_lt_from(a, b, i + 1)
    }
}

/// Lexicographic order on byte sequences; a proper prefix comes first.
pub open spec fn bytes_lt(a: Seq<u8>, b: Seq<u8>) -> bool {
    bytes_lt_from(a, b, 0)
}

/// The order of texts: that of their UTF-8 bytes.
pub open spec fn text_lt(a: Seq<char>, b: Seq<char>) -> bool {
    bytes_lt(encode_utf8(a), encode_utf8(b))
}

/// The order of parameters: by name, and by value where the names are equal.
pub open spec fn param_lt(p: Param, q: Param) -> bool {
    text_lt(p.0, q.0) || (p.0 == q.0 && text_lt(p.1, q.1))
}

/// No parameter stands before an earlier one.
pub open spec fn is_sorted(s: Seq<Param>) -> bool {
    forall|i: int, j: int| 0 <= i < j < s.len() ==> !param_lt(#[trigger] s[j], #[trigger] s[i])
}

/// Where `x` goes in a sorted `s`: behind every parameter that is not after it.
pub open spec fn insert_pos(s: Seq<Param>, x: Param) -> int
    decreases s.len(),
{
    if s.len() == 0 {
        0
    } else if param_lt(x, s.last()) {
        insert_pos(s.drop_last(), x)
    } else {
        s.len() as int
    }
}

/// The parameters in order; equal names keep the order of their values.
pub open spec fn sort_params(s: Seq<Param>) -> Seq<Param>
    decreases s.len(),
{
    if s.len() == 0 {
        Seq::empty()
    } else {
        let sorted = sort_params(s.drop_last());
        sorted.insert(insert_pos(sorted, s.last()), s.last())
    }
}

/// A parameter of string slices as the contracts see it.
pub open spec fn param_view(p: (&str, &str)) -> Param {
    (p.0@, p.1@)
}

/// A sequence of parameters of string slices as the contracts see it.
pub open spec fn params_view(s: Seq<(&str, &str)>) -> Seq<Param> {
    Seq::new(s.len(), |i: int| param_view(s[i]))
}

proof fn lemma_bytes_trichotomy(a: Seq<u8>, b: Seq<u8>, i: int)
    requires
        0 <= i <= a.len(),
        i <= b.len(),
        forall|j: int| 0 <= j < i ==> a[j] == b[j],
        !bytes_lt_from(a, b, i),
        !bytes_lt_from(b, a, i),
    ensures
        a == b,
    decreases a.len() - i,
{
    if i >= b.len() || i >= a.len() {
        assert(a =~= b);
    } else {
        assert forall|j: int| 0 <= j < i + 1 implies a[j] == b[j] by {}
        lemma_bytes_trichotomy(a, b, i + 1);
    }
}

proof fn lemma_bytes_lt_asym(a: Seq<u8>, b: Seq<u8>, i: int)
    requires
        bytes_lt_from(a, b, i),
    ensures
        !bytes_lt_from(b, a, i),
    decreases a.len() - i,
{
    if 0 <= i < a.len() && i < b.len() && a[i] == b[i] {
        lemma_bytes_lt_asym(a, b, i + 1);
    }
}

proof fn lemma_bytes_lt_trans(a: Seq<u8>, b: Seq<u8>, c: Seq<u8>, i: int)
    requires
        bytes_lt_from(a, b, i),
        bytes_lt_from(b, c, i),
    ensures
        bytes_lt_from(a, c, i),
    decreases a.len() - i,
{
    if 0 <= i < a.len() && i < b.len() && i < c.len() && a[i] == b[i] && b[i] == c[i] {
        lemma_bytes_lt_trans(a, b, c, i + 1);
    }
}

/// Two texts of which neither comes before the other are the same text.
pub proof fn lemma_text_trichotomy(a: Seq<char>, b: Seq<char>)
    requires
        !text_lt(a, b),
        !text_lt(b, a),
    ensures
        a == b,
{
    lemma_bytes_trichotomy(encode_utf8(a), encode_utf8(b), 0);
    encode_utf8_decode_utf8(a);
    encode_utf8_decode_utf8(b);
}

/// Of two parameters at most one comes before the other.
pub proof fn lemma_param_lt_asym(p: Param, q: Param)
    requires
        param_lt(p, q),
    ensures
        !param_lt(q, p),
{
    if text_lt(p.0, q.0) {
        lemma_bytes_lt_asym(encode_utf8(p.0), encode_utf8(q.0), 0);
    } else {
        lemma_bytes_lt_asym(encode_utf8(p.1), encode_utf8(q.1), 0);
    }
    if text_lt(q.0, p.0) {
        lemma_bytes_lt_asym(encode_utf8(q.0), encode_utf8(p.0), 0);
    }
}

/// The order of parameters is transitive.
pub proof fn lemma_param_lt_trans(p: Param, q: Param, r: Param)
    requires
        param_lt(p, q),
        param_lt(q, r),
    ensures
        param_lt(p, r),
{
    if text_lt(p.0, q.0) && text_lt(q.0, r.0) {
        lemma_bytes_lt_trans(encode_utf8(p.0), encode_utf8(q.0), encode_utf8(r.0), 0);
    } else if !text_lt(p.0, q.0) && !text_lt(q.0, r.0) {
        lemma_bytes_lt_trans(encode_utf8(p.1), encode_utf8(q.1), encode_utf8(r.1), 0);
    }
}

/// Two parameters of which neither comes before the other are the same.
pub proof fn lemma_param_trichotomy(p: Param, q: Param)
    requires
        !param_lt(p, q),
        !param_lt(q, p),
    ensures
        p == q,
{
    lemma_text_trichotomy(p.0, q.0);
    lemma_text_trichotomy(p.1, q.1);
}

/// What comes before `a` comes before whatever `a` is not after.
proof fn lemma_lt_then_not_after(x: Param, a: Param, b: Param)
    requires
        param_lt(x, a),
        !param_lt(b, a),
    ensures
        param_lt(x, b),
{
    if param_lt(a, b) {
        lemma_param_lt_trans(x, a, b);
    } else {
        lemma_param_trichotomy(a, b);
    }
}

proof fn lemma_insert_pos(s: Seq<Param>, x: Param)
    ensures
        0 <= insert_pos(s, x) <= s.len(),
        forall|j: int| insert_pos(s, x) <= j < s.len() ==> param_lt(x, #[trigger] s[j]),
        insert_pos(s, x) > 0 ==> !param_lt(x, s[insert_pos(s, x) - 1]),
    decreases s.len(),
{
    if s.len() > 0 && param_lt(x, s.last()) {
        let init = s.drop_last();
        lemma_insert_pos(init, x);
        assert forall|j: int| insert_pos(s, x) <= j < s.len() implies param_lt(
            x,
            #[trigger] s[j],
        ) by {
            if j < init.len() {
                assert(init[j] == s[j]);
            }
        }
    }
}

proof fn lemma_insert_sorted(s: Seq<Param>, x: Param)
    requires
        is_sorted(s),
    ensures
        is_sorted(s.insert(insert_pos(s, x), x)),
{
    let pos = insert_pos(s, x);
    let t = s.insert(pos, x);
    lemma_insert_pos(s, x);
    assert forall|i: int, j: int| 0 <= i < j < t.len() implies !param_lt(
        #[trigger] t[j],
        #[trigger] t[i],
    ) by {
        if j == pos {
            // t[i] is s[i], an element before the position
            if param_lt(x, s[i]) {
                if i < pos - 1 {
                    assert(!param_lt(s[pos - 1], s[i]));
                }
                lemma_lt_then_not_after(x, s[i], s[pos - 1]);
            }
        } else if i == pos {
            assert(t[j] == s[j - 1]);
            lemma_param_lt_asym(x, s[j - 1]);
        } else {
            let si = if i < pos { i } else { i - 1 };
            let sj = if j < pos { j } else { j - 1 };
            assert(t[i] == s[si] && t[j] == s[sj]);
            assert(!param_lt(s[sj], s[si]));
        }
    }
}

/// Sorting gives an ordered sequence of the same parameters, each as often as before.
pub proof fn lemma_sort_params(s: Seq<Param>)
    ensures
        is_sorted(sort_params(s)),
        sort_params(s).to_multiset() == s.to_multiset(),
        sort_params(s).len() == s.len(),
    decreases s.len(),
{
    broadcast use vstd::seq_lib::to_multiset_insert, vstd::seq_lib::to_multiset_build;

    if s.len() == 0 {
        assert(s =~= Seq::empty());
    } else {
        let sorted = sort_params(s.drop_last());
        lemma_sort_params(s.drop_last());
        lemma_insert_pos(sorted, s.last());
        lemma_insert_sorted(sorted, s.last());
        assert(s.drop_last().push(s.last()) =~= s);
        assert(sorted.insert(insert_pos(sorted, s.last()), s.last()).to_multiset()
            == sorted.to_multiset().insert(s.last()));
        assert(s.drop_last().push(s.last()).to_multiset() == s.drop_last().to_multiset().insert(
            s.last(),
        ));
    }
}

/// Two ordered sequences that hold the same parameters equally often are equal.
pub proof fn lemma_sorted_unique(a: Seq<Param>, b: Seq<Param>)
    requires
        is_sorted(a),
        is_sorted(b),
        a.to_multiset() == b.to_multiset(),
    ensures
        a == b,
    decreases a.len(),
{
    broadcast use vstd::seq_lib::to_multiset_remove;

    a.to_multiset_ensures();
    b.to_multiset_ensures();
    if a.len() == 0 {
        assert(a =~= b);
    } else {
        assert(a.contains(a[0]));
        assert(b.contains(b[0]));
        assert(a.to_multiset().count(a[0]) > 0);
        assert(b.to_multiset().count(b[0]) > 0);
        assert(b.contains(a[0]));
        assert(a.contains(b[0]));
        let k = choose|k: int| 0 <= k < b.len() && b[k] == a[0];
        let m = choose|m: int| 0 <= m < a.len() && a[m] == b[0];
        if a[0] != b[0] {
            assert(k > 0 && m > 0);
            assert(!param_lt(b[k], b[0]));
            assert(!param_lt(a[m], a[0]));
            lemma_param_trichotomy(a[0], b[0]);
        }
        let ra = a.remove(0);
        let rb = b.remove(0);
        assert(ra.to_multiset() == rb.to_multiset());
        assert forall|i: int, j: int| 0 <= i < j < ra.len() implies !param_lt(
            #[trigger] ra[j],
            #[trigger] ra[i],
        ) by {
            assert(ra[i] == a[i + 1] && ra[j] == a[j + 1]);
        }
        assert forall|i: int, j: int| 0 <= i < j < rb.len() implies !param_lt(
            #[trigger] rb[j],
            #[trigger] rb[i],
        ) by {
            assert(rb[i] == b[i + 1] && rb[j] == b[j + 1]);
        }
        lemma_sorted_unique(ra, rb);
        assert(a =~= seq![a[0]] + ra);
        assert(b =~= seq![b[0]] + rb);
    }
}

/// The order in which the parameters are given does not change the sorted sequence.
pub proof fn lemma_sort_ignores_input_order(a: Seq<Param>, b: Seq<Param>)
    requires
        a.to_multiset() == b.to_multiset(),
    ensures
        sort_params(a) == sort_params(b),
{
    lemma_sort_params(a);
    lemma_sort_params(b);
    lemma_sorted_unique(sort_params(a), sort_params(b));
}

/// Whether `a` comes before `b` in byte order.
pub fn str_lt(a: &str, b: &str) -> (r: bool)
    ensures
        r == text_lt(a@, b@),
{
    let x = a.as_bytes();
    let y = b.as_bytes();
    let n = x.len();
    let m = y.len();
    let mut i: usize = 0;
    while i < n && i < m
        invariant
            i <= n,
            i <= m,
            n == x@.len(),
            m == y@.len(),
            x@ == encode_utf8(a@),
            y@ == encode_utf8(b@),
            bytes_lt(x@, y@) == bytes_lt_from(x@, y@, i as int),
        decreases n - i,
    {
        if x[i] != y[i] {
            return x[i] < y[i];
        }
        i += 1;
    }
    i < m
}

/// Whether the parameter `p` comes before `q`.
pub fn param_before(p: (&str, &str), q: (&str, &str)) -> (r: bool)
    ensures
        r == param_lt(param_view(p), param_view(q)),
{
    if str_lt(p.0, q.0) {
        true
    } else if str_lt(q.0, p.0) {
        false
    } else {
        proof {
            lemma_text_trichotomy(p.0@, q.0@);
        }
        str_lt(p.1, q.1)
    }
}

/// The parameters in order, by name and then by value.
pub fn sorted_params<'a>(params: &Vec<(&'a str, &'a str)>) -> (sorted: Vec<(&'a str, &'a str)>)
    ensures
        params_view(sorted@) == sort_params(params_view(params@)),
{
    let mut sorted: Vec<(&'a str, &'a str)> = Vec::new();
    let n = params.len();
    let mut i: usize = 0;
    assert(params_view(params@).take(0) =~= Seq::<Param>::empty());
    assert(params_view(sorted@) =~= Seq::<Param>::empty());
    while i < n
        invariant
            i <= n,
            n == params@.len(),
            sorted@.len() == i,
            params_view(sorted@) == sort_params(params_view(params@).take(i as int)),
        decreases n - i,
    {
        let x = params[i];
        let ghost before = params_view(sorted@);
        let ghost xv = param_view(x);
        let mut pos: usize = sorted.len();
        assert(before.take(pos as int) =~= before);
        while pos > 0 && param_before(x, sorted[pos - 1])
            invariant
                pos <= sorted@.len(),
                before == params_view(sorted@),
                xv == param_view(x),
                insert_pos(before, xv) == insert_pos(before.take(pos as int), xv),
            decreases pos,
        {
            proof {
                let cur = before.take(pos as int);
                assert(cur.last() == before[pos - 1]);
                assert(cur.drop_last() =~= before.take(pos - 1));
            }
            pos -= 1;
        }
        proof {
            let cur = before.take(pos as int);
            if pos > 0 {
                assert(cur.last() == before[pos - 1]);
            }
            assert(insert_pos(before, xv) == pos);
            let next = params_view(params@).take(i + 1);
            assert(next.drop_last() =~= params_view(params@).take(i as int));
            assert(next.last() == xv);
        }
        sorted.insert(pos, x);
        proof {
            assert(params_view(sorted@) =~= before.insert(pos as int, xv));
        }
        i += 1;
    }
    assert(params_view(params@).take(n as int) =~= params_view(params@));
    sorted
}

} // verus!
