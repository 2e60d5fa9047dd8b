//! Laws of the order in which texts are sorted.

use vstd::prelude::*;
use vstd::utf8;

use crate::kube;
use crate::order;
use crate::order::SortKey;

verus! {

/// Dictionary order is decided where two sequences first differ.
proof fn lemma_first_difference<T>(a: Seq<T>, b: Seq<T>, le: spec_fn(T, T) -> bool, at: int)
    requires
        0 <= at < a.len(),
        at < b.len(),
        forall|i: int| 0 <= i < at ==> #[trigger] a[i] == b[i],
        a[at] != b[at],
    ensures
        order::lex_le(a, b, le) == le(a[at], b[at]),
    decreases at,
{
    if at > 0 {
        assert(a[0] == b[0]);
        lemma_first_difference(a.drop_first(), b.drop_first(), le, at - 1);
    }
}

/// Dictionary order does not depend on a common beginning.
proof fn lemma_common_beginning<T>(p: Seq<T>, a: Seq<T>, b: Seq<T>, le: spec_fn(T, T) -> bool)
    ensures
        order::lex_le(p + a, p + b, le) == order::lex_le(a, b, le),
    decreases p.len(),
{
    if p.len() == 0 {
        assert(p + a =~= a);
        assert(p + b =~= b);
    } else {
        assert((p + a).drop_first() =~= p.drop_first() + a);
        assert((p + b).drop_first() =~= p.drop_first() + b);
        lemma_common_beginning(p.drop_first(), a, b, le);
    }
}

proof fn lemma_leading_bytes(v: u32)
    by (bit_vector)
    ensures
        utf8::leading_byte_width_1(v) <= 0x7f,
        0xc0 <= utf8::leading_byte_width_2(v) <= 0xdf,
        0xe0 <= utf8::leading_byte_width_3(v) <= 0xef,
        0xf0 <= utf8::leading_byte_width_4(v),
{
}

proof fn lemma_one_byte(u: u32, v: u32)
    by (bit_vector)
    requires
        utf8::has_width_1_encoding(u),
        utf8::has_width_1_encoding(v),
        u < v,
    ensures
        utf8::leading_byte_width_1(u) < utf8::leading_byte_width_1(v),
{
}

proof fn lemma_two_bytes(u: u32, v: u32)
    by (bit_vector)
    requires
        utf8::has_width_2_encoding(u),
        utf8::has_width_2_encoding(v),
        u < v,
    ensures
        utf8::leading_byte_width_2(u) <= utf8::leading_byte_width_2(v),
        utf8::leading_byte_width_2(u) == utf8::leading_byte_width_2(v)
            ==> utf8::last_continuation_byte(u) < utf8::last_continuation_byte(v),
{
}

proof fn lemma_three_bytes(u: u32, v: u32)
    by (bit_vector)
    requires
        utf8::has_width_3_encoding(u),
        utf8::has_width_3_encoding(v),
        u < v,
    ensures
        utf8::leading_byte_width_3(u) <= utf8::leading_byte_width_3(v),
        utf8::leading_byte_width_3(u) == utf8::leading_byte_width_3(v)
            ==> utf8::second_last_continuation_byte(u) <= utf8::second_last_continuation_byte(v),
        utf8::leading_byte_width_3(u) == utf8::leading_byte_width_3(v)
            && utf8::second_last_continuation_byte(u) == utf8::second_last_continuation_byte(v)
            ==> utf8::last_continuation_byte(u) < utf8::last_continuation_byte(v),
{
}

proof fn lemma_four_bytes(u: u32, v: u32)
    by (bit_vector)
    requires
        utf8::has_width_4_encoding(u),
        utf8::has_width_4_encoding(v),
        u < v,
    ensures
        utf8::leading_byte_width_4(u) <= utf8::leading_byte_width_4(v),
        utf8::leading_byte_width_4(u) == utf8::leading_byte_width_4(v)
            ==> utf8::third_last_continuation_byte(u) <= utf8::third_last_continuation_byte(v),
        utf8::leading_byte_width_4(u) == utf8::leading_byte_width_4(v)
            && utf8::third_last_continuation_byte(u) == utf8::third_last_continuation_byte(v)
            ==> utf8::second_last_continuation_byte(u) <= utf8::second_last_continuation_byte(v),
        utf8::leading_byte_width_4(u) == utf8::leading_byte_width_4(v)
            && utf8::third_last_continuation_byte(u) == utf8::third_last_continuation_byte(v)
            && utf8::second_last_continuation_byte(u) == utf8::second_last_continuation_byte(v)
            ==> utf8::last_continuation_byte(u) < utf8::last_continuation_byte(v),
{
}

/// Where the encodings of two characters first differ, that of the lesser one is less.
proof fn lemma_encodings_differ(u: u32, v: u32) -> (at: int)
    requires
        utf8::is_scalar(u),
        utf8::is_scalar(v),
        u < v,
    ensures
        0 <= at < utf8::encode_scalar(u).len(),
        at < utf8::encode_scalar(v).len(),
        forall|i: int|
            0 <= i < at ==> #[trigger] utf8::encode_scalar(u)[i] == utf8::encode_scalar(v)[i],
        utf8::encode_scalar(u)[at] < utf8::encode_scalar(v)[at],
{
    let x = utf8::encode_scalar(u);
    let y = utf8::encode_scalar(v);
    lemma_leading_bytes(u);
    lemma_leading_bytes(v);
    if utf8::has_width_1_encoding(v) {
        lemma_one_byte(u, v);
    } else if utf8::has_width_2_encoding(u) && utf8::has_width_2_encoding(v) {
        lemma_two_bytes(u, v);
    } else if utf8::has_width_3_encoding(u) && utf8::has_width_3_encoding(v) {
        lemma_three_bytes(u, v);
    } else if utf8::has_width_4_encoding(u) {
        lemma_four_bytes(u, v);
    }
    if x[0] != y[0] {
        0
    } else if x[1] != y[1] {
        1
    } else if x[2] != y[2] {
        2
    } else {
        3
    }
}

/// Characters stand in the order of their code points.
proof fn lemma_code_points(c: char, d: char)
    ensures
        (c as u32) < (d as u32) <==> c < d,
        c as u32 == d as u32 <==> c == d,
        utf8::is_scalar(c as u32),
{
    utf8::char_is_scalar(c);
}

/// Texts stand in the order of their UTF-8 bytes.
pub proof fn texts_stand_by_their_bytes(a: Seq<char>, b: Seq<char>)
    ensures
        order::text_le(a, b) == order::lex_le(
            utf8::encode_utf8(a),
            utf8::encode_utf8(b),
            order::byte_le(),
        ),
    decreases a.len(),
{
    if a.len() > 0 && b.len() > 0 {
        let u = a[0] as u32;
        let v = b[0] as u32;
        lemma_code_points(a[0], b[0]);
        lemma_code_points(b[0], a[0]);
        let x = utf8::encode_scalar(u);
        let y = utf8::encode_scalar(v);
        let rest_a = utf8::encode_utf8(a.drop_first());
        let rest_b = utf8::encode_utf8(b.drop_first());
        if a[0] == b[0] {
            texts_stand_by_their_bytes(a.drop_first(), b.drop_first());
            lemma_common_beginning(x, rest_a, rest_b, order::byte_le());
        } else {
            let at = if u < v {
                lemma_encodings_differ(u, v)
            } else {
                lemma_encodings_differ(v, u)
            };
            let full_a = x + rest_a;
            let full_b = y + rest_b;
            assert(full_a[at] == x[at] && full_b[at] == y[at]);
            assert forall|i: int| 0 <= i < at implies #[trigger] full_a[i] == full_b[i] by {
                assert(full_a[i] == x[i] && full_b[i] == y[i]);
            }
            lemma_first_difference(full_a, full_b, order::byte_le(), at);
        }
    }
}

/// Dictionary order: a text stands before another if it is the beginning of it, or has the
/// lesser character where they first differ.
pub proof fn texts_stand_as_in_a_dictionary(a: Seq<char>, b: Seq<char>)
    ensures
        order::text_le(a, b) <==> begins(a, b) || exists|k: int| #[trigger] first_less(a, b, k),
        order::text_lt(a, b) <==> order::text_le(a, b) && a != b,
        order::text_lt(a, b) <==> !order::text_le(b, a),
{
    order::text_order();
    let le = |x: Seq<char>, y: Seq<char>| order::text_le(x, y);
    assert(le(a, b) || le(b, a));
    assert(le(a, a));
    if le(a, b) && le(b, a) {
        assert(a == b);
    }
    let k = lemma_difference(a, b, 0);
    if k < a.len() && k < b.len() {
        lemma_first_difference(a, b, order::char_le(), k);
        if order::text_le(a, b) {
            assert(first_less(a, b, k));
        }
        if exists|h: int| #[trigger] first_less(a, b, h) {
            let h = choose|h: int| #[trigger] first_less(a, b, h);
            assert(h == k);
        }
        if begins(a, b) {
            assert(a[k] == b[k]);
        }
    } else if k == a.len() {
        assert(a =~= a + Seq::empty());
        assert(b =~= a + b.skip(k));
        lemma_common_beginning(a, Seq::empty(), b.skip(k), order::char_le());
    } else {
        assert(b =~= b + Seq::empty());
        assert(a =~= b + a.skip(k));
        lemma_common_beginning(b, a.skip(k), Seq::empty(), order::char_le());
        if exists|h: int| #[trigger] first_less(a, b, h) {
            let h = choose|h: int| #[trigger] first_less(a, b, h);
            assert(a[h] == b[h]);
        }
    }
}

/// Whether a text is the beginning of another.
pub open spec fn begins(a: Seq<char>, b: Seq<char>) -> bool {
    a.len() <= b.len() && forall|i: int| 0 <= i < a.len() ==> #[trigger] a[i] == b[i]
}

/// Whether two texts first differ at a position, and the first has the lesser character there.
pub open spec fn first_less(a: Seq<char>, b: Seq<char>, k: int) -> bool {
    &&& 0 <= k < a.len()
    &&& k < b.len()
    &&& a[k] < b[k]
    &&& forall|i: int| 0 <= i < k ==> #[trigger] a[i] == b[i]
}

/// Where two sequences first differ, or the shorter one ends.
proof fn lemma_difference<T>(a: Seq<T>, b: Seq<T>, from: int) -> (k: int)
    requires
        0 <= from <= a.len(),
        from <= b.len(),
        forall|i: int| 0 <= i < from ==> #[trigger] a[i] == b[i],
    ensures
        from <= k <= a.len(),
        k <= b.len(),
        forall|i: int| 0 <= i < k ==> #[trigger] a[i] == b[i],
        k < a.len() && k < b.len() ==> a[k] != b[k],
        k == a.len() || k == b.len() || a[k] != b[k],
    decreases a.len() - from,
{
    if from < a.len() && from < b.len() && a[from] == b[from] {
        lemma_difference(a, b, from + 1)
    } else {
        from
    }
}

/// Directories stand by their first component that differs: by rank, then by bytes; one that
/// is the beginning of another stands before it.
pub proof fn directories_stand_by_component(
    common: Seq<(u8, Seq<u8>)>,
    x: (u8, Seq<u8>),
    y: (u8, Seq<u8>),
    a: Seq<(u8, Seq<u8>)>,
    b: Seq<(u8, Seq<u8>)>,
)
    requires
        x != y,
    ensures
        kube::directory_le(common, common + a),
        a.len() > 0 ==> !kube::directory_le(common + a, common),
        kube::directory_le(common.push(x) + a, common.push(y) + b) <==> x.0 < y.0 || (x.0 == y.0
            && order::lex_le(x.1, y.1, |u: u8, v: u8| u <= v)),
{
    let le = kube::part_le();
    assert(common =~= common + Seq::empty());
    lemma_common_beginning(common, Seq::empty(), a, le);
    lemma_common_beginning(common, a, Seq::empty(), le);
    let p = common.push(x) + a;
    let q = common.push(y) + b;
    let n = common.len() as int;
    assert(p[n] == x && q[n] == y);
    assert forall|i: int| 0 <= i < n implies #[trigger] p[i] == q[i] by {
        assert(p[i] == common[i] && q[i] == common[i]);
    }
    lemma_first_difference(p, q, le, n);
    assert(order::byte_le() =~= (|u: u8, v: u8| u <= v));
}

/// Bytes stand by the first that differs, and the beginning of others before them.
pub proof fn bytes_stand_by_the_first_that_differs(
    common: Seq<u8>,
    x: u8,
    y: u8,
    a: Seq<u8>,
    b: Seq<u8>,
)
    requires
        x < y,
    ensures
        order::lex_le(common.push(x) + a, common.push(y) + b, |u: u8, v: u8| u <= v),
        !order::lex_le(common.push(y) + b, common.push(x) + a, |u: u8, v: u8| u <= v),
        order::lex_le(common, common + a, |u: u8, v: u8| u <= v),
        a.len() > 0 ==> !order::lex_le(common + a, common, |u: u8, v: u8| u <= v),
{
    let le = |u: u8, v: u8| u <= v;
    assert(common =~= common + Seq::empty());
    lemma_common_beginning(common, Seq::empty(), a, le);
    lemma_common_beginning(common, a, Seq::empty(), le);
    let p = common.push(x) + a;
    let q = common.push(y) + b;
    let n = common.len() as int;
    assert(p[n] == x && q[n] == y);
    assert forall|i: int| 0 <= i < n implies #[trigger] p[i] == q[i] by {
        assert(p[i] == common[i] && q[i] == common[i]);
    }
    lemma_first_difference(p, q, le, n);
    lemma_first_difference(q, p, le, n);
}

/// Whether the directory at a position is searched, there or where it stands before.
pub open spec fn is_searched(directories: Seq<kube::Directory>, order: Seq<usize>, p: int) -> bool {
    exists|i: int|
        0 <= i < order.len() && directories[#[trigger] order[i] as int]@ == directories[p]@
            && order[i] <= p
}

/// Directories are searched in rising order and each once, where it first stands.
pub proof fn directories_are_searched_once_in_order(directories: Seq<kube::Directory>, order: Seq<usize>)
    requires
        order::is_distinct_order(directories, order),
    ensures
        forall|i: int| 0 <= i < order.len() ==> #[trigger] order[i] < directories.len(),
        forall|i: int, j: int|
            0 <= i < j < order.len() ==> kube::directory_le(
                directories[#[trigger] order[i] as int]@,
                directories[#[trigger] order[j] as int]@,
            ) && directories[order[i] as int]@ != directories[order[j] as int]@,
        forall|p: int| 0 <= p < directories.len() ==> #[trigger] is_searched(directories, order, p),
{
    kube::directory_order();
    let le = |a: Seq<(u8, Seq<u8>)>, b: Seq<(u8, Seq<u8>)>| kube::directory_le(a, b);
    assert forall|i: int| 0 <= i < order.len() implies #[trigger] order[i] < directories.len() by {
        assert(order::is_first_of_ties(directories, order[i]));
    }
    assert forall|i: int, j: int| 0 <= i < j < order.len() implies kube::directory_le(
        directories[#[trigger] order[i] as int]@,
        directories[#[trigger] order[j] as int]@,
    ) && directories[order[i] as int]@ != directories[order[j] as int]@ by {
        let a = directories[order[i] as int];
        let b = directories[order[j] as int];
        assert(!b.sorts_le(&a));
        assert(!le(b@, a@));
        assert(le(a@, b@));
        assert(le(a@, a@));
    }
    assert forall|p: int| 0 <= p < directories.len() implies #[trigger] is_searched(
        directories,
        order,
        p,
    ) by {
        assert(order::represented(directories, order, directories[p]));
        let i = choose|i: int|
            0 <= i < order.len() && order::ties(
                directories[(#[trigger] order[i]) as int],
                directories[p],
            );
        kube::tied_directories_are_the_same(directories[order[i] as int], directories[p]);
        assert(order::is_first_of_ties(directories, order[i]));
        if p < order[i] {
            assert(order::ties(directories[p], directories[order[i] as int]));
        }
    }
}

/// Equal keys keep the order in which they stood, and lesser keys stand before greater ones.
pub proof fn equal_keys_keep_their_order(keys: Seq<Seq<char>>, order: Seq<usize>, i: int, j: int)
    requires
        order::arranges(keys, order),
        0 <= i < j < order.len(),
    ensures
        order::text_le(keys[order[i] as int], keys[order[j] as int]),
        keys[order[i] as int] == keys[order[j] as int] ==> order[i] < order[j],
{
    order::text_order();
    let le = |a: Seq<char>, b: Seq<char>| order::text_le(a, b);
    assert(order::text_stands_before(keys, order[i], order[j]));
    assert(le(keys[order[i] as int], keys[order[i] as int]));
}

} // verus!
