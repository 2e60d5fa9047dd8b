//! Lexicographic order, and the stable order in which keys are sorted.

use vstd::prelude::*;
use vstd::relations;

use crate::text::chars_of;

verus! {

/// Whether `a` comes before `b` in the dictionary order that `le` gives, or equals it.
pub open spec fn lex_le<T>(a: Seq<T>, b: Seq<T>, le: spec_fn(T, T) -> bool) -> bool
    decreases a.len(),
{
    a.len() == 0 || (b.len() > 0 && if a[0] == b[0] {
        lex_le(a.drop_first(), b.drop_first(), le)
    } else {
        le(a[0], b[0])
    })
}

proof fn lemma_lex_reflexive<T>(a: Seq<T>, le: spec_fn(T, T) -> bool)
    ensures
        lex_le(a, a, le),
    decreases a.len(),
{
    if a.len() > 0 {
        lemma_lex_reflexive(a.drop_first(), le);
    }
}

proof fn lemma_lex_antisymmetric<T>(a: Seq<T>, b: Seq<T>, le: spec_fn(T, T) -> bool)
    requires
        relations::total_ordering(le),
        lex_le(a, b, le),
        lex_le(b, a, le),
    ensures
        a == b,
    decreases a.len(),
{
    if a.len() > 0 && b.len() > 0 {
        assert(a[0] == b[0]);
        lemma_lex_antisymmetric(a.drop_first(), b.drop_first(), le);
        assert(a =~= seq![a[0]] + a.drop_first());
        assert(b =~= seq![b[0]] + b.drop_first());
    } else {
        assert(a =~= b);
    }
}

proof fn lemma_lex_transitive<T>(a: Seq<T>, b: Seq<T>, c: Seq<T>, le: spec_fn(T, T) -> bool)
    requires
        relations::total_ordering(le),
        lex_le(a, b, le),
        lex_le(b, c, le),
    ensures
        lex_le(a, c, le),
    decreases a.len(),
{
    if a.len() > 0 {
        if a[0] == b[0] && b[0] == c[0] {
            lemma_lex_transitive(a.drop_first(), b.drop_first(), c.drop_first(), le);
        } else if a[0] != b[0] && b[0] != c[0] {
            assert(le(a[0], b[0]) && le(b[0], c[0]));
            assert(le(a[0], c[0]));
        }
    }
}

proof fn lemma_lex_total<T>(a: Seq<T>, b: Seq<T>, le: spec_fn(T, T) -> bool)
    requires
        relations::total_ordering(le),
    ensures
        lex_le(a, b, le) || lex_le(b, a, le),
    decreases a.len(),
{
    if a.len() > 0 && b.len() > 0 {
        if a[0] == b[0] {
            lemma_lex_total(a.drop_first(), b.drop_first(), le);
        } else {
            assert(le(a[0], b[0]) || le(b[0], a[0]));
        }
    }
}

/// Dictionary order over a total order is a total order.
pub proof fn lex_is_total_ordering<T>(le: spec_fn(T, T) -> bool)
    requires
        relations::total_ordering(le),
    ensures
        relations::total_ordering(|a: Seq<T>, b: Seq<T>| lex_le(a, b, le)),
{
    let r = |a: Seq<T>, b: Seq<T>| lex_le(a, b, le);
    assert forall|a: Seq<T>| #[trigger] r(a, a) by {
        lemma_lex_reflexive(a, le);
    }
    assert forall|a: Seq<T>, b: Seq<T>| #[trigger] r(a, b) && #[trigger] r(b, a) implies a == b by {
        lemma_lex_antisymmetric(a, b, le);
    }
    assert forall|a: Seq<T>, b: Seq<T>, c: Seq<T>|
        #[trigger] r(a, b) && #[trigger] r(b, c) implies r(a, c) by {
        lemma_lex_transitive(a, b, c, le);
    }
    assert forall|a: Seq<T>, b: Seq<T>| #[trigger] r(a, b) || #[trigger] r(b, a) by {
        lemma_lex_total(a, b, le);
    }
    assert(relations::reflexive(r));
    assert(relations::antisymmetric(r));
    assert(relations::transitive(r));
    assert(relations::strongly_connected(r));
}

/// The order of characters: that of their code points.
pub open spec fn char_le() -> spec_fn(char, char) -> bool {
    |a: char, b: char| a <= b
}

/// The order of bytes.
pub open spec fn byte_le() -> spec_fn(u8, u8) -> bool {
    |a: u8, b: u8| a <= b
}

/// The order of texts: the dictionary order of their code points, which is also that of
/// their UTF-8 bytes.
pub open spec fn text_le(a: Seq<char>, b: Seq<char>) -> bool {
    lex_le(a, b, char_le())
}

/// Whether `a` comes strictly before `b`.
pub open spec fn text_lt(a: Seq<char>, b: Seq<char>) -> bool {
    text_le(a, b) && a != b
}

/// Texts are totally ordered.
pub proof fn text_order()
    ensures
        relations::total_ordering(|a: Seq<char>, b: Seq<char>| text_le(a, b)),
{
    assert(relations::total_ordering(char_le()));
    lex_is_total_ordering(char_le());
    assert((|a: Seq<char>, b: Seq<char>| text_le(a, b)) =~= (|a: Seq<char>, b: Seq<char>|
        lex_le(a, b, char_le())));
}

/// A value that can be sorted.
pub trait SortKey: Sized {
    /// Whether `self` may stand before `other`.
    spec fn sorts_le(&self, other: &Self) -> bool;

    proof fn sorts_total(a: &Self, b: &Self)
        ensures
            a.sorts_le(b) || b.sorts_le(a),
    ;

    proof fn sorts_transitive(a: &Self, b: &Self, c: &Self)
        requires
            a.sorts_le(b),
            b.sorts_le(c),
        ensures
            a.sorts_le(c),
    ;

    fn sorts_before(&self, other: &Self) -> (r: bool)
        ensures
            r == self.sorts_le(other),
    ;
}

/// Whether `a` comes before `b` in dictionary order, or equals it.
pub fn text_before(a: &str, b: &str) -> (r: bool)
    ensures
        r == text_le(a@, b@),
{
    let x = chars_of(a);
    let y = chars_of(b);
    let mut i: usize = 0;
    assert(x@.skip(0) =~= x@);
    assert(y@.skip(0) =~= y@);
    while i < x.len() && i < y.len()
        invariant
            i <= x@.len(),
            i <= y@.len(),
            x@ == a@,
            y@ == b@,
            text_le(a@, b@) == text_le(x@.skip(i as int), y@.skip(i as int)),
        decreases x@.len() - i,
    {
        if x[i] != y[i] {
            return x[i] <= y[i];
        }
        assert(x@.skip(i as int).drop_first() =~= x@.skip(i + 1));
        assert(y@.skip(i as int).drop_first() =~= y@.skip(i + 1));
        i = i + 1;
    }
    i == x.len()
}

impl SortKey for String {
    open spec fn sorts_le(&self, other: &Self) -> bool {
        text_le(self@, other@)
    }

    proof fn sorts_total(a: &Self, b: &Self) {
        lemma_lex_total(a@, b@, char_le());
    }

    proof fn sorts_transitive(a: &Self, b: &Self, c: &Self) {
        lemma_lex_transitive(a@, b@, c@, char_le());
    }

    fn sorts_before(&self, other: &Self) -> (r: bool) {
        text_before(self.as_str(), other.as_str())
    }
}

/// Whether `order` lists the positions of `keys` as a stable sort arranges them: each once,
/// by rising key, and equal keys by rising position.
pub open spec fn is_stable_order<K: SortKey>(keys: Seq<K>, order: Seq<usize>) -> bool {
    &&& order.len() == keys.len()
    &&& forall|i: int| 0 <= i < order.len() ==> (#[trigger] order[i]) < keys.len()
    &&& forall|k: usize| k < keys.len() ==> #[trigger] order.contains(k)
    &&& forall|i: int, j: int|
        0 <= i < j < order.len() ==> stands_before(keys, #[trigger] order[i], #[trigger] order[j])
}

/// Whether a stable sort puts position `p` of `keys` before position `q`.
pub open spec fn stands_before<K: SortKey>(keys: Seq<K>, p: usize, q: usize) -> bool {
    keys[p as int].sorts_le(&keys[q as int]) && (keys[q as int].sorts_le(&keys[p as int]) ==> p < q)
}

/// Whether `order` lists the positions of texts as a stable sort arranges them.
pub open spec fn arranges(keys: Seq<Seq<char>>, order: Seq<usize>) -> bool {
    &&& order.len() == keys.len()
    &&& forall|i: int| 0 <= i < order.len() ==> (#[trigger] order[i]) < keys.len()
    &&& forall|k: usize| k < keys.len() ==> #[trigger] order.contains(k)
    &&& forall|i: int, j: int|
        0 <= i < j < order.len() ==> text_stands_before(
            keys,
            #[trigger] order[i],
            #[trigger] order[j],
        )
}

/// Whether a stable sort puts position `p` of texts before position `q`.
pub open spec fn text_stands_before(keys: Seq<Seq<char>>, p: usize, q: usize) -> bool {
    text_le(keys[p as int], keys[q as int]) && (text_le(keys[q as int], keys[p as int]) ==> p < q)
}

/// The stable order of strings is that of their texts.
pub proof fn lemma_stable_texts(keys: Seq<String>, order: Seq<usize>)
    requires
        is_stable_order(keys, order),
    ensures
        arranges(keys.map_values(|s: String| s@), order),
{
    let texts = keys.map_values(|s: String| s@);
    assert forall|i: int, j: int| 0 <= i < j < order.len() implies text_stands_before(
        texts,
        #[trigger] order[i],
        #[trigger] order[j],
    ) by {
        assert(stands_before(keys, order[i], order[j]));
    }
}

/// The positions of `keys` as a stable sort arranges them.
pub fn stable_order<K: SortKey>(keys: &Vec<K>) -> (order: Vec<usize>)
    ensures
        is_stable_order(keys@, order@),
{
    let mut order: Vec<usize> = Vec::new();
    let n: usize = keys.len();
    for k in 0..n
        invariant
            n == keys@.len(),
            order@.len() == k,
            forall|i: int| 0 <= i < order@.len() ==> (#[trigger] order@[i]) < k,
            forall|p: usize| p < k ==> #[trigger] order@.contains(p),
            forall|i: int, j: int|
                0 <= i < j < order@.len() ==> stands_before(
                    keys@,
                    #[trigger] order@[i],
                    #[trigger] order@[j],
                ),
    {
        let mut at: usize = k;
        while at > 0 && !keys[order[at - 1]].sorts_before(&keys[k])
            invariant
                n == keys@.len(),
                k < n,
                at <= k,
                order@.len() == k,
                forall|i: int| 0 <= i < order@.len() ==> (#[trigger] order@[i]) < k,
                forall|i: int|
                    at <= i < k ==> !keys@[(#[trigger] order@[i]) as int].sorts_le(&keys@[k as int]),
            decreases at,
        {
            at = at - 1;
        }
        let ghost before = order@;
        order.insert(at, k);
        assert(order@ == before.insert(at as int, k));
        assert forall|p: usize| p < k + 1 implies #[trigger] order@.contains(p) by {
            if p == k {
                assert(order@[at as int] == k);
            } else {
                assert(before.contains(p));
                let i = choose|i: int| 0 <= i < before.len() && before[i] == p;
                if i < at {
                    assert(order@[i] == p);
                } else {
                    assert(order@[i + 1] == p);
                }
            }
        }
        assert forall|i: int, j: int| 0 <= i < j < order@.len() implies stands_before(
            keys@,
            #[trigger] order@[i],
            #[trigger] order@[j],
        ) by {
            let x = if i < at {
                i
            } else {
                i - 1
            };
            let y = if j < at {
                j
            } else {
                j - 1
            };
            if i != at && j != at {
                assert(stands_before(keys@, before[x], before[y]));
            } else if j == at {
                // The element before the gap may stand before the new one, and so may all
                // that stand before it.
                let last = before[at - 1];
                assert(keys@[last as int].sorts_le(&keys@[k as int]));
                if i < at - 1 {
                    assert(stands_before(keys@, before[i], last));
                    K::sorts_transitive(
                        &keys@[before[i] as int],
                        &keys@[last as int],
                        &keys@[k as int],
                    );
                }
            } else {
                assert(!keys@[before[y] as int].sorts_le(&keys@[k as int]));
                K::sorts_total(&keys@[before[y] as int], &keys@[k as int]);
            }
        }
    }
    order
}

/// Whether two keys may stand in either order.
pub open spec fn ties<K: SortKey>(a: K, b: K) -> bool {
    a.sorts_le(&b) && b.sorts_le(&a)
}

/// Whether `order` lists the positions of `keys` by strictly rising key, and of the keys that
/// tie the first.
pub open spec fn is_distinct_order<K: SortKey>(keys: Seq<K>, order: Seq<usize>) -> bool {
    &&& forall|i: int| 0 <= i < order.len() ==> is_first_of_ties(keys, #[trigger] order[i])
    &&& forall|i: int, j: int|
        0 <= i < j < order.len() ==> !keys[#[trigger] order[j] as int].sorts_le(
            &keys[#[trigger] order[i] as int],
        )
    &&& forall|p: int| 0 <= p < keys.len() ==> represented(keys, order, #[trigger] keys[p])
}

/// Whether no key before the position ties with the one there.
pub open spec fn is_first_of_ties<K: SortKey>(keys: Seq<K>, at: usize) -> bool {
    at < keys.len() && forall|p: int|
        0 <= p < at ==> !ties(#[trigger] keys[p], keys[at as int])
}

/// Whether one of the positions holds a key that ties with `key`.
pub open spec fn represented<K: SortKey>(keys: Seq<K>, order: Seq<usize>, key: K) -> bool {
    exists|i: int| 0 <= i < order.len() && ties(keys[(#[trigger] order[i]) as int], key)
}

/// The positions of `keys` by strictly rising key, and of keys that tie the first.
pub fn distinct_order<K: SortKey>(keys: &Vec<K>) -> (order: Vec<usize>)
    ensures
        is_distinct_order(keys@, order@),
{
    let sorted = stable_order(keys);
    let n: usize = sorted.len();
    let mut order: Vec<usize> = Vec::new();
    for i in 0..n
        invariant
            n == sorted@.len(),
            is_stable_order(keys@, sorted@),
            i > 0 <==> order@.len() > 0,
            i > 0 ==> ties(
                keys@[order@[order@.len() - 1] as int],
                keys@[sorted@[i - 1] as int],
            ),
            forall|k: int| 0 <= k < order@.len() ==> is_first_of_ties(keys@, #[trigger] order@[k]),
            forall|k: int, j: int|
                0 <= k < j < order@.len() ==> !keys@[#[trigger] order@[j] as int].sorts_le(
                    &keys@[#[trigger] order@[k] as int],
                ),
            forall|k: int|
                0 <= k < i ==> represented(keys@, order@, keys@[#[trigger] sorted@[k] as int]),
    {
        let ghost before = order@;
        let at: usize = sorted[i];
        let m: usize = order.len();
        let ghost key = keys@[at as int];
        proof {
            K::sorts_total(&key, &key);
        }
        if m > 0 {
            assert(is_first_of_ties(keys@, before[m - 1]));
            assert(stands_before(keys@, sorted@[i - 1], at));
        }
        let repeated = m > 0 && keys[at].sorts_before(&keys[order[m - 1]]);
        if repeated {
            proof {
                let last = keys@[before[m - 1] as int];
                K::sorts_transitive(&last, &keys@[sorted@[i - 1] as int], &key);
                assert(ties(last, key));
            }
        } else {
            order.push(at);
            proof {
                if i > 0 {
                    let last = keys@[before[m - 1] as int];
                    let previous = keys@[sorted@[i - 1] as int];
                    assert forall|k: int| 0 <= k < before.len() implies !key.sorts_le(
                        &keys@[#[trigger] before[k] as int],
                    ) by {
                        if k < m - 1 {
                            assert(is_first_of_ties(keys@, before[k]));
                            assert(!last.sorts_le(&keys@[before[k] as int]));
                            K::sorts_total(&last, &keys@[before[k] as int]);
                            if key.sorts_le(&keys@[before[k] as int]) {
                                K::sorts_transitive(&key, &keys@[before[k] as int], &last);
                            }
                        }
                    }
                    assert forall|p: int| 0 <= p < at implies !ties(#[trigger] keys@[p], key) by {
                        if ties(keys@[p], key) {
                            assert(sorted@.contains(p as usize));
                            let k = choose|k: int|
                                0 <= k < sorted@.len() && sorted@[k] == p as usize;
                            if k > i {
                                assert(stands_before(keys@, sorted@[i as int], sorted@[k]));
                            } else if k < i {
                                if k < i - 1 {
                                    assert(stands_before(keys@, sorted@[k], sorted@[i - 1]));
                                }
                                K::sorts_total(&keys@[p], &keys@[p]);
                                assert(keys@[p].sorts_le(&previous));
                                K::sorts_transitive(&key, &keys@[p], &previous);
                                K::sorts_transitive(&key, &previous, &last);
                            }
                        }
                    }
                } else {
                    assert forall|p: int| 0 <= p < at implies !ties(#[trigger] keys@[p], key) by {
                        assert(sorted@.contains(p as usize));
                        let k = choose|k: int| 0 <= k < sorted@.len() && sorted@[k] == p as usize;
                        assert(stands_before(keys@, sorted@[0], sorted@[k]));
                    }
                }
                assert(is_first_of_ties(keys@, at));
            }
        }
        proof {
            assert forall|k: int| 0 <= k < i + 1 implies represented(
                keys@,
                order@,
                keys@[#[trigger] sorted@[k] as int],
            ) by {
                if k < i {
                    assert(represented(keys@, before, keys@[sorted@[k] as int]));
                    let h = choose|h: int|
                        0 <= h < before.len() && ties(
                            keys@[(#[trigger] before[h]) as int],
                            keys@[sorted@[k] as int],
                        );
                    assert(order@[h] == before[h]);
                } else {
                    let h = order@.len() - 1;
                    assert(ties(keys@[order@[h] as int], key));
                }
            }
        }
    }
    proof {
        assert forall|p: int| 0 <= p < keys@.len() implies represented(
            keys@,
            order@,
            #[trigger] keys@[p],
        ) by {
            assert(sorted@.contains(p as usize));
            let k = choose|k: int| 0 <= k < sorted@.len() && sorted@[k] == p as usize;
            assert(represented(keys@, order@, keys@[sorted@[k] as int]));
        }
    }
    order
}

} // verus!
