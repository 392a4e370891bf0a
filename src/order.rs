//! Ordering of property names by their UTF-8 bytes, the order of `str`.
use vstd::prelude::*;
use vstd::utf8::{decode_utf8, encode_utf8};
use crate::dom::distinct_names;
use crate::variant::Variant;

verus! {

/// Lexicographic order on byte sequences: `a` comes no later than `b`.
pub open spec fn bytes_le(a: Seq<u8>, b: Seq<u8>) -> bool
    decreases a.len(),
{
    if a.len() == 0 {
        true
    } else if b.len() == 0 {
        false
    } else if a[0] != b[0] {
        a[0] < b[0]
    } else {
        bytes_le(a.drop_first(), b.drop_first())
    }
}

/// Names ordered as `str` orders them: by their UTF-8 bytes.
pub open spec fn name_le(a: Seq<char>, b: Seq<char>) -> bool {
    bytes_le(encode_utf8(a), encode_utf8(b))
}

/// Any two byte sequences are ordered one way or the other.
pub proof fn lemma_bytes_le_total(a: Seq<u8>, b: Seq<u8>)
    ensures
        bytes_le(a, b) || bytes_le(b, a),
    decreases a.len(),
{
    if a.len() > 0 && b.len() > 0 && a[0] == b[0] {
        lemma_bytes_le_total(a.drop_first(), b.drop_first());
    }
}

/// The order on byte sequences is transitive.
pub proof fn lemma_bytes_le_transitive(a: Seq<u8>, b: Seq<u8>, c: Seq<u8>)
    requires
        bytes_le(a, b),
        bytes_le(b, c),
    ensures
        bytes_le(a, c),
    decreases a.len(),
{
    if a.len() > 0 && b.len() > 0 && c.len() > 0 && a[0] == b[0] && b[0] == c[0] {
        lemma_bytes_le_transitive(a.drop_first(), b.drop_first(), c.drop_first());
    }
}

/// Strict byte order.
pub open spec fn bytes_lt(a: Seq<u8>, b: Seq<u8>) -> bool {
    bytes_le(a, b) && a != b
}

/// Two sequences ordered both ways are equal.
pub proof fn lemma_bytes_le_antisymmetric(a: Seq<u8>, b: Seq<u8>)
    requires
        bytes_le(a, b),
        bytes_le(b, a),
    ensures
        a == b,
    decreases a.len(),
{
    if a.len() > 0 && b.len() > 0 {
        lemma_bytes_le_antisymmetric(a.drop_first(), b.drop_first());
        assert(a =~= seq![a[0]] + a.drop_first());
        assert(b =~= seq![b[0]] + b.drop_first());
    } else {
        assert(a.len() == 0 && b.len() == 0);
        assert(a =~= b);
    }
}

/// The strict byte order is transitive.
pub proof fn lemma_bytes_lt_transitive(a: Seq<u8>, b: Seq<u8>, c: Seq<u8>)
    requires
        bytes_lt(a, b),
        bytes_lt(b, c),
    ensures
        bytes_lt(a, c),
{
    lemma_bytes_le_transitive(a, b, c);
    if a == c {
        lemma_bytes_le_antisymmetric(a, b);
    }
}

/// Whether the keys of `s` strictly ascend.
pub open spec fn strictly_ascending<A>(s: Seq<A>, key: spec_fn(A) -> Seq<u8>) -> bool {
    forall|i: int, j: int| 0 <= i < j < s.len() ==> bytes_lt(key(s[i]), key(s[j]))
}

/// Two sequences with strictly ascending keys and the same members are
/// the same sequence.
pub proof fn lemma_strictly_ascending_unique<A>(
    s1: Seq<A>,
    s2: Seq<A>,
    key: spec_fn(A) -> Seq<u8>,
)
    requires
        strictly_ascending(s1, key),
        strictly_ascending(s2, key),
        forall|x: A| s1.contains(x) <==> s2.contains(x),
    ensures
        s1 == s2,
{
    lemma_strictly_ascending_prefix(s1, s2, key, s1.len() as int);
    lemma_strictly_ascending_prefix(s2, s1, key, s2.len() as int);
    if s1.len() < s2.len() {
        assert(s1.contains(s2[s1.len() as int]));
        let m = choose|m: int| 0 <= m < s1.len() && s1[m] == s2[s1.len() as int];
        assert(s2[m] == s1[m]);
        assert(bytes_lt(key(s2[m]), key(s2[s1.len() as int])));
    } else if s2.len() < s1.len() {
        assert(s2.contains(s1[s2.len() as int]));
        let m = choose|m: int| 0 <= m < s2.len() && s2[m] == s1[s2.len() as int];
        assert(s1[m] == s2[m]);
        assert(bytes_lt(key(s1[m]), key(s1[s2.len() as int])));
    }
    assert(s1 =~= s2);
}

/// The first `k` members of two such sequences agree, as far as both reach.
proof fn lemma_strictly_ascending_prefix<A>(
    s1: Seq<A>,
    s2: Seq<A>,
    key: spec_fn(A) -> Seq<u8>,
    k: int,
)
    requires
        strictly_ascending(s1, key),
        strictly_ascending(s2, key),
        forall|x: A| s1.contains(x) <==> s2.contains(x),
        0 <= k <= s1.len(),
    ensures
        forall|j: int| 0 <= j < k && j < s2.len() ==> s1[j] == s2[j],
    decreases k,
{
    if k > 0 {
        lemma_strictly_ascending_prefix(s1, s2, key, k - 1);
        let p = k - 1;
        if p < s2.len() && s1[p] != s2[p] {
            let a = s1[p];
            let b = s2[p];
            assert(s1.contains(a));
            assert(s2.contains(b));
            let m = choose|m: int| 0 <= m < s1.len() && s1[m] == b;
            let q = choose|q: int| 0 <= q < s2.len() && s2[q] == a;
            if m < p {
                assert(s2[m] == b);
                assert(bytes_lt(key(s2[m]), key(s2[p])));
            }
            if q < p {
                assert(s1[q] == a);
                assert(bytes_lt(key(s1[q]), key(s1[p])));
            }
            assert(bytes_lt(key(a), key(b)));
            assert(bytes_lt(key(b), key(a)));
            lemma_bytes_le_antisymmetric(key(a), key(b));
        }
    }
}

/// Compares two byte strings in lexicographic order.
pub fn bytes_le_exec(a: &[u8], b: &[u8]) -> (r: bool)
    ensures
        r == bytes_le(a@, b@),
{
    let mut i: usize = 0;
    proof {
        assert(a@.subrange(0, a@.len() as int) =~= a@);
        assert(b@.subrange(0, b@.len() as int) =~= b@);
    }
    while i < a.len() && i < b.len()
        invariant
            i <= a@.len(),
            i <= b@.len(),
            a@.subrange(0, i as int) == b@.subrange(0, i as int),
            bytes_le(a@, b@) == bytes_le(a@.subrange(i as int, a@.len() as int), b@.subrange(i as int, b@.len() as int)),
        decreases a@.len() - i,
    {
        if a[i] != b[i] {
            return a[i] < b[i];
        }
        proof {
            let sa = a@.subrange(i as int, a@.len() as int);
            let sb = b@.subrange(i as int, b@.len() as int);
            assert(sa.drop_first() =~= a@.subrange(i + 1, a@.len() as int));
            assert(sb.drop_first() =~= b@.subrange(i + 1, b@.len() as int));
            assert(a@.subrange(0, i + 1) =~= b@.subrange(0, i + 1)) by {
                assert(a@.subrange(0, i + 1) =~= a@.subrange(0, i as int).push(a@[i as int]));
                assert(b@.subrange(0, i + 1) =~= b@.subrange(0, i as int).push(b@[i as int]));
            }
        }
        i = i + 1;
    }
    proof {
        assert(a@.subrange(i as int, a@.len() as int).len() == 0 || b@.subrange(i as int, b@.len() as int).len() == 0);
    }
    i == a.len()
}

/// The order in which the properties are emitted: each index once, names
/// in ascending order, equal names in their stored order.
pub open spec fn is_sorted_order(props: Seq<(String, Variant)>, order: Seq<usize>) -> bool {
    &&& order.len() == props.len()
    &&& order.no_duplicates()
    &&& forall|k: int| 0 <= k < order.len() ==> order[k] < props.len()
    &&& forall|p: usize| p < props.len() ==> order.contains(p)
    &&& forall|i: int, j: int|
        0 <= i < j < order.len() ==> name_le(props[order[i] as int].0@, props[order[j] as int].0@)
}

/// Where names are distinct, a sorted order has them strictly ascending.
pub proof fn lemma_sorted_order_strict(props: Seq<(String, Variant)>, order: Seq<usize>)
    requires
        is_sorted_order(props, order),
        distinct_names(props),
    ensures
        forall|i: int, j: int|
            0 <= i < j < order.len() ==> bytes_lt(
                encode_utf8(props[order[i] as int].0@),
                encode_utf8(props[order[j] as int].0@),
            ),
{
    broadcast use vstd::utf8::encode_utf8_decode_utf8;

    assert forall|i: int, j: int| 0 <= i < j < order.len() implies bytes_lt(
        encode_utf8(props[order[i] as int].0@),
        encode_utf8(props[order[j] as int].0@),
    ) by {
        assert(name_le(props[order[i] as int].0@, props[order[j] as int].0@));
        assert(order[i] != order[j]);
        assert(props[order[i] as int].0@ != props[order[j] as int].0@);
        if encode_utf8(props[order[i] as int].0@) == encode_utf8(props[order[j] as int].0@) {
            assert(decode_utf8(encode_utf8(props[order[i] as int].0@)) == props[order[i] as int].0@);
            assert(decode_utf8(encode_utf8(props[order[j] as int].0@)) == props[order[j] as int].0@);
        }
    }
}

/// The indices of `props`, ordered by property name (a stable insertion sort).
/// Where names are distinct, as in a well-formed tree, they strictly ascend.
pub fn sorted_property_order(props: &Vec<(String, Variant)>) -> (r: Vec<usize>)
    ensures
        is_sorted_order(props@, r@),
        distinct_names(props@) ==> forall|i: int, j: int|
            0 <= i < j < r@.len() ==> bytes_lt(
                encode_utf8(props@[r@[i] as int].0@),
                encode_utf8(props@[r@[j] as int].0@),
            ),
{
    let n = props.len();
    let mut order: Vec<usize> = Vec::new();
    let mut i: usize = 0;
    while i < n
        invariant
            n == props@.len(),
            i <= n,
            order@.len() == i,
            order@.no_duplicates(),
            forall|k: int| 0 <= k < order@.len() ==> order@[k] < i,
            forall|p: usize| p < i ==> order@.contains(p),
            forall|a: int, b: int|
                0 <= a < b < order@.len() ==> name_le(
                    props@[order@[a] as int].0@,
                    props@[order@[b] as int].0@,
                ),
        decreases n - i,
    {
        let key = props[i].0.as_str().as_bytes();
        let ghost kv = encode_utf8(props@[i as int].0@);
        let mut j: usize = order.len();
        loop
            invariant
                n == props@.len(),
                i < n,
                j <= order@.len(),
                key@ == kv,
                forall|k: int| 0 <= k < order@.len() ==> order@[k] < i,
                forall|a: int, b: int|
                    0 <= a < b < order@.len() ==> name_le(
                        props@[order@[a] as int].0@,
                        props@[order@[b] as int].0@,
                    ),
                forall|k: int|
                    j <= k < order@.len() ==> !bytes_le(
                        encode_utf8(props@[order@[k] as int].0@),
                        kv,
                    ),
            ensures
                j == 0 || bytes_le(encode_utf8(props@[order@[j - 1] as int].0@), kv),
                j <= order@.len(),
                forall|k: int|
                    j <= k < order@.len() ==> !bytes_le(
                        encode_utf8(props@[order@[k] as int].0@),
                        kv,
                    ),
            decreases j,
        {
            if j == 0 || bytes_le_exec(props[order[j - 1]].0.as_str().as_bytes(), key) {
                break;
            }
            j = j - 1;
        }
        let ghost old_order = order@;
        proof {
            assert forall|k: int| j <= k < old_order.len() implies bytes_le(
                kv,
                encode_utf8(props@[old_order[k] as int].0@),
            ) by {
                lemma_bytes_le_total(kv, encode_utf8(props@[old_order[k] as int].0@));
            }
            assert forall|k: int| 0 <= k < j implies bytes_le(
                encode_utf8(props@[old_order[k] as int].0@),
                kv,
            ) by {
                if k < j - 1 {
                    assert(name_le(
                        props@[old_order[k] as int].0@,
                        props@[old_order[j - 1] as int].0@,
                    ));
                    lemma_bytes_le_transitive(
                        encode_utf8(props@[old_order[k] as int].0@),
                        encode_utf8(props@[old_order[j - 1] as int].0@),
                        kv,
                    );
                }
            }
        }
        order.insert(j, i);
        proof {
            assert(order@ =~= old_order.insert(j as int, i));
            assert forall|a: int, b: int| 0 <= a < b < order@.len() implies name_le(
                props@[order@[a] as int].0@,
                props@[order@[b] as int].0@,
            ) by {
                if a < j && b > j {
                    lemma_bytes_le_transitive(
                        encode_utf8(props@[order@[a] as int].0@),
                        kv,
                        encode_utf8(props@[order@[b] as int].0@),
                    );
                }
            }
            assert forall|p: usize| p < i + 1 implies order@.contains(p) by {
                if p == i {
                    assert(order@[j as int] == i);
                } else {
                    assert(old_order.contains(p));
                    let w = choose|w: int| 0 <= w < old_order.len() && old_order[w] == p;
                    if w < j {
                        assert(order@[w] == p);
                    } else {
                        assert(order@[w + 1] == p);
                    }
                }
            }
            assert forall|a: int, b: int| 0 <= a < order@.len() && 0 <= b < order@.len() && a != b
                implies order@[a] != order@[b] by {
                if a != j as int && b != j as int {
                    let oa = if a < j { a } else { a - 1 };
                    let ob = if b < j { b } else { b - 1 };
                    assert(old_order[oa] != old_order[ob]);
                }
            }
        }
        i = i + 1;
    }
    proof {
        if distinct_names(props@) {
            lemma_sorted_order_strict(props@, order@);
        }
    }
    order
}

} // verus!

verus! {

/// Determinism of property emission: where a node's property names are
/// distinct, as in a well-formed tree, only one order satisfies
/// [`is_sorted_order`], so every encoding of the node emits its properties
/// in the same order, whatever order they are stored in.
pub proof fn lemma_sorted_order_unique(
    props: Seq<(String, Variant)>,
    o1: Seq<usize>,
    o2: Seq<usize>,
)
    requires
        is_sorted_order(props, o1),
        is_sorted_order(props, o2),
        distinct_names(props),
    ensures
        o1 == o2,
{
    broadcast use vstd::utf8::encode_utf8_decode_utf8;

    let key = |k: usize|
        if k < props.len() {
            encode_utf8(props[k as int].0@)
        } else {
            Seq::empty()
        };
    assert forall|o: Seq<usize>| #[trigger] is_sorted_order(props, o) implies strictly_ascending(
        o,
        key,
    ) by {
        assert forall|i: int, j: int| 0 <= i < j < o.len() implies bytes_lt(key(o[i]), key(o[j])) by {
            assert(name_le(props[o[i] as int].0@, props[o[j] as int].0@));
            assert(o[i] != o[j]);
            assert(props[o[i] as int].0@ != props[o[j] as int].0@);
            if key(o[i]) == key(o[j]) {
                assert(decode_utf8(encode_utf8(props[o[i] as int].0@)) == props[o[i] as int].0@);
                assert(decode_utf8(encode_utf8(props[o[j] as int].0@)) == props[o[j] as int].0@);
            }
        }
    }
    assert forall|x: usize| o1.contains(x) <==> o2.contains(x) by {
        if o1.contains(x) {
            let w = choose|w: int| 0 <= w < o1.len() && o1[w] == x;
            assert(o1[w] < props.len());
        }
        if o2.contains(x) {
            let w = choose|w: int| 0 <= w < o2.len() && o2[w] == x;
            assert(o2[w] < props.len());
        }
    }
    lemma_strictly_ascending_unique(o1, o2, key);
}

} // verus!
