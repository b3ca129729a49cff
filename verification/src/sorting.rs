//! Sorting of the results that worker threads and tasks hand back in
//! arbitrary order: numbers in ascending order, and strings in the
//! lexicographic order of their UTF-8 bytes (the order of `String`).

use vstd::prelude::*;
use vstd::utf8::encode_utf8;

verus! {

broadcast use vstd::seq_lib::group_to_multiset_ensures;

/// `s` is in ascending order.
pub open spec fn ascending(s: Seq<usize>) -> bool {
    forall|i: int, j: int| 0 <= i <= j < s.len() ==> s[i] <= s[j]
}

/// Sort `v` into ascending order: the result holds the same numbers, each
/// as often as `v` does.
pub fn sort_ids(v: Vec<usize>) -> (r: Vec<usize>)
    ensures
        ascending(r@),
        r@.to_multiset() == v@.to_multiset(),
{
    let mut out: Vec<usize> = Vec::new();
    let mut i: usize = 0;
    while i < v.len()
        invariant
            i <= v.len(),
            ascending(out@),
            out@.to_multiset() == v@.subrange(0, i as int).to_multiset(),
        decreases v.len() - i,
    {
        let x = v[i];
        let mut k: usize = out.len();
        while k > 0 && out[k - 1] > x
            invariant
                k <= out.len(),
                ascending(out@),
                forall|j: int| k <= j < out.len() ==> out@[j] > x,
            decreases k,
        {
            k -= 1;
        }
        let ghost before = out@;
        out.insert(k, x);
        proof {
            assert(v@.subrange(0, i + 1) =~= v@.subrange(0, i as int).push(x));
            assert forall|a: int, b: int| 0 <= a <= b < out@.len() implies out@[a] <= out@[b] by {
                if a < k && b > k {
                    assert(before[a] <= before[b - 1]);
                }
                if a < k && b == k && k > 0 {
                    assert(before[a] <= before[k - 1]);
                }
            }
        }
        i += 1;
    }
    proof {
        assert(v@.subrange(0, v.len() as int) =~= v@);
    }
    out
}

/// Lexicographic order of byte strings: a proper prefix comes first.
pub open spec fn bytes_le(a: Seq<u8>, b: Seq<u8>) -> bool
    decreases a.len(),
{
    if a.len() == 0 {
        true
    } else if b.len() == 0 {
        false
    } else if a[0] != b[0] {
        a[0] < b[0]
    } else {
        bytes_le(a.drop_first(), b.drop_first())
    }
}

/// The order of `String`: lexicographic on the UTF-8 bytes.
pub open spec fn text_le(a: String, b: String) -> bool {
    bytes_le(encode_utf8(a@), encode_utf8(b@))
}

/// `s` is in ascending `String` order.
pub open spec fn texts_ascending(s: Seq<String>) -> bool {
    forall|i: int, j: int| 0 <= i <= j < s.len() ==> text_le(s[i], s[j])
}

/// Every byte string is comparable with every other.
pub proof fn lemma_bytes_le_total(a: Seq<u8>, b: Seq<u8>)
    ensures
        bytes_le(a, b) || bytes_le(b, a),
    decreases a.len(),
{
    if a.len() > 0 && b.len() > 0 && a[0] == b[0] {
        lemma_bytes_le_total(a.drop_first(), b.drop_first());
    }
}

/// The byte order is transitive.
pub proof fn lemma_bytes_le_transitive(a: Seq<u8>, b: Seq<u8>, c: Seq<u8>)
    requires
        bytes_le(a, b),
        bytes_le(b, c),
    ensures
        bytes_le(a, c),
    decreases a.len(),
{
    if a.len() > 0 && b.len() > 0 && c.len() > 0 && a[0] == b[0] && b[0] == c[0] {
        lemma_bytes_le_transitive(a.drop_first(), b.drop_first(), c.drop_first());
    }
}

/// Comparing from a common prefix on is the same as comparing whole.
proof fn lemma_bytes_le_skip(a: Seq<u8>, b: Seq<u8>, i: int)
    requires
        0 <= i <= a.len(),
        i <= b.len(),
        a.subrange(0, i) == b.subrange(0, i),
    ensures
        bytes_le(a, b) == bytes_le(a.subrange(i, a.len() as int), b.subrange(i, b.len() as int)),
    decreases i,
{
    if i > 0 {
        assert(a[0] == a.subrange(0, i)[0]);
        assert(b[0] == b.subrange(0, i)[0]);
        assert(a.drop_first().subrange(0, i - 1) =~= a.subrange(0, i).drop_first());
        assert(b.drop_first().subrange(0, i - 1) =~= b.subrange(0, i).drop_first());
        lemma_bytes_le_skip(a.drop_first(), b.drop_first(), i - 1);
        assert(a.drop_first().subrange(i - 1, a.len() - 1) =~= a.subrange(i, a.len() as int));
        assert(b.drop_first().subrange(i - 1, b.len() - 1) =~= b.subrange(i, b.len() as int));
    } else {
        assert(a.subrange(0, a.len() as int) =~= a);
        assert(b.subrange(0, b.len() as int) =~= b);
    }
}

/// Compare two byte strings lexicographically.
fn bytes_le_exec(a: &[u8], b: &[u8]) -> (r: bool)
    ensures
        r == bytes_le(a@, b@),
{
    let mut i: usize = 0;
    while i < a.len() && i < b.len()
        invariant
            i <= a.len(),
            i <= b.len(),
            a@.subrange(0, i as int) == b@.subrange(0, i as int),
        decreases a.len() - i,
    {
        if a[i] != b[i] {
            proof {
                lemma_bytes_le_skip(a@, b@, i as int);
                let ta = a@.subrange(i as int, a@.len() as int);
                let tb = b@.subrange(i as int, b@.len() as int);
                assert(ta[0] == a@[i as int] && tb[0] == b@[i as int]);
            }
            return a[i] < b[i];
        }
        proof {
            assert(a@.subrange(0, i + 1) =~= a@.subrange(0, i as int).push(a@[i as int]));
            assert(b@.subrange(0, i + 1) =~= b@.subrange(0, i as int).push(b@[i as int]));
        }
        i += 1;
    }
    proof {
        lemma_bytes_le_skip(a@, b@, i as int);
    }
    i == a.len()
}

/// Compare two strings in `String` order.
fn text_le_exec(a: &String, b: &String) -> (r: bool)
    ensures
        r == text_le(*a, *b),
{
    bytes_le_exec(a.as_str().as_bytes(), b.as_str().as_bytes())
}

/// Sort `v` into ascending `String` order: the result holds the same
/// strings, each as often as `v` does.
pub fn sort_texts(v: Vec<String>) -> (r: Vec<String>)
    ensures
        texts_ascending(r@),
        forall|j: int, k: int|
            0 <= j < k < r@.len() ==> bytes_le(encode_utf8(#[trigger] r@[j]@), encode_utf8(#[trigger] r@[k]@)),
        r@.to_multiset() == v@.to_multiset(),
{
    let mut rest = v;
    let ghost all = rest@;
    let mut out: Vec<String> = Vec::new();
    while rest.len() > 0
        invariant
            texts_ascending(out@),
            out@.to_multiset().add(rest@.to_multiset()) == all.to_multiset(),
        decreases rest.len(),
    {
        let x = rest.remove(0);
        let mut k: usize = out.len();
        while k > 0 && !text_le_exec(&out[k - 1], &x)
            invariant
                k <= out.len(),
                texts_ascending(out@),
                forall|j: int| k <= j < out.len() ==> !text_le(#[trigger] out@[j], x),
            decreases k,
        {
            k -= 1;
        }
        let ghost before = out@;
        out.insert(k, x);
        proof {
            assert forall|a: int, b: int| 0 <= a <= b < out@.len() implies text_le(out@[a], out@[b]) by {
                let sa = encode_utf8(out@[a]@);
                let sb = encode_utf8(out@[b]@);
                if a == b {
                    lemma_bytes_le_total(sa, sb);
                } else if a < k && b == k {
                    assert(text_le(before[a], before[k - 1]));
                    lemma_bytes_le_transitive(sa, encode_utf8(before[k - 1]@), sb);
                } else if a == k && b > k {
                    assert(!text_le(before[b - 1], x));
                    lemma_bytes_le_total(sa, sb);
                } else if a < k && b > k {
                    assert(text_le(before[a], before[k - 1]));
                    assert(!text_le(before[b - 1], x));
                    lemma_bytes_le_total(encode_utf8(x@), sb);
                    if k > 0 {
                        assert(text_le(before[k - 1], x));
                        lemma_bytes_le_transitive(sa, encode_utf8(before[k - 1]@), encode_utf8(x@));
                    }
                    lemma_bytes_le_transitive(sa, encode_utf8(x@), sb);
                } else if a > k {
                    assert(text_le(before[a - 1], before[b - 1]));
                } else {
                    assert(text_le(before[a], before[b - 1]));
                }
            }
        }
    }
    proof {
        assert(out@.to_multiset().add(rest@.to_multiset()) =~= out@.to_multiset());
        assert forall|j: int, k: int| 0 <= j < k < out@.len() implies bytes_le(
            encode_utf8(#[trigger] out@[j]@),
            encode_utf8(#[trigger] out@[k]@),
        ) by {
            assert(text_le(out@[j], out@[k]));
        }
    }
    out
}

/// A byte string comes no later than every byte string that extends it.
pub proof fn lemma_bytes_le_prefix(x: Seq<u8>, y: Seq<u8>)
    requires
        x.len() <= y.len(),
        x == y.subrange(0, x.len() as int),
    ensures
        bytes_le(x, y),
    decreases x.len(),
{
    if x.len() > 0 {
        assert(x[0] == y[0]);
        assert(x.drop_first() =~= y.drop_first().subrange(0, x.len() - 1));
        lemma_bytes_le_prefix(x.drop_first(), y.drop_first());
    }
}

/// At the first byte where two byte strings differ, the smaller byte decides.
pub proof fn lemma_bytes_le_first_difference(x: Seq<u8>, y: Seq<u8>, i: int)
    requires
        0 <= i < x.len(),
        i < y.len(),
        x.subrange(0, i) == y.subrange(0, i),
        x[i] < y[i],
    ensures
        bytes_le(x, y),
        !bytes_le(y, x),
    decreases i,
{
    if i > 0 {
        assert(x[0] == x.subrange(0, i)[0]);
        assert(y[0] == y.subrange(0, i)[0]);
        assert(x.drop_first().subrange(0, i - 1) =~= x.subrange(0, i).drop_first());
        assert(y.drop_first().subrange(0, i - 1) =~= y.subrange(0, i).drop_first());
        lemma_bytes_le_first_difference(x.drop_first(), y.drop_first(), i - 1);
    }
}

/// Two byte strings that each come no later than the other are equal.
pub proof fn lemma_bytes_le_antisymmetric(x: Seq<u8>, y: Seq<u8>)
    requires
        bytes_le(x, y),
        bytes_le(y, x),
    ensures
        x == y,
    decreases x.len(),
{
    if x.len() > 0 && y.len() > 0 {
        lemma_bytes_le_antisymmetric(x.drop_first(), y.drop_first());
        assert(x =~= seq![x[0]] + x.drop_first());
        assert(y =~= seq![y[0]] + y.drop_first());
    }
}

/// The order that `sort_texts` sorts by is the lexicographic order of the
/// whole UTF-8 byte sequences of the strings (the order of `String`):
/// a string whose bytes are a prefix of another's comes first; otherwise
/// the first differing byte decides; and only strings with the same text
/// compare equal both ways.
pub proof fn law_text_order(a: String, b: String, i: int)
    ensures
        ({
            let x = encode_utf8(a@);
            let y = encode_utf8(b@);
            x.len() <= y.len() && x == y.subrange(0, x.len() as int) ==> text_le(a, b)
        }),
        ({
            let x = encode_utf8(a@);
            let y = encode_utf8(b@);
            0 <= i < x.len() && i < y.len() && x.subrange(0, i) == y.subrange(0, i) && x[i] < y[i]
                ==> text_le(a, b) && !text_le(b, a)
        }),
        text_le(a, b) && text_le(b, a) ==> a@ == b@,
        text_le(a, b) || text_le(b, a),
{
    let x = encode_utf8(a@);
    let y = encode_utf8(b@);
    if x.len() <= y.len() && x == y.subrange(0, x.len() as int) {
        lemma_bytes_le_prefix(x, y);
    }
    if 0 <= i < x.len() && i < y.len() && x.subrange(0, i) == y.subrange(0, i) && x[i] < y[i] {
        lemma_bytes_le_first_difference(x, y, i);
    }
    if text_le(a, b) && text_le(b, a) {
        lemma_bytes_le_antisymmetric(x, y);
        vstd::utf8::encode_utf8_decode_utf8(a@);
        vstd::utf8::encode_utf8_decode_utf8(b@);
    }
    lemma_bytes_le_total(x, y);
}

/// In the result of `sort_texts`, each string's bytes are no greater than
/// the next one's: no later string is a proper prefix of an earlier one,
/// and at the first byte where two of them differ, the earlier string has
/// the smaller byte.
pub proof fn law_sorted_texts_bytes(s: Seq<String>, j: int, k: int, i: int)
    requires
        texts_ascending(s),
        0 <= j < k < s.len(),
    ensures
        ({
            let x = encode_utf8(s[j]@);
            let y = encode_utf8(s[k]@);
            &&& (y.len() < x.len() && y == x.subrange(0, y.len() as int)) ==> s[j]@ == s[k]@
            &&& (0 <= i < x.len() && i < y.len() && x.subrange(0, i) == y.subrange(0, i)) ==> x[i] <= y[i]
        }),
{
    let x = encode_utf8(s[j]@);
    let y = encode_utf8(s[k]@);
    assert(text_le(s[j], s[k]));
    if y.len() < x.len() && y == x.subrange(0, y.len() as int) {
        lemma_bytes_le_prefix(y, x);
        law_text_order(s[j], s[k], 0);
    }
    if 0 <= i < x.len() && i < y.len() && x.subrange(0, i) == y.subrange(0, i) && y[i] < x[i] {
        lemma_bytes_le_first_difference(y, x, i);
    }
}

/// Two ascending orderings of the same numbers are the same sequence: the
/// result of `sort_ids` is fully determined by its input's contents.
pub proof fn law_sorted_ids_unique(a: Seq<usize>, b: Seq<usize>)
    requires
        ascending(a),
        ascending(b),
        a.to_multiset() == b.to_multiset(),
    ensures
        a == b,
{
    let leq = |x: usize, y: usize| x <= y;
    assert(vstd::relations::sorted_by(a, leq));
    assert(vstd::relations::sorted_by(b, leq));
    vstd::seq_lib::lemma_sorted_unique(a, b, leq);
}

} // verus!
