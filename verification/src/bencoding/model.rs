//! The mathematical model of bencoding: ideal values, the encoding they
//! denote, canonical form (dictionaries sorted by key), and the meaning
//! of decoding, stated as recursive functions over byte sequences.

use vstd::prelude::*;

use crate::bencoding::values::{ErrorBencoding, ErrorType};
use crate::byteseq::{byte_pos_from, lemma_lex_connected, lemma_lex_trans, lex_lt};
use crate::numbers::{dec_str, digits_val, int_str, is_digit, parse_i64_sp, parse_u32_sp};

verus! {

broadcast use vstd::seq::group_seq_axioms, vstd::std_specs::vec::axiom_vec_index_decreases;

/// An ideal bencoded value. A dictionary is a sequence of key-value
/// pairs; a well-formed one has pairwise distinct keys.
pub enum BValue {
    Str(Seq<u8>),
    Int(int),
    List(Seq<BValue>),
    Dict(Seq<(Seq<u8>, BValue)>),
}

/// No two pairs share a key.
pub open spec fn uniq_keys(s: Seq<(Seq<u8>, BValue)>) -> bool {
    forall|i: int, j: int| 0 <= i < j < s.len() ==> (#[trigger] s[i]).0 != (#[trigger] s[j]).0
}

/// A value the codec can faithfully carry: string and key lengths fit
/// the 32-bit length prefix, integers fit 64 bits, keys are unique.
pub open spec fn wf(v: BValue) -> bool
    decreases v,
{
    match v {
        BValue::Str(s) => s.len() <= u32::MAX,
        BValue::Int(i) => i64::MIN <= i <= i64::MAX,
        BValue::List(l) => wf_list(l),
        BValue::Dict(ps) => uniq_keys(ps) && wf_pairs(ps),
    }
}

/// Every element of the list is well-formed.
pub open spec fn wf_list(s: Seq<BValue>) -> bool
    decreases s,
{
    if s.len() == 0 {
        true
    } else {
        wf(s[0]) && wf_list(s.drop_first())
    }
}

/// Every key fits the length prefix and every value is well-formed.
pub open spec fn wf_pairs(s: Seq<(Seq<u8>, BValue)>) -> bool
    decreases s,
{
    if s.len() == 0 {
        true
    } else {
        s[0].0.len() <= u32::MAX && wf(s[0].1) && wf_pairs(s.drop_first())
    }
}

/// The encoding of a byte string: decimal length, colon, raw bytes.
pub open spec fn str_enc(s: Seq<u8>) -> Seq<u8> {
    dec_str(s.len() as int) + seq![58u8] + s
}

/// The encoding of a value, emitting dictionary pairs in their given
/// order. Canonical output is `enc(canon(v))`.
pub open spec fn enc(v: BValue) -> Seq<u8>
    decreases v,
{
    match v {
        BValue::Str(s) => str_enc(s),
        BValue::Int(i) => seq![105u8] + int_str(i) + seq![101u8],
        BValue::List(l) => seq![108u8] + enc_list(l) + seq![101u8],
        BValue::Dict(ps) => seq![100u8] + enc_pairs(ps) + seq![101u8],
    }
}

/// The concatenated encodings of the elements of a list.
pub open spec fn enc_list(s: Seq<BValue>) -> Seq<u8>
    decreases s,
{
    if s.len() == 0 {
        Seq::empty()
    } else {
        enc(s[0]) + enc_list(s.drop_first())
    }
}

/// The concatenated encodings of the pairs of a dictionary.
pub open spec fn enc_pairs(s: Seq<(Seq<u8>, BValue)>) -> Seq<u8>
    decreases s,
{
    if s.len() == 0 {
        Seq::empty()
    } else {
        str_enc(s[0].0) + enc(s[0].1) + enc_pairs(s.drop_first())
    }
}

/// Inserts a pair into a key-sorted sequence, keeping the order.
pub open spec fn insert_pair(p: (Seq<u8>, BValue), s: Seq<(Seq<u8>, BValue)>) -> Seq<
    (Seq<u8>, BValue),
>
    decreases s,
{
    if s.len() == 0 {
        seq![p]
    } else if lex_lt(s[0].0, p.0) {
        seq![s[0]] + insert_pair(p, s.drop_first())
    } else {
        seq![p] + s
    }
}

/// Sorts dictionary pairs by key, in ascending byte-lexicographic order.
pub open spec fn sort_pairs(s: Seq<(Seq<u8>, BValue)>) -> Seq<(Seq<u8>, BValue)>
    decreases s,
{
    if s.len() == 0 {
        s
    } else {
        insert_pair(s[0], sort_pairs(s.drop_first()))
    }
}

/// The pair `p` occurs somewhere in `s`.
pub open spec fn pcontains(s: Seq<(Seq<u8>, BValue)>, p: (Seq<u8>, BValue)) -> bool {
    exists|i: int| 0 <= i < s.len() && s[i] == p
}

/// The pairs stand in ascending key order.
pub open spec fn key_sorted(s: Seq<(Seq<u8>, BValue)>) -> bool {
    forall|i: int, j: int|
        0 <= i < j < s.len() ==> !lex_lt((#[trigger] s[j]).0, (#[trigger] s[i]).0)
}

/// Insertion adds exactly the inserted pair to the contents.
pub proof fn lemma_insert_pair_contains(p: (Seq<u8>, BValue), s: Seq<(Seq<u8>, BValue)>)
    ensures
        forall|q: (Seq<u8>, BValue)|
            #[trigger] pcontains(insert_pair(p, s), q) <==> (q == p || pcontains(s, q)),
        insert_pair(p, s).len() == s.len() + 1,
    decreases s,
{
    if s.len() == 0 {
        assert(insert_pair(p, s) =~= seq![p]);
        assert forall|q: (Seq<u8>, BValue)|
            #[trigger] pcontains(insert_pair(p, s), q) <==> (q == p || pcontains(s, q)) by {
            if q == p {
                assert(insert_pair(p, s)[0] == p);
            }
        }
    } else if lex_lt(s[0].0, p.0) {
        lemma_insert_pair_contains(p, s.drop_first());
        let r = seq![s[0]] + insert_pair(p, s.drop_first());
        assert forall|q: (Seq<u8>, BValue)| #[trigger] pcontains(r, q) implies (q == p
            || pcontains(s, q)) by {
            let i = choose|i: int| 0 <= i < r.len() && r[i] == q;
            if i == 0 {
                assert(s[0] == q);
            } else {
                assert(pcontains(insert_pair(p, s.drop_first()), q)) by {
                    assert(insert_pair(p, s.drop_first())[i - 1] == q);
                }
                if pcontains(s.drop_first(), q) {
                    let j = choose|j: int| 0 <= j < s.drop_first().len() && s.drop_first()[j] == q;
                    assert(s[j + 1] == q);
                }
            }
        }
        assert forall|q: (Seq<u8>, BValue)| (q == p || pcontains(s, q)) implies #[trigger] pcontains(
            r,
            q,
        ) by {
            if q == p {
                assert(pcontains(insert_pair(p, s.drop_first()), q));
                let j = choose|j: int|
                    0 <= j < insert_pair(p, s.drop_first()).len() && insert_pair(p, s.drop_first())[j]
                        == q;
                assert(r[j + 1] == q);
            } else {
                let i = choose|i: int| 0 <= i < s.len() && s[i] == q;
                if i == 0 {
                    assert(r[0] == q);
                } else {
                    assert(s.drop_first()[i - 1] == q);
                    assert(pcontains(insert_pair(p, s.drop_first()), q));
                    let j = choose|j: int|
                        0 <= j < insert_pair(p, s.drop_first()).len() && insert_pair(
                            p,
                            s.drop_first(),
                        )[j] == q;
                    assert(r[j + 1] == q);
                }
            }
        }
    } else {
        let r = seq![p] + s;
        assert forall|q: (Seq<u8>, BValue)| #[trigger] pcontains(r, q) implies (q == p
            || pcontains(s, q)) by {
            let i = choose|i: int| 0 <= i < r.len() && r[i] == q;
            if i > 0 {
                assert(s[i - 1] == q);
            }
        }
        assert forall|q: (Seq<u8>, BValue)| (q == p || pcontains(s, q)) implies #[trigger] pcontains(
            r,
            q,
        ) by {
            if q == p {
                assert(r[0] == q);
            } else {
                let i = choose|i: int| 0 <= i < s.len() && s[i] == q;
                assert(r[i + 1] == q);
            }
        }
    }
}

/// Insertion into a key-sorted sequence keeps it key-sorted.
pub proof fn lemma_insert_pair_sorted(p: (Seq<u8>, BValue), s: Seq<(Seq<u8>, BValue)>)
    requires
        key_sorted(s),
    ensures
        key_sorted(insert_pair(p, s)),
    decreases s,
{
    if s.len() == 0 {
    } else if lex_lt(s[0].0, p.0) {
        assert(key_sorted(s.drop_first()));
        lemma_insert_pair_sorted(p, s.drop_first());
        lemma_insert_pair_contains(p, s.drop_first());
        let t = insert_pair(p, s.drop_first());
        let r = seq![s[0]] + t;
        assert forall|i: int, j: int|
            0 <= i < j < r.len() implies !lex_lt((#[trigger] r[j]).0, (#[trigger] r[i]).0) by {
            if i == 0 {
                assert(pcontains(t, t[j - 1]));
                if t[j - 1] == p {
                    if lex_lt(p.0, s[0].0) {
                        lemma_lex_trans(s[0].0, p.0, s[0].0);
                        lemma_lex_connected(s[0].0, s[0].0);
                    }
                } else {
                    let m = choose|m: int|
                        0 <= m < s.drop_first().len() && s.drop_first()[m] == t[j - 1];
                    assert(s[m + 1] == t[j - 1]);
                }
            } else {
                assert(t[i - 1] == r[i] && t[j - 1] == r[j]);
            }
        }
    } else {
        let r = seq![p] + s;
        assert forall|i: int, j: int|
            0 <= i < j < r.len() implies !lex_lt((#[trigger] r[j]).0, (#[trigger] r[i]).0) by {
            if i == 0 {
                if j == 1 {
                    if lex_lt(s[0].0, p.0) {
                    }
                } else {
                    if lex_lt(s[j - 1].0, p.0) {
                        if lex_lt(s[j - 1].0, s[0].0) {
                            lemma_lex_connected(s[j - 1].0, s[0].0);
                        } else {
                            lemma_lex_connected(s[j - 1].0, s[0].0);
                            if s[j - 1].0 == s[0].0 {
                            } else {
                                lemma_lex_trans(s[0].0, s[j - 1].0, p.0);
                            }
                        }
                    }
                }
            } else {
                assert(s[i - 1] == r[i] && s[j - 1] == r[j]);
            }
        }
    }
}

/// Insertion of a fresh key keeps keys pairwise distinct.
pub proof fn lemma_insert_pair_uniq(p: (Seq<u8>, BValue), s: Seq<(Seq<u8>, BValue)>)
    requires
        uniq_keys(s),
        !has_key(s, p.0),
    ensures
        uniq_keys(insert_pair(p, s)),
    decreases s,
{
    if s.len() == 0 {
        assert(insert_pair(p, s) =~= seq![p]);
    } else if lex_lt(s[0].0, p.0) {
        assert(uniq_keys(s.drop_first()));
        assert(!has_key(s.drop_first(), p.0)) by {
            if has_key(s.drop_first(), p.0) {
                let m = choose|m: int|
                    0 <= m < s.drop_first().len() && (#[trigger] s.drop_first()[m]).0 == p.0;
                assert(s[m + 1].0 == p.0);
            }
        }
        lemma_insert_pair_uniq(p, s.drop_first());
        lemma_insert_pair_contains(p, s.drop_first());
        let t = insert_pair(p, s.drop_first());
        let r = seq![s[0]] + t;
        assert forall|i: int, j: int|
            0 <= i < j < r.len() implies (#[trigger] r[i]).0 != (#[trigger] r[j]).0 by {
            if i == 0 {
                assert(pcontains(t, t[j - 1]));
                if t[j - 1] == p {
                    if s[0].0 == p.0 {
                        assert(has_key(s, p.0)) by {
                            assert(s[0].0 == p.0);
                        }
                    }
                } else {
                    let m = choose|m: int|
                        0 <= m < s.drop_first().len() && s.drop_first()[m] == t[j - 1];
                    assert(s[m + 1] == t[j - 1]);
                }
            } else {
                assert(t[i - 1] == r[i] && t[j - 1] == r[j]);
            }
        }
    } else {
        let r = seq![p] + s;
        assert forall|i: int, j: int|
            0 <= i < j < r.len() implies (#[trigger] r[i]).0 != (#[trigger] r[j]).0 by {
            if i == 0 {
                if s[j - 1].0 == p.0 {
                    assert(has_key(s, p.0)) by {
                        assert(s[j - 1].0 == p.0);
                    }
                }
            } else {
                assert(s[i - 1] == r[i] && s[j - 1] == r[j]);
            }
        }
    }
}

/// Sorting neither adds nor loses pairs, keeps distinct keys distinct,
/// and yields ascending key order.
pub proof fn lemma_sort_pairs_props(s: Seq<(Seq<u8>, BValue)>)
    ensures
        key_sorted(sort_pairs(s)),
        forall|q: (Seq<u8>, BValue)| #[trigger] pcontains(sort_pairs(s), q) <==> pcontains(s, q),
        uniq_keys(s) ==> uniq_keys(sort_pairs(s)),
    decreases s,
{
    if s.len() == 0 {
    } else {
        let rest = s.drop_first();
        assert(uniq_keys(s) ==> uniq_keys(rest));
        lemma_sort_pairs_props(rest);
        lemma_insert_pair_sorted(s[0], sort_pairs(rest));
        lemma_insert_pair_contains(s[0], sort_pairs(rest));
        if uniq_keys(s) {
            assert(!has_key(sort_pairs(rest), s[0].0)) by {
                if has_key(sort_pairs(rest), s[0].0) {
                    let m = choose|m: int|
                        0 <= m < sort_pairs(rest).len() && (#[trigger] sort_pairs(rest)[m]).0
                            == s[0].0;
                    assert(pcontains(sort_pairs(rest), sort_pairs(rest)[m]));
                    assert(pcontains(rest, sort_pairs(rest)[m]));
                    let t = choose|t: int| 0 <= t < rest.len() && rest[t] == sort_pairs(rest)[m];
                    assert(s[t + 1] == rest[t]);
                }
            }
            lemma_insert_pair_uniq(s[0], sort_pairs(rest));
        }
        assert forall|q: (Seq<u8>, BValue)| #[trigger] pcontains(sort_pairs(s), q) implies pcontains(
            s,
            q,
        ) by {
            if q == s[0] {
                assert(s[0] == s[0]);
            } else {
                assert(pcontains(rest, q));
                let t = choose|t: int| 0 <= t < rest.len() && rest[t] == q;
                assert(s[t + 1] == q);
            }
        }
        assert forall|q: (Seq<u8>, BValue)| pcontains(s, q) implies #[trigger] pcontains(
            sort_pairs(s),
            q,
        ) by {
            let i = choose|i: int| 0 <= i < s.len() && s[i] == q;
            if i > 0 {
                assert(rest[i - 1] == q);
                assert(pcontains(rest, q));
            }
        }
    }
}

/// Two key-sorted sequences with distinct keys and the same pairs are
/// the same sequence.
pub proof fn lemma_pairs_identity(a: Seq<(Seq<u8>, BValue)>, b: Seq<(Seq<u8>, BValue)>)
    requires
        key_sorted(a),
        key_sorted(b),
        uniq_keys(a),
        uniq_keys(b),
        forall|q: (Seq<u8>, BValue)| #[trigger] pcontains(a, q) <==> pcontains(b, q),
    ensures
        a == b,
    decreases a.len(),
{
    if a.len() == 0 {
        if b.len() > 0 {
            assert(pcontains(b, b[0]));
            assert(!pcontains(a, b[0]));
        }
        assert(a =~= b);
    } else {
        assert(pcontains(a, a[0]));
        assert(pcontains(b, a[0]));
        let i = choose|i: int| 0 <= i < b.len() && b[i] == a[0];
        assert(pcontains(b, b[0]));
        assert(pcontains(a, b[0]));
        let m = choose|m: int| 0 <= m < a.len() && a[m] == b[0];
        // the first keys bound each other, so they are equal
        assert(!lex_lt(b[i].0, b[0].0)) by {
            if i == 0 {
                lemma_lex_connected(b[0].0, b[0].0);
            }
        }
        assert(!lex_lt(a[m].0, a[0].0)) by {
            if m == 0 {
                lemma_lex_connected(a[0].0, a[0].0);
            }
        }
        lemma_lex_connected(a[0].0, b[0].0);
        assert(a[0].0 == b[0].0);
        assert(i == 0) by {
            if i > 0 {
                assert(b[0].0 != b[i].0);
            }
        }
        assert(a[0] == b[0]);
        let at = a.drop_first();
        let bt = b.drop_first();
        assert(uniq_keys(at) && uniq_keys(bt) && key_sorted(at) && key_sorted(bt));
        assert forall|q: (Seq<u8>, BValue)| #[trigger] pcontains(at, q) implies pcontains(
            bt,
            q,
        ) by {
            let t = choose|t: int| 0 <= t < at.len() && at[t] == q;
            assert(a[t + 1] == q);
            assert(pcontains(a, q));
            assert(pcontains(b, q));
            let u = choose|u: int| 0 <= u < b.len() && b[u] == q;
            assert(u != 0) by {
                if u == 0 {
                    assert(a[t + 1].0 == a[0].0);
                }
            }
            assert(bt[u - 1] == q);
        }
        assert forall|q: (Seq<u8>, BValue)| #[trigger] pcontains(bt, q) implies pcontains(
            at,
            q,
        ) by {
            let t = choose|t: int| 0 <= t < bt.len() && bt[t] == q;
            assert(b[t + 1] == q);
            assert(pcontains(b, q));
            assert(pcontains(a, q));
            let u = choose|u: int| 0 <= u < a.len() && a[u] == q;
            assert(u != 0) by {
                if u == 0 {
                    assert(b[t + 1].0 == b[0].0);
                }
            }
            assert(at[u - 1] == q);
        }
        lemma_pairs_identity(at, bt);
        assert forall|t: int| 1 <= t < a.len() implies a[t] == b[t] by {
            assert(at[t - 1] == bt[t - 1]);
        }
        assert(a =~= b);
    }
}

/// Inserting at the first position whose key is not below the new key
/// is what `insert_pair` does.
pub proof fn lemma_insert_pair_at(p: (Seq<u8>, BValue), s: Seq<(Seq<u8>, BValue)>, j: int)
    requires
        0 <= j <= s.len(),
        forall|t: int| 0 <= t < j ==> lex_lt((#[trigger] s[t]).0, p.0),
        j == s.len() || !lex_lt(s[j].0, p.0),
    ensures
        insert_pair(p, s) == s.take(j) + seq![p] + s.skip(j),
    decreases s,
{
    if j == 0 {
        if s.len() == 0 {
            assert(insert_pair(p, s) =~= s.take(0) + seq![p] + s.skip(0));
        } else {
            assert(insert_pair(p, s) =~= s.take(0) + seq![p] + s.skip(0));
        }
    } else {
        assert(lex_lt(s[0].0, p.0));
        let rest = s.drop_first();
        assert forall|t: int| 0 <= t < j - 1 implies lex_lt((#[trigger] rest[t]).0, p.0) by {
            assert(rest[t] == s[t + 1]);
        }
        assert(j - 1 == rest.len() || !lex_lt(rest[j - 1].0, p.0));
        lemma_insert_pair_at(p, rest, j - 1);
        assert(insert_pair(p, s) =~= s.take(j) + seq![p] + s.skip(j)) by {
            assert(insert_pair(p, s) == seq![s[0]] + (rest.take(j - 1) + seq![p] + rest.skip(j
                - 1)));
        }
    }
}

/// Every dictionary in the value, at every depth, has pairwise distinct
/// keys: the shape the dictionary vectors of the codec keep.
pub open spec fn keys_uniq(v: BValue) -> bool
    decreases v,
{
    match v {
        BValue::Str(_) => true,
        BValue::Int(_) => true,
        BValue::List(l) => keys_uniq_list(l),
        BValue::Dict(ps) => uniq_keys(ps) && keys_uniq_pairs(ps),
    }
}

/// Every element's dictionaries have distinct keys.
pub open spec fn keys_uniq_list(s: Seq<BValue>) -> bool
    decreases s,
{
    if s.len() == 0 {
        true
    } else {
        keys_uniq(s[0]) && keys_uniq_list(s.drop_first())
    }
}

/// Every value's dictionaries have distinct keys.
pub open spec fn keys_uniq_pairs(s: Seq<(Seq<u8>, BValue)>) -> bool
    decreases s,
{
    if s.len() == 0 {
        true
    } else {
        keys_uniq(s[0].1) && keys_uniq_pairs(s.drop_first())
    }
}

/// Unique keys everywhere holds of each element in a list.
pub proof fn lemma_keys_uniq_list_index(s: Seq<BValue>)
    requires
        keys_uniq_list(s),
    ensures
        forall|i: int| 0 <= i < s.len() ==> keys_uniq(#[trigger] s[i]),
    decreases s,
{
    if s.len() > 0 {
        lemma_keys_uniq_list_index(s.drop_first());
        assert forall|i: int| 0 <= i < s.len() implies keys_uniq(#[trigger] s[i]) by {
            if i > 0 {
                assert(s.drop_first()[i - 1] == s[i]);
            }
        }
    }
}

/// Unique keys everywhere holds of each value in a pair sequence.
pub proof fn lemma_keys_uniq_pairs_index(s: Seq<(Seq<u8>, BValue)>)
    requires
        keys_uniq_pairs(s),
    ensures
        forall|i: int| 0 <= i < s.len() ==> keys_uniq((#[trigger] s[i]).1),
    decreases s,
{
    if s.len() > 0 {
        lemma_keys_uniq_pairs_index(s.drop_first());
        assert forall|i: int| 0 <= i < s.len() implies keys_uniq((#[trigger] s[i]).1) by {
            if i > 0 {
                assert(s.drop_first()[i - 1] == s[i]);
            }
        }
    }
}

/// A list whose every element keeps unique keys, keeps unique keys.
pub proof fn lemma_keys_uniq_list_from_index(s: Seq<BValue>)
    requires
        forall|i: int| 0 <= i < s.len() ==> keys_uniq(#[trigger] s[i]),
    ensures
        keys_uniq_list(s),
    decreases s,
{
    if s.len() > 0 {
        assert forall|i: int| 0 <= i < s.drop_first().len() implies keys_uniq(
            #[trigger] s.drop_first()[i],
        ) by {
            assert(s.drop_first()[i] == s[i + 1]);
        }
        lemma_keys_uniq_list_from_index(s.drop_first());
    }
}

/// Pairs whose every value keeps unique keys, keep unique keys.
pub proof fn lemma_keys_uniq_pairs_from_index(s: Seq<(Seq<u8>, BValue)>)
    requires
        forall|i: int| 0 <= i < s.len() ==> keys_uniq((#[trigger] s[i]).1),
    ensures
        keys_uniq_pairs(s),
    decreases s,
{
    if s.len() > 0 {
        assert forall|i: int| 0 <= i < s.drop_first().len() implies keys_uniq(
            (#[trigger] s.drop_first()[i]).1,
        ) by {
            assert(s.drop_first()[i] == s[i + 1]);
        }
        lemma_keys_uniq_pairs_from_index(s.drop_first());
    }
}

/// Canonicalizing pairs keeps each key in place and canonicalizes its
/// value.
pub proof fn lemma_canon_pairs_pointwise(s: Seq<(Seq<u8>, BValue)>)
    ensures
        canon_pairs(s).len() == s.len(),
        forall|i: int|
            0 <= i < s.len() ==> (#[trigger] canon_pairs(s)[i]) == (s[i].0, canon(s[i].1)),
    decreases s,
{
    if s.len() == 0 {
    } else {
        lemma_canon_pairs_pointwise(s.drop_first());
        assert forall|i: int|
            0 <= i < s.len() implies (#[trigger] canon_pairs(s)[i]) == (s[i].0, canon(s[i].1)) by {
            if i > 0 {
                assert(canon_pairs(s)[i] == canon_pairs(s.drop_first())[i - 1]);
                assert(s.drop_first()[i - 1] == s[i]);
            }
        }
    }
}

/// Canonical form: the same value with every dictionary, at every depth,
/// sorted by key.
pub open spec fn canon(v: BValue) -> BValue
    decreases v,
{
    match v {
        BValue::Str(s) => BValue::Str(s),
        BValue::Int(i) => BValue::Int(i),
        BValue::List(l) => BValue::List(canon_list(l)),
        BValue::Dict(ps) => BValue::Dict(sort_pairs(canon_pairs(ps))),
    }
}

/// Canonical form of each element, order kept.
pub open spec fn canon_list(s: Seq<BValue>) -> Seq<BValue>
    decreases s,
{
    if s.len() == 0 {
        s
    } else {
        seq![canon(s[0])] + canon_list(s.drop_first())
    }
}

/// Canonical form of each pair's value, order kept.
pub open spec fn canon_pairs(s: Seq<(Seq<u8>, BValue)>) -> Seq<(Seq<u8>, BValue)>
    decreases s,
{
    if s.len() == 0 {
        s
    } else {
        seq![(s[0].0, canon(s[0].1))] + canon_pairs(s.drop_first())
    }
}

/// The decoder's check on an integer's digit run: `-0` is rejected, a
/// minus sign defers to the rest, and a leading zero with anything after
/// it is rejected.
pub open spec fn valid_number(d: Seq<u8>) -> bool
    decreases d.len(),
{
    if d == seq![45u8, 48u8] {
        false
    } else if d.len() > 0 && d[0] == 45 {
        valid_number(d.drop_first())
    } else if d.len() > 1 && d[0] == 48 {
        false
    } else {
        true
    }
}

/// Decoding a byte string: the digits before the first colon give the
/// length, and exactly that many bytes follow; what remains is returned.
pub open spec fn dstr(s: Seq<u8>) -> Result<(Seq<u8>, Seq<u8>), ErrorBencoding> {
    match byte_pos_from(s, 58, 0) {
        None => Err(ErrorBencoding::String(ErrorType::Format)),
        Some(c) => {
            match parse_u32_sp(s.take(c)) {
                None => Err(ErrorBencoding::String(ErrorType::Format)),
                Some(n) => {
                    if s.len() - c - 1 < n {
                        Err(ErrorBencoding::String(ErrorType::Long))
                    } else {
                        Ok((s.subrange(c + 1, c + 1 + n), s.skip(c + 1 + n)))
                    }
                },
            }
        },
    }
}

/// Decoding an integer: `i`, a digit run up to the first `e`, subject to
/// `valid_number` and the 64-bit range.
pub open spec fn dint(s: Seq<u8>) -> Result<(int, Seq<u8>), ErrorBencoding> {
    if s.len() == 0 || s[0] != 105 {
        Err(ErrorBencoding::Integer(ErrorType::Format))
    } else {
        match byte_pos_from(s, 101, 1) {
            None => Err(ErrorBencoding::Integer(ErrorType::Format)),
            Some(e) => {
                let digits = s.subrange(1, e);
                if !valid_number(digits) {
                    Err(ErrorBencoding::Integer(ErrorType::Number))
                } else {
                    match parse_i64_sp(digits) {
                        None => Err(ErrorBencoding::Integer(ErrorType::Number)),
                        Some(n) => Ok((n, s.skip(e + 1))),
                    }
                }
            },
        }
    }
}

/// Whether the sequence has a pair with key `k`.
pub open spec fn has_key(s: Seq<(Seq<u8>, BValue)>, k: Seq<u8>) -> bool {
    exists|i: int| 0 <= i < s.len() && (#[trigger] s[i]).0 == k
}

/// Insert-or-overwrite: a new key is appended, an existing key keeps its
/// position and takes the new value.
pub open spec fn upsert(s: Seq<(Seq<u8>, BValue)>, k: Seq<u8>, v: BValue) -> Seq<
    (Seq<u8>, BValue),
> {
    if has_key(s, k) {
        s.map(
            |i: int, p: (Seq<u8>, BValue)|
                if p.0 == k {
                    (k, v)
                } else {
                    p
                },
        )
    } else {
        s.push((k, v))
    }
}

/// Insert-or-overwrite keeps keys pairwise distinct.
pub proof fn lemma_upsert_uniq(s: Seq<(Seq<u8>, BValue)>, k: Seq<u8>, v: BValue)
    requires
        uniq_keys(s),
    ensures
        uniq_keys(upsert(s, k, v)),
{
    if has_key(s, k) {
        let u = upsert(s, k, v);
        assert forall|i: int| 0 <= i < u.len() implies (#[trigger] u[i]).0 == s[i].0 by {}
    }
}

/// Decoding one value, dispatched on its first byte. `from` is the
/// surrounding container (`l` or `d`), which owns the error when the
/// byte introduces no value shape.
pub open spec fn dval(from: u8, s: Seq<u8>) -> Result<(BValue, Seq<u8>), ErrorBencoding>
    decreases s.len(), 1int,
{
    if s.len() > 0 && is_digit(s[0]) {
        match dstr(s) {
            Ok((str, rest)) => Ok((BValue::Str(str), rest)),
            Err(e) => Err(e),
        }
    } else if s.len() > 0 && s[0] == 105 {
        match dint(s) {
            Ok((n, rest)) => Ok((BValue::Int(n), rest)),
            Err(e) => Err(e),
        }
    } else if s.len() > 0 && s[0] == 108 {
        dlist(s)
    } else if s.len() > 0 && s[0] == 100 {
        ddic(s)
    } else if from == 108 {
        Err(ErrorBencoding::List(ErrorType::Format))
    } else {
        Err(ErrorBencoding::Dic(ErrorType::Format))
    }
}

/// Decoding a list: `l`, the elements, `e`.
pub open spec fn dlist(s: Seq<u8>) -> Result<(BValue, Seq<u8>), ErrorBencoding>
    decreases s.len(), 0int,
{
    if s.len() == 0 || s[0] != 108 {
        Err(ErrorBencoding::List(ErrorType::Format))
    } else {
        match dlist_items(s.skip(1)) {
            Ok((items, rest)) => Ok((BValue::List(items), rest)),
            Err(e) => Err(e),
        }
    }
}

/// Decoding the elements of a list until the closing `e`; input that
/// runs out before the close is malformed. Each element consumes at
/// least one byte, which the nested condition records.
pub open spec fn dlist_items(t: Seq<u8>) -> Result<(Seq<BValue>, Seq<u8>), ErrorBencoding>
    decreases t.len(), 2int,
{
    if t.len() == 0 {
        Err(ErrorBencoding::List(ErrorType::Format))
    } else if t[0] == 101 {
        Ok((Seq::empty(), t.skip(1)))
    } else {
        match dval(108, t) {
            Err(e) => Err(e),
            Ok((v, rest)) => {
                if rest.len() < t.len() {
                    match dlist_items(rest) {
                        Err(e) => Err(e),
                        Ok((vs, fin)) => Ok((seq![v] + vs, fin)),
                    }
                } else {
                    Err(ErrorBencoding::List(ErrorType::Format))
                }
            },
        }
    }
}

/// Decoding a dictionary: `d`, the pairs, `e`.
pub open spec fn ddic(s: Seq<u8>) -> Result<(BValue, Seq<u8>), ErrorBencoding>
    decreases s.len(), 0int,
{
    if s.len() == 0 || s[0] != 100 {
        Err(ErrorBencoding::Dic(ErrorType::Format))
    } else {
        match ddic_items(s.skip(1), Seq::empty()) {
            Ok((pairs, rest)) => Ok((BValue::Dict(pairs), rest)),
            Err(e) => Err(e),
        }
    }
}

/// Decoding dictionary pairs until the closing `e`. A malformed key is
/// the dictionary's own format error; a repeated key overwrites the
/// earlier value. Keys and values each consume at least one byte, which
/// the nested conditions record.
pub open spec fn ddic_items(t: Seq<u8>, acc: Seq<(Seq<u8>, BValue)>) -> Result<
    (Seq<(Seq<u8>, BValue)>, Seq<u8>),
    ErrorBencoding,
>
    decreases t.len(), 2int,
{
    if t.len() == 0 {
        Err(ErrorBencoding::Dic(ErrorType::Format))
    } else if t[0] == 101 {
        Ok((acc, t.skip(1)))
    } else {
        match dstr(t) {
            Err(_) => Err(ErrorBencoding::Dic(ErrorType::Format)),
            Ok((k, r1)) => {
                if r1.len() == 0 {
                    Err(ErrorBencoding::Dic(ErrorType::Format))
                } else if r1.len() < t.len() {
                    match dval(100, r1) {
                        Err(e) => Err(e),
                        Ok((v, r2)) => {
                            if r2.len() < t.len() {
                                ddic_items(r2, upsert(acc, k, v))
                            } else {
                                Err(ErrorBencoding::Dic(ErrorType::Format))
                            }
                        },
                    }
                } else {
                    Err(ErrorBencoding::Dic(ErrorType::Format))
                }
            },
        }
    }
}

/// Decoding a whole torrent file: one dictionary, nothing after it.
pub open spec fn dtorrent(s: Seq<u8>) -> Result<BValue, ErrorBencoding> {
    match ddic(s) {
        Ok((v, rest)) => {
            if rest.len() == 0 {
                Ok(v)
            } else {
                Err(ErrorBencoding::Dic(ErrorType::Format))
            }
        },
        Err(e) => Err(e),
    }
}

} // verus!
