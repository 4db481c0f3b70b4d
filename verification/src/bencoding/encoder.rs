//! The bencoding encoder: byte strings, integers, lists and
//! dictionaries are rendered in the wire grammar, with every dictionary
//! emitted in ascending key order whatever order its pairs arrived in.

use vstd::prelude::*;

use crate::bencoding::model::{
    canon, canon_list, canon_pairs, enc, enc_list, enc_pairs, has_key, insert_pair, key_sorted,
    keys_uniq, keys_uniq_list, keys_uniq_pairs, lemma_canon_pairs_pointwise, lemma_insert_pair_at,
    lemma_insert_pair_contains, lemma_insert_pair_sorted, lemma_insert_pair_uniq,
    lemma_keys_uniq_list_index, lemma_keys_uniq_pairs_index, lemma_pairs_identity,
    lemma_sort_pairs_props, pcontains, sort_pairs, str_enc, uniq_keys, BValue,
};
use crate::bencoding::values::{lview, pview, vview, ValuesBencoding};
use crate::byteseq::lex_less;
use crate::numbers::{i64_dec_bytes, u64_dec_bytes};
use vstd::std_specs::vec::vec_index;

verus! {

broadcast use vstd::seq::group_seq_axioms, vstd::std_specs::vec::group_vec_axioms;

/// A byte string becomes its decimal length, a colon, and the bytes.
pub fn from_string(to_bencode: Vec<u8>) -> (r: Vec<u8>)
    ensures
        r@ == str_enc(to_bencode@),
{
    let mut to_bencode = to_bencode;
    let ghost s = to_bencode@;
    let mut bencoding = u64_dec_bytes(to_bencode.len() as u64);
    bencoding.push(58);
    bencoding.append(&mut to_bencode);
    proof {
        assert(bencoding@ =~= str_enc(s));
    }
    bencoding
}

/// An integer becomes `i`, its decimal text, `e`.
pub fn from_integer(to_bencode: i64) -> (r: Vec<u8>)
    ensures
        r@ == seq![105u8] + crate::numbers::int_str(to_bencode as int) + seq![101u8],
{
    let mut bencoding: Vec<u8> = Vec::new();
    bencoding.push(105);
    let mut num_string = i64_dec_bytes(to_bencode);
    bencoding.append(&mut num_string);
    bencoding.push(101);
    proof {
        assert(bencoding@ =~= seq![105u8] + crate::numbers::int_str(to_bencode as int)
            + seq![101u8]);
    }
    bencoding
}

/// Renders one value in canonical form.
fn encode_value(value: ValuesBencoding) -> (r: Vec<u8>)
    requires
        keys_uniq(vview(value)),
    ensures
        r@ == enc(canon(vview(value))),
    decreases value,
{
    match value {
        ValuesBencoding::String(str) => from_string(str),
        ValuesBencoding::Integer(num) => from_integer(num),
        ValuesBencoding::List(list) => from_list(list),
        ValuesBencoding::Dic(dic) => from_dic(dic),
    }
}

/// A list becomes `l`, its elements in order (each canonical), `e`.
pub fn from_list(to_bencode: Vec<ValuesBencoding>) -> (r: Vec<u8>)
    requires
        keys_uniq_list(lview(to_bencode@)),
    ensures
        r@ == enc(canon(BValue::List(lview(to_bencode@)))),
    decreases to_bencode,
{
    let ghost l0 = lview(to_bencode@);
    let mut rest = to_bencode;
    let mut bencoding: Vec<u8> = Vec::new();
    bencoding.push(108);
    let ghost mut k: int = 0;
    proof {
        assert(rest@ =~= to_bencode@.skip(0));
    }
    while rest.len() > 0
        invariant
            0 <= k <= to_bencode@.len(),
            rest@ == to_bencode@.skip(k),
            l0 == lview(to_bencode@),
            keys_uniq_list(l0),
            seq![108u8] + enc_list(canon_list(l0)) == bencoding@ + enc_list(
                canon_list(lview(rest@)),
            ),
        decreases rest@.len(),
    {
        let ghost cur = rest@;
        let values = rest.remove(0);
        proof {
            assert(cur[0] == to_bencode@[k]);
            assert(rest@ =~= to_bencode@.skip(k + 1));
            lemma_keys_uniq_list_index(l0);
            assert(lview(cur)[0] == vview(values));
            assert(lview(cur)[0] == l0[k]);
        }
        let mut value_to_add = encode_value(values);
        proof {
            let cl = canon_list(lview(cur));
            assert(lview(cur).drop_first() =~= lview(rest@));
            assert(cl =~= seq![canon(vview(values))] + canon_list(lview(rest@)));
            assert(cl[0] == canon(vview(values)));
            assert(cl.drop_first() =~= canon_list(lview(rest@)));
            assert(enc_list(cl) == enc(canon(vview(values))) + enc_list(canon_list(lview(rest@))));
            assert(bencoding@ + value_to_add@ + enc_list(canon_list(lview(rest@))) =~= bencoding@
                + enc_list(cl));
        }
        bencoding.append(&mut value_to_add);
        proof {
            k = k + 1;
        }
    }
    proof {
        assert(lview(rest@) =~= Seq::<BValue>::empty());
        assert(enc_list(canon_list(lview(rest@))) =~= Seq::<u8>::empty());
        assert(bencoding@ =~= seq![108u8] + enc_list(canon_list(l0)));
    }
    bencoding.push(101);
    proof {
        assert(bencoding@ =~= seq![108u8] + enc_list(canon_list(l0)) + seq![101u8]);
    }
    bencoding
}

/// First position in the key-sorted pairs whose key is not below `key`.
fn find_insert_pos(sorted: &Vec<(Vec<u8>, ValuesBencoding)>, key: &Vec<u8>) -> (j: usize)
    ensures
        0 <= j <= sorted@.len(),
        forall|t: int| 0 <= t < j ==> crate::byteseq::lex_lt(pview(sorted@)[t].0, key@),
        j < sorted@.len() ==> !crate::byteseq::lex_lt(pview(sorted@)[j as int].0, key@),
{
    let n = sorted.len();
    let mut j: usize = 0;
    while j < n
        invariant
            0 <= j <= n,
            n == sorted@.len(),
            forall|t: int| 0 <= t < j ==> crate::byteseq::lex_lt(pview(sorted@)[t].0, key@),
        decreases n - j,
    {
        let less = lex_less(&vec_index(sorted, j).0, key);
        if !less {
            return j;
        }
        j = j + 1;
    }
    j
}

/// A dictionary becomes `d`, its pairs in ascending key order (each
/// value canonical), `e`.
pub fn from_dic(to_bencode: Vec<(Vec<u8>, ValuesBencoding)>) -> (r: Vec<u8>)
    requires
        keys_uniq(BValue::Dict(pview(to_bencode@))),
    ensures
        r@ == enc(canon(BValue::Dict(pview(to_bencode@)))),
    decreases to_bencode,
{
    let ghost ps0 = pview(to_bencode@);
    let mut rest = to_bencode;
    let mut sorted: Vec<(Vec<u8>, ValuesBencoding)> = Vec::new();
    let ghost mut k: int = 0;
    proof {
        assert(rest@ =~= to_bencode@.skip(0));
        assert(pview(sorted@) =~= Seq::<(Seq<u8>, BValue)>::empty());
        assert(ps0.take(0) =~= Seq::<(Seq<u8>, BValue)>::empty());
    }
    while rest.len() > 0
        invariant
            0 <= k <= to_bencode@.len(),
            rest@ == to_bencode@.skip(k),
            ps0 == pview(to_bencode@),
            uniq_keys(ps0),
            keys_uniq_pairs(ps0),
            key_sorted(pview(sorted@)),
            uniq_keys(pview(sorted@)),
            forall|q: (Seq<u8>, BValue)|
                #[trigger] pcontains(pview(sorted@), q) <==> pcontains(ps0.take(k), q),
            forall|t: int|
                0 <= t < sorted@.len() ==> exists|i: int|
                    0 <= i < to_bencode@.len() && #[trigger] sorted@[t] == to_bencode@[i],
        decreases rest@.len(),
    {
        let ghost cur = rest@;
        let p = rest.remove(0);
        proof {
            assert(cur[0] == to_bencode@[k]);
            assert(rest@ =~= to_bencode@.skip(k + 1));
            assert(ps0[k] == (p.0@, vview(p.1)));
        }
        let ghost pv = (p.0@, vview(p.1));
        let ghost before = sorted@;
        let j = find_insert_pos(&sorted, &p.0);
        sorted.insert(j, p);
        proof {
            assert(sorted@ == before.insert(j as int, p));
            assert(pview(sorted@) =~= pview(before).take(j as int) + seq![pv] + pview(
                before,
            ).skip(j as int));
            lemma_insert_pair_at(pv, pview(before), j as int);
            assert(pview(sorted@) == insert_pair(pv, pview(before)));
            lemma_insert_pair_sorted(pv, pview(before));
            lemma_insert_pair_contains(pv, pview(before));
            assert(!has_key(pview(before), pv.0)) by {
                if has_key(pview(before), pv.0) {
                    let t = choose|t: int|
                        0 <= t < pview(before).len() && (#[trigger] pview(before)[t]).0 == pv.0;
                    assert(pcontains(pview(before), pview(before)[t]));
                    assert(pcontains(ps0.take(k), pview(before)[t]));
                    let i = choose|i: int|
                        0 <= i < ps0.take(k).len() && ps0.take(k)[i] == pview(before)[t];
                    assert(ps0[i].0 == ps0[k].0);
                }
            }
            lemma_insert_pair_uniq(pv, pview(before));
            assert forall|q: (Seq<u8>, BValue)|
                #[trigger] pcontains(pview(sorted@), q) <==> pcontains(ps0.take(k + 1), q) by {
                if pcontains(pview(sorted@), q) {
                    if q == pv {
                        assert(ps0.take(k + 1)[k] == q);
                    } else {
                        assert(pcontains(pview(before), q));
                        assert(pcontains(ps0.take(k), q));
                        let i = choose|i: int|
                            0 <= i < ps0.take(k).len() && ps0.take(k)[i] == q;
                        assert(ps0.take(k + 1)[i] == q);
                    }
                }
                if pcontains(ps0.take(k + 1), q) {
                    let i = choose|i: int|
                        0 <= i < ps0.take(k + 1).len() && (#[trigger] ps0.take(k + 1)[i]) == q;
                    if i == k {
                        assert(q == pv);
                    } else {
                        assert(ps0.take(k)[i] == q);
                        assert(pcontains(ps0.take(k), q));
                    }
                }
            }
            assert forall|t: int| 0 <= t < sorted@.len() implies exists|i: int|
                0 <= i < to_bencode@.len() && #[trigger] sorted@[t] == to_bencode@[i] by {
                if t < j {
                    assert(sorted@[t] == before[t]);
                    assert(exists|i: int|
                        0 <= i < to_bencode@.len() && #[trigger] before[t] == to_bencode@[i]);
                } else if t == j {
                    assert(sorted@[t] == to_bencode@[k]);
                } else {
                    assert(sorted@[t] == before[t - 1]);
                    assert(exists|i: int|
                        0 <= i < to_bencode@.len() && #[trigger] before[t - 1] == to_bencode@[i]);
                }
            }
            k = k + 1;
        }
    }
    let ghost sfin = pview(sorted@);
    proof {
        assert(ps0.take(k) =~= ps0);
    }
    let mut bencoding: Vec<u8> = Vec::new();
    bencoding.push(100);
    while sorted.len() > 0
        invariant
            ps0 == pview(to_bencode@),
            uniq_keys(ps0),
            keys_uniq_pairs(ps0),
            key_sorted(sfin),
            uniq_keys(sfin),
            forall|q: (Seq<u8>, BValue)| #[trigger] pcontains(sfin, q) <==> pcontains(ps0, q),
            forall|t: int|
                0 <= t < sorted@.len() ==> exists|i: int|
                    0 <= i < to_bencode@.len() && #[trigger] sorted@[t] == to_bencode@[i],
            seq![100u8] + enc_pairs(canon_pairs(sfin)) == bencoding@ + enc_pairs(
                canon_pairs(pview(sorted@)),
            ),
        decreases sorted@.len(),
    {
        let ghost cur = sorted@;
        let pr = sorted.remove(0);
        proof {
            lemma_keys_uniq_pairs_index(ps0);
            let i = choose|i: int|
                0 <= i < to_bencode@.len() && #[trigger] cur[0] == to_bencode@[i];
            assert(pr == to_bencode@[i]);
            assert(ps0[i] == (pr.0@, vview(pr.1)));
            assert(keys_uniq(vview(pr.1)));
        }
        let (key, value) = pr;
        let ghost kb = key@;
        let ghost cv = canon(vview(value));
        let mut key_bytes = from_string(key);
        let mut val_bytes = encode_value(value);
        proof {
            let cp = canon_pairs(pview(cur));
            assert(pview(cur)[0] == (kb, vview(value)));
            assert(pview(cur).drop_first() =~= pview(sorted@));
            assert(cp =~= seq![(kb, cv)] + canon_pairs(pview(sorted@)));
            assert(cp[0] == (kb, cv));
            assert(cp.drop_first() =~= canon_pairs(pview(sorted@)));
            assert(enc_pairs(cp) == str_enc(kb) + enc(cv) + enc_pairs(
                canon_pairs(pview(sorted@)),
            ));
            assert(bencoding@ + key_bytes@ + val_bytes@ + enc_pairs(canon_pairs(pview(sorted@)))
                =~= bencoding@ + enc_pairs(cp));
        }
        bencoding.append(&mut key_bytes);
        bencoding.append(&mut val_bytes);
    }
    proof {
        assert(pview(sorted@) =~= Seq::<(Seq<u8>, BValue)>::empty());
        assert(enc_pairs(canon_pairs(pview(sorted@))) =~= Seq::<u8>::empty());
        assert(bencoding@ =~= seq![100u8] + enc_pairs(canon_pairs(sfin)));
        // the emitted order is the canonical one
        lemma_canon_pairs_pointwise(sfin);
        lemma_canon_pairs_pointwise(ps0);
        lemma_sort_pairs_props(canon_pairs(ps0));
        assert forall|i: int, j2: int| 0 <= i < j2 < canon_pairs(sfin).len() implies
            !crate::byteseq::lex_lt(
                (#[trigger] canon_pairs(sfin)[j2]).0,
                (#[trigger] canon_pairs(sfin)[i]).0,
            ) && (canon_pairs(sfin)[i]).0 != (canon_pairs(sfin)[j2]).0 by {
            assert(canon_pairs(sfin)[i].0 == sfin[i].0);
            assert(canon_pairs(sfin)[j2].0 == sfin[j2].0);
        }
        assert(key_sorted(canon_pairs(sfin)));
        assert(uniq_keys(canon_pairs(sfin)));
        assert forall|i: int, j2: int| 0 <= i < j2 < canon_pairs(ps0).len() implies
            (#[trigger] canon_pairs(ps0)[i]).0 != (#[trigger] canon_pairs(ps0)[j2]).0 by {
            assert(canon_pairs(ps0)[i].0 == ps0[i].0);
            assert(canon_pairs(ps0)[j2].0 == ps0[j2].0);
        }
        assert(uniq_keys(canon_pairs(ps0)));
        assert forall|q: (Seq<u8>, BValue)| #[trigger] pcontains(canon_pairs(sfin), q) implies
            pcontains(sort_pairs(canon_pairs(ps0)), q) by {
            let i = choose|i: int| 0 <= i < canon_pairs(sfin).len() && canon_pairs(sfin)[i] == q;
            assert(pcontains(sfin, sfin[i]));
            assert(pcontains(ps0, sfin[i]));
            let t = choose|t: int| 0 <= t < ps0.len() && ps0[t] == sfin[i];
            assert(canon_pairs(ps0)[t] == q);
            assert(pcontains(canon_pairs(ps0), q));
        }
        assert forall|q: (Seq<u8>, BValue)| pcontains(sort_pairs(canon_pairs(ps0)), q) implies
            #[trigger] pcontains(canon_pairs(sfin), q) by {
            assert(pcontains(canon_pairs(ps0), q));
            let t = choose|t: int| 0 <= t < canon_pairs(ps0).len() && canon_pairs(ps0)[t] == q;
            assert(pcontains(ps0, ps0[t]));
            assert(pcontains(sfin, ps0[t]));
            let i = choose|i: int| 0 <= i < sfin.len() && sfin[i] == ps0[t];
            assert(canon_pairs(sfin)[i] == q);
        }
        lemma_pairs_identity(canon_pairs(sfin), sort_pairs(canon_pairs(ps0)));
    }
    bencoding.push(101);
    proof {
        assert(bencoding@ =~= seq![100u8] + enc_pairs(sort_pairs(canon_pairs(ps0))) + seq![101u8]);
    }
    bencoding
}

} // verus!
