//! The laws tying the codec together: encoding is canonical — it
//! cannot see a dictionary's insertion order — and decoding an encoded
//! value gives the value back, canonicalized, with nothing left over.

use vstd::prelude::*;

use crate::bencoding::model::{
    canon, canon_list, canon_pairs, ddic, ddic_items, dint, dlist_items, dstr, dtorrent, dval,
    enc, enc_list, enc_pairs, has_key, lemma_canon_pairs_pointwise, lemma_pairs_identity,
    lemma_sort_pairs_props, pcontains, sort_pairs, str_enc, uniq_keys, upsert, valid_number, wf,
    wf_list, wf_pairs, BValue,
};
use crate::bencoding::values::ErrorBencoding;
use crate::byteseq::byte_pos_from;
use crate::numbers::{
    all_digits, dec_str, digits_val, int_str, is_digit, lemma_dec_str, parse_i64_sp, parse_u32_sp,
};

verus! {

broadcast use vstd::seq::group_seq_axioms;

/// Canonical encoding (order blindness): two dictionaries holding the
/// same key-value pairs — unique keys, any insertion orders — encode to
/// exactly the same bytes.
pub proof fn lemma_canonical_encoding(ps1: Seq<(Seq<u8>, BValue)>, ps2: Seq<(Seq<u8>, BValue)>)
    requires
        uniq_keys(ps1),
        uniq_keys(ps2),
        forall|q: (Seq<u8>, BValue)| #[trigger] pcontains(ps1, q) <==> pcontains(ps2, q),
    ensures
        enc(canon(BValue::Dict(ps1))) == enc(canon(BValue::Dict(ps2))),
{
    lemma_canon_pairs_pointwise(ps1);
    lemma_canon_pairs_pointwise(ps2);
    lemma_sort_pairs_props(canon_pairs(ps1));
    lemma_sort_pairs_props(canon_pairs(ps2));
    assert forall|i: int, j: int| 0 <= i < j < canon_pairs(ps1).len() implies (
    #[trigger] canon_pairs(ps1)[i]).0 != (#[trigger] canon_pairs(ps1)[j]).0 by {
        assert(canon_pairs(ps1)[i].0 == ps1[i].0 && canon_pairs(ps1)[j].0 == ps1[j].0);
    }
    assert forall|i: int, j: int| 0 <= i < j < canon_pairs(ps2).len() implies (
    #[trigger] canon_pairs(ps2)[i]).0 != (#[trigger] canon_pairs(ps2)[j]).0 by {
        assert(canon_pairs(ps2)[i].0 == ps2[i].0 && canon_pairs(ps2)[j].0 == ps2[j].0);
    }
    let a = sort_pairs(canon_pairs(ps1));
    let b = sort_pairs(canon_pairs(ps2));
    assert forall|q: (Seq<u8>, BValue)| #[trigger] pcontains(a, q) implies pcontains(b, q) by {
        assert(pcontains(canon_pairs(ps1), q));
        let i = choose|i: int|
            0 <= i < canon_pairs(ps1).len() && (#[trigger] canon_pairs(ps1)[i]) == q;
        assert(pcontains(ps1, ps1[i]));
        assert(pcontains(ps2, ps1[i]));
        let t = choose|t: int| 0 <= t < ps2.len() && (#[trigger] ps2[t]) == ps1[i];
        assert(canon_pairs(ps2)[t] == q);
        assert(pcontains(canon_pairs(ps2), q));
    }
    assert forall|q: (Seq<u8>, BValue)| pcontains(b, q) implies #[trigger] pcontains(a, q) by {
        assert(pcontains(canon_pairs(ps2), q));
        let i = choose|i: int|
            0 <= i < canon_pairs(ps2).len() && (#[trigger] canon_pairs(ps2)[i]) == q;
        assert(pcontains(ps2, ps2[i]));
        assert(pcontains(ps1, ps2[i]));
        let t = choose|t: int| 0 <= t < ps1.len() && (#[trigger] ps1[t]) == ps2[i];
        assert(canon_pairs(ps1)[t] == q);
        assert(pcontains(canon_pairs(ps1), q));
    }
    lemma_pairs_identity(a, b);
}

/// The first occurrence of `c` from `from` is at `k` when `c` sits at
/// `k` and nowhere earlier.
proof fn lemma_byte_pos_found(s: Seq<u8>, c: u8, from: int, k: int)
    requires
        0 <= from <= k < s.len(),
        s[k] == c,
        forall|j: int| from <= j < k ==> s[j] != c,
    ensures
        byte_pos_from(s, c, from) == Some(k),
    decreases k - from,
{
    if from < k {
        lemma_byte_pos_found(s, c, from + 1, k);
    }
}

/// Every encoding is non-empty and opens with the byte that names its
/// shape, which is never the terminator.
proof fn lemma_enc_first(v: BValue)
    ensures
        enc(v).len() >= 1,
        v is Str ==> is_digit(enc(v)[0]),
        v is Int ==> enc(v)[0] == 105,
        v is List ==> enc(v)[0] == 108,
        v is Dict ==> enc(v)[0] == 100,
        enc(v)[0] != 101,
{
    match v {
        BValue::Str(s) => {
            lemma_dec_str(s.len() as int);
            assert(enc(v)[0] == dec_str(s.len() as int)[0]);
        },
        BValue::Int(i) => {
            assert(enc(v)[0] == 105);
        },
        BValue::List(l) => {
            assert(enc(v)[0] == 108);
        },
        BValue::Dict(ps) => {
            assert(enc(v)[0] == 100);
        },
    }
}

/// The decimal text of an in-range signed integer passes the decoder's
/// number check and parses back to the integer.
proof fn lemma_int_str_parses(i: int)
    requires
        i64::MIN <= i <= i64::MAX,
    ensures
        valid_number(int_str(i)),
        parse_i64_sp(int_str(i)) == Some(i),
        forall|j: int| 0 <= j < int_str(i).len() ==> int_str(i)[j] != 101,
        int_str(i).len() >= 1,
{
    if i >= 0 {
        lemma_dec_str(i);
        let d = int_str(i);
        assert(d == dec_str(i));
        assert(d[0] != 45 && is_digit(d[0]));
        assert(d != seq![45u8, 48u8]);
        assert(valid_number(d));
        assert(parse_i64_sp(d) == Some(i)) by {
            assert(d.len() > 0 && all_digits(d) && digits_val(d) == i);
        }
        assert forall|j: int| 0 <= j < d.len() implies d[j] != 101 by {
            assert(is_digit(d[j]));
        }
    } else {
        lemma_dec_str(-i);
        let m = dec_str(-i);
        let d = int_str(i);
        assert(d == seq![45u8] + m);
        assert(d[0] == 45);
        assert(d.drop_first() =~= m);
        assert(m[0] != 48 || m.len() == 1);
        assert(d != seq![45u8, 48u8]) by {
            if d == seq![45u8, 48u8] {
                assert(m =~= seq![48u8]);
                assert(digits_val(m) == -i);
                assert(digits_val(seq![48u8]) == digits_val(Seq::<u8>::empty()) * 10 + 0) by {
                    assert(seq![48u8].drop_last() =~= Seq::<u8>::empty());
                }
            }
        }
        assert(m != seq![45u8, 48u8]) by {
            assert(is_digit(m[0]));
        }
        assert(valid_number(m)) by {
            assert(m.len() > 1 ==> m[0] != 48);
            assert(m[0] != 45);
        }
        assert(valid_number(d));
        assert(parse_i64_sp(d) == Some(i)) by {
            assert(d.len() > 0 && d[0] == 45);
            assert(d.drop_first() == m);
            assert(m.len() > 0 && all_digits(m) && digits_val(m) == -i);
            assert(-i <= 0x8000_0000_0000_0000);
        }
        assert forall|j: int| 0 <= j < d.len() implies d[j] != 101 by {
            if j > 0 {
                assert(d[j] == m[j - 1]);
                assert(is_digit(m[j - 1]));
            }
        }
    }
}

/// Decoding what the byte-string encoder produced gives the string back
/// and leaves exactly the trailing bytes.
proof fn lemma_dstr_enc(s: Seq<u8>, rest: Seq<u8>)
    requires
        s.len() <= u32::MAX,
    ensures
        dstr(str_enc(s) + rest) == Ok::<(Seq<u8>, Seq<u8>), ErrorBencoding>((s, rest)),
        str_enc(s).len() >= 2,
        is_digit((str_enc(s) + rest)[0]),
{
    lemma_dec_str(s.len() as int);
    let d = dec_str(s.len() as int);
    let w = str_enc(s) + rest;
    assert(w =~= d + seq![58u8] + s + rest);
    assert forall|j: int| 0 <= j < d.len() implies w[j] != 58 by {
        assert(w[j] == d[j]);
        assert(is_digit(d[j]));
    }
    assert(w[d.len() as int] == 58);
    lemma_byte_pos_found(w, 58, 0, d.len() as int);
    let c = d.len() as int;
    assert(w.take(c) =~= d);
    assert(parse_u32_sp(d) == Some(s.len() as int)) by {
        assert(d.len() > 0 && all_digits(d) && digits_val(d) == s.len());
        assert(d[0] != 43) by {
            assert(is_digit(d[0]));
        }
    }
    assert(w.len() - c - 1 >= s.len());
    assert(w.subrange(c + 1, c + 1 + s.len()) =~= s);
    assert(w.skip(c + 1 + s.len()) =~= rest);
    assert(is_digit(w[0]));
}

/// Decoding what the integer encoder produced gives the integer back
/// and leaves exactly the trailing bytes.
proof fn lemma_dint_enc(i: int, rest: Seq<u8>)
    requires
        i64::MIN <= i <= i64::MAX,
    ensures
        dint(seq![105u8] + int_str(i) + seq![101u8] + rest) == Ok::<
            (int, Seq<u8>),
            ErrorBencoding,
        >((i, rest)),
{
    lemma_int_str_parses(i);
    let d = int_str(i);
    let w = seq![105u8] + d + seq![101u8] + rest;
    assert(w[0] == 105);
    assert forall|j: int| 1 <= j < 1 + d.len() implies w[j] != 101 by {
        assert(w[j] == d[j - 1]);
    }
    assert(w[1 + d.len() as int] == 101);
    lemma_byte_pos_found(w, 101, 1, 1 + d.len() as int);
    let e = 1 + d.len() as int;
    assert(w.subrange(1, e) =~= d);
    assert(w.skip(e + 1) =~= rest);
}

/// A value the decoder can reproduce exactly: lengths fit the 32-bit
/// prefix, integers fit 64 bits, and every dictionary's keys are
/// pairwise distinct — in any order.
pub open spec fn wfc(v: BValue) -> bool
    decreases v,
{
    match v {
        BValue::Str(s) => s.len() <= u32::MAX,
        BValue::Int(i) => i64::MIN <= i <= i64::MAX,
        BValue::List(l) => wfc_list(l),
        BValue::Dict(ps) => uniq_keys(ps) && wfc_pairs(ps),
    }
}

/// Every element is reproducible.
pub open spec fn wfc_list(s: Seq<BValue>) -> bool
    decreases s,
{
    if s.len() == 0 {
        true
    } else {
        wfc(s[0]) && wfc_list(s.drop_first())
    }
}

/// Every key fits and every value is reproducible.
pub open spec fn wfc_pairs(s: Seq<(Seq<u8>, BValue)>) -> bool
    decreases s,
{
    if s.len() == 0 {
        true
    } else {
        s[0].0.len() <= u32::MAX && wfc(s[0].1) && wfc_pairs(s.drop_first())
    }
}

/// Pair reproducibility, element by element.
proof fn lemma_wfc_pairs_index(s: Seq<(Seq<u8>, BValue)>)
    requires
        wfc_pairs(s),
    ensures
        forall|i: int|
            0 <= i < s.len() ==> (#[trigger] s[i]).0.len() <= u32::MAX && wfc(s[i].1),
    decreases s,
{
    if s.len() > 0 {
        lemma_wfc_pairs_index(s.drop_first());
        assert forall|i: int|
            0 <= i < s.len() implies (#[trigger] s[i]).0.len() <= u32::MAX && wfc(s[i].1) by {
            if i > 0 {
                assert(s.drop_first()[i - 1] == s[i]);
            }
        }
    }
}

/// Pair reproducibility, from element-wise facts.
proof fn lemma_wfc_pairs_from_index(s: Seq<(Seq<u8>, BValue)>)
    requires
        forall|i: int|
            0 <= i < s.len() ==> (#[trigger] s[i]).0.len() <= u32::MAX && wfc(s[i].1),
    ensures
        wfc_pairs(s),
    decreases s,
{
    if s.len() > 0 {
        assert forall|i: int|
            0 <= i < s.drop_first().len() implies (#[trigger] s.drop_first()[i]).0.len()
            <= u32::MAX && wfc(s.drop_first()[i].1) by {
            assert(s.drop_first()[i] == s[i + 1]);
        }
        lemma_wfc_pairs_from_index(s.drop_first());
    }
}

/// Canonical form of a well-formed value is reproducible.
pub proof fn lemma_canon_wfc(v: BValue)
    requires
        wf(v),
    ensures
        wfc(canon(v)),
    decreases v,
{
    match v {
        BValue::Str(_) => {},
        BValue::Int(_) => {},
        BValue::List(l) => {
            lemma_canon_wfc_list(l);
        },
        BValue::Dict(ps) => {
            lemma_canon_wfc_pairs(ps);
            lemma_canon_pairs_pointwise(ps);
            let cp = canon_pairs(ps);
            assert forall|i: int, j: int| 0 <= i < j < cp.len() implies (#[trigger] cp[i]).0 != (
            #[trigger] cp[j]).0 by {
                assert(cp[i].0 == ps[i].0 && cp[j].0 == ps[j].0);
            }
            lemma_sort_pairs_props(cp);
            let sp = sort_pairs(cp);
            lemma_wfc_pairs_index(cp);
            assert forall|i: int|
                0 <= i < sp.len() implies (#[trigger] sp[i]).0.len() <= u32::MAX && wfc(
                sp[i].1,
            ) by {
                assert(pcontains(sp, sp[i]));
                assert(pcontains(cp, sp[i]));
                let t = choose|t: int| 0 <= t < cp.len() && (#[trigger] cp[t]) == sp[i];
                assert(cp[t].0.len() <= u32::MAX && wfc(cp[t].1));
            }
            lemma_wfc_pairs_from_index(sp);
        },
    }
}

/// Canonical form of each well-formed element is reproducible.
proof fn lemma_canon_wfc_list(s: Seq<BValue>)
    requires
        wf_list(s),
    ensures
        wfc_list(canon_list(s)),
    decreases s,
{
    if s.len() > 0 {
        lemma_canon_wfc(s[0]);
        lemma_canon_wfc_list(s.drop_first());
        let c = canon_list(s);
        assert(c[0] == canon(s[0]));
        assert(c.drop_first() =~= canon_list(s.drop_first()));
    }
}

/// Canonical form of each well-formed pair is reproducible.
proof fn lemma_canon_wfc_pairs(s: Seq<(Seq<u8>, BValue)>)
    requires
        wf_pairs(s),
    ensures
        wfc_pairs(canon_pairs(s)),
    decreases s,
{
    if s.len() > 0 {
        lemma_canon_wfc(s[0].1);
        lemma_canon_wfc_pairs(s.drop_first());
        let c = canon_pairs(s);
        assert(c[0] == (s[0].0, canon(s[0].1)));
        assert(c.drop_first() =~= canon_pairs(s.drop_first()));
    }
}

/// Decoding an encoded reproducible value gives it back exactly,
/// whatever container the dispatch byte was read for, leaving exactly
/// the trailing bytes.
pub proof fn lemma_rt_value(v: BValue, from: u8, rest: Seq<u8>)
    requires
        wfc(v),
    ensures
        dval(from, enc(v) + rest) == Ok::<(BValue, Seq<u8>), ErrorBencoding>((v, rest)),
    decreases v,
{
    lemma_enc_first(v);
    let w = enc(v) + rest;
    assert(w[0] == enc(v)[0]);
    match v {
        BValue::Str(s) => {
            lemma_dstr_enc(s, rest);
            assert(w =~= str_enc(s) + rest);
        },
        BValue::Int(i) => {
            lemma_dint_enc(i, rest);
            assert(w =~= seq![105u8] + int_str(i) + seq![101u8] + rest);
            assert(!is_digit(105u8));
        },
        BValue::List(l) => {
            assert(!is_digit(108u8));
            assert(w =~= seq![108u8] + (enc_list(l) + seq![101u8] + rest));
            assert(w.skip(1) =~= enc_list(l) + seq![101u8] + rest);
            lemma_rt_list(l, rest);
        },
        BValue::Dict(ps) => {
            assert(!is_digit(100u8));
            assert(w =~= seq![100u8] + (enc_pairs(ps) + seq![101u8] + rest));
            assert(w.skip(1) =~= enc_pairs(ps) + seq![101u8] + rest);
            lemma_rt_pairs(ps, Seq::empty(), rest);
            assert(Seq::<(Seq<u8>, BValue)>::empty() + ps =~= ps);
        },
    }
}

/// Decoding the encoded elements of a reproducible list, up to the
/// closing terminator, gives the elements back.
proof fn lemma_rt_list(l: Seq<BValue>, rest: Seq<u8>)
    requires
        wfc_list(l),
    ensures
        dlist_items(enc_list(l) + seq![101u8] + rest) == Ok::<
            (Seq<BValue>, Seq<u8>),
            ErrorBencoding,
        >((l, rest)),
    decreases l,
{
    let t = enc_list(l) + seq![101u8] + rest;
    if l.len() == 0 {
        assert(t =~= seq![101u8] + rest);
        assert(t[0] == 101);
        assert(t.skip(1) =~= rest);
        assert(l =~= Seq::<BValue>::empty());
    } else {
        let tail = enc_list(l.drop_first()) + seq![101u8] + rest;
        assert(t =~= enc(l[0]) + tail);
        lemma_enc_first(l[0]);
        assert(t[0] == enc(l[0])[0]);
        assert(t[0] != 101);
        lemma_rt_value(l[0], 108, tail);
        assert(dval(108, t) == Ok::<(BValue, Seq<u8>), ErrorBencoding>((l[0], tail)));
        assert(tail.len() < t.len());
        lemma_rt_list(l.drop_first(), rest);
        assert(seq![l[0]] + l.drop_first() =~= l);
    }
}

/// Decoding the encoded pairs of a reproducible dictionary, up to the
/// closing terminator, appends them in order onto the accumulator: all
/// keys are fresh, so insert-or-overwrite only ever appends.
proof fn lemma_rt_pairs(ps: Seq<(Seq<u8>, BValue)>, acc: Seq<(Seq<u8>, BValue)>, rest: Seq<u8>)
    requires
        uniq_keys(ps),
        wfc_pairs(ps),
        forall|i: int| 0 <= i < ps.len() ==> !has_key(acc, (#[trigger] ps[i]).0),
    ensures
        ddic_items(enc_pairs(ps) + seq![101u8] + rest, acc) == Ok::<
            (Seq<(Seq<u8>, BValue)>, Seq<u8>),
            ErrorBencoding,
        >((acc + ps, rest)),
    decreases ps,
{
    let t = enc_pairs(ps) + seq![101u8] + rest;
    if ps.len() == 0 {
        assert(t =~= seq![101u8] + rest);
        assert(t[0] == 101);
        assert(t.skip(1) =~= rest);
        assert(acc + ps =~= acc);
    } else {
        let k0 = ps[0].0;
        let v0 = ps[0].1;
        let r1 = enc(v0) + (enc_pairs(ps.drop_first()) + seq![101u8] + rest);
        assert(t =~= str_enc(k0) + r1);
        lemma_dstr_enc(k0, r1);
        assert(dstr(t) == Ok::<(Seq<u8>, Seq<u8>), ErrorBencoding>((k0, r1)));
        assert(t[0] != 101) by {
            lemma_dec_str(k0.len() as int);
            assert(t[0] == dec_str(k0.len() as int)[0]);
            assert(is_digit(t[0]));
        }
        lemma_enc_first(v0);
        assert(r1.len() > 0);
        assert(r1.len() < t.len());
        let r2 = enc_pairs(ps.drop_first()) + seq![101u8] + rest;
        lemma_rt_value(v0, 100, r2);
        assert(dval(100, r1) == Ok::<(BValue, Seq<u8>), ErrorBencoding>((v0, r2))) by {
            assert(r1 =~= enc(v0) + r2);
        }
        assert(r2.len() < t.len());
        // the key is fresh in the accumulator, so upsert appends
        assert(!has_key(acc, k0));
        assert(upsert(acc, k0, v0) == acc.push((k0, v0)));
        let acc2 = acc.push((k0, v0));
        assert(uniq_keys(ps.drop_first()));
        assert(wfc_pairs(ps.drop_first()));
        assert forall|i: int|
            0 <= i < ps.drop_first().len() implies !has_key(
            acc2,
            (#[trigger] ps.drop_first()[i]).0,
        ) by {
            assert(ps.drop_first()[i] == ps[i + 1]);
            if has_key(acc2, ps[i + 1].0) {
                let m = choose|m: int|
                    0 <= m < acc2.len() && (#[trigger] acc2[m]).0 == ps[i + 1].0;
                if m < acc.len() {
                    assert(acc[m].0 == ps[i + 1].0);
                    assert(has_key(acc, ps[i + 1].0));
                } else {
                    assert(acc2[m] == (k0, v0));
                    assert(ps[0].0 == ps[i + 1].0);
                }
            }
        }
        lemma_rt_pairs(ps.drop_first(), acc2, rest);
        assert(acc2 + ps.drop_first() =~= acc + ps);
    }
}

/// Round trip: decoding the canonical encoding of any well-formed value
/// yields that value in canonical form, with exactly the trailing bytes
/// left over — dictionaries come back with their keys in sorted order.
pub proof fn lemma_round_trip(v: BValue, from: u8, rest: Seq<u8>)
    requires
        wf(v),
    ensures
        dval(from, enc(canon(v)) + rest) == Ok::<(BValue, Seq<u8>), ErrorBencoding>(
            (canon(v), rest),
        ),
{
    lemma_canon_wfc(v);
    lemma_rt_value(canon(v), from, rest);
}

/// Round trip at the dictionary entry point: a whole encoded dictionary
/// decodes as itself, canonicalized, with nothing left over.
pub proof fn lemma_torrent_round_trip(ps: Seq<(Seq<u8>, BValue)>)
    requires
        wf(BValue::Dict(ps)),
    ensures
        dtorrent(enc(canon(BValue::Dict(ps)))) == Ok::<BValue, ErrorBencoding>(
            canon(BValue::Dict(ps)),
        ),
{
    lemma_canon_wfc(BValue::Dict(ps));
    let c = canon(BValue::Dict(ps));
    let cps = c->Dict_0;
    let w = enc(c);
    assert(w =~= seq![100u8] + (enc_pairs(cps) + seq![101u8] + Seq::<u8>::empty()));
    assert(w[0] == 100);
    assert(w.skip(1) =~= enc_pairs(cps) + seq![101u8] + Seq::<u8>::empty());
    lemma_rt_pairs(cps, Seq::empty(), Seq::empty());
    assert(Seq::<(Seq<u8>, BValue)>::empty() + cps =~= cps);
    assert(ddic(w) == Ok::<(BValue, Seq<u8>), ErrorBencoding>((c, Seq::empty())));
}

} // verus!
