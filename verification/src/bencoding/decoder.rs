//! The bencoding decoder: each function consumes a byte vector, returns
//! the decoded value together with the bytes that follow it, and is
//! proved to compute exactly what the model's decoding functions say.

use vstd::prelude::*;

use crate::bencoding::model::{
    ddic, ddic_items, dint, dlist, dlist_items, dstr, dval, lemma_upsert_uniq, uniq_keys, upsert,
    valid_number, BValue,
};
use crate::bencoding::values::{
    lemma_lview_push, lemma_pview_push, lview, pview, vview, ErrorBencoding, ErrorType,
    ValuesBencoding,
};
use crate::byteseq::{bytes_eq, find_byte};
use crate::numbers::{parse_i64_bytes, parse_u32_bytes};
use vstd::slice::{slice_subrange, slice_to_vec};

verus! {

broadcast use vstd::seq::group_seq_axioms, vstd::std_specs::vec::group_vec_axioms;

/// The run of bytes before the first colon is the length; exactly that
/// many bytes after it are the string, and the rest is handed back.
pub fn to_string(to_parse: Vec<u8>) -> (r: Result<(Vec<u8>, Vec<u8>), ErrorBencoding>)
    ensures
        ({
            match dstr(to_parse@) {
                Ok((sv, rest)) => r matches Ok(p) && p.0@ == sv && p.1@ == rest,
                Err(e) => r matches Err(e2) && e2 == e,
            }
        }),
        r matches Ok(p) ==> p.1@.len() < to_parse@.len(),
{
    let n = to_parse.len();
    let colon = match find_byte(to_parse.as_slice(), 58, 0) {
        Some(c) => c,
        None => {
            return Err(ErrorBencoding::String(ErrorType::Format));
        },
    };
    proof {
        crate::byteseq::lemma_byte_pos_valid(to_parse@, 58, 0);
        assert(to_parse@.subrange(0, colon as int) =~= to_parse@.take(colon as int));
    }
    let prefix = slice_subrange(to_parse.as_slice(), 0, colon);
    let long_int = match parse_u32_bytes(prefix) {
        Some(number) => number,
        None => {
            return Err(ErrorBencoding::String(ErrorType::Format));
        },
    };
    let have = n - colon - 1;
    if (have as u64) < (long_int as u64) {
        return Err(ErrorBencoding::String(ErrorType::Long));
    }
    let end = colon + 1 + (long_int as usize);
    let result = slice_to_vec(slice_subrange(to_parse.as_slice(), colon + 1, end));
    let rest = slice_to_vec(slice_subrange(to_parse.as_slice(), end, n));
    proof {
        assert(rest@ =~= to_parse@.skip(colon + 1 + long_int));
    }
    Ok((result, rest))
}

/// The decoder's integer check: not `-0`, and no leading zero ahead of
/// further digits, looking through any run of minus signs.
pub fn is_valid_number(num: &[u8]) -> (r: bool)
    ensures
        r == valid_number(num@),
{
    let n = num.len();
    proof {
        assert(num@.skip(0) =~= num@);
    }
    let mut i: usize = 0;
    loop
        invariant
            0 <= i <= n,
            n == num@.len(),
            valid_number(num@) == valid_number(num@.skip(i as int)),
        decreases n - i,
    {
        let ghost t = num@.skip(i as int);
        if n - i == 2 && num[i] == 45 && num[i + 1] == 48 {
            proof {
                assert(t =~= seq![45u8, 48u8]);
            }
            return false;
        }
        proof {
            if t.len() == 2 {
                assert(t[0] == num@[i as int] && t[1] == num@[i + 1]);
            }
            assert(t != seq![45u8, 48u8]);
        }
        if i == n {
            return true;
        }
        if num[i] == 45 {
            proof {
                assert(t.drop_first() =~= num@.skip(i + 1));
            }
            i = i + 1;
        } else if num[i] == 48 && n - i > 1 {
            return false;
        } else {
            return true;
        }
    }
}

/// An integer is `i`, an optionally signed digit run, `e`; the digits
/// must pass `is_valid_number` and fit in 64 bits.
pub fn to_integer(to_parse: Vec<u8>) -> (r: Result<(i64, Vec<u8>), ErrorBencoding>)
    ensures
        ({
            match dint(to_parse@) {
                Ok((v, rest)) => r matches Ok(p) && p.0 == v && p.1@ == rest,
                Err(e) => r matches Err(e2) && e2 == e,
            }
        }),
        r matches Ok(p) ==> p.1@.len() < to_parse@.len(),
{
    let n = to_parse.len();
    if n == 0 {
        return Err(ErrorBencoding::Integer(ErrorType::Format));
    }
    if to_parse[0] != 105 {
        return Err(ErrorBencoding::Integer(ErrorType::Format));
    }
    let epos = match find_byte(to_parse.as_slice(), 101, 1) {
        Some(e) => e,
        None => {
            return Err(ErrorBencoding::Integer(ErrorType::Format));
        },
    };
    proof {
        crate::byteseq::lemma_byte_pos_valid(to_parse@, 101, 1);
    }
    let digits = slice_subrange(to_parse.as_slice(), 1, epos);
    if !is_valid_number(digits) {
        return Err(ErrorBencoding::Integer(ErrorType::Number));
    }
    let num = match parse_i64_bytes(digits) {
        Some(v) => v,
        None => {
            return Err(ErrorBencoding::Integer(ErrorType::Number));
        },
    };
    let rest = slice_to_vec(slice_subrange(to_parse.as_slice(), epos + 1, n));
    proof {
        assert(rest@ =~= to_parse@.skip(epos + 1));
    }
    Ok((num, rest))
}

/// Decodes the one value that starts at `type_char`, which is the first
/// byte of `to_parse`; `from` names the surrounding container for the
/// error when that byte opens no value.
pub fn take_value_by_type(from: u8, type_char: u8, to_parse: Vec<u8>) -> (r: Result<
    (ValuesBencoding, Vec<u8>),
    ErrorBencoding,
>)
    requires
        to_parse@.len() > 0,
        type_char == to_parse@[0],
    ensures
        ({
            match dval(from, to_parse@) {
                Ok((v, rest)) => r matches Ok(p) && vview(p.0) == v && p.1@ == rest && rest.len()
                    < to_parse@.len(),
                Err(e) => r matches Err(e2) && e2 == e,
            }
        }),
    decreases to_parse@.len(), 1int,
{
    if type_char >= 48 && type_char <= 57 {
        match to_string(to_parse) {
            Ok((s, next_parse)) => Ok((ValuesBencoding::String(s), next_parse)),
            Err(e) => Err(e),
        }
    } else if type_char == 105 {
        match to_integer(to_parse) {
            Ok((num, next_parse)) => Ok((ValuesBencoding::Integer(num), next_parse)),
            Err(e) => Err(e),
        }
    } else if type_char == 108 {
        match to_list(to_parse) {
            Ok((list, next_parse)) => Ok((ValuesBencoding::List(list), next_parse)),
            Err(e) => Err(e),
        }
    } else if type_char == 100 {
        match to_dic(to_parse) {
            Ok((dic, next_parse)) => Ok((ValuesBencoding::Dic(dic), next_parse)),
            Err(e) => Err(e),
        }
    } else if from == 108 {
        Err(ErrorBencoding::List(ErrorType::Format))
    } else {
        Err(ErrorBencoding::Dic(ErrorType::Format))
    }
}

/// Glues one decoded element onto the front of however the remaining
/// elements decode.
pub open spec fn dlist_items_cont(acc: Seq<BValue>, t: Seq<u8>) -> Result<
    (Seq<BValue>, Seq<u8>),
    ErrorBencoding,
> {
    match dlist_items(t) {
        Ok((vs, fin)) => Ok((acc + vs, fin)),
        Err(e) => Err(e),
    }
}

/// A list is `l`, any run of values, `e`.
pub fn to_list(to_parse: Vec<u8>) -> (r: Result<(Vec<ValuesBencoding>, Vec<u8>), ErrorBencoding>)
    ensures
        ({
            match dlist(to_parse@) {
                Ok((v, rest)) => r matches Ok(p) && v == BValue::List(lview(p.0@)) && p.1@ == rest,
                Err(e) => r matches Err(e2) && e2 == e,
            }
        }),
        r matches Ok(p) ==> p.1@.len() < to_parse@.len(),
    decreases to_parse@.len(), 0int,
{
    let ghost s0 = to_parse@;
    let n = to_parse.len();
    if n == 0 || to_parse[0] != 108 {
        return Err(ErrorBencoding::List(ErrorType::Format));
    }
    let mut rest_vec: Vec<u8> = slice_to_vec(slice_subrange(to_parse.as_slice(), 1, n));
    proof {
        assert(rest_vec@ =~= s0.skip(1));
    }
    let ghost t0 = rest_vec@;
    let mut list_return: Vec<ValuesBencoding> = Vec::new();
    loop
        invariant
            dlist_items(t0) == dlist_items_cont(lview(list_return@), rest_vec@),
            rest_vec@.len() <= t0.len(),
            t0 == s0.skip(1),
            s0 == to_parse@,
            s0.len() == n,
            n >= 1,
            s0[0] == 108,
        decreases rest_vec@.len(),
    {
        let m = rest_vec.len();
        if m == 0 {
            return Err(ErrorBencoding::List(ErrorType::Format));
        }
        let next_char = rest_vec[0];
        if next_char == 101 {
            let fin = slice_to_vec(slice_subrange(rest_vec.as_slice(), 1, m));
            proof {
                assert(fin@ =~= rest_vec@.skip(1));
                assert(lview(list_return@) + Seq::<BValue>::empty() =~= lview(list_return@));
            }
            return Ok((list_return, fin));
        }
        let ghost cur = rest_vec@;
        match take_value_by_type(108, next_char, rest_vec) {
            Ok((value, next_parse)) => {
                proof {
                    lemma_lview_push(list_return@, value);
                    let acc = lview(list_return@);
                    let vv = vview(value);
                    let r2 = dlist_items(next_parse@);
                    if r2 is Ok {
                        let (vs, fin) = r2->Ok_0;
                        assert(acc + (seq![vv] + vs) =~= acc.push(vv) + vs);
                    }
                    assert(dlist_items_cont(acc, cur) == dlist_items_cont(
                        acc.push(vv),
                        next_parse@,
                    ));
                }
                list_return.push(value);
                rest_vec = next_parse;
            },
            Err(e) => {
                return Err(e);
            },
        }
    }
}

/// Inserts or overwrites the pair for `key`: a new key is appended, an
/// existing one keeps its place and takes the new value.
fn dic_upsert(dic: &mut Vec<(Vec<u8>, ValuesBencoding)>, key: Vec<u8>, value: ValuesBencoding)
    requires
        uniq_keys(pview(old(dic)@)),
    ensures
        pview(final(dic)@) == upsert(pview(old(dic)@), key@, vview(value)),
        uniq_keys(pview(final(dic)@)),
{
    proof {
        lemma_upsert_uniq(pview(dic@), key@, vview(value));
    }
    let n = dic.len();
    let mut j: usize = 0;
    while j < n
        invariant
            0 <= j <= n,
            n == dic@.len(),
            dic@ == old(dic)@,
            uniq_keys(pview(dic@)),
            forall|t: int| 0 <= t < j ==> pview(dic@)[t].0 != key@,
        decreases n - j,
    {
        let hit = bytes_eq(vstd::std_specs::vec::vec_index(dic, j).0.as_slice(), key.as_slice());
        if hit {
            let ghost before = dic@;
            let _replaced = dic.remove(j);
            dic.insert(j, (key, value));
            proof {
                assert(dic@ =~= before.update(j as int, (key, value)));
                assert(pview(before)[j as int].0 == key@);
                assert(crate::bencoding::model::has_key(pview(before), key@));
                let up = upsert(pview(before), key@, vview(value));
                assert forall|t: int| 0 <= t < pview(dic@).len() implies pview(dic@)[t] == up[t] by {
                    if t != j {
                        assert(pview(before)[t].0 != key@);
                        assert(dic@[t] == before[t]);
                    }
                }
                assert(pview(dic@) =~= up);
            }
            return ;
        }
        j = j + 1;
    }
    proof {
        assert forall|t: int|
            0 <= t < pview(dic@).len() implies (#[trigger] pview(dic@)[t]).0 != key@ by {}
        assert(!crate::bencoding::model::has_key(pview(dic@), key@));
        lemma_pview_push(dic@, key, value);
    }
    dic.push((key, value));
    proof {
        assert(pview(dic@) =~= pview(old(dic)@).push((key@, vview(value))));
    }
}

/// The key `k` sits at index `i`.
pub open spec fn has_key_at(s: Seq<(Seq<u8>, BValue)>, k: Seq<u8>, i: int) -> bool {
    0 <= i < s.len() && s[i].0 == k
}

/// A dictionary is `d`, any run of byte-string keys each followed by a
/// value, `e`; a repeated key keeps its place and takes the last value.
pub fn to_dic(to_parse: Vec<u8>) -> (r: Result<
    (Vec<(Vec<u8>, ValuesBencoding)>, Vec<u8>),
    ErrorBencoding,
>)
    ensures
        ({
            match ddic(to_parse@) {
                Ok((v, rest)) => r matches Ok(p) && v == BValue::Dict(pview(p.0@)) && p.1@ == rest,
                Err(e) => r matches Err(e2) && e2 == e,
            }
        }),
        r matches Ok(p) ==> p.1@.len() < to_parse@.len() && uniq_keys(pview(p.0@)),
    decreases to_parse@.len(), 0int,
{
    let ghost s0 = to_parse@;
    let n = to_parse.len();
    if n == 0 || to_parse[0] != 100 {
        return Err(ErrorBencoding::Dic(ErrorType::Format));
    }
    let mut rest_vec: Vec<u8> = slice_to_vec(slice_subrange(to_parse.as_slice(), 1, n));
    proof {
        assert(rest_vec@ =~= s0.skip(1));
    }
    let ghost t0 = rest_vec@;
    let mut dic_return: Vec<(Vec<u8>, ValuesBencoding)> = Vec::new();
    proof {
        assert(pview(dic_return@) =~= Seq::<(Seq<u8>, BValue)>::empty());
    }
    loop
        invariant
            ddic_items(t0, Seq::empty()) == ddic_items(rest_vec@, pview(dic_return@)),
            uniq_keys(pview(dic_return@)),
            rest_vec@.len() <= t0.len(),
            t0 == s0.skip(1),
            s0 == to_parse@,
            s0.len() == n,
            n >= 1,
            s0[0] == 100,
        decreases rest_vec@.len(),
    {
        let m = rest_vec.len();
        if m == 0 {
            return Err(ErrorBencoding::Dic(ErrorType::Format));
        }
        let next_char = rest_vec[0];
        if next_char == 101 {
            let fin = slice_to_vec(slice_subrange(rest_vec.as_slice(), 1, m));
            proof {
                assert(fin@ =~= rest_vec@.skip(1));
            }
            return Ok((dic_return, fin));
        }
        let ghost cur = rest_vec@;
        let (key, next_parse) = match to_string(rest_vec) {
            Ok((k, p)) => (k, p),
            Err(_) => {
                return Err(ErrorBencoding::Dic(ErrorType::Format));
            },
        };
        let p1 = next_parse.len();
        if p1 == 0 {
            return Err(ErrorBencoding::Dic(ErrorType::Format));
        }
        let char_next = next_parse[0];
        let ghost r1 = next_parse@;
        match take_value_by_type(100, char_next, next_parse) {
            Ok((value, rest2)) => {
                proof {
                    assert(ddic_items(cur, pview(dic_return@)) == ddic_items(
                        rest2@,
                        upsert(pview(dic_return@), key@, vview(value)),
                    ));
                }
                dic_upsert(&mut dic_return, key, value);
                rest_vec = rest2;
            },
            Err(e) => {
                return Err(e);
            },
        }
    }
}

/// A whole torrent file: one dictionary with nothing after it.
pub fn from_torrent_to_dic(torrent_file: Vec<u8>) -> (r: Result<
    Vec<(Vec<u8>, ValuesBencoding)>,
    ErrorBencoding,
>)
    ensures
        ({
            match crate::bencoding::model::dtorrent(torrent_file@) {
                Ok(v) => r matches Ok(d) && v == BValue::Dict(pview(d@)),
                Err(e) => r matches Err(e2) && e2 == e,
            }
        }),
{
    match to_dic(torrent_file) {
        Ok((result, rest)) => {
            if rest.len() == 0 {
                proof {
                    assert(rest@ =~= Seq::<u8>::empty());
                }
                Ok(result)
            } else {
                Err(ErrorBencoding::Dic(ErrorType::Format))
            }
        },
        Err(e) => Err(e),
    }
}

} // verus!
