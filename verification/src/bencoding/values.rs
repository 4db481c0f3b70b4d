//! The bencoded value types and the error taxonomy of the codec.

use vstd::prelude::*;

use crate::bencoding::model::BValue;

verus! {

broadcast use vstd::seq::group_seq_axioms, vstd::std_specs::vec::group_vec_axioms;

/// A bencoded value: a raw byte string, a signed 64-bit integer, an
/// ordered list, or a dictionary of byte-string keys. The dictionary is
/// kept as a vector of key-value pairs whose keys are unique.
#[derive(PartialEq, Debug)]
pub enum ValuesBencoding {
    String(Vec<u8>),
    Integer(i64),
    List(Vec<ValuesBencoding>),
    Dic(Vec<(Vec<u8>, ValuesBencoding)>),
}

/// The ideal value a concrete one denotes.
pub open spec fn vview(v: ValuesBencoding) -> BValue
    decreases v,
{
    match v {
        ValuesBencoding::String(s) => BValue::Str(s@),
        ValuesBencoding::Integer(i) => BValue::Int(i as int),
        ValuesBencoding::List(l) => BValue::List(lview(l@)),
        ValuesBencoding::Dic(d) => BValue::Dict(pview(d@)),
    }
}

/// The ideal values a sequence of concrete ones denotes.
pub open spec fn lview(s: Seq<ValuesBencoding>) -> Seq<BValue>
    decreases s,
{
    Seq::new(
        s.len(),
        |i: int|
            if 0 <= i < s.len() {
                vview(s[i])
            } else {
                BValue::Int(0)
            },
    )
}

/// The ideal pairs a concrete dictionary denotes.
pub open spec fn pview(d: Seq<(Vec<u8>, ValuesBencoding)>) -> Seq<(Seq<u8>, BValue)>
    decreases d,
{
    Seq::new(
        d.len(),
        |i: int|
            if 0 <= i < d.len() {
                (d[i].0@, vview(d[i].1))
            } else {
                (Seq::empty(), BValue::Int(0))
            },
    )
}

/// Appending a concrete value appends its ideal counterpart.
pub proof fn lemma_lview_push(s: Seq<ValuesBencoding>, v: ValuesBencoding)
    ensures
        lview(s.push(v)) == lview(s).push(vview(v)),
{
    assert(lview(s.push(v)) =~= lview(s).push(vview(v)));
}

/// Appending a concrete pair appends its ideal counterpart.
pub proof fn lemma_pview_push(s: Seq<(Vec<u8>, ValuesBencoding)>, k: Vec<u8>, v: ValuesBencoding)
    ensures
        pview(s.push((k, v))) == pview(s).push((k@, vview(v))),
{
    assert(pview(s.push((k, v))) =~= pview(s).push((k@, vview(v))));
}

/// Which of the four value shapes a decoding failure concerns.
#[derive(PartialEq, Eq, Structural, Debug, Clone, Copy)]
pub enum ErrorBencoding {
    String(ErrorType),
    Integer(ErrorType),
    List(ErrorType),
    Dic(ErrorType),
}

/// What went wrong inside that shape: malformed framing, a byte string
/// shorter than its announced length, or an invalid number.
#[derive(PartialEq, Eq, Structural, Debug, Clone, Copy)]
pub enum ErrorType {
    Format,
    Long,
    Number,
}

} // verus!
