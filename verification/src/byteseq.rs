//! Byte-sequence helpers shared by the codec and the announce parser:
//! ASCII literals as byte vectors, substring search, delimiter-bounded
//! extraction, and the byte-lexicographic order on keys.

use vstd::prelude::*;
use vstd::string::StringSliceAdditionalSpecFns;

verus! {

/// The bytes of an ASCII character sequence, one byte per character.
pub open spec fn ascii(s: Seq<char>) -> Seq<u8> {
    s.map_values(|c: char| c as u8)
}

/// Turns an ASCII string slice into the byte vector it denotes.
pub fn str_bytes(s: &str) -> (r: Vec<u8>)
    requires
        s.is_ascii(),
    ensures
        r@ == ascii(s@),
{
    proof {
        broadcast use vstd::string::is_ascii_spec_bytes;

        assert(s.spec_bytes() =~= ascii(s@));
    }
    let b = s.as_bytes();
    vstd::slice::slice_to_vec(b)
}

/// The pattern `pat` occurs in `s` at position `i`.
pub open spec fn match_at(s: Seq<u8>, pat: Seq<u8>, i: int) -> bool {
    0 <= i && i + pat.len() <= s.len() && s.subrange(i, i + pat.len() as int) == pat
}

/// First position at or after `from` where `pat` occurs in `s`, if any.
pub open spec fn first_match_from(s: Seq<u8>, pat: Seq<u8>, from: int) -> Option<int>
    recommends
        0 <= from,
    decreases s.len() - from,
{
    if from + pat.len() > s.len() {
        None
    } else if match_at(s, pat, from) {
        Some(from)
    } else if from + pat.len() == s.len() {
        None
    } else {
        first_match_from(s, pat, from + 1)
    }
}

/// First position where `pat` occurs in `s`, if any.
pub open spec fn first_match(s: Seq<u8>, pat: Seq<u8>) -> Option<int> {
    first_match_from(s, pat, 0)
}

/// A successful search yields a genuine occurrence, at or after `from`.
pub proof fn lemma_first_match_valid(s: Seq<u8>, pat: Seq<u8>, from: int)
    ensures
        ({
            match first_match_from(s, pat, from) {
                Some(i) => match_at(s, pat, i) && from <= i,
                None => true,
            }
        }),
    decreases s.len() - from,
{
    if from + pat.len() > s.len() {
    } else if match_at(s, pat, from) {
    } else if from + pat.len() == s.len() {
    } else {
        lemma_first_match_valid(s, pat, from + 1);
    }
}

/// Index of the first occurrence of byte `c` at or after `from`.
pub open spec fn byte_pos_from(s: Seq<u8>, c: u8, from: int) -> Option<int>
    recommends
        0 <= from,
    decreases s.len() - from,
{
    if from >= s.len() {
        None
    } else if s[from] == c {
        Some(from)
    } else {
        byte_pos_from(s, c, from + 1)
    }
}

/// A found byte lies in range and is the byte sought.
pub proof fn lemma_byte_pos_valid(s: Seq<u8>, c: u8, from: int)
    ensures
        ({
            match byte_pos_from(s, c, from) {
                Some(i) => from <= i < s.len() && s[i] == c,
                None => true,
            }
        }),
    decreases s.len() - from,
{
    if from >= s.len() {
    } else if s[from] == c {
    } else {
        lemma_byte_pos_valid(s, c, from + 1);
    }
}

/// Index of the first occurrence of `c` in `s` at or after `from`.
pub fn find_byte(s: &[u8], c: u8, from: usize) -> (r: Option<usize>)
    requires
        from <= s@.len(),
    ensures
        ({
            match byte_pos_from(s@, c, from as int) {
                Some(i) => r == Some(i as usize),
                None => r is None,
            }
        }),
{
    let n = s.len();
    let mut i: usize = from;
    while i < n
        invariant
            from <= i <= n,
            n == s@.len(),
            byte_pos_from(s@, c, from as int) == byte_pos_from(s@, c, i as int),
        decreases n - i,
    {
        if s[i] == c {
            return Some(i);
        }
        i = i + 1;
    }
    None
}

/// A byte ends a field value in a query string: `&` or space.
pub open spec fn is_delim(b: u8) -> bool {
    b == 38 || b == 32
}

/// Index of the first delimiter at or after `from`, or the length of `s`.
pub open spec fn delim_pos_from(s: Seq<u8>, from: int) -> int
    recommends
        0 <= from <= s.len(),
    decreases s.len() - from,
{
    if from >= s.len() {
        s.len() as int
    } else if is_delim(s[from]) {
        from
    } else {
        delim_pos_from(s, from + 1)
    }
}

/// The prefix of `s` up to (excluding) its first delimiter.
pub open spec fn take_until_delim(s: Seq<u8>) -> Seq<u8> {
    s.take(delim_pos_from(s, 0))
}

/// The value of the field introduced by `key`: the bytes after the first
/// occurrence of `key`, up to the next delimiter; `None` when `key` does
/// not occur.
pub open spec fn field_raw(s: Seq<u8>, key: Seq<u8>) -> Option<Seq<u8>> {
    match first_match(s, key) {
        Some(i) => Some(take_until_delim(s.skip(i + key.len()))),
        None => None,
    }
}

/// Compares `pat` against the bytes of `s` starting at `i`.
fn slice_match_at(s: &[u8], pat: &[u8], i: usize) -> (r: bool)
    requires
        i + pat@.len() <= s@.len(),
    ensures
        r == match_at(s@, pat@, i as int),
{
    let n = pat.len();
    let total = s.len();
    let mut j: usize = 0;
    while j < n
        invariant
            0 <= j <= n,
            n == pat@.len(),
            total == s@.len(),
            i + n <= total,
            forall|k: int| 0 <= k < j ==> s@[i + k] == pat@[k],
        decreases n - j,
    {
        if s[i + j] != pat[j] {
            assert(s@.subrange(i as int, i + n as int)[j as int] != pat@[j as int]);
            return false;
        }
        j = j + 1;
    }
    assert(s@.subrange(i as int, i + n as int) =~= pat@);
    true
}

/// First index just past an occurrence of `end_line` in `response`, or
/// `None` when the pattern never occurs.
pub fn find_index_msg(response: &[u8], size: usize, end_line: &[u8]) -> (r: Option<usize>)
    requires
        size == end_line@.len(),
        0 < size,
    ensures
        ({
            match first_match(response@, end_line@) {
                Some(i) => r == Some((i + size) as usize),
                None => r is None,
            }
        }),
{
    let n = response.len();
    if n < size {
        assert(first_match_from(response@, end_line@, 0) is None);
        return None;
    }
    let mut i: usize = 0;
    while i <= n - size
        invariant
            0 <= i,
            size <= n,
            i + size <= n + 1,
            n == response@.len(),
            size == end_line@.len(),
            0 < size,
            first_match(response@, end_line@) == first_match_from(response@, end_line@, i as int),
        decreases n - i,
    {
        if slice_match_at(response, end_line, i) {
            return Some(i + size);
        }
        i = i + 1;
    }
    assert(first_match_from(response@, end_line@, i as int) is None);
    None
}

/// The field value that starts at `announce[0]`: every byte before the
/// first `&` or space.
pub fn take_result(announce: &[u8]) -> (r: Vec<u8>)
    ensures
        r@ == take_until_delim(announce@),
{
    let n = announce.len();
    let mut result: Vec<u8> = Vec::new();
    let mut i: usize = 0;
    while i < n
        invariant
            0 <= i <= n,
            n == announce@.len(),
            forall|k: int| 0 <= k < i ==> !is_delim(announce@[k]),
            delim_pos_from(announce@, 0) == delim_pos_from(announce@, i as int),
            result@ == announce@.take(i as int),
        decreases n - i,
    {
        let b = announce[i];
        if b == 38 || b == 32 {
            assert(delim_pos_from(announce@, i as int) == i as int);
            assert(result@ =~= take_until_delim(announce@));
            return result;
        }
        result.push(b);
        assert(result@ =~= announce@.take(i + 1));
        i = i + 1;
    }
    assert(delim_pos_from(announce@, i as int) == n as int);
    assert(result@ =~= take_until_delim(announce@));
    result
}

/// Looks up the field introduced by the ASCII key `command` in a raw
/// query: the bytes between the first occurrence of the key and the next
/// delimiter.
pub fn init_command(announce: &[u8], size_command: usize, command: &str) -> (r: Option<Vec<u8>>)
    requires
        command.is_ascii(),
        size_command == command@.len(),
        0 < size_command,
    ensures
        ({
            match field_raw(announce@, ascii(command@)) {
                Some(v) => r matches Some(w) && w@ == v,
                None => r is None,
            }
        }),
{
    let key = str_bytes(command);
    proof {
        lemma_first_match_valid(announce@, ascii(command@), 0);
    }
    let pos_result = find_index_msg(announce, size_command, key.as_slice());
    match pos_result {
        Some(pos) => {
            let rest = vstd::slice::slice_subrange(announce, pos, announce.len());
            assert(rest@ =~= announce@.skip(pos as int));
            Some(take_result(rest))
        },
        None => None,
    }
}

/// Byte-wise equality of two byte slices.
pub fn bytes_eq(a: &[u8], b: &[u8]) -> (r: bool)
    ensures
        r == (a@ == b@),
{
    let n = a.len();
    if n != b.len() {
        return false;
    }
    let mut i: usize = 0;
    while i < n
        invariant
            0 <= i <= n,
            n == a@.len() == b@.len(),
            forall|k: int| 0 <= k < i ==> a@[k] == b@[k],
        decreases n - i,
    {
        if a[i] != b[i] {
            return false;
        }
        i = i + 1;
    }
    assert(a@ =~= b@);
    true
}

/// Strict byte-lexicographic order: shorter prefixes come first, and the
/// first differing byte decides.
pub open spec fn lex_lt(a: Seq<u8>, b: Seq<u8>) -> bool
    decreases a.len(),
{
    if b.len() == 0 {
        false
    } else if a.len() == 0 {
        true
    } else if a[0] < b[0] {
        true
    } else if a[0] > b[0] {
        false
    } else {
        lex_lt(a.drop_first(), b.drop_first())
    }
}

/// Exactly one of `lex_lt(a, b)`, `lex_lt(b, a)`, `a == b` holds.
pub proof fn lemma_lex_connected(a: Seq<u8>, b: Seq<u8>)
    ensures
        !lex_lt(a, b) || !lex_lt(b, a),
        lex_lt(a, b) || lex_lt(b, a) || a == b,
        !(lex_lt(a, b) && a == b),
    decreases a.len(),
{
    if a.len() == 0 || b.len() == 0 {
        if a.len() == 0 && b.len() == 0 {
            assert(a =~= b);
        }
    } else {
        let at = a.drop_first();
        let bt = b.drop_first();
        lemma_lex_connected(at, bt);
        if a[0] == b[0] {
            if !lex_lt(at, bt) && !lex_lt(bt, at) {
                assert(at == bt);
                assert forall|i: int| 1 <= i < a.len() implies a[i] == b[i] by {
                    assert(at[i - 1] == bt[i - 1]);
                }
                assert(a =~= b);
            }
            if a == b {
                assert(at =~= bt);
            }
        }
    }
}

/// The byte-lexicographic order is transitive.
pub proof fn lemma_lex_trans(a: Seq<u8>, b: Seq<u8>, c: Seq<u8>)
    requires
        lex_lt(a, b),
        lex_lt(b, c),
    ensures
        lex_lt(a, c),
    decreases a.len(),
{
    if a.len() == 0 {
    } else {
        if a[0] == b[0] && b[0] == c[0] {
            lemma_lex_trans(a.drop_first(), b.drop_first(), c.drop_first());
        }
    }
}

/// Decides the strict byte-lexicographic order on two byte vectors.
pub fn lex_less(a: &Vec<u8>, b: &Vec<u8>) -> (r: bool)
    ensures
        r == lex_lt(a@, b@),
{
    let na = a.len();
    let nb = b.len();
    proof {
        assert(a@.skip(0) =~= a@);
        assert(b@.skip(0) =~= b@);
    }
    let mut i: usize = 0;
    loop
        invariant
            0 <= i <= na,
            i <= nb,
            na == a@.len(),
            nb == b@.len(),
            lex_lt(a@, b@) == lex_lt(a@.skip(i as int), b@.skip(i as int)),
        decreases na - i,
    {
        if i >= nb {
            assert(b@.skip(i as int).len() == 0);
            return false;
        }
        if i >= na {
            assert(a@.skip(i as int).len() == 0 && b@.skip(i as int).len() > 0);
            return true;
        }
        let x = a[i];
        let y = b[i];
        proof {
            assert(a@.skip(i as int)[0] == a@[i as int]);
            assert(b@.skip(i as int)[0] == b@[i as int]);
            assert(a@.skip(i as int).drop_first() =~= a@.skip(i + 1));
            assert(b@.skip(i as int).drop_first() =~= b@.skip(i + 1));
        }
        if x < y {
            return true;
        }
        if x > y {
            return false;
        }
        i = i + 1;
    }
}

} // verus!
