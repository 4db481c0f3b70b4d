//! Percent-decoding of query-string bytes: `%XX` escapes become the
//! byte they name, malformed escapes are dropped without error, and
//! every other byte passes through unchanged.

use vstd::prelude::*;

verus! {

/// An ASCII hexadecimal digit.
pub open spec fn is_hex(b: u8) -> bool {
    (48 <= b <= 57) || (97 <= b <= 102) || (65 <= b <= 70)
}

/// Value of one hexadecimal digit.
pub open spec fn hex_val(b: u8) -> int {
    if 48 <= b <= 57 {
        b - 48
    } else if 97 <= b <= 102 {
        b - 87
    } else if 65 <= b <= 70 {
        b - 55
    } else {
        0
    }
}

/// The decoded bytes: a `%` followed by two hexadecimal digits becomes
/// that byte; a `%` followed by anything else consumes the escape and
/// yields nothing; other bytes pass through.
pub open spec fn url_dec(s: Seq<u8>) -> Seq<u8>
    decreases s.len(),
{
    if s.len() == 0 {
        Seq::empty()
    } else if s[0] == 37 {
        if s.len() >= 3 {
            if is_hex(s[1]) && is_hex(s[2]) {
                seq![(hex_val(s[1]) * 16 + hex_val(s[2])) as u8] + url_dec(s.skip(3))
            } else {
                url_dec(s.skip(3))
            }
        } else {
            Seq::empty()
        }
    } else {
        seq![s[0]] + url_dec(s.skip(1))
    }
}

/// The output never outgrows the input.
pub proof fn lemma_url_dec_len(s: Seq<u8>)
    ensures
        url_dec(s).len() <= s.len(),
    decreases s.len(),
{
    if s.len() == 0 {
    } else if s[0] == 37 {
        if s.len() >= 3 {
            lemma_url_dec_len(s.skip(3));
        }
    } else {
        lemma_url_dec_len(s.skip(1));
    }
}

/// Value of one hexadecimal digit byte.
fn hex_digit(b: u8) -> (r: Option<u8>)
    ensures
        r matches Some(v) ==> is_hex(b) && v == hex_val(b),
        r is None ==> !is_hex(b),
{
    if b >= 48 && b <= 57 {
        Some(b - 48)
    } else if b >= 97 && b <= 102 {
        Some(b - 87)
    } else if b >= 65 && b <= 70 {
        Some(b - 55)
    } else {
        None
    }
}

/// Decodes percent-encoded bytes: each valid `%XX` escape becomes its
/// byte, malformed escapes disappear silently, and all other bytes are
/// copied through. The output is never longer than the input.
pub fn from_url(url: Vec<u8>) -> (r: Vec<u8>)
    ensures
        r@ == url_dec(url@),
        r@.len() <= url@.len(),
{
    let n = url.len();
    let mut vec_res: Vec<u8> = Vec::new();
    let mut i: usize = 0;
    proof {
        assert(url@.skip(0) =~= url@);
    }
    while i < n
        invariant
            0 <= i <= n,
            n == url@.len(),
            url_dec(url@) == vec_res@ + url_dec(url@.skip(i as int)),
        decreases n - i,
    {
        let b = url[i];
        let ghost t = url@.skip(i as int);
        if b == 37 {
            if n - i >= 3 {
                proof {
                    assert(t[1] == url@[i + 1] && t[2] == url@[i + 2]);
                    assert(t.skip(3) =~= url@.skip(i + 3));
                }
                let h1 = hex_digit(url[i + 1]);
                let h2 = hex_digit(url[i + 2]);
                match (h1, h2) {
                    (Some(v1), Some(v2)) => {
                        vec_res.push(v1 * 16 + v2);
                    },
                    _ => {},
                }
                i = i + 3;
            } else {
                proof {
                    assert(t.len() < 3);
                    assert(vec_res@ + Seq::<u8>::empty() =~= vec_res@);
                    assert(url_dec(url@) == vec_res@);
                }
                i = n;
            }
        } else {
            proof {
                assert(t.skip(1) =~= url@.skip(i + 1));
            }
            vec_res.push(b);
            i = i + 1;
        }
        proof {
            assert(vec_res@ + url_dec(url@.skip(i as int)) =~= url_dec(url@));
        }
    }
    proof {
        assert(url@.skip(n as int) =~= Seq::<u8>::empty());
        assert(vec_res@ =~= url_dec(url@));
        lemma_url_dec_len(url@);
    }
    vec_res
}

} // verus!
