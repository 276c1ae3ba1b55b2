//! The per-individual record and the pairwise similarity predicate.

use vstd::prelude::*;

verus! {

/// One survey record. The two behavioral scores are fixed-point integers:
/// the caller picks a scale (the bundled application uses hundredths) and the
/// library only ever adds and compares them, so the scale never matters here.
#[derive(Debug, Clone, PartialEq)]
pub struct Person {
    pub peer_influence: i32,
    pub age_group: String,
    pub socioeconomic_status: String,
    pub smoking_prevalence: i64,
    pub drug_experimentation: i64,
}

/// Two records are similar when their peer-influence scores differ by at most
/// 2 and both categorical labels match exactly.
pub open spec fn spec_should_connect(a: Person, b: Person) -> bool {
    &&& -2 <= a.peer_influence - b.peer_influence <= 2
    &&& a.age_group@ == b.age_group@
    &&& a.socioeconomic_status@ == b.socioeconomic_status@
}

/// Decides whether two records are close enough to share an edge.
pub fn should_connect(person1: &Person, person2: &Person) -> (r: bool)
    ensures
        r == spec_should_connect(*person1, *person2),
{
    let diff: i64 = person1.peer_influence as i64 - person2.peer_influence as i64;
    -2 <= diff && diff <= 2 && person1.age_group == person2.age_group
        && person1.socioeconomic_status == person2.socioeconomic_status
}

/// Symmetry: the similarity predicate gives the same answer either way round.
pub proof fn lemma_should_connect_symmetric(a: Person, b: Person)
    ensures
        spec_should_connect(a, b) == spec_should_connect(b, a),
{
}

pub open spec fn is_digit(b: u8) -> bool {
    48 <= b <= 57
}

pub open spec fn all_digits(s: Seq<u8>) -> bool {
    forall|k: int| 0 <= k < s.len() ==> is_digit(#[trigger] s[k])
}

/// The value of a string of decimal digits.
pub open spec fn digits_value(s: Seq<u8>) -> int
    decreases s.len(),
{
    if s.len() == 0 {
        0
    } else {
        digits_value(s.drop_last()) * 10 + (s.last() - 48)
    }
}

/// What `i32` parsing accepts: an optional sign, then one or more decimal
/// digits, with the signed value in range.
pub open spec fn parsed_i32(s: Seq<u8>) -> Option<int> {
    let digits = if s.len() > 0 && (s[0] == 43 || s[0] == 45) {
        s.drop_first()
    } else {
        s
    };
    let signed = if s.len() > 0 && s[0] == 45 {
        -digits_value(digits)
    } else {
        digits_value(digits)
    };
    if digits.len() == 0 || !all_digits(digits) {
        None
    } else if signed < i32::MIN || signed > i32::MAX {
        None
    } else {
        Some(signed)
    }
}

/// The peer-influence score read from a raw field: the parsed value, or the
/// documented fallback 0 when the field does not parse.
pub open spec fn peer_influence_of(s: Seq<u8>) -> int {
    match parsed_i32(s) {
        Some(v) => v,
        None => 0,
    }
}

proof fn lemma_digits_value_nonneg(s: Seq<u8>)
    requires
        all_digits(s),
    ensures
        digits_value(s) >= 0,
    decreases s.len(),
{
    if s.len() > 0 {
        lemma_digits_value_nonneg(s.drop_last());
    }
}

/// Reads a peer-influence field, falling back to 0 on anything that is not a
/// decimal integer in `i32` range.
pub fn parse_peer_influence(s: &[u8]) -> (r: i32)
    ensures
        r == peer_influence_of(s@),
{
    let len = s.len();
    let has_sign = len > 0 && (s[0] == 43 || s[0] == 45);
    let neg = len > 0 && s[0] == 45;
    let start: usize = if has_sign {
        1
    } else {
        0
    };
    if start >= len {
        // no digits at all
        return 0;
    }
    let ghost digits = s@.subrange(start as int, len as int);
    let mut acc: i64 = 0;
    let mut over = false;
    let mut k = start;
    while k < len
        invariant
            start <= k <= len,
            len == s@.len(),
            start < len,
            has_sign == (s@.len() > 0 && (s@[0] == 43 || s@[0] == 45)),
            neg == (s@.len() > 0 && s@[0] == 45),
            start == if has_sign { 1int } else { 0int },
            digits == s@.subrange(start as int, len as int),
            all_digits(s@.subrange(start as int, k as int)),
            !over ==> 0 <= acc <= 0x8000_0000 && acc == digits_value(
                s@.subrange(start as int, k as int),
            ),
            over ==> digits_value(s@.subrange(start as int, k as int)) > 0x8000_0000,
        decreases len - k,
    {
        let ghost pref = s@.subrange(start as int, k as int);
        let b = s[k];
        if b < 48 || b > 57 {
            // a non-digit anywhere makes the whole field unparsable
            assert(digits[k - start] == b);
            assert(!all_digits(digits));
            proof {
                if has_sign {
                    assert(digits =~= s@.drop_first());
                } else {
                    assert(digits =~= s@);
                }
            }
            return 0;
        }
        let ghost pref1 = s@.subrange(start as int, k + 1);
        proof {
            assert(pref1.drop_last() =~= pref);
            assert(pref1.last() == b);
            assert(digits_value(pref1) == digits_value(pref) * 10 + (b - 48));
        }
        if !over {
            let acc2 = acc * 10 + ((b - 48) as i64);
            if acc2 > 0x8000_0000 {
                over = true;
            } else {
                acc = acc2;
            }
        } else {
            proof {
                lemma_digits_value_nonneg(pref);
            }
        }
        k += 1;
    }
    assert(s@.subrange(start as int, k as int) =~= digits);
    proof {
        if has_sign {
            assert(digits =~= s@.drop_first());
        } else {
            assert(digits =~= s@);
        }
        lemma_digits_value_nonneg(digits);
    }
    if over {
        // magnitude beyond 2^31 is out of range for either sign
        return 0;
    }
    if neg {
        assert(parsed_i32(s@) == Some(-acc as int));
        (-acc) as i32
    } else {
        if acc > 0x7fff_ffff {
            // 2^31 itself only fits when negated
            return 0;
        }
        assert(parsed_i32(s@) == Some(acc as int));
        acc as i32
    }
}

} // verus!
