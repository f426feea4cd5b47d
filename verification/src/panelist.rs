//! Panelists and the pure lookup helpers over a roster.
//!
//! A roster is an ordered, immutable list of panelists; addressing tokens
//! are matched against it either by name (ASCII case-insensitively) or by
//! 1-based number. Both lookups are pure functions of the roster and the
//! token text.

use vstd::prelude::*;

verus! {

/// One panelist: a display name, a short description, and the prompt
/// prelude that biases the completion service's answers. All three are
/// byte strings; the tokenizer scans raw bytes, so names are matched at
/// the byte level.
pub struct Panelist {
    pub name: Vec<u8>,
    pub description: Vec<u8>,
    pub prelude: Vec<u8>,
}

/// ASCII lower-casing of one byte; bytes outside `A..=Z` are unchanged.
pub open spec fn lower_byte(c: u8) -> u8 {
    if 0x41 <= c && c <= 0x5a {
        (c + 0x20) as u8
    } else {
        c
    }
}

/// ASCII lower-casing of a byte string.
pub open spec fn lower_seq(s: Seq<u8>) -> Seq<u8> {
    s.map_values(|c: u8| lower_byte(c))
}

/// The names of a roster, in roster order.
pub open spec fn roster_names(roster: Seq<Panelist>) -> Seq<Seq<u8>> {
    roster.map_values(|p: Panelist| p.name@)
}

/// Executable ASCII lower-casing of one byte.
pub fn to_lower(c: u8) -> (r: u8)
    ensures
        r == lower_byte(c),
{
    if 0x41 <= c && c <= 0x5a {
        c + 0x20
    } else {
        c
    }
}

/// Whether two byte strings are equal once both are ASCII lower-cased.
pub fn eq_ignore_case(a: &[u8], b: &[u8]) -> (r: bool)
    ensures
        r == (lower_seq(a@) == lower_seq(b@)),
{
    if a.len() != b.len() {
        proof {
            assert(lower_seq(a@).len() != lower_seq(b@).len());
        }
        return false;
    }
    let n = a.len();
    let mut i: usize = 0;
    while i < n
        invariant
            n == a@.len(),
            n == b@.len(),
            i <= n,
            forall|k: int| 0 <= k < i ==> lower_byte(a@[k]) == lower_byte(b@[k]),
        decreases n - i,
    {
        let ca = to_lower(*vstd::slice::slice_index_get(a, i));
        let cb = to_lower(*vstd::slice::slice_index_get(b, i));
        if ca != cb {
            proof {
                assert(lower_seq(a@)[i as int] != lower_seq(b@)[i as int]);
            }
            return false;
        }
        i = i + 1;
    }
    proof {
        assert(lower_seq(a@) =~= lower_seq(b@));
    }
    true
}

/// The index of the first name at or after position `i` that equals `tok`
/// ignoring ASCII case, or `None` when no name from `i` on matches.
pub open spec fn first_match_from(names: Seq<Seq<u8>>, tok: Seq<u8>, i: int) -> Option<int>
    decreases names.len() - i,
{
    if !(0 <= i && i < names.len()) {
        None
    } else if lower_seq(names[i]) == lower_seq(tok) {
        Some(i)
    } else {
        first_match_from(names, tok, i + 1)
    }
}

/// The roster index of the first panelist whose name equals `tok`
/// ignoring ASCII case.
pub open spec fn name_lookup(names: Seq<Seq<u8>>, tok: Seq<u8>) -> Option<int> {
    first_match_from(names, tok, 0)
}

/// Finds the first panelist whose name equals `text` ignoring ASCII case
/// and returns its roster index; `None` when no name matches.
pub fn lookup_by_name(roster: &Vec<Panelist>, text: &[u8]) -> (r: Option<usize>)
    ensures
        match r {
            Some(i) => i < roster.len() && name_lookup(roster_names(roster@), text@) == Some(
                i as int,
            ),
            None => name_lookup(roster_names(roster@), text@) is None,
        },
{
    let ghost names = roster_names(roster@);
    let n = roster.len();
    let mut i: usize = 0;
    while i < n
        invariant
            n == roster.len(),
            names == roster_names(roster@),
            i <= n,
            names.len() == n,
            first_match_from(names, text@, 0) == first_match_from(names, text@, i as int),
        decreases n - i,
    {
        proof {
            assert(names[i as int] == roster@[i as int].name@);
        }
        if eq_ignore_case(roster[i].name.as_slice(), text) {
            return Some(i);
        }
        i = i + 1;
    }
    None
}

/// Name lookup sees only the case-folded token: two token texts that agree
/// once ASCII lower-cased resolve to the same panelist, or both to none.
pub proof fn lemma_lookup_name_case_insensitive(names: Seq<Seq<u8>>, t1: Seq<u8>, t2: Seq<u8>)
    requires
        lower_seq(t1) == lower_seq(t2),
    ensures
        name_lookup(names, t1) == name_lookup(names, t2),
{
    lemma_first_match_case_insensitive(names, t1, t2, 0);
}

/// The numeric value of one ASCII digit byte; 0 for any other byte.
pub open spec fn digit_val(c: u8) -> nat {
    if 0x30 <= c && c <= 0x39 {
        (c - 0x30) as nat
    } else {
        0
    }
}

/// Whether every byte of `s` is an ASCII digit.
pub open spec fn all_digits(s: Seq<u8>) -> bool {
    forall|k: int| 0 <= k < s.len() ==> 0x30 <= #[trigger] s[k] && s[k] <= 0x39
}

/// The value of a digit string read in base 10.
pub open spec fn digits_value(s: Seq<u8>) -> nat
    decreases s.len(),
{
    if s.len() == 0 {
        0
    } else {
        digits_value(s.drop_last()) * 10 + digit_val(s.last())
    }
}

/// The number a byte string denotes under the usual unsigned-integer
/// grammar: an optional leading `+`, then one or more digits. `None` when
/// the string does not fit that grammar.
pub open spec fn parsed_number(s: Seq<u8>) -> Option<nat> {
    let digits = if s.len() > 0 && s[0] == 0x2b {
        s.drop_first()
    } else {
        s
    };
    if digits.len() > 0 && all_digits(digits) {
        Some(digits_value(digits))
    } else {
        None
    }
}

/// The zero-based roster index a numeric token denotes: defined exactly
/// when the token parses as a number `v` with `1 <= v <= n`, and then
/// equal to `v - 1`.
pub open spec fn number_lookup(n: nat, s: Seq<u8>) -> Option<int> {
    match parsed_number(s) {
        Some(v) => if 1 <= v && v <= n {
            Some(v as int - 1)
        } else {
            None
        },
        None => None,
    }
}

/// Interprets `text` as a 1-based panelist number and returns the
/// zero-based roster index: `Some(v - 1)` exactly when `text` parses as a
/// number `v` with `1 <= v <= roster.len()`, and `None` on a parse
/// failure, zero, or an out-of-range value.
pub fn is_panelist_number(roster: &Vec<Panelist>, text: &[u8]) -> (r: Option<usize>)
    ensures
        match r {
            Some(i) => number_lookup(roster.len() as nat, text@) == Some(i as int),
            None => number_lookup(roster.len() as nat, text@) is None,
        },
{
    let n = roster.len();
    let len = text.len();
    let start: usize = if len > 0 && *vstd::slice::slice_index_get(text, 0) == 0x2b {
        1
    } else {
        0
    };
    let ghost digits = text@.subrange(start as int, len as int);
    proof {
        if start == 1 {
            assert(digits =~= text@.drop_first());
        } else {
            assert(digits =~= text@);
        }
    }
    if start >= len {
        return None;
    }
    let mut k: usize = start;
    let mut acc: usize = 0;
    let mut too_big = false;
    while k < len
        invariant
            n == roster.len(),
            len == text@.len(),
            start <= k <= len,
            (text@.len() > 0 && text@[0] == 0x2b) ==> start == 1,
            !(text@.len() > 0 && text@[0] == 0x2b) ==> start == 0,
            digits == text@.subrange(start as int, len as int),
            all_digits(text@.subrange(start as int, k as int)),
            !too_big ==> acc == digits_value(text@.subrange(start as int, k as int)) && acc <= n,
            too_big ==> digits_value(text@.subrange(start as int, k as int)) > n,
        decreases len - k,
    {
        let c = *vstd::slice::slice_index_get(text, k);
        if c < 0x30 || c > 0x39 {
            proof {
                assert(digits[k - start] == c);
                assert(!all_digits(digits));
            }
            return None;
        }
        let ghost pref = text@.subrange(start as int, k as int);
        let ghost pref1 = text@.subrange(start as int, k as int + 1);
        proof {
            assert(pref1.drop_last() =~= pref);
            assert(pref1.last() == c);
            assert(digits_value(pref1) == digits_value(pref) * 10 + digit_val(c));
        }
        if !too_big {
            let d = (c - 0x30) as usize;
            match acc.checked_mul(10) {
                Some(m) => match m.checked_add(d) {
                    Some(v) => {
                        if v > n {
                            too_big = true;
                        } else {
                            acc = v;
                        }
                    },
                    None => {
                        too_big = true;
                    },
                },
                None => {
                    too_big = true;
                },
            }
        } else {
            proof {
                assert(digits_value(pref) * 10 >= digits_value(pref));
            }
        }
        k = k + 1;
    }
    proof {
        assert(text@.subrange(start as int, len as int) == digits);
    }
    if too_big {
        return None;
    }
    if acc == 0 {
        return None;
    }
    Some(acc - 1)
}

/// Looks a numeric token up in the roster; the token denotes a 1-based
/// panelist number and the result is the zero-based roster index.
pub fn lookup_by_number(roster: &Vec<Panelist>, text: &[u8]) -> (r: Option<usize>)
    ensures
        match r {
            Some(i) => number_lookup(roster.len() as nat, text@) == Some(i as int),
            None => number_lookup(roster.len() as nat, text@) is None,
        },
{
    is_panelist_number(roster, text)
}

proof fn lemma_first_match_case_insensitive(names: Seq<Seq<u8>>, t1: Seq<u8>, t2: Seq<u8>, i: int)
    requires
        lower_seq(t1) == lower_seq(t2),
    ensures
        first_match_from(names, t1, i) == first_match_from(names, t2, i),
    decreases names.len() - i,
{
    if 0 <= i && i < names.len() {
        lemma_first_match_case_insensitive(names, t1, t2, i + 1);
    }
}

} // verus!
