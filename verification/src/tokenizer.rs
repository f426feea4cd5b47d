//! The addressee tokenizer.
//!
//! A line is scanned left to right, byte by byte. A run of letters forms a
//! name token and a run of digits a number token; tokens are delimited
//! strictly by `Other` bytes (whitespace, punctuation), so a run that mixes
//! letters and digits is handed to the lookup as one token and fails there.
//! A terminated name token is matched first against the wildcard keyword
//! `all`, which addresses the whole roster and lets the scan go on, and
//! otherwise against the panelist names; a terminated number token is
//! read as a 1-based panelist number. The scan stops at the first token
//! that matches nothing; if nobody had been addressed by then and the
//! failing token was a name, two panelists are drawn at random (the picks
//! may collide). A failing number token stops the scan without that
//! fallback. The returned offset marks where the addressing prefix ends
//! and the question text begins.

use vstd::prelude::*;

use crate::panelist::{
    is_panelist_number, lookup_by_name, lower_byte, lower_seq, name_lookup, number_lookup,
    roster_names, to_lower, Panelist,
};
use rand::Rng;

verus! {

/// The class a scanned byte falls into: ASCII digit, ASCII letter, or
/// anything else. Tokens are runs of non-`Other` bytes delimited by
/// `Other` bytes.
pub enum CharClass {
    Digit,
    Alphabetic,
    Other,
}

/// The class of one byte.
pub open spec fn char_class_spec(c: u8) -> CharClass {
    if (0x41 <= c && c <= 0x5a) || (0x61 <= c && c <= 0x7a) {
        CharClass::Alphabetic
    } else if 0x30 <= c && c <= 0x39 {
        CharClass::Digit
    } else {
        CharClass::Other
    }
}

/// Classifies one byte of the input line.
pub fn char_class(c: u8) -> (r: CharClass)
    ensures
        r == char_class_spec(c),
{
    if (0x41 <= c && c <= 0x5a) || (0x61 <= c && c <= 0x7a) {
        CharClass::Alphabetic
    } else if 0x30 <= c && c <= 0x39 {
        CharClass::Digit
    } else {
        CharClass::Other
    }
}

/// Whether the line opens with the quit keyword in one of the two
/// spellings the scanner recognizes: `Quit` or `QUIT`.
pub open spec fn is_quit_line(line: Seq<u8>) -> bool {
    line.len() >= 4 && line[0] == 0x51 && ((line[1] == 0x75 && line[2] == 0x69 && line[3] == 0x74)
        || (line[1] == 0x55 && line[2] == 0x49 && line[3] == 0x54))
}

/// Checks for the quit keyword at the start of the line.
fn has_quit_prefix(line: &[u8]) -> (b: bool)
    ensures
        b == is_quit_line(line@),
{
    if line.len() < 4 {
        return false;
    }
    let b0 = *vstd::slice::slice_index_get(line, 0);
    let b1 = *vstd::slice::slice_index_get(line, 1);
    let b2 = *vstd::slice::slice_index_get(line, 2);
    let b3 = *vstd::slice::slice_index_get(line, 3);
    b0 == 0x51 && ((b1 == 0x75 && b2 == 0x69 && b3 == 0x74) || (b1 == 0x55 && b2 == 0x49 && b3
        == 0x54))
}

/// The wildcard keyword, lower-cased: `all`.
pub open spec fn all_keyword() -> Seq<u8> {
    seq![0x61u8, 0x6cu8, 0x6cu8]
}

/// Whether a token equals the wildcard keyword ignoring ASCII case.
pub open spec fn is_all_token(tok: Seq<u8>) -> bool {
    lower_seq(tok) == all_keyword()
}

/// Compares a token with the wildcard keyword ignoring ASCII case.
fn all_token(tok: &[u8]) -> (b: bool)
    ensures
        b == is_all_token(tok@),
{
    proof {
        assert(all_keyword().len() == 3);
        assert(all_keyword()[0] == 0x61 && all_keyword()[1] == 0x6c && all_keyword()[2] == 0x6c);
        assert(lower_seq(tok@).len() == tok@.len());
    }
    if tok.len() != 3 {
        return false;
    }
    let r = to_lower(*vstd::slice::slice_index_get(tok, 0)) == 0x61 && to_lower(
        *vstd::slice::slice_index_get(tok, 1),
    ) == 0x6c && to_lower(*vstd::slice::slice_index_get(tok, 2)) == 0x6c;
    proof {
        assert(lower_seq(tok@)[0] == lower_byte(tok@[0]));
        assert(lower_seq(tok@)[1] == lower_byte(tok@[1]));
        assert(lower_seq(tok@)[2] == lower_byte(tok@[2]));
        if r {
            assert(lower_seq(tok@) =~= all_keyword());
        }
    }
    r
}

/// The set of roster indices a list of indices holds.
pub open spec fn idx_set(s: Seq<usize>) -> Set<int> {
    Set::new(|j: int| exists|k: int| 0 <= k < s.len() && j == (#[trigger] s[k]) as int)
}

/// The set of every roster index below `n`.
pub open spec fn all_indices(n: int) -> Set<int> {
    Set::new(|j: int| 0 <= j < n)
}

/// The scanner's state after some prefix of the line has been consumed:
/// which kind of token run is open, where it started, where the question
/// text is currently taken to begin, who has been addressed, and whether
/// the scan has stopped — with `fallback` marking a stop that asks the
/// caller to draw two random panelists.
pub struct ScanState {
    pub reading_name: bool,
    pub reading_number: bool,
    pub tok_start: int,
    pub question_start: int,
    pub addressed: Set<int>,
    pub stopped: bool,
    pub fallback: bool,
}

/// The scanner's state before any byte is consumed.
pub open spec fn scan_init() -> ScanState {
    ScanState {
        reading_name: false,
        reading_number: false,
        tok_start: 0,
        question_start: 0,
        addressed: Set::empty(),
        stopped: false,
        fallback: false,
    }
}

/// One transition of the scanner on the byte at position `i`.
///
/// An `Other` byte terminating a name token matches it against the
/// wildcard keyword first: on a match the whole roster is addressed and
/// the scan goes on with the next token. Otherwise the token is looked up
/// among the panelist names; a miss stops the scan, with the random
/// fallback exactly when nobody has been addressed. An `Other` byte
/// terminating a number token stops the scan on a miss without the
/// fallback.
pub open spec fn scan_step(names: Seq<Seq<u8>>, line: Seq<u8>, st: ScanState, i: int) -> ScanState {
    match char_class_spec(line[i]) {
        CharClass::Digit => if !st.reading_number && !st.reading_name {
            ScanState { tok_start: i, reading_number: true, ..st }
        } else {
            st
        },
        CharClass::Alphabetic => if !st.reading_name && !st.reading_number {
            ScanState { tok_start: i, reading_name: true, ..st }
        } else {
            st
        },
        CharClass::Other => if st.reading_name {
            let tok = line.subrange(st.tok_start, i);
            if is_all_token(tok) {
                ScanState {
                    addressed: st.addressed.union(all_indices(names.len() as int)),
                    question_start: i,
                    reading_name: false,
                    tok_start: i,
                    ..st
                }
            } else {
                match name_lookup(names, tok) {
                    Some(p) => ScanState {
                        addressed: st.addressed.insert(p),
                        question_start: i,
                        reading_name: false,
                        tok_start: i,
                        ..st
                    },
                    None => ScanState {
                        stopped: true,
                        fallback: st.addressed == Set::<int>::empty(),
                        ..st
                    },
                }
            }
        } else if st.reading_number {
            let tok = line.subrange(st.tok_start, i);
            match number_lookup(names.len() as nat, tok) {
                Some(p) => ScanState {
                    addressed: st.addressed.insert(p),
                    question_start: i,
                    reading_number: false,
                    tok_start: i,
                    ..st
                },
                None => ScanState { stopped: true, ..st },
            }
        } else {
            ScanState { tok_start: i, ..st }
        },
    }
}

/// The scanner's state after the first `n` bytes of the line; a stopped
/// state absorbs every later byte.
pub open spec fn scan_to(names: Seq<Seq<u8>>, line: Seq<u8>, n: int) -> ScanState
    decreases n,
{
    if n <= 0 {
        scan_init()
    } else {
        let st = scan_to(names, line, n - 1);
        if st.stopped {
            st
        } else {
            scan_step(names, line, st, n - 1)
        }
    }
}

/// The scanner's state after the whole line.
pub open spec fn scan_result(names: Seq<Seq<u8>>, line: Seq<u8>) -> ScanState {
    scan_to(names, line, line.len() as int)
}

/// Once the scan has stopped, every longer prefix yields the same state.
pub proof fn lemma_scan_stays_stopped(names: Seq<Seq<u8>>, line: Seq<u8>, i: int, n: int)
    requires
        0 <= i <= n,
        scan_to(names, line, i).stopped,
    ensures
        scan_to(names, line, n) == scan_to(names, line, i),
    decreases n - i,
{
    if i < n {
        lemma_scan_stays_stopped(names, line, i, n - 1);
    }
}

/// What `read_tokens` returns for a line: on a quit line, no addressees
/// and offset 0; otherwise the scan's addressees and question offset,
/// where a scan that stopped in fallback yields the addressees extended by
/// two roster indices (the random picks, which may collide).
pub open spec fn tokenize_post(
    names: Seq<Seq<u8>>,
    line: Seq<u8>,
    addrs: Seq<usize>,
    q: int,
) -> bool {
    if is_quit_line(line) {
        addrs == Seq::<usize>::empty() && q == 0
    } else {
        let st = scan_result(names, line);
        &&& q == st.question_start
        &&& addrs.no_duplicates()
        &&& (forall|k: int| 0 <= k < addrs.len() ==> ((#[trigger] addrs[k]) as int) < names.len())
        &&& (if st.fallback {
            exists|a: int, b: int|
                0 <= a < names.len() && 0 <= b < names.len() && idx_set(addrs)
                    == st.addressed.insert(a).insert(b)
        } else {
            idx_set(addrs) == st.addressed
        })
    }
}

/// Whether `x` occurs in the list.
fn vec_contains(v: &Vec<usize>, x: usize) -> (b: bool)
    ensures
        b == v@.contains(x),
{
    let n = v.len();
    let mut i: usize = 0;
    while i < n
        invariant
            n == v@.len(),
            i <= n,
            forall|k: int| 0 <= k < i ==> v@[k] != x,
        decreases n - i,
    {
        if v[i] == x {
            return true;
        }
        i = i + 1;
    }
    false
}

/// Adds a roster index to the address list unless it is already there, so
/// that the list stays duplicate-free and its set grows by exactly `x`.
fn insert_unique(v: &mut Vec<usize>, x: usize)
    requires
        old(v)@.no_duplicates(),
    ensures
        final(v)@.no_duplicates(),
        idx_set(final(v)@) == idx_set(old(v)@).insert(x as int),
        forall|k: int|
            0 <= k < final(v)@.len() ==> old(v)@.contains(#[trigger] final(v)@[k]) || final(v)@[k]
                == x,
{
    if !vec_contains(v, x) {
        v.push(x);
        proof {
            assert forall|i: int, j: int|
                0 <= i < v@.len() && 0 <= j < v@.len() && i != j implies v@[i] != v@[j] by {
                if i < old(v)@.len() && j < old(v)@.len() {
                    assert(old(v)@[i] != old(v)@[j]);
                } else if i < old(v)@.len() {
                    assert(old(v)@[i] != x) by {
                        assert(!old(v)@.contains(x));
                    }
                } else {
                    assert(old(v)@[j] != x) by {
                        assert(!old(v)@.contains(x));
                    }
                }
            }
            assert(v@.no_duplicates());
            assert forall|j: int| idx_set(v@).contains(j) <==> idx_set(old(v)@).insert(
                x as int,
            ).contains(j) by {
                if idx_set(v@).contains(j) {
                    let k = choose|k: int| 0 <= k < v@.len() && j == (#[trigger] v@[k]) as int;
                    if k < old(v)@.len() {
                        assert(0 <= k < old(v)@.len() && j == (old(v)@[k]) as int);
                        assert(idx_set(old(v)@).contains(j));
                    } else {
                        assert(j == x as int);
                    }
                }
                if idx_set(old(v)@).insert(x as int).contains(j) {
                    if j == x as int {
                        assert(0 <= old(v)@.len() < v@.len() && j == (v@[old(v)@.len() as int])
                            as int);
                    } else {
                        let k = choose|k: int|
                            0 <= k < old(v)@.len() && j == (#[trigger] old(v)@[k]) as int;
                        assert(0 <= k < v@.len() && j == (v@[k]) as int);
                    }
                }
            }
            assert(idx_set(v@) =~= idx_set(old(v)@).insert(x as int));
            assert forall|k: int|
                0 <= k < v@.len() implies old(v)@.contains(#[trigger] v@[k]) || v@[k] == x by {
                if k < old(v)@.len() {
                    assert(old(v)@[k] == v@[k]);
                }
            }
        }
    } else {
        proof {
            let k0 = choose|k: int| 0 <= k < v@.len() && v@[k] == x;
            assert(idx_set(v@).contains(x as int)) by {
                assert(0 <= k0 < v@.len() && x as int == (v@[k0]) as int);
            }
            assert(idx_set(v@) =~= idx_set(old(v)@).insert(x as int));
            assert forall|k: int|
                0 <= k < v@.len() implies old(v)@.contains(#[trigger] v@[k]) || v@[k] == x by {
                assert(old(v)@[k] == v@[k]);
            }
        }
    }
}

/// Relies on `rand::Rng::gen_range` over `0..n`: a uniformly distributed
/// index strictly below `n`. The call panics only on an empty range,
/// which the precondition rules out.
#[verifier::external_body]
fn random_index(n: usize) -> (r: usize)
    requires
        n >= 1,
    ensures
        r < n,
{
    rand::thread_rng().gen_range(0..n)
}

/// The addressees of one input line and the offset where the question
/// text begins.
pub struct TokenizeResult {
    pub addressees: Vec<usize>,
    pub question_start: usize,
}

/// Scans one input line against the roster and returns the addressed
/// panelists, as duplicate-free zero-based roster indices, together with
/// the byte offset at which the question text begins.
///
/// A quit line is reported as no addressees and offset 0; the caller
/// treats it as a termination signal. An otherwise empty result (an empty
/// line, or a leading number token that matches no panelist) is also
/// possible and is the caller's to resolve; the random-pair fallback fires
/// only when a name token misses while nobody has been addressed, as the
/// scan-state model says.
pub fn read_tokens(roster: &Vec<Panelist>, line: &[u8]) -> (r: TokenizeResult)
    requires
        roster.len() >= 1,
    ensures
        tokenize_post(roster_names(roster@), line@, r.addressees@, r.question_start as int),
        r.question_start <= line@.len(),
{
    let ghost names = roster_names(roster@);
    proof {
        assert(names.len() == roster@.len());
    }
    if has_quit_prefix(line) {
        return TokenizeResult { addressees: Vec::new(), question_start: 0 };
    }
    let n = line.len();
    let mut addrs: Vec<usize> = Vec::new();
    let mut reading_name = false;
    let mut reading_number = false;
    let mut j: usize = 0;
    let mut imax: usize = 0;
    let mut need_fallback = false;
    let mut i: usize = 0;
    proof {
        assert(idx_set(addrs@) =~= Set::<int>::empty());
    }
    while i < n
        invariant_except_break
            n == line@.len(),
            roster.len() >= 1,
            names == roster_names(roster@),
            names.len() == roster@.len(),
            i <= n,
            j <= i,
            imax <= i,
            !need_fallback,
            addrs@.no_duplicates(),
            forall|k: int|
                0 <= k < addrs@.len() ==> ((#[trigger] addrs@[k]) as int) < names.len(),
            ({
                let st = scan_to(names, line@, i as int);
                &&& !st.stopped
                &&& !st.fallback
                &&& st.reading_name == reading_name
                &&& st.reading_number == reading_number
                &&& st.tok_start == j as int
                &&& st.question_start == imax as int
                &&& st.addressed == idx_set(addrs@)
            }),
        ensures
            imax <= n,
            addrs@.no_duplicates(),
            forall|k: int|
                0 <= k < addrs@.len() ==> ((#[trigger] addrs@[k]) as int) < names.len(),
            ({
                let st = scan_result(names, line@);
                &&& st.question_start == imax as int
                &&& st.fallback == need_fallback
                &&& st.addressed == idx_set(addrs@)
            }),
        decreases n - i,
    {
        let c = *vstd::slice::slice_index_get(line, i);
        let ghost st = scan_to(names, line@, i as int);
        let ghost st_next = scan_step(names, line@, st, i as int);
        proof {
            assert(scan_to(names, line@, i as int + 1) == st_next);
        }
        match char_class(c) {
            CharClass::Digit => {
                if !reading_number && !reading_name {
                    j = i;
                    reading_number = true;
                }
            },
            CharClass::Alphabetic => {
                if !reading_name && !reading_number {
                    j = i;
                    reading_name = true;
                }
            },
            CharClass::Other => {
                if reading_name {
                    let tok = vstd::slice::slice_subrange(line, j, i);
                    if all_token(tok) {
                        let ghost pre = idx_set(addrs@);
                        let nr = roster.len();
                        let mut p: usize = 0;
                        while p < nr
                            invariant
                                p <= nr,
                                nr == names.len(),
                                addrs@.no_duplicates(),
                                forall|k: int|
                                    0 <= k < addrs@.len() ==> ((#[trigger] addrs@[k]) as int)
                                        < names.len(),
                                idx_set(addrs@) == pre.union(all_indices(p as int)),
                            decreases nr - p,
                        {
                            insert_unique(&mut addrs, p);
                            proof {
                                assert(pre.union(all_indices(p as int)).insert(p as int)
                                    =~= pre.union(all_indices(p as int + 1)));
                            }
                            p = p + 1;
                        }
                        imax = i;
                        reading_name = false;
                        proof {
                            assert(idx_set(addrs@) == st_next.addressed);
                            assert(imax as int == st_next.question_start);
                        }
                    } else {
                        match lookup_by_name(roster, tok) {
                            Some(pidx) => {
                                insert_unique(&mut addrs, pidx);
                                imax = i;
                                reading_name = false;
                            },
                            None => {
                                if addrs.len() == 0 {
                                    need_fallback = true;
                                    proof {
                                        assert(idx_set(addrs@) =~= Set::<int>::empty());
                                    }
                                } else {
                                    proof {
                                        assert(idx_set(addrs@).contains((addrs@[0]) as int)) by {
                                            assert(0 <= 0 < addrs@.len() && (addrs@[0]) as int == (
                                            addrs@[0]) as int);
                                        }
                                        assert(idx_set(addrs@) != Set::<int>::empty());
                                    }
                                }
                                proof {
                                    assert(st_next.stopped);
                                    lemma_scan_stays_stopped(names, line@, i as int + 1, n as int);
                                }
                                break ;
                            },
                        }
                    }
                } else if reading_number {
                    let tok = vstd::slice::slice_subrange(line, j, i);
                    match is_panelist_number(roster, tok) {
                        Some(pidx) => {
                            insert_unique(&mut addrs, pidx);
                            imax = i;
                            reading_number = false;
                        },
                        None => {
                            proof {
                                assert(st_next.stopped);
                                lemma_scan_stays_stopped(names, line@, i as int + 1, n as int);
                            }
                            break ;
                        },
                    }
                }
                j = i;
            },
        }
        i = i + 1;
    }
    if need_fallback {
        let a = random_index(roster.len());
        let b = random_index(roster.len());
        let ghost st = scan_result(names, line@);
        insert_unique(&mut addrs, a);
        insert_unique(&mut addrs, b);
        proof {
            assert(idx_set(addrs@) == st.addressed.insert(a as int).insert(b as int));
            assert((a as int) < names.len() && (b as int) < names.len());
        }
    }
    TokenizeResult { addressees: addrs, question_start: imax }
}

/// A line that opens with the quit keyword addresses nobody and leaves
/// the question offset at 0, whatever follows the keyword.
pub proof fn lemma_quit_yields_no_addressees(
    names: Seq<Seq<u8>>,
    line: Seq<u8>,
    addrs: Seq<usize>,
    q: int,
)
    requires
        tokenize_post(names, line, addrs, q),
        is_quit_line(line),
    ensures
        addrs == Seq::<usize>::empty(),
        q == 0,
{
}

/// Tokenizing is deterministic wherever the random fallback does not
/// fire: two results for the same roster and line carry the same set of
/// addressees and the same question offset.
pub proof fn lemma_tokenize_deterministic(
    names: Seq<Seq<u8>>,
    line: Seq<u8>,
    addrs1: Seq<usize>,
    q1: int,
    addrs2: Seq<usize>,
    q2: int,
)
    requires
        tokenize_post(names, line, addrs1, q1),
        tokenize_post(names, line, addrs2, q2),
        is_quit_line(line) || !scan_result(names, line).fallback,
    ensures
        idx_set(addrs1) == idx_set(addrs2),
        q1 == q2,
{
}

} // verus!
