//! The record text format: data model, parser, and serializer.
//!
//! The text grammar is property/value based: a key of uppercase letters
//! followed by one or more bracketed values, tolerated anywhere in the input.
//! `parse_sgf` scans the input for such properties and folds them into an
//! [`SgfData`]; `sgf_to_string` renders an [`SgfData`] back to text.

use vstd::prelude::*;

use crate::text::{
    chars_to_string, is_lower_letter, is_upper_char, parse_usize_chars, spec_parse_usize,
    str_to_chars,
};

verus! {

// ---------------------------------------------------------------------------
// Data model
// ---------------------------------------------------------------------------

/// Failure to build a document from input text.
#[derive(Debug, Clone, Copy, PartialEq, Eq, Structural)]
pub enum SgfParseError {
    InvalidFormat,
    MissingBoardSize,
}

#[derive(Debug, Clone, Copy, PartialEq, Eq, Structural)]
pub enum Player {
    Black,
    White,
}

/// One played stone with its side data.
#[derive(Debug, Clone)]
pub struct Move {
    pub player: Player,
    pub x: usize,
    pub y: usize,
    pub comment: Option<String>,
    pub triangles: Vec<(usize, usize)>,
}

/// The whole in-memory record: board dimension, initial stones, ordered move
/// list, and opaque metadata entries in insertion order.
#[derive(Debug, Clone)]
pub struct SgfData {
    pub board_size: usize,
    pub moves: Vec<Move>,
    pub ab: Vec<(usize, usize)>,
    pub aw: Vec<(usize, usize)>,
    pub metadata: Vec<(String, String)>,
}

/// Mathematical image of a coordinate list.
pub open spec fn upairs_view(s: Seq<(usize, usize)>) -> Seq<(int, int)> {
    Seq::new(s.len(), |i: int| (s[i].0 as int, s[i].1 as int))
}


#[verifier::ext_equal]
pub ghost struct MoveView {
    pub player: Player,
    pub x: int,
    pub y: int,
    pub comment: Option<Seq<char>>,
    pub triangles: Seq<(int, int)>,
}

impl View for Move {
    type V = MoveView;

    open spec fn view(&self) -> MoveView {
        MoveView {
            player: self.player,
            x: self.x as int,
            y: self.y as int,
            comment: match self.comment {
                Option::Some(c) => Option::Some(c@),
                Option::None => Option::None,
            },
            triangles: upairs_view(self.triangles@),
        }
    }
}

/// Mathematical image of a move list.
pub open spec fn moves_view(ms: Seq<Move>) -> Seq<MoveView> {
    Seq::new(ms.len(), |i: int| ms[i]@)
}

/// Mathematical image of a metadata list.
pub open spec fn md_view(md: Seq<(String, String)>) -> Seq<(Seq<char>, Seq<char>)> {
    Seq::new(md.len(), |i: int| (md[i].0@, md[i].1@))
}

#[verifier::ext_equal]
pub ghost struct SgfView {
    pub board_size: int,
    pub moves: Seq<MoveView>,
    pub ab: Seq<(int, int)>,
    pub aw: Seq<(int, int)>,
    pub metadata: Seq<(Seq<char>, Seq<char>)>,
}

impl View for SgfData {
    type V = SgfView;

    open spec fn view(&self) -> SgfView {
        SgfView {
            board_size: self.board_size as int,
            moves: moves_view(self.moves@),
            ab: upairs_view(self.ab@),
            aw: upairs_view(self.aw@),
            metadata: md_view(self.metadata@),
        }
    }
}

// ---------------------------------------------------------------------------
// Well-formedness
// ---------------------------------------------------------------------------

pub open spec fn coord_in_bounds(sz: int, c: (int, int)) -> bool {
    0 <= c.0 < sz && 0 <= c.1 < sz
}

pub open spec fn move_wf(sz: int, m: MoveView) -> bool {
    &&& coord_in_bounds(sz, (m.x, m.y))
    &&& forall|i: int| 0 <= i < m.triangles.len() ==> coord_in_bounds(sz, #[trigger] m.triangles[i])
}

/// The document invariant: a legal board dimension, and every coordinate in
/// the document within its bounds.
pub open spec fn sgf_wf(d: SgfView) -> bool {
    &&& 1 <= d.board_size <= 26
    &&& forall|i: int| 0 <= i < d.moves.len() ==> move_wf(d.board_size, #[trigger] d.moves[i])
    &&& forall|i: int| 0 <= i < d.ab.len() ==> coord_in_bounds(d.board_size, #[trigger] d.ab[i])
    &&& forall|i: int| 0 <= i < d.aw.len() ==> coord_in_bounds(d.board_size, #[trigger] d.aw[i])
}

pub open spec fn seq_has_char(s: Seq<char>, c: char) -> bool {
    exists|i: int| 0 <= i < s.len() && s[i] == c
}

/// A legal property key: nonempty, uppercase letters only.
pub open spec fn key_ok(k: Seq<char>) -> bool {
    k.len() >= 1 && forall|i: int| 0 <= i < k.len() ==> is_upper_char(#[trigger] k[i])
}

pub open spec fn sz_key() -> Seq<char> {
    seq!['S', 'Z']
}

pub open spec fn ab_key() -> Seq<char> {
    seq!['A', 'B']
}

pub open spec fn aw_key() -> Seq<char> {
    seq!['A', 'W']
}

pub open spec fn b_key() -> Seq<char> {
    seq!['B']
}

pub open spec fn w_key() -> Seq<char> {
    seq!['W']
}

pub open spec fn c_key() -> Seq<char> {
    seq!['C']
}

pub open spec fn tr_key() -> Seq<char> {
    seq!['T', 'R']
}

/// The keys the parser gives structure to; they never appear as metadata.
pub open spec fn structural_key(k: Seq<char>) -> bool {
    k == sz_key() || k == ab_key() || k == aw_key() || k == b_key() || k == w_key() || k == c_key()
        || k == tr_key()
}

/// Beyond `sgf_wf`: what holds of every document the parser builds, and what
/// the serialize-then-parse round trip relies on.  Comments must not contain
/// the value terminator, metadata keys are legal and non-structural, and
/// metadata values are nonempty without a terminator.
pub open spec fn doc_rt_wf(d: SgfView) -> bool {
    &&& sgf_wf(d)
    &&& forall|i: int|
        0 <= i < d.moves.len() ==> (#[trigger] d.moves[i].comment matches Option::Some(c) ==> !seq_has_char(c, ']'))
    &&& forall|i: int|
        0 <= i < d.metadata.len() ==> {
            &&& key_ok((#[trigger] d.metadata[i]).0)
            &&& !structural_key(d.metadata[i].0)
            &&& d.metadata[i].1.len() >= 1
            &&& !seq_has_char(d.metadata[i].1, ']')
        }
}

// ---------------------------------------------------------------------------
// Coordinate codec
// ---------------------------------------------------------------------------

/// The letter that encodes coordinate component `n`.
pub open spec fn letter_of(n: int) -> char {
    (('a' as int) + n) as char
}

/// The coordinate component a letter encodes.
pub open spec fn letter_val(c: char) -> int {
    c as int - 'a' as int
}

/// Two-letter coordinate decoding over the full lowercase alphabet; the board
/// bound is checked separately.  Any other shape of value is rejected.
pub open spec fn dec26(v: Seq<char>) -> Option<(int, int)> {
    if v.len() == 2 && is_lower_letter(v[0]) && is_lower_letter(v[1]) {
        Option::Some((letter_val(v[0]), letter_val(v[1])))
    } else {
        Option::None
    }
}

pub open spec fn enc_coord(x: int, y: int) -> Seq<char> {
    seq![letter_of(x), letter_of(y)]
}

pub proof fn lemma_enc_dec_coord(x: int, y: int)
    requires
        0 <= x < 26,
        0 <= y < 26,
    ensures
        dec26(enc_coord(x, y)) == Option::Some((x, y)),
{
    assert(is_lower_letter(letter_of(x)));
    assert(is_lower_letter(letter_of(y)));
}

/// Decodes a two-letter coordinate value, rejecting out-of-alphabet input.
pub fn decode_coord_chars(v: &Vec<char>) -> (r: Option<(usize, usize)>)
    ensures
        dec26(v@) == match r {
            Option::Some(p) => Option::Some((p.0 as int, p.1 as int)),
            Option::None => Option::None::<(int, int)>,
        },
        r matches Option::Some(p) ==> p.0 < 26 && p.1 < 26,
{
    if v.len() != 2 {
        return None;
    }
    let c0 = v[0];
    let c1 = v[1];
    if 'a' <= c0 && c0 <= 'z' && 'a' <= c1 && c1 <= 'z' {
        let x: usize = (c0 as u8 - 97u8) as usize;
        let y: usize = (c1 as u8 - 97u8) as usize;
        Some((x, y))
    } else {
        None
    }
}

/// Decodes a two-letter coordinate taken from a string slice.
///
/// Values that are not exactly two lowercase letters are rejected rather than
/// wrapped around, so a malformed value can never reach the board.
pub fn sgf_coords_to_xy(s: &str) -> (r: Option<(usize, usize)>)
    ensures
        dec26(s@) == match r {
            Option::Some(p) => Option::Some((p.0 as int, p.1 as int)),
            Option::None => Option::None::<(int, int)>,
        },
        r matches Option::Some(p) ==> p.0 < 26 && p.1 < 26,
{
    let cs = str_to_chars(s);
    decode_coord_chars(&cs)
}

/// Appends the two-letter encoding of an in-bounds coordinate.
pub fn push_coord(out: &mut Vec<char>, x: usize, y: usize)
    requires
        x < 26,
        y < 26,
    ensures
        final(out)@ == old(out)@ + enc_coord(x as int, y as int),
{
    let cx: char = (97u8 + x as u8) as char;
    let cy: char = (97u8 + y as u8) as char;
    out.push(cx);
    out.push(cy);
    assert(final(out)@ =~= old(out)@ + enc_coord(x as int, y as int));
}

// ---------------------------------------------------------------------------
// Tokenizer specification
// ---------------------------------------------------------------------------

/// Length of the leading run of uppercase letters.
pub open spec fn upper_run_len(s: Seq<char>) -> nat
    decreases s.len(),
{
    if s.len() == 0 || !is_upper_char(s[0]) {
        0
    } else {
        (1 + upper_run_len(s.subrange(1, s.len() as int))) as nat
    }
}

pub proof fn lemma_upper_run_len(s: Seq<char>)
    ensures
        upper_run_len(s) <= s.len(),
        forall|i: int| 0 <= i < upper_run_len(s) ==> is_upper_char(#[trigger] s[i]),
        upper_run_len(s) < s.len() ==> !is_upper_char(s[upper_run_len(s) as int]),
        s.len() > 0 && is_upper_char(s[0]) ==> upper_run_len(s) >= 1,
    decreases s.len(),
{
    if s.len() > 0 && is_upper_char(s[0]) {
        let t = s.subrange(1, s.len() as int);
        lemma_upper_run_len(t);
        assert forall|i: int| 0 <= i < upper_run_len(s) implies is_upper_char(#[trigger] s[i]) by {
            if i >= 1 {
                assert(s[i] == t[i - 1]);
            }
        }
        if upper_run_len(s) < s.len() {
            assert(s[upper_run_len(s) as int] == t[upper_run_len(t) as int]);
        }
    }
}

/// A run of length `n` followed by a non-uppercase character (or the end) is
/// exactly what `upper_run_len` measures.
pub proof fn lemma_upper_run_len_eq(s: Seq<char>, n: int)
    requires
        0 <= n <= s.len(),
        forall|i: int| 0 <= i < n ==> is_upper_char(#[trigger] s[i]),
        n == s.len() || !is_upper_char(s[n]),
    ensures
        upper_run_len(s) == n,
    decreases s.len(),
{
    if n == 0 {
    } else {
        lemma_upper_run_len_eq(s.subrange(1, s.len() as int), n - 1);
    }
}

/// Index of the first `]`, or the length of the sequence when there is none.
pub open spec fn find_close(s: Seq<char>) -> nat
    decreases s.len(),
{
    if s.len() == 0 {
        0
    } else if s[0] == ']' {
        0
    } else {
        (1 + find_close(s.subrange(1, s.len() as int))) as nat
    }
}

pub proof fn lemma_find_close(s: Seq<char>)
    ensures
        find_close(s) <= s.len(),
        find_close(s) < s.len() ==> s[find_close(s) as int] == ']',
        forall|i: int| 0 <= i < find_close(s) ==> #[trigger] s[i] != ']',
    decreases s.len(),
{
    if s.len() > 0 && s[0] != ']' {
        let t = s.subrange(1, s.len() as int);
        lemma_find_close(t);
        assert forall|i: int| 0 <= i < find_close(s) implies #[trigger] s[i] != ']' by {
            if i >= 1 {
                assert(s[i] == t[i - 1]);
            }
        }
        if find_close(s) < s.len() {
            assert(s[find_close(s) as int] == t[find_close(t) as int]);
        }
    }
}

/// A prefix free of `]` followed by `]` (or by the end) pins `find_close`.
pub proof fn lemma_find_close_eq(s: Seq<char>, n: int)
    requires
        0 <= n <= s.len(),
        forall|i: int| 0 <= i < n ==> #[trigger] s[i] != ']',
        n == s.len() || s[n] == ']',
    ensures
        find_close(s) == n,
    decreases s.len(),
{
    if n == 0 {
    } else {
        lemma_find_close_eq(s.subrange(1, s.len() as int), n - 1);
    }
}

/// The run of bracketed values at the head of the input: the values
/// themselves and the number of characters they occupy.
pub open spec fn scan_values(s: Seq<char>) -> (Seq<Seq<char>>, nat)
    decreases s.len(),
{
    if s.len() == 0 || s[0] != '[' {
        (seq![], 0)
    } else {
        let j = find_close(s.subrange(1, s.len() as int)) as int;
        if j < s.len() - 1 {
            let v = s.subrange(1, 1 + j);
            let rest = scan_values(s.subrange(2 + j, s.len() as int));
            (seq![v] + rest.0, (2 + j + rest.1) as nat)
        } else {
            (seq![], 0)
        }
    }
}

pub proof fn lemma_scan_values_bounds(s: Seq<char>)
    ensures
        scan_values(s).1 <= s.len(),
        scan_values(s).0.len() > 0 ==> scan_values(s).1 >= 2,
        scan_values(s).0.len() == 0 ==> scan_values(s).1 == 0,
    decreases s.len(),
{
    if s.len() > 0 && s[0] == '[' {
        let j = find_close(s.subrange(1, s.len() as int)) as int;
        lemma_find_close(s.subrange(1, s.len() as int));
        if j < s.len() - 1 {
            lemma_scan_values_bounds(s.subrange(2 + j, s.len() as int));
        }
    }
}

/// Every scanned value is free of the terminator character.
pub proof fn lemma_scan_values_no_close(s: Seq<char>)
    ensures
        forall|i: int|
            0 <= i < scan_values(s).0.len() ==> !seq_has_char(#[trigger] scan_values(s).0[i], ']'),
    decreases s.len(),
{
    if s.len() > 0 && s[0] == '[' {
        let t = s.subrange(1, s.len() as int);
        let j = find_close(t) as int;
        lemma_find_close(t);
        if j < s.len() - 1 {
            let tail = s.subrange(2 + j, s.len() as int);
            lemma_scan_values_no_close(tail);
            let v = s.subrange(1, 1 + j);
            assert(!seq_has_char(v, ']')) by {
                assert(forall|i: int| 0 <= i < v.len() ==> v[i] == t[i] && #[trigger] t[i] != ']');
            }
            let vs = scan_values(s).0;
            assert forall|i: int| 0 <= i < vs.len() implies !seq_has_char(#[trigger] vs[i], ']') by {
                if i == 0 {
                    assert(vs[0] == v);
                } else {
                    assert(vs[i] == scan_values(tail).0[i - 1]);
                }
            }
        }
    }
}

/// The token stream of the input: each maximal uppercase run immediately
/// followed by at least one complete bracketed value yields one token.
pub open spec fn scan_props(s: Seq<char>) -> Seq<(Seq<char>, Seq<Seq<char>>)>
    decreases s.len(),
    via scan_props_dec
{
    if s.len() == 0 {
        seq![]
    } else if !is_upper_char(s[0]) {
        scan_props(s.subrange(1, s.len() as int))
    } else {
        let k = upper_run_len(s) as int;
        if k < s.len() && s[k] == '[' {
            let scanned = scan_values(s.subrange(k, s.len() as int));
            if scanned.0.len() > 0 {
                seq![(s.subrange(0, k), scanned.0)] + scan_props(
                    s.subrange(k + scanned.1, s.len() as int),
                )
            } else {
                scan_props(s.subrange(k, s.len() as int))
            }
        } else {
            scan_props(s.subrange(k, s.len() as int))
        }
    }
}

#[via_fn]
proof fn scan_props_dec(s: Seq<char>) {
    if s.len() > 0 && is_upper_char(s[0]) {
        lemma_upper_run_len(s);
        let k = upper_run_len(s) as int;
        if k < s.len() && s[k] == '[' {
            lemma_scan_values_bounds(s.subrange(k, s.len() as int));
        }
    }
}

/// What holds of every token the scanner yields: a legal key, at least one
/// value, and values free of the terminator.
pub open spec fn token_wf(t: (Seq<char>, Seq<Seq<char>>)) -> bool {
    &&& key_ok(t.0)
    &&& t.1.len() >= 1
    &&& forall|v: int| 0 <= v < t.1.len() ==> !seq_has_char(#[trigger] t.1[v], ']')
}

pub proof fn lemma_scan_props_tokens(s: Seq<char>)
    ensures
        forall|t: int| 0 <= t < scan_props(s).len() ==> token_wf(#[trigger] scan_props(s)[t]),
    decreases s.len(),
{
    if s.len() == 0 {
        assert(scan_props(s) =~= seq![]);
    } else if !is_upper_char(s[0]) {
        lemma_scan_props_tokens(s.subrange(1, s.len() as int));
        assert(scan_props(s) == scan_props(s.subrange(1, s.len() as int)));
    } else {
        lemma_upper_run_len(s);
        let k = upper_run_len(s) as int;
        if k < s.len() && s[k] == '[' {
            let scanned = scan_values(s.subrange(k, s.len() as int));
            lemma_scan_values_bounds(s.subrange(k, s.len() as int));
            if scanned.0.len() > 0 {
                let tail = s.subrange(k + scanned.1, s.len() as int);
                lemma_scan_props_tokens(tail);
                lemma_scan_values_no_close(s.subrange(k, s.len() as int));
                assert(key_ok(s.subrange(0, k)));
                assert(token_wf((s.subrange(0, k), scanned.0)));
                let toks = scan_props(s);
                assert forall|t: int| 0 <= t < toks.len() implies token_wf(#[trigger] toks[t]) by {
                    if t == 0 {
                        assert(toks[0] == (s.subrange(0, k), scanned.0));
                    } else {
                        assert(toks[t] == scan_props(tail)[t - 1]);
                    }
                }
            } else {
                lemma_scan_props_tokens(s.subrange(k, s.len() as int));
                assert(scan_props(s) == scan_props(s.subrange(k, s.len() as int)));
            }
        } else {
            lemma_scan_props_tokens(s.subrange(k, s.len() as int));
            assert(scan_props(s) == scan_props(s.subrange(k, s.len() as int)));
        }
    }
}

// ---------------------------------------------------------------------------
// Executable tokenizer
// ---------------------------------------------------------------------------

pub open spec fn values_view(vs: Seq<Vec<char>>) -> Seq<Seq<char>> {
    Seq::new(vs.len(), |i: int| vs[i]@)
}

pub open spec fn props_view(r: Seq<(Vec<char>, Vec<Vec<char>>)>) -> Seq<(Seq<char>, Seq<Seq<char>>)> {
    Seq::new(r.len(), |i: int| (r[i].0@, values_view(r[i].1@)))
}

/// Copies the characters of `v` between two positions into a fresh vector.
fn copy_range(v: &Vec<char>, a: usize, b: usize) -> (r: Vec<char>)
    requires
        a <= b <= v@.len(),
    ensures
        r@ == v@.subrange(a as int, b as int),
{
    let mut r: Vec<char> = Vec::new();
    let mut i: usize = a;
    while i < b
        invariant
            a <= i <= b <= v@.len(),
            r@ == v@.subrange(a as int, i as int),
        decreases b - i,
    {
        r.push(v[i]);
        assert(v@.subrange(a as int, i + 1) =~= v@.subrange(a as int, i as int).push(v@[i as int]));
        i = i + 1;
    }
    r
}

/// Scans the input for properties: each maximal uppercase run immediately
/// followed by one or more complete bracketed values becomes one token; all
/// other characters are skipped.
pub fn scan_props_exec(v: &Vec<char>) -> (r: Vec<(Vec<char>, Vec<Vec<char>>)>)
    ensures
        props_view(r@) == scan_props(v@),
{
    let n: usize = v.len();
    let mut out: Vec<(Vec<char>, Vec<Vec<char>>)> = Vec::new();
    let mut i: usize = 0;
    proof {
        assert(v@.subrange(0, n as int) =~= v@);
        assert(props_view(out@) + scan_props(v@) =~= scan_props(v@));
    }
    while i < n
        invariant
            i <= n,
            n == v@.len(),
            scan_props(v@) == props_view(out@) + scan_props(v@.subrange(i as int, n as int)),
        decreases n - i,
    {
        let ghost sub_i = v@.subrange(i as int, n as int);
        let c = v[i];
        if !('A' <= c && c <= 'Z') {
            proof {
                assert(sub_i[0] == c);
                assert(sub_i.subrange(1, sub_i.len() as int) =~= v@.subrange(i + 1, n as int));
            }
            i = i + 1;
        } else {
            // Measure the uppercase run.
            let mut k: usize = i;
            while k < n && 'A' <= v[k] && v[k] <= 'Z'
                invariant
                    i <= k <= n,
                    n == v@.len(),
                    forall|j: int| i <= j < k ==> is_upper_char(#[trigger] v@[j]),
                decreases n - k,
            {
                k = k + 1;
            }
            proof {
                assert forall|j: int| 0 <= j < k - i implies is_upper_char(#[trigger] sub_i[j]) by {
                    assert(sub_i[j] == v@[i + j]);
                }
                if k < n {
                    assert(sub_i[k - i] == v@[k as int]);
                }
                lemma_upper_run_len_eq(sub_i, k - i);
            }
            if k < n && v[k] == '[' {
                let ghost sub_k = v@.subrange(k as int, n as int);
                // Collect the run of bracketed values.
                let mut vals: Vec<Vec<char>> = Vec::new();
                let mut p: usize = k;
                let mut open_unclosed = false;
                while !open_unclosed && p < n && v[p] == '['
                    invariant
                        k <= p <= n,
                        n == v@.len(),
                        sub_k == v@.subrange(k as int, n as int),
                        scan_values(sub_k).0 == values_view(vals@) + scan_values(
                            v@.subrange(p as int, n as int),
                        ).0,
                        scan_values(sub_k).1 as int == (p - k) + scan_values(
                            v@.subrange(p as int, n as int),
                        ).1 as int,
                        open_unclosed ==> scan_values(v@.subrange(p as int, n as int)).0.len() == 0
                            && scan_values(v@.subrange(p as int, n as int)).1 == 0,
                    decreases n - p, (if open_unclosed { 0int } else { 1int }),
                {
                    let ghost sub_p = v@.subrange(p as int, n as int);
                    let mut q: usize = p + 1;
                    while q < n && v[q] != ']'
                        invariant
                            p + 1 <= q <= n,
                            n == v@.len(),
                            forall|j: int| p + 1 <= j < q ==> #[trigger] v@[j] != ']',
                        decreases n - q,
                    {
                        q = q + 1;
                    }
                    proof {
                        let t = v@.subrange(p + 1, n as int);
                        assert forall|j: int| 0 <= j < q - p - 1 implies #[trigger] t[j] != ']' by {
                            assert(t[j] == v@[p + 1 + j]);
                        }
                        if q < n {
                            assert(t[q - p - 1] == v@[q as int]);
                        }
                        lemma_find_close_eq(t, q - (p + 1));
                        assert(sub_p.subrange(1, sub_p.len() as int) =~= t);
                    }
                    if q < n {
                        let value = copy_range(v, p + 1, q);
                        proof {
                            let j: int = q - p - 1;
                            assert(sub_p.subrange(1, 1 + j) =~= v@.subrange(p + 1, q as int));
                            assert(sub_p.subrange(2 + j, sub_p.len() as int) =~= v@.subrange(
                                q + 1,
                                n as int,
                            ));
                            assert(scan_values(sub_p).0 == seq![value@] + scan_values(
                                v@.subrange(q + 1, n as int),
                            ).0);
                            assert(values_view(vals@.push(value)) =~= values_view(vals@) + seq![
                                value@,
                            ]);
                            assert(values_view(vals@) + (seq![value@] + scan_values(
                                v@.subrange(q + 1, n as int),
                            ).0) =~= values_view(vals@.push(value)) + scan_values(
                                v@.subrange(q + 1, n as int),
                            ).0);
                        }
                        vals.push(value);
                        p = q + 1;
                    } else {
                        proof {
                            assert(scan_values(sub_p).0.len() == 0);
                        }
                        open_unclosed = true;
                    }
                }
                let ghost sub_p_end = v@.subrange(p as int, n as int);
                proof {
                    assert(scan_values(sub_p_end).0.len() == 0 && scan_values(sub_p_end).1 == 0);
                    assert(scan_values(sub_k).0 =~= values_view(vals@));
                    assert(scan_values(sub_k).1 as int == p - k);
                }
                if vals.len() > 0 {
                    let key = copy_range(v, i, k);
                    proof {
                        assert(sub_i.subrange((k - i) as int, sub_i.len() as int) =~= sub_k);
                        assert(sub_i.subrange(0, (k - i) as int) =~= key@);
                        assert(sub_i.subrange(
                            (k - i) + scan_values(sub_k).1,
                            sub_i.len() as int,
                        ) =~= sub_p_end);
                        assert(scan_props(sub_i) == seq![(key@, values_view(vals@))] + scan_props(
                            sub_p_end,
                        ));
                    }
                    let ghost old_out = out@;
                    out.push((key, vals));
                    proof {
                        assert(props_view(out@) =~= props_view(old_out) + seq![
                            (key@, values_view(vals@)),
                        ]);
                        assert(props_view(old_out) + (seq![(key@, values_view(vals@))] + scan_props(
                            sub_p_end,
                        )) =~= props_view(out@) + scan_props(sub_p_end));
                    }
                    i = p;
                } else {
                    proof {
                        assert(sub_i.subrange((k - i) as int, sub_i.len() as int) =~= sub_k);
                        assert(scan_props(sub_i) == scan_props(sub_k));
                    }
                    i = k;
                }
            } else {
                proof {
                    let run: int = upper_run_len(sub_i) as int;
                    assert(sub_i.subrange(run, sub_i.len() as int) =~= v@.subrange(
                        k as int,
                        n as int,
                    ));
                    assert(scan_props(sub_i) == scan_props(v@.subrange(k as int, n as int)));
                }
                i = k;
            }
        }
    }
    proof {
        assert(v@.subrange(n as int, n as int) =~= Seq::<char>::empty());
        assert(scan_props(Seq::<char>::empty()) =~= Seq::<(Seq<char>, Seq<Seq<char>>)>::empty());
        assert(props_view(out@) + scan_props(v@.subrange(i as int, n as int)) =~= props_view(out@));
    }
    out
}

// ---------------------------------------------------------------------------
// Property dispatch specification
// ---------------------------------------------------------------------------

/// Parser state before the board dimension is attached.
#[verifier::ext_equal]
pub ghost struct PDoc {
    pub moves: Seq<MoveView>,
    pub ab: Seq<(int, int)>,
    pub aw: Seq<(int, int)>,
    pub metadata: Seq<(Seq<char>, Seq<char>)>,
}

pub open spec fn empty_pdoc() -> PDoc {
    PDoc { moves: seq![], ab: seq![], aw: seq![], metadata: seq![] }
}

/// Coordinate decoding with the board bound enforced.
pub open spec fn dec_bounded(v: Seq<char>, sz: int) -> Option<(int, int)> {
    match dec26(v) {
        Option::Some(c) => if coord_in_bounds(sz, c) {
            Option::Some(c)
        } else {
            Option::None
        },
        Option::None => Option::None,
    }
}

/// The in-bounds coordinates among a property's values, in order; malformed
/// and out-of-bounds values are skipped.
pub open spec fn coords_of_values(values: Seq<Seq<char>>, sz: int) -> Seq<(int, int)>
    decreases values.len(),
{
    if values.len() == 0 {
        seq![]
    } else {
        let rest = coords_of_values(values.subrange(1, values.len() as int), sz);
        match dec_bounded(values[0], sz) {
            Option::Some(c) => seq![c] + rest,
            Option::None => rest,
        }
    }
}

pub proof fn lemma_coords_of_values_push(values: Seq<Seq<char>>, v: Seq<char>, sz: int)
    ensures
        coords_of_values(values.push(v), sz) == coords_of_values(values, sz) + (
        match dec_bounded(v, sz) {
            Option::Some(c) => seq![c],
            Option::None => seq![],
        }),
    decreases values.len(),
{
    let w = values.push(v);
    if values.len() == 0 {
        let e = Seq::<Seq<char>>::empty();
        assert(coords_of_values(e, sz) == Seq::<(int, int)>::empty());
        assert(w.subrange(1, w.len() as int) =~= e);
        assert(w[0] == v);
        match dec_bounded(v, sz) {
            Option::Some(c) => {
                assert(coords_of_values(w, sz) =~= coords_of_values(values, sz) + seq![c]);
            },
            Option::None => {
                assert(coords_of_values(w, sz) =~= coords_of_values(values, sz));
            },
        }
    } else {
        assert(w.subrange(1, w.len() as int) =~= values.subrange(1, values.len() as int).push(v));
        lemma_coords_of_values_push(values.subrange(1, values.len() as int), v, sz);
        assert(w[0] == values[0]);
        match dec_bounded(values[0], sz) {
            Option::Some(c) => {
                assert(coords_of_values(w, sz) =~= coords_of_values(values, sz) + (
                match dec_bounded(v, sz) {
                    Option::Some(d) => seq![d],
                    Option::None => seq![],
                }));
            },
            Option::None => {},
        }
    }
}

pub proof fn lemma_coords_of_values_bounds(values: Seq<Seq<char>>, sz: int)
    ensures
        forall|i: int|
            0 <= i < coords_of_values(values, sz).len() ==> coord_in_bounds(
                sz,
                #[trigger] coords_of_values(values, sz)[i],
            ),
    decreases values.len(),
{
    if values.len() > 0 {
        let rest = values.subrange(1, values.len() as int);
        lemma_coords_of_values_bounds(rest, sz);
        let out = coords_of_values(values, sz);
        match dec_bounded(values[0], sz) {
            Option::Some(c) => {
                assert forall|i: int| 0 <= i < out.len() implies coord_in_bounds(
                    sz,
                    #[trigger] out[i],
                ) by {
                    if i == 0 {
                        assert(out[0] == c);
                    } else {
                        assert(out[i] == coords_of_values(rest, sz)[i - 1]);
                    }
                }
            },
            Option::None => {
                assert forall|i: int| 0 <= i < out.len() implies coord_in_bounds(
                    sz,
                    #[trigger] out[i],
                ) by {
                    assert(out[i] == coords_of_values(rest, sz)[i]);
                }
            },
        }
    }
}

/// What a board-size property sets the dimension to: its first value read as
/// a decimal number, rejected unless it names a supported board.
pub open spec fn sz_of_values(values: Seq<Seq<char>>) -> Option<int> {
    match spec_parse_usize(values[0]) {
        Option::Some(n) => if 1 <= n <= 26 {
            Option::Some(n as int)
        } else {
            Option::None
        },
        Option::None => Option::None,
    }
}

/// The dimension after all properties are read: the last size property wins.
pub open spec fn size_after(props: Seq<(Seq<char>, Seq<Seq<char>>)>) -> Option<int>
    decreases props.len(),
{
    if props.len() == 0 {
        Option::None
    } else if props.last().0 == sz_key() {
        sz_of_values(props.last().1)
    } else {
        size_after(props.drop_last())
    }
}

pub proof fn lemma_size_after_push(props: Seq<(Seq<char>, Seq<Seq<char>>)>, p: (Seq<char>, Seq<Seq<char>>))
    ensures
        size_after(props.push(p)) == if p.0 == sz_key() {
            sz_of_values(p.1)
        } else {
            size_after(props)
        },
{
    assert(props.push(p).drop_last() =~= props);
    assert(props.push(p).last() == p);
}

/// One property folded into the parser state.
pub open spec fn apply_prop(st: PDoc, key: Seq<char>, values: Seq<Seq<char>>, sz: int) -> PDoc {
    if key == sz_key() {
        st
    } else if key == ab_key() {
        PDoc { ab: st.ab + coords_of_values(values, sz), ..st }
    } else if key == aw_key() {
        PDoc { aw: st.aw + coords_of_values(values, sz), ..st }
    } else if key == b_key() || key == w_key() {
        let player = if key == b_key() {
            Player::Black
        } else {
            Player::White
        };
        match dec_bounded(values[0], sz) {
            Option::Some(c) => PDoc {
                moves: st.moves.push(
                    MoveView {
                        player,
                        x: c.0,
                        y: c.1,
                        comment: Option::None,
                        triangles: seq![],
                    },
                ),
                ..st
            },
            Option::None => st,
        }
    } else if key == c_key() {
        if st.moves.len() > 0 {
            let last = st.moves.len() - 1;
            PDoc {
                moves: st.moves.update(
                    last,
                    MoveView { comment: Option::Some(values[0]), ..st.moves[last] },
                ),
                ..st
            }
        } else {
            st
        }
    } else if key == tr_key() {
        if st.moves.len() > 0 {
            let last = st.moves.len() - 1;
            PDoc {
                moves: st.moves.update(
                    last,
                    MoveView {
                        triangles: st.moves[last].triangles + coords_of_values(values, sz),
                        ..st.moves[last]
                    },
                ),
                ..st
            }
        } else {
            st
        }
    } else {
        if values[0].len() > 0 {
            PDoc { metadata: st.metadata.push((key, values[0])), ..st }
        } else {
            st
        }
    }
}

/// All properties folded in order into the parser state.
pub open spec fn fold_props(st: PDoc, props: Seq<(Seq<char>, Seq<Seq<char>>)>, sz: int) -> PDoc
    decreases props.len(),
{
    if props.len() == 0 {
        st
    } else {
        fold_props(
            apply_prop(st, props[0].0, props[0].1, sz),
            props.subrange(1, props.len() as int),
            sz,
        )
    }
}

pub proof fn lemma_fold_props_push(
    st: PDoc,
    props: Seq<(Seq<char>, Seq<Seq<char>>)>,
    p: (Seq<char>, Seq<Seq<char>>),
    sz: int,
)
    ensures
        fold_props(st, props.push(p), sz) == apply_prop(
            fold_props(st, props, sz),
            p.0,
            p.1,
            sz,
        ),
    decreases props.len(),
{
    let w = props.push(p);
    if props.len() == 0 {
        assert(w[0] == p);
        let e = Seq::<(Seq<char>, Seq<Seq<char>>)>::empty();
        assert(fold_props(apply_prop(st, p.0, p.1, sz), e, sz) == apply_prop(st, p.0, p.1, sz));
        assert(w.subrange(1, w.len() as int) =~= e);
    } else {
        assert(w[0] == props[0]);
        assert(w.subrange(1, w.len() as int) =~= props.subrange(1, props.len() as int).push(p));
        lemma_fold_props_push(
            apply_prop(st, props[0].0, props[0].1, sz),
            props.subrange(1, props.len() as int),
            p,
            sz,
        );
    }
}

/// What parsing means: scan the input into tokens, take the last board-size
/// property as the dimension, and fold every property into the document.
/// Inputs without a usable board size yield no document.
pub open spec fn parse_spec(s: Seq<char>) -> Option<SgfView> {
    let props = scan_props(s);
    match size_after(props) {
        Option::Some(sz) => {
            let pd = fold_props(empty_pdoc(), props, sz);
            Option::Some(
                SgfView {
                    board_size: sz,
                    moves: pd.moves,
                    ab: pd.ab,
                    aw: pd.aw,
                    metadata: pd.metadata,
                },
            )
        },
        Option::None => Option::None,
    }
}

// ---------------------------------------------------------------------------
// Parser state well-formedness
// ---------------------------------------------------------------------------

pub open spec fn md_entry_ok(e: (Seq<char>, Seq<char>)) -> bool {
    &&& key_ok(e.0)
    &&& !structural_key(e.0)
    &&& e.1.len() >= 1
    &&& !seq_has_char(e.1, ']')
}

pub open spec fn pdoc_rt_wf(st: PDoc, sz: int) -> bool {
    &&& forall|i: int| 0 <= i < st.moves.len() ==> move_wf(sz, #[trigger] st.moves[i])
    &&& forall|i: int|
        0 <= i < st.moves.len() ==> (#[trigger] st.moves[i].comment matches Option::Some(c)
            ==> !seq_has_char(c, ']'))
    &&& forall|i: int| 0 <= i < st.ab.len() ==> coord_in_bounds(sz, #[trigger] st.ab[i])
    &&& forall|i: int| 0 <= i < st.aw.len() ==> coord_in_bounds(sz, #[trigger] st.aw[i])
    &&& forall|i: int| 0 <= i < st.metadata.len() ==> md_entry_ok(#[trigger] st.metadata[i])
}

pub proof fn lemma_apply_prop_wf(st: PDoc, key: Seq<char>, values: Seq<Seq<char>>, sz: int)
    requires
        pdoc_rt_wf(st, sz),
        token_wf((key, values)),
    ensures
        pdoc_rt_wf(apply_prop(st, key, values, sz), sz),
{
    lemma_coords_of_values_bounds(values, sz);
    let st2 = apply_prop(st, key, values, sz);
    if key == sz_key() {
    } else if key == ab_key() || key == aw_key() {
    } else if key == b_key() || key == w_key() {
        match dec_bounded(values[0], sz) {
            Option::Some(c) => {
                assert(move_wf(sz, st2.moves.last()));
            },
            Option::None => {},
        }
    } else if key == c_key() {
        if st.moves.len() > 0 {
            let last = st.moves.len() - 1;
            assert(values[0] == (key, values).1[0]);
            assert(!seq_has_char(values[0], ']'));
            assert(move_wf(sz, st2.moves[last as int]));
        }
    } else if key == tr_key() {
        if st.moves.len() > 0 {
            let last = st.moves.len() - 1;
            let m2 = st2.moves[last as int];
            assert(move_wf(sz, m2)) by {
                let m1 = st.moves[last as int];
                assert(move_wf(sz, m1));
                assert forall|i: int| 0 <= i < m2.triangles.len() implies coord_in_bounds(
                    sz,
                    #[trigger] m2.triangles[i],
                ) by {
                    if i < m1.triangles.len() {
                        assert(m2.triangles[i] == m1.triangles[i]);
                    } else {
                        assert(m2.triangles[i] == coords_of_values(values, sz)[i
                            - m1.triangles.len()]);
                    }
                }
            }
        }
    } else {
        if values[0].len() > 0 {
            assert(values[0] == (key, values).1[0]);
            assert(md_entry_ok((key, values[0])));
        }
    }
}

pub proof fn lemma_fold_props_wf(st: PDoc, props: Seq<(Seq<char>, Seq<Seq<char>>)>, sz: int)
    requires
        pdoc_rt_wf(st, sz),
        forall|t: int| 0 <= t < props.len() ==> token_wf(#[trigger] props[t]),
    ensures
        pdoc_rt_wf(fold_props(st, props, sz), sz),
    decreases props.len(),
{
    if props.len() > 0 {
        assert(token_wf(props[0]));
        assert((props[0].0, props[0].1) == props[0]);
        lemma_apply_prop_wf(st, props[0].0, props[0].1, sz);
        let rest = props.subrange(1, props.len() as int);
        assert forall|t: int| 0 <= t < rest.len() implies token_wf(#[trigger] rest[t]) by {
            assert(rest[t] == props[t + 1]);
        }
        lemma_fold_props_wf(apply_prop(st, props[0].0, props[0].1, sz), rest, sz);
    }
}


// ---------------------------------------------------------------------------
// Executable parser
// ---------------------------------------------------------------------------

/// Whether a key is the given single letter.
fn key_is1(k: &Vec<char>, a: char) -> (r: bool)
    ensures
        r == (k@ == seq![a]),
{
    let r = k.len() == 1 && k[0] == a;
    proof {
        if r {
            assert(k@ =~= seq![a]);
        } else {
            if k@.len() == 1 {
                assert(k@[0] == seq![a][0] ==> k@ =~= seq![a]);
            }
        }
    }
    r
}

/// Whether a key is the given two letters.
fn key_is2(k: &Vec<char>, a: char, b: char) -> (r: bool)
    ensures
        r == (k@ == seq![a, b]),
{
    let r = k.len() == 2 && k[0] == a && k[1] == b;
    proof {
        if r {
            assert(k@ =~= seq![a, b]);
        } else {
            if k@.len() == 2 {
                assert(k@[0] == seq![a, b][0] && k@[1] == seq![a, b][1] ==> k@ =~= seq![a, b]);
            }
        }
    }
    r
}

/// The parser state as the executable loop carries it.
pub open spec fn pd_view(
    ms: Seq<Move>,
    ab: Seq<(usize, usize)>,
    aw: Seq<(usize, usize)>,
    md: Seq<(String, String)>,
) -> PDoc {
    PDoc {
        moves: moves_view(ms),
        ab: upairs_view(ab),
        aw: upairs_view(aw),
        metadata: md_view(md),
    }
}

/// The in-bounds coordinates among a property's values, in order.
fn collect_coords(values: &Vec<Vec<char>>, board_size: usize) -> (r: Vec<(usize, usize)>)
    ensures
        upairs_view(r@) == coords_of_values(values_view(values@), board_size as int),
        forall|i: int|
            0 <= i < r@.len() ==> (#[trigger] r@[i]).0 < board_size && r@[i].1 < board_size,
{
    let ghost vals = values_view(values@);
    let ghost sz = board_size as int;
    let mut r: Vec<(usize, usize)> = Vec::new();
    let mut u: usize = 0;
    proof {
        assert(vals.take(0) =~= Seq::<Seq<char>>::empty());
        assert(upairs_view(r@) =~= coords_of_values(vals.take(0), sz));
    }
    while u < values.len()
        invariant
            u <= values@.len(),
            vals == values_view(values@),
            sz == board_size as int,
            upairs_view(r@) == coords_of_values(vals.take(u as int), sz),
            forall|i: int|
                0 <= i < r@.len() ==> (#[trigger] r@[i]).0 < board_size && r@[i].1 < board_size,
        decreases values@.len() - u,
    {
        let dec = decode_coord_chars(&values[u]);
        proof {
            assert(vals[u as int] == values@[u as int]@);
            assert(vals.take(u + 1) =~= vals.take(u as int).push(vals[u as int]));
            lemma_coords_of_values_push(vals.take(u as int), vals[u as int], sz);
        }
        if let Some((x, y)) = dec {
            if x < board_size && y < board_size {
                proof {
                    assert(dec_bounded(vals[u as int], sz) == Option::Some((x as int, y as int)));
                }
                let ghost r0 = r@;
                r.push((x, y));
                proof {
                    assert(r@.drop_last() =~= r0);
                    assert(upairs_view(r@) =~= upairs_view(r0).push((x as int, y as int)));
                }
            } else {
                proof {
                    assert(dec_bounded(vals[u as int], sz) is None);
                    assert(coords_of_values(vals.take(u + 1), sz) =~= coords_of_values(
                        vals.take(u as int),
                        sz,
                    ));
                }
            }
        } else {
            proof {
                assert(dec_bounded(vals[u as int], sz) is None);
                assert(coords_of_values(vals.take(u + 1), sz) =~= coords_of_values(
                    vals.take(u as int),
                    sz,
                ));
            }
        }
        u = u + 1;
    }
    proof {
        assert(vals.take(values@.len() as int) =~= vals);
    }
    r
}

/// Appends one coordinate list to another.
fn append_coords(dst: &mut Vec<(usize, usize)>, src: &Vec<(usize, usize)>)
    ensures
        upairs_view(final(dst)@) == upairs_view(old(dst)@) + upairs_view(src@),
        final(dst)@ == old(dst)@ + src@,
{
    let mut i: usize = 0;
    while i < src.len()
        invariant
            i <= src@.len(),
            dst@ == old(dst)@ + src@.take(i as int),
        decreases src@.len() - i,
    {
        dst.push(src[i]);
        proof {
            assert(old(dst)@ + src@.take(i + 1) =~= (old(dst)@ + src@.take(i as int)).push(
                src@[i as int],
            ));
        }
        i = i + 1;
    }
    proof {
        assert(src@.take(src@.len() as int) =~= src@);
        assert(upairs_view(final(dst)@) =~= upairs_view(old(dst)@) + upairs_view(src@));
    }
}

/// Replaces the comment of the last move.
fn set_last_comment(ms: &mut Vec<Move>, text: String)
    requires
        old(ms)@.len() > 0,
    ensures
        moves_view(final(ms)@) == moves_view(old(ms)@).update(
            old(ms)@.len() - 1,
            MoveView { comment: Option::Some(text@), ..moves_view(old(ms)@).last() },
        ),
{
    let idx = ms.len() - 1;
    let m = &mut ms[idx];
    m.comment = Some(text);
    proof {
        assert(moves_view(final(ms)@) =~~= moves_view(old(ms)@).update(
            old(ms)@.len() - 1,
            MoveView { comment: Option::Some(text@), ..moves_view(old(ms)@).last() },
        ));
    }
}

/// Adds the given triangle annotations to the last move.
fn extend_last_triangles(ms: &mut Vec<Move>, coords: &Vec<(usize, usize)>)
    requires
        old(ms)@.len() > 0,
    ensures
        moves_view(final(ms)@) == moves_view(old(ms)@).update(
            old(ms)@.len() - 1,
            MoveView {
                triangles: moves_view(old(ms)@).last().triangles + upairs_view(coords@),
                ..moves_view(old(ms)@).last()
            },
        ),
{
    let idx = ms.len() - 1;
    let m = &mut ms[idx];
    let ghost m0 = *m;
    let mut j: usize = 0;
    proof {
        assert(m.triangles@ =~= m0.triangles@ + coords@.take(0));
    }
    while j < coords.len()
        invariant
            j <= coords@.len(),
            m.triangles@ == m0.triangles@ + coords@.take(j as int),
            m.player == m0.player,
            m.x == m0.x,
            m.y == m0.y,
            m.comment == m0.comment,
        decreases coords@.len() - j,
    {
        let c = coords[j];
        m.triangles.push(c);
        proof {
            assert(m0.triangles@ + coords@.take(j + 1) =~= (m0.triangles@ + coords@.take(
                j as int,
            )).push(coords@[j as int]));
        }
        j = j + 1;
    }
    proof {
        assert(coords@.take(coords@.len() as int) =~= coords@);
        assert(upairs_view(old(ms)@[idx as int].triangles@ + coords@) =~= upairs_view(
            old(ms)@[idx as int].triangles@,
        ) + upairs_view(coords@));
        assert(moves_view(final(ms)@) =~~= moves_view(old(ms)@).update(
            old(ms)@.len() - 1,
            MoveView {
                triangles: moves_view(old(ms)@).last().triangles + upairs_view(coords@),
                ..moves_view(old(ms)@).last()
            },
        ));
    }
}

/// Parses record text into a document.
///
/// The input is scanned for properties anywhere in the text.  The last `SZ`
/// property fixes the board dimension; without a usable one no document can
/// be built and `MissingBoardSize` is returned.  Coordinate values that are
/// not two letters naming an in-bounds point are skipped, a comment or
/// triangle annotation with no preceding move is dropped, and every other
/// property is kept as an opaque metadata entry when its first value is
/// nonempty.
pub fn parse_sgf(sgf: &str) -> (r: Result<SgfData, SgfParseError>)
    ensures
        r matches Result::Ok(d) ==> parse_spec(sgf@) == Option::Some(d@) && doc_rt_wf(d@),
        r matches Result::Err(e) ==> parse_spec(sgf@) is None && e
            == SgfParseError::MissingBoardSize,
        (r is Ok) == (parse_spec(sgf@) is Some),
{
    let cs = str_to_chars(sgf);
    let props = scan_props_exec(&cs);
    let ghost pview = props_view(props@);
    proof {
        lemma_scan_props_tokens(cs@);
    }
    let n = props.len();

    // First pass: the board dimension is whatever the last SZ property says.
    let mut size_opt: Option<usize> = None;
    let mut t: usize = 0;
    proof {
        assert(pview.take(0) =~= Seq::<(Seq<char>, Seq<Seq<char>>)>::empty());
    }
    while t < n
        invariant
            t <= n,
            n == props@.len(),
            pview == props_view(props@),
            pview == scan_props(cs@),
            forall|j: int| 0 <= j < pview.len() ==> token_wf(#[trigger] pview[j]),
            match size_opt {
                Option::Some(x) => size_after(pview.take(t as int)) == Option::Some(x as int) && 1
                    <= x <= 26,
                Option::None => size_after(pview.take(t as int)) is None,
            },
        decreases n - t,
    {
        proof {
            assert(token_wf(pview[t as int]));
            assert(pview[t as int] == (props@[t as int].0@, values_view(props@[t as int].1@)));
        }
        if key_is2(&props[t].0, 'S', 'Z') {
            assert(props@[t as int].1@.len() >= 1);
            let pu = parse_usize_chars(&props[t].1[0]);
            let mut new_size: Option<usize> = None;
            if let Some(x) = pu {
                if 1 <= x && x <= 26 {
                    new_size = Some(x);
                }
            }
            proof {
                assert(values_view(props@[t as int].1@)[0] == props@[t as int].1@[0]@);
            }
            size_opt = new_size;
        }
        proof {
            assert(pview.take(t + 1) =~= pview.take(t as int).push(pview[t as int]));
            lemma_size_after_push(pview.take(t as int), pview[t as int]);
        }
        t = t + 1;
    }
    proof {
        assert(pview.take(n as int) =~= pview);
    }
    let board_size = match size_opt {
        Some(x) => x,
        None => {
            return Err(SgfParseError::MissingBoardSize);
        },
    };
    let ghost sz = board_size as int;

    // Second pass: fold every property into the document.
    let mut out_moves: Vec<Move> = Vec::new();
    let mut out_ab: Vec<(usize, usize)> = Vec::new();
    let mut out_aw: Vec<(usize, usize)> = Vec::new();
    let mut out_md: Vec<(String, String)> = Vec::new();
    let mut t2: usize = 0;
    proof {
        assert(pview.take(0) =~= Seq::<(Seq<char>, Seq<Seq<char>>)>::empty());
        assert(pd_view(out_moves@, out_ab@, out_aw@, out_md@) =~= empty_pdoc());
    }
    while t2 < n
        invariant
            t2 <= n,
            n == props@.len(),
            pview == props_view(props@),
            pview == scan_props(cs@),
            forall|j: int| 0 <= j < pview.len() ==> token_wf(#[trigger] pview[j]),
            1 <= board_size <= 26,
            sz == board_size as int,
            pd_view(out_moves@, out_ab@, out_aw@, out_md@) == fold_props(
                empty_pdoc(),
                pview.take(t2 as int),
                sz,
            ),
        decreases n - t2,
    {
        let ghost st = pd_view(out_moves@, out_ab@, out_aw@, out_md@);
        let ghost key = pview[t2 as int].0;
        let ghost values = pview[t2 as int].1;
        proof {
            assert(token_wf(pview[t2 as int]));
            assert(pview[t2 as int] == (props@[t2 as int].0@, values_view(props@[t2 as int].1@)));
            assert(values.len() >= 1);
            assert(values[0] == props@[t2 as int].1@[0]@);
        }
        if key_is2(&props[t2].0, 'S', 'Z') {
            proof {
                assert(apply_prop(st, key, values, sz) =~= st);
            }
        } else if key_is2(&props[t2].0, 'A', 'B') {
            let coords = collect_coords(&props[t2].1, board_size);
            append_coords(&mut out_ab, &coords);
            proof {
                assert(pd_view(out_moves@, out_ab@, out_aw@, out_md@) =~= apply_prop(
                    st,
                    key,
                    values,
                    sz,
                ));
            }
        } else if key_is2(&props[t2].0, 'A', 'W') {
            let coords = collect_coords(&props[t2].1, board_size);
            append_coords(&mut out_aw, &coords);
            proof {
                assert(pd_view(out_moves@, out_ab@, out_aw@, out_md@) =~= apply_prop(
                    st,
                    key,
                    values,
                    sz,
                ));
            }
        } else if key_is1(&props[t2].0, 'B') || key_is1(&props[t2].0, 'W') {
            let black = key_is1(&props[t2].0, 'B');
            let player = if black {
                Player::Black
            } else {
                Player::White
            };
            let dec = decode_coord_chars(&props[t2].1[0]);
            if let Some((x, y)) = dec {
                if x < board_size && y < board_size {
                    proof {
                        assert(dec_bounded(values[0], sz) == Option::Some((x as int, y as int)));
                    }
                    let mv = Move { player, x, y, comment: None, triangles: Vec::new() };
                    proof {
                        assert(mv@ =~~= MoveView {
                            player,
                            x: x as int,
                            y: y as int,
                            comment: Option::None,
                            triangles: seq![],
                        });
                    }
                    let ghost ms0 = out_moves@;
                    out_moves.push(mv);
                    proof {
                        assert(out_moves@.drop_last() =~= ms0);
                        assert(moves_view(out_moves@) =~= moves_view(ms0).push(
                            out_moves@.last()@,
                        ));
                        assert(pd_view(out_moves@, out_ab@, out_aw@, out_md@) =~= apply_prop(
                            st,
                            key,
                            values,
                            sz,
                        ));
                    }
                } else {
                    proof {
                        assert(dec_bounded(values[0], sz) is None);
                        assert(pd_view(out_moves@, out_ab@, out_aw@, out_md@) =~= apply_prop(
                            st,
                            key,
                            values,
                            sz,
                        ));
                    }
                }
            } else {
                proof {
                    assert(dec_bounded(values[0], sz) is None);
                    assert(pd_view(out_moves@, out_ab@, out_aw@, out_md@) =~= apply_prop(
                        st,
                        key,
                        values,
                        sz,
                    ));
                }
            }
        } else if key_is1(&props[t2].0, 'C') {
            if out_moves.len() > 0 {
                let text = chars_to_string(&props[t2].1[0]);
                set_last_comment(&mut out_moves, text);
                proof {
                    assert(pd_view(out_moves@, out_ab@, out_aw@, out_md@) =~~= apply_prop(
                        st,
                        key,
                        values,
                        sz,
                    ));
                }
            } else {
                proof {
                    assert(pd_view(out_moves@, out_ab@, out_aw@, out_md@) =~= apply_prop(
                        st,
                        key,
                        values,
                        sz,
                    ));
                }
            }
        } else if key_is2(&props[t2].0, 'T', 'R') {
            if out_moves.len() > 0 {
                let coords = collect_coords(&props[t2].1, board_size);
                extend_last_triangles(&mut out_moves, &coords);
                proof {
                    assert(pd_view(out_moves@, out_ab@, out_aw@, out_md@) =~~= apply_prop(
                        st,
                        key,
                        values,
                        sz,
                    ));
                }
            } else {
                proof {
                    assert(pd_view(out_moves@, out_ab@, out_aw@, out_md@) =~= apply_prop(
                        st,
                        key,
                        values,
                        sz,
                    ));
                }
            }
        } else {
            if props[t2].1[0].len() > 0 {
                let k = chars_to_string(&props[t2].0);
                let v = chars_to_string(&props[t2].1[0]);
                let ghost md0 = out_md@;
                out_md.push((k, v));
                proof {
                    assert(out_md@.drop_last() =~= md0);
                    assert(md_view(out_md@) =~= md_view(md0).push(
                        (out_md@.last().0@, out_md@.last().1@),
                    ));
                    assert(pd_view(out_moves@, out_ab@, out_aw@, out_md@) =~= apply_prop(
                        st,
                        key,
                        values,
                        sz,
                    ));
                }
            } else {
                proof {
                    assert(pd_view(out_moves@, out_ab@, out_aw@, out_md@) =~= apply_prop(
                        st,
                        key,
                        values,
                        sz,
                    ));
                }
            }
        }
        proof {
            assert(pview.take(t2 + 1) =~= pview.take(t2 as int).push(pview[t2 as int]));
            lemma_fold_props_push(empty_pdoc(), pview.take(t2 as int), pview[t2 as int], sz);
            assert((pview[t2 as int].0, pview[t2 as int].1) == pview[t2 as int]);
        }
        t2 = t2 + 1;
    }
    proof {
        assert(pview.take(n as int) =~= pview);
    }
    let d = SgfData { board_size, moves: out_moves, ab: out_ab, aw: out_aw, metadata: out_md };
    proof {
        let pd = fold_props(empty_pdoc(), pview, sz);
        assert(d@ =~= SgfView {
            board_size: sz,
            moves: pd.moves,
            ab: pd.ab,
            aw: pd.aw,
            metadata: pd.metadata,
        });
        assert(pdoc_rt_wf(empty_pdoc(), sz));
        lemma_fold_props_wf(empty_pdoc(), pview, sz);
    }
    Ok(d)
}


// ---------------------------------------------------------------------------
// Serializer specification
// ---------------------------------------------------------------------------

/// The digit character for `d`.
pub open spec fn digit_of(d: int) -> char {
    (('0' as int) + d) as char
}

/// Decimal numeral of a supported board dimension (at most two digits).
pub open spec fn dec_digits(n: int) -> Seq<char> {
    if n < 10 {
        seq![digit_of(n)]
    } else {
        seq![digit_of(n / 10), digit_of(n % 10)]
    }
}

/// The text of a run of bracketed values.
pub open spec fn values_chunk(values: Seq<Seq<char>>) -> Seq<char>
    decreases values.len(),
{
    if values.len() == 0 {
        seq![]
    } else {
        seq!['['] + values[0] + seq![']'] + values_chunk(values.subrange(1, values.len() as int))
    }
}

/// The text of one property: its key followed by its values.
pub open spec fn prop_chunk(key: Seq<char>, values: Seq<Seq<char>>) -> Seq<char> {
    key + values_chunk(values)
}

/// The text of a list of metadata entries, one property each.
pub open spec fn md_chunks(md: Seq<(Seq<char>, Seq<char>)>) -> Seq<char>
    decreases md.len(),
{
    if md.len() == 0 {
        seq![]
    } else {
        prop_chunk(md[0].0, seq![md[0].1]) + md_chunks(md.subrange(1, md.len() as int))
    }
}

/// The text of a list of stones under one key, one property per stone.
pub open spec fn stones_chunks(key: Seq<char>, cs: Seq<(int, int)>) -> Seq<char>
    decreases cs.len(),
{
    if cs.len() == 0 {
        seq![]
    } else {
        prop_chunk(key, seq![enc_coord(cs[0].0, cs[0].1)]) + stones_chunks(
            key,
            cs.subrange(1, cs.len() as int),
        )
    }
}

/// Comment text with every value terminator escaped.
pub open spec fn esc_comment(s: Seq<char>) -> Seq<char>
    decreases s.len(),
{
    if s.len() == 0 {
        seq![]
    } else {
        (if s[0] == ']' {
            seq!['\\', ']']
        } else {
            seq![s[0]]
        }) + esc_comment(s.subrange(1, s.len() as int))
    }
}

pub open spec fn player_key(p: Player) -> Seq<char> {
    match p {
        Player::Black => b_key(),
        Player::White => w_key(),
    }
}

/// The text of one move: its marker, then its triangle annotations, then its
/// comment if it has one.
pub open spec fn move_chunk(m: MoveView) -> Seq<char> {
    seq![';'] + prop_chunk(player_key(m.player), seq![enc_coord(m.x, m.y)]) + stones_chunks(
        tr_key(),
        m.triangles,
    ) + (match m.comment {
        Option::Some(c) => prop_chunk(c_key(), seq![esc_comment(c)]),
        Option::None => seq![],
    })
}

pub open spec fn moves_chunks(ms: Seq<MoveView>) -> Seq<char>
    decreases ms.len(),
{
    if ms.len() == 0 {
        seq![]
    } else {
        move_chunk(ms[0]) + moves_chunks(ms.subrange(1, ms.len() as int))
    }
}

/// What serialization emits: the frame, the dimension, the metadata in
/// insertion order, the initial stones, then every move in order.
pub open spec fn serial_of(d: SgfView) -> Seq<char> {
    seq!['(', ';'] + prop_chunk(sz_key(), seq![dec_digits(d.board_size)]) + md_chunks(d.metadata)
        + stones_chunks(ab_key(), d.ab) + stones_chunks(aw_key(), d.aw) + moves_chunks(d.moves)
        + seq![')']
}

pub proof fn lemma_md_chunks_push(md: Seq<(Seq<char>, Seq<char>)>, e: (Seq<char>, Seq<char>))
    ensures
        md_chunks(md.push(e)) == md_chunks(md) + prop_chunk(e.0, seq![e.1]),
    decreases md.len(),
{
    let w = md.push(e);
    if md.len() == 0 {
        let emp = Seq::<(Seq<char>, Seq<char>)>::empty();
        assert(md_chunks(emp) == Seq::<char>::empty());
        assert(w.subrange(1, w.len() as int) =~= emp);
        assert(w[0] == e);
        assert(md_chunks(w) =~= md_chunks(md) + prop_chunk(e.0, seq![e.1]));
    } else {
        assert(w[0] == md[0]);
        assert(w.subrange(1, w.len() as int) =~= md.subrange(1, md.len() as int).push(e));
        lemma_md_chunks_push(md.subrange(1, md.len() as int), e);
        assert(md_chunks(w) =~= md_chunks(md) + prop_chunk(e.0, seq![e.1]));
    }
}

pub proof fn lemma_stones_chunks_push(key: Seq<char>, cs: Seq<(int, int)>, c: (int, int))
    ensures
        stones_chunks(key, cs.push(c)) == stones_chunks(key, cs) + prop_chunk(
            key,
            seq![enc_coord(c.0, c.1)],
        ),
    decreases cs.len(),
{
    let w = cs.push(c);
    if cs.len() == 0 {
        let emp = Seq::<(int, int)>::empty();
        assert(stones_chunks(key, emp) == Seq::<char>::empty());
        assert(w.subrange(1, w.len() as int) =~= emp);
        assert(w[0] == c);
        assert(stones_chunks(key, w) =~= stones_chunks(key, cs) + prop_chunk(
            key,
            seq![enc_coord(c.0, c.1)],
        ));
    } else {
        assert(w[0] == cs[0]);
        assert(w.subrange(1, w.len() as int) =~= cs.subrange(1, cs.len() as int).push(c));
        lemma_stones_chunks_push(key, cs.subrange(1, cs.len() as int), c);
        assert(stones_chunks(key, w) =~= stones_chunks(key, cs) + prop_chunk(
            key,
            seq![enc_coord(c.0, c.1)],
        ));
    }
}

pub proof fn lemma_moves_chunks_push(ms: Seq<MoveView>, m: MoveView)
    ensures
        moves_chunks(ms.push(m)) == moves_chunks(ms) + move_chunk(m),
    decreases ms.len(),
{
    let w = ms.push(m);
    if ms.len() == 0 {
        let emp = Seq::<MoveView>::empty();
        assert(moves_chunks(emp) == Seq::<char>::empty());
        assert(w.subrange(1, w.len() as int) =~= emp);
        assert(w[0] == m);
        assert(moves_chunks(w) =~= moves_chunks(ms) + move_chunk(m));
    } else {
        assert(w[0] == ms[0]);
        assert(w.subrange(1, w.len() as int) =~= ms.subrange(1, ms.len() as int).push(m));
        lemma_moves_chunks_push(ms.subrange(1, ms.len() as int), m);
        assert(moves_chunks(w) =~= moves_chunks(ms) + move_chunk(m));
    }
}

pub proof fn lemma_esc_comment_push(s: Seq<char>, c: char)
    ensures
        esc_comment(s.push(c)) == esc_comment(s) + (if c == ']' {
            seq!['\\', ']']
        } else {
            seq![c]
        }),
    decreases s.len(),
{
    let w = s.push(c);
    if s.len() == 0 {
        let emp = Seq::<char>::empty();
        assert(esc_comment(emp) == Seq::<char>::empty());
        assert(w.subrange(1, w.len() as int) =~= emp);
        assert(w[0] == c);
        assert(esc_comment(w) =~= esc_comment(s) + (if c == ']' {
            seq!['\\', ']']
        } else {
            seq![c]
        }));
    } else {
        assert(w[0] == s[0]);
        assert(w.subrange(1, w.len() as int) =~= s.subrange(1, s.len() as int).push(c));
        lemma_esc_comment_push(s.subrange(1, s.len() as int), c);
        assert(esc_comment(w) =~= esc_comment(s) + (if c == ']' {
            seq!['\\', ']']
        } else {
            seq![c]
        }));
    }
}

/// A comment free of the terminator is unchanged by escaping.
pub proof fn lemma_esc_comment_id(s: Seq<char>)
    requires
        !seq_has_char(s, ']'),
    ensures
        esc_comment(s) == s,
    decreases s.len(),
{
    if s.len() > 0 {
        let t = s.subrange(1, s.len() as int);
        assert(s[0] != ']');
        assert(!seq_has_char(t, ']')) by {
            assert(forall|i: int| 0 <= i < t.len() ==> #[trigger] t[i] == s[i + 1]);
        }
        lemma_esc_comment_id(t);
        assert(esc_comment(s) =~= s);
    }
}

// ---------------------------------------------------------------------------
// Executable serializer
// ---------------------------------------------------------------------------

/// Appends the characters of a string to the output.
fn push_str_chars(out: &mut Vec<char>, s: &String)
    ensures
        final(out)@ == old(out)@ + s@,
{
    let cs = str_to_chars(s.as_str());
    let mut i: usize = 0;
    while i < cs.len()
        invariant
            i <= cs@.len(),
            cs@ == s@,
            out@ == old(out)@ + cs@.take(i as int),
        decreases cs@.len() - i,
    {
        out.push(cs[i]);
        proof {
            assert(old(out)@ + cs@.take(i + 1) =~= (old(out)@ + cs@.take(i as int)).push(
                cs@[i as int],
            ));
        }
        i = i + 1;
    }
    proof {
        assert(cs@.take(cs@.len() as int) =~= cs@);
    }
}

/// Appends a comment with every terminator escaped.
fn push_escaped(out: &mut Vec<char>, s: &String)
    ensures
        final(out)@ == old(out)@ + esc_comment(s@),
{
    let cs = str_to_chars(s.as_str());
    let mut i: usize = 0;
    proof {
        assert(cs@.take(0) =~= Seq::<char>::empty());
        assert(esc_comment(Seq::<char>::empty()) == Seq::<char>::empty());
        assert(out@ =~= old(out)@ + esc_comment(cs@.take(0)));
    }
    while i < cs.len()
        invariant
            i <= cs@.len(),
            cs@ == s@,
            out@ == old(out)@ + esc_comment(cs@.take(i as int)),
        decreases cs@.len() - i,
    {
        let c = cs[i];
        proof {
            assert(cs@.take(i + 1) =~= cs@.take(i as int).push(cs@[i as int]));
            lemma_esc_comment_push(cs@.take(i as int), cs@[i as int]);
        }
        if c == ']' {
            out.push('\\');
            out.push(']');
            proof {
                assert(out@ =~= old(out)@ + esc_comment(cs@.take(i + 1)));
            }
        } else {
            out.push(c);
            proof {
                assert(out@ =~= old(out)@ + esc_comment(cs@.take(i + 1)));
            }
        }
        i = i + 1;
    }
    proof {
        assert(cs@.take(cs@.len() as int) =~= cs@);
    }
}

/// Appends one bracketed-value property whose single value is given by what
/// was already placed in `val`.
fn push_prop_1(out: &mut Vec<char>, k0: char, k1: Option<char>, val: &Vec<char>)
    ensures
        final(out)@ == old(out)@ + prop_chunk(
            match k1 {
                Option::Some(c1) => seq![k0, c1],
                Option::None => seq![k0],
            },
            seq![val@],
        ),
{
    out.push(k0);
    if let Some(c1) = k1 {
        out.push(c1);
    }
    out.push('[');
    let mut i: usize = 0;
    while i < val.len()
        invariant
            i <= val@.len(),
            out@ == match k1 {
                Option::Some(c1) => old(out)@ + seq![k0, c1, '['] + val@.take(i as int),
                Option::None => old(out)@ + seq![k0, '['] + val@.take(i as int),
            },
        decreases val@.len() - i,
    {
        out.push(val[i]);
        proof {
            assert(val@.take(i + 1) =~= val@.take(i as int).push(val@[i as int]));
            match k1 {
                Option::Some(c1) => {
                    assert(old(out)@ + seq![k0, c1, '['] + val@.take(i + 1) =~= (old(out)@ + seq![
                        k0,
                        c1,
                        '[',
                    ] + val@.take(i as int)).push(val@[i as int]));
                },
                Option::None => {
                    assert(old(out)@ + seq![k0, '['] + val@.take(i + 1) =~= (old(out)@ + seq![
                        k0,
                        '[',
                    ] + val@.take(i as int)).push(val@[i as int]));
                },
            }
        }
        i = i + 1;
    }
    out.push(']');
    proof {
        assert(val@.take(val@.len() as int) =~= val@);
        let emp = Seq::<Seq<char>>::empty();
        assert(values_chunk(emp) == Seq::<char>::empty());
        assert(seq![val@].subrange(1, 1) =~= emp);
        assert(seq![val@][0] == val@);
        match k1 {
            Option::Some(c1) => {
                assert(final(out)@ =~= old(out)@ + prop_chunk(seq![k0, c1], seq![val@]));
            },
            Option::None => {
                assert(final(out)@ =~= old(out)@ + prop_chunk(seq![k0], seq![val@]));
            },
        }
    }
}

/// Renders a document back to record text.
///
/// The output is the frame, the dimension, every metadata entry in insertion
/// order, the initial stones, then each move with its annotations, and it is
/// exactly what `serial_of` describes.
#[verifier::rlimit(100)]
pub fn sgf_to_string(sgf: &SgfData) -> (r: Result<String, ()>)
    requires
        sgf_wf(sgf@),
    ensures
        r matches Result::Ok(text) && text@ == serial_of(sgf@),
{
    let ghost d = sgf@;
    let mut out: Vec<char> = Vec::new();
    out.push('(');
    out.push(';');

    // Board dimension.
    let mut szv: Vec<char> = Vec::new();
    if sgf.board_size < 10 {
        szv.push((48u8 + sgf.board_size as u8) as char);
        proof {
            assert(szv@ =~= dec_digits(d.board_size));
        }
    } else {
        szv.push((48u8 + (sgf.board_size / 10) as u8) as char);
        szv.push((48u8 + (sgf.board_size % 10) as u8) as char);
        proof {
            assert(szv@ =~= dec_digits(d.board_size));
        }
    }
    push_prop_1(&mut out, 'S', Some('Z'), &szv);
    let ghost head = seq!['(', ';'] + prop_chunk(sz_key(), seq![dec_digits(d.board_size)]);
    proof {
        assert(out@ =~= head);
    }

    // Metadata entries in insertion order.
    let mut i: usize = 0;
    proof {
        assert(d.metadata.take(0) =~= Seq::<(Seq<char>, Seq<char>)>::empty());
        assert(out@ =~= head + md_chunks(d.metadata.take(0)));
    }
    while i < sgf.metadata.len()
        invariant
            i <= sgf.metadata@.len(),
            d == sgf@,
            head == seq!['(', ';'] + prop_chunk(sz_key(), seq![dec_digits(d.board_size)]),
            out@ == head + md_chunks(d.metadata.take(i as int)),
        decreases sgf.metadata@.len() - i,
    {
        let ghost entry = d.metadata[i as int];
        push_str_chars(&mut out, &sgf.metadata[i].0);
        out.push('[');
        push_str_chars(&mut out, &sgf.metadata[i].1);
        out.push(']');
        proof {
            assert(d.metadata.take(i + 1) =~= d.metadata.take(i as int).push(entry));
            lemma_md_chunks_push(d.metadata.take(i as int), entry);
            let emp = Seq::<Seq<char>>::empty();
            assert(values_chunk(emp) == Seq::<char>::empty());
            assert(seq![entry.1].subrange(1, 1) =~= emp);
            assert(seq![entry.1][0] == entry.1);
            assert(out@ =~= head + md_chunks(d.metadata.take(i + 1)));
        }
        i = i + 1;
    }
    proof {
        assert(d.metadata.take(d.metadata.len() as int) =~= d.metadata);
    }
    let ghost head_md = head + md_chunks(d.metadata);

    // Initial stones.
    let mut i2: usize = 0;
    proof {
        assert(d.ab.take(0) =~= Seq::<(int, int)>::empty());
        assert(out@ =~= head_md + stones_chunks(ab_key(), d.ab.take(0)));
    }
    while i2 < sgf.ab.len()
        invariant
            i2 <= sgf.ab@.len(),
            d == sgf@,
            sgf_wf(d),
            head_md == seq!['(', ';'] + prop_chunk(sz_key(), seq![dec_digits(d.board_size)])
                + md_chunks(d.metadata),
            out@ == head_md + stones_chunks(ab_key(), d.ab.take(i2 as int)),
        decreases sgf.ab@.len() - i2,
    {
        let (x, y) = sgf.ab[i2];
        proof {
            assert(coord_in_bounds(d.board_size, d.ab[i2 as int]));
            assert(d.ab[i2 as int] == (x as int, y as int));
        }
        let mut cv: Vec<char> = Vec::new();
        push_coord(&mut cv, x, y);
        proof {
            assert(cv@ =~= enc_coord(x as int, y as int));
        }
        push_prop_1(&mut out, 'A', Some('B'), &cv);
        proof {
            assert(d.ab.take(i2 + 1) =~= d.ab.take(i2 as int).push(d.ab[i2 as int]));
            lemma_stones_chunks_push(ab_key(), d.ab.take(i2 as int), d.ab[i2 as int]);
            assert(out@ =~= head_md + stones_chunks(ab_key(), d.ab.take(i2 + 1)));
        }
        i2 = i2 + 1;
    }
    proof {
        assert(d.ab.take(d.ab.len() as int) =~= d.ab);
    }
    let ghost head_ab = head_md + stones_chunks(ab_key(), d.ab);

    let mut i3: usize = 0;
    proof {
        assert(d.aw.take(0) =~= Seq::<(int, int)>::empty());
        assert(out@ =~= head_ab + stones_chunks(aw_key(), d.aw.take(0)));
    }
    while i3 < sgf.aw.len()
        invariant
            i3 <= sgf.aw@.len(),
            d == sgf@,
            sgf_wf(d),
            head_ab == seq!['(', ';'] + prop_chunk(sz_key(), seq![dec_digits(d.board_size)])
                + md_chunks(d.metadata) + stones_chunks(ab_key(), d.ab),
            out@ == head_ab + stones_chunks(aw_key(), d.aw.take(i3 as int)),
        decreases sgf.aw@.len() - i3,
    {
        let (x, y) = sgf.aw[i3];
        proof {
            assert(coord_in_bounds(d.board_size, d.aw[i3 as int]));
            assert(d.aw[i3 as int] == (x as int, y as int));
        }
        let mut cv: Vec<char> = Vec::new();
        push_coord(&mut cv, x, y);
        proof {
            assert(cv@ =~= enc_coord(x as int, y as int));
        }
        push_prop_1(&mut out, 'A', Some('W'), &cv);
        proof {
            assert(d.aw.take(i3 + 1) =~= d.aw.take(i3 as int).push(d.aw[i3 as int]));
            lemma_stones_chunks_push(aw_key(), d.aw.take(i3 as int), d.aw[i3 as int]);
            assert(out@ =~= head_ab + stones_chunks(aw_key(), d.aw.take(i3 + 1)));
        }
        i3 = i3 + 1;
    }
    proof {
        assert(d.aw.take(d.aw.len() as int) =~= d.aw);
    }
    let ghost head_aw = head_ab + stones_chunks(aw_key(), d.aw);

    // Moves in play order.
    let mut i4: usize = 0;
    proof {
        assert(d.moves.take(0) =~= Seq::<MoveView>::empty());
        assert(out@ =~= head_aw + moves_chunks(d.moves.take(0)));
    }
    while i4 < sgf.moves.len()
        invariant
            i4 <= sgf.moves@.len(),
            d == sgf@,
            sgf_wf(d),
            head_aw == seq!['(', ';'] + prop_chunk(sz_key(), seq![dec_digits(d.board_size)])
                + md_chunks(d.metadata) + stones_chunks(ab_key(), d.ab) + stones_chunks(
                aw_key(),
                d.aw,
            ),
            out@ == head_aw + moves_chunks(d.moves.take(i4 as int)),
        decreases sgf.moves@.len() - i4,
    {
        let ghost m = d.moves[i4 as int];
        let ghost out0 = out@;
        proof {
            assert(move_wf(d.board_size, m));
            assert(m == sgf.moves@[i4 as int]@);
        }
        out.push(';');
        let mv = &sgf.moves[i4];
        let mut cv: Vec<char> = Vec::new();
        push_coord(&mut cv, mv.x, mv.y);
        proof {
            assert(cv@ =~= enc_coord(m.x, m.y));
        }
        match mv.player {
            Player::Black => {
                push_prop_1(&mut out, 'B', None, &cv);
                proof {
                    assert(player_key(m.player) =~= seq!['B']);
                }
            },
            Player::White => {
                push_prop_1(&mut out, 'W', None, &cv);
                proof {
                    assert(player_key(m.player) =~= seq!['W']);
                }
            },
        }
        proof {
            assert(out@ =~= out0 + seq![';'] + prop_chunk(
                player_key(m.player),
                seq![enc_coord(m.x, m.y)],
            ));
        }
        let ghost out1 = out@;
        // Triangle annotations.
        let mut j: usize = 0;
        proof {
            assert(m.triangles.take(0) =~= Seq::<(int, int)>::empty());
            assert(out@ =~= out1 + stones_chunks(tr_key(), m.triangles.take(0)));
        }
        while j < mv.triangles.len()
            invariant
                j <= mv.triangles@.len(),
                m.triangles == upairs_view(mv.triangles@),
                move_wf(d.board_size as int, m),
                d.board_size <= 26,
                out@ == out1 + stones_chunks(tr_key(), m.triangles.take(j as int)),
            decreases mv.triangles@.len() - j,
        {
            let (tx, ty) = mv.triangles[j];
            proof {
                assert(m.triangles[j as int] == (tx as int, ty as int));
                assert(coord_in_bounds(d.board_size as int, m.triangles[j as int]));
            }
            let mut tv: Vec<char> = Vec::new();
            push_coord(&mut tv, tx, ty);
            proof {
                assert(tv@ =~= enc_coord(tx as int, ty as int));
            }
            push_prop_1(&mut out, 'T', Some('R'), &tv);
            proof {
                assert(m.triangles.take(j + 1) =~= m.triangles.take(j as int).push(
                    m.triangles[j as int],
                ));
                lemma_stones_chunks_push(tr_key(), m.triangles.take(j as int), m.triangles[j as int]);
                assert(out@ =~= out1 + stones_chunks(tr_key(), m.triangles.take(j + 1)));
            }
            j = j + 1;
        }
        proof {
            assert(m.triangles.take(m.triangles.len() as int) =~= m.triangles);
        }
        let ghost out2 = out@;
        // Comment, with the terminator escaped.
        match &mv.comment {
            Some(text) => {
                out.push('C');
                out.push('[');
                push_escaped(&mut out, text);
                out.push(']');
                proof {
                    assert(m.comment == Option::Some(text@));
                    let emp = Seq::<Seq<char>>::empty();
                    assert(values_chunk(emp) == Seq::<char>::empty());
                    assert(seq![esc_comment(text@)].subrange(1, 1) =~= emp);
                    assert(seq![esc_comment(text@)][0] == esc_comment(text@));
                    assert(out@ =~= out2 + prop_chunk(c_key(), seq![esc_comment(text@)]));
                }
            },
            None => {
                proof {
                    assert(m.comment is None);
                }
            },
        }
        proof {
            assert(out@ =~= out0 + move_chunk(m));
            assert(d.moves.take(i4 + 1) =~= d.moves.take(i4 as int).push(m));
            lemma_moves_chunks_push(d.moves.take(i4 as int), m);
            assert(out@ =~= head_aw + moves_chunks(d.moves.take(i4 + 1)));
        }
        i4 = i4 + 1;
    }
    proof {
        assert(d.moves.take(d.moves.len() as int) =~= d.moves);
    }
    out.push(')');
    proof {
        assert(out@ =~= serial_of(d));
    }
    let text = chars_to_string(&out);
    Ok(text)
}

/// Decides the document invariant at run time, for callers outside the
/// verified world that obtained a document some other way than `parse_sgf`.
pub fn check_sgf_wf(sgf: &SgfData) -> (r: bool)
    ensures
        r == sgf_wf(sgf@),
{
    let bs = sgf.board_size;
    if !(1 <= bs && bs <= 26) {
        return false;
    }
    let mut i: usize = 0;
    while i < sgf.moves.len()
        invariant
            i <= sgf.moves@.len(),
            1 <= bs <= 26,
            bs == sgf.board_size,
            forall|j: int| 0 <= j < i ==> move_wf(bs as int, #[trigger] sgf@.moves[j]),
        decreases sgf.moves@.len() - i,
    {
        let m = &sgf.moves[i];
        proof {
            assert(sgf@.moves[i as int] == sgf.moves@[i as int]@);
        }
        if m.x >= bs || m.y >= bs {
            proof {
                assert(!move_wf(bs as int, sgf@.moves[i as int]));
            }
            return false;
        }
        let mut t: usize = 0;
        while t < m.triangles.len()
            invariant
                t <= m.triangles@.len(),
                1 <= bs <= 26,
                bs == sgf.board_size,
                m.x < bs,
                m.y < bs,
                i < sgf.moves@.len(),
                sgf@.moves[i as int] == sgf.moves@[i as int]@,
                sgf@.moves[i as int].triangles == upairs_view(m.triangles@),
                forall|k: int|
                    0 <= k < t ==> coord_in_bounds(
                        bs as int,
                        #[trigger] upairs_view(m.triangles@)[k],
                    ),
            decreases m.triangles@.len() - t,
        {
            let (tx, ty) = m.triangles[t];
            proof {
                assert(upairs_view(m.triangles@)[t as int] == (tx as int, ty as int));
            }
            if tx >= bs || ty >= bs {
                proof {
                    assert(!coord_in_bounds(bs as int, sgf@.moves[i as int].triangles[t as int]));
                    assert(!move_wf(bs as int, sgf@.moves[i as int]));
                    assert(!sgf_wf(sgf@)) by {
                        if sgf_wf(sgf@) {
                            assert(0 <= i < sgf@.moves.len());
                            assert(move_wf(sgf@.board_size, sgf@.moves[i as int]));
                            assert(sgf@.board_size == bs as int);
                        }
                    }
                }
                return false;
            }
            t = t + 1;
        }
        proof {
            assert(sgf@.moves[i as int].triangles == upairs_view(m.triangles@));
            assert(move_wf(bs as int, sgf@.moves[i as int]));
        }
        i = i + 1;
    }
    let mut a: usize = 0;
    while a < sgf.ab.len()
        invariant
            a <= sgf.ab@.len(),
            1 <= bs <= 26,
            bs == sgf.board_size,
            forall|j: int| 0 <= j < a ==> coord_in_bounds(bs as int, #[trigger] sgf@.ab[j]),
        decreases sgf.ab@.len() - a,
    {
        let (x, y) = sgf.ab[a];
        proof {
            assert(sgf@.ab[a as int] == (x as int, y as int));
        }
        if x >= bs || y >= bs {
            return false;
        }
        a = a + 1;
    }
    let mut w: usize = 0;
    while w < sgf.aw.len()
        invariant
            w <= sgf.aw@.len(),
            1 <= bs <= 26,
            bs == sgf.board_size,
            forall|j: int| 0 <= j < w ==> coord_in_bounds(bs as int, #[trigger] sgf@.aw[j]),
        decreases sgf.aw@.len() - w,
    {
        let (x, y) = sgf.aw[w];
        proof {
            assert(sgf@.aw[w as int] == (x as int, y as int));
        }
        if x >= bs || y >= bs {
            return false;
        }
        w = w + 1;
    }
    true
}

} // verus!
