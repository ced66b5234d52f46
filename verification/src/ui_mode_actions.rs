//! Keystroke handling as pure document logic.
//!
//! The terminal front end turns every key press into a [`Key`] value and
//! hands it, together with the current [`UiMode`] and the game state, to the
//! handler for that mode.  Each handler edits the mode's input buffer or
//! performs a document operation, and reports the next mode.  Nothing here
//! reads or writes a terminal.

use vstd::prelude::*;

use crate::game::{annotated, stored_comment, GoGame};
use crate::sgf_parser::{
    coord_in_bounds, dec26, letter_of, sgf_coords_to_xy, MoveView, Player, SgfView,
};
use crate::side_channel::{comment_proper, decode_side_channel, encode_side, labels_of, strings_view};
use crate::text::{chars_to_string, is_space_char, spec_parse_usize, str_to_chars, string_pop, string_push, parse_usize_chars};

verus! {

/// One keyboard event, reduced to what the document logic needs.
#[derive(Clone, Copy, PartialEq, Eq, Structural, Debug)]
pub enum Key {
    Char(char),
    Enter,
    Esc,
    Backspace,
    Tab,
    Left,
    Right,
    Other,
}

/// The modal input state of the editor.
pub enum UiMode {
    Normal,
    GotoMoveInput { input: String },
    HotkeyHelp,
    ModifyMoveInput { input: String },
    SearchCoordInput { input: String },
    EditCommentInput { input: String },
    EditLabelInput { input: String },
    EditTrianglesInput { input: String },
    InsertMoveInput { input: String, color: Player },
}

/// What a keystroke in normal mode leads to.
pub enum UiAction {
    Continue,
    ChangeMode(UiMode),
    Quit,
}

pub open spec fn opposite(p: Player) -> Player {
    match p {
        Player::Black => Player::White,
        Player::White => Player::Black,
    }
}

// ---------------------------------------------------------------------------
// Input text: trimming, comma lists, row-first coordinates
// ---------------------------------------------------------------------------

/// Input with surrounding whitespace removed.
pub open spec fn trim_spaces(s: Seq<char>) -> Seq<char>
    decreases s.len(),
{
    if s.len() > 0 && is_space_char(s[0]) {
        trim_spaces(s.subrange(1, s.len() as int))
    } else if s.len() > 0 && is_space_char(s.last()) {
        trim_spaces(s.subrange(0, s.len() - 1))
    } else {
        s
    }
}

pub proof fn lemma_trim_spaces_eq(s: Seq<char>, a: int, b: int)
    requires
        0 <= a <= b <= s.len(),
        forall|i: int| 0 <= i < a ==> is_space_char(#[trigger] s[i]),
        forall|i: int| b <= i < s.len() ==> is_space_char(#[trigger] s[i]),
        a < b ==> !is_space_char(s[a]) && !is_space_char(s[b - 1]),
    ensures
        trim_spaces(s) == s.subrange(a, b),
    decreases s.len(),
{
    if s.len() > 0 && is_space_char(s[0]) {
        let t = s.subrange(1, s.len() as int);
        if a == 0 {
            assert(b == 0) by {
                if a < b {
                    assert(!is_space_char(s[0]));
                }
            }
            assert forall|i: int| 0 <= i < t.len() implies is_space_char(#[trigger] t[i]) by {
                assert(t[i] == s[i + 1]);
            }
            lemma_trim_spaces_eq(t, 0, 0);
            assert(t.subrange(0, 0) =~= s.subrange(a, b));
        } else {
            assert forall|i: int| 0 <= i < a - 1 implies is_space_char(#[trigger] t[i]) by {
                assert(t[i] == s[i + 1]);
            }
            assert forall|i: int| b - 1 <= i < t.len() implies is_space_char(#[trigger] t[i]) by {
                assert(t[i] == s[i + 1]);
            }
            lemma_trim_spaces_eq(t, a - 1, b - 1);
            assert(t.subrange(a - 1, b - 1) =~= s.subrange(a, b));
        }
    } else if s.len() > 0 && is_space_char(s.last()) {
        let t = s.subrange(0, s.len() - 1);
        assert(b <= s.len() - 1) by {
            if b == s.len() {
                assert(!is_space_char(s[b - 1]));
            }
        }
        assert forall|i: int| 0 <= i < a implies is_space_char(#[trigger] t[i]) by {
            assert(t[i] == s[i]);
        }
        assert forall|i: int| b <= i < t.len() implies is_space_char(#[trigger] t[i]) by {
            assert(t[i] == s[i]);
        }
        lemma_trim_spaces_eq(t, a, b);
        assert(t.subrange(a, b) =~= s.subrange(a, b));
    } else {
        if s.len() > 0 {
            assert(a == 0) by {
                if a > 0 {
                    assert(is_space_char(s[0]));
                }
            }
            assert(b == s.len() as int) by {
                if b < s.len() {
                    assert(is_space_char(s[s.len() - 1]));
                }
            }
        }
        assert(s.subrange(a, b) =~= s);
    }
}

/// Strips surrounding whitespace from input text.
pub fn trimmed_chars(v: &Vec<char>) -> (r: Vec<char>)
    ensures
        r@ == trim_spaces(v@),
{
    let n = v.len();
    let mut a: usize = 0;
    while a < n && (v[a] == ' ' || v[a] == '\t' || v[a] == '\n' || v[a] == '\r')
        invariant
            a <= n,
            n == v@.len(),
            forall|i: int| 0 <= i < a ==> is_space_char(#[trigger] v@[i]),
        decreases n - a,
    {
        a = a + 1;
    }
    let mut b: usize = n;
    while b > a && (v[b - 1] == ' ' || v[b - 1] == '\t' || v[b - 1] == '\n' || v[b - 1] == '\r')
        invariant
            a <= b <= n,
            n == v@.len(),
            forall|i: int| 0 <= i < a ==> is_space_char(#[trigger] v@[i]),
            forall|i: int| b <= i < n ==> is_space_char(#[trigger] v@[i]),
        decreases b,
    {
        b = b - 1;
    }
    let mut r: Vec<char> = Vec::new();
    let mut i: usize = a;
    while i < b
        invariant
            a <= i <= b <= n,
            n == v@.len(),
            r@ == v@.subrange(a as int, i as int),
        decreases b - i,
    {
        r.push(v[i]);
        proof {
            assert(v@.subrange(a as int, i + 1) =~= v@.subrange(a as int, i as int).push(
                v@[i as int],
            ));
        }
        i = i + 1;
    }
    proof {
        lemma_trim_spaces_eq(v@, a as int, b as int);
    }
    r
}

/// Index of the first comma, or the length when there is none.
pub open spec fn find_comma(s: Seq<char>) -> nat
    decreases s.len(),
{
    if s.len() == 0 {
        0
    } else if s[0] == ',' {
        0
    } else {
        (1 + find_comma(s.subrange(1, s.len() as int))) as nat
    }
}

pub proof fn lemma_find_comma_eq(s: Seq<char>, n: int)
    requires
        0 <= n <= s.len(),
        forall|i: int| 0 <= i < n ==> #[trigger] s[i] != ',',
        n == s.len() || s[n] == ',',
    ensures
        find_comma(s) == n,
    decreases s.len(),
{
    if n > 0 {
        lemma_find_comma_eq(s.subrange(1, s.len() as int), n - 1);
    }
}

/// Splitting input on commas; never empty.
pub open spec fn split_commas(s: Seq<char>) -> Seq<Seq<char>>
    decreases s.len(),
{
    let j = find_comma(s) as int;
    if j < s.len() {
        seq![s.take(j)] + split_commas(s.subrange(j + 1, s.len() as int))
    } else {
        seq![s]
    }
}

/// Splits input text on commas.
pub fn split_commas_exec(v: &Vec<char>) -> (r: Vec<Vec<char>>)
    ensures
        Seq::new(r@.len(), |i: int| r@[i]@) == split_commas(v@),
{
    let n = v.len();
    let mut parts: Vec<Vec<char>> = Vec::new();
    let mut p: usize = 0;
    let mut done = false;
    proof {
        assert(v@.subrange(0, n as int) =~= v@);
        assert(split_commas(v@) =~= Seq::new(parts@.len(), |i: int| parts@[i]@) + split_commas(
            v@.subrange(0, n as int),
        ));
    }
    while !done
        invariant
            p <= n,
            n == v@.len(),
            !done ==> split_commas(v@) == Seq::new(parts@.len(), |i: int| parts@[i]@)
                + split_commas(v@.subrange(p as int, n as int)),
            done ==> split_commas(v@) == Seq::new(parts@.len(), |i: int| parts@[i]@),
        decreases n - p, (if done { 0int } else { 1int }),
    {
        let ghost part0 = v@.subrange(p as int, n as int);
        let mut q: usize = p;
        while q < n && v[q] != ','
            invariant
                p <= q <= n,
                n == v@.len(),
                forall|i: int| p <= i < q ==> #[trigger] v@[i] != ',',
            decreases n - q,
        {
            q = q + 1;
        }
        proof {
            assert forall|i: int| 0 <= i < q - p implies #[trigger] part0[i] != ',' by {
                assert(part0[i] == v@[p + i]);
            }
            if q < n {
                assert(part0[q - p] == v@[q as int]);
            }
            lemma_find_comma_eq(part0, q - p);
        }
        let mut seg: Vec<char> = Vec::new();
        let mut i: usize = p;
        while i < q
            invariant
                p <= i <= q <= n,
                n == v@.len(),
                seg@ == v@.subrange(p as int, i as int),
            decreases q - i,
        {
            seg.push(v[i]);
            proof {
                assert(v@.subrange(p as int, i + 1) =~= v@.subrange(p as int, i as int).push(
                    v@[i as int],
                ));
            }
            i = i + 1;
        }
        proof {
            assert(seg@ =~= part0.take(q - p));
        }
        let ghost parts0 = parts@;
        parts.push(seg);
        proof {
            assert(Seq::new(parts@.len(), |i2: int| parts@[i2]@) =~= Seq::new(
                parts0.len(),
                |i2: int| parts0[i2]@,
            ).push(seg@));
        }
        if q < n {
            proof {
                assert(part0.subrange(q - p + 1, part0.len() as int) =~= v@.subrange(
                    q + 1,
                    n as int,
                ));
                assert(split_commas(part0) == seq![part0.take(q - p)] + split_commas(
                    v@.subrange(q + 1, n as int),
                ));
                assert(Seq::new(parts0.len(), |i2: int| parts0[i2]@) + (seq![seg@] + split_commas(
                    v@.subrange(q + 1, n as int),
                )) =~= Seq::new(parts@.len(), |i2: int| parts@[i2]@) + split_commas(
                    v@.subrange(q + 1, n as int),
                ));
            }
            p = q + 1;
        } else {
            proof {
                assert(find_comma(part0) == part0.len());
                assert(split_commas(part0) == seq![part0]);
                assert(part0.take(q - p) =~= part0);
                assert(Seq::new(parts0.len(), |i2: int| parts0[i2]@) + seq![seg@] =~= Seq::new(
                    parts@.len(),
                    |i2: int| parts@[i2]@,
                ));
            }
            done = true;
        }
    }
    parts
}

/// Labels joined for display, separated by commas.
pub open spec fn join_commas(ls: Seq<Seq<char>>) -> Seq<char>
    decreases ls.len(),
{
    if ls.len() == 0 {
        seq![]
    } else if ls.len() == 1 {
        ls[0]
    } else {
        ls[0] + seq![','] + join_commas(ls.subrange(1, ls.len() as int))
    }
}

pub proof fn lemma_join_commas_push(ls: Seq<Seq<char>>, l: Seq<char>)
    requires
        ls.len() >= 1,
    ensures
        join_commas(ls.push(l)) == join_commas(ls) + seq![','] + l,
    decreases ls.len(),
{
    let w = ls.push(l);
    assert(w[0] == ls[0]);
    if ls.len() == 1 {
        assert(w.subrange(1, w.len() as int) =~= seq![l]);
        assert(join_commas(seq![l]) == l);
        assert(join_commas(w) =~= join_commas(ls) + seq![','] + l);
    } else {
        assert(w.subrange(1, w.len() as int) =~= ls.subrange(1, ls.len() as int).push(l));
        lemma_join_commas_push(ls.subrange(1, ls.len() as int), l);
        assert(join_commas(w) =~= join_commas(ls) + seq![','] + l);
    }
}

/// Joins label strings with commas for display in an input buffer.
pub fn joined_commas(ls: &Vec<String>) -> (r: String)
    ensures
        r@ == join_commas(strings_view(ls@)),
{
    let ghost lv = strings_view(ls@);
    let mut out: Vec<char> = Vec::new();
    if ls.len() == 0 {
        return chars_to_string(&out);
    }
    let first = str_to_chars(ls[0].as_str());
    let mut i: usize = 0;
    while i < first.len()
        invariant
            i <= first@.len(),
            first@ == ls@[0]@,
            out@ == first@.take(i as int),
        decreases first@.len() - i,
    {
        out.push(first[i]);
        proof {
            assert(first@.take(i + 1) =~= first@.take(i as int).push(first@[i as int]));
        }
        i = i + 1;
    }
    proof {
        assert(first@.take(first@.len() as int) =~= first@);
        assert(lv.take(1) =~= seq![lv[0]]);
        assert(join_commas(lv.take(1)) == lv[0]);
    }
    let mut k: usize = 1;
    while k < ls.len()
        invariant
            1 <= k <= ls@.len(),
            lv == strings_view(ls@),
            out@ == join_commas(lv.take(k as int)),
        decreases ls@.len() - k,
    {
        out.push(',');
        let part = str_to_chars(ls[k].as_str());
        let ghost out0 = out@;
        let mut i2: usize = 0;
        while i2 < part.len()
            invariant
                i2 <= part@.len(),
                out@ == out0 + part@.take(i2 as int),
            decreases part@.len() - i2,
        {
            out.push(part[i2]);
            proof {
                assert(out0 + part@.take(i2 + 1) =~= (out0 + part@.take(i2 as int)).push(
                    part@[i2 as int],
                ));
            }
            i2 = i2 + 1;
        }
        proof {
            assert(part@.take(part@.len() as int) =~= part@);
            assert(part@ == lv[k as int]);
            assert(lv.take(k + 1) =~= lv.take(k as int).push(lv[k as int]));
            lemma_join_commas_push(lv.take(k as int), lv[k as int]);
            assert(out@ =~= join_commas(lv.take(k + 1)));
        }
        k = k + 1;
    }
    proof {
        assert(lv.take(lv.len() as int) =~= lv);
    }
    chars_to_string(&out)
}

/// A coordinate shown row letter first, as input is typed.
pub open spec fn rowcol_chars(c: (int, int)) -> Seq<char> {
    seq![letter_of(c.1), letter_of(c.0)]
}

/// Coordinates joined for display, separated by commas.
pub open spec fn join_comma_coords(cs: Seq<(int, int)>) -> Seq<char>
    decreases cs.len(),
{
    if cs.len() == 0 {
        seq![]
    } else if cs.len() == 1 {
        rowcol_chars(cs[0])
    } else {
        rowcol_chars(cs[0]) + seq![','] + join_comma_coords(cs.subrange(1, cs.len() as int))
    }
}

pub proof fn lemma_join_comma_coords_push(cs: Seq<(int, int)>, c: (int, int))
    requires
        cs.len() >= 1,
    ensures
        join_comma_coords(cs.push(c)) == join_comma_coords(cs) + seq![','] + rowcol_chars(c),
    decreases cs.len(),
{
    let w = cs.push(c);
    assert(w[0] == cs[0]);
    if cs.len() == 1 {
        assert(w.subrange(1, w.len() as int) =~= seq![c]);
        assert(join_comma_coords(seq![c]) == rowcol_chars(c));
        assert(join_comma_coords(w) =~= join_comma_coords(cs) + seq![','] + rowcol_chars(c));
    } else {
        assert(w.subrange(1, w.len() as int) =~= cs.subrange(1, cs.len() as int).push(c));
        lemma_join_comma_coords_push(cs.subrange(1, cs.len() as int), c);
        assert(join_comma_coords(w) =~= join_comma_coords(cs) + seq![','] + rowcol_chars(c));
    }
}

/// Renders triangle coordinates as comma-separated row-first pairs.
pub fn triangles_input(tris: &Vec<(usize, usize)>) -> (r: String)
    requires
        forall|i: int| 0 <= i < tris@.len() ==> (#[trigger] tris@[i]).0 < 26 && tris@[i].1 < 26,
    ensures
        r@ == join_comma_coords(crate::sgf_parser::upairs_view(tris@)),
{
    let ghost cs = crate::sgf_parser::upairs_view(tris@);
    let mut out: Vec<char> = Vec::new();
    if tris.len() == 0 {
        return chars_to_string(&out);
    }
    let (x0, y0) = tris[0];
    out.push((97u8 + y0 as u8) as char);
    out.push((97u8 + x0 as u8) as char);
    proof {
        assert(cs[0] == (x0 as int, y0 as int));
        assert(out@ =~= rowcol_chars(cs[0]));
        assert(cs.take(1) =~= seq![cs[0]]);
        assert(join_comma_coords(cs.take(1)) == rowcol_chars(cs[0]));
    }
    let mut k: usize = 1;
    while k < tris.len()
        invariant
            1 <= k <= tris@.len(),
            cs == crate::sgf_parser::upairs_view(tris@),
            forall|i: int| 0 <= i < tris@.len() ==> (#[trigger] tris@[i]).0 < 26 && tris@[i].1
                < 26,
            out@ == join_comma_coords(cs.take(k as int)),
        decreases tris@.len() - k,
    {
        out.push(',');
        let (x, y) = tris[k];
        out.push((97u8 + y as u8) as char);
        out.push((97u8 + x as u8) as char);
        proof {
            assert(cs[k as int] == (x as int, y as int));
            assert(cs.take(k + 1) =~= cs.take(k as int).push(cs[k as int]));
            lemma_join_comma_coords_push(cs.take(k as int), cs[k as int]);
            assert(out@ =~= join_comma_coords(cs.take(k + 1)));
        }
        k = k + 1;
    }
    proof {
        assert(cs.take(cs.len() as int) =~= cs);
    }
    chars_to_string(&out)
}

/// A typed coordinate read row letter first: `dd` names row `d`, column `d`.
/// The result is (column, row); anything but two lowercase letters is
/// rejected.
pub open spec fn rowcol_dec(v: Seq<char>) -> Option<(int, int)> {
    match dec26(v) {
        Option::Some(p) => Option::Some((p.1, p.0)),
        Option::None => Option::None,
    }
}

/// Decodes a typed row-first coordinate pair.
pub fn parse_rowcol(input: &str) -> (r: Option<(usize, usize)>)
    ensures
        rowcol_dec(input@) == match r {
            Option::Some(p) => Option::Some((p.0 as int, p.1 as int)),
            Option::None => Option::None::<(int, int)>,
        },
        r matches Option::Some(p) ==> p.0 < 26 && p.1 < 26,
{
    match sgf_coords_to_xy(input) {
        Some((row, col)) => Some((col, row)),
        None => None,
    }
}

// ---------------------------------------------------------------------------
// Parsed input lists
// ---------------------------------------------------------------------------

/// The label list a typed comma-separated input names: each part trimmed,
/// empty parts dropped.
pub open spec fn cleaned_labels(parts: Seq<Seq<char>>) -> Seq<Seq<char>>
    decreases parts.len(),
{
    if parts.len() == 0 {
        seq![]
    } else {
        let rest = cleaned_labels(parts.subrange(1, parts.len() as int));
        let t = trim_spaces(parts[0]);
        if t.len() > 0 {
            seq![t] + rest
        } else {
            rest
        }
    }
}

pub proof fn lemma_cleaned_labels_push(parts: Seq<Seq<char>>, p: Seq<char>)
    ensures
        cleaned_labels(parts.push(p)) == cleaned_labels(parts) + (if trim_spaces(p).len() > 0 {
            seq![trim_spaces(p)]
        } else {
            seq![]
        }),
    decreases parts.len(),
{
    let w = parts.push(p);
    if parts.len() == 0 {
        let e = Seq::<Seq<char>>::empty();
        assert(cleaned_labels(e) == Seq::<Seq<char>>::empty());
        assert(w.subrange(1, w.len() as int) =~= e);
        assert(w[0] == p);
        if trim_spaces(p).len() > 0 {
            assert(cleaned_labels(w) =~= cleaned_labels(parts) + seq![trim_spaces(p)]);
        } else {
            assert(cleaned_labels(w) =~= cleaned_labels(parts));
        }
    } else {
        assert(w[0] == parts[0]);
        assert(w.subrange(1, w.len() as int) =~= parts.subrange(1, parts.len() as int).push(p));
        lemma_cleaned_labels_push(parts.subrange(1, parts.len() as int), p);
        assert(cleaned_labels(w) =~= cleaned_labels(parts) + (if trim_spaces(p).len() > 0 {
            seq![trim_spaces(p)]
        } else {
            seq![]
        }));
    }
}

/// The label list named by a typed input: comma-separated, trimmed, empties
/// dropped.
pub open spec fn labels_of_input(s: Seq<char>) -> Seq<Seq<char>> {
    cleaned_labels(split_commas(s))
}

/// The coordinates a typed comma-separated input names: each part trimmed
/// and read as a row-first pair; parts that are not two lowercase letters
/// are dropped.
pub open spec fn coords_of_parts(parts: Seq<Seq<char>>) -> Seq<(int, int)>
    decreases parts.len(),
{
    if parts.len() == 0 {
        seq![]
    } else {
        let rest = coords_of_parts(parts.subrange(1, parts.len() as int));
        match rowcol_dec(trim_spaces(parts[0])) {
            Option::Some(c) => seq![c] + rest,
            Option::None => rest,
        }
    }
}

pub proof fn lemma_coords_of_parts_push(parts: Seq<Seq<char>>, p: Seq<char>)
    ensures
        coords_of_parts(parts.push(p)) == coords_of_parts(parts) + (match rowcol_dec(
            trim_spaces(p),
        ) {
            Option::Some(c) => seq![c],
            Option::None => seq![],
        }),
    decreases parts.len(),
{
    let w = parts.push(p);
    if parts.len() == 0 {
        let e = Seq::<Seq<char>>::empty();
        assert(coords_of_parts(e) == Seq::<(int, int)>::empty());
        assert(w.subrange(1, w.len() as int) =~= e);
        assert(w[0] == p);
        match rowcol_dec(trim_spaces(p)) {
            Option::Some(c) => {
                assert(coords_of_parts(w) =~= coords_of_parts(parts) + seq![c]);
            },
            Option::None => {
                assert(coords_of_parts(w) =~= coords_of_parts(parts));
            },
        }
    } else {
        assert(w[0] == parts[0]);
        assert(w.subrange(1, w.len() as int) =~= parts.subrange(1, parts.len() as int).push(p));
        lemma_coords_of_parts_push(parts.subrange(1, parts.len() as int), p);
        assert(coords_of_parts(w) =~= coords_of_parts(parts) + (match rowcol_dec(trim_spaces(p)) {
            Option::Some(c) => seq![c],
            Option::None => seq![],
        }));
    }
}

/// The triangle coordinates a typed input names.
pub open spec fn parsed_triangles(s: Seq<char>) -> Seq<(int, int)> {
    coords_of_parts(split_commas(s))
}

/// Parses a comma-separated list of labels from input text.
fn parse_labels(input: &str) -> (r: Vec<String>)
    ensures
        strings_view(r@) == labels_of_input(input@),
{
    let cs = str_to_chars(input);
    let parts = split_commas_exec(&cs);
    let ghost pview = Seq::new(parts@.len(), |i: int| parts@[i]@);
    let mut r: Vec<String> = Vec::new();
    let mut i: usize = 0;
    proof {
        assert(pview.take(0) =~= Seq::<Seq<char>>::empty());
        assert(strings_view(r@) =~= cleaned_labels(pview.take(0)));
    }
    while i < parts.len()
        invariant
            i <= parts@.len(),
            pview == Seq::new(parts@.len(), |i2: int| parts@[i2]@),
            pview == split_commas(cs@),
            cs@ == input@,
            strings_view(r@) == cleaned_labels(pview.take(i as int)),
        decreases parts@.len() - i,
    {
        let t = trimmed_chars(&parts[i]);
        proof {
            assert(pview[i as int] == parts@[i as int]@);
            assert(pview.take(i + 1) =~= pview.take(i as int).push(pview[i as int]));
            lemma_cleaned_labels_push(pview.take(i as int), pview[i as int]);
        }
        if t.len() > 0 {
            let ghost r0 = r@;
            r.push(chars_to_string(&t));
            proof {
                assert(strings_view(r@) =~= strings_view(r0).push(t@));
            }
        }
        i = i + 1;
    }
    proof {
        assert(pview.take(pview.len() as int) =~= pview);
    }
    r
}

/// Parses a comma-separated list of row-first coordinates from input text.
fn parse_coord_list(input: &str) -> (r: Vec<(usize, usize)>)
    ensures
        crate::sgf_parser::upairs_view(r@) == parsed_triangles(input@),
{
    let cs = str_to_chars(input);
    let parts = split_commas_exec(&cs);
    let ghost pview = Seq::new(parts@.len(), |i: int| parts@[i]@);
    let mut r: Vec<(usize, usize)> = Vec::new();
    let mut i: usize = 0;
    proof {
        assert(pview.take(0) =~= Seq::<Seq<char>>::empty());
        assert(crate::sgf_parser::upairs_view(r@) =~= coords_of_parts(pview.take(0)));
    }
    while i < parts.len()
        invariant
            i <= parts@.len(),
            pview == Seq::new(parts@.len(), |i2: int| parts@[i2]@),
            pview == split_commas(cs@),
            cs@ == input@,
            crate::sgf_parser::upairs_view(r@) == coords_of_parts(pview.take(i as int)),
        decreases parts@.len() - i,
    {
        let t = trimmed_chars(&parts[i]);
        let ts = chars_to_string(&t);
        let dec = parse_rowcol(ts.as_str());
        proof {
            assert(pview[i as int] == parts@[i as int]@);
            assert(pview.take(i + 1) =~= pview.take(i as int).push(pview[i as int]));
            lemma_coords_of_parts_push(pview.take(i as int), pview[i as int]);
            assert(ts@ == trim_spaces(pview[i as int]));
        }
        if let Some((x, y)) = dec {
            let ghost r0 = r@;
            r.push((x, y));
            proof {
                assert(crate::sgf_parser::upairs_view(r@) =~= crate::sgf_parser::upairs_view(
                    r0,
                ).push((x as int, y as int)));
            }
        }
        i = i + 1;
    }
    proof {
        assert(pview.take(pview.len() as int) =~= pview);
    }
    r
}

// ---------------------------------------------------------------------------
// Modal input handlers
// ---------------------------------------------------------------------------

/// Collects a move number; Enter jumps to it when it is in range.
pub fn handle_goto_move_input(key: &Key, input: &mut String, game: &mut GoGame) -> (r: Option<
    UiMode,
>)
    requires
        old(game).wf(),
    ensures
        final(game).wf(),
        match *key {
            Key::Esc => r == Option::Some(UiMode::Normal) && *final(input) == *old(input)
                && *final(game) == *old(game),
            Key::Enter => {
                &&& r == Option::Some(UiMode::Normal)
                &&& *final(input) == *old(input)
                &&& final(game).doc() == old(game).doc()
                &&& final(game).dirty == old(game).dirty
                &&& final(game).original_sgf_path == old(game).original_sgf_path
                &&& final(game).move_idx as int == (match spec_parse_usize(old(input)@) {
                    Option::Some(x) => if x <= old(game).moves@.len() {
                        x as int
                    } else {
                        old(game).move_idx as int
                    },
                    Option::None => old(game).move_idx as int,
                })
            },
            Key::Char(c) => {
                &&& r is None
                &&& *final(game) == *old(game)
                &&& final(input)@ == (if crate::text::is_digit_char(c) {
                    old(input)@.push(c)
                } else {
                    old(input)@
                })
            },
            Key::Backspace => {
                &&& r is None
                &&& *final(game) == *old(game)
                &&& final(input)@ == (if old(input)@.len() > 0 {
                    old(input)@.drop_last()
                } else {
                    old(input)@
                })
            },
            _ => r is None && *final(input) == *old(input) && *final(game) == *old(game),
        },
{
    match key {
        Key::Esc => Some(UiMode::Normal),
        Key::Enter => {
            let cs = str_to_chars(input.as_str());
            if let Some(x) = parse_usize_chars(&cs) {
                if x <= game.moves.len() {
                    game.goto(x);
                }
            }
            Some(UiMode::Normal)
        },
        Key::Char(c) => {
            if '0' <= *c && *c <= '9' {
                string_push(input, *c);
            }
            None
        },
        Key::Backspace => {
            string_pop(input);
            None
        },
        _ => None,
    }
}

/// Collects a coordinate; Enter rewrites the current move's coordinate in
/// place when the input names an in-bounds point and a move is current.
pub fn handle_modify_move_input(key: &Key, input: &mut String, game: &mut GoGame) -> (r: Option<
    UiMode,
>)
    requires
        old(game).wf(),
    ensures
        final(game).wf(),
        match *key {
            Key::Esc => r == Option::Some(UiMode::Normal) && *final(input) == *old(input)
                && *final(game) == *old(game),
            Key::Enter => {
                &&& r == Option::Some(UiMode::Normal)
                &&& *final(input) == *old(input)
                &&& match rowcol_dec(old(input)@) {
                    Option::Some(c) => if coord_in_bounds(old(game).doc().board_size, c) && 1 <= old(
                        game,
                    ).move_idx <= old(game).moves@.len() {
                        &&& final(game).doc() == (SgfView {
                            moves: old(game).doc().moves.update(
                                old(game).move_idx - 1,
                                MoveView {
                                    x: c.0,
                                    y: c.1,
                                    ..old(game).doc().moves[old(game).move_idx - 1]
                                },
                            ),
                            ..old(game).doc()
                        })
                        &&& final(game).move_idx == old(game).move_idx
                        &&& final(game).dirty
                        &&& final(game).original_sgf_path == old(game).original_sgf_path
                    } else {
                        *final(game) == *old(game)
                    },
                    Option::None => *final(game) == *old(game),
                }
            },
            Key::Char(c) => {
                &&& r is None
                &&& *final(game) == *old(game)
                &&& final(input)@ == (if crate::text::is_lower_letter(c) && old(input)@.len() < 2 {
                    old(input)@.push(c)
                } else {
                    old(input)@
                })
            },
            Key::Backspace => {
                &&& r is None
                &&& *final(game) == *old(game)
                &&& final(input)@ == (if old(input)@.len() > 0 {
                    old(input)@.drop_last()
                } else {
                    old(input)@
                })
            },
            _ => r is None && *final(input) == *old(input) && *final(game) == *old(game),
        },
{
    match key {
        Key::Esc => Some(UiMode::Normal),
        Key::Enter => {
            if let Some((x, y)) = parse_rowcol(input.as_str()) {
                if x < game.board_size && y < game.board_size && game.move_idx > 0 && game.move_idx
                    <= game.moves.len() {
                    let pos = game.move_idx - 1;
                    game.relocate_move(pos, x, y);
                } else {
                    proof {
                        assert(!(coord_in_bounds(old(game).doc().board_size, (x as int, y as int))
                            && 1 <= old(game).move_idx <= old(game).moves@.len()));
                    }
                }
            }
            Some(UiMode::Normal)
        },
        Key::Char(c) => {
            if 'a' <= *c && *c <= 'z' && input.unicode_len() < 2 {
                string_push(input, *c);
            }
            None
        },
        Key::Backspace => {
            string_pop(input);
            None
        },
        _ => None,
    }
}

/// Collects a coordinate; Enter jumps to just after the first move played
/// there, when one exists.
pub fn handle_search_coord_input(key: &Key, input: &mut String, game: &mut GoGame) -> (r: Option<
    UiMode,
>)
    requires
        old(game).wf(),
    ensures
        final(game).wf(),
        match *key {
            Key::Esc => r == Option::Some(UiMode::Normal) && *final(input) == *old(input)
                && *final(game) == *old(game),
            Key::Enter => {
                &&& r == Option::Some(UiMode::Normal)
                &&& *final(input) == *old(input)
                &&& final(game).doc() == old(game).doc()
                &&& final(game).dirty == old(game).dirty
                &&& final(game).original_sgf_path == old(game).original_sgf_path
                &&& match rowcol_dec(old(input)@) {
                    Option::Some(c) => if coord_in_bounds(old(game).doc().board_size, c) {
                        if exists|i: int|
                            0 <= i < old(game).doc().moves.len() && (#[trigger] old(
                                game,
                            ).doc().moves[i]).x == c.0 && old(game).doc().moves[i].y == c.1 {
                            &&& 1 <= final(game).move_idx <= old(game).doc().moves.len()
                            &&& old(game).doc().moves[final(game).move_idx - 1].x == c.0
                            &&& old(game).doc().moves[final(game).move_idx - 1].y == c.1
                            &&& forall|j: int|
                                0 <= j < final(game).move_idx - 1 ==> !((#[trigger] old(
                                    game,
                                ).doc().moves[j]).x == c.0 && old(game).doc().moves[j].y == c.1)
                        } else {
                            final(game).move_idx == old(game).move_idx
                        }
                    } else {
                        final(game).move_idx == old(game).move_idx
                    },
                    Option::None => final(game).move_idx == old(game).move_idx,
                }
            },
            Key::Char(c) => {
                &&& r is None
                &&& *final(game) == *old(game)
                &&& final(input)@ == (if crate::text::is_lower_letter(c) && old(input)@.len() < 2 {
                    old(input)@.push(c)
                } else {
                    old(input)@
                })
            },
            Key::Backspace => {
                &&& r is None
                &&& *final(game) == *old(game)
                &&& final(input)@ == (if old(input)@.len() > 0 {
                    old(input)@.drop_last()
                } else {
                    old(input)@
                })
            },
            _ => r is None && *final(input) == *old(input) && *final(game) == *old(game),
        },
{
    match key {
        Key::Esc => Some(UiMode::Normal),
        Key::Enter => {
            if let Some((x, y)) = parse_rowcol(input.as_str()) {
                if x < game.board_size && y < game.board_size {
                    if let Some(idx) = game.find_by_coordinate(x, y) {
                        let n = game.moves.len();
                        proof {
                            assert(idx < n);
                        }
                        game.goto(idx + 1);
                    }
                }
            }
            Some(UiMode::Normal)
        },
        Key::Char(c) => {
            if 'a' <= *c && *c <= 'z' && input.unicode_len() < 2 {
                string_push(input, *c);
            }
            None
        },
        Key::Backspace => {
            string_pop(input);
            None
        },
        _ => None,
    }
}

/// Collects comment text; Enter stores it as the current move's comment
/// proper, keeping the label suffix.  The separator character cannot be
/// typed.
pub fn handle_edit_comment_input(key: &Key, input: &mut String, game: &mut GoGame) -> (r: Option<
    UiMode,
>)
    requires
        old(game).wf(),
    ensures
        final(game).wf(),
        match *key {
            Key::Esc => r == Option::Some(UiMode::Normal) && *final(input) == *old(input)
                && *final(game) == *old(game),
            Key::Enter => {
                &&& r == Option::Some(UiMode::Normal)
                &&& *final(input) == *old(input)
                &&& if 1 <= old(game).move_idx <= old(game).moves@.len() {
                    &&& final(game).doc() == (SgfView {
                        moves: old(game).doc().moves.update(
                            old(game).move_idx - 1,
                            MoveView {
                                comment: encode_side(
                                    trim_spaces(old(input)@),
                                    labels_of(
                                        stored_comment(
                                            old(game).doc().moves[old(game).move_idx - 1],
                                        ),
                                    ),
                                ),
                                ..old(game).doc().moves[old(game).move_idx - 1]
                            },
                        ),
                        ..old(game).doc()
                    })
                    &&& final(game).move_idx == old(game).move_idx
                    &&& final(game).dirty
                    &&& final(game).original_sgf_path == old(game).original_sgf_path
                } else {
                    *final(game) == *old(game)
                }
            },
            Key::Char(c) => {
                &&& r is None
                &&& *final(game) == *old(game)
                &&& final(input)@ == (if c != '_' {
                    old(input)@.push(c)
                } else {
                    old(input)@
                })
            },
            Key::Backspace => {
                &&& r is None
                &&& *final(game) == *old(game)
                &&& final(input)@ == (if old(input)@.len() > 0 {
                    old(input)@.drop_last()
                } else {
                    old(input)@
                })
            },
            _ => r is None && *final(input) == *old(input) && *final(game) == *old(game),
        },
{
    match key {
        Key::Esc => Some(UiMode::Normal),
        Key::Enter => {
            if game.move_idx > 0 && game.move_idx <= game.moves.len() {
                let cs = str_to_chars(input.as_str());
                let t = trimmed_chars(&cs);
                let text = chars_to_string(&t);
                let pos = game.move_idx - 1;
                game.set_comment(pos, text.as_str());
            }
            Some(UiMode::Normal)
        },
        Key::Char(c) => {
            if *c != '_' {
                string_push(input, *c);
            }
            None
        },
        Key::Backspace => {
            string_pop(input);
            None
        },
        _ => None,
    }
}

/// Collects comma-separated labels; Enter stores them as the current move's
/// label suffix, keeping the comment proper.
pub fn handle_edit_label_input(key: &Key, input: &mut String, game: &mut GoGame) -> (r: Option<
    UiMode,
>)
    requires
        old(game).wf(),
    ensures
        final(game).wf(),
        match *key {
            Key::Esc => r == Option::Some(UiMode::Normal) && *final(input) == *old(input)
                && *final(game) == *old(game),
            Key::Enter => {
                &&& r == Option::Some(UiMode::Normal)
                &&& *final(input) == *old(input)
                &&& if 1 <= old(game).move_idx <= old(game).moves@.len() {
                    &&& final(game).doc() == (SgfView {
                        moves: old(game).doc().moves.update(
                            old(game).move_idx - 1,
                            MoveView {
                                comment: encode_side(
                                    comment_proper(
                                        stored_comment(
                                            old(game).doc().moves[old(game).move_idx - 1],
                                        ),
                                    ),
                                    labels_of_input(old(input)@),
                                ),
                                ..old(game).doc().moves[old(game).move_idx - 1]
                            },
                        ),
                        ..old(game).doc()
                    })
                    &&& final(game).move_idx == old(game).move_idx
                    &&& final(game).dirty
                    &&& final(game).original_sgf_path == old(game).original_sgf_path
                } else {
                    *final(game) == *old(game)
                }
            },
            Key::Char(c) => {
                &&& r is None
                &&& *final(game) == *old(game)
                &&& final(input)@ == old(input)@.push(c)
            },
            Key::Backspace => {
                &&& r is None
                &&& *final(game) == *old(game)
                &&& final(input)@ == (if old(input)@.len() > 0 {
                    old(input)@.drop_last()
                } else {
                    old(input)@
                })
            },
            _ => r is None && *final(input) == *old(input) && *final(game) == *old(game),
        },
{
    match key {
        Key::Esc => Some(UiMode::Normal),
        Key::Enter => {
            if game.move_idx > 0 && game.move_idx <= game.moves.len() {
                let labels = parse_labels(input.as_str());
                let pos = game.move_idx - 1;
                game.set_labels(pos, &labels);
            }
            Some(UiMode::Normal)
        },
        Key::Char(c) => {
            string_push(input, *c);
            None
        },
        Key::Backspace => {
            string_pop(input);
            None
        },
        _ => None,
    }
}

/// Collects comma-separated coordinates; Enter replaces the current move's
/// triangle annotations with the in-bounds ones among them.
pub fn handle_edit_triangles_input(key: &Key, input: &mut String, game: &mut GoGame) -> (r: Option<
    UiMode,
>)
    requires
        old(game).wf(),
    ensures
        final(game).wf(),
        match *key {
            Key::Esc => r == Option::Some(UiMode::Normal) && *final(input) == *old(input)
                && *final(game) == *old(game),
            Key::Enter => {
                &&& r == Option::Some(UiMode::Normal)
                &&& *final(input) == *old(input)
                &&& if 1 <= old(game).move_idx <= old(game).moves@.len() {
                    &&& final(game).doc() == (SgfView {
                        moves: old(game).doc().moves.update(
                            old(game).move_idx - 1,
                            MoveView {
                                triangles: crate::game::filter_bounded(
                                    parsed_triangles(old(input)@),
                                    old(game).doc().board_size,
                                ),
                                ..old(game).doc().moves[old(game).move_idx - 1]
                            },
                        ),
                        ..old(game).doc()
                    })
                    &&& final(game).move_idx == old(game).move_idx
                    &&& final(game).dirty
                    &&& final(game).original_sgf_path == old(game).original_sgf_path
                } else {
                    *final(game) == *old(game)
                }
            },
            Key::Char(c) => {
                &&& r is None
                &&& *final(game) == *old(game)
                &&& final(input)@ == old(input)@.push(c)
            },
            Key::Backspace => {
                &&& r is None
                &&& *final(game) == *old(game)
                &&& final(input)@ == (if old(input)@.len() > 0 {
                    old(input)@.drop_last()
                } else {
                    old(input)@
                })
            },
            _ => r is None && *final(input) == *old(input) && *final(game) == *old(game),
        },
{
    match key {
        Key::Esc => Some(UiMode::Normal),
        Key::Enter => {
            if game.move_idx > 0 && game.move_idx <= game.moves.len() {
                let coords = parse_coord_list(input.as_str());
                let pos = game.move_idx - 1;
                game.set_triangles(pos, &coords);
            }
            Some(UiMode::Normal)
        },
        Key::Char(c) => {
            string_push(input, *c);
            None
        },
        Key::Backspace => {
            string_pop(input);
            None
        },
        _ => None,
    }
}

/// Collects a coordinate and a color; Enter inserts a new move at the
/// cursor when the input names an in-bounds point, and Tab toggles the
/// color.
pub fn handle_insert_move_input(
    key: &Key,
    input: &mut String,
    color: &mut Player,
    game: &mut GoGame,
) -> (r: Option<UiMode>)
    requires
        old(game).wf(),
    ensures
        final(game).wf(),
        match *key {
            Key::Esc => r == Option::Some(UiMode::Normal) && *final(input) == *old(input)
                && *final(color) == *old(color) && *final(game) == *old(game),
            Key::Tab => {
                &&& r is None
                &&& *final(input) == *old(input)
                &&& *final(color) == opposite(*old(color))
                &&& *final(game) == *old(game)
            },
            Key::Enter => {
                &&& r == Option::Some(UiMode::Normal)
                &&& *final(input) == *old(input)
                &&& *final(color) == *old(color)
                &&& match rowcol_dec(old(input)@) {
                    Option::Some(c) => if coord_in_bounds(old(game).doc().board_size, c) {
                        &&& final(game).doc() == (SgfView {
                            moves: old(game).doc().moves.insert(
                                old(game).move_idx as int,
                                MoveView {
                                    player: *old(color),
                                    x: c.0,
                                    y: c.1,
                                    comment: Option::None,
                                    triangles: Seq::empty(),
                                },
                            ),
                            ..old(game).doc()
                        })
                        &&& final(game).move_idx == old(game).move_idx + 1
                        &&& final(game).dirty
                        &&& final(game).original_sgf_path == old(game).original_sgf_path
                    } else {
                        *final(game) == *old(game)
                    },
                    Option::None => *final(game) == *old(game),
                }
            },
            Key::Char(c) => {
                &&& r is None
                &&& *final(game) == *old(game)
                &&& *final(color) == *old(color)
                &&& final(input)@ == (if crate::text::is_lower_letter(c) && old(input)@.len() < 2 {
                    old(input)@.push(c)
                } else {
                    old(input)@
                })
            },
            Key::Backspace => {
                &&& r is None
                &&& *final(game) == *old(game)
                &&& *final(color) == *old(color)
                &&& final(input)@ == (if old(input)@.len() > 0 {
                    old(input)@.drop_last()
                } else {
                    old(input)@
                })
            },
            _ => r is None && *final(input) == *old(input) && *final(color) == *old(color)
                && *final(game) == *old(game),
        },
{
    match key {
        Key::Esc => Some(UiMode::Normal),
        Key::Tab => {
            *color = match color {
                Player::Black => Player::White,
                Player::White => Player::Black,
            };
            None
        },
        Key::Enter => {
            if let Some((x, y)) = parse_rowcol(input.as_str()) {
                if x < game.board_size && y < game.board_size {
                    let pos = game.move_idx;
                    let pl = *color;
                    game.insert_move(pos, pl, x, y);
                }
            }
            Some(UiMode::Normal)
        },
        Key::Char(c) => {
            if 'a' <= *c && *c <= 'z' && input.unicode_len() < 2 {
                string_push(input, *c);
            }
            None
        },
        Key::Backspace => {
            string_pop(input);
            None
        },
        _ => None,
    }
}

/// Dispatches a keystroke in normal mode: navigation, deletion, and entry
/// into the modal input states, whose initial buffers are derived from the
/// current move's side data.
pub fn handle_normal_input(key: &Key, game: &mut GoGame) -> (r: UiAction)
    requires
        old(game).wf(),
    ensures
        final(game).wf(),
        match *key {
            Key::Char(c) => if c == 'i' {
                &&& *final(game) == *old(game)
                &&& (r matches UiAction::ChangeMode(m) && (m matches UiMode::InsertMoveInput {
                    input: inp,
                    color: col,
                } && inp@ == Seq::<char>::empty() && col == (if 1 <= old(game).move_idx <= old(
                    game,
                ).moves@.len() {
                    opposite(old(game).doc().moves[old(game).move_idx - 1].player)
                } else {
                    Player::Black
                })))
            } else if c == 'x' {
                &&& r is Continue
                &&& if 1 <= old(game).move_idx <= old(game).moves@.len() {
                    &&& final(game).doc() == (SgfView {
                        moves: old(game).doc().moves.remove(old(game).move_idx - 1),
                        ..old(game).doc()
                    })
                    &&& final(game).move_idx == old(game).move_idx - 1
                    &&& final(game).dirty
                    &&& final(game).original_sgf_path == old(game).original_sgf_path
                } else {
                    *final(game) == *old(game)
                }
            } else if c == 'q' {
                r is Quit && *final(game) == *old(game)
            } else if c == 'n' {
                &&& r is Continue
                &&& final(game).doc() == old(game).doc()
                &&& final(game).dirty == old(game).dirty
                &&& final(game).original_sgf_path == old(game).original_sgf_path
                &&& final(game).move_idx as int == (if old(game).move_idx < old(
                    game,
                ).moves@.len() {
                    old(game).move_idx + 1
                } else {
                    old(game).move_idx as int
                })
            } else if c == 'p' {
                &&& r is Continue
                &&& final(game).doc() == old(game).doc()
                &&& final(game).dirty == old(game).dirty
                &&& final(game).original_sgf_path == old(game).original_sgf_path
                &&& final(game).move_idx as int == (if old(game).move_idx > 0 {
                    old(game).move_idx - 1
                } else {
                    0int
                })
            } else if c == ']' {
                &&& r is Continue
                &&& final(game).doc() == old(game).doc()
                &&& final(game).dirty == old(game).dirty
                &&& final(game).original_sgf_path == old(game).original_sgf_path
                &&& ((forall|j: int|
                    old(game).move_idx <= j < old(game).doc().moves.len() ==> !annotated(
                        #[trigger] old(game).doc().moves[j],
                    )) ==> final(game).move_idx == old(game).move_idx)
                &&& ((exists|j: int|
                    old(game).move_idx <= j < old(game).doc().moves.len() && annotated(
                        #[trigger] old(game).doc().moves[j],
                    )) ==> {
                    &&& old(game).move_idx < final(game).move_idx <= old(game).doc().moves.len()
                    &&& annotated(old(game).doc().moves[final(game).move_idx - 1])
                    &&& forall|j: int|
                        old(game).move_idx <= j < final(game).move_idx - 1 ==> !annotated(
                            #[trigger] old(game).doc().moves[j],
                        )
                })
            } else if c == '[' {
                &&& r is Continue
                &&& final(game).doc() == old(game).doc()
                &&& final(game).dirty == old(game).dirty
                &&& final(game).original_sgf_path == old(game).original_sgf_path
                &&& ((old(game).move_idx < 2 || forall|j: int|
                    0 <= j <= old(game).move_idx - 2 ==> !annotated(
                        #[trigger] old(game).doc().moves[j],
                    )) ==> final(game).move_idx == old(game).move_idx)
                &&& ((old(game).move_idx >= 2 && exists|j: int|
                    0 <= j <= old(game).move_idx - 2 && annotated(
                        #[trigger] old(game).doc().moves[j],
                    )) ==> {
                    &&& 1 <= final(game).move_idx <= old(game).move_idx - 1
                    &&& annotated(old(game).doc().moves[final(game).move_idx - 1])
                    &&& forall|j: int|
                        final(game).move_idx - 1 < j <= old(game).move_idx - 2 ==> !annotated(
                            #[trigger] old(game).doc().moves[j],
                        )
                })
            } else if c == 'g' {
                &&& *final(game) == *old(game)
                &&& (r matches UiAction::ChangeMode(m) && (m matches UiMode::GotoMoveInput {
                    input: inp,
                } && inp@ == Seq::<char>::empty()))
            } else if c == 'm' {
                &&& *final(game) == *old(game)
                &&& (r matches UiAction::ChangeMode(m) && (m matches UiMode::ModifyMoveInput {
                    input: inp,
                } && inp@ == Seq::<char>::empty()))
            } else if c == 'h' {
                &&& *final(game) == *old(game)
                &&& (r matches UiAction::ChangeMode(m) && m is HotkeyHelp)
            } else if c == '/' {
                &&& *final(game) == *old(game)
                &&& (r matches UiAction::ChangeMode(m) && (m matches UiMode::SearchCoordInput {
                    input: inp,
                } && inp@ == Seq::<char>::empty()))
            } else if c == 'c' {
                &&& *final(game) == *old(game)
                &&& if 1 <= old(game).move_idx <= old(game).moves@.len() {
                    r matches UiAction::ChangeMode(m) && (m matches UiMode::EditCommentInput {
                        input: inp,
                    } && inp@ == comment_proper(
                        stored_comment(old(game).doc().moves[old(game).move_idx - 1]),
                    ))
                } else {
                    r is Continue
                }
            } else if c == 'l' {
                &&& *final(game) == *old(game)
                &&& if 1 <= old(game).move_idx <= old(game).moves@.len() {
                    r matches UiAction::ChangeMode(m) && (m matches UiMode::EditLabelInput {
                        input: inp,
                    } && inp@ == join_commas(
                        labels_of(stored_comment(old(game).doc().moves[old(game).move_idx - 1])),
                    ))
                } else {
                    r is Continue
                }
            } else if c == 't' {
                &&& *final(game) == *old(game)
                &&& (r matches UiAction::ChangeMode(m) && (m matches UiMode::EditTrianglesInput {
                    input: inp,
                } && inp@ == join_comma_coords(
                    if 1 <= old(game).move_idx <= old(game).moves@.len() {
                        old(game).doc().moves[old(game).move_idx - 1].triangles
                    } else {
                        Seq::<(int, int)>::empty()
                    },
                )))
            } else {
                r is Continue && *final(game) == *old(game)
            },
            Key::Right => {
                &&& r is Continue
                &&& final(game).doc() == old(game).doc()
                &&& final(game).dirty == old(game).dirty
                &&& final(game).original_sgf_path == old(game).original_sgf_path
                &&& final(game).move_idx as int == (if old(game).move_idx < old(
                    game,
                ).moves@.len() {
                    old(game).move_idx + 1
                } else {
                    old(game).move_idx as int
                })
            },
            Key::Left => {
                &&& r is Continue
                &&& final(game).doc() == old(game).doc()
                &&& final(game).dirty == old(game).dirty
                &&& final(game).original_sgf_path == old(game).original_sgf_path
                &&& final(game).move_idx as int == (if old(game).move_idx > 0 {
                    old(game).move_idx - 1
                } else {
                    0int
                })
            },
            _ => r is Continue && *final(game) == *old(game),
        },
{
    match key {
        Key::Char(c) => {
            if *c == 'i' {
                let color = if game.move_idx > 0 && game.move_idx <= game.moves.len() {
                    proof {
                        assert(game.moves@[game.move_idx - 1]@ == game.doc().moves[game.move_idx
                            - 1]);
                    }
                    match game.moves[game.move_idx - 1].player {
                        Player::Black => Player::White,
                        Player::White => Player::Black,
                    }
                } else {
                    Player::Black
                };
                UiAction::ChangeMode(UiMode::InsertMoveInput { input: String::new(), color })
            } else if *c == 'x' {
                if game.move_idx > 0 && game.move_idx <= game.moves.len() {
                    let pos = game.move_idx - 1;
                    game.delete_move(pos);
                }
                UiAction::Continue
            } else if *c == 'q' {
                UiAction::Quit
            } else if *c == 'n' {
                game.next_move();
                UiAction::Continue
            } else if *c == 'p' {
                game.prev_move();
                UiAction::Continue
            } else if *c == ']' {
                match game.next_annotated() {
                    Some(i) => {
                        let n = game.moves.len();
                        proof {
                            assert(i < n);
                        }
                        game.goto(i + 1);
                    },
                    None => {},
                }
                UiAction::Continue
            } else if *c == '[' {
                match game.prev_annotated() {
                    Some(i) => {
                        let n = game.moves.len();
                        proof {
                            assert(i + 1 < game.move_idx <= n);
                        }
                        game.goto(i + 1);
                    },
                    None => {},
                }
                UiAction::Continue
            } else if *c == 'g' {
                UiAction::ChangeMode(UiMode::GotoMoveInput { input: String::new() })
            } else if *c == 'm' {
                UiAction::ChangeMode(UiMode::ModifyMoveInput { input: String::new() })
            } else if *c == 'h' {
                UiAction::ChangeMode(UiMode::HotkeyHelp)
            } else if *c == '/' {
                UiAction::ChangeMode(UiMode::SearchCoordInput { input: String::new() })
            } else if *c == 'c' {
                if game.move_idx > 0 && game.move_idx <= game.moves.len() {
                    proof {
                        assert(game.moves@[game.move_idx - 1]@ == game.doc().moves[game.move_idx
                            - 1]);
                    }
                    let stored: String = match &game.moves[game.move_idx - 1].comment {
                        Some(s) => s.clone(),
                        None => String::new(),
                    };
                    let (proper, _labels) = decode_side_channel(stored.as_str());
                    UiAction::ChangeMode(UiMode::EditCommentInput { input: proper })
                } else {
                    UiAction::Continue
                }
            } else if *c == 'l' {
                if game.move_idx > 0 && game.move_idx <= game.moves.len() {
                    proof {
                        assert(game.moves@[game.move_idx - 1]@ == game.doc().moves[game.move_idx
                            - 1]);
                    }
                    let stored: String = match &game.moves[game.move_idx - 1].comment {
                        Some(s) => s.clone(),
                        None => String::new(),
                    };
                    let (_proper, labels) = decode_side_channel(stored.as_str());
                    let joined = joined_commas(&labels);
                    UiAction::ChangeMode(UiMode::EditLabelInput { input: joined })
                } else {
                    UiAction::Continue
                }
            } else if *c == 't' {
                let tris = game.current_triangles();
                proof {
                    let tv = crate::sgf_parser::upairs_view(tris@);
                    assert forall|i: int| 0 <= i < tris@.len() implies (#[trigger] tris@[i]).0 < 26
                        && tris@[i].1 < 26 by {
                        assert(tv[i] == (tris@[i].0 as int, tris@[i].1 as int));
                        if 1 <= game.move_idx <= game.moves@.len() {
                            let m = game.doc().moves[game.move_idx - 1];
                            assert(crate::sgf_parser::move_wf(game.doc().board_size, m));
                            assert(tv == m.triangles);
                            assert(coord_in_bounds(game.doc().board_size, m.triangles[i]));
                        } else {
                            assert(tv.len() == 0);
                        }
                    }
                }
                let input = triangles_input(&tris);
                UiAction::ChangeMode(UiMode::EditTrianglesInput { input })
            } else {
                UiAction::Continue
            }
        },
        Key::Right => {
            game.next_move();
            UiAction::Continue
        },
        Key::Left => {
            game.prev_move();
            UiAction::Continue
        },
        _ => UiAction::Continue,
    }
}

} // verus!
