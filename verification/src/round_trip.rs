//! The round-trip law: parsing what the serializer emitted yields the same
//! document.
//!
//! The proof runs in two layers.  The scanning layer shows that the token
//! stream of a serialized document is exactly one token per emitted property,
//! in order.  The folding layer shows that dispatching those tokens rebuilds
//! the document field for field.

use vstd::prelude::*;

use crate::sgf_parser::{
    ab_key, apply_prop, aw_key, b_key, c_key, coord_in_bounds, coords_of_values, dec_bounded,
    dec_digits, doc_rt_wf, empty_pdoc, enc_coord, esc_comment, find_close, fold_props, key_ok,
    lemma_enc_dec_coord, lemma_esc_comment_id, lemma_find_close_eq, lemma_upper_run_len_eq,
    md_chunks, md_entry_ok, move_chunk, move_wf, moves_chunks, MoveView, parse_spec, PDoc,
    player_key, prop_chunk, scan_props, scan_values, seq_has_char, serial_of, size_after,
    stones_chunks, structural_key, sz_key, sz_of_values, tr_key, upper_run_len, values_chunk,
    w_key, Player, SgfView,
};
use crate::game::{filter_bounded, lemma_filter_bounded_in_bounds, stored_comment};
use crate::side_channel::{
    comment_proper as side_comment_proper, encode_side, labels_of as side_labels_of,
    lemma_decode_side_no_char, lemma_encode_side_no_char,
};
use crate::text::{all_digits, digit_val, digits_val, is_lower_letter, is_upper_char, spec_parse_usize};

verus! {

// ---------------------------------------------------------------------------
// The token stream a serialized document must produce
// ---------------------------------------------------------------------------

pub open spec fn md_tokens(md: Seq<(Seq<char>, Seq<char>)>) -> Seq<(Seq<char>, Seq<Seq<char>>)>
    decreases md.len(),
{
    if md.len() == 0 {
        seq![]
    } else {
        seq![(md[0].0, seq![md[0].1])] + md_tokens(md.subrange(1, md.len() as int))
    }
}

pub open spec fn stone_tokens(key: Seq<char>, cs: Seq<(int, int)>) -> Seq<
    (Seq<char>, Seq<Seq<char>>),
>
    decreases cs.len(),
{
    if cs.len() == 0 {
        seq![]
    } else {
        seq![(key, seq![enc_coord(cs[0].0, cs[0].1)])] + stone_tokens(
            key,
            cs.subrange(1, cs.len() as int),
        )
    }
}

pub open spec fn move_tokens(m: MoveView) -> Seq<(Seq<char>, Seq<Seq<char>>)> {
    seq![(player_key(m.player), seq![enc_coord(m.x, m.y)])] + stone_tokens(tr_key(), m.triangles)
        + (match m.comment {
        Option::Some(c) => seq![(c_key(), seq![esc_comment(c)])],
        Option::None => seq![],
    })
}

pub open spec fn moves_tokens(ms: Seq<MoveView>) -> Seq<(Seq<char>, Seq<Seq<char>>)>
    decreases ms.len(),
{
    if ms.len() == 0 {
        seq![]
    } else {
        move_tokens(ms[0]) + moves_tokens(ms.subrange(1, ms.len() as int))
    }
}

/// The full token stream of a serialized document.
pub open spec fn props_of_doc(d: SgfView) -> Seq<(Seq<char>, Seq<Seq<char>>)> {
    seq![(sz_key(), seq![dec_digits(d.board_size)])] + md_tokens(d.metadata) + stone_tokens(
        ab_key(),
        d.ab,
    ) + stone_tokens(aw_key(), d.aw) + moves_tokens(d.moves)
}

/// The continuation after a property must not begin with a value bracket, or
/// the scanner would absorb it into the property.
pub open spec fn head_not_lb(s: Seq<char>) -> bool {
    s.len() == 0 || s[0] != '['
}

// ---------------------------------------------------------------------------
// Scanning layer
// ---------------------------------------------------------------------------

/// A character that cannot start a property is skipped.
pub proof fn lemma_scan_junk(c: char, rest: Seq<char>)
    requires
        !is_upper_char(c),
    ensures
        scan_props(seq![c] + rest) == scan_props(rest),
{
    let s = seq![c] + rest;
    assert(s.len() > 0 && s[0] == c);
    assert(s.subrange(1, s.len() as int) =~= rest);
}

/// Scanning the emitted text of a value list yields exactly those values and
/// consumes exactly that text.
pub proof fn lemma_scan_values_chunk(values: Seq<Seq<char>>, rest: Seq<char>)
    requires
        forall|i: int| 0 <= i < values.len() ==> !seq_has_char(#[trigger] values[i], ']'),
        head_not_lb(rest),
    ensures
        scan_values(values_chunk(values) + rest) == (values, values_chunk(values).len() as nat),
    decreases values.len(),
{
    let s = values_chunk(values) + rest;
    if values.len() == 0 {
        assert(s =~= rest);
        assert(scan_values(s).0 =~= values);
    } else {
        let v0 = values[0];
        let tailv = values.subrange(1, values.len() as int);
        assert(values_chunk(values) == seq!['['] + v0 + seq![']'] + values_chunk(tailv));
        assert(s[0] == '[');
        let inner = s.subrange(1, s.len() as int);
        assert(inner =~= v0 + seq![']'] + values_chunk(tailv) + rest);
        assert(!seq_has_char(v0, ']'));
        assert forall|i: int| 0 <= i < v0.len() implies #[trigger] inner[i] != ']' by {
            assert(inner[i] == v0[i]);
        }
        assert(inner[v0.len() as int] == ']');
        lemma_find_close_eq(inner, v0.len() as int);
        let j = v0.len() as int;
        assert(find_close(inner) == j);
        assert(s.len() >= v0.len() + 2);
        assert(j < s.len() - 1);
        assert(s.subrange(1, 1 + j) =~= v0);
        let after = s.subrange(2 + j, s.len() as int);
        assert(after =~= values_chunk(tailv) + rest);
        assert forall|i: int| 0 <= i < tailv.len() implies !seq_has_char(
            #[trigger] tailv[i],
            ']',
        ) by {
            assert(tailv[i] == values[i + 1]);
        }
        lemma_scan_values_chunk(tailv, rest);
        assert(scan_values(s).0 =~= values);
        assert(scan_values(s).1 == values_chunk(values).len());
    }
}

/// Scanning the emitted text of one property yields exactly that token and
/// then continues with the rest.
pub proof fn lemma_scan_token(key: Seq<char>, values: Seq<Seq<char>>, rest: Seq<char>)
    requires
        key_ok(key),
        values.len() >= 1,
        forall|i: int| 0 <= i < values.len() ==> !seq_has_char(#[trigger] values[i], ']'),
        head_not_lb(rest),
    ensures
        scan_props(prop_chunk(key, values) + rest) == seq![(key, values)] + scan_props(rest),
{
    let s = prop_chunk(key, values) + rest;
    assert(s[0] == key[0]);
    assert(is_upper_char(s[0]));
    let k = key.len() as int;
    assert(values_chunk(values)[0] == '[');
    assert forall|i: int| 0 <= i < k implies is_upper_char(#[trigger] s[i]) by {
        assert(s[i] == key[i]);
    }
    assert(s[k] == '[');
    lemma_upper_run_len_eq(s, k);
    assert(upper_run_len(s) == k);
    let tail_k = s.subrange(k, s.len() as int);
    assert(tail_k =~= values_chunk(values) + rest);
    lemma_scan_values_chunk(values, rest);
    assert(scan_values(tail_k).0 == values);
    assert(scan_values(tail_k).1 == values_chunk(values).len());
    assert(s.subrange(0, k) =~= key);
    assert(s.subrange(k + values_chunk(values).len(), s.len() as int) =~= rest);
    assert(scan_props(s) =~= seq![(key, values)] + scan_props(rest));
}

/// Scanning the emitted metadata entries yields one token per entry.
pub proof fn lemma_scan_md_chunks(md: Seq<(Seq<char>, Seq<char>)>, rest: Seq<char>)
    requires
        forall|i: int| 0 <= i < md.len() ==> md_entry_ok(#[trigger] md[i]),
        head_not_lb(rest),
    ensures
        scan_props(md_chunks(md) + rest) == md_tokens(md) + scan_props(rest),
    decreases md.len(),
{
    if md.len() == 0 {
        assert(md_chunks(md) + rest =~= rest);
        assert(md_tokens(md) + scan_props(rest) =~= scan_props(rest));
    } else {
        let e = md[0];
        let tail = md.subrange(1, md.len() as int);
        assert(md_entry_ok(e));
        assert forall|i: int| 0 <= i < tail.len() implies md_entry_ok(#[trigger] tail[i]) by {
            assert(tail[i] == md[i + 1]);
        }
        let rest2 = md_chunks(tail) + rest;
        assert(md_chunks(md) + rest =~= prop_chunk(e.0, seq![e.1]) + rest2);
        assert(head_not_lb(rest2)) by {
            if tail.len() > 0 {
                assert(md_entry_ok(tail[0]));
                assert(md_chunks(tail)[0] == tail[0].0[0]);
                assert(is_upper_char(tail[0].0[0]));
                assert(rest2[0] == tail[0].0[0]);
            }
        }
        assert(forall|i: int| 0 <= i < seq![e.1].len() ==> !seq_has_char(#[trigger] seq![e.1][i], ']'));
        lemma_scan_token(e.0, seq![e.1], rest2);
        lemma_scan_md_chunks(tail, rest);
        assert(scan_props(md_chunks(md) + rest) =~= md_tokens(md) + scan_props(rest));
    }
}

/// Scanning emitted stones under one key yields one token per stone.
pub proof fn lemma_scan_stones_chunks(key: Seq<char>, cs: Seq<(int, int)>, rest: Seq<char>)
    requires
        key_ok(key),
        forall|i: int| 0 <= i < cs.len() ==> coord_in_bounds(26, #[trigger] cs[i]),
        head_not_lb(rest),
    ensures
        scan_props(stones_chunks(key, cs) + rest) == stone_tokens(key, cs) + scan_props(rest),
    decreases cs.len(),
{
    if cs.len() == 0 {
        assert(stones_chunks(key, cs) + rest =~= rest);
        assert(stone_tokens(key, cs) + scan_props(rest) =~= scan_props(rest));
    } else {
        let c = cs[0];
        let tail = cs.subrange(1, cs.len() as int);
        assert(coord_in_bounds(26, c));
        assert forall|i: int| 0 <= i < tail.len() implies coord_in_bounds(26, #[trigger] tail[i]) by {
            assert(tail[i] == cs[i + 1]);
        }
        let rest2 = stones_chunks(key, tail) + rest;
        assert(stones_chunks(key, cs) + rest =~= prop_chunk(key, seq![enc_coord(c.0, c.1)]) + rest2);
        assert(head_not_lb(rest2)) by {
            if tail.len() > 0 {
                assert(stones_chunks(key, tail)[0] == key[0]);
                assert(rest2[0] == key[0]);
                assert(is_upper_char(key[0]));
            }
        }
        let v = enc_coord(c.0, c.1);
        assert(!seq_has_char(v, ']')) by {
            assert(is_lower_letter(v[0]) && is_lower_letter(v[1]));
            assert(forall|i: int| 0 <= i < v.len() ==> #[trigger] v[i] != ']');
        }
        assert(forall|i: int| 0 <= i < seq![v].len() ==> !seq_has_char(#[trigger] seq![v][i], ']'));
        lemma_scan_token(key, seq![v], rest2);
        lemma_scan_stones_chunks(key, tail, rest);
        assert(scan_props(stones_chunks(key, cs) + rest) =~= stone_tokens(key, cs) + scan_props(
            rest,
        ));
    }
}

/// Scanning one emitted move yields its marker token, its triangle tokens,
/// and its comment token.
#[verifier::rlimit(100)]
pub proof fn lemma_scan_move_chunk(m: MoveView, rest: Seq<char>)
    requires
        move_wf(26, m),
        m.comment matches Option::Some(c) ==> !seq_has_char(c, ']'),
        head_not_lb(rest),
    ensures
        scan_props(move_chunk(m) + rest) == move_tokens(m) + scan_props(rest),
{
    let pk = player_key(m.player);
    assert(key_ok(pk)) by {
        match m.player {
            Player::Black => {
                assert(pk[0] == 'B');
            },
            Player::White => {
                assert(pk[0] == 'W');
            },
        }
    }
    let cpart: Seq<char> = match m.comment {
        Option::Some(c) => prop_chunk(c_key(), seq![esc_comment(c)]),
        Option::None => seq![],
    };
    let rest_c = cpart + rest;
    let rest_tr = stones_chunks(tr_key(), m.triangles) + rest_c;
    assert(move_chunk(m) + rest =~= seq![';'] + (prop_chunk(pk, seq![enc_coord(m.x, m.y)])
        + rest_tr));
    lemma_scan_junk(';', prop_chunk(pk, seq![enc_coord(m.x, m.y)]) + rest_tr);

    // The comment continuation starts with 'C' or is the outer rest.
    assert(head_not_lb(rest_c)) by {
        match m.comment {
            Option::Some(c) => {
                assert(cpart[0] == 'C');
                assert(rest_c[0] == 'C');
            },
            Option::None => {
                assert(rest_c =~= rest);
            },
        }
    }
    // The triangle continuation starts with 'T' or is the comment part.
    assert(head_not_lb(rest_tr)) by {
        if m.triangles.len() > 0 {
            assert(stones_chunks(tr_key(), m.triangles)[0] == tr_key()[0]);
            assert(rest_tr[0] == 'T');
        } else {
            assert(rest_tr =~= rest_c);
        }
    }
    let v = enc_coord(m.x, m.y);
    assert(!seq_has_char(v, ']')) by {
        assert(is_lower_letter(v[0]) && is_lower_letter(v[1]));
        assert(forall|i: int| 0 <= i < v.len() ==> #[trigger] v[i] != ']');
    }
    assert(forall|i: int| 0 <= i < seq![v].len() ==> !seq_has_char(#[trigger] seq![v][i], ']'));
    lemma_scan_token(pk, seq![v], rest_tr);

    assert(forall|i: int|
        0 <= i < m.triangles.len() ==> coord_in_bounds(26, #[trigger] m.triangles[i]));
    lemma_scan_stones_chunks(tr_key(), m.triangles, rest_c);

    match m.comment {
        Option::Some(c) => {
            lemma_esc_comment_id(c);
            assert(!seq_has_char(esc_comment(c), ']'));
            assert(forall|i: int|
                0 <= i < seq![esc_comment(c)].len() ==> !seq_has_char(
                    #[trigger] seq![esc_comment(c)][i],
                    ']',
                ));
            lemma_scan_token(c_key(), seq![esc_comment(c)], rest);
            assert(rest_c =~= prop_chunk(c_key(), seq![esc_comment(c)]) + rest);
        },
        Option::None => {
            assert(rest_c =~= rest);
        },
    }
    assert(scan_props(move_chunk(m) + rest) =~= move_tokens(m) + scan_props(rest));
}

/// Scanning the emitted move list yields each move's tokens in order.
pub proof fn lemma_scan_moves_chunks(ms: Seq<MoveView>, rest: Seq<char>)
    requires
        forall|i: int| 0 <= i < ms.len() ==> move_wf(26, #[trigger] ms[i]),
        forall|i: int|
            0 <= i < ms.len() ==> ((#[trigger] ms[i]).comment matches Option::Some(c)
                ==> !seq_has_char(c, ']')),
        head_not_lb(rest),
    ensures
        scan_props(moves_chunks(ms) + rest) == moves_tokens(ms) + scan_props(rest),
    decreases ms.len(),
{
    if ms.len() == 0 {
        assert(moves_chunks(ms) + rest =~= rest);
        assert(moves_tokens(ms) + scan_props(rest) =~= scan_props(rest));
    } else {
        let m = ms[0];
        let tail = ms.subrange(1, ms.len() as int);
        assert(move_wf(26, m));
        assert forall|i: int| 0 <= i < tail.len() implies move_wf(26, #[trigger] tail[i]) && (
        tail[i].comment matches Option::Some(c) ==> !seq_has_char(c, ']')) by {
            assert(tail[i] == ms[i + 1]);
        }
        let rest2 = moves_chunks(tail) + rest;
        assert(moves_chunks(ms) + rest =~= move_chunk(m) + rest2);
        assert(head_not_lb(rest2)) by {
            if tail.len() > 0 {
                assert(moves_chunks(tail)[0] == move_chunk(tail[0])[0]);
                assert(move_chunk(tail[0])[0] == ';');
                assert(rest2[0] == ';');
            } else {
                assert(rest2 =~= rest);
            }
        }
        lemma_scan_move_chunk(m, rest2);
        lemma_scan_moves_chunks(tail, rest);
        assert(scan_props(moves_chunks(ms) + rest) =~= moves_tokens(ms) + scan_props(rest));
    }
}

/// The token stream of a serialized well-formed document is one token per
/// emitted property.
#[verifier::rlimit(100)]
pub proof fn lemma_scan_serial(d: SgfView)
    requires
        doc_rt_wf(d),
    ensures
        scan_props(serial_of(d)) == props_of_doc(d),
{
    let close = seq![')'];
    assert(scan_props(close) =~= Seq::<(Seq<char>, Seq<Seq<char>>)>::empty()) by {
        assert(close.subrange(1, 1) =~= Seq::<char>::empty());
        assert(scan_props(Seq::<char>::empty()) =~= Seq::<(Seq<char>, Seq<Seq<char>>)>::empty());
        assert(!is_upper_char(')'));
    }
    let rest_m = close;
    let rest_aw = moves_chunks(d.moves) + rest_m;
    let rest_ab = stones_chunks(aw_key(), d.aw) + rest_aw;
    let rest_md = stones_chunks(ab_key(), d.ab) + rest_ab;
    let rest_sz = md_chunks(d.metadata) + rest_md;

    assert(head_not_lb(rest_m));
    assert(head_not_lb(rest_aw)) by {
        if d.moves.len() > 0 {
            assert(moves_chunks(d.moves)[0] == move_chunk(d.moves[0])[0]);
            assert(move_chunk(d.moves[0])[0] == ';');
            assert(rest_aw[0] == ';');
        } else {
            assert(rest_aw =~= rest_m);
        }
    }
    assert(head_not_lb(rest_ab)) by {
        if d.aw.len() > 0 {
            assert(stones_chunks(aw_key(), d.aw)[0] == 'A');
            assert(rest_ab[0] == 'A');
        } else {
            assert(rest_ab =~= rest_aw);
        }
    }
    assert(head_not_lb(rest_md)) by {
        if d.ab.len() > 0 {
            assert(stones_chunks(ab_key(), d.ab)[0] == 'A');
            assert(rest_md[0] == 'A');
        } else {
            assert(rest_md =~= rest_ab);
        }
    }
    assert(head_not_lb(rest_sz)) by {
        if d.metadata.len() > 0 {
            assert(md_entry_ok(d.metadata[0]));
            assert(md_chunks(d.metadata)[0] == d.metadata[0].0[0]);
            assert(is_upper_char(d.metadata[0].0[0]));
            assert(rest_sz[0] == d.metadata[0].0[0]);
        } else {
            assert(rest_sz =~= rest_md);
        }
    }

    // The numeral contains only digits, never a terminator.
    let num = dec_digits(d.board_size);
    assert(!seq_has_char(num, ']')) by {
        assert(forall|i: int| 0 <= i < num.len() ==> #[trigger] num[i] != ']');
    }
    assert(forall|i: int| 0 <= i < seq![num].len() ==> !seq_has_char(#[trigger] seq![num][i], ']'));
    assert(key_ok(sz_key())) by {
        assert(sz_key()[0] == 'S' && sz_key()[1] == 'Z');
    }
    assert(key_ok(ab_key())) by {
        assert(ab_key()[0] == 'A' && ab_key()[1] == 'B');
    }
    assert(key_ok(aw_key())) by {
        assert(aw_key()[0] == 'A' && aw_key()[1] == 'W');
    }

    assert(serial_of(d) =~= seq!['('] + (seq![';'] + (prop_chunk(sz_key(), seq![num]) + rest_sz)));
    lemma_scan_junk('(', seq![';'] + (prop_chunk(sz_key(), seq![num]) + rest_sz));
    lemma_scan_junk(';', prop_chunk(sz_key(), seq![num]) + rest_sz);
    lemma_scan_token(sz_key(), seq![num], rest_sz);
    lemma_scan_md_chunks(d.metadata, rest_md);
    assert(forall|i: int| 0 <= i < d.ab.len() ==> coord_in_bounds(26, #[trigger] d.ab[i]));
    assert(forall|i: int| 0 <= i < d.aw.len() ==> coord_in_bounds(26, #[trigger] d.aw[i]));
    lemma_scan_stones_chunks(ab_key(), d.ab, rest_ab);
    lemma_scan_stones_chunks(aw_key(), d.aw, rest_aw);
    assert forall|i: int| 0 <= i < d.moves.len() implies move_wf(26, #[trigger] d.moves[i]) by {
        assert(move_wf(d.board_size, d.moves[i]));
    }
    lemma_scan_moves_chunks(d.moves, rest_m);
    assert(scan_props(serial_of(d)) =~= props_of_doc(d));
}


// ---------------------------------------------------------------------------
// Folding layer
// ---------------------------------------------------------------------------

/// The structural keys are pairwise distinct.
pub proof fn lemma_keys_distinct()
    ensures
        ab_key() != sz_key(),
        aw_key() != sz_key(),
        aw_key() != ab_key(),
        b_key() != sz_key(),
        b_key() != ab_key(),
        b_key() != aw_key(),
        w_key() != sz_key(),
        w_key() != ab_key(),
        w_key() != aw_key(),
        w_key() != b_key(),
        c_key() != sz_key(),
        c_key() != ab_key(),
        c_key() != aw_key(),
        c_key() != b_key(),
        c_key() != w_key(),
        tr_key() != sz_key(),
        tr_key() != ab_key(),
        tr_key() != aw_key(),
        tr_key() != b_key(),
        tr_key() != w_key(),
        tr_key() != c_key(),
{
    assert(sz_key()[0] == 'S' && sz_key()[1] == 'Z');
    assert(ab_key()[0] == 'A' && ab_key()[1] == 'B');
    assert(aw_key()[0] == 'A' && aw_key()[1] == 'W');
    assert(tr_key()[0] == 'T' && tr_key()[1] == 'R');
    assert(b_key()[0] == 'B');
    assert(w_key()[0] == 'W');
    assert(c_key()[0] == 'C');
    assert(sz_key().len() == 2 && ab_key().len() == 2 && aw_key().len() == 2 && tr_key().len()
        == 2);
    assert(b_key().len() == 1 && w_key().len() == 1 && c_key().len() == 1);
}

/// Folding steps through the head token.
pub proof fn lemma_fold_cons(
    st: PDoc,
    tok: (Seq<char>, Seq<Seq<char>>),
    rest: Seq<(Seq<char>, Seq<Seq<char>>)>,
    sz: int,
)
    ensures
        fold_props(st, seq![tok] + rest, sz) == fold_props(
            apply_prop(st, tok.0, tok.1, sz),
            rest,
            sz,
        ),
{
    let s = seq![tok] + rest;
    assert(s[0] == tok);
    assert((tok.0, tok.1) == tok);
    assert(s.subrange(1, s.len() as int) =~= rest);
}

/// Appending tokens without a size key leaves the dimension alone.
pub proof fn lemma_size_after_appended(
    props: Seq<(Seq<char>, Seq<Seq<char>>)>,
    rest: Seq<(Seq<char>, Seq<Seq<char>>)>,
)
    requires
        forall|t: int| 0 <= t < rest.len() ==> (#[trigger] rest[t]).0 != sz_key(),
    ensures
        size_after(props + rest) == size_after(props),
    decreases rest.len(),
{
    if rest.len() == 0 {
        assert(props + rest =~= props);
    } else {
        let w = props + rest;
        assert(w.last() == rest.last());
        assert(rest.last() == rest[rest.len() - 1]);
        assert(w.last().0 != sz_key());
        assert(w.drop_last() =~= props + rest.drop_last());
        assert forall|t: int| 0 <= t < rest.drop_last().len() implies (#[trigger] rest.drop_last()[t]).0
            != sz_key() by {
            assert(rest.drop_last()[t] == rest[t]);
        }
        lemma_size_after_appended(props, rest.drop_last());
    }
}

pub proof fn lemma_md_tokens_no_sz(md: Seq<(Seq<char>, Seq<char>)>)
    requires
        forall|i: int| 0 <= i < md.len() ==> md_entry_ok(#[trigger] md[i]),
    ensures
        forall|t: int| 0 <= t < md_tokens(md).len() ==> (#[trigger] md_tokens(md)[t]).0 != sz_key(),
    decreases md.len(),
{
    if md.len() > 0 {
        let tail = md.subrange(1, md.len() as int);
        assert forall|i: int| 0 <= i < tail.len() implies md_entry_ok(#[trigger] tail[i]) by {
            assert(tail[i] == md[i + 1]);
        }
        lemma_md_tokens_no_sz(tail);
        assert(md_entry_ok(md[0]));
        assert forall|t: int| 0 <= t < md_tokens(md).len() implies (#[trigger] md_tokens(md)[t]).0
            != sz_key() by {
            if t == 0 {
                assert(md_tokens(md)[0] == (md[0].0, seq![md[0].1]));
            } else {
                assert(md_tokens(md)[t] == md_tokens(tail)[t - 1]);
            }
        }
    }
}

pub proof fn lemma_stone_tokens_no_sz(key: Seq<char>, cs: Seq<(int, int)>)
    requires
        key != sz_key(),
    ensures
        forall|t: int|
            0 <= t < stone_tokens(key, cs).len() ==> (#[trigger] stone_tokens(key, cs)[t]).0
                != sz_key(),
    decreases cs.len(),
{
    if cs.len() > 0 {
        let tail = cs.subrange(1, cs.len() as int);
        lemma_stone_tokens_no_sz(key, tail);
        assert forall|t: int| 0 <= t < stone_tokens(key, cs).len() implies (#[trigger] stone_tokens(
            key,
            cs,
        )[t]).0 != sz_key() by {
            if t == 0 {
                assert(stone_tokens(key, cs)[0] == (key, seq![enc_coord(cs[0].0, cs[0].1)]));
            } else {
                assert(stone_tokens(key, cs)[t] == stone_tokens(key, tail)[t - 1]);
            }
        }
    }
}

pub proof fn lemma_move_tokens_no_sz(m: MoveView)
    ensures
        forall|t: int|
            0 <= t < move_tokens(m).len() ==> (#[trigger] move_tokens(m)[t]).0 != sz_key(),
{
    lemma_keys_distinct();
    assert(player_key(m.player) != sz_key()) by {
        assert(player_key(m.player).len() == 1);
        assert(sz_key().len() == 2);
    }
    lemma_stone_tokens_no_sz(tr_key(), m.triangles);
    let toks = move_tokens(m);
    let trt = stone_tokens(tr_key(), m.triangles);
    assert forall|t: int| 0 <= t < toks.len() implies (#[trigger] toks[t]).0 != sz_key() by {
        if t == 0 {
            assert(toks[0] == (player_key(m.player), seq![enc_coord(m.x, m.y)]));
        } else if t < 1 + trt.len() {
            assert(toks[t] == trt[t - 1]);
        } else {
            match m.comment {
                Option::Some(c) => {
                    assert(toks[t] == (c_key(), seq![esc_comment(c)]));
                },
                Option::None => {},
            }
        }
    }
}

pub proof fn lemma_moves_tokens_no_sz(ms: Seq<MoveView>)
    ensures
        forall|t: int|
            0 <= t < moves_tokens(ms).len() ==> (#[trigger] moves_tokens(ms)[t]).0 != sz_key(),
    decreases ms.len(),
{
    if ms.len() > 0 {
        let tail = ms.subrange(1, ms.len() as int);
        lemma_moves_tokens_no_sz(tail);
        lemma_move_tokens_no_sz(ms[0]);
        let hd = move_tokens(ms[0]);
        assert forall|t: int| 0 <= t < moves_tokens(ms).len() implies (#[trigger] moves_tokens(
            ms,
        )[t]).0 != sz_key() by {
            if t < hd.len() {
                assert(moves_tokens(ms)[t] == hd[t]);
            } else {
                assert(moves_tokens(ms)[t] == moves_tokens(tail)[t - hd.len()]);
            }
        }
    }
}

/// The numeral of a supported dimension reads back as that dimension.
pub proof fn lemma_parse_usize_dec_digits(n: int)
    requires
        1 <= n <= 26,
    ensures
        spec_parse_usize(dec_digits(n)) == Option::Some(n as usize),
{
    let s = dec_digits(n);
    assert(digits_val(Seq::<char>::empty()) == 0);
    if n < 10 {
        assert(all_digits(s));
        assert(s.drop_last() =~= Seq::<char>::empty());
        assert(digits_val(s) == digit_val(s[0]));
        assert(digit_val(s[0]) == n);
    } else {
        assert(all_digits(s));
        assert(s.last() == s[1]);
        assert(s.drop_last() =~= seq![s[0]]);
        assert(seq![s[0]].drop_last() =~= Seq::<char>::empty());
        assert(digits_val(seq![s[0]]) == digit_val(s[0]));
        assert(digits_val(s) == 10 * digit_val(s[0]) + digit_val(s[1]));
        assert(digit_val(s[0]) == n / 10);
        assert(digit_val(s[1]) == n % 10);
        assert(10 * (n / 10) + n % 10 == n);
    }
}

/// One in-bounds coordinate value decodes to exactly that coordinate.
pub proof fn lemma_coords_single(c: (int, int), sz: int)
    requires
        0 <= sz <= 26,
        coord_in_bounds(sz, c),
    ensures
        coords_of_values(seq![enc_coord(c.0, c.1)], sz) == seq![c],
{
    let vs = seq![enc_coord(c.0, c.1)];
    lemma_enc_dec_coord(c.0, c.1);
    assert(dec_bounded(vs[0], sz) == Option::Some(c));
    let emp = Seq::<Seq<char>>::empty();
    assert(coords_of_values(emp, sz) == Seq::<(int, int)>::empty());
    assert(vs.subrange(1, 1) =~= emp);
    assert(coords_of_values(vs, sz) =~= seq![c]);
}

/// Folding the metadata tokens appends the entries in order.
pub proof fn lemma_fold_md(
    st: PDoc,
    md: Seq<(Seq<char>, Seq<char>)>,
    rest: Seq<(Seq<char>, Seq<Seq<char>>)>,
    sz: int,
)
    requires
        forall|i: int| 0 <= i < md.len() ==> md_entry_ok(#[trigger] md[i]),
    ensures
        fold_props(st, md_tokens(md) + rest, sz) == fold_props(
            PDoc { metadata: st.metadata + md, ..st },
            rest,
            sz,
        ),
    decreases md.len(),
{
    if md.len() == 0 {
        assert(md_tokens(md) + rest =~= rest);
        assert(PDoc { metadata: st.metadata + md, ..st } =~= st);
    } else {
        let e = md[0];
        let tail = md.subrange(1, md.len() as int);
        assert(md_entry_ok(e));
        assert forall|i: int| 0 <= i < tail.len() implies md_entry_ok(#[trigger] tail[i]) by {
            assert(tail[i] == md[i + 1]);
        }
        let tok = (e.0, seq![e.1]);
        assert(md_tokens(md) + rest =~= seq![tok] + (md_tokens(tail) + rest));
        lemma_fold_cons(st, tok, md_tokens(tail) + rest, sz);
        assert(!structural_key(e.0));
        assert(seq![e.1][0] == e.1);
        assert(e.1.len() > 0);
        let st1 = apply_prop(st, e.0, seq![e.1], sz);
        assert(st1 == PDoc { metadata: st.metadata.push((e.0, e.1)), ..st });
        lemma_fold_md(st1, tail, rest, sz);
        assert(st1.metadata + tail =~= st.metadata + md) by {
            assert((e.0, e.1) == e);
        }
        assert(PDoc { metadata: st1.metadata + tail, ..st1 } =~= PDoc {
            metadata: st.metadata + md,
            ..st
        });
    }
}

/// Folding black-stone tokens appends the stones in order.
pub proof fn lemma_fold_ab(
    st: PDoc,
    cs: Seq<(int, int)>,
    rest: Seq<(Seq<char>, Seq<Seq<char>>)>,
    sz: int,
)
    requires
        1 <= sz <= 26,
        forall|i: int| 0 <= i < cs.len() ==> coord_in_bounds(sz, #[trigger] cs[i]),
    ensures
        fold_props(st, stone_tokens(ab_key(), cs) + rest, sz) == fold_props(
            PDoc { ab: st.ab + cs, ..st },
            rest,
            sz,
        ),
    decreases cs.len(),
{
    lemma_keys_distinct();
    if cs.len() == 0 {
        assert(stone_tokens(ab_key(), cs) + rest =~= rest);
        assert(PDoc { ab: st.ab + cs, ..st } =~= st);
    } else {
        let c = cs[0];
        let tail = cs.subrange(1, cs.len() as int);
        assert(coord_in_bounds(sz, c));
        assert forall|i: int| 0 <= i < tail.len() implies coord_in_bounds(sz, #[trigger] tail[i]) by {
            assert(tail[i] == cs[i + 1]);
        }
        let tok = (ab_key(), seq![enc_coord(c.0, c.1)]);
        assert(stone_tokens(ab_key(), cs) + rest =~= seq![tok] + (stone_tokens(ab_key(), tail)
            + rest));
        lemma_fold_cons(st, tok, stone_tokens(ab_key(), tail) + rest, sz);
        lemma_coords_single(c, sz);
        let st1 = apply_prop(st, ab_key(), seq![enc_coord(c.0, c.1)], sz);
        assert(st1 == PDoc { ab: st.ab + seq![c], ..st });
        lemma_fold_ab(st1, tail, rest, sz);
        assert(st1.ab + tail =~= st.ab + cs);
        assert(PDoc { ab: st1.ab + tail, ..st1 } =~= PDoc { ab: st.ab + cs, ..st });
    }
}

/// Folding white-stone tokens appends the stones in order.
pub proof fn lemma_fold_aw(
    st: PDoc,
    cs: Seq<(int, int)>,
    rest: Seq<(Seq<char>, Seq<Seq<char>>)>,
    sz: int,
)
    requires
        1 <= sz <= 26,
        forall|i: int| 0 <= i < cs.len() ==> coord_in_bounds(sz, #[trigger] cs[i]),
    ensures
        fold_props(st, stone_tokens(aw_key(), cs) + rest, sz) == fold_props(
            PDoc { aw: st.aw + cs, ..st },
            rest,
            sz,
        ),
    decreases cs.len(),
{
    lemma_keys_distinct();
    if cs.len() == 0 {
        assert(stone_tokens(aw_key(), cs) + rest =~= rest);
        assert(PDoc { aw: st.aw + cs, ..st } =~= st);
    } else {
        let c = cs[0];
        let tail = cs.subrange(1, cs.len() as int);
        assert(coord_in_bounds(sz, c));
        assert forall|i: int| 0 <= i < tail.len() implies coord_in_bounds(sz, #[trigger] tail[i]) by {
            assert(tail[i] == cs[i + 1]);
        }
        let tok = (aw_key(), seq![enc_coord(c.0, c.1)]);
        assert(stone_tokens(aw_key(), cs) + rest =~= seq![tok] + (stone_tokens(aw_key(), tail)
            + rest));
        lemma_fold_cons(st, tok, stone_tokens(aw_key(), tail) + rest, sz);
        lemma_coords_single(c, sz);
        let st1 = apply_prop(st, aw_key(), seq![enc_coord(c.0, c.1)], sz);
        assert(st1 == PDoc { aw: st.aw + seq![c], ..st });
        lemma_fold_aw(st1, tail, rest, sz);
        assert(st1.aw + tail =~= st.aw + cs);
        assert(PDoc { aw: st1.aw + tail, ..st1 } =~= PDoc { aw: st.aw + cs, ..st });
    }
}

/// Folding triangle tokens extends the last move's annotations in order.
pub proof fn lemma_fold_tr(
    st: PDoc,
    cs: Seq<(int, int)>,
    rest: Seq<(Seq<char>, Seq<Seq<char>>)>,
    sz: int,
)
    requires
        1 <= sz <= 26,
        st.moves.len() > 0,
        forall|i: int| 0 <= i < cs.len() ==> coord_in_bounds(sz, #[trigger] cs[i]),
    ensures
        fold_props(st, stone_tokens(tr_key(), cs) + rest, sz) == fold_props(
            PDoc {
                moves: st.moves.update(
                    st.moves.len() - 1,
                    MoveView {
                        triangles: st.moves.last().triangles + cs,
                        ..st.moves.last()
                    },
                ),
                ..st
            },
            rest,
            sz,
        ),
    decreases cs.len(),
{
    lemma_keys_distinct();
    let last = st.moves.len() - 1;
    if cs.len() == 0 {
        assert(stone_tokens(tr_key(), cs) + rest =~= rest);
        assert(st.moves.last().triangles + cs =~= st.moves.last().triangles);
        assert(MoveView { triangles: st.moves.last().triangles + cs, ..st.moves.last() } =~= st.moves.last());
        assert(st.moves.update(last, st.moves.last()) =~= st.moves);
        assert(PDoc {
            moves: st.moves.update(last, MoveView {
                triangles: st.moves.last().triangles + cs,
                ..st.moves.last()
            }),
            ..st
        } =~= st);
    } else {
        let c = cs[0];
        let tail = cs.subrange(1, cs.len() as int);
        assert(coord_in_bounds(sz, c));
        assert forall|i: int| 0 <= i < tail.len() implies coord_in_bounds(sz, #[trigger] tail[i]) by {
            assert(tail[i] == cs[i + 1]);
        }
        let tok = (tr_key(), seq![enc_coord(c.0, c.1)]);
        assert(stone_tokens(tr_key(), cs) + rest =~= seq![tok] + (stone_tokens(tr_key(), tail)
            + rest));
        lemma_fold_cons(st, tok, stone_tokens(tr_key(), tail) + rest, sz);
        lemma_coords_single(c, sz);
        let st1 = apply_prop(st, tr_key(), seq![enc_coord(c.0, c.1)], sz);
        assert(st1 == PDoc {
            moves: st.moves.update(last, MoveView {
                triangles: st.moves.last().triangles + seq![c],
                ..st.moves.last()
            }),
            ..st
        });
        assert(st1.moves.len() == st.moves.len());
        lemma_fold_tr(st1, tail, rest, sz);
        assert(st1.moves.last() == MoveView {
            triangles: st.moves.last().triangles + seq![c],
            ..st.moves.last()
        });
        assert(st1.moves.last().triangles + tail =~= st.moves.last().triangles + cs);
        assert(MoveView { triangles: st1.moves.last().triangles + tail, ..st1.moves.last() } =~= MoveView {
            triangles: st.moves.last().triangles + cs,
            ..st.moves.last()
        });
        assert(st1.moves.update(last, MoveView {
            triangles: st1.moves.last().triangles + tail,
            ..st1.moves.last()
        }) =~= st.moves.update(last, MoveView {
            triangles: st.moves.last().triangles + cs,
            ..st.moves.last()
        }));
        assert(PDoc {
            moves: st1.moves.update(last, MoveView {
                triangles: st1.moves.last().triangles + tail,
                ..st1.moves.last()
            }),
            ..st1
        } =~= PDoc {
            moves: st.moves.update(last, MoveView {
                triangles: st.moves.last().triangles + cs,
                ..st.moves.last()
            }),
            ..st
        });
    }
}

/// Folding one move's tokens appends exactly that move.
#[verifier::rlimit(100)]
pub proof fn lemma_fold_move(
    st: PDoc,
    m: MoveView,
    rest: Seq<(Seq<char>, Seq<Seq<char>>)>,
    sz: int,
)
    requires
        1 <= sz <= 26,
        move_wf(sz, m),
        m.comment matches Option::Some(c) ==> !seq_has_char(c, ']'),
    ensures
        fold_props(st, move_tokens(m) + rest, sz) == fold_props(
            PDoc { moves: st.moves.push(m), ..st },
            rest,
            sz,
        ),
{
    lemma_keys_distinct();
    let pk = player_key(m.player);
    let bw_tok = (pk, seq![enc_coord(m.x, m.y)]);
    let trt = stone_tokens(tr_key(), m.triangles);
    let cpart: Seq<(Seq<char>, Seq<Seq<char>>)> = match m.comment {
        Option::Some(c) => seq![(c_key(), seq![esc_comment(c)])],
        Option::None => seq![],
    };
    assert(move_tokens(m) + rest =~= seq![bw_tok] + (trt + (cpart + rest)));
    lemma_fold_cons(st, bw_tok, trt + (cpart + rest), sz);
    lemma_enc_dec_coord(m.x, m.y);
    assert(seq![enc_coord(m.x, m.y)][0] == enc_coord(m.x, m.y));
    assert(dec_bounded(enc_coord(m.x, m.y), sz) == Option::Some((m.x, m.y)));
    let partial = MoveView {
        player: m.player,
        x: m.x,
        y: m.y,
        comment: Option::None,
        triangles: seq![],
    };
    let st1 = apply_prop(st, pk, seq![enc_coord(m.x, m.y)], sz);
    assert(st1 == PDoc { moves: st.moves.push(partial), ..st }) by {
        match m.player {
            Player::Black => {
                assert(pk == b_key());
            },
            Player::White => {
                assert(pk == w_key());
            },
        }
    }
    assert(st1.moves.len() > 0);
    lemma_fold_tr(st1, m.triangles, cpart + rest, sz);
    let last1 = st1.moves.len() - 1;
    let with_tr = MoveView {
        triangles: st1.moves.last().triangles + m.triangles,
        ..st1.moves.last()
    };
    let st2 = PDoc { moves: st1.moves.update(last1, with_tr), ..st1 };
    assert(st1.moves.last() == partial);
    assert(partial.triangles + m.triangles =~= m.triangles);
    assert(with_tr =~= MoveView { comment: Option::None, ..m });
    match m.comment {
        Option::Some(c) => {
            let ctok = (c_key(), seq![esc_comment(c)]);
            assert(cpart + rest =~= seq![ctok] + rest);
            lemma_fold_cons(st2, ctok, rest, sz);
            assert(seq![esc_comment(c)][0] == esc_comment(c));
            assert(st2.moves.len() > 0);
            let st3 = apply_prop(st2, c_key(), seq![esc_comment(c)], sz);
            lemma_esc_comment_id(c);
            let last2 = st2.moves.len() - 1;
            assert(st3 == PDoc {
                moves: st2.moves.update(last2, MoveView {
                    comment: Option::Some(c),
                    ..st2.moves.last()
                }),
                ..st2
            });
            assert(st2.moves.last() == with_tr);
            assert(MoveView { comment: Option::Some(c), ..with_tr } =~= m);
            assert(st3.moves =~= st.moves.push(m));
            assert(st3 =~= PDoc { moves: st.moves.push(m), ..st });
        },
        Option::None => {
            assert(cpart + rest =~= rest);
            assert(with_tr =~= m);
            assert(st2.moves =~= st.moves.push(m));
            assert(st2 =~= PDoc { moves: st.moves.push(m), ..st });
        },
    }
}

/// Folding the move tokens appends the moves in order.
pub proof fn lemma_fold_moves(
    st: PDoc,
    ms: Seq<MoveView>,
    rest: Seq<(Seq<char>, Seq<Seq<char>>)>,
    sz: int,
)
    requires
        1 <= sz <= 26,
        forall|i: int| 0 <= i < ms.len() ==> move_wf(sz, #[trigger] ms[i]),
        forall|i: int|
            0 <= i < ms.len() ==> ((#[trigger] ms[i]).comment matches Option::Some(c)
                ==> !seq_has_char(c, ']')),
    ensures
        fold_props(st, moves_tokens(ms) + rest, sz) == fold_props(
            PDoc { moves: st.moves + ms, ..st },
            rest,
            sz,
        ),
    decreases ms.len(),
{
    if ms.len() == 0 {
        assert(moves_tokens(ms) + rest =~= rest);
        assert(PDoc { moves: st.moves + ms, ..st } =~= st);
    } else {
        let m = ms[0];
        let tail = ms.subrange(1, ms.len() as int);
        assert(move_wf(sz, m));
        assert forall|i: int| 0 <= i < tail.len() implies move_wf(sz, #[trigger] tail[i]) && (
        tail[i].comment matches Option::Some(c) ==> !seq_has_char(c, ']')) by {
            assert(tail[i] == ms[i + 1]);
        }
        assert(moves_tokens(ms) + rest =~= move_tokens(m) + (moves_tokens(tail) + rest));
        lemma_fold_move(st, m, moves_tokens(tail) + rest, sz);
        let st1 = PDoc { moves: st.moves.push(m), ..st };
        lemma_fold_moves(st1, tail, rest, sz);
        assert(st1.moves + tail =~= st.moves + ms);
        assert(PDoc { moves: st1.moves + tail, ..st1 } =~= PDoc { moves: st.moves + ms, ..st });
    }
}

// ---------------------------------------------------------------------------
// The round-trip law
// ---------------------------------------------------------------------------

/// Parsing a serialized well-formed document yields that document again:
/// same board size, same stone sets, same move sequence with the same
/// coordinates, comments and triangles, and the same metadata.
#[verifier::rlimit(100)]
pub proof fn lemma_parse_serialize_round_trip(d: SgfView)
    requires
        doc_rt_wf(d),
    ensures
        parse_spec(serial_of(d)) == Option::Some(d),
{
    lemma_scan_serial(d);
    let props = props_of_doc(d);
    let sz_tok = (sz_key(), seq![dec_digits(d.board_size)]);
    let rest = md_tokens(d.metadata) + stone_tokens(ab_key(), d.ab) + stone_tokens(aw_key(), d.aw)
        + moves_tokens(d.moves);
    assert(props =~= seq![sz_tok] + rest);

    // The dimension comes from the single size token.
    lemma_keys_distinct();
    lemma_md_tokens_no_sz(d.metadata);
    lemma_stone_tokens_no_sz(ab_key(), d.ab);
    lemma_stone_tokens_no_sz(aw_key(), d.aw);
    lemma_moves_tokens_no_sz(d.moves);
    let mdt = md_tokens(d.metadata);
    let abt = stone_tokens(ab_key(), d.ab);
    let awt = stone_tokens(aw_key(), d.aw);
    let mvt = moves_tokens(d.moves);
    assert forall|t: int| 0 <= t < rest.len() implies (#[trigger] rest[t]).0 != sz_key() by {
        if t < mdt.len() {
            assert(rest[t] == mdt[t]);
        } else if t < mdt.len() + abt.len() {
            assert(rest[t] == abt[t - mdt.len()]);
        } else if t < mdt.len() + abt.len() + awt.len() {
            assert(rest[t] == awt[t - mdt.len() - abt.len()]);
        } else {
            assert(rest[t] == mvt[t - mdt.len() - abt.len() - awt.len()]);
        }
    }
    lemma_size_after_appended(seq![sz_tok], rest);
    assert(seq![sz_tok].drop_last() =~= Seq::<(Seq<char>, Seq<Seq<char>>)>::empty());
    lemma_parse_usize_dec_digits(d.board_size);
    assert(seq![dec_digits(d.board_size)][0] == dec_digits(d.board_size));
    assert(sz_of_values(seq![dec_digits(d.board_size)]) == Option::Some(d.board_size));
    assert(size_after(seq![sz_tok]) == Option::Some(d.board_size));
    assert(size_after(props) == Option::Some(d.board_size));

    // Folding rebuilds the document field for field.
    let sz = d.board_size;
    let st0 = empty_pdoc();
    lemma_fold_cons(st0, sz_tok, rest, sz);
    assert(apply_prop(st0, sz_tok.0, sz_tok.1, sz) == st0);
    assert(rest =~= mdt + (abt + (awt + (mvt + Seq::<(Seq<char>, Seq<Seq<char>>)>::empty()))));
    lemma_fold_md(st0, d.metadata, abt + (awt + (mvt + Seq::<(Seq<char>, Seq<Seq<char>>)>::empty())), sz);
    let st1 = PDoc { metadata: st0.metadata + d.metadata, ..st0 };
    lemma_fold_ab(st1, d.ab, awt + (mvt + Seq::<(Seq<char>, Seq<Seq<char>>)>::empty()), sz);
    let st2 = PDoc { ab: st1.ab + d.ab, ..st1 };
    lemma_fold_aw(st2, d.aw, mvt + Seq::<(Seq<char>, Seq<Seq<char>>)>::empty(), sz);
    let st3 = PDoc { aw: st2.aw + d.aw, ..st2 };
    assert(forall|i: int| 0 <= i < d.moves.len() ==> move_wf(sz, #[trigger] d.moves[i]));
    assert(forall|i: int|
        0 <= i < d.moves.len() ==> ((#[trigger] d.moves[i]).comment matches Option::Some(c)
            ==> !seq_has_char(c, ']')));
    lemma_fold_moves(st3, d.moves, Seq::<(Seq<char>, Seq<Seq<char>>)>::empty(), sz);
    let st4 = PDoc { moves: st3.moves + d.moves, ..st3 };
    let emp = Seq::<(Seq<char>, Seq<Seq<char>>)>::empty();
    assert(fold_props(st4, emp, sz) == st4);
    assert(fold_props(st0, props, sz) == st4);
    assert(st4.moves =~= d.moves);
    assert(st4.ab =~= d.ab);
    assert(st4.aw =~= d.aw);
    assert(st4.metadata =~= d.metadata);
    assert(parse_spec(serial_of(d)) == Option::Some(SgfView {
        board_size: sz,
        moves: st4.moves,
        ab: st4.ab,
        aw: st4.aw,
        metadata: st4.metadata,
    }));
    assert(SgfView {
        board_size: sz,
        moves: st4.moves,
        ab: st4.ab,
        aw: st4.aw,
        metadata: st4.metadata,
    } =~= d);
}

// ---------------------------------------------------------------------------
// The mutation interface keeps documents round-trippable
// ---------------------------------------------------------------------------

/// Replacing one move with a well-formed move whose comment is free of the
/// value terminator keeps the document round-trippable.
pub proof fn lemma_rt_wf_update_move(d: SgfView, p: int, m: MoveView)
    requires
        doc_rt_wf(d),
        0 <= p < d.moves.len(),
        move_wf(d.board_size, m),
        m.comment matches Option::Some(c) ==> !seq_has_char(c, ']'),
    ensures
        doc_rt_wf(SgfView { moves: d.moves.update(p, m), ..d }),
{
    let d2 = SgfView { moves: d.moves.update(p, m), ..d };
    assert forall|i: int| 0 <= i < d2.moves.len() implies move_wf(
        d2.board_size,
        #[trigger] d2.moves[i],
    ) && (d2.moves[i].comment matches Option::Some(c) ==> !seq_has_char(c, ']')) by {
        if i != p {
            assert(d2.moves[i] == d.moves[i]);
        } else {
            assert(d2.moves[i] == m);
        }
    }
}

/// Inserting a well-formed move whose comment is free of the value
/// terminator keeps the document round-trippable.
pub proof fn lemma_rt_wf_insert_move(d: SgfView, p: int, m: MoveView)
    requires
        doc_rt_wf(d),
        0 <= p <= d.moves.len(),
        move_wf(d.board_size, m),
        m.comment matches Option::Some(c) ==> !seq_has_char(c, ']'),
    ensures
        doc_rt_wf(SgfView { moves: d.moves.insert(p, m), ..d }),
{
    let d2 = SgfView { moves: d.moves.insert(p, m), ..d };
    assert forall|i: int| 0 <= i < d2.moves.len() implies move_wf(
        d2.board_size,
        #[trigger] d2.moves[i],
    ) && (d2.moves[i].comment matches Option::Some(c) ==> !seq_has_char(c, ']')) by {
        if i < p {
            assert(d2.moves[i] == d.moves[i]);
        } else if i == p {
            assert(d2.moves[i] == m);
        } else {
            assert(d2.moves[i] == d.moves[i - 1]);
        }
    }
}

/// Removing a move keeps the document round-trippable.
pub proof fn lemma_rt_wf_remove_move(d: SgfView, p: int)
    requires
        doc_rt_wf(d),
        0 <= p < d.moves.len(),
    ensures
        doc_rt_wf(SgfView { moves: d.moves.remove(p), ..d }),
{
    let d2 = SgfView { moves: d.moves.remove(p), ..d };
    assert forall|i: int| 0 <= i < d2.moves.len() implies move_wf(
        d2.board_size,
        #[trigger] d2.moves[i],
    ) && (d2.moves[i].comment matches Option::Some(c) ==> !seq_has_char(c, ']')) by {
        if i < p {
            assert(d2.moves[i] == d.moves[i]);
        } else {
            assert(d2.moves[i] == d.moves[i + 1]);
        }
    }
}

/// Replacing a move's comment proper with terminator-free text, as the
/// comment mutation does, keeps the document round-trippable.
pub proof fn lemma_set_comment_keeps_rt_wf(d: SgfView, p: int, text: Seq<char>)
    requires
        doc_rt_wf(d),
        0 <= p < d.moves.len(),
        !seq_has_char(text, ']'),
    ensures
        doc_rt_wf(
            SgfView {
                moves: d.moves.update(
                    p,
                    MoveView {
                        comment: encode_side(text, side_labels_of(stored_comment(d.moves[p]))),
                        ..d.moves[p]
                    },
                ),
                ..d
            },
        ),
{
    let stored = stored_comment(d.moves[p]);
    assert(!seq_has_char(stored, ']')) by {
        match d.moves[p].comment {
            Option::Some(c) => {},
            Option::None => {
                assert(stored.len() == 0);
                assert(forall|i: int| 0 <= i < stored.len() ==> #[trigger] stored[i] != ']');
            },
        }
    }
    lemma_decode_side_no_char(stored, ']');
    lemma_encode_side_no_char(text, side_labels_of(stored), ']');
    let m2 = MoveView { comment: encode_side(text, side_labels_of(stored)), ..d.moves[p] };
    assert(move_wf(d.board_size, m2)) by {
        assert(move_wf(d.board_size, d.moves[p]));
    }
    lemma_rt_wf_update_move(d, p, m2);
}

/// Replacing a move's label suffix with terminator-free labels, as the
/// label mutation does, keeps the document round-trippable.
pub proof fn lemma_set_labels_keeps_rt_wf(d: SgfView, p: int, labels: Seq<Seq<char>>)
    requires
        doc_rt_wf(d),
        0 <= p < d.moves.len(),
        forall|k: int| 0 <= k < labels.len() ==> !seq_has_char(#[trigger] labels[k], ']'),
    ensures
        doc_rt_wf(
            SgfView {
                moves: d.moves.update(
                    p,
                    MoveView {
                        comment: encode_side(
                            side_comment_proper(stored_comment(d.moves[p])),
                            labels,
                        ),
                        ..d.moves[p]
                    },
                ),
                ..d
            },
        ),
{
    let stored = stored_comment(d.moves[p]);
    assert(!seq_has_char(stored, ']')) by {
        match d.moves[p].comment {
            Option::Some(c) => {},
            Option::None => {
                assert(stored.len() == 0);
                assert(forall|i: int| 0 <= i < stored.len() ==> #[trigger] stored[i] != ']');
            },
        }
    }
    lemma_decode_side_no_char(stored, ']');
    lemma_encode_side_no_char(side_comment_proper(stored), labels, ']');
    let m2 = MoveView { comment: encode_side(side_comment_proper(stored), labels), ..d.moves[p] };
    assert(move_wf(d.board_size, m2)) by {
        assert(move_wf(d.board_size, d.moves[p]));
    }
    lemma_rt_wf_update_move(d, p, m2);
}

/// Replacing a move's triangle annotations with the in-bounds entries of
/// any list, as the triangle mutation does, keeps the document
/// round-trippable.
pub proof fn lemma_set_triangles_keeps_rt_wf(d: SgfView, p: int, tris: Seq<(int, int)>)
    requires
        doc_rt_wf(d),
        0 <= p < d.moves.len(),
    ensures
        doc_rt_wf(
            SgfView {
                moves: d.moves.update(
                    p,
                    MoveView {
                        triangles: filter_bounded(tris, d.board_size),
                        ..d.moves[p]
                    },
                ),
                ..d
            },
        ),
{
    lemma_filter_bounded_in_bounds(tris, d.board_size);
    let m2 = MoveView { triangles: filter_bounded(tris, d.board_size), ..d.moves[p] };
    assert(move_wf(d.board_size, m2)) by {
        assert(move_wf(d.board_size, d.moves[p]));
    }
    lemma_rt_wf_update_move(d, p, m2);
}

} // verus!
