//! The comment/label packing convention.
//!
//! A move's stored comment text carries two things in one field: the comment
//! proper, and an optional list of labels.  The stored string is
//! `comment`, or `comment_label1_label2...`, or `_label1_label2...` when only
//! labels exist; the part before the first underscore is the comment proper,
//! and the rest splits on underscores into the labels.  This module is the
//! only place that understands the separator rule.

use vstd::prelude::*;

use crate::sgf_parser::seq_has_char;
use crate::text::{chars_to_string, str_to_chars};

verus! {

/// Index of the first separator, or the length when there is none.
pub open spec fn find_us(s: Seq<char>) -> nat
    decreases s.len(),
{
    if s.len() == 0 {
        0
    } else if s[0] == '_' {
        0
    } else {
        (1 + find_us(s.subrange(1, s.len() as int))) as nat
    }
}

/// The first separator, when there is one, lies within the string.
pub proof fn lemma_find_us_le(s: Seq<char>)
    ensures
        find_us(s) <= s.len(),
    decreases s.len(),
{
    if s.len() > 0 && s[0] != '_' {
        lemma_find_us_le(s.subrange(1, s.len() as int));
    }
}

/// A separator-free prefix followed by a separator (or the end) pins
/// `find_us`.
pub proof fn lemma_find_us_eq(s: Seq<char>, n: int)
    requires
        0 <= n <= s.len(),
        forall|i: int| 0 <= i < n ==> #[trigger] s[i] != '_',
        n == s.len() || s[n] == '_',
    ensures
        find_us(s) == n,
    decreases s.len(),
{
    if n > 0 {
        lemma_find_us_eq(s.subrange(1, s.len() as int), n - 1);
    }
}

/// The comment proper: everything before the first separator.
pub open spec fn comment_proper(s: Seq<char>) -> Seq<char> {
    s.take(find_us(s) as int)
}

/// Splitting a label suffix on separators; never empty.
pub open spec fn label_split(s: Seq<char>) -> Seq<Seq<char>>
    decreases s.len(),
{
    let j = find_us(s) as int;
    if j < s.len() {
        seq![s.take(j)] + label_split(s.subrange(j + 1, s.len() as int))
    } else {
        seq![s]
    }
}

/// The labels carried by a stored comment string: nothing when there is no
/// separator, else the suffix after the first separator split on separators.
pub open spec fn labels_of(s: Seq<char>) -> Seq<Seq<char>> {
    let j = find_us(s) as int;
    if j < s.len() {
        label_split(s.subrange(j + 1, s.len() as int))
    } else {
        seq![]
    }
}

/// Labels joined with the separator.
pub open spec fn join_labels(ls: Seq<Seq<char>>) -> Seq<char>
    decreases ls.len(),
{
    if ls.len() == 0 {
        seq![]
    } else if ls.len() == 1 {
        ls[0]
    } else {
        ls[0] + seq!['_'] + join_labels(ls.subrange(1, ls.len() as int))
    }
}

/// What a comment proper and a label list pack into: the comment alone when
/// there are no labels (absent when that is empty too), else the comment,
/// one separator, and the joined labels.
pub open spec fn encode_side(c: Seq<char>, ls: Seq<Seq<char>>) -> Option<Seq<char>> {
    if ls.len() == 0 {
        if c.len() == 0 {
            Option::None
        } else {
            Option::Some(c)
        }
    } else {
        Option::Some(c + seq!['_'] + join_labels(ls))
    }
}

pub proof fn lemma_join_labels_push(ls: Seq<Seq<char>>, l: Seq<char>)
    requires
        ls.len() >= 1,
    ensures
        join_labels(ls.push(l)) == join_labels(ls) + seq!['_'] + l,
    decreases ls.len(),
{
    let w = ls.push(l);
    assert(w[0] == ls[0]);
    if ls.len() == 1 {
        assert(w.subrange(1, w.len() as int) =~= seq![l]);
        assert(join_labels(seq![l]) == l);
        assert(join_labels(w) =~= join_labels(ls) + seq!['_'] + l);
    } else {
        assert(w.subrange(1, w.len() as int) =~= ls.subrange(1, ls.len() as int).push(l));
        lemma_join_labels_push(ls.subrange(1, ls.len() as int), l);
        assert(join_labels(w) =~= join_labels(ls) + seq!['_'] + l);
    }
}

/// Splitting the joined labels gives the labels back, as long as none holds
/// a separator.
pub proof fn lemma_label_split_join(ls: Seq<Seq<char>>)
    requires
        ls.len() >= 1,
        forall|i: int| 0 <= i < ls.len() ==> !seq_has_char(#[trigger] ls[i], '_'),
    ensures
        label_split(join_labels(ls)) == ls,
    decreases ls.len(),
{
    if ls.len() == 1 {
        let s = ls[0];
        assert(!seq_has_char(s, '_'));
        assert(forall|i: int| 0 <= i < s.len() ==> #[trigger] s[i] != '_');
        lemma_find_us_eq(s, s.len() as int);
        assert(label_split(join_labels(ls)) =~= ls);
    } else {
        let tail = ls.subrange(1, ls.len() as int);
        assert forall|i: int| 0 <= i < tail.len() implies !seq_has_char(#[trigger] tail[i], '_') by {
            assert(tail[i] == ls[i + 1]);
        }
        let s = join_labels(ls);
        assert(s == ls[0] + seq!['_'] + join_labels(tail));
        assert(!seq_has_char(ls[0], '_'));
        assert forall|i: int| 0 <= i < ls[0].len() implies #[trigger] s[i] != '_' by {
            assert(s[i] == ls[0][i]);
        }
        assert(s[ls[0].len() as int] == '_');
        lemma_find_us_eq(s, ls[0].len() as int);
        assert(s.take(ls[0].len() as int) =~= ls[0]);
        assert(s.subrange(ls[0].len() as int + 1, s.len() as int) =~= join_labels(tail));
        lemma_label_split_join(tail);
        assert(label_split(s) =~= ls);
    }
}

/// The packing convention is invertible: what `encode_side` stores,
/// `comment_proper` and `labels_of` read back exactly, for comment and label
/// text free of the separator.
pub proof fn lemma_side_channel_round_trip(c: Seq<char>, ls: Seq<Seq<char>>)
    requires
        !seq_has_char(c, '_'),
        forall|i: int| 0 <= i < ls.len() ==> !seq_has_char(#[trigger] ls[i], '_'),
    ensures
        match encode_side(c, ls) {
            Option::None => c.len() == 0 && ls.len() == 0,
            Option::Some(s) => comment_proper(s) == c && labels_of(s) == ls,
        },
{
    assert(forall|i: int| 0 <= i < c.len() ==> #[trigger] c[i] != '_');
    if ls.len() == 0 {
        if c.len() > 0 {
            lemma_find_us_eq(c, c.len() as int);
            assert(comment_proper(c) =~= c);
        }
    } else {
        let s = c + seq!['_'] + join_labels(ls);
        assert forall|i: int| 0 <= i < c.len() implies #[trigger] s[i] != '_' by {
            assert(s[i] == c[i]);
        }
        assert(s[c.len() as int] == '_');
        lemma_find_us_eq(s, c.len() as int);
        assert(comment_proper(s) =~= c);
        assert(s.subrange(c.len() as int + 1, s.len() as int) =~= join_labels(ls));
        lemma_label_split_join(ls);
    }
}

/// Splitting keeps characters: a suffix free of some character splits into
/// labels free of it.
pub proof fn lemma_label_split_no_char(s: Seq<char>, ch: char)
    requires
        !seq_has_char(s, ch),
    ensures
        forall|k: int|
            0 <= k < label_split(s).len() ==> !seq_has_char(#[trigger] label_split(s)[k], ch),
    decreases s.len(),
{
    assert(forall|i: int| 0 <= i < s.len() ==> #[trigger] s[i] != ch);
    lemma_find_us_le(s);
    let j = find_us(s) as int;
    if j < s.len() {
        let head = s.take(j);
        let tail = s.subrange(j + 1, s.len() as int);
        assert(!seq_has_char(head, ch)) by {
            assert(forall|i: int| 0 <= i < head.len() ==> #[trigger] head[i] == s[i]);
        }
        assert(!seq_has_char(tail, ch)) by {
            assert(forall|i: int| 0 <= i < tail.len() ==> #[trigger] tail[i] == s[j + 1 + i]);
        }
        lemma_label_split_no_char(tail, ch);
        assert forall|k: int| 0 <= k < label_split(s).len() implies !seq_has_char(
            #[trigger] label_split(s)[k],
            ch,
        ) by {
            if k == 0 {
                assert(label_split(s)[0] == head);
            } else {
                assert(label_split(s)[k] == label_split(tail)[k - 1]);
            }
        }
    }
}

/// Reading the side channel keeps characters: a stored string free of some
/// character yields a comment proper and labels free of it.
pub proof fn lemma_decode_side_no_char(s: Seq<char>, ch: char)
    requires
        !seq_has_char(s, ch),
    ensures
        !seq_has_char(comment_proper(s), ch),
        forall|k: int|
            0 <= k < labels_of(s).len() ==> !seq_has_char(#[trigger] labels_of(s)[k], ch),
{
    assert(forall|i: int| 0 <= i < s.len() ==> #[trigger] s[i] != ch);
    lemma_find_us_le(s);
    let j = find_us(s) as int;
    let head = comment_proper(s);
    assert(!seq_has_char(head, ch)) by {
        assert(forall|i: int| 0 <= i < head.len() ==> #[trigger] head[i] == s[i]);
    }
    if j < s.len() {
        let tail = s.subrange(j + 1, s.len() as int);
        assert(!seq_has_char(tail, ch)) by {
            assert(forall|i: int| 0 <= i < tail.len() ==> #[trigger] tail[i] == s[j + 1 + i]);
        }
        lemma_label_split_no_char(tail, ch);
    }
}

pub proof fn lemma_join_labels_no_char(ls: Seq<Seq<char>>, ch: char)
    requires
        ch != '_',
        forall|k: int| 0 <= k < ls.len() ==> !seq_has_char(#[trigger] ls[k], ch),
    ensures
        !seq_has_char(join_labels(ls), ch),
    decreases ls.len(),
{
    if ls.len() == 0 {
    } else if ls.len() == 1 {
        assert(join_labels(ls) == ls[0]);
    } else {
        let tail = ls.subrange(1, ls.len() as int);
        assert forall|k: int| 0 <= k < tail.len() implies !seq_has_char(#[trigger] tail[k], ch) by {
            assert(tail[k] == ls[k + 1]);
        }
        lemma_join_labels_no_char(tail, ch);
        let s = join_labels(ls);
        assert(forall|i: int| 0 <= i < ls[0].len() ==> #[trigger] ls[0][i] != ch);
        assert(forall|i: int|
            0 <= i < join_labels(tail).len() ==> #[trigger] join_labels(tail)[i] != ch);
        assert forall|i: int| 0 <= i < s.len() implies #[trigger] s[i] != ch by {
            if i < ls[0].len() {
                assert(s[i] == ls[0][i]);
            } else if i == ls[0].len() {
                assert(s[i] == '_');
            } else {
                assert(s[i] == join_labels(tail)[i - ls[0].len() - 1]);
            }
        }
    }
}

/// Writing the side channel keeps characters: packing a comment proper and
/// labels free of some character (other than the separator itself) stores a
/// string free of it.
pub proof fn lemma_encode_side_no_char(c: Seq<char>, ls: Seq<Seq<char>>, ch: char)
    requires
        ch != '_',
        !seq_has_char(c, ch),
        forall|k: int| 0 <= k < ls.len() ==> !seq_has_char(#[trigger] ls[k], ch),
    ensures
        match encode_side(c, ls) {
            Option::Some(s) => !seq_has_char(s, ch),
            Option::None => true,
        },
{
    if ls.len() > 0 {
        lemma_join_labels_no_char(ls, ch);
        let s = c + seq!['_'] + join_labels(ls);
        assert(forall|i: int| 0 <= i < c.len() ==> #[trigger] c[i] != ch);
        assert(forall|i: int|
            0 <= i < join_labels(ls).len() ==> #[trigger] join_labels(ls)[i] != ch);
        assert forall|i: int| 0 <= i < s.len() implies #[trigger] s[i] != ch by {
            if i < c.len() {
                assert(s[i] == c[i]);
            } else if i == c.len() {
                assert(s[i] == '_');
            } else {
                assert(s[i] == join_labels(ls)[i - c.len() - 1]);
            }
        }
    }
}

/// Mathematical image of a list of strings.
pub open spec fn strings_view(v: Seq<String>) -> Seq<Seq<char>> {
    Seq::new(v.len(), |i: int| v[i]@)
}

/// Reads a stored comment string back into its comment proper and its label
/// list.
pub fn decode_side_channel(s: &str) -> (r: (String, Vec<String>))
    ensures
        r.0@ == comment_proper(s@),
        strings_view(r.1@) == labels_of(s@),
{
    let cs = str_to_chars(s);
    let n = cs.len();
    // Find the first separator.
    let mut j: usize = 0;
    while j < n && cs[j] != '_'
        invariant
            j <= n,
            n == cs@.len(),
            cs@ == s@,
            forall|i: int| 0 <= i < j ==> #[trigger] cs@[i] != '_',
        decreases n - j,
    {
        j = j + 1;
    }
    proof {
        lemma_find_us_eq(cs@, j as int);
    }
    let mut head: Vec<char> = Vec::new();
    let mut i: usize = 0;
    while i < j
        invariant
            i <= j <= n,
            n == cs@.len(),
            cs@ == s@,
            head@ == cs@.take(i as int),
        decreases j - i,
    {
        head.push(cs[i]);
        proof {
            assert(cs@.take(i + 1) =~= cs@.take(i as int).push(cs@[i as int]));
        }
        i = i + 1;
    }
    let comment = chars_to_string(&head);
    let mut labels: Vec<String> = Vec::new();
    if j == n {
        proof {
            assert(strings_view(labels@) =~= labels_of(s@));
        }
        return (comment, labels);
    }
    // Split the suffix after the first separator.
    let ghost suffix = cs@.subrange(j + 1, n as int);
    let mut p: usize = j + 1;
    let mut done = false;
    proof {
        assert(label_split(suffix) =~= strings_view(labels@) + label_split(
            cs@.subrange(p as int, n as int),
        ));
    }
    while !done
        invariant
            j + 1 <= p <= n,
            n == cs@.len(),
            cs@ == s@,
            suffix == cs@.subrange(j + 1, n as int),
            !done ==> label_split(suffix) == strings_view(labels@) + label_split(
                cs@.subrange(p as int, n as int),
            ),
            done ==> label_split(suffix) == strings_view(labels@),
        decreases n - p, (if done { 0int } else { 1int }),
    {
        let ghost part = cs@.subrange(p as int, n as int);
        let mut q: usize = p;
        while q < n && cs[q] != '_'
            invariant
                p <= q <= n,
                n == cs@.len(),
                forall|i2: int| p <= i2 < q ==> #[trigger] cs@[i2] != '_',
            decreases n - q,
        {
            q = q + 1;
        }
        proof {
            assert forall|i2: int| 0 <= i2 < q - p implies #[trigger] part[i2] != '_' by {
                assert(part[i2] == cs@[p + i2]);
            }
            if q < n {
                assert(part[q - p] == cs@[q as int]);
            }
            lemma_find_us_eq(part, q - p);
        }
        let mut seg: Vec<char> = Vec::new();
        let mut i2: usize = p;
        while i2 < q
            invariant
                p <= i2 <= q <= n,
                n == cs@.len(),
                seg@ == cs@.subrange(p as int, i2 as int),
            decreases q - i2,
        {
            seg.push(cs[i2]);
            proof {
                assert(cs@.subrange(p as int, i2 + 1) =~= cs@.subrange(p as int, i2 as int).push(
                    cs@[i2 as int],
                ));
            }
            i2 = i2 + 1;
        }
        proof {
            assert(seg@ =~= part.take(q - p));
        }
        let ghost labels0 = labels@;
        labels.push(chars_to_string(&seg));
        proof {
            assert(strings_view(labels@) =~= strings_view(labels0).push(seg@));
        }
        if q < n {
            proof {
                assert(part.subrange(q - p + 1, part.len() as int) =~= cs@.subrange(
                    q + 1,
                    n as int,
                ));
                assert(label_split(part) == seq![part.take(q - p)] + label_split(
                    cs@.subrange(q + 1, n as int),
                ));
                assert(strings_view(labels0) + (seq![seg@] + label_split(
                    cs@.subrange(q + 1, n as int),
                )) =~= strings_view(labels@) + label_split(cs@.subrange(q + 1, n as int)));
            }
            p = q + 1;
        } else {
            proof {
                assert(find_us(part) == part.len());
                assert(label_split(part) == seq![part]);
                assert(part.take(q - p) =~= part);
                assert(strings_view(labels0) + seq![seg@] =~= strings_view(labels@));
            }
            done = true;
        }
    }
    proof {
        assert(labels_of(s@) == label_split(suffix));
    }
    (comment, labels)
}

/// Packs a comment proper and a label list into the stored comment string.
pub fn encode_side_channel(comment: &str, labels: &Vec<String>) -> (r: Option<String>)
    ensures
        match r {
            Option::None => encode_side(comment@, strings_view(labels@)) is None,
            Option::Some(s) => encode_side(comment@, strings_view(labels@)) == Option::Some(s@),
        },
{
    let ghost ls = strings_view(labels@);
    if labels.len() == 0 {
        if comment.unicode_len() == 0 {
            return None;
        }
        let cs = str_to_chars(comment);
        return Some(chars_to_string(&cs));
    }
    let mut out: Vec<char> = str_to_chars(comment);
    out.push('_');
    let ghost prefix = comment@ + seq!['_'];
    proof {
        assert(out@ =~= prefix);
    }
    let mut i: usize = 0;
    let first = str_to_chars(labels[0].as_str());
    let mut joined: Vec<char> = first;
    proof {
        assert(ls.take(1) =~= seq![ls[0]]);
        assert(join_labels(ls.take(1)) == ls[0]);
        assert(joined@ == join_labels(ls.take(1)));
    }
    i = 1;
    while i < labels.len()
        invariant
            1 <= i <= labels@.len(),
            ls == strings_view(labels@),
            joined@ == join_labels(ls.take(i as int)),
        decreases labels@.len() - i,
    {
        joined.push('_');
        let part = str_to_chars(labels[i].as_str());
        let mut k: usize = 0;
        let ghost joined0 = joined@;
        while k < part.len()
            invariant
                k <= part@.len(),
                joined@ == joined0 + part@.take(k as int),
            decreases part@.len() - k,
        {
            joined.push(part[k]);
            proof {
                assert(joined0 + part@.take(k + 1) =~= (joined0 + part@.take(k as int)).push(
                    part@[k as int],
                ));
            }
            k = k + 1;
        }
        proof {
            assert(part@.take(part@.len() as int) =~= part@);
            assert(ls.take(i + 1) =~= ls.take(i as int).push(ls[i as int]));
            lemma_join_labels_push(ls.take(i as int), ls[i as int]);
            assert(part@ == ls[i as int]);
            assert(joined@ =~= join_labels(ls.take(i + 1)));
        }
        i = i + 1;
    }
    proof {
        assert(ls.take(ls.len() as int) =~= ls);
    }
    let mut k2: usize = 0;
    let ghost out0 = out@;
    while k2 < joined.len()
        invariant
            k2 <= joined@.len(),
            out@ == out0 + joined@.take(k2 as int),
        decreases joined@.len() - k2,
    {
        out.push(joined[k2]);
        proof {
            assert(out0 + joined@.take(k2 + 1) =~= (out0 + joined@.take(k2 as int)).push(
                joined@[k2 as int],
            ));
        }
        k2 = k2 + 1;
    }
    proof {
        assert(joined@.take(joined@.len() as int) =~= joined@);
        assert(out@ =~= comment@ + seq!['_'] + join_labels(ls));
    }
    Some(chars_to_string(&out))
}

} // verus!
