//! The live game state: a parsed document, the cursor into its move list,
//! and the board grid derived from them by replay.
//!
//! The board is never updated incrementally: every navigation or mutation
//! recomputes it from the initial stones and the move prefix before the
//! cursor, so the move list stays the single authority.

use vstd::prelude::*;

use crate::sgf_parser::{
    coord_in_bounds, md_view, move_wf, moves_view, sgf_wf, upairs_view, Move, MoveView, Player,
    SgfData, SgfView,
};
use crate::side_channel::{
    comment_proper, decode_side_channel, encode_side, encode_side_channel, labels_of, strings_view,
};

verus! {

/// The contents of one board point.
#[derive(Clone, Copy, PartialEq, Eq, Structural, Debug)]
pub enum Stone {
    Empty,
    Black,
    White,
}

pub open spec fn stone_of(p: Player) -> Stone {
    match p {
        Player::Black => Stone::Black,
        Player::White => Stone::White,
    }
}

/// Whether one of the first `k` entries of `cs` names the point.
pub open spec fn painted(cs: Seq<(int, int)>, k: int, x: int, y: int) -> bool {
    exists|j: int| 0 <= j < k && cs[j] == (x, y)
}

/// The point's contents before any move: white set-up stones win over black
/// ones, since they are painted after them.
pub open spec fn initial_stone(d: SgfView, x: int, y: int) -> Stone {
    if painted(d.aw, d.aw.len() as int, x, y) {
        Stone::White
    } else if painted(d.ab, d.ab.len() as int, x, y) {
        Stone::Black
    } else {
        Stone::Empty
    }
}

/// The point's contents after replaying the first `upto` moves: the last
/// move on the point wins, with no capture or legality rule.
pub open spec fn stone_at(d: SgfView, upto: int, x: int, y: int) -> Stone
    decreases upto,
{
    if upto <= 0 {
        initial_stone(d, x, y)
    } else {
        let m = d.moves[upto - 1];
        if m.x == x && m.y == y {
            stone_of(m.player)
        } else {
            stone_at(d, upto - 1, x, y)
        }
    }
}

/// The grid is square with the document's dimension and shows exactly the
/// replayed position.
pub open spec fn board_matches(b: Seq<Vec<Stone>>, d: SgfView, upto: int) -> bool {
    &&& b.len() == d.board_size
    &&& forall|y: int| 0 <= y < b.len() ==> (#[trigger] b[y])@.len() == d.board_size
    &&& forall|y: int, x: int|
        0 <= y < d.board_size && 0 <= x < d.board_size ==> (#[trigger] b[y]@[x]) == stone_at(
            d,
            upto,
            x,
            y,
        )
}

/// Replay is deterministic: any two grids that show the same prefix of the
/// same document agree on every point.
pub proof fn lemma_replay_deterministic(d: SgfView, upto: int, b1: Seq<Vec<Stone>>, b2: Seq<
    Vec<Stone>,
>)
    requires
        board_matches(b1, d, upto),
        board_matches(b2, d, upto),
    ensures
        forall|y: int, x: int|
            0 <= y < d.board_size && 0 <= x < d.board_size ==> (#[trigger] b1[y]@[x]) == (
            #[trigger] b2[y]@[x]),
{
}

/// Replaying the empty prefix shows exactly the initial set-up stones.
pub proof fn lemma_replay_initial(d: SgfView)
    ensures
        forall|x: int, y: int| stone_at(d, 0, x, y) == initial_stone(d, x, y),
{
}

/// Replaying one more move changes exactly that move's point to its
/// player's stone and leaves every other point as it was.
pub proof fn lemma_replay_applies_moves(d: SgfView, k: int)
    requires
        1 <= k <= d.moves.len(),
    ensures
        stone_at(d, k, d.moves[k - 1].x, d.moves[k - 1].y) == stone_of(d.moves[k - 1].player),
        forall|x: int, y: int|
            !(x == d.moves[k - 1].x && y == d.moves[k - 1].y) ==> stone_at(d, k, x, y) == stone_at(
                d,
                k - 1,
                x,
                y,
            ),
{
}

// ---------------------------------------------------------------------------
// Copy helpers (the derived clones carry no specification)
// ---------------------------------------------------------------------------

/// Copies a coordinate list.
pub fn copy_coords(v: &Vec<(usize, usize)>) -> (r: Vec<(usize, usize)>)
    ensures
        r@ == v@,
{
    let mut r: Vec<(usize, usize)> = Vec::new();
    let mut i: usize = 0;
    while i < v.len()
        invariant
            i <= v@.len(),
            r@ == v@.take(i as int),
        decreases v@.len() - i,
    {
        r.push(v[i]);
        proof {
            assert(v@.take(i + 1) =~= v@.take(i as int).push(v@[i as int]));
        }
        i = i + 1;
    }
    proof {
        assert(v@.take(v@.len() as int) =~= v@);
    }
    r
}

/// Copies one move, field by field.
pub fn clone_move(m: &Move) -> (r: Move)
    ensures
        r@ == m@,
{
    let comment: Option<String> = match &m.comment {
        Some(s) => Some(s.clone()),
        None => None,
    };
    let r = Move { player: m.player, x: m.x, y: m.y, comment, triangles: copy_coords(&m.triangles) };
    proof {
        assert(r@ =~~= m@);
    }
    r
}

/// Copies a move list.
pub fn clone_moves(ms: &Vec<Move>) -> (r: Vec<Move>)
    ensures
        moves_view(r@) == moves_view(ms@),
{
    let mut r: Vec<Move> = Vec::new();
    let mut i: usize = 0;
    while i < ms.len()
        invariant
            i <= ms@.len(),
            r@.len() == i,
            forall|j: int| 0 <= j < i ==> (#[trigger] r@[j])@ == ms@[j]@,
        decreases ms@.len() - i,
    {
        let c = clone_move(&ms[i]);
        r.push(c);
        i = i + 1;
    }
    proof {
        assert(moves_view(r@) =~= moves_view(ms@));
    }
    r
}

/// Copies a metadata list.
pub fn clone_metadata(md: &Vec<(String, String)>) -> (r: Vec<(String, String)>)
    ensures
        md_view(r@) == md_view(md@),
{
    let mut r: Vec<(String, String)> = Vec::new();
    let mut i: usize = 0;
    while i < md.len()
        invariant
            i <= md@.len(),
            r@.len() == i,
            forall|j: int|
                0 <= j < i ==> (#[trigger] r@[j]).0@ == md@[j].0@ && r@[j].1@ == md@[j].1@,
        decreases md@.len() - i,
    {
        let k = md[i].0.clone();
        let v = md[i].1.clone();
        r.push((k, v));
        i = i + 1;
    }
    proof {
        assert(md_view(r@) =~= md_view(md@));
    }
    r
}

// ---------------------------------------------------------------------------
// The game state
// ---------------------------------------------------------------------------

/// A loaded document with its cursor and derived board.
///
/// `moves` and `metadata` mirror the fields of `original_sgf`; the mutation
/// interface keeps the two in step so that serialization always persists
/// what the board shows.  `dirty` is raised by every mutation and cleared by
/// whoever persists the document.
pub struct GoGame {
    pub board_size: usize,
    pub board: Vec<Vec<Stone>>,
    pub moves: Vec<Move>,
    pub move_idx: usize,
    pub metadata: Vec<(String, String)>,
    pub original_sgf: SgfData,
    pub original_sgf_path: Option<String>,
    pub dirty: bool,
}

impl GoGame {
    /// The document this state presents.
    pub open spec fn doc(&self) -> SgfView {
        self.original_sgf@
    }

    /// Everything but the derived board: the document is well formed and the
    /// mirror fields and cursor agree with it.
    pub open spec fn sync_wf(&self) -> bool {
        &&& sgf_wf(self.doc())
        &&& self.board_size == self.original_sgf.board_size
        &&& moves_view(self.moves@) == self.doc().moves
        &&& md_view(self.metadata@) == self.doc().metadata
        &&& self.move_idx <= self.moves@.len()
    }

    /// The full invariant: the board shows the replay up to the cursor.
    pub open spec fn wf(&self) -> bool {
        &&& self.sync_wf()
        &&& board_matches(self.board@, self.doc(), self.move_idx as int)
    }

    /// Builds the game state for a parsed document: board derived from the
    /// initial stones, cursor at the start.
    pub fn new(sgf: SgfData, sgf_path: Option<String>) -> (r: GoGame)
        requires
            sgf_wf(sgf@),
        ensures
            r.wf(),
            r.doc() == sgf@,
            r.move_idx == 0,
            r.original_sgf_path == sgf_path,
            !r.dirty,
    {
        let moves = clone_moves(&sgf.moves);
        let metadata = clone_metadata(&sgf.metadata);
        let mut game = GoGame {
            board_size: sgf.board_size,
            board: Vec::new(),
            moves,
            move_idx: 0,
            metadata,
            original_sgf: sgf,
            original_sgf_path: sgf_path,
            dirty: false,
        };
        game.reset_board();
        game
    }

    /// Repaints the board with the initial stones only: first the black
    /// set-up stones, then the white ones, which therefore win a collision.
    pub fn reset_board(&mut self)
        requires
            old(self).sync_wf(),
        ensures
            final(self).sync_wf(),
            board_matches(final(self).board@, final(self).doc(), 0),
            final(self).board_size == old(self).board_size,
            final(self).moves@ == old(self).moves@,
            final(self).move_idx == old(self).move_idx,
            final(self).metadata@ == old(self).metadata@,
            final(self).original_sgf == old(self).original_sgf,
            final(self).original_sgf_path == old(self).original_sgf_path,
            final(self).dirty == old(self).dirty,
    {
        let ghost d = self.doc();
        let n = self.board_size;
        let mut board: Vec<Vec<Stone>> = Vec::new();
        while board.len() < n
            invariant
                board@.len() <= n,
                forall|y: int| 0 <= y < board@.len() ==> (#[trigger] board@[y])@.len() == n,
                forall|y: int, x: int|
                    0 <= y < board@.len() && 0 <= x < n ==> (#[trigger] board@[y]@[x])
                        == Stone::Empty,
            decreases n - board@.len(),
        {
            let mut row: Vec<Stone> = Vec::new();
            while row.len() < n
                invariant
                    row@.len() <= n,
                    forall|x: int| 0 <= x < row@.len() ==> (#[trigger] row@[x]) == Stone::Empty,
                decreases n - row@.len(),
            {
                row.push(Stone::Empty);
            }
            board.push(row);
        }
        // Paint the black set-up stones.
        let mut i: usize = 0;
        while i < self.original_sgf.ab.len()
            invariant
                i <= self.original_sgf.ab@.len(),
                d == self.doc(),
                old(self) == self,
                old(self).sync_wf(),
                n == d.board_size,
                board@.len() == n,
                forall|y: int| 0 <= y < board@.len() ==> (#[trigger] board@[y])@.len() == n,
                forall|y: int, x: int|
                    0 <= y < n && 0 <= x < n ==> (#[trigger] board@[y]@[x]) == (if painted(
                        d.ab,
                        i as int,
                        x,
                        y,
                    ) {
                        Stone::Black
                    } else {
                        Stone::Empty
                    }),
            decreases self.original_sgf.ab@.len() - i,
        {
            let (cx, cy) = self.original_sgf.ab[i];
            proof {
                assert(coord_in_bounds(d.board_size, d.ab[i as int]));
                assert(d.ab[i as int] == (cx as int, cy as int));
            }
            let ghost prev = board@;
            let row = &mut board[cy];
            row[cx] = Stone::Black;
            proof {
                assert forall|y: int, x: int| 0 <= y < n && 0 <= x < n implies (
                #[trigger] board@[y]@[x]) == (if painted(d.ab, i + 1, x, y) {
                    Stone::Black
                } else {
                    Stone::Empty
                }) by {
                    if y == cy as int && x == cx as int {
                        assert(board@[y]@[x] == Stone::Black);
                        assert(d.ab[i as int] == (x, y));
                        assert(painted(d.ab, i + 1, x, y));
                    } else {
                        assert(board@[y]@[x] == prev[y]@[x]);
                        if painted(d.ab, i + 1, x, y) {
                            let j = choose|j: int| 0 <= j < i + 1 && d.ab[j] == (x, y);
                            assert(j < i);
                            assert(painted(d.ab, i as int, x, y));
                        }
                        if painted(d.ab, i as int, x, y) {
                            let j = choose|j: int| 0 <= j < i && d.ab[j] == (x, y);
                            assert(0 <= j < i + 1 && d.ab[j] == (x, y));
                            assert(painted(d.ab, i + 1, x, y));
                        }
                    }
                }
            }
            i = i + 1;
        }
        proof {
            assert(painted(d.ab, i as int, 0, 0) == painted(d.ab, d.ab.len() as int, 0, 0));
        }
        // Paint the white set-up stones over them.
        let mut w: usize = 0;
        while w < self.original_sgf.aw.len()
            invariant
                w <= self.original_sgf.aw@.len(),
                d == self.doc(),
                old(self) == self,
                old(self).sync_wf(),
                n == d.board_size,
                board@.len() == n,
                forall|y: int| 0 <= y < board@.len() ==> (#[trigger] board@[y])@.len() == n,
                forall|y: int, x: int|
                    0 <= y < n && 0 <= x < n ==> (#[trigger] board@[y]@[x]) == (if painted(
                        d.aw,
                        w as int,
                        x,
                        y,
                    ) {
                        Stone::White
                    } else if painted(d.ab, d.ab.len() as int, x, y) {
                        Stone::Black
                    } else {
                        Stone::Empty
                    }),
            decreases self.original_sgf.aw@.len() - w,
        {
            let (cx, cy) = self.original_sgf.aw[w];
            proof {
                assert(coord_in_bounds(d.board_size, d.aw[w as int]));
                assert(d.aw[w as int] == (cx as int, cy as int));
            }
            let ghost prev = board@;
            let row = &mut board[cy];
            row[cx] = Stone::White;
            proof {
                assert forall|y: int, x: int| 0 <= y < n && 0 <= x < n implies (
                #[trigger] board@[y]@[x]) == (if painted(d.aw, w + 1, x, y) {
                    Stone::White
                } else if painted(d.ab, d.ab.len() as int, x, y) {
                    Stone::Black
                } else {
                    Stone::Empty
                }) by {
                    if y == cy as int && x == cx as int {
                        assert(d.aw[w as int] == (x, y));
                        assert(painted(d.aw, w + 1, x, y));
                    } else {
                        assert(board@[y]@[x] == prev[y]@[x]);
                        if painted(d.aw, w + 1, x, y) {
                            let j = choose|j: int| 0 <= j < w + 1 && d.aw[j] == (x, y);
                            assert(j < w);
                            assert(painted(d.aw, w as int, x, y));
                        }
                        if painted(d.aw, w as int, x, y) {
                            let j = choose|j: int| 0 <= j < w && d.aw[j] == (x, y);
                            assert(0 <= j < w + 1 && d.aw[j] == (x, y));
                            assert(painted(d.aw, w + 1, x, y));
                        }
                    }
                }
            }
            w = w + 1;
        }
        self.board = board;
        proof {
            assert forall|y: int, x: int| 0 <= y < d.board_size && 0 <= x < d.board_size implies (
            #[trigger] self.board@[y]@[x]) == stone_at(d, 0, x, y) by {
                assert(self.board@[y]@[x] == (if painted(d.aw, d.aw.len() as int, x, y) {
                    Stone::White
                } else if painted(d.ab, d.ab.len() as int, x, y) {
                    Stone::Black
                } else {
                    Stone::Empty
                }));
            }
        }
    }

    /// Rebuilds the board by replaying the first `up_to` moves from scratch
    /// over the initial stones; each move overwrites its point.
    pub fn apply_moves(&mut self, up_to: usize)
        requires
            old(self).sync_wf(),
            up_to <= old(self).moves@.len(),
        ensures
            final(self).sync_wf(),
            board_matches(final(self).board@, final(self).doc(), up_to as int),
            final(self).board_size == old(self).board_size,
            final(self).moves@ == old(self).moves@,
            final(self).move_idx == old(self).move_idx,
            final(self).metadata@ == old(self).metadata@,
            final(self).original_sgf == old(self).original_sgf,
            final(self).original_sgf_path == old(self).original_sgf_path,
            final(self).dirty == old(self).dirty,
    {
        self.reset_board();
        let ghost d = self.doc();
        let n = self.board_size;
        let mut i: usize = 0;
        while i < up_to
            invariant
                i <= up_to <= self.moves@.len(),
                d == self.doc(),
                old(self).sync_wf(),
                self.sync_wf(),
                self.board_size == old(self).board_size,
                self.moves@ == old(self).moves@,
                self.move_idx == old(self).move_idx,
                self.metadata@ == old(self).metadata@,
                self.original_sgf == old(self).original_sgf,
                self.original_sgf_path == old(self).original_sgf_path,
                self.dirty == old(self).dirty,
                n == d.board_size,
                board_matches(self.board@, d, i as int),
            decreases up_to - i,
        {
            let mv_x = self.moves[i].x;
            let mv_y = self.moves[i].y;
            let stone = match self.moves[i].player {
                Player::Black => Stone::Black,
                Player::White => Stone::White,
            };
            let ghost m = d.moves[i as int];
            proof {
                assert(m == self.moves@[i as int]@);
                assert(move_wf(d.board_size, m));
                assert(m.x == mv_x as int && m.y == mv_y as int);
                assert(stone == stone_of(m.player));
            }
            let ghost prev = self.board@;
            let row = &mut self.board[mv_y];
            row[mv_x] = stone;
            proof {
                assert forall|y: int, x: int| 0 <= y < d.board_size && 0 <= x
                    < d.board_size implies (#[trigger] self.board@[y]@[x]) == stone_at(
                    d,
                    i + 1,
                    x,
                    y,
                ) by {
                    if y == mv_y as int && x == mv_x as int {
                        assert(self.board@[y]@[x] == stone);
                    } else {
                        assert(self.board@[y]@[x] == prev[y]@[x]);
                        assert(stone_at(d, i + 1, x, y) == stone_at(d, i as int, x, y));
                    }
                }
            }
            i = i + 1;
        }
    }

    /// Steps the cursor one move forward, if a move remains, and refreshes
    /// the board.
    pub fn next_move(&mut self)
        requires
            old(self).wf(),
        ensures
            final(self).wf(),
            final(self).doc() == old(self).doc(),
            final(self).move_idx as int == (if old(self).move_idx < old(self).moves@.len() {
                old(self).move_idx + 1
            } else {
                old(self).move_idx as int
            }),
            final(self).moves@ == old(self).moves@,
            final(self).metadata@ == old(self).metadata@,
            final(self).original_sgf_path == old(self).original_sgf_path,
            final(self).dirty == old(self).dirty,
    {
        if self.move_idx < self.moves.len() {
            self.move_idx = self.move_idx + 1;
            let idx = self.move_idx;
            self.apply_moves(idx);
        }
    }

    /// Steps the cursor one move back, if it is not at the start, and
    /// refreshes the board.
    pub fn prev_move(&mut self)
        requires
            old(self).wf(),
        ensures
            final(self).wf(),
            final(self).doc() == old(self).doc(),
            final(self).move_idx == (if old(self).move_idx > 0 {
                (old(self).move_idx - 1) as usize
            } else {
                0
            }),
            final(self).moves@ == old(self).moves@,
            final(self).metadata@ == old(self).metadata@,
            final(self).original_sgf_path == old(self).original_sgf_path,
            final(self).dirty == old(self).dirty,
    {
        if self.move_idx > 0 {
            self.move_idx = self.move_idx - 1;
            let idx = self.move_idx;
            self.apply_moves(idx);
        }
    }

    /// The player to move at the cursor: the next listed move's player, or
    /// Black once the list is exhausted.
    pub fn current_player(&self) -> (r: Player)
        requires
            self.wf(),
        ensures
            r == (if self.move_idx < self.doc().moves.len() {
                self.doc().moves[self.move_idx as int].player
            } else {
                Player::Black
            }),
    {
        if self.move_idx < self.moves.len() {
            self.moves[self.move_idx].player
        } else {
            Player::Black
        }
    }

    /// The triangle annotations of the move the cursor sits on, or nothing
    /// when the cursor is at the start.
    pub fn current_triangles(&self) -> (r: Vec<(usize, usize)>)
        requires
            self.wf(),
        ensures
            upairs_view(r@) == (if 1 <= self.move_idx <= self.doc().moves.len() {
                self.doc().moves[self.move_idx - 1].triangles
            } else {
                Seq::<(int, int)>::empty()
            }),
    {
        if self.move_idx > 0 && self.move_idx <= self.moves.len() {
            let r = copy_coords(&self.moves[self.move_idx - 1].triangles);
            proof {
                assert(self.moves@[self.move_idx - 1]@ == self.doc().moves[self.move_idx - 1]);
            }
            r
        } else {
            let r: Vec<(usize, usize)> = Vec::new();
            proof {
                assert(upairs_view(r@) =~= Seq::<(int, int)>::empty());
            }
            r
        }
    }
}

/// Inserting a move and immediately deleting it at the same index restores
/// the move sequence, and an insertion shifts every later move's position by
/// exactly one while leaving earlier moves in place.
pub proof fn lemma_insert_delete_restores(ms: Seq<MoveView>, i: int, m: MoveView)
    requires
        0 <= i <= ms.len(),
    ensures
        ms.insert(i, m).remove(i) == ms,
        ms.insert(i, m).len() == ms.len() + 1,
        ms.insert(i, m)[i] == m,
        forall|j: int| 0 <= j < i ==> #[trigger] ms.insert(i, m)[j] == ms[j],
        forall|j: int| i <= j < ms.len() ==> #[trigger] ms.insert(i, m)[j + 1] == ms[j],
{
    assert(ms.insert(i, m).remove(i) =~= ms);
}

// ---------------------------------------------------------------------------
// Side data on moves
// ---------------------------------------------------------------------------

/// The stored comment string of a move, empty when it has none.
pub open spec fn stored_comment(m: MoveView) -> Seq<char> {
    match m.comment {
        Option::Some(c) => c,
        Option::None => Seq::empty(),
    }
}

/// Whether a move carries a nonempty comment proper (its label suffix does
/// not count).
pub open spec fn annotated(m: MoveView) -> bool {
    comment_proper(stored_comment(m)).len() > 0
}

/// The in-bounds entries of a coordinate list, in order.
pub open spec fn filter_bounded(cs: Seq<(int, int)>, sz: int) -> Seq<(int, int)>
    decreases cs.len(),
{
    if cs.len() == 0 {
        seq![]
    } else {
        let rest = filter_bounded(cs.subrange(1, cs.len() as int), sz);
        if coord_in_bounds(sz, cs[0]) {
            seq![cs[0]] + rest
        } else {
            rest
        }
    }
}

pub proof fn lemma_filter_bounded_push(cs: Seq<(int, int)>, c: (int, int), sz: int)
    ensures
        filter_bounded(cs.push(c), sz) == filter_bounded(cs, sz) + (if coord_in_bounds(sz, c) {
            seq![c]
        } else {
            seq![]
        }),
    decreases cs.len(),
{
    let w = cs.push(c);
    if cs.len() == 0 {
        let e = Seq::<(int, int)>::empty();
        assert(filter_bounded(e, sz) == Seq::<(int, int)>::empty());
        assert(w.subrange(1, w.len() as int) =~= e);
        assert(w[0] == c);
        if coord_in_bounds(sz, c) {
            assert(filter_bounded(w, sz) =~= filter_bounded(cs, sz) + seq![c]);
        } else {
            assert(filter_bounded(w, sz) =~= filter_bounded(cs, sz));
        }
    } else {
        assert(w[0] == cs[0]);
        assert(w.subrange(1, w.len() as int) =~= cs.subrange(1, cs.len() as int).push(c));
        lemma_filter_bounded_push(cs.subrange(1, cs.len() as int), c, sz);
        if coord_in_bounds(sz, cs[0]) {
            assert(filter_bounded(w, sz) =~= filter_bounded(cs, sz) + (if coord_in_bounds(sz, c) {
                seq![c]
            } else {
                seq![]
            }));
        }
    }
}

pub proof fn lemma_filter_bounded_in_bounds(cs: Seq<(int, int)>, sz: int)
    ensures
        forall|i: int|
            0 <= i < filter_bounded(cs, sz).len() ==> coord_in_bounds(
                sz,
                #[trigger] filter_bounded(cs, sz)[i],
            ),
    decreases cs.len(),
{
    if cs.len() > 0 {
        let rest = cs.subrange(1, cs.len() as int);
        lemma_filter_bounded_in_bounds(rest, sz);
        let out = filter_bounded(cs, sz);
        if coord_in_bounds(sz, cs[0]) {
            assert forall|i: int| 0 <= i < out.len() implies coord_in_bounds(
                sz,
                #[trigger] out[i],
            ) by {
                if i == 0 {
                    assert(out[0] == cs[0]);
                } else {
                    assert(out[i] == filter_bounded(rest, sz)[i - 1]);
                }
            }
        } else {
            assert forall|i: int| 0 <= i < out.len() implies coord_in_bounds(
                sz,
                #[trigger] out[i],
            ) by {
                assert(out[i] == filter_bounded(rest, sz)[i]);
            }
        }
    }
}

/// Whether a move carries a nonempty comment proper.
fn move_annotated(m: &Move) -> (r: bool)
    ensures
        r == annotated(m@),
{
    match &m.comment {
        Some(c) => {
            let (proper, _labels) = decode_side_channel(c.as_str());
            let empty = proper.as_str().is_empty();
            !empty
        },
        None => {
            proof {
                assert(comment_proper(Seq::<char>::empty()) =~= Seq::<char>::empty());
            }
            false
        },
    }
}

/// Replaces the comment field of one move.
fn set_comment_at(ms: &mut Vec<Move>, i: usize, c: &Option<String>)
    requires
        i < old(ms)@.len(),
    ensures
        moves_view(final(ms)@) == moves_view(old(ms)@).update(
            i as int,
            MoveView { comment: ocs_view(*c), ..moves_view(old(ms)@)[i as int] },
        ),
{
    let cc: Option<String> = match c {
        Some(s) => Some(s.clone()),
        None => None,
    };
    let m = &mut ms[i];
    m.comment = cc;
    proof {
        assert(moves_view(final(ms)@) =~~= moves_view(old(ms)@).update(
            i as int,
            MoveView { comment: ocs_view(*c), ..moves_view(old(ms)@)[i as int] },
        ));
    }
}

/// Replaces the coordinate of one move.
fn set_coord_at(ms: &mut Vec<Move>, i: usize, x: usize, y: usize)
    requires
        i < old(ms)@.len(),
    ensures
        moves_view(final(ms)@) == moves_view(old(ms)@).update(
            i as int,
            MoveView { x: x as int, y: y as int, ..moves_view(old(ms)@)[i as int] },
        ),
{
    let m = &mut ms[i];
    m.x = x;
    m.y = y;
    proof {
        assert(moves_view(final(ms)@) =~~= moves_view(old(ms)@).update(
            i as int,
            MoveView { x: x as int, y: y as int, ..moves_view(old(ms)@)[i as int] },
        ));
    }
}

/// Replaces the triangle set of one move.
fn set_triangles_at(ms: &mut Vec<Move>, i: usize, tris: &Vec<(usize, usize)>)
    requires
        i < old(ms)@.len(),
    ensures
        moves_view(final(ms)@) == moves_view(old(ms)@).update(
            i as int,
            MoveView { triangles: upairs_view(tris@), ..moves_view(old(ms)@)[i as int] },
        ),
{
    let copy = copy_coords(tris);
    let m = &mut ms[i];
    m.triangles = copy;
    proof {
        assert(moves_view(final(ms)@) =~~= moves_view(old(ms)@).update(
            i as int,
            MoveView { triangles: upairs_view(tris@), ..moves_view(old(ms)@)[i as int] },
        ));
    }
}

/// Mathematical image of an optional comment string.
pub open spec fn ocs_view(c: Option<String>) -> Option<Seq<char>> {
    match c {
        Option::Some(s) => Option::Some(s@),
        Option::None => Option::None,
    }
}

impl GoGame {
    /// Inserts a new move at `position` with empty side data; the cursor
    /// moves to just after it and the board is rebuilt.  A coordinate off
    /// the board is rejected and nothing changes.
    pub fn insert_move(&mut self, position: usize, player: Player, x: usize, y: usize) -> (ok:
        bool)
        requires
            old(self).wf(),
            position <= old(self).moves@.len(),
        ensures
            ok == (x < old(self).board_size && y < old(self).board_size),
            ok ==> {
                &&& final(self).wf()
                &&& final(self).doc() == (SgfView {
                    moves: old(self).doc().moves.insert(
                        position as int,
                        MoveView {
                            player,
                            x: x as int,
                            y: y as int,
                            comment: Option::None,
                            triangles: Seq::empty(),
                        },
                    ),
                    ..old(self).doc()
                })
                &&& final(self).move_idx == position + 1
                &&& final(self).dirty
                &&& final(self).original_sgf_path == old(self).original_sgf_path
            },
            !ok ==> *final(self) == *old(self),
    {
        if !(x < self.board_size && y < self.board_size) {
            return false;
        }
        let ghost d0 = self.doc();
        let ghost newm = MoveView {
            player,
            x: x as int,
            y: y as int,
            comment: Option::None,
            triangles: Seq::empty(),
        };
        let mv = Move { player, x, y, comment: None, triangles: Vec::new() };
        proof {
            assert(mv@ =~~= newm);
        }
        let mv2 = clone_move(&mv);
        self.moves.insert(position, mv);
        self.original_sgf.moves.insert(position, mv2);
        let n2 = self.moves.len();
        proof {
            assert(position < n2);
        }
        self.move_idx = position + 1;
        proof {
            assert(moves_view(self.moves@) =~= d0.moves.insert(position as int, newm));
            assert(moves_view(self.original_sgf.moves@) =~= d0.moves.insert(position as int, newm));
            let d1 = self.doc();
            assert(d1 =~= SgfView { moves: d0.moves.insert(position as int, newm), ..d0 });
            assert forall|i: int| 0 <= i < d1.moves.len() implies move_wf(
                d1.board_size,
                #[trigger] d1.moves[i],
            ) by {
                if i < position {
                    assert(d1.moves[i] == d0.moves[i]);
                } else if i == position {
                    assert(d1.moves[i] == newm);
                } else {
                    assert(d1.moves[i] == d0.moves[i - 1]);
                }
            }
            assert(sgf_wf(d1));
        }
        let idx = self.move_idx;
        self.apply_moves(idx);
        self.dirty = true;
        true
    }

    /// Removes the move at `position`; the cursor is pulled back when it
    /// pointed past the removed move, and the board is rebuilt.  An index
    /// past the end is rejected and nothing changes.
    pub fn delete_move(&mut self, position: usize) -> (ok: bool)
        requires
            old(self).wf(),
        ensures
            ok == (position < old(self).moves@.len()),
            ok ==> {
                &&& final(self).wf()
                &&& final(self).doc() == (SgfView {
                    moves: old(self).doc().moves.remove(position as int),
                    ..old(self).doc()
                })
                &&& final(self).move_idx as int == (if old(self).move_idx > position {
                    old(self).move_idx - 1
                } else {
                    old(self).move_idx as int
                })
                &&& final(self).dirty
                &&& final(self).original_sgf_path == old(self).original_sgf_path
            },
            !ok ==> *final(self) == *old(self),
    {
        if position >= self.moves.len() {
            return false;
        }
        let ghost d0 = self.doc();
        self.moves.remove(position);
        self.original_sgf.moves.remove(position);
        if self.move_idx > position {
            self.move_idx = self.move_idx - 1;
        }
        proof {
            assert(moves_view(self.moves@) =~= d0.moves.remove(position as int));
            assert(moves_view(self.original_sgf.moves@) =~= d0.moves.remove(position as int));
            let d1 = self.doc();
            assert(d1 =~= SgfView { moves: d0.moves.remove(position as int), ..d0 });
            assert forall|i: int| 0 <= i < d1.moves.len() implies move_wf(
                d1.board_size,
                #[trigger] d1.moves[i],
            ) by {
                if i < position {
                    assert(d1.moves[i] == d0.moves[i]);
                } else {
                    assert(d1.moves[i] == d0.moves[i + 1]);
                }
            }
            assert(sgf_wf(d1));
        }
        let idx = self.move_idx;
        self.apply_moves(idx);
        self.dirty = true;
        true
    }

    /// Rewrites the coordinate of the move at `position` in place, keeping
    /// its player, order and side data, and rebuilds the board.  An index
    /// past the end or a coordinate off the board is rejected.
    pub fn relocate_move(&mut self, position: usize, x: usize, y: usize) -> (ok: bool)
        requires
            old(self).wf(),
        ensures
            ok == (position < old(self).moves@.len() && x < old(self).board_size && y < old(
                self,
            ).board_size),
            ok ==> {
                &&& final(self).wf()
                &&& final(self).doc() == (SgfView {
                    moves: old(self).doc().moves.update(
                        position as int,
                        MoveView {
                            x: x as int,
                            y: y as int,
                            ..old(self).doc().moves[position as int]
                        },
                    ),
                    ..old(self).doc()
                })
                &&& final(self).move_idx == old(self).move_idx
                &&& final(self).dirty
                &&& final(self).original_sgf_path == old(self).original_sgf_path
            },
            !ok ==> *final(self) == *old(self),
    {
        if !(position < self.moves.len() && x < self.board_size && y < self.board_size) {
            return false;
        }
        let ghost d0 = self.doc();
        set_coord_at(&mut self.moves, position, x, y);
        proof {
            assert(moves_view(self.original_sgf.moves@) == d0.moves);
            assert(position < self.original_sgf.moves@.len());
        }
        set_coord_at(&mut self.original_sgf.moves, position, x, y);
        proof {
            let newm = MoveView { x: x as int, y: y as int, ..d0.moves[position as int] };
            assert(moves_view(self.moves@) == d0.moves.update(position as int, newm));
            assert(moves_view(self.original_sgf.moves@) == d0.moves.update(position as int, newm));
            let d1 = self.doc();
            assert(d1 =~= SgfView { moves: d0.moves.update(position as int, newm), ..d0 });
            assert forall|i: int| 0 <= i < d1.moves.len() implies move_wf(
                d1.board_size,
                #[trigger] d1.moves[i],
            ) by {
                if i != position {
                    assert(d1.moves[i] == d0.moves[i]);
                } else {
                    assert(move_wf(d0.board_size, d0.moves[i]));
                }
            }
            assert(sgf_wf(d1));
        }
        let idx = self.move_idx;
        self.apply_moves(idx);
        self.dirty = true;
        true
    }

    /// Replaces the comment proper of the move at `position`, preserving its
    /// label suffix, and rebuilds the board.  An index past the end is
    /// rejected.
    pub fn set_comment(&mut self, position: usize, text: &str) -> (ok: bool)
        requires
            old(self).wf(),
        ensures
            ok == (position < old(self).moves@.len()),
            ok ==> {
                &&& final(self).wf()
                &&& final(self).doc() == (SgfView {
                    moves: old(self).doc().moves.update(
                        position as int,
                        MoveView {
                            comment: encode_side(
                                text@,
                                labels_of(stored_comment(old(self).doc().moves[position as int])),
                            ),
                            ..old(self).doc().moves[position as int]
                        },
                    ),
                    ..old(self).doc()
                })
                &&& final(self).move_idx == old(self).move_idx
                &&& final(self).dirty
                &&& final(self).original_sgf_path == old(self).original_sgf_path
            },
            !ok ==> *final(self) == *old(self),
    {
        if position >= self.moves.len() {
            return false;
        }
        let ghost d0 = self.doc();
        let existing: String = match &self.moves[position].comment {
            Some(s) => s.clone(),
            None => String::new(),
        };
        proof {
            assert(self.moves@[position as int]@ == d0.moves[position as int]);
            assert(existing@ == stored_comment(d0.moves[position as int]));
        }
        let (_proper, labels) = decode_side_channel(existing.as_str());
        let new_comment = encode_side_channel(text, &labels);
        proof {
            assert(strings_view(labels@) == labels_of(existing@));
            assert(ocs_view(new_comment) == encode_side(text@, labels_of(existing@)));
        }
        set_comment_at(&mut self.moves, position, &new_comment);
        proof {
            assert(moves_view(self.original_sgf.moves@) == d0.moves);
            assert(position < self.original_sgf.moves@.len());
        }
        set_comment_at(&mut self.original_sgf.moves, position, &new_comment);
        proof {
            let newm = MoveView {
                comment: encode_side(text@, labels_of(stored_comment(d0.moves[position as int]))),
                ..d0.moves[position as int]
            };
            assert(moves_view(self.moves@) == d0.moves.update(position as int, newm));
            assert(moves_view(self.original_sgf.moves@) == d0.moves.update(position as int, newm));
            let d1 = self.doc();
            assert(d1 =~= SgfView { moves: d0.moves.update(position as int, newm), ..d0 });
            assert forall|i: int| 0 <= i < d1.moves.len() implies move_wf(
                d1.board_size,
                #[trigger] d1.moves[i],
            ) by {
                if i != position {
                    assert(d1.moves[i] == d0.moves[i]);
                } else {
                    assert(move_wf(d0.board_size, d0.moves[i]));
                }
            }
            assert(sgf_wf(d1));
        }
        let idx = self.move_idx;
        self.apply_moves(idx);
        self.dirty = true;
        true
    }

    /// Replaces the label suffix of the move at `position`, preserving its
    /// comment proper, and rebuilds the board.  An index past the end is
    /// rejected.
    pub fn set_labels(&mut self, position: usize, labels: &Vec<String>) -> (ok: bool)
        requires
            old(self).wf(),
        ensures
            ok == (position < old(self).moves@.len()),
            ok ==> {
                &&& final(self).wf()
                &&& final(self).doc() == (SgfView {
                    moves: old(self).doc().moves.update(
                        position as int,
                        MoveView {
                            comment: encode_side(
                                comment_proper(
                                    stored_comment(old(self).doc().moves[position as int]),
                                ),
                                strings_view(labels@),
                            ),
                            ..old(self).doc().moves[position as int]
                        },
                    ),
                    ..old(self).doc()
                })
                &&& final(self).move_idx == old(self).move_idx
                &&& final(self).dirty
                &&& final(self).original_sgf_path == old(self).original_sgf_path
            },
            !ok ==> *final(self) == *old(self),
    {
        if position >= self.moves.len() {
            return false;
        }
        let ghost d0 = self.doc();
        let existing: String = match &self.moves[position].comment {
            Some(s) => s.clone(),
            None => String::new(),
        };
        proof {
            assert(self.moves@[position as int]@ == d0.moves[position as int]);
            assert(existing@ == stored_comment(d0.moves[position as int]));
        }
        let (proper, _old_labels) = decode_side_channel(existing.as_str());
        let new_comment = encode_side_channel(proper.as_str(), labels);
        proof {
            assert(proper@ == comment_proper(existing@));
            assert(ocs_view(new_comment) == encode_side(
                comment_proper(existing@),
                strings_view(labels@),
            ));
        }
        set_comment_at(&mut self.moves, position, &new_comment);
        proof {
            assert(moves_view(self.original_sgf.moves@) == d0.moves);
            assert(position < self.original_sgf.moves@.len());
        }
        set_comment_at(&mut self.original_sgf.moves, position, &new_comment);
        proof {
            let newm = MoveView {
                comment: encode_side(
                    comment_proper(stored_comment(d0.moves[position as int])),
                    strings_view(labels@),
                ),
                ..d0.moves[position as int]
            };
            assert(moves_view(self.moves@) == d0.moves.update(position as int, newm));
            assert(moves_view(self.original_sgf.moves@) == d0.moves.update(position as int, newm));
            let d1 = self.doc();
            assert(d1 =~= SgfView { moves: d0.moves.update(position as int, newm), ..d0 });
            assert forall|i: int| 0 <= i < d1.moves.len() implies move_wf(
                d1.board_size,
                #[trigger] d1.moves[i],
            ) by {
                if i != position {
                    assert(d1.moves[i] == d0.moves[i]);
                } else {
                    assert(move_wf(d0.board_size, d0.moves[i]));
                }
            }
            assert(sgf_wf(d1));
        }
        let idx = self.move_idx;
        self.apply_moves(idx);
        self.dirty = true;
        true
    }

    /// Replaces the triangle annotations of the move at `position`
    /// wholesale; entries off the board are dropped rather than rejecting
    /// the call.  An index past the end is rejected.
    pub fn set_triangles(&mut self, position: usize, tris: &Vec<(usize, usize)>) -> (ok: bool)
        requires
            old(self).wf(),
        ensures
            ok == (position < old(self).moves@.len()),
            ok ==> {
                &&& final(self).wf()
                &&& final(self).doc() == (SgfView {
                    moves: old(self).doc().moves.update(
                        position as int,
                        MoveView {
                            triangles: filter_bounded(
                                upairs_view(tris@),
                                old(self).board_size as int,
                            ),
                            ..old(self).doc().moves[position as int]
                        },
                    ),
                    ..old(self).doc()
                })
                &&& final(self).move_idx == old(self).move_idx
                &&& final(self).dirty
                &&& final(self).original_sgf_path == old(self).original_sgf_path
            },
            !ok ==> *final(self) == *old(self),
    {
        if position >= self.moves.len() {
            return false;
        }
        let ghost d0 = self.doc();
        let mut kept: Vec<(usize, usize)> = Vec::new();
        let mut i: usize = 0;
        proof {
            assert(upairs_view(tris@).take(0) =~= Seq::<(int, int)>::empty());
            assert(upairs_view(kept@) =~= filter_bounded(upairs_view(tris@).take(0), d0.board_size));
        }
        while i < tris.len()
            invariant
                i <= tris@.len(),
                d0 == self.doc(),
                self.board_size == d0.board_size,
                upairs_view(kept@) == filter_bounded(
                    upairs_view(tris@).take(i as int),
                    d0.board_size,
                ),
            decreases tris@.len() - i,
        {
            let (x, y) = tris[i];
            proof {
                assert(upairs_view(tris@)[i as int] == (x as int, y as int));
                assert(upairs_view(tris@).take(i + 1) =~= upairs_view(tris@).take(i as int).push(
                    upairs_view(tris@)[i as int],
                ));
                lemma_filter_bounded_push(
                    upairs_view(tris@).take(i as int),
                    upairs_view(tris@)[i as int],
                    d0.board_size,
                );
            }
            if x < self.board_size && y < self.board_size {
                let ghost kept0 = kept@;
                kept.push((x, y));
                proof {
                    assert(kept@.drop_last() =~= kept0);
                    assert(upairs_view(kept@) =~= upairs_view(kept0).push((x as int, y as int)));
                }
            }
            i = i + 1;
        }
        proof {
            assert(upairs_view(tris@).take(tris@.len() as int) =~= upairs_view(tris@));
        }
        set_triangles_at(&mut self.moves, position, &kept);
        proof {
            assert(moves_view(self.original_sgf.moves@) == d0.moves);
            assert(position < self.original_sgf.moves@.len());
        }
        set_triangles_at(&mut self.original_sgf.moves, position, &kept);
        proof {
            let newm = MoveView {
                triangles: filter_bounded(upairs_view(tris@), d0.board_size),
                ..d0.moves[position as int]
            };
            assert(moves_view(self.moves@) == d0.moves.update(position as int, newm));
            assert(moves_view(self.original_sgf.moves@) == d0.moves.update(position as int, newm));
            let d1 = self.doc();
            assert(d1 =~= SgfView { moves: d0.moves.update(position as int, newm), ..d0 });
            lemma_filter_bounded_in_bounds(upairs_view(tris@), d0.board_size);
            assert forall|i2: int| 0 <= i2 < d1.moves.len() implies move_wf(
                d1.board_size,
                #[trigger] d1.moves[i2],
            ) by {
                if i2 != position {
                    assert(d1.moves[i2] == d0.moves[i2]);
                } else {
                    assert(move_wf(d0.board_size, d0.moves[i2]));
                    assert(d1.moves[i2] == newm);
                }
            }
            assert(sgf_wf(d1));
        }
        let idx = self.move_idx;
        self.apply_moves(idx);
        self.dirty = true;
        true
    }

    /// Moves the cursor to `n` and rebuilds the board; a target past the end
    /// of the move list is ignored.
    pub fn goto(&mut self, n: usize)
        requires
            old(self).wf(),
        ensures
            final(self).wf(),
            final(self).doc() == old(self).doc(),
            final(self).move_idx == (if n <= old(self).moves@.len() {
                n
            } else {
                old(self).move_idx
            }),
            final(self).moves@ == old(self).moves@,
            final(self).metadata@ == old(self).metadata@,
            final(self).original_sgf_path == old(self).original_sgf_path,
            final(self).dirty == old(self).dirty,
    {
        if n <= self.moves.len() {
            self.move_idx = n;
            self.apply_moves(n);
        }
    }

    /// The index of the first move, in play order, placed on the given
    /// point.
    pub fn find_by_coordinate(&self, x: usize, y: usize) -> (r: Option<usize>)
        requires
            self.wf(),
        ensures
            match r {
                Option::Some(i) => {
                    &&& i < self.doc().moves.len()
                    &&& self.doc().moves[i as int].x == x as int
                    &&& self.doc().moves[i as int].y == y as int
                    &&& forall|j: int|
                        0 <= j < i ==> !((#[trigger] self.doc().moves[j]).x == x as int
                            && self.doc().moves[j].y == y as int)
                },
                Option::None => forall|j: int|
                    0 <= j < self.doc().moves.len() ==> !((#[trigger] self.doc().moves[j]).x
                        == x as int && self.doc().moves[j].y == y as int),
            },
    {
        let mut i: usize = 0;
        while i < self.moves.len()
            invariant
                i <= self.moves@.len(),
                self.wf(),
                forall|j: int|
                    0 <= j < i ==> !((#[trigger] self.doc().moves[j]).x == x as int
                        && self.doc().moves[j].y == y as int),
            decreases self.moves@.len() - i,
        {
            proof {
                assert(self.moves@[i as int]@ == self.doc().moves[i as int]);
            }
            if self.moves[i].x == x && self.moves[i].y == y {
                return Some(i);
            }
            i = i + 1;
        }
        None
    }

    /// The index of the nearest move at or after the cursor whose comment
    /// proper is nonempty, scanning forward without wrapping.
    pub fn next_annotated(&self) -> (r: Option<usize>)
        requires
            self.wf(),
        ensures
            match r {
                Option::Some(i) => {
                    &&& self.move_idx <= i < self.doc().moves.len()
                    &&& annotated(self.doc().moves[i as int])
                    &&& forall|j: int|
                        self.move_idx <= j < i ==> !annotated(#[trigger] self.doc().moves[j])
                },
                Option::None => forall|j: int|
                    self.move_idx <= j < self.doc().moves.len() ==> !annotated(
                        #[trigger] self.doc().moves[j],
                    ),
            },
    {
        let mut i: usize = self.move_idx;
        while i < self.moves.len()
            invariant
                self.move_idx <= i <= self.moves@.len(),
                self.wf(),
                forall|j: int|
                    self.move_idx <= j < i ==> !annotated(#[trigger] self.doc().moves[j]),
            decreases self.moves@.len() - i,
        {
            proof {
                assert(self.moves@[i as int]@ == self.doc().moves[i as int]);
            }
            if move_annotated(&self.moves[i]) {
                return Some(i);
            }
            i = i + 1;
        }
        None
    }

    /// The index of the nearest move strictly before the one the cursor sits
    /// on whose comment proper is nonempty, scanning backward without
    /// wrapping.
    pub fn prev_annotated(&self) -> (r: Option<usize>)
        requires
            self.wf(),
        ensures
            match r {
                Option::Some(i) => {
                    &&& self.move_idx >= 2
                    &&& i <= self.move_idx - 2
                    &&& annotated(self.doc().moves[i as int])
                    &&& forall|j: int|
                        i < j <= self.move_idx - 2 ==> !annotated(#[trigger] self.doc().moves[j])
                },
                Option::None => self.move_idx < 2 || forall|j: int|
                    0 <= j <= self.move_idx - 2 ==> !annotated(#[trigger] self.doc().moves[j]),
            },
    {
        if self.move_idx < 2 {
            return None;
        }
        let mut i: usize = self.move_idx - 2;
        loop
            invariant
                self.wf(),
                2 <= self.move_idx <= self.moves@.len(),
                i <= self.move_idx - 2,
                forall|j: int|
                    i < j <= self.move_idx - 2 ==> !annotated(#[trigger] self.doc().moves[j]),
            decreases i,
        {
            proof {
                assert(self.moves@[i as int]@ == self.doc().moves[i as int]);
            }
            if move_annotated(&self.moves[i]) {
                return Some(i);
            }
            if i == 0 {
                return None;
            }
            i = i - 1;
        }
    }
}

} // verus!

