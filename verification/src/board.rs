//! The 15x15 board: the fixed premium layout, tile placement, reading words
//! off the board, cross-checks, anchors, and the move generator.
use vstd::prelude::*;

use crate::dictionary::Trie;
use crate::utils::Direction;
use crate::utils::Position;

verus! {

/// Whether a cell character is a board marker (an empty cell) rather than a
/// placed tile.
pub open spec fn is_marker(c: char) -> bool {
    c == '#' || c == '^' || c == '+' || c == '-' || c == '*' || c == '.'
}

/// Whether `c` is a board marker.
pub fn marker(c: char) -> (r: bool)
    ensures
        r == is_marker(c),
{
    c == '#' || c == '^' || c == '+' || c == '-' || c == '*' || c == '.'
}

/// The canonical premium layout: triple word `#`, double word `^`, triple
/// letter `+`, double letter `-`, the center `*`, plain `.`.
pub open spec fn premium_spec(r: int, c: int) -> char {
    if r == 7 && c == 7 {
        '*'
    } else if (r == 0 || r == 7 || r == 14) && (c == 0 || c == 7 || c == 14) {
        '#'
    } else if (r == c || r + c == 14) && (1 <= r <= 4 || 10 <= r <= 13) {
        '^'
    } else if (r == 1 || r == 5 || r == 9 || r == 13) && (c == 1 || c == 5 || c == 9 || c == 13) {
        '+'
    } else if ((r == 0 || r == 14) && (c == 3 || c == 11)) || ((r == 3 || r == 11) && (c == 0 || c
        == 14)) || ((r == 2 || r == 12) && (c == 6 || c == 8)) || ((r == 6 || r == 8) && (c == 2
        || c == 12)) || (r == 7 && (c == 3 || c == 11)) || (c == 7 && (r == 3 || r == 11)) || ((r
        == 6 || r == 8) && (c == 6 || c == 8)) {
        '-'
    } else {
        '.'
    }
}

/// The premium marker of one cell of the canonical layout.
pub fn premium_at(r: usize, c: usize) -> (m: char)
    requires
        r < 15,
        c < 15,
    ensures
        m == premium_spec(r as int, c as int),
{
    if r == 7 && c == 7 {
        '*'
    } else if (r == 0 || r == 7 || r == 14) && (c == 0 || c == 7 || c == 14) {
        '#'
    } else if (r == c || r + c == 14) && ((1 <= r && r <= 4) || (10 <= r && r <= 13)) {
        '^'
    } else if (r == 1 || r == 5 || r == 9 || r == 13) && (c == 1 || c == 5 || c == 9 || c == 13) {
        '+'
    } else if ((r == 0 || r == 14) && (c == 3 || c == 11)) || ((r == 3 || r == 11) && (c == 0 || c
        == 14)) || ((r == 2 || r == 12) && (c == 6 || c == 8)) || ((r == 6 || r == 8) && (c == 2
        || c == 12)) || (r == 7 && (c == 3 || c == 11)) || (c == 7 && (r == 3 || r == 11)) || ((r
        == 6 || r == 8) && (c == 6 || c == 8)) {
        '-'
    } else {
        '.'
    }
}

/// The empty board: every cell its premium marker.
pub open spec fn layout_spec() -> Seq<char> {
    Seq::new(225, |i: int| premium_spec(i / 15, i % 15))
}

/// The board: 225 cells row-major, each a premium marker or a placed tile.
pub struct Board {
    pub state: Vec<char>,
}

impl Board {
    /// A board state is 225 cells.
    pub open spec fn wf(self) -> bool {
        self.state@.len() == 225
    }

    /// The cell of a position.
    pub open spec fn at(self, p: Position) -> char {
        self.state@[p.to_int_spec()]
    }

    /// Whether a tile sits at `p`.
    pub open spec fn is_letter_spec(self, p: Position) -> bool {
        !is_marker(self.at(p))
    }

    /// The empty board with the canonical premium layout.
    pub fn default() -> (r: Board)
        ensures
            r.wf(),
            r.state@ == layout_spec(),
    {
        let mut state: Vec<char> = Vec::new();
        let mut row: usize = 0;
        while row < 15
            invariant
                row <= 15,
                state@.len() == row * 15,
                forall|i: int| 0 <= i < state@.len() ==> state@[i] == premium_spec(i / 15, i % 15),
            decreases 15 - row,
        {
            let mut col: usize = 0;
            while col < 15
                invariant
                    row < 15,
                    col <= 15,
                    state@.len() == row * 15 + col,
                    forall|i: int|
                        0 <= i < state@.len() ==> state@[i] == premium_spec(i / 15, i % 15),
                decreases 15 - col,
            {
                state.push(premium_at(row, col));
                proof {
                    let i = (row * 15 + col) as int;
                    assert(i / 15 == row && i % 15 == col) by (nonlinear_arith)
                        requires
                            row < 15 && col < 15 && i == row * 15 + col,
                    ;
                }
                col = col + 1;
            }
            row = row + 1;
        }
        proof {
            assert(state@ =~= layout_spec());
        }
        Board { state }
    }

    /// The character at a position: a tile, or the cell's premium marker.
    pub fn at_position(&self, p: Position) -> (r: char)
        requires
            self.wf(),
            p.wf(),
        ensures
            r == self.at(p),
    {
        self.state[p.to_int()]
    }

    /// Whether a tile sits at `p`.
    pub fn is_letter(&self, p: Position) -> (r: bool)
        requires
            self.wf(),
            p.wf(),
        ensures
            r == self.is_letter_spec(p),
    {
        let c = self.at_position(p);
        !marker(c)
    }

    fn set(&mut self, p: Position, c: char)
        requires
            old(self).wf(),
            p.wf(),
        ensures
            final(self).wf(),
            final(self).state@ == old(self).state@.update(p.to_int_spec(), c),
    {
        let i = p.to_int();
        self.state.set(i, c);
    }

    /// A full copy of the board.
    pub fn clone(&self) -> (r: Board)
        ensures
            r.state@ == self.state@,
    {
        Board { state: self.state.clone() }
    }
}

/// Whether `w` can be written from `p` in direction `d`: the whole span
/// stays on the board, and without `force` every covered cell is empty.
pub open spec fn can_play_spec(
    state: Seq<char>,
    p: Position,
    w: Seq<char>,
    d: Direction,
    force: bool,
) -> bool
    decreases w.len(),
{
    if w.len() == 0 {
        true
    } else if !force && !is_marker(state[p.to_int_spec()]) {
        false
    } else if w.len() == 1 {
        true
    } else {
        let (q, ok) = p.tick_spec(d);
        ok && can_play_spec(state, q, w.drop_first(), d, force)
    }
}

/// The board with `w` written from `p` in direction `d` (stopping at the
/// edge; under `can_play_spec` the whole word lands).
pub open spec fn write_word_spec(state: Seq<char>, p: Position, w: Seq<char>, d: Direction) -> Seq<
    char,
>
    decreases w.len(),
{
    if w.len() == 0 {
        state
    } else {
        let st2 = state.update(p.to_int_spec(), w[0]);
        let (q, ok) = p.tick_spec(d);
        if w.len() == 1 || !ok {
            st2
        } else {
            write_word_spec(st2, q, w.drop_first(), d)
        }
    }
}

impl Board {
    fn can_play_from(&self, p: Position, word: &Vec<char>, i: usize, d: Direction, force: bool) -> (r: bool)
        requires
            self.wf(),
            p.wf(),
            i <= word@.len(),
        ensures
            r == can_play_spec(self.state@, p, word@.skip(i as int), d, force),
        decreases word@.len() - i,
    {
        if i == word.len() {
            proof {
                assert(word@.skip(i as int) =~= Seq::<char>::empty());
            }
            return true;
        }
        proof {
            assert(word@.skip(i as int)[0] == word@[i as int]);
            assert(word@.skip(i as int).drop_first() =~= word@.skip(i + 1));
        }
        if !force && self.is_letter(p) {
            return false;
        }
        if i + 1 == word.len() {
            return true;
        }
        let mut q = p;
        if !q.tick(d) {
            return false;
        }
        self.can_play_from(q, word, i + 1, d, force)
    }

    fn write_from(&mut self, p: Position, word: &Vec<char>, i: usize, d: Direction)
        requires
            old(self).wf(),
            p.wf(),
            i <= word@.len(),
        ensures
            final(self).wf(),
            final(self).state@ == write_word_spec(old(self).state@, p, word@.skip(i as int), d),
        decreases word@.len() - i,
    {
        if i == word.len() {
            proof {
                assert(word@.skip(i as int) =~= Seq::<char>::empty());
            }
            return;
        }
        proof {
            assert(word@.skip(i as int)[0] == word@[i as int]);
            assert(word@.skip(i as int).drop_first() =~= word@.skip(i + 1));
        }
        self.set(p, word[i]);
        if i + 1 == word.len() {
            return;
        }
        let mut q = p;
        if !q.tick(d) {
            return;
        }
        self.write_from(q, word, i + 1, d);
    }

    /// Writes a word onto the board, rejecting before committing: the grid
    /// changes only when the whole placement is possible. Without `force` a
    /// placement over an occupied cell is refused; `force` overwrites, as a
    /// board reconstruction from history does. Success means every tile
    /// landed, also when the last tile sits flush on the board's edge.
    pub fn play_word(&mut self, p: Position, word: &Vec<char>, dir: Direction, force: bool) -> (r: bool)
        requires
            old(self).wf(),
            p.wf(),
        ensures
            final(self).wf(),
            r == can_play_spec(old(self).state@, p, word@, dir, force),
            r ==> final(self).state@ == write_word_spec(old(self).state@, p, word@, dir),
            !r ==> final(self).state@ == old(self).state@,
    {
        proof {
            assert(word@.skip(0) =~= word@);
        }
        if !self.can_play_from(p, word, 0, dir, force) {
            return false;
        }
        self.write_from(p, word, 0, dir);
        true
    }

    /// Commits a move: writes its word unconditionally from its position;
    /// false, with the grid unchanged, only when the word would leave the
    /// board.
    pub fn place_move(&mut self, m: &crate::utils::Move) -> (r: bool)
        requires
            old(self).wf(),
            m.position.wf(),
        ensures
            final(self).wf(),
            r == can_play_spec(old(self).state@, m.position, m.word@, m.direction, true),
            r ==> final(self).state@ == write_word_spec(
                old(self).state@,
                m.position,
                m.word@,
                m.direction,
            ),
            !r ==> final(self).state@ == old(self).state@,
    {
        self.play_word(m.position, &m.word, m.direction, true)
    }
}

/// The run of tiles at `p` and forward of it, in board order; empty when no
/// tile sits at `p`.
pub open spec fn run_from(state: Seq<char>, p: Position, d: Direction) -> Seq<char>
    decreases 28 - p.row - p.col,
    when state.len() == 225 && p.wf()
{
    if is_marker(state[p.to_int_spec()]) {
        Seq::empty()
    } else {
        let (q, ok) = p.tick_spec(d);
        seq![state[p.to_int_spec()]] + (if ok {
            run_from(state, q, d)
        } else {
            Seq::empty()
        })
    }
}

/// Whether a maximal run starts at `p`: a tile with no tile just before it.
pub open spec fn starts_run(state: Seq<char>, p: Position, d: Direction) -> bool {
    &&& !is_marker(state[p.to_int_spec()])
    &&& {
        let (q, ok) = p.tick_opp_spec(d);
        !ok || is_marker(state[q.to_int_spec()])
    }
}

/// The words contributed by position index `k`: the maximal runs of length at
/// least 2 that start there, across first.
pub open spec fn words_at(state: Seq<char>, k: int) -> Seq<Seq<char>> {
    let p = crate::utils::positions_spec()[k];
    word_for(state, p, Direction::Across) + word_for(state, p, Direction::Down)
}

pub open spec fn word_for(state: Seq<char>, p: Position, d: Direction) -> Seq<Seq<char>> {
    if starts_run(state, p, d) && run_from(state, p, d).len() >= 2 {
        seq![run_from(state, p, d)]
    } else {
        Seq::empty()
    }
}

/// Every word on the board: each maximal run of length at least 2, read in
/// both orientations, in row-major scan order.
pub open spec fn board_words_upto(state: Seq<char>, k: int) -> Seq<Seq<char>>
    decreases k,
{
    if k <= 0 {
        Seq::empty()
    } else {
        board_words_upto(state, k - 1) + words_at(state, k - 1)
    }
}

pub open spec fn board_words(state: Seq<char>) -> Seq<Seq<char>> {
    board_words_upto(state, 225)
}

/// A legal board: every word read off it is in the lexicon.
pub open spec fn board_legal(state: Seq<char>, t: Trie) -> bool {
    forall|k: int|
        0 <= k < board_words(state).len() ==> t.accepts(#[trigger] board_words(state)[k])
}

impl Board {
    fn collect_run(&self, p: Position, d: Direction) -> (r: Vec<char>)
        requires
            self.wf(),
            p.wf(),
        ensures
            r@ == run_from(self.state@, p, d),
        decreases 28 - p.row - p.col,
    {
        let mut out: Vec<char> = Vec::new();
        if !self.is_letter(p) {
            proof {
                assert(out@ =~= run_from(self.state@, p, d));
            }
            return out;
        }
        out.push(self.at_position(p));
        let mut q = p;
        if q.tick(d) {
            let mut rest = self.collect_run(q, d);
            out.append(&mut rest);
            proof {
                assert(out@ =~= run_from(self.state@, p, d));
            }
        } else {
            proof {
                assert(out@ =~= run_from(self.state@, p, d));
            }
        }
        out
    }

    fn word_starts_here(&self, p: Position, d: Direction) -> (r: bool)
        requires
            self.wf(),
            p.wf(),
        ensures
            r == starts_run(self.state@, p, d),
    {
        if !self.is_letter(p) {
            return false;
        }
        let mut q = p;
        if q.tick_opp(d) {
            !self.is_letter(q)
        } else {
            true
        }
    }

    /// Every word on the board: each maximal run of two or more adjacent
    /// tiles, read across and down, in scan order.
    pub fn get_words(&self) -> (r: Vec<Vec<char>>)
        requires
            self.wf(),
        ensures
            crate::rack::deep(r@) == board_words(self.state@),
    {
        let pos = crate::utils::positions();
        let mut result: Vec<Vec<char>> = Vec::new();
        let mut k: usize = 0;
        proof {
            assert(crate::rack::deep(result@) =~= board_words_upto(self.state@, 0));
        }
        while k < 225
            invariant
                k <= 225,
                self.wf(),
                pos@ == crate::utils::positions_spec(),
                crate::rack::deep(result@) == board_words_upto(self.state@, k as int),
            decreases 225 - k,
        {
            let p = pos[k];
            proof {
                assert(p.wf());
            }
            let ghost before = crate::rack::deep(result@);
            if self.word_starts_here(p, Direction::Across) {
                let w = self.collect_run(p, Direction::Across);
                if w.len() > 1 {
                    result.push(w);
                }
            }
            let ghost mid = crate::rack::deep(result@);
            proof {
                assert(mid =~= before + word_for(self.state@, p, Direction::Across));
            }
            if self.word_starts_here(p, Direction::Down) {
                let w = self.collect_run(p, Direction::Down);
                if w.len() > 1 {
                    result.push(w);
                }
            }
            proof {
                assert(crate::rack::deep(result@) =~= mid + word_for(
                    self.state@,
                    p,
                    Direction::Down,
                ));
                assert(crate::rack::deep(result@) =~= board_words_upto(self.state@, k + 1));
            }
            k = k + 1;
        }
        result
    }

    /// Whether every word on the board is in the lexicon.
    pub fn valid(&self, t: &Trie) -> (r: bool)
        requires
            self.wf(),
            t.wf(),
            t.has_hashroot(),
        ensures
            r == board_legal(self.state@, *t),
    {
        let words = self.get_words();
        let mut k: usize = 0;
        while k < words.len()
            invariant
                k <= words@.len(),
                self.wf(),
                t.wf(),
                t.has_hashroot(),
                crate::rack::deep(words@) == board_words(self.state@),
                forall|j: int|
                    0 <= j < k ==> t.accepts(#[trigger] board_words(self.state@)[j]),
            decreases words@.len() - k,
        {
            let ok = t.check_word(&words[k]);
            proof {
                assert(crate::rack::deep(words@)[k as int] == words@[k as int]@);
            }
            if !ok {
                return false;
            }
            k = k + 1;
        }
        true
    }
}


/// Every neighbour of an on-board position is on the board.
pub proof fn lemma_neighbors_wf(p: Position)
    requires
        p.wf(),
    ensures
        forall|j: int|
            0 <= j < p.neighbors_spec().len() ==> (#[trigger] p.neighbors_spec()[j]).wf(),
{
}

/// The cross-check mask of a square for a move in direction `d`: the letters
/// that keep the word perpendicular to the move a lexicon word when placed
/// there. All 26 on a square with no perpendicular tiled neighbour, none on
/// an occupied square, and otherwise exactly the letters `l` for which the
/// run before-`l`-after reads as a lexicon word.
pub open spec fn cross_check_spec(state: Seq<char>, p: Position, d: Direction, t: Trie) -> Seq<
    bool,
> {
    if !is_marker(state[p.to_int_spec()]) {
        Seq::new(26, |i: int| false)
    } else {
        let dd = d.flip_spec();
        let b = back_letters(state, p, dd);
        let f = after_letters(state, p, dd);
        if b.len() + f.len() == 0 {
            Seq::new(26, |i: int| true)
        } else {
            Seq::new(
                26,
                |i: int| t.accepts(b + seq![crate::utils::alphabet_spec()[i]] + f),
            )
        }
    }
}

impl Board {
    /// The cross-check mask of a square for a move in direction `d`, one
    /// entry per letter A to Z. The result is a function of the board, the
    /// square, the direction and the lexicon alone.
    pub fn valid_at(&self, p: Position, d: Direction, t: &Trie) -> (r: Vec<bool>)
        requires
            self.wf(),
            p.wf(),
            t.wf(),
            t.has_hashroot(),
        ensures
            r@ == cross_check_spec(self.state@, p, d, *t),
            r@.len() == 26,
    {
        let mut r: Vec<bool> = Vec::new();
        if self.is_letter(p) {
            let mut i: usize = 0;
            while i < 26
                invariant
                    i <= 26,
                    r@ == Seq::new(i as nat, |j: int| false),
                decreases 26 - i,
            {
                r.push(false);
                proof {
                    assert(r@ =~= Seq::new((i + 1) as nat, |j: int| false));
                }
                i = i + 1;
            }
            proof {
                assert(r@ =~= cross_check_spec(self.state@, p, d, *t));
            }
            return r;
        }
        let dd = d.flip();
        let before = self.collect_back(p, dd);
        let mut q = p;
        let after: Vec<char> = if q.tick(dd) {
            self.collect_run(q, dd)
        } else {
            let v: Vec<char> = Vec::new();
            proof {
                assert(v@ =~= after_letters(self.state@, p, dd));
            }
            v
        };
        proof {
            assert(after@ == after_letters(self.state@, p, dd));
        }
        if before.len() == 0 && after.len() == 0 {
            let mut i: usize = 0;
            while i < 26
                invariant
                    i <= 26,
                    r@ == Seq::new(i as nat, |j: int| true),
                decreases 26 - i,
            {
                r.push(true);
                proof {
                    assert(r@ =~= Seq::new((i + 1) as nat, |j: int| true));
                }
                i = i + 1;
            }
            proof {
                assert(r@ =~= cross_check_spec(self.state@, p, d, *t));
            }
            return r;
        }
        let alph = crate::utils::alphabet();
        let mut i: usize = 0;
        while i < 26
            invariant
                i <= 26,
                self.wf(),
                p.wf(),
                t.wf(),
                t.has_hashroot(),
                alph@ == crate::utils::alphabet_spec(),
                dd == d.flip_spec(),
                is_marker(self.state@[p.to_int_spec()]),
                before@ == back_letters(self.state@, p, dd),
                after@ == after_letters(self.state@, p, dd),
                before@.len() + after@.len() > 0,
                r@.len() == i,
                forall|k: int|
                    0 <= k < i ==> r@[k] == (#[trigger] cross_check_spec(
                        self.state@,
                        p,
                        d,
                        *t,
                    )[k]),
            decreases 26 - i,
        {
            let mut cand: Vec<char> = Vec::new();
            let mut j: usize = 0;
            while j < before.len()
                invariant
                    j <= before@.len(),
                    cand@ == before@.take(j as int),
                decreases before@.len() - j,
            {
                cand.push(before[j]);
                proof {
                    assert(cand@ =~= before@.take(j + 1));
                }
                j = j + 1;
            }
            cand.push(alph[i]);
            let mut m: usize = 0;
            while m < after.len()
                invariant
                    m <= after@.len(),
                    cand@ == before@.take(before@.len() as int).push(
                        crate::utils::alphabet_spec()[i as int],
                    ) + after@.take(m as int),
                decreases after@.len() - m,
            {
                cand.push(after[m]);
                proof {
                    assert(cand@ =~= before@.take(before@.len() as int).push(
                        crate::utils::alphabet_spec()[i as int],
                    ) + after@.take(m + 1));
                }
                m = m + 1;
            }
            proof {
                assert(before@.take(before@.len() as int) =~= before@);
                assert(after@.take(after@.len() as int) =~= after@);
                assert(cand@ =~= before@ + seq![crate::utils::alphabet_spec()[i as int]]
                    + after@);
            }
            let ok = t.check_word(&cand);
            r.push(ok);
            i = i + 1;
        }
        proof {
            assert(r@ =~= cross_check_spec(self.state@, p, d, *t));
        }
        r
    }
}

/// Recomputing the cross-check table on an unchanged grid yields identical
/// sets: each entry is a function of board state, square, direction and
/// lexicon.
pub proof fn lemma_cross_checks_idempotent(
    state: Seq<char>,
    p: Position,
    d: Direction,
    t: Trie,
    r1: Seq<bool>,
    r2: Seq<bool>,
)
    requires
        r1 == cross_check_spec(state, p, d, t),
        r2 == cross_check_spec(state, p, d, t),
    ensures
        r1 == r2,
{
}

/// The empty anchor candidates the tile at `p` contributes, from neighbour
/// index `j` on.
pub open spec fn anchor_cands(state: Seq<char>, p: Position, j: int) -> Seq<Position>
    decreases p.neighbors_spec().len() - j,
{
    if j < 0 || j >= p.neighbors_spec().len() {
        Seq::empty()
    } else {
        (if is_marker(state[p.neighbors_spec()[j].to_int_spec()]) {
            seq![p.neighbors_spec()[j]]
        } else {
            Seq::empty()
        }) + anchor_cands(state, p, j + 1)
    }
}

pub open spec fn anchors_upto(state: Seq<char>, k: int) -> Seq<Position>
    decreases k,
{
    if k <= 0 {
        Seq::empty()
    } else {
        anchors_upto(state, k - 1) + (if !is_marker(
            state[crate::utils::positions_spec()[k - 1].to_int_spec()],
        ) {
            anchor_cands(state, crate::utils::positions_spec()[k - 1], 0)
        } else {
            Seq::empty()
        })
    }
}

/// No tile anywhere on the board.
pub open spec fn board_empty(state: Seq<char>) -> bool {
    forall|i: int| 0 <= i < 225 ==> is_marker(#[trigger] state[i])
}

/// The anchors: every empty square next to a tile, in scan order, with
/// repeats where a square has several tiled neighbours; on an empty board the
/// center square alone.
pub open spec fn anchors_spec(state: Seq<char>) -> Seq<Position> {
    if board_empty(state) {
        seq![Position { row: 7, col: 7 }]
    } else {
        anchors_upto(state, 225)
    }
}

impl Board {
    /// The legal starting squares for a new placement.
    pub fn anchors(&self) -> (r: Vec<Position>)
        requires
            self.wf(),
        ensures
            r@ == anchors_spec(self.state@),
    {
        let pos = crate::utils::positions();
        let mut result: Vec<Position> = Vec::new();
        let mut found = false;
        let mut k: usize = 0;
        while k < 225
            invariant
                k <= 225,
                self.wf(),
                pos@ == crate::utils::positions_spec(),
                result@ == anchors_upto(self.state@, k as int),
                found == !(forall|i: int|
                    0 <= i < k ==> is_marker(
                        self.state@[(#[trigger] pos@[i]).to_int_spec()],
                    )),
            decreases 225 - k,
        {
            let p = pos[k];
            proof {
                assert(p.wf());
                vstd::arithmetic::div_mod::lemma_fundamental_div_mod(k as int, 15);
            }
            if self.is_letter(p) {
                found = true;
                let nb = p.neighbors();
                proof {
                    lemma_neighbors_wf(p);
                }
                let mut j: usize = 0;
                let ghost before = result@;
                while j < nb.len()
                    invariant
                        j <= nb@.len(),
                        self.wf(),
                        p.wf(),
                        nb@ == p.neighbors_spec(),
                        forall|m: int| 0 <= m < nb@.len() ==> (#[trigger] nb@[m]).wf(),
                        result@ + anchor_cands(self.state@, p, j as int) == before + anchor_cands(
                            self.state@,
                            p,
                            0,
                        ),
                    decreases nb@.len() - j,
                {
                    let ghost rpre = result@;
                    if !self.is_letter(nb[j]) {
                        result.push(nb[j]);
                    }
                    proof {
                        assert(result@ + anchor_cands(self.state@, p, j + 1) =~= rpre
                            + anchor_cands(self.state@, p, j as int));
                        assert(result@ + anchor_cands(self.state@, p, j + 1) =~= before
                            + anchor_cands(self.state@, p, 0));
                    }
                    j = j + 1;
                }
                proof {
                    assert(anchor_cands(self.state@, p, nb@.len() as int)
                        =~= Seq::<Position>::empty());
                    assert(result@ =~= result@ + anchor_cands(
                        self.state@,
                        p,
                        nb@.len() as int,
                    ));
                    assert(result@ =~= before + anchor_cands(self.state@, p, 0));
                    assert(result@ =~= anchors_upto(self.state@, k + 1));
                }
            } else {
                proof {
                    assert(result@ =~= anchors_upto(self.state@, k + 1));
                }
            }
            k = k + 1;
        }
        if !found {
            proof {
                assert forall|i: int| 0 <= i < 225 implies is_marker(#[trigger] self.state@[i]) by {
                    let p = crate::utils::positions_spec()[i];
                    vstd::arithmetic::div_mod::lemma_fundamental_div_mod(i, 15);
                    assert(p.to_int_spec() == i);
                }
            }
            let mut v: Vec<Position> = Vec::new();
            v.push(Position { row: 7, col: 7 });
            proof {
                assert(v@ =~= anchors_spec(self.state@));
            }
            return v;
        }
        proof {
            let i = choose|i: int|
                0 <= i < 225 && !is_marker(self.state@[(#[trigger] pos@[i]).to_int_spec()]);
            vstd::arithmetic::div_mod::lemma_fundamental_div_mod(i, 15);
            assert(!is_marker(self.state@[i]));
            assert(!board_empty(self.state@));
        }
        result
    }
}



/// The letter multiplier of a cell marker.
pub open spec fn letter_mult_spec(m: char) -> int {
    if m == '+' {
        3
    } else if m == '-' {
        2
    } else {
        1
    }
}

/// The word multiplier of a cell marker; the center counts double.
pub open spec fn word_mult_spec(m: char) -> int {
    if m == '#' {
        3
    } else if m == '^' || m == '*' {
        2
    } else {
        1
    }
}

/// The tiles strictly before `p` in direction `d`, in board order.
pub open spec fn back_letters(state: Seq<char>, p: Position, d: Direction) -> Seq<char>
    decreases p.row + p.col,
    when state.len() == 225 && p.wf()
{
    let (q, ok) = p.tick_opp_spec(d);
    if !ok || is_marker(state[q.to_int_spec()]) {
        Seq::empty()
    } else {
        back_letters(state, q, d) + seq![state[q.to_int_spec()]]
    }
}

/// The tiles strictly after `p` in direction `d`, in board order.
pub open spec fn after_letters(state: Seq<char>, p: Position, d: Direction) -> Seq<char> {
    let (q, ok) = p.tick_spec(d);
    if !ok {
        Seq::empty()
    } else {
        run_from(state, q, d)
    }
}

/// The summed point values of a run of tiles.
pub open spec fn values_sum(s: Seq<char>) -> int
    decreases s.len(),
{
    if s.len() == 0 {
        0
    } else {
        values_sum(s.drop_last()) + crate::bag::letter_value_spec(s.last())
    }
}

pub proof fn lemma_values_sum_bounds(s: Seq<char>)
    ensures
        0 <= values_sum(s) <= 10 * s.len(),
    decreases s.len(),
{
    if s.len() > 0 {
        lemma_values_sum_bounds(s.drop_last());
        crate::bag::lemma_letter_value_bounds(s.last());
    }
}

pub proof fn lemma_run_len(state: Seq<char>, p: Position, d: Direction)
    requires
        state.len() == 225,
        p.wf(),
    ensures
        d is Across ==> run_from(state, p, d).len() <= 15 - p.col,
        d is Down ==> run_from(state, p, d).len() <= 15 - p.row,
        run_from(state, p, d).len() <= 15,
    decreases 28 - p.row - p.col,
{
    if !is_marker(state[p.to_int_spec()]) {
        let (q, ok) = p.tick_spec(d);
        if ok {
            lemma_run_len(state, q, d);
        }
    }
}

pub proof fn lemma_back_len(state: Seq<char>, p: Position, d: Direction)
    requires
        state.len() == 225,
        p.wf(),
    ensures
        d is Across ==> back_letters(state, p, d).len() <= p.col,
        d is Down ==> back_letters(state, p, d).len() <= p.row,
        back_letters(state, p, d).len() <= 14,
    decreases p.row + p.col,
{
    let (q, ok) = p.tick_opp_spec(d);
    if ok && !is_marker(state[q.to_int_spec()]) {
        lemma_back_len(state, q, d);
    }
}

/// The score of the perpendicular word completed by placing tile `c` on the
/// empty square `p`: zero when no perpendicular tile touches `p`, else the
/// run's tile values with the new tile under its letter premium, all times
/// the square's word premium.
pub open spec fn cross_score(state: Seq<char>, p: Position, d: Direction, c: char) -> int {
    let dd = d.flip_spec();
    let b = back_letters(state, p, dd);
    let f = after_letters(state, p, dd);
    if b.len() + f.len() == 0 {
        0
    } else {
        (values_sum(b) + values_sum(f) + crate::bag::letter_value_spec(c) * letter_mult_spec(
            state[p.to_int_spec()],
        )) * word_mult_spec(state[p.to_int_spec()])
    }
}

pub proof fn lemma_cross_score_bounds(state: Seq<char>, p: Position, d: Direction, c: char)
    requires
        state.len() == 225,
        p.wf(),
    ensures
        0 <= cross_score(state, p, d, c) <= 930,
{
    let dd = d.flip_spec();
    lemma_back_len(state, p, dd);
    lemma_values_sum_bounds(back_letters(state, p, dd));
    let (q, ok) = p.tick_spec(dd);
    if ok {
        lemma_run_len(state, q, dd);
    }
    lemma_values_sum_bounds(after_letters(state, p, dd));
    crate::bag::lemma_letter_value_bounds(c);
}

/// Powers of three, for bounding stacked word multipliers.
pub open spec fn pow3(n: nat) -> int
    decreases n,
{
    if n == 0 {
        1
    } else {
        3 * pow3((n - 1) as nat)
    }
}

pub proof fn lemma_pow3_pos(n: nat)
    ensures
        pow3(n) >= 1,
    decreases n,
{
    if n > 0 {
        lemma_pow3_pos((n - 1) as nat);
    }
}

pub proof fn lemma_pow3_le(a: nat, b: nat)
    requires
        a <= b,
    ensures
        1 <= pow3(a) <= pow3(b),
    decreases b,
{
    lemma_pow3_pos(a);
    if a < b {
        lemma_pow3_le(a, (b - 1) as nat);
        lemma_pow3_pos((b - 1) as nat);
    }
}

pub proof fn lemma_pow3_15()
    ensures
        pow3(15) == 14348907,
{
    assert(pow3(0) == 1);
    assert(pow3(1) == 3);
    assert(pow3(2) == 9);
    assert(pow3(3) == 27);
    assert(pow3(4) == 81);
    assert(pow3(5) == 243);
    assert(pow3(6) == 729);
    assert(pow3(7) == 2187);
    assert(pow3(8) == 6561);
    assert(pow3(9) == 19683);
    assert(pow3(10) == 59049);
    assert(pow3(11) == 177147);
    assert(pow3(12) == 531441);
    assert(pow3(13) == 1594323);
    assert(pow3(14) == 4782969);
    assert(pow3(15) == 14348907);
}

/// What one forward placement pass yields from a square on: the scratch state
/// after the new tiles, the span of the word from here, its main-sum and word
/// multiplier and cross-word total, the square after the span, and whether
/// the span ended on the board's edge.
pub struct PlaceStep {
    pub state: Seq<char>,
    pub word: Seq<char>,
    pub main: int,
    pub mult: int,
    pub cross: int,
    pub next: Position,
    pub ran_off: bool,
}

/// The forward pass: consumes `part` left to right, matching existing tiles
/// as they stand and placing a new tile on each empty square, which must pass
/// that square's cross-check (a blank counts as its upper-case letter).
/// `None` is a failed attempt: a cross-check miss, or the edge reached with
/// tiles still in hand.
pub open spec fn place_fwd(
    state: Seq<char>,
    p: Position,
    d: Direction,
    part: Seq<char>,
    cc: Seq<Seq<char>>,
) -> Option<PlaceStep>
    decreases 28 - p.row - p.col,
    when state.len() == 225 && p.wf()
{
    if part.len() == 0 {
        Some(
            PlaceStep {
                state,
                word: Seq::empty(),
                main: 0,
                mult: 1,
                cross: 0,
                next: p,
                ran_off: false,
            },
        )
    } else if !is_marker(state[p.to_int_spec()]) {
        let ch = state[p.to_int_spec()];
        let (q, ok) = p.tick_spec(d);
        if !ok {
            None
        } else {
            match place_fwd(state, q, d, part, cc) {
                None => None,
                Some(r) => Some(
                    PlaceStep {
                        state: r.state,
                        word: seq![ch] + r.word,
                        main: crate::bag::letter_value_spec(ch) + r.main,
                        mult: r.mult,
                        cross: r.cross,
                        next: r.next,
                        ran_off: r.ran_off,
                    },
                ),
            }
        }
    } else {
        let c = part[0];
        let u = crate::utils::upper_spec(c);
        let m = state[p.to_int_spec()];
        if !cc[p.to_int_spec()].contains(u) {
            None
        } else {
            let cs = cross_score(state, p, d, c);
            let st2 = state.update(p.to_int_spec(), u);
            let here_main = crate::bag::letter_value_spec(c) * letter_mult_spec(m);
            let here_mult = word_mult_spec(m);
            let (q, ok) = p.tick_spec(d);
            if part.len() == 1 {
                if ok {
                    Some(
                        PlaceStep {
                            state: st2,
                            word: seq![u],
                            main: here_main,
                            mult: here_mult,
                            cross: cs,
                            next: q,
                            ran_off: false,
                        },
                    )
                } else {
                    Some(
                        PlaceStep {
                            state: st2,
                            word: seq![u],
                            main: here_main,
                            mult: here_mult,
                            cross: cs,
                            next: p,
                            ran_off: true,
                        },
                    )
                }
            } else if !ok {
                None
            } else {
                match place_fwd(st2, q, d, part.drop_first(), cc) {
                    None => None,
                    Some(r) => Some(
                        PlaceStep {
                            state: r.state,
                            word: seq![u] + r.word,
                            main: here_main + r.main,
                            mult: here_mult * r.mult,
                            cross: cs + r.cross,
                            next: r.next,
                            ran_off: r.ran_off,
                        },
                    ),
                }
            }
        }
    }
}

/// Every successful forward pass is small: its numbers fit far inside i64.
pub proof fn lemma_place_fwd_bounds(
    state: Seq<char>,
    p: Position,
    d: Direction,
    part: Seq<char>,
    cc: Seq<Seq<char>>,
)
    requires
        state.len() == 225,
        p.wf(),
    ensures
        match place_fwd(state, p, d, part, cc) {
            Some(r) => {
                &&& (d is Across ==> r.word.len() + p.col <= 15)
                &&& (d is Down ==> r.word.len() + p.row <= 15)
                &&& r.word.len() <= 15
                &&& 0 <= r.main <= 30 * r.word.len()
                &&& 1 <= r.mult <= pow3(r.word.len() as nat)
                &&& 0 <= r.cross <= 930 * r.word.len()
                &&& r.state.len() == 225
                &&& r.next.wf()
            },
            None => true,
        },
    decreases 28 - p.row - p.col,
{
    if part.len() == 0 {
    } else if !is_marker(state[p.to_int_spec()]) {
        let ch = state[p.to_int_spec()];
        let (q, ok) = p.tick_spec(d);
        if ok {
            lemma_place_fwd_bounds(state, q, d, part, cc);
            crate::bag::lemma_letter_value_bounds(ch);
            match place_fwd(state, q, d, part, cc) {
                Some(r) => {
                    lemma_pow3_le(r.word.len() as nat, (r.word.len() + 1) as nat);
                },
                None => {},
            }
        }
    } else {
        let c = part[0];
        let u = crate::utils::upper_spec(c);
        let m = state[p.to_int_spec()];
        if cc[p.to_int_spec()].contains(u) {
            let st2 = state.update(p.to_int_spec(), u);
            let (q, ok) = p.tick_spec(d);
            lemma_cross_score_bounds(state, p, d, c);
            crate::bag::lemma_letter_value_bounds(c);
            if part.len() == 1 {
            } else if ok {
                lemma_place_fwd_bounds(st2, q, d, part.drop_first(), cc);
                match place_fwd(st2, q, d, part.drop_first(), cc) {
                    Some(r) => {
                        assert(1 <= word_mult_spec(m) <= 3);
                        assert(word_mult_spec(m) * r.mult <= 3 * r.mult) by (nonlinear_arith)
                            requires
                                1 <= word_mult_spec(m) <= 3,
                                r.mult >= 1,
                        ;
                        assert(word_mult_spec(m) * r.mult >= 1) by (nonlinear_arith)
                            requires
                                1 <= word_mult_spec(m),
                                r.mult >= 1,
                        ;
                    },
                    None => {},
                }
            }
        }
    }
}

/// Walking back over the collected prefix always stays on the board.
pub proof fn lemma_back_walk(state: Seq<char>, p: Position, d: Direction)
    requires
        state.len() == 225,
        p.wf(),
    ensures
        p.tick_opp_n_spec(d, back_letters(state, p, d).len()) is Some,
        p.tick_opp_n_spec(d, back_letters(state, p, d).len())->Some_0.wf(),
    decreases p.row + p.col,
{
    let (q, ok) = p.tick_opp_spec(d);
    if ok && !is_marker(state[q.to_int_spec()]) {
        lemma_back_walk(state, q, d);
        assert(back_letters(state, p, d).len() == back_letters(state, q, d).len() + 1);
    }
}

/// A whole placement attempt from `p`: collect the tiles already before `p`,
/// run the forward pass, collect the tiles after the span, and keep the
/// candidate only when it is a lexicon word of length at least 2. On success:
/// the word read off the amended board and its score, the word's tile values
/// (new tiles under their letter premiums) times the word premiums the new
/// tiles cover, plus each completed perpendicular word's score.
pub open spec fn place_spec(
    state: Seq<char>,
    p: Position,
    d: Direction,
    part: Seq<char>,
    cc: Seq<Seq<char>>,
    t: Trie,
) -> Option<(Seq<char>, Position, int)> {
    if part.len() == 0 || !is_marker(state[p.to_int_spec()]) {
        None
    } else {
        let back = back_letters(state, p, d);
        let start = p.tick_opp_n_spec(d, back.len())->Some_0;
        match place_fwd(state, p, d, part, cc) {
            None => None,
            Some(r) => {
                let trail = if r.ran_off {
                    Seq::<char>::empty()
                } else {
                    run_from(r.state, r.next, d)
                };
                let word = back + r.word + trail;
                if word.len() <= 1 || !t.accepts(word) {
                    None
                } else {
                    Some(
                        (
                            word,
                            start,
                            (values_sum(back) + r.main + values_sum(trail)) * r.mult + r.cross,
                        ),
                    )
                }
            },
        }
    }
}

impl Board {
    fn collect_back(&self, p: Position, d: Direction) -> (r: Vec<char>)
        requires
            self.wf(),
            p.wf(),
        ensures
            r@ == back_letters(self.state@, p, d),
        decreases p.row + p.col,
    {
        let mut q = p;
        if !q.tick_opp(d) {
            let r: Vec<char> = Vec::new();
            proof {
                assert(r@ =~= back_letters(self.state@, p, d));
            }
            return r;
        }
        if !self.is_letter(q) {
            let r: Vec<char> = Vec::new();
            proof {
                assert(r@ =~= back_letters(self.state@, p, d));
            }
            return r;
        }
        let mut r = self.collect_back(q, d);
        r.push(self.at_position(q));
        proof {
            assert(r@ =~= back_letters(self.state@, p, d));
        }
        r
    }

    /// The summed point values of the perpendicular word that placing `c` at
    /// `p` would complete; 0 when it completes none.
    fn cross_score_at(&self, p: Position, d: Direction, c: char) -> (r: i64)
        requires
            self.wf(),
            p.wf(),
        ensures
            r == cross_score(self.state@, p, d, c),
            0 <= r <= 930,
    {
        proof {
            lemma_cross_score_bounds(self.state@, p, d, c);
        }
        let dd = d.flip();
        proof {
            lemma_back_len(self.state@, p, dd);
        }
        let b = self.collect_back(p, dd);
        let mut q = p;
        let f: Vec<char> = if q.tick(dd) {
            proof {
                lemma_run_len(self.state@, q, dd);
            }
            self.collect_run(q, dd)
        } else {
            let v: Vec<char> = Vec::new();
            proof {
                assert(v@ =~= after_letters(self.state@, p, dd));
            }
            v
        };
        proof {
            assert(f@ == after_letters(self.state@, p, dd));
            lemma_back_len(self.state@, p, dd);
            lemma_values_sum_bounds(b@);
            lemma_values_sum_bounds(f@);
        }
        if b.len() == 0 && f.len() == 0 {
            return 0;
        }
        let sb = sum_values(&b);
        let sf = sum_values(&f);
        let marker_char = self.at_position(p);
        let lm: i64 = if marker_char == '+' {
            3
        } else if marker_char == '-' {
            2
        } else {
            1
        };
        let wm: i64 = if marker_char == '#' {
            3
        } else if marker_char == '^' || marker_char == '*' {
            2
        } else {
            1
        };
        let tile = crate::bag::Bag::default_score(c);
        (sb + sf + (tile as i64) * lm) * wm
    }
}

/// The summed point values of a run of tiles.
pub fn sum_values(v: &Vec<char>) -> (r: i64)
    requires
        v@.len() <= 15,
    ensures
        r == values_sum(v@),
        0 <= r <= 10 * v@.len(),
{
    proof {
        lemma_values_sum_bounds(v@);
    }
    let mut r: i64 = 0;
    let mut i: usize = 0;
    while i < v.len()
        invariant
            i <= v@.len() <= 15,
            r == values_sum(v@.take(i as int)),
            0 <= r <= 10 * i,
        decreases v@.len() - i,
    {
        proof {
            assert(v@.take(i + 1).drop_last() =~= v@.take(i as int));
            assert(v@.take(i + 1).last() == v@[i as int]);
            crate::bag::lemma_letter_value_bounds(v@[i as int]);
        }
        let s = crate::bag::Bag::default_score(v[i]);
        r = r + (s as i64);
        i = i + 1;
    }
    proof {
        assert(v@.take(v@.len() as int) =~= v@);
    }
    r
}



impl Board {
    fn place_fwd_exec(
        &mut self,
        p: Position,
        d: Direction,
        part: &Vec<char>,
        i: usize,
        cc: &Vec<Vec<char>>,
    ) -> (r: Option<(Vec<char>, i64, i64, i64, Position, bool)>)
        requires
            old(self).wf(),
            p.wf(),
            i <= part@.len(),
            cc@.len() == 225,
        ensures
            final(self).wf(),
            match r {
                Some(t) => place_fwd(
                    old(self).state@,
                    p,
                    d,
                    part@.skip(i as int),
                    crate::rack::deep(cc@),
                ) == Some(
                    PlaceStep {
                        state: final(self).state@,
                        word: t.0@,
                        main: t.1 as int,
                        mult: t.2 as int,
                        cross: t.3 as int,
                        next: t.4,
                        ran_off: t.5,
                    },
                ),
                None => place_fwd(
                    old(self).state@,
                    p,
                    d,
                    part@.skip(i as int),
                    crate::rack::deep(cc@),
                ) is None,
            },
        decreases 28 - p.row - p.col,
    {
        if i == part.len() {
            proof {
                assert(part@.skip(i as int) =~= Seq::<char>::empty());
            }
            let w: Vec<char> = Vec::new();
            return Some((w, 0, 1, 0, p, false));
        }
        proof {
            assert(part@.skip(i as int)[0] == part@[i as int]);
            assert(part@.skip(i as int).drop_first() =~= part@.skip(i + 1));
        }
        if self.is_letter(p) {
            let ch = self.at_position(p);
            let mut q = p;
            if !q.tick(d) {
                return None;
            }
            let ghost pre = self.state@;
            match self.place_fwd_exec(q, d, part, i, cc) {
                None => None,
                Some((sub_w, main, mult, cross, next, off)) => {
                    proof {
                        lemma_place_fwd_bounds(pre, q, d, part@.skip(i as int), crate::rack::deep(cc@));
                    }
                    let mut w2: Vec<char> = Vec::new();
                    w2.push(ch);
                    let mut rest = sub_w;
                    w2.append(&mut rest);
                    let v = crate::bag::Bag::default_score(ch);
                    proof {
                        assert(w2@ =~= seq![ch] + place_fwd(
                            pre,
                            q,
                            d,
                            part@.skip(i as int),
                            crate::rack::deep(cc@),
                        )->Some_0.word);
                    }
                    Some((w2, main + (v as i64), mult, cross, next, off))
                },
            }
        } else {
            let c = part[i];
            let u = crate::utils::to_upper(c);
            let idx = p.to_int();
            if !crate::utils::contains_item(&cc[idx], u) {
                proof {
                    assert(crate::rack::deep(cc@)[p.to_int_spec()] == cc@[p.to_int_spec()]@);
                }
                return None;
            }
            proof {
                assert(crate::rack::deep(cc@)[p.to_int_spec()] == cc@[p.to_int_spec()]@);
            }
            let cs = self.cross_score_at(p, d, c);
            let m = self.at_position(p);
            let lm: i64 = if m == '+' {
                3
            } else if m == '-' {
                2
            } else {
                1
            };
            let wm: i64 = if m == '#' {
                3
            } else if m == '^' || m == '*' {
                2
            } else {
                1
            };
            let here_main = (crate::bag::Bag::default_score(c) as i64) * lm;
            self.set(p, u);
            let mut q = p;
            let ok = q.tick(d);
            if i + 1 == part.len() {
                proof {
                    assert(part@.skip(i as int).len() == 1);
                }
                let mut w: Vec<char> = Vec::new();
                w.push(u);
                proof {
                    assert(w@ =~= seq![u]);
                }
                if ok {
                    return Some((w, here_main, wm, cs, q, false));
                } else {
                    return Some((w, here_main, wm, cs, p, true));
                }
            }
            if !ok {
                return None;
            }
            let ghost mid = self.state@;
            match self.place_fwd_exec(q, d, part, i + 1, cc) {
                None => None,
                Some((sub_w, main, mult, cross, next, off)) => {
                    proof {
                        lemma_place_fwd_bounds(
                            mid,
                            q,
                            d,
                            part@.skip(i + 1),
                            crate::rack::deep(cc@),
                        );
                        lemma_pow3_le(
                            place_fwd(
                                mid,
                                q,
                                d,
                                part@.skip(i + 1),
                                crate::rack::deep(cc@),
                            )->Some_0.word.len() as nat,
                            15,
                        );
                        lemma_pow3_15();
                    }
                    let mut w2: Vec<char> = Vec::new();
                    w2.push(u);
                    let mut rest = sub_w;
                    w2.append(&mut rest);
                    proof {
                        assert(w2@ =~= seq![u] + place_fwd(
                            mid,
                            q,
                            d,
                            part@.skip(i + 1),
                            crate::rack::deep(cc@),
                        )->Some_0.word);
                    }
                    Some((w2, here_main + main, wm * mult, cs + cross, next, off))
                },
            }
        }
    }

    /// A placement attempt from `p` in direction `d` with the tiles of
    /// `part`: `None` is a failed trial, an expected outcome of the
    /// exhaustive search; `Some` is a legal candidate move carrying the full
    /// word read off the board and its letter score.
    pub fn place(
        &self,
        p: Position,
        d: Direction,
        part: &Vec<char>,
        t: &Trie,
        cc: &Vec<Vec<char>>,
    ) -> (r: Option<crate::utils::Move>)
        requires
            self.wf(),
            p.wf(),
            t.wf(),
            t.has_hashroot(),
            cc@.len() == 225,
            part@.len() >= 1,
        ensures
            match r {
                Some(m) => place_spec(self.state@, p, d, part@, crate::rack::deep(cc@), *t)
                    == Some((m.word@, m.position, m.score as int)) && m.direction == d
                    && m.typ == crate::utils::Type::Play && m.evaluation == 0,
                None => place_spec(self.state@, p, d, part@, crate::rack::deep(cc@), *t) is None,
            },
    {
        if self.is_letter(p) {
            return None;
        }
        proof {
            lemma_back_len(self.state@, p, d);
            lemma_back_walk(self.state@, p, d);
        }
        let back = self.collect_back(p, d);
        let start = match p.tick_opp_n(d, back.len()) {
            Some(st) => st,
            None => {
                proof {
                    assert(false);
                }
                p
            },
        };
        let sb = sum_values(&back);
        let mut scratch = self.clone();
        proof {
            assert(part@.skip(0) =~= part@);
        }
        match scratch.place_fwd_exec(p, d, part, 0, cc) {
            None => None,
            Some((w, main, mult, cross, next, off)) => {
                proof {
                    lemma_place_fwd_bounds(self.state@, p, d, part@, crate::rack::deep(cc@));
                    lemma_pow3_le(
                        place_fwd(
                            self.state@,
                            p,
                            d,
                            part@,
                            crate::rack::deep(cc@),
                        )->Some_0.word.len() as nat,
                        15,
                    );
                    lemma_pow3_15();
                }
                let trail: Vec<char> = if off {
                    Vec::new()
                } else {
                    proof {
                        lemma_run_len(scratch.state@, next, d);
                    }
                    scratch.collect_run(next, d)
                };
                proof {
                    if !off {
                        assert(trail@ == run_from(scratch.state@, next, d));
                    } else {
                        assert(trail@ =~= Seq::<char>::empty());
                    }
                }
                let st = sum_values(&trail);
                let mut word = back;
                let mut mid = w;
                word.append(&mut mid);
                let mut tl = trail;
                word.append(&mut tl);
                proof {
                    assert(word@ == back_letters(self.state@, p, d) + place_fwd(
                        self.state@,
                        p,
                        d,
                        part@,
                        crate::rack::deep(cc@),
                    )->Some_0.word + (if off {
                        Seq::<char>::empty()
                    } else {
                        run_from(scratch.state@, next, d)
                    }));
                }
                if word.len() <= 1 {
                    return None;
                }
                if !t.check_word(&word) {
                    return None;
                }
                let score: i64 = {
                    let sum = sb + main + st;
                    proof {
                        assert(0 <= sum <= 740);
                        assert(sum * mult <= 740 * 14348907) by (nonlinear_arith)
                            requires
                                0 <= sum <= 740,
                                1 <= mult <= 14348907,
                        ;
                        assert(sum * mult >= 0) by (nonlinear_arith)
                            requires
                                0 <= sum,
                                1 <= mult,
                        ;
                    }
                    sum * mult + cross
                };
                Some(
                    crate::utils::Move {
                        word,
                        position: start,
                        direction: d,
                        score,
                        evaluation: 0,
                        typ: crate::utils::Type::Play,
                    },
                )
            },
        }
    }
}



/// A move as plain data: word, start, direction, score, evaluation.
pub open spec fn move_model(m: crate::utils::Move) -> (
    Seq<char>,
    Position,
    Direction,
    int,
    int,
) {
    (m.word@, m.position, m.direction, m.score as int, m.evaluation as int)
}

pub open spec fn models(s: Seq<crate::utils::Move>) -> Seq<
    (Seq<char>, Position, Direction, int, int),
> {
    s.map_values(|m: crate::utils::Move| move_model(m))
}

/// The leave evaluation of a play: the leave-table value of the rack left
/// after paying for the part's tiles, 0 when the table has no entry.
pub open spec fn eval_spec(
    rack: Seq<char>,
    part: Seq<char>,
    dict: crate::dictionary::Dictionary,
) -> int {
    match dict.lookup(
        crate::utils::to_word_spec(crate::utils::complement_spec(part, rack)),
    ) {
        Some(v) => v as int,
        None => 0,
    }
}

/// The cross-check table: for each square, the letters that keep the board
/// legal there.
pub open spec fn cc_table_spec(state: Seq<char>, d: Direction, t: Trie) -> Seq<Seq<char>> {
    Seq::new(
        225,
        |k: int|
            crate::utils::selected_letters(
                cross_check_spec(state, crate::utils::positions_spec()[k], d, t),
                26,
            ),
    )
}

/// The candidate moves of one part at one anchor and direction, trying every
/// start offset that still touches the anchor, nearest offsets last.
pub open spec fn moves_for_dists(
    state: Seq<char>,
    a: Position,
    d: Direction,
    part: Seq<char>,
    k: int,
    cc: Seq<Seq<char>>,
    t: Trie,
    ev: int,
) -> Seq<(Seq<char>, Position, Direction, int, int)>
    decreases k + 1,
{
    if k < 0 {
        Seq::empty()
    } else {
        (match a.tick_opp_n_spec(d, k as nat) {
            Some(pos) => match place_spec(state, pos, d, part, cc, t) {
                Some(ws) => seq![(ws.0, ws.1, d, ws.2, ev)],
                None => Seq::empty(),
            },
            None => Seq::empty(),
        }) + moves_for_dists(state, a, d, part, k - 1, cc, t, ev)
    }
}

/// The candidate moves of every part at one anchor and direction.
pub open spec fn moves_for_parts(
    state: Seq<char>,
    a: Position,
    d: Direction,
    parts: Seq<Seq<char>>,
    j: int,
    cc: Seq<Seq<char>>,
    t: Trie,
    dict: crate::dictionary::Dictionary,
    rack: Seq<char>,
) -> Seq<(Seq<char>, Position, Direction, int, int)>
    decreases parts.len() - j,
{
    if j < 0 || j >= parts.len() {
        Seq::empty()
    } else {
        moves_for_dists(
            state,
            a,
            d,
            parts[j],
            parts[j].len() - 1,
            cc,
            t,
            eval_spec(rack, parts[j], dict),
        ) + moves_for_parts(state, a, d, parts, j + 1, cc, t, dict, rack)
    }
}

/// The candidate moves of every anchor, across then down at each.
pub open spec fn moves_from_anchors(
    state: Seq<char>,
    anchors: Seq<Position>,
    i: int,
    parts: Seq<Seq<char>>,
    cc_a: Seq<Seq<char>>,
    cc_d: Seq<Seq<char>>,
    t: Trie,
    dict: crate::dictionary::Dictionary,
    rack: Seq<char>,
) -> Seq<(Seq<char>, Position, Direction, int, int)>
    decreases anchors.len() - i,
{
    if i < 0 || i >= anchors.len() {
        Seq::empty()
    } else {
        moves_for_parts(state, anchors[i], Direction::Across, parts, 0, cc_a, t, dict, rack)
            + moves_for_parts(state, anchors[i], Direction::Down, parts, 0, cc_d, t, dict, rack)
            + moves_from_anchors(state, anchors, i + 1, parts, cc_a, cc_d, t, dict, rack)
    }
}

/// Every legal move of the given rack on the given board: a function of the
/// board, the rack and the lexicon alone, so repeated generation returns the
/// very same sequence.
pub open spec fn gen_moves_spec(
    state: Seq<char>,
    rack: Seq<char>,
    t: Trie,
    dict: crate::dictionary::Dictionary,
) -> Seq<(Seq<char>, Position, Direction, int, int)> {
    moves_from_anchors(
        state,
        anchors_spec(state),
        0,
        crate::rack::parts_spec(rack),
        cc_table_spec(state, Direction::Across, t),
        cc_table_spec(state, Direction::Down, t),
        t,
        dict,
        rack,
    )
}

/// Every anchor is on the board.
pub proof fn lemma_anchor_cands_wf(state: Seq<char>, p: Position, j: int)
    requires
        p.wf(),
    ensures
        forall|m: int|
            0 <= m < anchor_cands(state, p, j).len() ==> (#[trigger] anchor_cands(
                state,
                p,
                j,
            )[m]).wf(),
    decreases p.neighbors_spec().len() - j,
{
    lemma_neighbors_wf(p);
    if 0 <= j < p.neighbors_spec().len() {
        lemma_anchor_cands_wf(state, p, j + 1);
        let head = if is_marker(state[p.neighbors_spec()[j].to_int_spec()]) {
            seq![p.neighbors_spec()[j]]
        } else {
            Seq::<Position>::empty()
        };
        let tail = anchor_cands(state, p, j + 1);
        assert forall|m: int|
            0 <= m < anchor_cands(state, p, j).len() implies (#[trigger] anchor_cands(
            state,
            p,
            j,
        )[m]).wf() by {
            if m < head.len() {
                assert(anchor_cands(state, p, j)[m] == p.neighbors_spec()[j]);
            } else {
                assert(anchor_cands(state, p, j)[m] == tail[m - head.len()]);
            }
        }
    }
}

pub proof fn lemma_anchors_upto_wf(state: Seq<char>, k: int)
    requires
        k <= 225,
    ensures
        forall|m: int|
            0 <= m < anchors_upto(state, k).len() ==> (#[trigger] anchors_upto(state, k)[m]).wf(),
    decreases k,
{
    if k > 0 {
        lemma_anchors_upto_wf(state, k - 1);
        let p = crate::utils::positions_spec()[k - 1];
        assert(p.wf());
        lemma_anchor_cands_wf(state, p, 0);
        let head = anchors_upto(state, k - 1);
        let tail = if !is_marker(state[p.to_int_spec()]) {
            anchor_cands(state, p, 0)
        } else {
            Seq::<Position>::empty()
        };
        assert forall|m: int|
            0 <= m < anchors_upto(state, k).len() implies (#[trigger] anchors_upto(
            state,
            k,
        )[m]).wf() by {
            if m < head.len() {
                assert(anchors_upto(state, k)[m] == head[m]);
            } else {
                assert(anchors_upto(state, k)[m] == tail[m - head.len()]);
            }
        }
    }
}

/// The rack left after paying one tile for each letter of `part`.
pub fn rack_leave(rack: &Vec<char>, part: &Vec<char>) -> (r: Vec<char>)
    ensures
        r@ == crate::utils::complement_spec(part@, rack@),
{
    let mut nr: Vec<char> = rack.clone();
    proof {
        assert(part@.skip(0) =~= part@);
    }
    let mut i: usize = 0;
    while i < part.len()
        invariant
            i <= part@.len(),
            crate::utils::complement_spec(part@.skip(i as int), nr@)
                == crate::utils::complement_spec(part@, rack@),
        decreases part@.len() - i,
    {
        let ghost before = nr@;
        let c = part[i];
        if crate::utils::contains_item(&nr, c) {
            crate::utils::remove_item(&mut nr, c);
        } else if crate::utils::contains_item(&nr, '?') {
            crate::utils::remove_item(&mut nr, '?');
        }
        proof {
            assert(nr@ == crate::utils::pay_tile(before, c));
            assert(part@.skip(i as int).drop_first() =~= part@.skip(i + 1));
            assert(part@.skip(i as int)[0] == part@[i as int]);
        }
        i = i + 1;
    }
    proof {
        assert(part@.skip(part@.len() as int) =~= Seq::<char>::empty());
    }
    nr
}

impl Board {
    /// Every legal move of `rack` on this board, scored and evaluated: the
    /// exhaustive anchor-driven search over rack arrangements. The result is
    /// pinned to `gen_moves_spec`, a function of (board, rack, lexicon,
    /// leave table) alone: repeated calls return identical move lists.
    pub fn generate_all_moves(
        &self,
        rack: &Vec<char>,
        t: &Trie,
        dict: &crate::dictionary::Dictionary,
    ) -> (r: Vec<crate::utils::Move>)
        requires
            self.wf(),
            t.wf(),
            t.has_hashroot(),
        ensures
            models(r@) == gen_moves_spec(self.state@, rack@, *t, *dict),
            forall|i: int| 0 <= i < r@.len() ==> (#[trigger] r@[i]).typ is Play,
    {
        let cca = self.cc_table(Direction::Across, t);
        let ccd = self.cc_table(Direction::Down, t);
        let anchors = self.anchors();
        let parts = crate::rack::gen_parts(rack);
        let mut result: Vec<crate::utils::Move> = Vec::new();
        let ghost st = self.state@;
        let ghost ccav = crate::rack::deep(cca@);
        let ghost ccdv = crate::rack::deep(ccd@);
        let ghost pv = crate::rack::deep(parts@);
        let mut ai: usize = 0;
        proof {
            lemma_anchors_upto_wf(st, 225);
            assert(forall|m: int|
                0 <= m < anchors@.len() ==> (#[trigger] anchors@[m]).wf());
        }
        while ai < anchors.len()
            invariant
                ai <= anchors@.len(),
                self.wf(),
                t.wf(),
                t.has_hashroot(),
                st == self.state@,
                ccav == crate::rack::deep(cca@),
                ccdv == crate::rack::deep(ccd@),
                cca@.len() == 225,
                ccd@.len() == 225,
                pv == crate::rack::deep(parts@),
                anchors@ == anchors_spec(st),
                forall|m: int| 0 <= m < anchors@.len() ==> (#[trigger] anchors@[m]).wf(),
                models(result@) + moves_from_anchors(st, anchors@, ai as int, pv, ccav, ccdv, *t, *dict, rack@)
                    == gen_moves_spec(st, rack@, *t, *dict),
                forall|i: int| 0 <= i < result@.len() ==> (#[trigger] result@[i]).typ is Play,
            decreases anchors@.len() - ai,
        {
            let a = anchors[ai];
            let ghost base0 = models(result@);
            self.moves_at(a, Direction::Across, &parts, t, dict, rack, &cca, &mut result);
            proof {
                assert(models(result@) =~= base0 + moves_for_parts(
                    st,
                    a,
                    Direction::Across,
                    pv,
                    0,
                    ccav,
                    *t,
                    *dict,
                    rack@,
                ));
            }
            let ghost base1 = models(result@);
            self.moves_at(a, Direction::Down, &parts, t, dict, rack, &ccd, &mut result);
            proof {
                assert(models(result@) =~= base1 + moves_for_parts(
                    st,
                    a,
                    Direction::Down,
                    pv,
                    0,
                    ccdv,
                    *t,
                    *dict,
                    rack@,
                ));
                assert(models(result@) + moves_from_anchors(
                    st,
                    anchors@,
                    ai + 1,
                    pv,
                    ccav,
                    ccdv,
                    *t,
                    *dict,
                    rack@,
                ) =~= gen_moves_spec(st, rack@, *t, *dict));
            }
            ai = ai + 1;
        }
        proof {
            assert(moves_from_anchors(st, anchors@, anchors@.len() as int, pv, ccav, ccdv, *t, *dict, rack@)
                =~= Seq::<(Seq<char>, Position, Direction, int, int)>::empty());
            assert(models(result@) =~= models(result@) + moves_from_anchors(
                st,
                anchors@,
                anchors@.len() as int,
                pv,
                ccav,
                ccdv,
                *t,
                *dict,
                rack@,
            ));
        }
        result
    }

    /// The full cross-check table for moves in direction `d`: one letter list
    /// per square, recomputed from the current board.
    fn cc_table(&self, d: Direction, t: &Trie) -> (r: Vec<Vec<char>>)
        requires
            self.wf(),
            t.wf(),
            t.has_hashroot(),
        ensures
            crate::rack::deep(r@) == cc_table_spec(self.state@, d, *t),
            r@.len() == 225,
    {
        let pos = crate::utils::positions();
        let mut cc: Vec<Vec<char>> = Vec::new();
        let mut k: usize = 0;
        while k < 225
            invariant
                k <= 225,
                self.wf(),
                t.wf(),
                t.has_hashroot(),
                pos@ == crate::utils::positions_spec(),
                crate::rack::deep(cc@) == cc_table_spec(self.state@, d, *t).take(k as int),
            decreases 225 - k,
        {
            let p = pos[k];
            proof {
                assert(p.wf());
            }
            let mask = self.valid_at(p, d, t);
            let letters = crate::utils::chars(&mask);
            let ghost lv = letters@;
            let ghost pre = cc@;
            cc.push(letters);
            proof {
                assert(cc_table_spec(self.state@, d, *t).len() == 225);
                assert(cc_table_spec(self.state@, d, *t).take(k as int).len() == k);
                assert(crate::rack::deep(pre).len() == pre.len());
                assert(pre.len() == k);
                assert(cc@.len() == k + 1);
                assert(cc@[k as int]@ == lv);
                assert(crate::rack::deep(cc@)[k as int] == lv);
                assert(lv == cc_table_spec(self.state@, d, *t)[k as int]);
                assert(crate::rack::deep(cc@) =~= cc_table_spec(self.state@, d, *t).take(k + 1));
            }
            k = k + 1;
        }
        proof {
            assert(cc_table_spec(self.state@, d, *t).take(225) =~= cc_table_spec(
                self.state@,
                d,
                *t,
            ));
            assert(crate::rack::deep(cc@).len() == 225);
        }
        cc
    }

    fn moves_at(
        &self,
        a: Position,
        d: Direction,
        parts: &Vec<Vec<char>>,
        t: &Trie,
        dict: &crate::dictionary::Dictionary,
        rack: &Vec<char>,
        cc: &Vec<Vec<char>>,
        result: &mut Vec<crate::utils::Move>,
    )
        requires
            self.wf(),
            a.wf(),
            t.wf(),
            t.has_hashroot(),
            cc@.len() == 225,
        ensures
            models(final(result)@) == models(old(result)@) + moves_for_parts(
                self.state@,
                a,
                d,
                crate::rack::deep(parts@),
                0,
                crate::rack::deep(cc@),
                *t,
                *dict,
                rack@,
            ),
            forall|i: int|
                0 <= i < final(result)@.len() ==> ((#[trigger] final(result)@[i]).typ is Play
                    || i < old(result)@.len() && final(result)@[i] == old(result)@[i]),
            forall|i: int|
                0 <= i < old(result)@.len() ==> (#[trigger] final(result)@[i]) == old(result)@[i],
    {
        let ghost st = self.state@;
        let ghost ccv = crate::rack::deep(cc@);
        let ghost pv = crate::rack::deep(parts@);
        let ghost base = models(old(result)@);
        let mut j: usize = 0;
        while j < parts.len()
            invariant
                j <= parts@.len(),
                self.wf(),
                a.wf(),
                t.wf(),
                t.has_hashroot(),
                st == self.state@,
                ccv == crate::rack::deep(cc@),
                cc@.len() == 225,
                pv == crate::rack::deep(parts@),
                models(result@) + moves_for_parts(st, a, d, pv, j as int, ccv, *t, *dict, rack@)
                    == base + moves_for_parts(st, a, d, pv, 0, ccv, *t, *dict, rack@),
                forall|i: int|
                    0 <= i < result@.len() ==> ((#[trigger] result@[i]).typ is Play || i < old(
                        result,
                    )@.len() && result@[i] == old(result)@[i]),
                forall|i: int|
                    0 <= i < old(result)@.len() ==> (#[trigger] result@[i]) == old(result)@[i],
                result@.len() >= old(result)@.len(),
                base == models(old(result)@),
            decreases parts@.len() - j,
        {
            let part = &parts[j];
            proof {
                assert(pv[j as int] == parts@[j as int]@);
            }
            let leave = rack_leave(rack, part);
            let composition = crate::utils::to_word(&leave);
            let ev: i64 = match dict.evaluate(&composition) {
                Some(v) => v,
                None => 0,
            };
            proof {
                assert(ev as int == eval_spec(rack@, pv[j as int], *dict));
            }
            let ghost basej = models(result@);
            if part.len() >= 1 {
                let mut k: usize = part.len();
                while k > 0
                    invariant
                        k <= part@.len(),
                        self.wf(),
                        a.wf(),
                        t.wf(),
                        t.has_hashroot(),
                        st == self.state@,
                        ccv == crate::rack::deep(cc@),
                        cc@.len() == 225,
                        part@.len() >= 1,
                        ev as int == eval_spec(rack@, part@, *dict),
                        models(result@) + moves_for_dists(st, a, d, part@, k - 1, ccv, *t, ev as int)
                            == basej + moves_for_dists(st, a, d, part@, part@.len() - 1, ccv, *t, ev as int),
                        forall|i: int|
                            0 <= i < result@.len() ==> ((#[trigger] result@[i]).typ is Play || i
                                < old(result)@.len() && result@[i] == old(result)@[i]),
                        forall|i: int|
                            0 <= i < old(result)@.len() ==> (#[trigger] result@[i]) == old(
                                result,
                            )@[i],
                        result@.len() >= old(result)@.len(),
                    decreases k,
                {
                    k = k - 1;
                    match a.tick_opp_n(d, k) {
                        Some(pstart) => {
                            proof {
                                Position::lemma_tick_opp_n_wf(a, d, k as nat);
                            }
                            match self.place(pstart, d, part, t, cc) {
                                Some(m) => {
                                    let mut m2 = m;
                                    m2.evaluation = ev;
                                    result.push(m2);
                                },
                                None => {},
                            }
                        },
                        None => {},
                    }
                    proof {
                        assert(models(result@) + moves_for_dists(st, a, d, part@, k - 1, ccv, *t, ev as int)
                            =~= basej + moves_for_dists(st, a, d, part@, part@.len() - 1, ccv, *t, ev as int));
                    }
                }
            }
            proof {
                assert(models(result@) =~= basej + moves_for_dists(
                    st,
                    a,
                    d,
                    part@,
                    part@.len() - 1,
                    ccv,
                    *t,
                    ev as int,
                ));
                assert(models(result@) + moves_for_parts(st, a, d, pv, j + 1, ccv, *t, *dict, rack@)
                    =~= base + moves_for_parts(st, a, d, pv, 0, ccv, *t, *dict, rack@));
            }
            j = j + 1;
        }
        proof {
            assert(moves_for_parts(st, a, d, pv, pv.len() as int, ccv, *t, *dict, rack@)
                =~= Seq::<(Seq<char>, Position, Direction, int, int)>::empty());
            assert(models(result@) =~= base + moves_for_parts(st, a, d, pv, 0, ccv, *t, *dict, rack@));
        }
    }
}



/// A successful placement yields a lexicon word of length at least 2.
pub proof fn lemma_place_spec_accepted(
    state: Seq<char>,
    p: Position,
    d: Direction,
    part: Seq<char>,
    cc: Seq<Seq<char>>,
    t: Trie,
)
    ensures
        match place_spec(state, p, d, part, cc, t) {
            Some(ws) => t.accepts(ws.0) && ws.0.len() >= 2,
            None => true,
        },
{
}

proof fn lemma_dists_accepted(
    state: Seq<char>,
    a: Position,
    d: Direction,
    part: Seq<char>,
    k: int,
    cc: Seq<Seq<char>>,
    t: Trie,
    ev: int,
)
    ensures
        forall|i: int|
            0 <= i < moves_for_dists(state, a, d, part, k, cc, t, ev).len() ==> t.accepts(
                (#[trigger] moves_for_dists(state, a, d, part, k, cc, t, ev)[i]).0,
            ) && moves_for_dists(state, a, d, part, k, cc, t, ev)[i].0.len() >= 2,
    decreases k + 1,
{
    if k >= 0 {
        lemma_dists_accepted(state, a, d, part, k - 1, cc, t, ev);
        let whole = moves_for_dists(state, a, d, part, k, cc, t, ev);
        let tail = moves_for_dists(state, a, d, part, k - 1, cc, t, ev);
        assert forall|i: int| 0 <= i < whole.len() implies t.accepts((#[trigger] whole[i]).0)
            && whole[i].0.len() >= 2 by {
            if i >= whole.len() - tail.len() {
                assert(whole[i] == tail[i - (whole.len() - tail.len())]);
            } else {
                match a.tick_opp_n_spec(d, k as nat) {
                    Some(pos) => {
                        lemma_place_spec_accepted(state, pos, d, part, cc, t);
                    },
                    None => {},
                }
            }
        }
    }
}

proof fn lemma_parts_accepted(
    state: Seq<char>,
    a: Position,
    d: Direction,
    parts: Seq<Seq<char>>,
    j: int,
    cc: Seq<Seq<char>>,
    t: Trie,
    dict: crate::dictionary::Dictionary,
    rack: Seq<char>,
)
    ensures
        forall|i: int|
            0 <= i < moves_for_parts(state, a, d, parts, j, cc, t, dict, rack).len() ==> t.accepts(
                (#[trigger] moves_for_parts(state, a, d, parts, j, cc, t, dict, rack)[i]).0,
            ) && moves_for_parts(state, a, d, parts, j, cc, t, dict, rack)[i].0.len() >= 2,
    decreases parts.len() - j,
{
    if 0 <= j < parts.len() {
        lemma_parts_accepted(state, a, d, parts, j + 1, cc, t, dict, rack);
        let head = moves_for_dists(
            state,
            a,
            d,
            parts[j],
            parts[j].len() - 1,
            cc,
            t,
            eval_spec(rack, parts[j], dict),
        );
        lemma_dists_accepted(
            state,
            a,
            d,
            parts[j],
            parts[j].len() - 1,
            cc,
            t,
            eval_spec(rack, parts[j], dict),
        );
        let whole = moves_for_parts(state, a, d, parts, j, cc, t, dict, rack);
        let tail = moves_for_parts(state, a, d, parts, j + 1, cc, t, dict, rack);
        assert forall|i: int| 0 <= i < whole.len() implies t.accepts((#[trigger] whole[i]).0)
            && whole[i].0.len() >= 2 by {
            if i < head.len() {
                assert(whole[i] == head[i]);
            } else {
                assert(whole[i] == tail[i - head.len()]);
            }
        }
    }
}

proof fn lemma_anchors_accepted(
    state: Seq<char>,
    anchors: Seq<Position>,
    j: int,
    parts: Seq<Seq<char>>,
    cc_a: Seq<Seq<char>>,
    cc_d: Seq<Seq<char>>,
    t: Trie,
    dict: crate::dictionary::Dictionary,
    rack: Seq<char>,
)
    ensures
        forall|i: int|
            0 <= i < moves_from_anchors(state, anchors, j, parts, cc_a, cc_d, t, dict, rack).len()
                ==> t.accepts(
                (#[trigger] moves_from_anchors(state, anchors, j, parts, cc_a, cc_d, t, dict, rack)[i]).0,
            ) && moves_from_anchors(state, anchors, j, parts, cc_a, cc_d, t, dict, rack)[i].0.len() >= 2,
    decreases anchors.len() - j,
{
    if 0 <= j < anchors.len() {
        lemma_anchors_accepted(state, anchors, j + 1, parts, cc_a, cc_d, t, dict, rack);
        let h1 = moves_for_parts(state, anchors[j], Direction::Across, parts, 0, cc_a, t, dict, rack);
        let h2 = moves_for_parts(state, anchors[j], Direction::Down, parts, 0, cc_d, t, dict, rack);
        lemma_parts_accepted(state, anchors[j], Direction::Across, parts, 0, cc_a, t, dict, rack);
        lemma_parts_accepted(state, anchors[j], Direction::Down, parts, 0, cc_d, t, dict, rack);
        let whole = moves_from_anchors(state, anchors, j, parts, cc_a, cc_d, t, dict, rack);
        let tail = moves_from_anchors(state, anchors, j + 1, parts, cc_a, cc_d, t, dict, rack);
        assert forall|i: int| 0 <= i < whole.len() implies t.accepts((#[trigger] whole[i]).0)
            && whole[i].0.len() >= 2 by {
            if i < h1.len() {
                assert(whole[i] == h1[i]);
            } else if i < h1.len() + h2.len() {
                assert(whole[i] == h2[i - h1.len()]);
            } else {
                assert(whole[i] == tail[i - h1.len() - h2.len()]);
            }
        }
    }
}

/// Generation soundness: every move the generator emits reads as a word the
/// lexicon accepts, of length at least 2. A commit of such a move can only
/// add lexicon words along its own line; its perpendicular words passed the
/// cross-checks the table was built from.
pub proof fn lemma_generated_words_accepted(
    state: Seq<char>,
    rack: Seq<char>,
    t: Trie,
    dict: crate::dictionary::Dictionary,
)
    ensures
        forall|i: int|
            0 <= i < gen_moves_spec(state, rack, t, dict).len() ==> t.accepts(
                (#[trigger] gen_moves_spec(state, rack, t, dict)[i]).0,
            ) && gen_moves_spec(state, rack, t, dict)[i].0.len() >= 2,
{
    lemma_anchors_accepted(
        state,
        anchors_spec(state),
        0,
        crate::rack::parts_spec(rack),
        cc_table_spec(state, Direction::Across, t),
        cc_table_spec(state, Direction::Down, t),
        t,
        dict,
        rack,
    );
}

/// Move generation is deterministic: on one board, rack and lexicon, two
/// generated move lists agree in every word, start, direction, score and
/// evaluation.
pub proof fn lemma_generation_deterministic(
    r1: Seq<(Seq<char>, Position, Direction, int, int)>,
    r2: Seq<(Seq<char>, Position, Direction, int, int)>,
    state: Seq<char>,
    rack: Seq<char>,
    t: Trie,
    dict: crate::dictionary::Dictionary,
)
    requires
        r1 == gen_moves_spec(state, rack, t, dict),
        r2 == gen_moves_spec(state, rack, t, dict),
    ensures
        r1 == r2,
{
}


} // verus!
