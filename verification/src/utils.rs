//! Positions, directions, the move value object, and small rack helpers.
use vstd::prelude::*;

verus! {

/// The tile alphabet: the 26 upper-case letters followed by the blank tile `?`.
pub open spec fn alphabet_spec() -> Seq<char> {
    seq![
        'A', 'B', 'C', 'D', 'E', 'F', 'G', 'H', 'I', 'J', 'K', 'L', 'M', 'N', 'O', 'P', 'Q', 'R',
        'S', 'T', 'U', 'V', 'W', 'X', 'Y', 'Z', '?',
    ]
}

/// The tile alphabet as a vector, upper-case letters then the blank.
pub fn alphabet() -> (r: Vec<char>)
    ensures
        r@ == alphabet_spec(),
{
    let mut v: Vec<char> = Vec::new();
    v.push('A');
    v.push('B');
    v.push('C');
    v.push('D');
    v.push('E');
    v.push('F');
    v.push('G');
    v.push('H');
    v.push('I');
    v.push('J');
    v.push('K');
    v.push('L');
    v.push('M');
    v.push('N');
    v.push('O');
    v.push('P');
    v.push('Q');
    v.push('R');
    v.push('S');
    v.push('T');
    v.push('U');
    v.push('V');
    v.push('W');
    v.push('X');
    v.push('Y');
    v.push('Z');
    v.push('?');
    proof {
        assert(v@ =~= alphabet_spec());
    }
    v
}

#[derive(Copy, Clone, Debug, PartialEq, Eq, Structural)]
pub enum Direction {
    Across,
    Down,
}

impl Direction {
    /// Both directions, across first.
    pub fn iter() -> (r: Vec<Direction>)
        ensures
            r@ == seq![Direction::Across, Direction::Down],
    {
        let mut v: Vec<Direction> = Vec::new();
        v.push(Direction::Across);
        v.push(Direction::Down);
        proof {
            assert(v@ =~= seq![Direction::Across, Direction::Down]);
        }
        v
    }

    pub open spec fn flip_spec(self) -> Direction {
        match self {
            Direction::Across => Direction::Down,
            Direction::Down => Direction::Across,
        }
    }

    pub fn flip(&self) -> (r: Direction)
        ensures
            r == self.flip_spec(),
    {
        match self {
            Direction::Across => Direction::Down,
            Direction::Down => Direction::Across,
        }
    }

    pub fn to_int(&self) -> (r: usize)
        ensures
            self is Across ==> r == 1,
            self is Down ==> r == 0,
    {
        match self {
            Direction::Across => 1,
            Direction::Down => 0,
        }
    }

    /// An arrow naming the direction.
    pub fn to_str(&self) -> (r: &'static str)
        ensures
            self is Down ==> r@ == "↓"@,
            self is Across ==> r@ == "→"@,
    {
        match self {
            Direction::Down => "↓",
            Direction::Across => "→",
        }
    }
}

#[derive(Copy, Clone, Debug, PartialEq, Eq, Hash, Structural)]
pub struct Position {
    pub row: usize,
    pub col: usize,
}

impl Position {
    /// A position is on the board: both coordinates below 15.
    pub open spec fn wf(self) -> bool {
        self.row < 15 && self.col < 15
    }

    /// Stepping forward in a direction: the new position, and whether the step
    /// stayed on the board (on failure the position is unchanged).
    pub open spec fn tick_spec(self, d: Direction) -> (Position, bool) {
        match d {
            Direction::Across => if self.col < 14 {
                (Position { row: self.row, col: (self.col + 1) as usize }, true)
            } else {
                (self, false)
            },
            Direction::Down => if self.row < 14 {
                (Position { row: (self.row + 1) as usize, col: self.col }, true)
            } else {
                (self, false)
            },
        }
    }

    /// Stepping backward in a direction.
    pub open spec fn tick_opp_spec(self, d: Direction) -> (Position, bool) {
        match d {
            Direction::Across => if 0 < self.col {
                (Position { row: self.row, col: (self.col - 1) as usize }, true)
            } else {
                (self, false)
            },
            Direction::Down => if 0 < self.row {
                (Position { row: (self.row - 1) as usize, col: self.col }, true)
            } else {
                (self, false)
            },
        }
    }

    pub fn tick(&mut self, d: Direction) -> (r: bool)
        ensures
            (*final(self), r) == old(self).tick_spec(d),
    {
        match d {
            Direction::Across => {
                if self.col < 14 {
                    self.col = self.col + 1;
                } else {
                    return false;
                }
            },
            Direction::Down => {
                if self.row < 14 {
                    self.row = self.row + 1;
                } else {
                    return false;
                }
            },
        }
        true
    }

    pub fn tick_opp(&mut self, d: Direction) -> (r: bool)
        ensures
            (*final(self), r) == old(self).tick_opp_spec(d),
    {
        match d {
            Direction::Across => {
                if 0 < self.col {
                    self.col = self.col - 1;
                } else {
                    return false;
                }
            },
            Direction::Down => {
                if 0 < self.row {
                    self.row = self.row - 1;
                } else {
                    return false;
                }
            },
        }
        true
    }

    /// The four neighbours that exist, in the order right, down, left, up.
    pub open spec fn neighbors_spec(self) -> Seq<Position> {
        (if self.col < 14 {
            seq![Position { row: self.row, col: (self.col + 1) as usize }]
        } else {
            Seq::empty()
        }) + (if self.row < 14 {
            seq![Position { row: (self.row + 1) as usize, col: self.col }]
        } else {
            Seq::empty()
        }) + (if self.col > 0 {
            seq![Position { row: self.row, col: (self.col - 1) as usize }]
        } else {
            Seq::empty()
        }) + (if self.row > 0 {
            seq![Position { row: (self.row - 1) as usize, col: self.col }]
        } else {
            Seq::empty()
        })
    }

    pub fn neighbors(&self) -> (r: Vec<Position>)
        ensures
            r@ == self.neighbors_spec(),
    {
        let mut result: Vec<Position> = Vec::new();
        if self.col < 14 {
            result.push(Position { row: self.row, col: self.col + 1 });
        }
        if self.row < 14 {
            result.push(Position { row: self.row + 1, col: self.col });
        }
        if self.col > 0 {
            result.push(Position { row: self.row, col: self.col - 1 });
        }
        if self.row > 0 {
            result.push(Position { row: self.row - 1, col: self.col });
        }
        proof {
            assert(result@ =~= self.neighbors_spec());
        }
        result
    }

    /// The linear index of a position, row-major.
    pub open spec fn to_int_spec(self) -> int {
        self.row * 15 + self.col
    }

    pub fn to_int(&self) -> (r: usize)
        requires
            self.wf(),
        ensures
            r == self.to_int_spec(),
            r < 225,
    {
        self.row * 15 + self.col
    }

    /// Stepping forward `n` times; `None` when the walk leaves the board.
    pub open spec fn tick_n_spec(self, d: Direction, n: nat) -> Option<Position>
        decreases n,
    {
        if n == 0 {
            Some(self)
        } else {
            let (p, ok) = self.tick_spec(d);
            if ok {
                p.tick_n_spec(d, (n - 1) as nat)
            } else {
                None
            }
        }
    }

    pub fn tick_n(&self, d: Direction, n: u32) -> (r: Option<Position>)
        ensures
            r == self.tick_n_spec(d, n as nat),
        decreases n,
    {
        if n == 0 {
            Some(*self)
        } else {
            let mut p = *self;
            if p.tick(d) {
                p.tick_n(d, n - 1)
            } else {
                None
            }
        }
    }

    /// Stepping backward `n` times; `None` when the walk leaves the board.
    pub open spec fn tick_opp_n_spec(self, d: Direction, n: nat) -> Option<Position>
        decreases n,
    {
        if n == 0 {
            Some(self)
        } else {
            let (p, ok) = self.tick_opp_spec(d);
            if ok {
                p.tick_opp_n_spec(d, (n - 1) as nat)
            } else {
                None
            }
        }
    }

    pub fn tick_opp_n(&self, d: Direction, n: usize) -> (r: Option<Position>)
        ensures
            r == self.tick_opp_n_spec(d, n as nat),
        decreases n,
    {
        if n == 0 {
            Some(*self)
        } else {
            let mut p = *self;
            if p.tick_opp(d) {
                p.tick_opp_n(d, n - 1)
            } else {
                None
            }
        }
    }

    /// A backward walk keeps the position on the board.
    pub proof fn lemma_tick_opp_n_wf(p: Position, d: Direction, n: nat)
        requires
            p.wf(),
            p.tick_opp_n_spec(d, n) is Some,
        ensures
            p.tick_opp_n_spec(d, n)->Some_0.wf(),
        decreases n,
    {
        if n > 0 {
            let (q, ok) = p.tick_opp_spec(d);
            if ok {
                Position::lemma_tick_opp_n_wf(q, d, (n - 1) as nat);
            }
        }
    }
}

/// The letters selected by a 26-entry mask, in alphabet order.
pub open spec fn selected_letters(arr: Seq<bool>, i: int) -> Seq<char>
    decreases i,
{
    if i <= 0 {
        Seq::empty()
    } else {
        selected_letters(arr, i - 1) + (if arr[i - 1] {
            seq![alphabet_spec()[i - 1]]
        } else {
            Seq::empty()
        })
    }
}

/// Turns a 26-entry validity mask into the letters it selects.
pub fn chars(arr: &Vec<bool>) -> (r: Vec<char>)
    requires
        arr@.len() == 26,
    ensures
        r@ == selected_letters(arr@, 26),
{
    let alph = alphabet();
    let mut result: Vec<char> = Vec::new();
    let mut i: usize = 0;
    while i < 26
        invariant
            i <= 26,
            arr@.len() == 26,
            alph@ == alphabet_spec(),
            result@ == selected_letters(arr@, i as int),
        decreases 26 - i,
    {
        if arr[i] {
            result.push(alph[i]);
        }
        proof {
            assert(result@ =~= selected_letters(arr@, i + 1));
        }
        i = i + 1;
    }
    result
}

/// How many times `c` occurs in `s`.
pub open spec fn count_seq(s: Seq<char>, c: char) -> nat
    decreases s.len(),
{
    if s.len() == 0 {
        0
    } else {
        count_seq(s.drop_last(), c) + (if s.last() == c {
            1nat
        } else {
            0nat
        })
    }
}

/// Counts the occurrences of `c` in `v`.
pub fn count_item(v: &Vec<char>, c: char) -> (r: usize)
    ensures
        r == count_seq(v@, c),
{
    let mut n: usize = 0;
    let mut i: usize = 0;
    while i < v.len()
        invariant
            i <= v@.len(),
            n == count_seq(v@.take(i as int), c),
            n <= i,
        decreases v@.len() - i,
    {
        proof {
            assert(v@.take(i + 1).drop_last() =~= v@.take(i as int));
            assert(v@.take(i + 1).last() == v@[i as int]);
        }
        if v[i] == c {
            n = n + 1;
        }
        i = i + 1;
    }
    proof {
        assert(v@.take(v@.len() as int) =~= v@);
    }
    n
}

/// `s` with the first occurrence of `c` removed; `s` itself when absent.
pub open spec fn remove_first_spec(s: Seq<char>, c: char) -> Seq<char>
    decreases s.len(),
{
    if s.len() == 0 {
        s
    } else if s[0] == c {
        s.drop_first()
    } else {
        seq![s[0]] + remove_first_spec(s.drop_first(), c)
    }
}

proof fn lemma_remove_first_at(s: Seq<char>, c: char, i: int)
    requires
        0 <= i < s.len(),
        s[i] == c,
        forall|j: int| 0 <= j < i ==> s[j] != c,
    ensures
        remove_first_spec(s, c) =~= s.subrange(0, i) + s.subrange(i + 1, s.len() as int),
    decreases i,
{
    if i == 0 {
        assert(s.drop_first() =~= s.subrange(0, 0) + s.subrange(1, s.len() as int));
    } else {
        lemma_remove_first_at(s.drop_first(), c, i - 1);
        assert(s.drop_first().subrange(0, i - 1) =~= s.subrange(1, i));
        assert(s.drop_first().subrange(i, s.drop_first().len() as int) =~= s.subrange(
            i + 1,
            s.len() as int,
        ));
        assert(seq![s[0]] + (s.subrange(1, i) + s.subrange(i + 1, s.len() as int)) =~= s.subrange(
            0,
            i,
        ) + s.subrange(i + 1, s.len() as int));
    }
}

/// Removing the first occurrence removes exactly one copy from the multiset.
pub proof fn lemma_remove_first_multiset(s: Seq<char>, c: char)
    requires
        s.contains(c),
    ensures
        remove_first_spec(s, c).to_multiset() == s.to_multiset().remove(c),
        remove_first_spec(s, c).len() == s.len() - 1,
    decreases s.len(),
{
    let t = s.drop_first();
    assert(s =~= t.insert(0, s[0]));
    vstd::seq_lib::to_multiset_insert(t, 0, s[0]);
    if s[0] == c {
        assert(s.to_multiset() == t.to_multiset().insert(c));
        assert(t.to_multiset().insert(c).remove(c) =~= t.to_multiset());
    } else {
        assert(t.contains(c)) by {
            let i = choose|i: int| 0 <= i < s.len() && s[i] == c;
            assert(t[i - 1] == c);
        }
        lemma_remove_first_multiset(t, c);
        let r = remove_first_spec(s, c);
        assert(r =~= remove_first_spec(t, c).insert(0, s[0]));
        vstd::seq_lib::to_multiset_insert(remove_first_spec(t, c), 0, s[0]);
        assert(r.to_multiset() == t.to_multiset().remove(c).insert(s[0]));
        assert(s.to_multiset() == t.to_multiset().insert(s[0]));
        assert(t.to_multiset().remove(c).insert(s[0]) =~= t.to_multiset().insert(s[0]).remove(c));
    }
}

/// Removes the first occurrence of `c` from `v` and returns it.
pub fn remove_item(v: &mut Vec<char>, c: char) -> (r: char)
    requires
        old(v)@.contains(c),
    ensures
        r == c,
        final(v)@ == remove_first_spec(old(v)@, c),
{
    let ghost orig = v@;
    let mut i: usize = 0;
    while i < v.len()
        invariant
            v@ == orig,
            orig == old(v)@,
            orig.contains(c),
            0 <= i <= orig.len(),
            forall|j: int| 0 <= j < i ==> orig[j] != c,
        decreases v@.len() - i,
    {
        if v[i] == c {
            v.remove(i);
            proof {
                lemma_remove_first_at(orig, c, i as int);
                assert(v@ =~= orig.subrange(0, i as int) + orig.subrange(
                    i + 1,
                    orig.len() as int,
                ));
                assert(v@ =~= remove_first_spec(orig, c));
            }
            return c;
        }
        i = i + 1;
    }
    proof {
        let k = choose|k: int| 0 <= k < orig.len() && orig[k] == c;
        assert(false);
    }
    c
}

/// The 27 per-letter counts of a rack, in alphabet order (blank last).
pub open spec fn to_word_spec(arr: Seq<char>) -> Seq<usize> {
    Seq::new(27, |j: int| count_seq(arr, alphabet_spec()[j]) as usize)
}

/// Counts each alphabet letter in the rack: the leave-table key of a rack.
pub fn to_word(arr: &Vec<char>) -> (r: Vec<usize>)
    ensures
        r@ == to_word_spec(arr@),
{
    let alph = alphabet();
    let mut result: Vec<usize> = Vec::new();
    let mut j: usize = 0;
    while j < 27
        invariant
            j <= 27,
            alph@ == alphabet_spec(),
            result@.len() == j,
            forall|k: int| 0 <= k < j ==> result@[k] == count_seq(arr@, alphabet_spec()[k]) as usize,
        decreases 27 - j,
    {
        let n = count_item(arr, alph[j]);
        result.push(n);
        j = j + 1;
    }
    proof {
        assert(result@ =~= to_word_spec(arr@));
    }
    result
}

/// All 225 board positions, row-major.
pub open spec fn positions_spec() -> Seq<Position> {
    Seq::new(225, |i: int| Position { row: (i / 15) as usize, col: (i % 15) as usize })
}

pub fn positions() -> (r: Vec<Position>)
    ensures
        r@ == positions_spec(),
{
    let mut result: Vec<Position> = Vec::new();
    let mut row: usize = 0;
    while row < 15
        invariant
            row <= 15,
            result@.len() == row * 15,
            forall|i: int|
                0 <= i < result@.len() ==> result@[i] == (Position {
                    row: (i / 15) as usize,
                    col: (i % 15) as usize,
                }),
        decreases 15 - row,
    {
        let mut col: usize = 0;
        while col < 15
            invariant
                row < 15,
                col <= 15,
                result@.len() == row * 15 + col,
                forall|i: int|
                    0 <= i < result@.len() ==> result@[i] == (Position {
                        row: (i / 15) as usize,
                        col: (i % 15) as usize,
                    }),
            decreases 15 - col,
        {
            result.push(Position { row, col });
            proof {
                let i = (row * 15 + col) as int;
                assert(i / 15 == row && i % 15 == col) by (nonlinear_arith)
                    requires
                        row < 15 && col < 15 && i == row * 15 + col,
                ;
            }
            col = col + 1;
        }
        row = row + 1;
    }
    proof {
        assert(result@ =~= positions_spec());
    }
    result
}

#[derive(Copy, Clone, Debug, PartialEq, Eq, Structural)]
pub enum Type {
    Play,
    Exch,
}

/// A candidate play: the word read off the board, where it starts, its
/// direction, its tile score, and the leave-table value of the rack it leaves
/// behind (in thousandths).
#[derive(Debug)]
pub struct Move {
    pub word: Vec<char>,
    pub position: Position,
    pub direction: Direction,
    pub score: i64,
    pub evaluation: i64,
    pub typ: Type,
}

impl Move {
    /// Move identity: word, start position and direction alone.
    pub open spec fn same_placement(self, other: Move) -> bool {
        self.word@ == other.word@ && self.position == other.position && self.direction
            == other.direction
    }

    /// A full copy of a move.
    pub fn of(m: &Move) -> (r: Move)
        ensures
            r.word@ == m.word@,
            r.position == m.position,
            r.direction == m.direction,
            r.score == m.score,
            r.evaluation == m.evaluation,
            r.typ == m.typ,
    {
        Move {
            word: m.word.clone(),
            position: m.position,
            direction: m.direction,
            score: m.score,
            evaluation: m.evaluation,
            typ: m.typ,
        }
    }

    /// The empty placeholder move.
    pub fn none() -> (r: Move)
        ensures
            r.word@ == Seq::<char>::empty(),
            r.position == (Position { row: 0, col: 0 }),
            r.direction == Direction::Down,
            r.score == 0,
            r.evaluation == 0,
            r.typ == Type::Play,
    {
        Move {
            word: Vec::new(),
            position: Position { row: 0, col: 0 },
            direction: Direction::Down,
            score: 0,
            evaluation: 0,
            typ: Type::Play,
        }
    }

    /// A move with the given placement and default score and evaluation.
    pub fn with(word: &Vec<char>, pos: Position, dir: Direction) -> (r: Move)
        ensures
            r.word@ == word@,
            r.position == pos,
            r.direction == dir,
            r.score == 0,
            r.evaluation == 0,
            r.typ == Type::Play,
    {
        let mut m = Move::none();
        m.word = word.clone();
        m.position = pos;
        m.direction = dir;
        m
    }

    pub fn exch(&self) -> (r: bool)
        ensures
            r == (self.typ is Exch),
    {
        match self.typ {
            Type::Exch => true,
            Type::Play => false,
        }
    }
}

/// The rack left after paying one tile for `c`: the tile `c` itself when the
/// rack holds one, else a blank when one is left, else the rack unchanged.
pub open spec fn pay_tile(rack: Seq<char>, c: char) -> Seq<char> {
    if rack.contains(c) {
        remove_first_spec(rack, c)
    } else if rack.contains('?') {
        remove_first_spec(rack, '?')
    } else {
        rack
    }
}

/// The rack left after paying for every letter of `w` in turn.
pub open spec fn complement_spec(w: Seq<char>, rack: Seq<char>) -> Seq<char>
    decreases w.len(),
{
    if w.len() == 0 {
        rack
    } else {
        complement_spec(w.drop_first(), pay_tile(rack, w[0]))
    }
}

impl Move {
    /// The tiles of `rack` not consumed by this move's word, a blank standing
    /// in for each word letter the rack lacks.
    pub fn complement(&self, rack: &Vec<char>) -> (r: Vec<char>)
        ensures
            r@ == complement_spec(self.word@, rack@),
    {
        let mut nr: Vec<char> = rack.clone();
        proof {
            assert(self.word@.skip(0) =~= self.word@);
        }
        let mut i: usize = 0;
        while i < self.word.len()
            invariant
                i <= self.word@.len(),
                complement_spec(self.word@.skip(i as int), nr@) == complement_spec(
                    self.word@,
                    rack@,
                ),
            decreases self.word@.len() - i,
        {
            let ghost before = nr@;
            let c = self.word[i];
            if contains_item(&nr, c) {
                remove_item(&mut nr, c);
            } else if contains_item(&nr, '?') {
                remove_item(&mut nr, '?');
            }
            proof {
                assert(nr@ == pay_tile(before, c));
                assert(self.word@.skip(i as int).drop_first() =~= self.word@.skip(i + 1));
                assert(self.word@.skip(i as int)[0] == self.word@[i as int]);
            }
            i = i + 1;
        }
        proof {
            assert(self.word@.skip(self.word@.len() as int) =~= Seq::<char>::empty());
        }
        nr
    }
}

/// Whether `v` holds `c`.
pub fn contains_item(v: &Vec<char>, c: char) -> (r: bool)
    ensures
        r == v@.contains(c),
{
    let mut i: usize = 0;
    while i < v.len()
        invariant
            i <= v@.len(),
            forall|j: int| 0 <= j < i ==> v@[j] != c,
        decreases v@.len() - i,
    {
        if v[i] == c {
            return true;
        }
        i = i + 1;
    }
    false
}

impl PartialEq for Move {
    /// Moves are equal by placement alone: word, position and direction.
    fn eq(&self, other: &Self) -> (r: bool) {
        let same = self.position == other.position && self.direction == other.direction
            && self.word.len() == other.word.len();
        if !same {
            return false;
        }
        let mut i: usize = 0;
        while i < self.word.len()
            invariant
                i <= self.word@.len(),
                self.word@.len() == other.word@.len(),
                self.position == other.position,
                self.direction == other.direction,
                forall|j: int| 0 <= j < i ==> self.word@[j] == other.word@[j],
            decreases self.word@.len() - i,
        {
            if self.word[i] != other.word[i] {
                return false;
            }
            i = i + 1;
        }
        proof {
            assert(self.word@ =~= other.word@);
        }
        true
    }
}

impl vstd::std_specs::cmp::PartialEqSpecImpl for Move {
    open spec fn obeys_eq_spec() -> bool {
        true
    }

    open spec fn eq_spec(&self, other: &Move) -> bool {
        self.same_placement(*other)
    }
}

/// A walk of `n` forward steps that stays on the board takes at most 14 steps.
pub proof fn lemma_tick_n_some_bound(p: Position, d: Direction, n: nat)
    requires
        p.tick_n_spec(d, n) is Some,
        n > 0,
    ensures
        d is Across ==> n + p.col <= 14,
        d is Down ==> n + p.row <= 14,
        n <= 14,
    decreases n,
{
    let (q, ok) = p.tick_spec(d);
    if n > 1 {
        lemma_tick_n_some_bound(q, d, (n - 1) as nat);
    }
}

/// Walks a move's word tile by tile: the position of each letter in turn.
pub struct IterMove {
    pub _m: Move,
    pub _curr: u32,
}

impl Move {
    pub fn iter(&self) -> (r: IterMove)
        ensures
            r._m.word@ == self.word@,
            r._m.position == self.position,
            r._m.direction == self.direction,
            r._curr == 0,
    {
        IterMove { _m: Move::of(self), _curr: 0 }
    }
}

impl IterMove {
    /// What one step of the walk yields: the letter at the current offset with
    /// its board position, `None` past the word's end or the board's edge.
    pub open spec fn next_result(self) -> Option<(Position, char)> {
        match self._m.position.tick_n_spec(self._m.direction, self._curr as nat) {
            Some(p) => if self._curr < self._m.word@.len() {
                Some((p, self._m.word@[self._curr as int]))
            } else {
                None
            },
            None => None,
        }
    }

    /// The next (position, letter) pair of the walk, `None` past the word's
    /// end or the board's edge.
    pub fn next(&mut self) -> (r: Option<(Position, char)>)
        ensures
            r == old(self).next_result(),
            r is Some ==> final(self)._curr == old(self)._curr + 1 && final(self)._m == old(
                self,
            )._m,
            r is None ==> *final(self) == *old(self),
    {
        match self._m.position.tick_n(self._m.direction, self._curr) {
            Some(p) => {
                proof {
                    if self._curr > 0 {
                        lemma_tick_n_some_bound(self._m.position, self._m.direction, self._curr as nat);
                    }
                }
                if (self._curr as usize) < self._m.word.len() {
                    let c = self._m.word[self._curr as usize];
                    self._curr = self._curr + 1;
                    Some((p, c))
                } else {
                    None
                }
            },
            None => None,
        }
    }
}


/// The upper-case form of a lower-case letter; anything else is unchanged.
/// A lower-case letter marks a tile played from a blank.
pub open spec fn upper_spec(c: char) -> char {
    match c {
        'a' => 'A',
        'b' => 'B',
        'c' => 'C',
        'd' => 'D',
        'e' => 'E',
        'f' => 'F',
        'g' => 'G',
        'h' => 'H',
        'i' => 'I',
        'j' => 'J',
        'k' => 'K',
        'l' => 'L',
        'm' => 'M',
        'n' => 'N',
        'o' => 'O',
        'p' => 'P',
        'q' => 'Q',
        'r' => 'R',
        's' => 'S',
        't' => 'T',
        'u' => 'U',
        'v' => 'V',
        'w' => 'W',
        'x' => 'X',
        'y' => 'Y',
        'z' => 'Z',
        _ => c,
    }
}

pub fn to_upper(c: char) -> (r: char)
    ensures
        r == upper_spec(c),
{
    match c {
        'a' => 'A',
        'b' => 'B',
        'c' => 'C',
        'd' => 'D',
        'e' => 'E',
        'f' => 'F',
        'g' => 'G',
        'h' => 'H',
        'i' => 'I',
        'j' => 'J',
        'k' => 'K',
        'l' => 'L',
        'm' => 'M',
        'n' => 'N',
        'o' => 'O',
        'p' => 'P',
        'q' => 'Q',
        'r' => 'R',
        's' => 'S',
        't' => 'T',
        'u' => 'U',
        'v' => 'V',
        'w' => 'W',
        'x' => 'X',
        'y' => 'Y',
        'z' => 'Z',
        _ => c,
    }
}


} // verus!
