//! The board model: tile configurations, the solved configuration, the
//! Manhattan-distance heuristic, neighbor generation and the packed 64-bit
//! canonical hash used to deduplicate visited states.

use vstd::prelude::*;
use vstd::arithmetic::div_mod::{
    lemma_div_is_ordered, lemma_div_multiples_vanish, lemma_div_pos_is_pos,
    lemma_fundamental_div_mod, lemma_div_by_self, lemma_fundamental_div_mod_converse,
    lemma_mod_division_less_than_divisor, lemma_div_nonincreasing,
};
use vstd::math::abs;

verus! {

/// The move that produced a board from its parent: the direction the
/// displaced tile travelled, or `Start` for a root board that was built
/// directly from input.  One slide can be read two ways — the displaced tile
/// moving one direction, or the blank moving the opposite one; the tags name
/// the tile's direction, so a board whose blank slid right is tagged `Left`.
/// The fixed order in which neighbors are enumerated (and hence the engine's
/// tie-break) goes by the blank's slides: right, left, down, up.
#[derive(Copy, Clone, PartialEq, Eq, Structural, Debug)]
pub enum Action {
    Start,
    Right,
    Left,
    Down,
    Up,
}

/// A grid coordinate on a square board of a given dimension.
#[derive(Copy, Clone)]
pub struct Position {
    pub row: i32,
    pub col: i32,
}

impl Position {
    /// The position of linear index `i` on a board of side `dim`.
    pub fn of_index(i: usize, dim: i32) -> (p: Position)
        requires
            1 <= dim,
            i <= 0x7fff_ffff,
        ensures
            p.row == i as int / dim as int,
            p.col == i as int % dim as int,
    {
        Position { row: (i as i32) / dim, col: (i as i32) % dim }
    }

    /// The linear index of this position on a board of side `dim`.
    pub fn to_index(&self, dim: i32) -> (i: usize)
        requires
            1 <= dim,
            dim as int * dim as int <= 0x7fff_ffff,
            0 <= self.row < dim,
            0 <= self.col < dim,
        ensures
            i == self.row * dim + self.col,
    {
        proof {
            assert((self.row as int * dim as int + self.col as int) < (dim as int) * (dim as int))
                by (nonlinear_arith)
                requires
                    0 <= self.row < dim,
                    0 <= self.col < dim,
            ;
            assert(0 <= self.row as int * dim as int) by (nonlinear_arith)
                requires
                    0 <= self.row,
                    0 < dim,
            ;
        }
        (self.row * dim + self.col) as usize
    }

    /// Whether the position lies on a board of side `dim`.
    pub fn in_bounds(&self, dim: i32) -> (b: bool)
        ensures
            b == (0 <= self.row < dim && 0 <= self.col < dim),
    {
        self.row >= 0 && self.row < dim && self.col >= 0 && self.col < dim
    }

    /// The position displaced from this one by `d`.
    pub fn offset(self, d: Position) -> (p: Position)
        requires
            -0x4000_0000 <= self.row + d.row <= 0x4000_0000,
            -0x4000_0000 <= self.col + d.col <= 0x4000_0000,
        ensures
            p.row == self.row + d.row,
            p.col == self.col + d.col,
    {
        Position { row: self.row + d.row, col: self.col + d.col }
    }
}

/// `r` is the integer square root of `n`.
pub open spec fn is_isqrt(n: int, r: int) -> bool {
    &&& 0 <= r
    &&& r * r <= n
    &&& n < (r + 1) * (r + 1)
}

/// Every nonnegative integer has an integer square root.
proof fn lemma_isqrt_exists(n: int)
    requires
        0 <= n,
    ensures
        exists|r: int| #[trigger] is_isqrt(n, r),
    decreases n,
{
    if n == 0 {
        assert(is_isqrt(0, 0));
    } else {
        lemma_isqrt_exists(n - 1);
        let r = choose|r: int| #[trigger] is_isqrt(n - 1, r);
        if n < (r + 1) * (r + 1) {
            assert(is_isqrt(n, r));
        } else {
            assert((r + 1) * (r + 1) == n);
            assert((r + 2) * (r + 2) > n) by (nonlinear_arith)
                requires
                    0 <= r,
                    (r + 1) * (r + 1) == n,
            ;
            assert(is_isqrt(n, r + 1));
        }
    }
}

/// One Newton step from any `x >= 1` stays at or above the square root `s`.
proof fn lemma_newton_step_lower(x: int, s: int, n: int)
    requires
        1 <= x,
        0 <= s,
        s * s <= n,
    ensures
        2 * s <= x + n / x,
        s <= (x + n / x) / 2,
{
    if x >= 2 * s {
        lemma_div_pos_is_pos(n, x);
    } else {
        let q = 2 * s - x;
        assert(x * q <= s * s) by (nonlinear_arith)
            requires
                q == 2 * s - x,
        ;
        lemma_div_is_ordered(x * q, n, x);
        lemma_div_multiples_vanish(q, x);
        assert(q * x == x * q) by (nonlinear_arith);
        assert(q <= n / x);
    }
    lemma_div_is_ordered(2 * s, x + n / x, 2);
    lemma_div_multiples_vanish(s, 2);
}

/// The integer square root, by Newton's method, of a nonnegative `n`;
/// negative inputs are returned unchanged.
pub fn int_sqrt(n: i32) -> (r: i32)
    requires
        n < 0x7fff_ffff,
    ensures
        0 <= n ==> is_isqrt(n as int, r as int),
        n < 0 ==> r == n,
{
    if n <= 1 {
        proof {
            if n == 0 {
                assert(is_isqrt(0, 0));
            }
            if n == 1 {
                assert(is_isqrt(1, 1));
            }
        }
        return n;
    }
    proof {
        lemma_isqrt_exists(n as int);
    }
    let ghost s: int = choose|s: int| #[trigger] is_isqrt(n as int, s);
    proof {
        assert(s <= s * s) by (nonlinear_arith)
            requires
                1 <= s,
        ;
    }
    let mut x: i32 = n;
    let mut y: i32 = (x + 1) / 2;
    proof {
        lemma_div_by_self(n as int);
        lemma_newton_step_lower(x as int, s, n as int);
    }
    while y < x
        invariant
            2 <= n < 0x7fff_ffff,
            is_isqrt(n as int, s),
            1 <= s,
            s <= x <= n,
            y == (x as int + n as int / x as int) / 2,
            s <= y,
        decreases x,
    {
        x = y;
        proof {
            lemma_div_pos_is_pos(n as int, x as int);
            // x + n/x never exceeds n + 1 for 1 <= x <= n, so the sum fits.
            let q = n as int + 1 - x as int;
            assert(x as int * q >= n as int) by (nonlinear_arith)
                requires
                    1 <= x <= n,
                    q == n as int + 1 - x as int,
            ;
            lemma_div_is_ordered(n as int, x as int * q, x as int);
            lemma_div_multiples_vanish(q, x as int);
            assert(q * x as int == x as int * q) by (nonlinear_arith);
            assert(n as int / x as int <= q);
        }
        y = (x + n / x) / 2;
        proof {
            lemma_newton_step_lower(x as int, s, n as int);
        }
    }
    proof {
        // On exit y >= x, so x + n/x >= 2x, hence n/x >= x, hence x*x <= n.
        let d = x as int + n as int / x as int;
        lemma_fundamental_div_mod(d, 2);
        assert(d >= 2 * x);
        assert(n as int / x as int >= x as int);
        lemma_fundamental_div_mod(n as int, x as int);
        assert(n as int >= x as int * (n as int / x as int));
        assert(x as int * (n as int / x as int) >= x as int * x as int) by (nonlinear_arith)
            requires
                1 <= x,
                n as int / x as int >= x as int,
        ;
        if x > s {
            assert((s + 1) * (s + 1) <= x as int * x as int) by (nonlinear_arith)
                requires
                    s + 1 <= x,
                    0 <= s,
            ;
            assert(false);
        }
        assert(x == s);
    }
    x
}

/// The board sizes the library supports: the 2x2, 3x3 (8-puzzle) and 4x4
/// (15-puzzle) boards.  Larger boards would overflow the packed 4-bit-per-tile
/// canonical hash, which is only valid while every tile value stays below 16.
pub open spec fn valid_size(n: int) -> bool {
    n == 4 || n == 9 || n == 16
}

/// The side length of a supported board.
pub open spec fn dim_of(n: int) -> int {
    if n == 4 {
        2
    } else if n == 9 {
        3
    } else {
        4
    }
}

/// The solved configuration of an `n`-tile board: tile value `i` at linear
/// position `i`.
pub open spec fn goal_seq(n: int) -> Seq<u8> {
    Seq::new(n as nat, |i: int| i as u8)
}

/// A well-formed board of `n` tiles: a permutation of `0..n`, so in
/// particular it holds exactly one blank (0) tile.
pub open spec fn wf_board(s: Seq<u8>, n: int) -> bool {
    &&& s.len() == n
    &&& forall|i: int| 0 <= i < n ==> (#[trigger] s[i]) < n
    &&& forall|i: int, j: int| 0 <= i < n && 0 <= j < n && i != j ==> s[i] != s[j]
    &&& exists|z: int| 0 <= z < n && #[trigger] s[z] == 0
}

/// The linear index of the blank tile of a board.
pub open spec fn blank_index(s: Seq<u8>) -> int {
    choose|z: int| 0 <= z < s.len() && #[trigger] s[z] == 0
}

/// Two integer square roots of the same number are equal.
proof fn lemma_isqrt_unique(n: int, r1: int, r2: int)
    requires
        is_isqrt(n, r1),
        is_isqrt(n, r2),
    ensures
        r1 == r2,
{
    if r1 < r2 {
        assert((r1 + 1) * (r1 + 1) <= r2 * r2) by (nonlinear_arith)
            requires
                0 <= r1,
                r1 + 1 <= r2,
        ;
    }
    if r2 < r1 {
        assert((r2 + 1) * (r2 + 1) <= r1 * r1) by (nonlinear_arith)
            requires
                0 <= r2,
                r2 + 1 <= r1,
        ;
    }
}

/// A tile configuration of a square board with `N` tiles, tagged with the
/// move that produced it.  Boards are value-copied whenever a neighbor is
/// generated; no two instances alias.
#[derive(Debug)]
pub struct Puzzle<const N: usize> {
    pub tiles: Vec<u8>,
    pub action: Action,
}

impl<const N: usize> View for Puzzle<N> {
    type V = Seq<u8>;

    open spec fn view(&self) -> Seq<u8> {
        self.tiles@
    }
}

impl<const N: usize> PartialEq for Puzzle<N> {
    /// Boards are equal when their tile arrays are equal; the move tag is
    /// not part of a board's identity.
    fn eq(&self, other: &Self) -> (r: bool) {
        if self.tiles.len() != other.tiles.len() {
            return false;
        }
        let n = self.tiles.len();
        for i in 0..n
            invariant
                n == self.tiles.len() == other.tiles.len(),
                forall|j: int| 0 <= j < i ==> self.tiles@[j] == other.tiles@[j],
        {
            if self.tiles[i] != other.tiles[i] {
                return false;
            }
        }
        proof {
            assert(self.tiles@ =~= other.tiles@);
        }
        true
    }
}

impl<const N: usize> Eq for Puzzle<N> {}

impl<const N: usize> vstd::std_specs::cmp::PartialEqSpecImpl for Puzzle<N> {
    open spec fn obeys_eq_spec() -> bool {
        true
    }

    open spec fn eq_spec(&self, other: &Self) -> bool {
        self@ == other@
    }
}

impl<const N: usize> Clone for Puzzle<N> {
    /// A value copy of the board, tiles and move tag alike.
    fn clone(&self) -> (res: Self)
        ensures
            res@ == self@,
            res.action == self.action,
    {
        let res = Puzzle { tiles: self.tiles.clone(), action: self.action };
        proof {
            assert(res.tiles@ =~= self.tiles@);
        }
        res
    }
}

impl<const N: usize> Puzzle<N> {
    /// The side length of this board.
    pub fn dim() -> (d: i32)
        requires
            valid_size(N as int),
        ensures
            d == dim_of(N as int),
    {
        let d = int_sqrt(N as i32);
        proof {
            assert(is_isqrt(4, 2) && is_isqrt(9, 3) && is_isqrt(16, 4)) by (nonlinear_arith);
            lemma_isqrt_unique(N as int, d as int, dim_of(N as int));
        }
        d
    }

    /// A board holding exactly the given tiles, tagged as a start board.
    pub fn from_tiles(tiles: Vec<u8>) -> (p: Self)
        requires
            tiles@.len() == N,
        ensures
            p@ == tiles@,
            p.action == Action::Start,
    {
        Puzzle { tiles, action: Action::Start }
    }

    /// A start board holding the first `N` values of `slice`, padded with
    /// zeros when the slice is shorter; values past `N` are ignored.
    pub fn from_u8_slice(slice: &[u8]) -> (p: Self)
        ensures
            p@.len() == N,
            forall|i: int| 0 <= i < N && i < slice@.len() ==> p@[i] == slice@[i],
            forall|i: int| slice@.len() <= i < N ==> p@[i] == 0,
            p.action == Action::Start,
    {
        let mut tiles: Vec<u8> = Vec::new();
        for i in 0..N
            invariant
                tiles@.len() == i,
                forall|j: int| 0 <= j < i && j < slice@.len() ==> tiles@[j] == slice@[j],
                forall|j: int| slice@.len() <= j < i ==> tiles@[j] == 0,
        {
            if i < slice.len() {
                tiles.push(slice[i]);
            } else {
                tiles.push(0);
            }
        }
        Self::from_tiles(tiles)
    }

    /// The canonical solved board: tile value `i` at linear position `i`.
    pub fn goal() -> (p: Self)
        requires
            valid_size(N as int),
        ensures
            p@ == goal_seq(N as int),
            p.action == Action::Start,
    {
        let mut tiles: Vec<u8> = Vec::new();
        for i in 0..N
            invariant
                N <= 16,
                tiles@.len() == i,
                forall|j: int| 0 <= j < i ==> tiles@[j] == j as u8,
        {
            tiles.push(i as u8);
        }
        proof {
            assert(tiles@ =~= goal_seq(N as int));
        }
        Self::from_tiles(tiles)
    }

    /// The tile value at linear index `i`.
    pub fn tile(&self, i: usize) -> (t: u8)
        requires
            i < self@.len(),
        ensures
            t == self@[i as int],
    {
        self.tiles[i]
    }

    /// Whether this board is a well-formed permutation with a blank tile.
    /// A board that fails this check must not be handed to a solver: the
    /// search contracts demand well-formedness, and the defensive fault for
    /// malformed input belongs to the caller.
    pub fn is_wellformed(&self) -> (b: bool)
        ensures
            b == wf_board(self@, N as int),
    {
        let n = self.tiles.len();
        if n != N {
            return false;
        }
        let mut has_zero = false;
        for i in 0..n
            invariant
                n == self@.len(),
                has_zero == exists|z: int| 0 <= z < i && #[trigger] self@[z] == 0,
        {
            if self.tiles[i] == 0 {
                has_zero = true;
            }
        }
        if !has_zero {
            return false;
        }
        for i in 0..n
            invariant
                n == self@.len() == N,
                forall|j: int| 0 <= j < i ==> (#[trigger] self@[j]) < N,
        {
            if self.tiles[i] as usize >= N {
                return false;
            }
        }
        for i in 0..n
            invariant
                n == self@.len() == N,
                forall|j: int, k: int| 0 <= j < i && j < k < n ==> self@[j] != self@[k],
        {
            for j in (i + 1)..n
                invariant
                    n == self@.len() == N,
                    i < n,
                    forall|j2: int, k: int| 0 <= j2 < i && j2 < k < n ==> self@[j2] != self@[k],
                    forall|k: int| i < k < j ==> self@[i as int] != self@[k],
            {
                if self.tiles[i] == self.tiles[j] {
                    return false;
                }
            }
        }
        true
    }
}

/// Manhattan distance between linear indices `i` and `j` on a board of
/// side `dim`.
pub open spec fn manhattan(i: int, j: int, dim: int) -> int {
    abs(i / dim - j / dim) + abs(i % dim - j % dim) as int
}

/// The heuristic total over the first `k` tiles: the sum, over non-blank
/// tiles, of the Manhattan distance from the tile's position to the position
/// matching its value.
pub open spec fn h_sum(s: Seq<u8>, dim: int, k: int) -> int
    decreases k,
{
    if k <= 0 {
        0
    } else {
        h_sum(s, dim, k - 1) + h_term(s, dim, k - 1)
    }
}

/// One tile's contribution to the heuristic sum: its Manhattan distance to
/// the position matching its value, and nothing for the blank.
pub open spec fn h_term(s: Seq<u8>, dim: int, i: int) -> int {
    if s[i] != 0 {
        manhattan(i, s[i] as int, dim)
    } else {
        0
    }
}

/// The Manhattan-distance heuristic of a whole board.
pub open spec fn heuristic_spec(s: Seq<u8>, dim: int) -> int {
    h_sum(s, dim, s.len() as int)
}

impl<const N: usize> Puzzle<N> {
    /// The position of the blank tile.
    pub fn find_zero(&self) -> (p: Position)
        requires
            valid_size(N as int),
            wf_board(self@, N as int),
        ensures
            0 <= p.row < dim_of(N as int),
            0 <= p.col < dim_of(N as int),
            p.row * dim_of(N as int) + p.col == blank_index(self@),
    {
        let dim = Self::dim();
        let n = self.tiles.len();
        for i in 0..n
            invariant
                valid_size(N as int),
                wf_board(self@, N as int),
                n == self@.len(),
                dim == dim_of(N as int),
                forall|j: int| 0 <= j < i ==> self@[j] != 0,
        {
            if self.tiles[i] == 0 {
                let p = Position::of_index(i, dim);
                proof {
                    let z = blank_index(self@);
                    assert(0 <= z < N && self@[z] == 0);
                    assert(z == i);
                    lemma_div_bound_by_square(i as int, dim as int);
                    lemma_mod_division_less_than_divisor(i as int, dim as int);
                    lemma_fundamental_div_mod(i as int, dim as int);
                }
                return p;
            }
        }
        proof {
            let z = blank_index(self@);
            assert(0 <= z < N && self@[z] == 0);
            assert(false);
        }
        vstd::pervasive::unreached()
    }

    /// The sum over non-blank tiles of the Manhattan distance between the
    /// tile's position and the position matching its value.  Admissible and
    /// consistent for unit-cost sliding moves.
    pub fn heuristic(&self) -> (h: i32)
        requires
            valid_size(N as int),
            self@.len() == N,
        ensures
            h == heuristic_spec(self@, dim_of(N as int)),
            0 <= h,
    {
        let dim = Self::dim();
        let mut h: i32 = 0;
        let n = self.tiles.len();
        for i in 0..n
            invariant
                valid_size(N as int),
                n == self@.len() == N,
                dim == dim_of(N as int),
                h == h_sum(self@, dim as int, i as int),
                0 <= h <= 600 * i,
        {
            let t = self.tiles[i] as usize;
            if t != 0 {
                let pos1 = Position::of_index(i, dim);
                let pos2 = Position::of_index(t, dim);
                proof {
                    lemma_div_pos_is_pos(i as int, dim as int);
                    lemma_div_nonincreasing(i as int, dim as int);
                    lemma_div_pos_is_pos(t as int, dim as int);
                    lemma_div_nonincreasing(t as int, dim as int);
                    lemma_mod_division_less_than_divisor(i as int, dim as int);
                    lemma_mod_division_less_than_divisor(t as int, dim as int);
                }
                let dr = if pos2.row >= pos1.row {
                    pos2.row - pos1.row
                } else {
                    pos1.row - pos2.row
                };
                let dc = if pos2.col >= pos1.col {
                    pos2.col - pos1.col
                } else {
                    pos1.col - pos2.col
                };
                h = h + dr + dc;
            }
        }
        h
    }
}

/// How the move tagged `a` shifts the blank's row: the blank always travels
/// opposite to the tile direction the tag names.
pub open spec fn delta_row(a: Action) -> int {
    match a {
        Action::Up => 1,
        Action::Down => -1,
        _ => 0,
    }
}

/// How the move tagged `a` shifts the blank's column: the blank always
/// travels opposite to the tile direction the tag names.
pub open spec fn delta_col(a: Action) -> int {
    match a {
        Action::Left => 1,
        Action::Right => -1,
        _ => 0,
    }
}

/// Whether the blank at linear index `zi` can travel one step in direction
/// `a` without leaving a board of side `dim`.
pub open spec fn can_move(zi: int, a: Action, dim: int) -> bool {
    &&& 0 <= zi / dim + delta_row(a) < dim
    &&& 0 <= zi % dim + delta_col(a) < dim
}

/// The linear index the blank lands on after a move in direction `a`.
pub open spec fn move_target(zi: int, a: Action, dim: int) -> int {
    (zi / dim + delta_row(a)) * dim + (zi % dim + delta_col(a))
}

/// The board after the blank at `zi` swaps with the tile at the move's
/// target cell.
pub open spec fn moved_board(s: Seq<u8>, zi: int, a: Action, dim: int) -> Seq<u8> {
    let zj = move_target(zi, a, dim);
    s.update(zi, s[zj]).update(zj, s[zi])
}

/// `b` is the board one legal slide away from `a`, and `act` labels the
/// direction the displaced tile travelled (the blank slid the opposite way):
/// the two boards differ by exactly one adjacent-tile swap involving the
/// blank.
pub open spec fn is_move(a: Seq<u8>, b: Seq<u8>, act: Action, n: int, dim: int) -> bool {
    &&& wf_board(a, n)
    &&& act != Action::Start
    &&& can_move(blank_index(a), act, dim)
    &&& b == moved_board(a, blank_index(a), act, dim)
}

/// The move tags in the fixed enumeration order of blank slides — right,
/// left, down, up — which decides the order in which neighbors are produced
/// and hence the engine's tie-break for equal-cost frontier nodes.  Each tag
/// names the displaced tile's direction, the opposite of the blank's slide.
pub open spec fn dir_order() -> Seq<Action> {
    seq![Action::Left, Action::Right, Action::Up, Action::Down]
}

/// Of the directions in `dirs`, those the blank at `zi` can travel, in order.
pub open spec fn avail_from(zi: int, dim: int, dirs: Seq<Action>) -> Seq<Action>
    decreases dirs.len(),
{
    if dirs.len() == 0 {
        Seq::empty()
    } else {
        let rest = avail_from(zi, dim, dirs.drop_first());
        if can_move(zi, dirs[0], dim) {
            seq![dirs[0]] + rest
        } else {
            rest
        }
    }
}

/// The directions available to the blank at `zi`, in enumeration order.
pub open spec fn avail_dirs(zi: int, dim: int) -> Seq<Action> {
    avail_from(zi, dim, dir_order())
}

/// `avail_from` distributes over appending one direction.
proof fn lemma_avail_push(zi: int, dim: int, dirs: Seq<Action>, d: Action)
    ensures
        avail_from(zi, dim, dirs.push(d)) == avail_from(zi, dim, dirs) + if can_move(zi, d, dim) {
            seq![d]
        } else {
            Seq::<Action>::empty()
        },
    decreases dirs.len(),
{
    let tail = if can_move(zi, d, dim) {
        seq![d]
    } else {
        Seq::<Action>::empty()
    };
    if dirs.len() == 0 {
        assert(dirs =~= Seq::<Action>::empty());
        assert(dirs.push(d).drop_first() =~= Seq::<Action>::empty());
        assert(avail_from(zi, dim, Seq::<Action>::empty()) == Seq::<Action>::empty());
        assert(dirs.push(d)[0] == d);
        assert(avail_from(zi, dim, dirs.push(d)) =~= avail_from(zi, dim, dirs) + tail);
    } else {
        assert(dirs.push(d).drop_first() =~= dirs.drop_first().push(d));
        lemma_avail_push(zi, dim, dirs.drop_first(), d);
        assert(dirs.push(d)[0] == dirs[0]);
        if can_move(zi, dirs[0], dim) {
            assert(seq![dirs[0]] + (avail_from(zi, dim, dirs.drop_first()) + tail) =~= (seq![
                dirs[0],
            ] + avail_from(zi, dim, dirs.drop_first())) + tail);
        }
        assert(avail_from(zi, dim, dirs.push(d)) =~= avail_from(zi, dim, dirs) + tail);
    }
}

/// A legal move leads to a well-formed board again, with the blank at the
/// move's target cell.
pub proof fn lemma_move_preserves_wf(s: Seq<u8>, n: int, dim: int, act: Action)
    requires
        valid_size(n),
        dim == dim_of(n),
        wf_board(s, n),
        act != Action::Start,
        can_move(blank_index(s), act, dim),
    ensures
        wf_board(moved_board(s, blank_index(s), act, dim), n),
        0 <= move_target(blank_index(s), act, dim) < n,
        move_target(blank_index(s), act, dim) != blank_index(s),
    decreases n,
{
    let zi = blank_index(s);
    assert(0 <= zi < n && s[zi] == 0);
    let zj = move_target(zi, act, dim);
    let r = zi / dim + delta_row(act);
    let c = zi % dim + delta_col(act);
    lemma_div_bound_by_square(zi, dim);
    assert(0 <= r * dim + c < dim * dim) by (nonlinear_arith)
        requires
            0 <= r < dim,
            0 <= c < dim,
    ;
    assert(dim * dim == n);
    // The target cell differs from the blank's cell.
    lemma_fundamental_div_mod(zi, dim);
    if zj == zi {
        lemma_fundamental_div_mod_converse(zj, dim, r, c);
        assert(delta_row(act) == 0 && delta_col(act) == 0);
        assert(false);
    }
    let b = moved_board(s, zi, act, dim);
    assert(b.len() == n);
    assert forall|i: int| 0 <= i < n implies (#[trigger] b[i]) < n by {
        assert(b[i] == s[i] || b[i] == s[zi] || b[i] == s[zj]);
    }
    assert forall|i: int, j: int| 0 <= i < n && 0 <= j < n && i != j implies b[i] != b[j] by {
        let si = if i == zi { zj } else if i == zj { zi } else { i };
        let sj = if j == zi { zj } else if j == zj { zi } else { j };
        assert(b[i] == s[si] && b[j] == s[sj]);
        assert(si != sj);
    }
    assert(b[zj] == 0);
}

impl<const N: usize> Puzzle<N> {
    /// The successor board reached by sliding the blank from `zp` to the
    /// adjacent cell `np`, tagged with the direction of the slide.
    fn moved(&self, zp: Position, np: Position, act: Action, dim: i32) -> (q: Puzzle<N>)
        requires
            valid_size(N as int),
            wf_board(self@, N as int),
            dim == dim_of(N as int),
            act != Action::Start,
            0 <= zp.row < dim,
            0 <= zp.col < dim,
            zp.row * dim + zp.col == blank_index(self@),
            np.row == zp.row + delta_row(act),
            np.col == zp.col + delta_col(act),
            0 <= np.row < dim,
            0 <= np.col < dim,
        ensures
            can_move(blank_index(self@), act, dim as int),
            q@ == moved_board(self@, blank_index(self@), act, dim as int),
            q.action == act,
            is_move(self@, q@, act, N as int, dim as int),
            wf_board(q@, N as int),
    {
        proof {
            let z = blank_index(self@);
            assert(0 <= z < N && self@[z] == 0);
            lemma_fundamental_div_mod_converse(z, dim as int, zp.row as int, zp.col as int);
            lemma_move_preserves_wf(self@, N as int, dim as int, act);
        }
        let zi = zp.to_index(dim);
        let zj = np.to_index(dim);
        let mut tiles: Vec<u8> = Vec::new();
        let n = self.tiles.len();
        for k in 0..n
            invariant
                n == self@.len() == N,
                zi < N,
                zj < N,
                tiles@.len() == k,
                forall|m: int|
                    0 <= m < k ==> tiles@[m] == (if m == zi {
                        self@[zj as int]
                    } else if m == zj {
                        self@[zi as int]
                    } else {
                        self@[m]
                    }),
        {
            if k == zi {
                tiles.push(self.tiles[zj]);
            } else if k == zj {
                tiles.push(self.tiles[zi]);
            } else {
                tiles.push(self.tiles[k]);
            }
        }
        proof {
            assert(tiles@ =~= moved_board(self@, blank_index(self@), act, dim as int));
        }
        Puzzle { tiles, action: act }
    }

    /// The successor boards obtained by sliding the blank into each in-bounds
    /// adjacent cell, in the fixed order of blank slides right, left, down,
    /// up; each successor is tagged with the direction the displaced tile
    /// travelled, the opposite of the blank's slide.
    pub fn on_neighbors(&self) -> (res: Vec<Puzzle<N>>)
        requires
            valid_size(N as int),
            wf_board(self@, N as int),
        ensures
            res@.len() == avail_dirs(blank_index(self@), dim_of(N as int)).len(),
            forall|k: int|
                0 <= k < res@.len() ==> {
                    &&& (#[trigger] res@[k]).action == avail_dirs(
                        blank_index(self@),
                        dim_of(N as int),
                    )[k]
                    &&& is_move(self@, res@[k]@, res@[k].action, N as int, dim_of(N as int))
                    &&& wf_board(res@[k]@, N as int)
                },
    {
        let dim = Self::dim();
        let zero_pos = self.find_zero();
        let ghost zi = blank_index(self@);
        proof {
            assert(0 <= zi < N && self@[zi] == 0);
            lemma_fundamental_div_mod_converse(zi, dim as int, zero_pos.row as int,
                zero_pos.col as int);
        }
        let mut res: Vec<Puzzle<N>> = Vec::new();
        let ghost mut processed = Seq::<Action>::empty();
        proof {
            assert(avail_from(zi, dim as int, processed) == Seq::<Action>::empty());
        }
        for d in 0..4usize
            invariant
                valid_size(N as int),
                wf_board(self@, N as int),
                dim == dim_of(N as int),
                zi == blank_index(self@),
                0 <= zero_pos.row < dim,
                0 <= zero_pos.col < dim,
                zero_pos.row * dim + zero_pos.col == zi,
                zi / dim as int == zero_pos.row as int,
                zi % dim as int == zero_pos.col as int,
                processed == dir_order().take(d as int),
                res@.len() == avail_from(zi, dim as int, processed).len(),
                forall|k: int|
                    0 <= k < res@.len() ==> {
                        &&& (#[trigger] res@[k]).action == avail_from(zi, dim as int, processed)[k]
                        &&& is_move(self@, res@[k]@, res@[k].action, N as int, dim as int)
                        &&& wf_board(res@[k]@, N as int)
                    },
        {
            let act: Action;
            let d_pos: Position;
            if d == 0 {
                act = Action::Left;
                d_pos = Position { row: 0, col: 1 };
            } else if d == 1 {
                act = Action::Right;
                d_pos = Position { row: 0, col: -1 };
            } else if d == 2 {
                act = Action::Up;
                d_pos = Position { row: 1, col: 0 };
            } else {
                act = Action::Down;
                d_pos = Position { row: -1, col: 0 };
            }
            proof {
                assert(dir_order()[d as int] == act);
                assert(d_pos.row == delta_row(act) && d_pos.col == delta_col(act));
            }
            let new_pos = zero_pos.offset(d_pos);
            if new_pos.in_bounds(dim) {
                let new_puzzle = self.moved(zero_pos, new_pos, act, dim);
                res.push(new_puzzle);
            }
            proof {
                lemma_avail_push(zi, dim as int, processed, act);
                assert(dir_order().take(d as int).push(act) =~= dir_order().take(d + 1));
                processed = processed.push(act);
            }
        }
        proof {
            assert(dir_order().take(4) =~= dir_order());
        }
        res
    }
}

/// The packed hash of the first `k` tiles: each tile's value OR-ed into its
/// own 4-bit field of a 64-bit word.
pub open spec fn hash_fold(s: Seq<u8>, k: int) -> u64
    decreases k,
{
    if k <= 0 {
        0u64
    } else {
        hash_fold(s, k - 1) | ((s[k - 1] as u64) << ((4 * (k - 1)) as u64))
    }
}

/// The packed canonical hash of a whole board.
pub open spec fn hash_of(s: Seq<u8>) -> u64 {
    hash_fold(s, s.len() as int)
}

impl<const N: usize> Puzzle<N> {
    /// The canonical hash: packs each tile's value into 4 bits of a 64-bit
    /// word.  A fast, non-cryptographic dedup key; on well-formed boards of a
    /// supported size it identifies the configuration exactly (see
    /// [`lemma_hash_injective`]).
    pub fn hash_u64(&self) -> (h: u64)
        requires
            self@.len() == N,
            N <= 16,
        ensures
            h == hash_of(self@),
    {
        let mut hash: u64 = 0;
        let n = self.tiles.len();
        for i in 0..n
            invariant
                n == self@.len() == N <= 16,
                hash == hash_fold(self@, i as int),
        {
            let tile = self.tiles[i] as u64;
            let mask = tile << ((4 * i) as u64);
            hash = hash | mask;
        }
        hash
    }
}

/// Each tile below 16 lands in its own 4-bit field of the packed hash, and
/// the packed prefix stays below the next field's first bit.
proof fn lemma_hash_fold_nibbles(s: Seq<u8>, k: int)
    requires
        0 <= k <= 16,
        k <= s.len(),
        forall|i: int| 0 <= i < k ==> (#[trigger] s[i]) < 16,
    ensures
        forall|i: int|
            0 <= i < k ==> ((hash_fold(s, k) >> ((4 * i) as u64)) & 0xf) == s[i] as u64,
        k <= 15 ==> hash_fold(s, k) < (1u64 << ((4 * k) as u64)),
    decreases k,
{
    if k > 0 {
        lemma_hash_fold_nibbles(s, k - 1);
        let h = hash_fold(s, k - 1);
        let t = s[k - 1] as u64;
        let sh = (4 * (k - 1)) as u64;
        let hp = hash_fold(s, k);
        assert(hp == h | (t << sh));
        assert(h < (1u64 << sh));
        assert forall|i: int|
            0 <= i < k implies ((hp >> ((4 * i) as u64)) & 0xf) == s[i] as u64 by {
            let a = (4 * i) as u64;
            if i == k - 1 {
                assert(((h | (t << sh)) >> sh) & 0xf == t) by (bit_vector)
                    requires
                        h < (1u64 << sh),
                        t < 16,
                        sh <= 60,
                ;
            } else {
                assert((((h | (t << sh)) >> a) & 0xf) == ((h >> a) & 0xf)) by (bit_vector)
                    requires
                        a + 4 <= sh,
                        sh <= 60,
                ;
            }
        }
        if k <= 15 {
            let b = (4 * k) as u64;
            assert((h | (t << sh)) < (1u64 << b)) by (bit_vector)
                requires
                    h < (1u64 << sh),
                    t < 16,
                    sh <= 56,
                    b == sh + 4,
            ;
        }
    } else {
        assert(0u64 < (1u64 << 0)) by (bit_vector);
    }
}

/// On boards whose tile values stay below 16 and whose length is at most 16,
/// the packed 64-bit hash determines the board: hash equality is board
/// equality, so deduplicating by the packed hash is as exact as
/// deduplicating by full tile-array comparison.
pub proof fn lemma_hash_injective(s1: Seq<u8>, s2: Seq<u8>)
    requires
        s1.len() == s2.len(),
        s1.len() <= 16,
        forall|i: int| 0 <= i < s1.len() ==> (#[trigger] s1[i]) < 16,
        forall|i: int| 0 <= i < s2.len() ==> (#[trigger] s2[i]) < 16,
        hash_of(s1) == hash_of(s2),
    ensures
        s1 == s2,
{
    let k = s1.len() as int;
    lemma_hash_fold_nibbles(s1, k);
    lemma_hash_fold_nibbles(s2, k);
    assert forall|i: int| 0 <= i < k implies s1[i] == s2[i] by {
        assert(((hash_of(s1) >> ((4 * i) as u64)) & 0xf) == s1[i] as u64);
        assert(((hash_of(s2) >> ((4 * i) as u64)) & 0xf) == s2[i] as u64);
    }
    assert(s1 =~= s2);
}

/// The canonical solved configuration is a well-formed board.
pub proof fn lemma_goal_wf(n: int)
    requires
        valid_size(n),
    ensures
        wf_board(goal_seq(n), n),
{
    assert(goal_seq(n)[0] == 0);
}

/// Two boards that agree everywhere but at `zi` and `zj` have heuristic
/// sums that differ only in those two tiles' terms.
proof fn lemma_h_sum_two_point(s: Seq<u8>, b: Seq<u8>, dim: int, k: int, zi: int, zj: int)
    requires
        s.len() == b.len(),
        k <= s.len(),
        0 <= zi < s.len(),
        0 <= zj < s.len(),
        zi != zj,
        forall|i: int| 0 <= i < s.len() && i != zi && i != zj ==> s[i] == b[i],
    ensures
        h_sum(b, dim, k) == h_sum(s, dim, k) + (if zi < k {
            h_term(b, dim, zi) - h_term(s, dim, zi)
        } else {
            0
        }) + (if zj < k {
            h_term(b, dim, zj) - h_term(s, dim, zj)
        } else {
            0
        }),
    decreases k,
{
    if k > 0 {
        lemma_h_sum_two_point(s, b, dim, k - 1, zi, zj);
        if k - 1 != zi && k - 1 != zj {
            assert(s[k - 1] == b[k - 1]);
            assert(h_term(b, dim, k - 1) == h_term(s, dim, k - 1));
        }
    }
}

/// The solved configuration's heuristic sum over any prefix is zero: every
/// tile sits at the position matching its value.
proof fn lemma_goal_h_sum_zero(n: int, k: int)
    requires
        valid_size(n),
        0 <= k <= n,
    ensures
        h_sum(goal_seq(n), dim_of(n), k) == 0,
    decreases k,
{
    if k > 0 {
        lemma_goal_h_sum_zero(n, k - 1);
        assert(goal_seq(n)[k - 1] == (k - 1) as u8);
        assert(h_term(goal_seq(n), dim_of(n), k - 1) == 0);
    }
}

/// The heuristic of the solved configuration is zero.
pub proof fn lemma_goal_heuristic_zero(n: int)
    requires
        valid_size(n),
    ensures
        heuristic_spec(goal_seq(n), dim_of(n)) == 0,
{
    lemma_goal_h_sum_zero(n, n);
}

/// The Manhattan-distance heuristic is consistent for unit-cost sliding
/// moves: one legal slide changes it by at most one, since only the
/// displaced tile's term changes, and that tile moves by one cell.
pub proof fn lemma_heuristic_consistent(s: Seq<u8>, n: int, dim: int, act: Action)
    requires
        valid_size(n),
        dim == dim_of(n),
        wf_board(s, n),
        act != Action::Start,
        can_move(blank_index(s), act, dim),
    ensures
        heuristic_spec(s, dim) <= heuristic_spec(
            moved_board(s, blank_index(s), act, dim),
            dim,
        ) + 1,
        heuristic_spec(moved_board(s, blank_index(s), act, dim), dim) <= heuristic_spec(s, dim)
            + 1,
{
    let zi = blank_index(s);
    let zj = move_target(zi, act, dim);
    lemma_move_preserves_wf(s, n, dim, act);
    let b = moved_board(s, zi, act, dim);
    lemma_h_sum_two_point(s, b, dim, n, zi, zj);
    assert(0 <= zi < n && s[zi] == 0);
    assert(s[zj] != 0);
    assert(h_term(s, dim, zi) == 0);
    assert(h_term(b, dim, zj) == 0);
    let t = s[zj] as int;
    assert(b[zi] == s[zj]);
    assert(h_term(s, dim, zj) == manhattan(zj, t, dim));
    assert(h_term(b, dim, zi) == manhattan(zi, t, dim));
    // The target cell's coordinates sit one step from the blank's.
    let r = zi / dim + delta_row(act);
    let c = zi % dim + delta_col(act);
    lemma_fundamental_div_mod_converse(zj, dim, r, c);
    assert(zj / dim == zi / dim + delta_row(act));
    assert(zj % dim == zi % dim + delta_col(act));
    assert(manhattan(zi, t, dim) <= manhattan(zj, t, dim) + 1 && manhattan(zj, t, dim)
        <= manhattan(zi, t, dim) + 1);
    assert(heuristic_spec(b, dim) == h_sum(b, dim, n));
    assert(heuristic_spec(s, dim) == h_sum(s, dim, n));
}

/// An index below a perfect square divides to a row below the side.
proof fn lemma_div_bound_by_square(i: int, d: int)
    requires
        1 <= d,
        0 <= i < d * d,
    ensures
        0 <= i / d < d,
        0 <= i % d < d,
{
    lemma_div_pos_is_pos(i, d);
    lemma_mod_division_less_than_divisor(i, d);
    if i / d >= d {
        lemma_fundamental_div_mod(i, d);
        assert(d * (i / d) >= d * d) by (nonlinear_arith)
            requires
                1 <= d,
                i / d >= d,
        ;
    }
}

} // verus!
