//! The Hex connectivity board: maps a `size x size` rhombus-shaped hex
//! grid onto a [`DisjointSet`] engine and answers win queries after every
//! move.
//!
//! The engine's universe has `size * size + 4` elements: one per cell plus
//! four virtual nodes standing for the top, bottom, left and right board
//! edges.  Placing a piece joins its cell with every same-colored
//! grid-neighbor and with the virtual node of each board edge the cell
//! touches that is relevant for the piece's color (`Red` connects top to
//! bottom, `Blue` connects left to right).  The mover has won exactly when
//! their two edge nodes end up in one set.

use crate::disjointset::DisjointSet;
use crate::grid::col_of;
use crate::grid::grid_adjacent;
use crate::grid::lemma_cell_coords;
use crate::grid::lemma_coords_cell;
use crate::grid::row_of;
use crate::Error;
use vstd::pervasive::unreached;
use vstd::prelude::*;

verus! {

broadcast use vstd::seq_lib::lemma_seq_contains_after_push;

/// The tri-state coloring of a board cell.
#[derive(Clone, Copy, Debug, PartialEq, Eq, Structural)]
pub enum Color {
    Blank,
    Red,
    Blue,
}

/// The outcome of a move request: `Rejected` when the addressed cell is
/// already colored (a normal "try again" signal, not an error), otherwise
/// `Placed` with the win verdict for the moving color.
#[derive(Clone, Copy, Debug, PartialEq, Eq, Structural)]
pub enum MoveOutcome {
    Rejected,
    Placed { won: bool },
}

/// Whether an outcome reports a win.
pub open spec fn outcome_won(res: MoveOutcome) -> bool {
    match res {
        MoveOutcome::Placed { won } => won,
        MoveOutcome::Rejected => false,
    }
}

/// The largest accepted board side: keeps the engine universe
/// `size * size + 4` within [`crate::disjointset::MAX_UNIVERSE`].
pub const MAX_BOARD_SIDE: usize = 46340;

pub struct HexGame {
    logic: DisjointSet,
    game: Vec<Color>,
    pub size: usize,
    top: usize,
    bottom: usize,
    left: usize,
    right: usize,
}

impl HexGame {
    /// The board's side length.
    pub closed spec fn side(self) -> int {
        self.size as int
    }

    /// The number of cells on the board.
    pub open spec fn cell_count(self) -> int {
        self.side() * self.side()
    }

    /// The number of elements in the connectivity universe: all cells plus
    /// the four virtual edge nodes.
    pub open spec fn universe(self) -> int {
        self.cell_count() + 4
    }

    /// The virtual node standing for the top board edge.
    pub open spec fn top_node(self) -> int {
        self.cell_count()
    }

    /// The virtual node standing for the bottom board edge.
    pub open spec fn bottom_node(self) -> int {
        self.cell_count() + 1
    }

    /// The virtual node standing for the left board edge.
    pub open spec fn left_node(self) -> int {
        self.cell_count() + 2
    }

    /// The virtual node standing for the right board edge.
    pub open spec fn right_node(self) -> int {
        self.cell_count() + 3
    }

    /// The current coloring, one entry per cell in row-major order.
    pub closed spec fn board(self) -> Seq<Color> {
        self.game@
    }

    /// Whether universe elements `a` and `b` are connected, i.e. share a
    /// root in the underlying disjoint-set engine.
    pub closed spec fn same_root(self, a: int, b: int) -> bool {
        self.logic.same_set(a, b)
    }

    /// The first of the two edge nodes `color` must connect to win.
    pub open spec fn goal_a(self, color: Color) -> int {
        if color == Color::Red {
            self.top_node()
        } else {
            self.left_node()
        }
    }

    /// The second of the two edge nodes `color` must connect to win.
    pub open spec fn goal_b(self, color: Color) -> int {
        if color == Color::Red {
            self.bottom_node()
        } else {
            self.right_node()
        }
    }

    /// The board's well-formedness invariant.
    pub closed spec fn valid(self) -> bool {
        &&& 2 <= self.size <= MAX_BOARD_SIDE
        &&& self.game@.len() == self.cell_count()
        &&& self.logic.valid()
        &&& self.logic.len() == self.universe()
        &&& self.top as int == self.top_node()
        &&& self.bottom as int == self.bottom_node()
        &&& self.left as int == self.left_node()
        &&& self.right as int == self.right_node()
    }

    /// A board on which no piece has been placed: all cells blank and
    /// every universe element in a set of its own.
    pub open spec fn unplayed(self) -> bool {
        &&& forall|c: int| 0 <= c < self.cell_count() ==> self.board()[c] == Color::Blank
        &&& forall|a: int, b: int|
            0 <= a < self.universe() && 0 <= b < self.universe() ==> (#[trigger] self.same_root(
                a,
                b,
            ) <==> a == b)
    }

    /// What `get_neighbors` reports for cell `c`: its grid-neighbors plus
    /// the virtual node of each touched board edge that matters for the
    /// querying side (top/bottom when placing `Red`, left/right when
    /// placing `Blue`).
    pub open spec fn neighbor_listed(self, c: int, is_red: bool, m: int) -> bool {
        ||| grid_adjacent(self.side(), c, m)
        ||| (is_red && row_of(self.side(), c) == 0 && m == self.top_node())
        ||| (is_red && row_of(self.side(), c) == self.side() - 1 && m == self.bottom_node())
        ||| (!is_red && col_of(self.side(), c) == 0 && m == self.left_node())
        ||| (!is_red && col_of(self.side(), c) == self.side() - 1 && m == self.right_node())
    }

    /// The universe elements a move of `color` on cell `c` is joined
    /// with: same-colored grid-neighbors, and the relevant virtual edge
    /// nodes the cell touches.
    pub open spec fn union_target(self, c: int, color: Color, m: int) -> bool {
        ||| (grid_adjacent(self.side(), c, m) && self.board()[m] == color)
        ||| (color == Color::Red && row_of(self.side(), c) == 0 && m == self.top_node())
        ||| (color == Color::Red && row_of(self.side(), c) == self.side() - 1 && m
            == self.bottom_node())
        ||| (color == Color::Blue && col_of(self.side(), c) == 0 && m == self.left_node())
        ||| (color == Color::Blue && col_of(self.side(), c) == self.side() - 1 && m
            == self.right_node())
    }

    /// Whether `x` ends up connected to cell `c` once a move of `color`
    /// on `c` has issued its unions, assuming this (pre-move) state.
    pub open spec fn linked(self, c: int, color: Color, x: int) -> bool {
        ||| self.same_root(x, c)
        ||| exists|m: int|
            #[trigger] self.union_target(c, color, m) && self.same_root(x, m)
    }

    /// Places a piece of `color` on the cell with 1-based number
    /// `position`.
    ///
    /// An already-colored cell rejects the move and mutates nothing.
    /// Otherwise the cell is colored, joined with every element
    /// `union_target` describes, and the returned verdict says whether
    /// the two edge nodes of `color` are now connected — the win
    /// condition.  The resulting connectivity is exactly the old one
    /// closed under the new joins (`placed_connectivity`), from which it
    /// also follows that the very first piece placed on a board can never
    /// win it.
    pub fn apply_move(&mut self, position: usize, color: Color) -> (res: MoveOutcome)
        requires
            old(self).valid(),
            1 <= position <= old(self).cell_count(),
            color != Color::Blank,
        ensures
            final(self).valid(),
            final(self).side() == old(self).side(),
            old(self).board()[position - 1] != Color::Blank ==> res == MoveOutcome::Rejected
                && *final(self) == *old(self),
            old(self).board()[position - 1] == Color::Blank ==> {
                &&& res is Placed
                &&& final(self).board() == old(self).board().update(position - 1, color)
                &&& placed_connectivity(*old(self), *final(self), position - 1, color)
                &&& (outcome_won(res) <==> final(self).same_root(
                    old(self).goal_a(color),
                    old(self).goal_b(color),
                ))
            },
            old(self).unplayed() ==> !outcome_won(res),
            crate::chains::consistent(*old(self)) ==> crate::chains::consistent(*final(self)),
    {
        let cell = position - 1;
        let is_red = color == Color::Red;
        let ns = self.get_neighbors(cell, is_red);
        if self.game[cell] != Color::Blank {
            return MoveOutcome::Rejected;
        }
        let ghost pre = *self;
        let ghost ci = cell as int;
        let ghost u = pre.universe();
        self.game.set(cell, color);
        let cells = self.size * self.size;

        let mut k: usize = 0;
        while k < ns.len()
            invariant
                self.valid(),
                self.size == pre.size,
                self.game@ == pre.game@.update(ci, color),
                k <= ns@.len(),
                pre.valid(),
                cells == pre.cell_count(),
                u == pre.universe(),
                ci == cell as int,
                0 <= ci < pre.cell_count(),
                color != Color::Blank,
                forall|m: usize|
                    #[trigger] ns@.contains(m) <==> pre.neighbor_listed(ci, is_red, m as int),
                forall|a: int, b: int|
                    0 <= a < u && 0 <= b < u ==> (#[trigger] self.same_root(a, b) <==> (
                    pre.same_root(a, b) || (linked_prefix(pre, ci, color, ns@, k as int, a)
                        && linked_prefix(pre, ci, color, ns@, k as int, b)))),
            decreases ns@.len() - k,
        {
            let m = ns[k];
            proof {
                assert(ns@[k as int] == m);
                assert(ns@.contains(m));
                assert(pre.neighbor_listed(ci, is_red, m as int));
                assert(0 <= (m as int) < u);
            }
            let join = if m >= cells {
                true
            } else {
                self.game[m] == color
            };
            proof {
                assert(m as int != ci);
                assert(join == joins(pre, color, m as int));
            }
            if join {
                let ghost mid = *self;
                let _joined = self.logic.union(cell, m);
                proof {
                    assert((cell as int) < mid.logic.len() && (m as int) < mid.logic.len());
                    assert(_joined is Ok);
                    lemma_prefix_extend_joined(pre, ci, color, ns@, k as int);
                    let ghost mi = m as int;
                    assert forall|x: int| 0 <= x < u implies (mid.same_root(x, ci)
                        == linked_prefix(pre, ci, color, ns@, k as int, x)) by {
                        assert(pre.same_root(ci, ci));
                        assert(mid.same_root(x, ci) <==> (pre.same_root(x, ci) || (
                        linked_prefix(pre, ci, color, ns@, k as int, x) && linked_prefix(
                            pre,
                            ci,
                            color,
                            ns@,
                            k as int,
                            ci,
                        ))));
                    }
                    assert forall|a: int, b: int| 0 <= a < u && 0 <= b < u implies (
                    #[trigger] self.same_root(a, b) <==> (pre.same_root(a, b) || (
                    linked_prefix(pre, ci, color, ns@, k as int + 1, a) && linked_prefix(
                        pre,
                        ci,
                        color,
                        ns@,
                        k as int + 1,
                        b,
                    )))) by {
                        assert(self.same_root(a, b) <==> (mid.same_root(a, b) || ((
                        mid.same_root(a, ci) || mid.same_root(a, mi)) && (mid.same_root(b, ci)
                            || mid.same_root(b, mi)))));
                        assert(mid.same_root(a, mi) <==> (pre.same_root(a, mi) || (
                        linked_prefix(pre, ci, color, ns@, k as int, a) && linked_prefix(
                            pre,
                            ci,
                            color,
                            ns@,
                            k as int,
                            mi,
                        ))));
                        assert(mid.same_root(b, mi) <==> (pre.same_root(b, mi) || (
                        linked_prefix(pre, ci, color, ns@, k as int, b) && linked_prefix(
                            pre,
                            ci,
                            color,
                            ns@,
                            k as int,
                            mi,
                        ))));
                    }
                }
            } else {
                proof {
                    lemma_prefix_extend_skipped(pre, ci, color, ns@, k as int);
                }
            }
            k += 1;
        }
        let ghost s1 = *self;
        proof {
            lemma_prefix_full(pre, ci, color, is_red, ns@);
        }
        let ga = if is_red {
            self.top
        } else {
            self.left
        };
        let gb = if is_red {
            self.bottom
        } else {
            self.right
        };
        let fa_res = self.logic.find(ga);
        proof {
            assert(fa_res is Ok);
        }
        let fa = match fa_res {
            Ok(r) => r,
            Err(_) => unreached(),
        };
        let fb_res = self.logic.find(gb);
        proof {
            assert(fb_res is Ok);
        }
        let fb = match fb_res {
            Ok(r) => r,
            Err(_) => unreached(),
        };
        let won = fa == fb;
        proof {
            assert forall|a: int, b: int| 0 <= a < u && 0 <= b < u implies (#[trigger] self.same_root(
                a,
                b,
            ) <==> (pre.same_root(a, b) || (pre.linked(ci, color, a) && pre.linked(
                ci,
                color,
                b,
            )))) by {
                assert(self.same_root(a, b) == s1.same_root(a, b));
                assert(s1.same_root(a, b) <==> (pre.same_root(a, b) || (linked_prefix(
                    pre,
                    ci,
                    color,
                    ns@,
                    k as int,
                    a,
                ) && linked_prefix(pre, ci, color, ns@, k as int, b))));
                assert(linked_prefix(pre, ci, color, ns@, ns@.len() as int, a) <==> pre.linked(
                    ci,
                    color,
                    a,
                ));
                assert(linked_prefix(pre, ci, color, ns@, ns@.len() as int, b) <==> pre.linked(
                    ci,
                    color,
                    b,
                ));
            }
            assert(placed_connectivity(pre, *self, ci, color));
            if pre.unplayed() {
                lemma_unplayed_no_win(pre, *self, ci, color);
            }
            if crate::chains::consistent(pre) {
                crate::chains::lemma_move_preserves_consistency(pre, *self, ci, color);
            }
        }
        MoveOutcome::Placed { won }
    }

    /// Places a `Red` piece at the given 1-based position and returns
    /// whether `Red` has now connected the top and bottom edges; an
    /// occupied cell leaves the board untouched and returns `false`.
    pub fn play_red(&mut self, position: usize) -> (won: bool)
        requires
            old(self).valid(),
            1 <= position <= old(self).cell_count(),
        ensures
            final(self).valid(),
            final(self).side() == old(self).side(),
            old(self).board()[position - 1] != Color::Blank ==> !won && *final(self) == *old(self),
            old(self).board()[position - 1] == Color::Blank ==> {
                &&& final(self).board() == old(self).board().update(position - 1, Color::Red)
                &&& placed_connectivity(*old(self), *final(self), position - 1, Color::Red)
                &&& (won <==> final(self).same_root(
                    old(self).top_node(),
                    old(self).bottom_node(),
                ))
            },
            old(self).unplayed() ==> !won,
            crate::chains::consistent(*old(self)) ==> crate::chains::consistent(*final(self)),
    {
        match self.apply_move(position, Color::Red) {
            MoveOutcome::Rejected => false,
            MoveOutcome::Placed { won } => won,
        }
    }

    /// Places a `Blue` piece at the given 1-based position and returns
    /// whether `Blue` has now connected the left and right edges; an
    /// occupied cell leaves the board untouched and returns `false`.
    pub fn play_blue(&mut self, position: usize) -> (won: bool)
        requires
            old(self).valid(),
            1 <= position <= old(self).cell_count(),
        ensures
            final(self).valid(),
            final(self).side() == old(self).side(),
            old(self).board()[position - 1] != Color::Blank ==> !won && *final(self) == *old(self),
            old(self).board()[position - 1] == Color::Blank ==> {
                &&& final(self).board() == old(self).board().update(position - 1, Color::Blue)
                &&& placed_connectivity(*old(self), *final(self), position - 1, Color::Blue)
                &&& (won <==> final(self).same_root(
                    old(self).left_node(),
                    old(self).right_node(),
                ))
            },
            old(self).unplayed() ==> !won,
            crate::chains::consistent(*old(self)) ==> crate::chains::consistent(*final(self)),
    {
        match self.apply_move(position, Color::Blue) {
            MoveOutcome::Rejected => false,
            MoveOutcome::Placed { won } => won,
        }
    }

    /// Returns a new game over a `size * size` board, all cells blank and
    /// nothing connected; a board of side below 2 cannot meaningfully be
    /// won and is refused with `InvalidSize`.
    pub fn new(size: usize) -> (res: Result<HexGame, Error>)
        requires
            size <= MAX_BOARD_SIDE,
        ensures
            res is Ok <==> size >= 2,
            res is Err ==> res == Err::<HexGame, Error>(Error::InvalidSize),
            res matches Ok(g) ==> g.valid() && g.side() == size && g.unplayed()
                && crate::chains::consistent(g),
    {
        if size < 2 {
            return Err(Error::InvalidSize);
        }
        proof {
            assert((size as int) * (size as int) + 4 <= 0x7fff_ffff) by (nonlinear_arith)
                requires
                    size <= MAX_BOARD_SIDE,
            ;
        }
        let cells = size * size;
        let logic = DisjointSet::new(cells + 4);
        let mut game: Vec<Color> = Vec::new();
        let mut k: usize = 0;
        while k < cells
            invariant
                k <= cells,
                game@.len() == k,
                forall|i: int| 0 <= i < k ==> game@[i] == Color::Blank,
            decreases cells - k,
        {
            game.push(Color::Blank);
            k += 1;
        }
        let g = HexGame {
            logic,
            game,
            size,
            top: cells,
            bottom: cells + 1,
            left: cells + 2,
            right: cells + 3,
        };
        proof {
            crate::chains::lemma_unplayed_consistent(g);
        }
        Ok(g)
    }

    /// Returns whether the 1-based position `position` addresses a cell of
    /// the board.
    pub fn is_valid_move(&self, position: usize) -> (r: bool)
        requires
            self.valid(),
        ensures
            r <==> 1 <= position <= self.cell_count(),
    {
        !(position > self.size * self.size || position == 0)
    }

    /// Returns whether the cell with 0-based index `position` has already
    /// been played.
    pub fn is_occupied(&self, position: usize) -> (r: bool)
        requires
            self.valid(),
            position < self.cell_count(),
        ensures
            r <==> self.board()[position as int] != Color::Blank,
    {
        self.game[position] != Color::Blank
    }

    /// Returns the neighbors of the cell with 0-based index `position`:
    /// all grid-adjacent cells, plus the virtual top/bottom edge nodes
    /// when `is_red` (and the cell touches that edge), or the virtual
    /// left/right edge nodes when not.
    pub fn get_neighbors(&self, position: usize, is_red: bool) -> (ns: Vec<usize>)
        requires
            self.valid(),
            position < self.cell_count(),
        ensures
            forall|m: usize|
                #[trigger] ns@.contains(m) <==> self.neighbor_listed(position as int, is_red, m as int),
    {
        let size = self.size;
        let row = position / size;
        let col = position % size;
        let ghost s = self.side();
        let ghost c = position as int;
        let ghost r = row as int;
        let ghost co = col as int;
        proof {
            lemma_cell_coords(s, c);
            assert(r == row_of(s, c) && co == col_of(s, c));
            // the cell indices of the six potential neighbor coordinates
            assert((r - 1) * s == r * s - s && (r + 1) * s == r * s + s) by (nonlinear_arith);
            if r > 0 {
                lemma_coords_cell(s, r - 1, co);
                if co < s - 1 {
                    lemma_coords_cell(s, r - 1, co + 1);
                }
            }
            if r < s - 1 {
                lemma_coords_cell(s, r + 1, co);
                if co > 0 {
                    lemma_coords_cell(s, r + 1, co - 1);
                }
            }
            if co > 0 {
                lemma_coords_cell(s, r, co - 1);
            }
            if co < s - 1 {
                lemma_coords_cell(s, r, co + 1);
            }
        }
        let mut ns: Vec<usize> = Vec::new();
        if is_red {
            if row == 0 {
                ns.push(self.top);
            }
            if row == size - 1 {
                ns.push(self.bottom);
            }
        } else {
            if col == 0 {
                ns.push(self.left);
            }
            if col == size - 1 {
                ns.push(self.right);
            }
        }
        if col > 0 {
            ns.push(position - 1);
        }
        if col < size - 1 {
            ns.push(position + 1);
        }
        if row > 0 {
            ns.push(position - size);
            if col < size - 1 {
                ns.push(position - size + 1);
            }
        }
        if row < size - 1 {
            if col > 0 {
                ns.push(position + size - 1);
            }
            ns.push(position + size);
        }
        proof {
            assert forall|m: usize| #[trigger] ns@.contains(m) implies self.neighbor_listed(
                c,
                is_red,
                m as int,
            ) by {}
            assert forall|m: usize| self.neighbor_listed(c, is_red, m as int) implies ns@.contains(
                m,
            ) by {
                let mi = m as int;
                if grid_adjacent(s, c, mi) {
                    lemma_cell_coords(s, mi);
                    let rm = row_of(s, mi);
                    let cm = col_of(s, mi);
                    assert(rm * s == r * s + (rm - r) * s) by (nonlinear_arith);
                    assert(mi == c + (rm - r) * s + (cm - co));
                    assert((r - 1) * s == r * s - s && (r + 1) * s == r * s + s)
                        by (nonlinear_arith);
                }
            }
        }
        ns
    }

    /// Returns a read-only snapshot of the coloring, one entry per cell in
    /// row-major order.
    pub fn snapshot(&self) -> (v: Vec<Color>)
        requires
            self.valid(),
        ensures
            v@ == self.board(),
    {
        let mut v: Vec<Color> = Vec::new();
        let mut k: usize = 0;
        while k < self.game.len()
            invariant
                k <= self.game@.len(),
                v@.len() == k,
                forall|i: int| 0 <= i < k ==> v@[i] == self.game@[i],
            decreases self.game@.len() - k,
        {
            v.push(self.game[k]);
            k += 1;
        }
        proof {
            assert(v@ =~= self.game@);
        }
        v
    }
}

/// Sharing a root is an equivalence relation on the universe.
pub proof fn lemma_same_root_equivalence(g: HexGame)
    ensures
        forall|a: int| #[trigger] g.same_root(a, a),
        forall|a: int, b: int| #[trigger] g.same_root(a, b) ==> g.same_root(b, a),
        forall|a: int, b: int, c: int|
            #[trigger] g.same_root(a, b) && #[trigger] g.same_root(b, c) ==> g.same_root(a, c),
{
}

/// The basic shape of a well-formed board, for reasoning outside this
/// module: a side of at least 2, one color entry per cell, and the four
/// virtual nodes right above the cell range.
pub proof fn lemma_valid_shape(g: HexGame)
    requires
        g.valid(),
    ensures
        2 <= g.side() <= MAX_BOARD_SIDE as int,
        g.board().len() == g.cell_count(),
        g.cell_count() >= 4,
{
    assert(g.cell_count() >= 4) by (nonlinear_arith)
        requires
            g.side() >= 2 && g.cell_count() == g.side() * g.side(),
    ;
}

/// How a move changes connectivity: the relation afterwards is exactly
/// the relation before, closed under the joins of the moved cell — two
/// elements are newly connected just when both reach the new piece.
pub open spec fn placed_connectivity(pre: HexGame, post: HexGame, c: int, color: Color) -> bool {
    forall|a: int, b: int|
        0 <= a < pre.universe() && 0 <= b < pre.universe() ==> (#[trigger] post.same_root(a, b)
            <==> (pre.same_root(a, b) || (pre.linked(c, color, a) && pre.linked(c, color, b))))
}

/// Whether a move of `color` joins with a listed neighbor `m`: virtual
/// edge nodes always, cells only when already colored `color`.
spec fn joins(pre: HexGame, color: Color, m: int) -> bool {
    m >= pre.cell_count() || pre.board()[m] == color
}

/// Whether `x` is connected, in the pre-move state, to the moved cell `c`
/// or to one of the first `k` listed neighbors the move joins with.
spec fn linked_prefix(pre: HexGame, c: int, color: Color, ns: Seq<usize>, k: int, x: int) -> bool {
    ||| pre.same_root(x, c)
    ||| exists|t: int|
        0 <= t < k && #[trigger] joins(pre, color, ns[t] as int) && pre.same_root(x, ns[t] as int)
}

/// Extending the processed prefix by a neighbor the move joins with adds
/// exactly that neighbor's set to the reachable region.
proof fn lemma_prefix_extend_joined(pre: HexGame, c: int, color: Color, ns: Seq<usize>, k: int)
    requires
        0 <= k < ns.len(),
        joins(pre, color, ns[k] as int),
    ensures
        forall|x: int|
            #[trigger] linked_prefix(pre, c, color, ns, k + 1, x) <==> (linked_prefix(
                pre,
                c,
                color,
                ns,
                k,
                x,
            ) || pre.same_root(x, ns[k] as int)),
{
    assert forall|x: int| #[trigger] linked_prefix(pre, c, color, ns, k + 1, x) implies (
    linked_prefix(pre, c, color, ns, k, x) || pre.same_root(x, ns[k] as int)) by {
        if !pre.same_root(x, c) && !pre.same_root(x, ns[k] as int) {
            let t = choose|t: int|
                0 <= t < k + 1 && #[trigger] joins(pre, color, ns[t] as int) && pre.same_root(
                    x,
                    ns[t] as int,
                );
            assert(0 <= t < k && joins(pre, color, ns[t] as int) && pre.same_root(
                x,
                ns[t] as int,
            ));
        }
    }
    assert forall|x: int| (linked_prefix(pre, c, color, ns, k, x) || pre.same_root(
        x,
        ns[k] as int,
    )) implies #[trigger] linked_prefix(pre, c, color, ns, k + 1, x) by {
        if pre.same_root(x, ns[k] as int) {
            assert(0 <= k < k + 1 && joins(pre, color, ns[k] as int) && pre.same_root(
                x,
                ns[k] as int,
            ));
        } else if !pre.same_root(x, c) {
            let t = choose|t: int|
                0 <= t < k && #[trigger] joins(pre, color, ns[t] as int) && pre.same_root(
                    x,
                    ns[t] as int,
                );
            assert(0 <= t < k + 1 && joins(pre, color, ns[t] as int) && pre.same_root(
                x,
                ns[t] as int,
            ));
        }
    }
}

/// Extending the processed prefix by a neighbor the move does not join
/// with changes nothing.
proof fn lemma_prefix_extend_skipped(pre: HexGame, c: int, color: Color, ns: Seq<usize>, k: int)
    requires
        0 <= k < ns.len(),
        !joins(pre, color, ns[k] as int),
    ensures
        forall|x: int|
            #[trigger] linked_prefix(pre, c, color, ns, k + 1, x) <==> linked_prefix(
                pre,
                c,
                color,
                ns,
                k,
                x,
            ),
{
    assert forall|x: int| #[trigger] linked_prefix(pre, c, color, ns, k + 1, x) implies
    linked_prefix(pre, c, color, ns, k, x) by {
        if !pre.same_root(x, c) {
            let t = choose|t: int|
                0 <= t < k + 1 && #[trigger] joins(pre, color, ns[t] as int) && pre.same_root(
                    x,
                    ns[t] as int,
                );
            assert(t != k);
            assert(0 <= t < k && joins(pre, color, ns[t] as int) && pre.same_root(
                x,
                ns[t] as int,
            ));
        }
    }
    assert forall|x: int| linked_prefix(pre, c, color, ns, k, x) implies #[trigger] linked_prefix(
        pre,
        c,
        color,
        ns,
        k + 1,
        x,
    ) by {
        if !pre.same_root(x, c) {
            let t = choose|t: int|
                0 <= t < k && #[trigger] joins(pre, color, ns[t] as int) && pre.same_root(
                    x,
                    ns[t] as int,
                );
            assert(0 <= t < k + 1 && joins(pre, color, ns[t] as int) && pre.same_root(
                x,
                ns[t] as int,
            ));
        }
    }
}

/// Once every listed neighbor is processed, the reachable region is
/// exactly what `linked` describes over the move's union targets.
proof fn lemma_prefix_full(pre: HexGame, c: int, color: Color, is_red: bool, ns: Seq<usize>)
    requires
        pre.valid(),
        color != Color::Blank,
        is_red == (color == Color::Red),
        0 <= c < pre.cell_count(),
        forall|m: usize| #[trigger] ns.contains(m) <==> pre.neighbor_listed(c, is_red, m as int),
    ensures
        forall|x: int|
            #[trigger] linked_prefix(pre, c, color, ns, ns.len() as int, x) <==> pre.linked(
                c,
                color,
                x,
            ),
{
    assert forall|x: int| #[trigger] linked_prefix(pre, c, color, ns, ns.len() as int, x) implies
    pre.linked(c, color, x) by {
        if !pre.same_root(x, c) {
            let t = choose|t: int|
                0 <= t < ns.len() && #[trigger] joins(pre, color, ns[t] as int) && pre.same_root(
                    x,
                    ns[t] as int,
                );
            let m = ns[t];
            assert(ns.contains(m));
            assert(pre.neighbor_listed(c, is_red, m as int));
            assert(pre.union_target(c, color, m as int));
        }
    }
    assert forall|x: int| pre.linked(c, color, x) implies #[trigger] linked_prefix(
        pre,
        c,
        color,
        ns,
        ns.len() as int,
        x,
    ) by {
        if !pre.same_root(x, c) {
            let mi = choose|mi: int| #[trigger] pre.union_target(c, color, mi) && pre.same_root(
                x,
                mi,
            );
            assert(0 <= mi < pre.universe());
            let m = mi as usize;
            assert(pre.neighbor_listed(c, is_red, m as int));
            assert(ns.contains(m));
            let t = choose|t: int| 0 <= t < ns.len() && ns[t] == m;
            assert(joins(pre, color, ns[t] as int) && pre.same_root(x, ns[t] as int));
        }
    }
}

/// On a board without any piece, a single move can never connect the two
/// edge nodes of its color: the cell touches at most one of them.
proof fn lemma_unplayed_no_win(pre: HexGame, post: HexGame, c: int, color: Color)
    requires
        pre.valid(),
        pre.unplayed(),
        color != Color::Blank,
        0 <= c < pre.cell_count(),
        placed_connectivity(pre, post, c, color),
    ensures
        !post.same_root(pre.goal_a(color), pre.goal_b(color)),
{
    let ga = pre.goal_a(color);
    let gb = pre.goal_b(color);
    assert(pre.cell_count() >= 4) by (nonlinear_arith)
        requires
            pre.side() >= 2 && pre.cell_count() == pre.side() * pre.side(),
    ;
    if post.same_root(ga, gb) {
        assert(pre.linked(c, color, ga) && pre.linked(c, color, gb));
        assert(!pre.same_root(ga, c) && !pre.same_root(gb, c));
        let ma = choose|m: int| #[trigger] pre.union_target(c, color, m) && pre.same_root(ga, m);
        let mb = choose|m: int| #[trigger] pre.union_target(c, color, m) && pre.same_root(gb, m);
        assert(0 <= ma < pre.universe() && 0 <= mb < pre.universe());
        assert(ga == ma && gb == mb);
        if color == Color::Red {
            assert(row_of(pre.side(), c) == 0 && row_of(pre.side(), c) == pre.side() - 1);
        } else {
            assert(col_of(pre.side(), c) == 0 && col_of(pre.side(), c) == pre.side() - 1);
        }
        assert(false);
    }
}

} // verus!
