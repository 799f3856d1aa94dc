//! What a win verdict means on the board itself: two universe elements
//! share a root in the engine exactly when an unbroken chain of
//! same-colored pieces links them.
//!
//! The board's contracts describe each move's effect on connectivity
//! ([`crate::hexgame::placed_connectivity`]); this module relates that
//! connectivity back to concrete chains of pieces.  [`consistent`] states
//! the correspondence; a new board satisfies it and every move preserves
//! it, so a reported win always has a chain of the winner's pieces from
//! edge to edge as a witness.

use crate::grid::grid_adjacent;
use crate::grid::lemma_grid_adjacent_symmetric;
use crate::hexgame::placed_connectivity;
use crate::hexgame::Color;
use crate::hexgame::HexGame;
use vstd::prelude::*;

verus! {

/// Whether cell `u` touches the board edge that virtual node `v` stands
/// for, as far as `color` is concerned: `Red` cares for the top and
/// bottom edges, `Blue` for the left and right ones.
pub open spec fn touches(g: HexGame, color: Color, u: int, v: int) -> bool {
    &&& 0 <= u < g.cell_count()
    &&& ({
        ||| (color == Color::Red && row_of_cell(g, u) == 0 && v == g.top_node())
        ||| (color == Color::Red && row_of_cell(g, u) == g.side() - 1 && v == g.bottom_node())
        ||| (color == Color::Blue && col_of_cell(g, u) == 0 && v == g.left_node())
        ||| (color == Color::Blue && col_of_cell(g, u) == g.side() - 1 && v == g.right_node())
    })
}

/// The row of cell `u` on `g`'s board.
pub open spec fn row_of_cell(g: HexGame, u: int) -> int {
    crate::grid::row_of(g.side(), u)
}

/// The column of cell `u` on `g`'s board.
pub open spec fn col_of_cell(g: HexGame, u: int) -> int {
    crate::grid::col_of(g.side(), u)
}

/// A single link of a chain: two grid-adjacent cells both colored
/// `color`, or a cell of `color` and the virtual node of a board edge it
/// touches (in either order).
pub open spec fn link(g: HexGame, color: Color, u: int, v: int) -> bool {
    ||| (grid_adjacent(g.side(), u, v) && g.board()[u] == color && g.board()[v] == color)
    ||| (g.board()[u] == color && touches(g, color, u, v))
    ||| (g.board()[v] == color && touches(g, color, v, u))
}

/// A chain of `color`: consecutive elements are linked.
pub open spec fn is_chain(g: HexGame, color: Color, p: Seq<int>) -> bool {
    forall|i: int| 0 <= i < p.len() - 1 ==> link(g, color, #[trigger] p[i], p[i + 1])
}

/// Whether some chain of `color` leads from `a` to `b` (trivially true
/// for `a == b`, via the one-element chain).
pub open spec fn chain_connected(g: HexGame, color: Color, a: int, b: int) -> bool {
    exists|p: Seq<int>|
        #[trigger] is_chain(g, color, p) && p.len() >= 1 && p[0] == a && p.last() == b
}

/// The elements a non-trivial chain of `color` can start or end at: cells
/// of that color, and the two virtual edge nodes the color aims for.
pub open spec fn eligible(g: HexGame, color: Color, e: int) -> bool {
    ||| (0 <= e < g.cell_count() && g.board()[e] == color)
    ||| (color == Color::Red && (e == g.top_node() || e == g.bottom_node()))
    ||| (color == Color::Blue && (e == g.left_node() || e == g.right_node()))
}

/// The board's connectivity answers are witnessed by chains: two distinct
/// universe elements share a root exactly when a chain of one color links
/// them.
pub open spec fn consistent(g: HexGame) -> bool {
    forall|a: int, b: int|
        0 <= a < g.universe() && 0 <= b < g.universe() ==> (#[trigger] g.same_root(a, b) <==> (a
            == b || chain_connected(g, Color::Red, a, b) || chain_connected(g, Color::Blue, a, b)))
}

/// Both endpoints of a link lie in the universe and are eligible chain
/// endpoints for its color.
proof fn lemma_link_shape(g: HexGame, color: Color, u: int, v: int)
    requires
        g.side() >= 0,
        link(g, color, u, v),
    ensures
        0 <= u < g.universe(),
        0 <= v < g.universe(),
        eligible(g, color, u),
        eligible(g, color, v),
{
    assert(g.cell_count() >= 0) by (nonlinear_arith)
        requires
            g.side() >= 0 && g.cell_count() == g.side() * g.side(),
    ;
}

/// Links are symmetric.
proof fn lemma_link_symmetric(g: HexGame, color: Color, u: int, v: int)
    ensures
        link(g, color, u, v) <==> link(g, color, v, u),
{
    lemma_grid_adjacent_symmetric(g.side(), u, v);
}

/// Every element is chain-connected to itself.
proof fn lemma_chain_trivial(g: HexGame, color: Color, a: int)
    ensures
        chain_connected(g, color, a, a),
{
    let p = seq![a];
    assert(is_chain(g, color, p) && p.len() >= 1 && p[0] == a && p.last() == a);
}

/// A chain extends by one more linked element.
proof fn lemma_chain_extend(g: HexGame, color: Color, a: int, b: int, c: int)
    requires
        chain_connected(g, color, a, b),
        link(g, color, b, c),
    ensures
        chain_connected(g, color, a, c),
{
    let p = choose|p: Seq<int>|
        #[trigger] is_chain(g, color, p) && p.len() >= 1 && p[0] == a && p.last() == b;
    let q = p.push(c);
    assert forall|i: int| 0 <= i < q.len() - 1 implies #[trigger] link(g, color, q[i], q[i + 1]) by {
        if i < p.len() - 1 {
            assert(q[i] == p[i] && q[i + 1] == p[i + 1]);
        } else {
            assert(q[i] == p.last() && q[i + 1] == c);
        }
    }
    assert(is_chain(g, color, q) && q.len() >= 1 && q[0] == a && q.last() == c);
}

/// Chains concatenate: chain-connectivity is transitive.
proof fn lemma_chain_trans(g: HexGame, color: Color, a: int, b: int, c: int)
    requires
        chain_connected(g, color, a, b),
        chain_connected(g, color, b, c),
    ensures
        chain_connected(g, color, a, c),
{
    let p = choose|p: Seq<int>|
        #[trigger] is_chain(g, color, p) && p.len() >= 1 && p[0] == a && p.last() == b;
    let q = choose|q: Seq<int>|
        #[trigger] is_chain(g, color, q) && q.len() >= 1 && q[0] == b && q.last() == c;
    let r = p + q.subrange(1, q.len() as int);
    assert forall|i: int| 0 <= i < r.len() - 1 implies #[trigger] link(g, color, r[i], r[i + 1]) by {
        if i < p.len() - 1 {
            assert(r[i] == p[i] && r[i + 1] == p[i + 1]);
        } else if i == p.len() - 1 {
            assert(r[i] == p.last() && r[i + 1] == q[1]);
            assert(link(g, color, q[0], q[1]));
        } else {
            let j = i - p.len();
            assert(r[i] == q[j + 1] && r[i + 1] == q[j + 2]);
            assert(link(g, color, q[j + 1], q[j + 2]));
        }
    }
    if q.len() == 1 {
        assert(r.last() == p.last() && b == c);
    } else {
        assert(r.last() == q.last());
    }
    assert(is_chain(g, color, r) && r.len() >= 1 && r[0] == a && r.last() == c);
}

/// Chains reverse: chain-connectivity is symmetric.
proof fn lemma_chain_sym(g: HexGame, color: Color, a: int, b: int)
    requires
        chain_connected(g, color, a, b),
    ensures
        chain_connected(g, color, b, a),
{
    let p = choose|p: Seq<int>|
        #[trigger] is_chain(g, color, p) && p.len() >= 1 && p[0] == a && p.last() == b;
    let n = p.len() as int;
    let r = Seq::new(p.len(), |i: int| p[n - 1 - i]);
    assert forall|i: int| 0 <= i < r.len() - 1 implies #[trigger] link(g, color, r[i], r[i + 1]) by {
        assert(r[i] == p[n - 1 - i] && r[i + 1] == p[n - 2 - i]);
        assert(link(g, color, p[n - 2 - i], p[n - 1 - i]));
        lemma_link_symmetric(g, color, p[n - 2 - i], p[n - 1 - i]);
    }
    assert(is_chain(g, color, r) && r.len() >= 1 && r[0] == b && r.last() == a);
}

/// If every link of `color` joins its two ends in the engine, every chain
/// of `color` joins its two endpoints.
proof fn lemma_chain_same_root(g: HexGame, color: Color, p: Seq<int>)
    requires
        is_chain(g, color, p),
        p.len() >= 1,
        forall|u: int, v: int| #[trigger] link(g, color, u, v) ==> g.same_root(u, v),
    ensures
        g.same_root(p[0], p.last()),
    decreases p.len(),
{
    crate::hexgame::lemma_same_root_equivalence(g);
    if p.len() >= 2 {
        let q = p.subrange(1, p.len() as int);
        assert(link(g, color, p[0], p[1]));
        assert forall|i: int| 0 <= i < q.len() - 1 implies #[trigger] link(
            g,
            color,
            q[i],
            q[i + 1],
        ) by {
            assert(q[i] == p[i + 1] && q[i + 1] == p[i + 2]);
        }
        lemma_chain_same_root(g, color, q);
        assert(q[0] == p[1] && q.last() == p.last());
    }
}

/// The endpoints of a chain between two distinct elements are eligible
/// for the chain's color.
proof fn lemma_chain_endpoints_eligible(g: HexGame, color: Color, a: int, b: int)
    requires
        g.side() >= 0,
        chain_connected(g, color, a, b),
        a != b,
    ensures
        eligible(g, color, a),
        eligible(g, color, b),
{
    let p = choose|p: Seq<int>|
        #[trigger] is_chain(g, color, p) && p.len() >= 1 && p[0] == a && p.last() == b;
    assert(p.len() >= 2);
    assert(link(g, color, p[0], p[1]));
    assert(link(g, color, p[p.len() - 2], p[p.len() - 1]));
    lemma_link_shape(g, color, p[0], p[1]);
    lemma_link_shape(g, color, p[p.len() - 2], p[p.len() - 1]);
}

/// A chain survives a move: placing a piece on a blank cell removes no
/// link of either real color.
proof fn lemma_chain_mono(pre: HexGame, post: HexGame, c: int, color: Color, col: Color, a: int, b: int)
    requires
        col != Color::Blank,
        pre.board().len() == pre.cell_count(),
        0 <= c < pre.cell_count(),
        pre.board()[c] == Color::Blank,
        post.side() == pre.side(),
        post.board() == pre.board().update(c, color),
        chain_connected(pre, col, a, b),
    ensures
        chain_connected(post, col, a, b),
{
    let p = choose|p: Seq<int>|
        #[trigger] is_chain(pre, col, p) && p.len() >= 1 && p[0] == a && p.last() == b;
    assert forall|i: int| 0 <= i < p.len() - 1 implies #[trigger] link(post, col, p[i], p[i + 1]) by {
        assert(link(pre, col, p[i], p[i + 1]));
    }
    assert(is_chain(post, col, p));
}

/// A blank cell is connected to nothing but itself.
proof fn lemma_blank_isolated(g: HexGame, d: int, x: int)
    requires
        g.side() >= 0,
        consistent(g),
        0 <= d < g.cell_count(),
        g.board()[d] == Color::Blank,
        0 <= x < g.universe(),
        x != d,
    ensures
        !g.same_root(x, d),
{
    if g.same_root(x, d) {
        if chain_connected(g, Color::Red, x, d) {
            lemma_chain_endpoints_eligible(g, Color::Red, x, d);
            assert(false);
        } else {
            assert(chain_connected(g, Color::Blue, x, d));
            lemma_chain_endpoints_eligible(g, Color::Blue, x, d);
            assert(false);
        }
    }
}

/// A board without pieces is consistent: nothing is connected, and
/// indeed no chain exists, as every link needs a placed piece.
pub proof fn lemma_unplayed_consistent(g: HexGame)
    requires
        g.valid(),
        g.unplayed(),
    ensures
        consistent(g),
{
    crate::hexgame::lemma_valid_shape(g);
    crate::hexgame::lemma_same_root_equivalence(g);
    assert forall|a: int, b: int| 0 <= a < g.universe() && 0 <= b < g.universe() implies (
    #[trigger] g.same_root(a, b) <==> (a == b || chain_connected(g, Color::Red, a, b)
        || chain_connected(g, Color::Blue, a, b))) by {
        if a != b && chain_connected(g, Color::Red, a, b) {
            let p = choose|p: Seq<int>|
                #[trigger] is_chain(g, Color::Red, p) && p.len() >= 1 && p[0] == a && p.last()
                    == b;
            assert(link(g, Color::Red, p[0], p[1]));
            lemma_link_shape(g, Color::Red, p[0], p[1]);
            assert(false);
        }
        if a != b && chain_connected(g, Color::Blue, a, b) {
            let p = choose|p: Seq<int>|
                #[trigger] is_chain(g, Color::Blue, p) && p.len() >= 1 && p[0] == a && p.last()
                    == b;
            assert(link(g, Color::Blue, p[0], p[1]));
            lemma_link_shape(g, Color::Blue, p[0], p[1]);
            assert(false);
        }
    }
}

/// Everything the move's unions reach has a chain of the mover's color
/// to the moved cell afterwards.
proof fn lemma_linked_to_chain(pre: HexGame, post: HexGame, c: int, color: Color, x: int)
    requires
        pre.valid(),
        consistent(pre),
        color != Color::Blank,
        0 <= c < pre.cell_count(),
        pre.board()[c] == Color::Blank,
        post.side() == pre.side(),
        post.board() == pre.board().update(c, color),
        0 <= x < pre.universe(),
        pre.linked(c, color, x),
    ensures
        chain_connected(post, color, x, c),
{
    crate::hexgame::lemma_valid_shape(pre);
    if pre.same_root(x, c) {
        if x != c {
            lemma_blank_isolated(pre, c, x);
            assert(false);
        }
        lemma_chain_trivial(post, color, x);
    } else {
        let m = choose|m: int| #[trigger] pre.union_target(c, color, m) && pre.same_root(x, m);
        // the target is linked to the moved cell on the post board
        assert(link(post, color, m, c)) by {
            if grid_adjacent(pre.side(), c, m) && pre.board()[m] == color {
                lemma_grid_adjacent_symmetric(pre.side(), c, m);
            }
        }
        lemma_link_shape(post, color, m, c);
        if x == m {
            lemma_chain_trivial(post, color, x);
            lemma_chain_extend(post, color, x, m, c);
        } else {
            // the pre-board chain from x to m must already be of the
            // mover's color: the target is eligible for no other
            if chain_connected(pre, Color::Red, x, m) {
                lemma_chain_endpoints_eligible(pre, Color::Red, x, m);
            }
            if chain_connected(pre, Color::Blue, x, m) {
                lemma_chain_endpoints_eligible(pre, Color::Blue, x, m);
            }
            assert(chain_connected(pre, color, x, m));
            lemma_chain_mono(pre, post, c, color, color, x, m);
            lemma_chain_extend(post, color, x, m, c);
        }
    }
}

/// Applying a move keeps the board consistent: the closed-under-joins
/// connectivity is witnessed by chains on the updated board.
pub proof fn lemma_move_preserves_consistency(pre: HexGame, post: HexGame, c: int, color: Color)
    requires
        pre.valid(),
        consistent(pre),
        color != Color::Blank,
        0 <= c < pre.cell_count(),
        pre.board()[c] == Color::Blank,
        post.side() == pre.side(),
        post.board() == pre.board().update(c, color),
        placed_connectivity(pre, post, c, color),
    ensures
        consistent(post),
{
    crate::hexgame::lemma_valid_shape(pre);
    crate::hexgame::lemma_same_root_equivalence(pre);
    crate::hexgame::lemma_same_root_equivalence(post);

    // every link on the post board joins elements the engine now connects
    assert forall|col: Color, u: int, v: int| col != Color::Blank && #[trigger] link(
        post,
        col,
        u,
        v,
    ) implies post.same_root(u, v) by {
        lemma_link_shape(post, col, u, v);
        if u != c && v != c {
            assert(link(pre, col, u, v));
            let p = seq![u, v];
            assert(p.len() >= 2 && p[0] == u && p.last() == v);
            assert(link(pre, col, p[0], p[1]));
            assert(is_chain(pre, col, p));
            assert(chain_connected(pre, col, u, v));
            assert(pre.same_root(u, v));
        } else if u == c && v == c {
        } else {
            let w = if u == c {
                v
            } else {
                u
            };
            assert(link(post, col, c, w)) by {
                lemma_link_symmetric(post, col, u, v);
            }
            assert(pre.union_target(c, color, w)) by {
                if grid_adjacent(post.side(), c, w) {
                    assert(post.board()[c] == color && post.board()[w] == col);
                }
            }
            assert(pre.same_root(w, w));
            assert(pre.linked(c, color, w));
            assert(pre.linked(c, color, c));
            assert(post.same_root(c, w));
        }
    }

    assert forall|a: int, b: int| 0 <= a < post.universe() && 0 <= b < post.universe() implies (
    #[trigger] post.same_root(a, b) <==> (a == b || chain_connected(post, Color::Red, a, b)
        || chain_connected(post, Color::Blue, a, b))) by {
        // a chain on the new board forces a shared root
        if a != b && chain_connected(post, Color::Red, a, b) {
            let p = choose|p: Seq<int>|
                #[trigger] is_chain(post, Color::Red, p) && p.len() >= 1 && p[0] == a && p.last()
                    == b;
            lemma_chain_same_root(post, Color::Red, p);
        }
        if a != b && chain_connected(post, Color::Blue, a, b) {
            let p = choose|p: Seq<int>|
                #[trigger] is_chain(post, Color::Blue, p) && p.len() >= 1 && p[0] == a && p.last()
                    == b;
            lemma_chain_same_root(post, Color::Blue, p);
        }
        // a shared root has a chain witness
        if post.same_root(a, b) && a != b {
            if pre.same_root(a, b) {
                if chain_connected(pre, Color::Red, a, b) {
                    lemma_chain_mono(pre, post, c, color, Color::Red, a, b);
                } else {
                    assert(chain_connected(pre, Color::Blue, a, b));
                    lemma_chain_mono(pre, post, c, color, Color::Blue, a, b);
                }
            } else {
                assert(pre.linked(c, color, a) && pre.linked(c, color, b));
                lemma_linked_to_chain(pre, post, c, color, a);
                lemma_linked_to_chain(pre, post, c, color, b);
                lemma_chain_sym(post, color, b, c);
                lemma_chain_trans(post, color, a, c, b);
                assert(chain_connected(post, color, a, b));
            }
        }
    }
}

/// What a win verdict means on the board: the two edge nodes of a color
/// share a root exactly when an unbroken chain of that color's pieces
/// runs from edge to edge.  No chain of the other color can ever connect
/// them.
pub proof fn lemma_win_is_chain(g: HexGame, color: Color)
    requires
        g.valid(),
        consistent(g),
        color != Color::Blank,
    ensures
        g.same_root(g.goal_a(color), g.goal_b(color)) <==> chain_connected(
            g,
            color,
            g.goal_a(color),
            g.goal_b(color),
        ),
{
    crate::hexgame::lemma_valid_shape(g);
    let ga = g.goal_a(color);
    let gb = g.goal_b(color);
    assert(0 <= ga < g.universe() && 0 <= gb < g.universe() && ga != gb);
    if g.same_root(ga, gb) {
        let other = if color == Color::Red {
            Color::Blue
        } else {
            Color::Red
        };
        if chain_connected(g, other, ga, gb) {
            lemma_chain_endpoints_eligible(g, other, ga, gb);
            assert(false);
        }
        assert(chain_connected(g, color, ga, gb));
    }
}

} // verus!
