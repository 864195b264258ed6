//! Monte Carlo tree search over the rules engine: an incrementally built,
//! move-indexed tree with UCB1 selection, single-rollout evaluation and
//! backpropagation, bounded by wall-clock thinking time and reusable across
//! turns.
//!
//! Scores and averages are held in integers throughout: the UCB1 comparison
//! works on values scaled by 2^16, with the natural logarithm of the parent
//! visit count approximated by `ln 2 * floor(log2 n)`.
use vstd::prelude::*;

use vstd::arithmetic::div_mod::lemma_fundamental_div_mod;
use vstd::arithmetic::power2::lemma2_to64;
use vstd::arithmetic::power2::lemma_pow2_strictly_increases;
use vstd::arithmetic::power2::lemma_pow2_unfold;
use vstd::arithmetic::power2::pow2;

use std::time::Duration;
use std::time::Instant;

use crate::game::{
    constrained_moves, lemma_move_from_list, lemma_moves_nonempty, lemma_step_shrinks_empties,
    move_ok, step, BoardState, GameState, GameView, Position,
};

verus! {

// ---------------------------------------------------------------------------
// Fixed-point arithmetic for the UCB1 confidence bound
// ---------------------------------------------------------------------------

/// The scale of the fixed-point confidence values: 2^16.
pub open spec fn ucb_scale() -> int {
    0x10000
}

/// `ln 2`, scaled by 2^16 and rounded.
pub open spec fn ln2_scaled() -> int {
    45426
}

/// The exact integer square root: the largest `r` with `r * r <= x`.
pub closed spec fn sqrt_floor(x: nat) -> nat
    decreases x,
{
    if x == 0 {
        0
    } else {
        let r = sqrt_floor((x - 1) as nat);
        if (r + 1) * (r + 1) <= x {
            (r + 1) as nat
        } else {
            r
        }
    }
}

proof fn lemma_sqrt_floor_bracket(x: nat)
    ensures
        sqrt_floor(x) * sqrt_floor(x) <= x,
        x < (sqrt_floor(x) + 1) * (sqrt_floor(x) + 1),
    decreases x,
{
    if x > 0 {
        lemma_sqrt_floor_bracket((x - 1) as nat);
        let r = sqrt_floor((x - 1) as nat);
        if (r + 1) * (r + 1) <= x {
            assert(sqrt_floor(x) == r + 1);
            assert((r + 1) * (r + 1) == x);
            let s = sqrt_floor(x);
            assert(x < (s + 1) * (s + 1)) by (nonlinear_arith)
                requires
                    x == (r + 1) * (r + 1),
                    s == r + 1,
                    r >= 0,
            ;
        } else {
            assert(sqrt_floor(x) == r);
        }
    } else {
        assert(sqrt_floor(x) == 0);
        assert(x < (sqrt_floor(x) + 1) * (sqrt_floor(x) + 1)) by (nonlinear_arith)
            requires
                x == 0,
                sqrt_floor(x) == 0,
        ;
        assert(sqrt_floor(x) * sqrt_floor(x) <= x) by (nonlinear_arith)
            requires
                x == 0,
                sqrt_floor(x) == 0,
        ;
    }
}

/// Any value bracketed like an integer square root is the integer square
/// root.
proof fn lemma_sqrt_unique(x: nat, s: nat)
    requires
        s * s <= x,
        x < (s + 1) * (s + 1),
    ensures
        s == sqrt_floor(x),
{
    lemma_sqrt_floor_bracket(x);
    let r = sqrt_floor(x);
    if s < r {
        assert((s + 1) * (s + 1) <= r * r) by (nonlinear_arith)
            requires
                0 <= s,
                s + 1 <= r,
        ;
        assert(false);
    }
    if r < s {
        assert((r + 1) * (r + 1) <= s * s) by (nonlinear_arith)
            requires
                0 <= r,
                r + 1 <= s,
        ;
        assert(false);
    }
}

/// The integer square root, by binary search.
fn isqrt64(x: u64) -> (r: u64)
    ensures
        r as nat == sqrt_floor(x as nat),
{
    let mut lo: u64 = 0;
    let mut hi: u64 = 0xFFFF_FFFF;
    proof {
        assert((hi as int + 1) * (hi as int + 1) > x as int) by (nonlinear_arith)
            requires
                hi == 0xFFFF_FFFFu64,
                x <= 0xFFFF_FFFF_FFFF_FFFFu64,
        ;
    }
    while lo < hi
        invariant
            lo <= hi,
            hi <= 0xFFFF_FFFF,
            (lo as int) * (lo as int) <= x as int,
            (x as int) < (hi as int + 1) * (hi as int + 1),
        decreases hi - lo,
    {
        let mid = lo + (hi - lo + 1) / 2;
        proof {
            assert(lo < mid <= hi);
            assert((mid as int) * (mid as int) <= 0xFFFF_FFFFi64 * 0xFFFF_FFFFi64)
                by (nonlinear_arith)
                requires
                    0 <= mid <= 0xFFFF_FFFFu64,
            ;
        }
        if mid * mid <= x {
            lo = mid;
        } else {
            hi = mid - 1;
        }
    }
    proof {
        lemma_sqrt_unique(x as nat, lo as nat);
    }
    lo
}

/// The floor of the base-two logarithm, with values below two mapped to
/// zero.
pub closed spec fn log2_floor(x: int) -> int
    decreases x,
{
    if x < 2 {
        0
    } else {
        1 + log2_floor(x / 2)
    }
}

/// The floor of the base-two logarithm, by repeated halving.
fn log2_floor64(x: u64) -> (r: u32)
    ensures
        r as int == log2_floor(x as int),
        r <= 63,
{
    let mut v: u64 = x;
    let mut r: u32 = 0;
    proof {
        lemma2_to64();
        assert(pow2(0) == 1);
    }
    while v >= 2
        invariant
            log2_floor(x as int) == r + log2_floor(v as int),
            v >= 1 ==> (v as int) * pow2(r as nat) <= x as int,
            v >= 1 || x == 0,
            x == 0 ==> r == 0,
            r <= 63,
        decreases v,
    {
        proof {
            lemma_fundamental_div_mod(v as int, 2);
            lemma_pow2_unfold((r + 1) as nat);
            assert(((v as int) / 2) * pow2((r + 1) as nat) <= (v as int) * pow2(r as nat))
                by (nonlinear_arith)
                requires
                    v >= 2,
                    pow2((r + 1) as nat) == 2 * pow2(r as nat),
                    2 * ((v as int) / 2) <= v as int,
                    pow2(r as nat) >= 0,
            ;
            // the exponent stays below 64 because 2^r <= x < 2^64
            lemma2_to64();
            if r >= 63 {
                assert(pow2(64) == 0x10000000000000000);
                if r + 1 > 64 {
                    lemma_pow2_strictly_increases(64, (r + 1) as nat);
                }
                assert(((v as int) / 2) * pow2((r + 1) as nat) >= pow2((r + 1) as nat))
                    by (nonlinear_arith)
                    requires
                        (v as int) / 2 >= 1,
                        pow2((r + 1) as nat) >= 0,
                ;
                assert(false);
            }
        }
        v = v / 2;
        r = r + 1;
    }
    r
}

/// The natural logarithm of a visit count, scaled by 2^16 and approximated
/// as `ln 2` times the floor of the base-two logarithm.
pub closed spec fn ln_scaled(n: int) -> int {
    ln2_scaled() * log2_floor(n)
}

// ---------------------------------------------------------------------------
// The search tree
// ---------------------------------------------------------------------------

/// The most simulations a tree is grown to before the search stops on its
/// own: 2^38.
pub const SIM_STOP: u64 = 0x40_0000_0000;

/// The largest visit count the search accepts in a handed-in tree: 2^39.
/// Growth stops at `SIM_STOP`, so a tree the search has built stays below
/// this bound and can be handed back in.
pub const SIM_BOUND: u64 = 0x80_0000_0000;

/// The largest rollout budget per evaluation the search accepts: 2^20.
pub const RC_BOUND: u32 = 0x10_0000;

/// One node of the search tree: the moves tried from the node's implied
/// game state, each with its subtree, and the node's accumulated score and
/// simulation count.  The score is from the perspective of the player who
/// moved into this node.
pub struct Node {
    children: Vec<(Position, Node)>,
    score: i64,
    simulations: u64,
}

impl Node {
    /// The node's children, each a move paired with its subtree.
    pub closed spec fn children_spec(self) -> Seq<(Position, Node)> {
        self.children@
    }

    /// The node's accumulated, signed score.
    pub closed spec fn score_spec(self) -> int {
        self.score as int
    }

    /// How many simulations this node's subtree has absorbed.
    pub closed spec fn sims_spec(self) -> int {
        self.simulations as int
    }

    /// The structural invariant of a search tree built with rollout budget
    /// `rc`: every score is bounded by the budget times the visit count,
    /// and a child is never visited more often than its parent.
    pub closed spec fn tree_wf(self, rc: int) -> bool
        decreases self,
    {
        &&& -(rc * self.sims_spec()) <= self.score_spec() <= rc * self.sims_spec()
        &&& forall|i: int|
            0 <= i < self.children@.len() ==> (#[trigger] self.children@[i]).1.tree_wf(rc)
                && self.children@[i].1.sims_spec() <= self.sims_spec()
    }

    /// The tree matches a game state: whenever a node has children, the
    /// game there is still running, the children's moves are exactly the
    /// state's legal moves in order, and every subtree matches the state
    /// after its move.
    pub closed spec fn consistent(self, v: GameView) -> bool
        decreases self,
    {
        self.children@.len() > 0 ==> {
            &&& v.state is Ongoing
            &&& self.children@.map_values(|c: (Position, Node)| c.0) == constrained_moves(v)
            &&& forall|i: int|
                0 <= i < self.children@.len() ==> (#[trigger] self.children@[i]).1.consistent(
                    step(v, self.children@[i].0.0, self.children@[i].0.1),
                )
        }
    }

    /// A fresh, unexpanded, unvisited node.  It matches any game state and
    /// any budget.
    pub fn new() -> (r: Node)
        ensures
            r.children_spec().len() == 0,
            r.score_spec() == 0,
            r.sims_spec() == 0,
            forall|rc: int| r.tree_wf(rc),
            forall|v: GameView| r.consistent(v),
    {
        let r = Node { children: Vec::new(), score: 0, simulations: 0 };
        proof {
            assert forall|rc: int| r.tree_wf(rc) by {
                assert(rc * 0 == 0) by (nonlinear_arith);
            }
        }
        r
    }

    /// Whether the node has been expanded.
    pub fn has_children(&self) -> (r: bool)
        ensures
            r == (self.children_spec().len() > 0),
    {
        self.children.len() > 0
    }

    /// Promotes the subtree for `action`: consumes the tree and hands back
    /// the child reached by that move, with all its accumulated statistics,
    /// discarding the siblings.  `None` when that move was never explored;
    /// the caller then starts over with a fresh tree.
    pub fn take_move(self, action: Position) -> (r: Option<Node>)
        ensures
            r is Some <==> (exists|i: int|
                0 <= i < self.children_spec().len() && (#[trigger] self.children_spec()[i]).0
                    == action),
            r is Some ==> (exists|i: int|
                0 <= i < self.children_spec().len() && (#[trigger] self.children_spec()[i]).0
                    == action && r == Some(self.children_spec()[i].1)),
    {
        let mut node = self;
        let mut k: usize = 0;
        while k < node.children.len()
            invariant
                node == self,
                k <= self.children_spec().len(),
                forall|j: int| 0 <= j < k ==> (#[trigger] self.children_spec()[j]).0 != action,
            decreases self.children_spec().len() - k,
        {
            let key = node.children[k].0;
            if key.0.0 == action.0.0 && key.0.1 == action.0.1 && key.1.0 == action.1.0 && key.1.1
                == action.1.1 {
                proof {
                    assert(self.children_spec()[k as int].0 == action);
                }
                let pair = node.children.remove(k);
                return Some(pair.1);
            }
            k = k + 1;
        }
        None
    }
}

impl Default for Node {
    /// The same fresh node `Node::new` makes.
    fn default() -> (r: Node)
        ensures
            r.children_spec().len() == 0,
            r.score_spec() == 0,
            r.sims_spec() == 0,
            forall|rc: int| r.tree_wf(rc),
            forall|v: GameView| r.consistent(v),
    {
        Node::new()
    }
}

/// A subtree of a tree that matches a state matches the state after the
/// subtree's move: this is what lets a tree survive across turns, with the
/// played branch promoted to the root.
pub proof fn lemma_subtree_consistent(n: Node, v: GameView, i: int)
    requires
        n.consistent(v),
        0 <= i < n.children_spec().len(),
    ensures
        n.children_spec()[i].1.consistent(
            step(v, n.children_spec()[i].0.0, n.children_spec()[i].0.1),
        ),
{
}

// ---------------------------------------------------------------------------
// UCB1 selection
// ---------------------------------------------------------------------------

/// The UCB1 confidence of a visited child under a visited parent, in fixed
/// point scaled by 2^16: the child's average score, shifted by the rollout
/// budget so it cannot be negative, plus twice the square root of the
/// scaled logarithm of the parent's visit count over the child's.  The
/// shift adds the same constant to every child, so the maximiser is
/// unchanged.
pub closed spec fn ucb_conf(node_sims: int, child_score: int, child_sims: int, rc: int) -> int {
    (child_score + rc * child_sims) * ucb_scale() / child_sims + 2 * sqrt_floor(
        ((ln_scaled(node_sims) * ucb_scale() / child_sims) as nat),
    )
}

/// The UCB1 confidence, as executable fixed-point arithmetic.
fn confidence(node_sims: u64, child_score: i64, child_sims: u64, rc: u32) -> (c: u64)
    requires
        node_sims >= 1,
        child_sims >= 1,
        1 <= rc <= RC_BOUND,
        child_sims <= SIM_BOUND,
        -(rc as int * child_sims as int) <= child_score as int,
        child_score as int <= rc as int * child_sims as int,
    ensures
        c as int == ucb_conf(node_sims as int, child_score as int, child_sims as int, rc as int),
{
    proof {
        assert(rc as int * child_sims as int <= 0x10_0000i64 * 0x80_0000_0000i64)
            by (nonlinear_arith)
            requires
                1 <= rc <= 0x10_0000u32,
                1 <= child_sims <= 0x80_0000_0000u64,
        ;
    }
    let shifted: i128 = child_score as i128 + (rc as i128) * (child_sims as i128);
    proof {
        vstd::arithmetic::div_mod::lemma_div_is_ordered(
            shifted as int * 0x10000,
            (2 * (rc as int * child_sims as int)) * 0x10000,
            child_sims as int,
        );
        assert((2 * (rc as int * child_sims as int)) * 0x10000 == (2 * rc as int * 0x10000) * (
        child_sims as int)) by (nonlinear_arith);
        vstd::arithmetic::div_mod::lemma_div_by_multiple(
            2 * rc as int * 0x10000,
            child_sims as int,
        );
        vstd::arithmetic::div_mod::lemma_div_pos_is_pos(
            shifted as int * 0x10000,
            child_sims as int,
        );
    }
    let avg: u128 = (shifted as u128) * 0x10000 / (child_sims as u128);
    let lg: u32 = log2_floor64(node_sims);
    let lf: u64 = 45426 * (lg as u64);
    proof {
        vstd::arithmetic::div_mod::lemma_div_is_ordered(
            lf as int * 0x10000,
            0xFFFF_FFFF_FFFF,
            child_sims as int,
        );
        vstd::arithmetic::div_mod::lemma_div_is_ordered_by_denominator(
            lf as int * 0x10000,
            1,
            child_sims as int,
        );
        vstd::arithmetic::div_mod::lemma_div_pos_is_pos(lf as int * 0x10000, child_sims as int);
    }
    let en: u64 = ((lf as u128) * 0x10000 / (child_sims as u128)) as u64;
    let sq: u64 = isqrt64(en);
    proof {
        lemma_sqrt_floor_bracket(en as nat);
        assert(sqrt_floor(en as nat) * sqrt_floor(en as nat) <= 0xFFFF_FFFF_FFFF);
        assert(sq as int <= 0x100_0000) by (nonlinear_arith)
            requires
                sq as int * sq as int <= 0xFFFF_FFFF_FFFFi64,
                sq >= 0,
        ;
    }
    let ex: u64 = 2 * sq;
    (avg as u64) + ex
}

/// An unexpanded, unvisited node matches any state and any budget.
proof fn lemma_fresh_node(n: Node)
    requires
        n.children_spec().len() == 0,
        n.score_spec() == 0,
        n.sims_spec() == 0,
    ensures
        forall|v: GameView| n.consistent(v),
        forall|rc: int| n.tree_wf(rc),
{
    assert forall|rc: int| n.tree_wf(rc) by {
        assert(rc * 0 == 0) by (nonlinear_arith);
    }
}

/// The index the selection step descends into: the child with the greatest
/// UCB1 confidence, where an unvisited child - or any child under an
/// unvisited parent - counts as infinitely confident.  This guarantees that
/// every child is visited once before any is revisited; among equals the
/// first-found child is kept.
fn select_child(children: &Vec<(Position, Node)>, node_sims: u64, rc: u32) -> (idx: usize)
    requires
        children@.len() > 0,
        1 <= rc <= RC_BOUND,
        node_sims <= SIM_BOUND,
        forall|i: int|
            0 <= i < children@.len() ==> {
                &&& -(rc as int * (#[trigger] children@[i]).1.sims_spec())
                    <= children@[i].1.score_spec()
                &&& children@[i].1.score_spec() <= rc as int * children@[i].1.sims_spec()
                &&& children@[i].1.sims_spec() <= node_sims as int
            },
    ensures
        idx < children@.len(),
        (exists|i: int|
            0 <= i < children@.len() && (#[trigger] children@[i]).1.sims_spec() == 0)
            ==> children@[idx as int].1.sims_spec() == 0,
        (node_sims > 0 && (forall|i: int|
            0 <= i < children@.len() ==> (#[trigger] children@[i]).1.sims_spec() > 0)) ==> (forall|
            i: int,
        |
            0 <= i < children@.len() ==> ucb_conf(
                node_sims as int,
                (#[trigger] children@[i]).1.score_spec(),
                children@[i].1.sims_spec(),
                rc as int,
            ) <= ucb_conf(
                node_sims as int,
                children@[idx as int].1.score_spec(),
                children@[idx as int].1.sims_spec(),
                rc as int,
            )),
{
    let mut best_idx: usize = 0;
    let mut best_conf: Option<u64> = if node_sims >= 1 && children[0].1.simulations >= 1 {
        Some(confidence(node_sims, children[0].1.score, children[0].1.simulations, rc))
    } else {
        None
    };
    let mut k: usize = 1;
    while k < children.len()
        invariant
            1 <= k <= children@.len(),
            best_idx < k,
            1 <= rc <= RC_BOUND,
            node_sims <= SIM_BOUND,
            forall|i: int|
                0 <= i < children@.len() ==> {
                    &&& -(rc as int * (#[trigger] children@[i]).1.sims_spec())
                        <= children@[i].1.score_spec()
                    &&& children@[i].1.score_spec() <= rc as int * children@[i].1.sims_spec()
                    &&& children@[i].1.sims_spec() <= node_sims as int
                },
            match best_conf {
                Some(b) => node_sims > 0 && children@[best_idx as int].1.sims_spec() > 0 && b as int
                    == ucb_conf(
                    node_sims as int,
                    children@[best_idx as int].1.score_spec(),
                    children@[best_idx as int].1.sims_spec(),
                    rc as int,
                ) && (forall|j: int|
                    0 <= j < k ==> (#[trigger] children@[j]).1.sims_spec() > 0 && ucb_conf(
                        node_sims as int,
                        children@[j].1.score_spec(),
                        children@[j].1.sims_spec(),
                        rc as int,
                    ) <= b as int),
                None => node_sims == 0 || children@[best_idx as int].1.sims_spec() == 0,
            },
        decreases children@.len() - k,
    {
        let cur: Option<u64> = if node_sims >= 1 && children[k].1.simulations >= 1 {
            Some(confidence(node_sims, children[k].1.score, children[k].1.simulations, rc))
        } else {
            None
        };
        let beats: bool = match best_conf {
            Some(b) => match cur {
                None => true,
                Some(c) => c > b,
            },
            None => false,
        };
        if beats {
            best_idx = k;
            best_conf = cur;
        }
        k = k + 1;
    }
    best_idx
}

/// One search iteration from `node`, whose implied game state is `game`:
/// descends by UCB1 selection to a frontier, evaluates it - from the stored
/// outcome at a terminal node, by one rollout batch on a node's first
/// visit, and on its second visit by expanding its children and pushing the
/// evaluation one move deeper - and backpropagates the result.  The
/// returned pair is the score and simulation count the parent should
/// absorb, the score already negated to the parent's perspective.
fn mcts_iteration(game: GameState, node: &mut Node, random_count: u32) -> (r: (i64, u64))
    requires
        game.inv(),
        old(node).consistent(game@),
        old(node).tree_wf(random_count as int),
        old(node).sims_spec() <= SIM_BOUND as int,
        1 <= random_count <= RC_BOUND,
    ensures
        final(node).tree_wf(random_count as int),
        final(node).consistent(game@),
        final(node).sims_spec() == old(node).sims_spec() + r.1 as int,
        final(node).score_spec() == old(node).score_spec() - r.0 as int,
        final(node).children_spec().len() >= old(node).children_spec().len(),
        r.1 == random_count,
        -(random_count as int * r.1 as int) <= r.0 as int,
        r.0 as int <= random_count as int * r.1 as int,
    decreases game@.empties.len(),
{
    let ghost v = game@;
    let rc = random_count;
    if node.has_children() {
        proof {
            assert(node.consistent(v));
            assert(v.state is Ongoing);
            assert forall|i: int| 0 <= i < node.children_spec().len() implies {
                &&& -(rc as int * (#[trigger] node.children_spec()[i]).1.sims_spec())
                    <= node.children_spec()[i].1.score_spec()
                &&& node.children_spec()[i].1.score_spec() <= rc as int
                    * node.children_spec()[i].1.sims_spec()
                &&& node.children_spec()[i].1.sims_spec() <= node.sims_spec()
            } by {
                assert(node.children_spec()[i].1.tree_wf(rc as int));
            }
        }
        let idx = select_child(&node.children, node.simulations, rc);
        let mv = node.children[idx].0;
        proof {
            let keys = node.children_spec().map_values(|c: (Position, Node)| c.0);
            assert(keys == constrained_moves(v));
            assert(keys[idx as int] == mv);
            assert(constrained_moves(v).contains(mv));
            lemma_move_from_list(v, mv);
        }
        let mut g = game;
        let placed = g.place(mv.0, mv.1);
        let ghost w = step(v, mv.0, mv.1);
        proof {
            assert(placed is Ok);
            assert(g@ == w);
            lemma_step_shrinks_empties(v, mv.0, mv.1);
            lemma_subtree_consistent(*node, v, idx as int);
        }
        let ghost node_before = *node;
        let child = &mut node.children[idx].1;
        let (s, n) = mcts_iteration(g, child, rc);
        proof {
            assert(node.children_spec() =~= node_before.children_spec().update(
                idx as int,
                (mv, node.children_spec()[idx as int].1),
            ));
            assert(rc as int * node.sims_spec() <= 0x10_0000i64 * 0x80_0000_0000i64)
                by (nonlinear_arith)
                requires
                    1 <= rc <= 0x10_0000u32,
                    0 <= node_before.sims_spec() <= 0x80_0000_0000i64,
                    node.sims_spec() == node_before.sims_spec(),
            ;
            assert(rc as int * n as int <= 0x10_0000i64 * 0x10_0000i64) by (nonlinear_arith)
                requires
                    1 <= rc <= 0x10_0000u32,
                    0 <= n <= rc,
            ;
        }
        node.score = node.score + s;
        node.simulations = node.simulations + n;
        proof {
            let fin = *node;
            assert(fin.score_spec() == node_before.score_spec() + s as int);
            assert(fin.sims_spec() == node_before.sims_spec() + n as int);
            assert(-(rc as int * fin.sims_spec()) <= fin.score_spec() <= rc as int
                * fin.sims_spec()) by (nonlinear_arith)
                requires
                    fin.score_spec() == node_before.score_spec() + s as int,
                    fin.sims_spec() == node_before.sims_spec() + n as int,
                    -(rc as int * node_before.sims_spec()) <= node_before.score_spec(),
                    node_before.score_spec() <= rc as int * node_before.sims_spec(),
                    -(rc as int * n as int) <= s as int <= rc as int * n as int,
            ;
            assert forall|i: int| 0 <= i < fin.children_spec().len() implies (#[trigger]
            fin.children_spec()[i]).1.tree_wf(rc as int) && fin.children_spec()[i].1.sims_spec()
                <= fin.sims_spec() by {
                if i == idx as int {
                } else {
                    assert(node_before.children_spec()[i].1.tree_wf(rc as int));
                }
            }
            assert(fin.tree_wf(rc as int));
            assert(fin.children_spec().map_values(|c: (Position, Node)| c.0)
                =~= node_before.children_spec().map_values(|c: (Position, Node)| c.0));
            assert forall|i: int| 0 <= i < fin.children_spec().len() implies (#[trigger]
            fin.children_spec()[i]).1.consistent(
                step(v, fin.children_spec()[i].0.0, fin.children_spec()[i].0.1),
            ) by {
                if i == idx as int {
                    assert(fin.children_spec()[i].0 == mv);
                } else {
                    assert(node_before.children_spec()[i].1.consistent(
                        step(v, node_before.children_spec()[i].0.0,
                        node_before.children_spec()[i].0.1),
                    ));
                }
            }
            assert(fin.consistent(v));
        }
        (-s, n)
    } else {
        match game.state() {
            BoardState::Concluded(result) => {
                let persp = game.turn().switch();
                let s1: i64 = result.sign_i32() as i64;
                let s2: i64 = persp.sign_i32() as i64;
                proof {
                    assert(-1 <= s1 as int * s2 as int <= 1) by (nonlinear_arith)
                        requires
                            -1 <= s1 <= 1,
                            -1 <= s2 <= 1,
                    ;
                }
                let sgn: i64 = s1 * s2;
                proof {
                    assert(-(rc as int) <= rc as int * sgn as int <= rc as int)
                        by (nonlinear_arith)
                        requires
                            -1 <= sgn <= 1,
                            0 <= rc,
                    ;
                }
                let delta: i64 = (rc as i64) * sgn;
                proof {
                    lemma_node_absorb(*node, rc as int, delta as int);
                }
                node.score = node.score + delta;
                node.simulations = node.simulations + (rc as u64);
                (-delta, rc as u64)
            },
            BoardState::Ongoing => {
                if node.simulations == 0 {
                    let result = crate::ai::random_games(rc, 10, &game);
                    let persp = game.turn().switch();
                    proof {
                        assert(crate::ai::batch_size(rc as int, 10) <= rc as int)
                            by (nonlinear_arith)
                            requires
                                rc >= 0,
                        ;
                    }
                    let diff: i32 = result.0 - result.1;
                    let s2: i64 = persp.sign_i32() as i64;
                    proof {
                        assert(-(rc as int) <= diff as int * s2 as int <= rc as int)
                            by (nonlinear_arith)
                            requires
                                -(rc as int) <= diff as int <= rc as int,
                                -1 <= s2 <= 1,
                                0 <= rc,
                        ;
                    }
                    let delta: i64 = (diff as i64) * s2;
                    proof {
                        lemma_node_absorb(*node, rc as int, delta as int);
                    }
                    node.score = node.score + delta;
                    node.simulations = node.simulations + (rc as u64);
                    (-delta, rc as u64)
                } else {
                    let ghost node_at_entry = *node;
                    let moves = game.get_possible_moves();
                    proof {
                        lemma_moves_nonempty(v);
                    }
                    let mut k: usize = 0;
                    while k < moves.len()
                        invariant
                            moves@ == constrained_moves(v),
                            k <= moves@.len(),
                            node.children_spec().len() == k,
                            node.score_spec() == node_at_entry.score_spec(),
                            node.sims_spec() == node_at_entry.sims_spec(),
                            forall|i: int|
                                0 <= i < k ==> (#[trigger] node.children_spec()[i]).0 == moves@[i]
                                    && node.children_spec()[i].1.children_spec().len() == 0
                                    && node.children_spec()[i].1.score_spec() == 0
                                    && node.children_spec()[i].1.sims_spec() == 0,
                        decreases moves@.len() - k,
                    {
                        node.children.push((moves[k], Node::new()));
                        k = k + 1;
                    }
                    let mv = node.children[0].0;
                    proof {
                        lemma_moves_nonempty(v);
                        assert(constrained_moves(v).contains(moves@[0]));
                        assert(mv == moves@[0]);
                        lemma_move_from_list(v, mv);
                    }
                    let mut g = game;
                    let placed = g.place(mv.0, mv.1);
                    let ghost w = step(v, mv.0, mv.1);
                    proof {
                        assert(placed is Ok);
                        assert(g@ == w);
                        lemma_step_shrinks_empties(v, mv.0, mv.1);
                        lemma_fresh_node(node.children_spec()[0].1);
                    }
                    let ghost node_before = *node;
                    let child = &mut node.children[0].1;
                    let (s, n) = mcts_iteration(g, child, rc);
                    proof {
                        assert(node.children_spec() =~= node_before.children_spec().update(
                            0,
                            (mv, node.children_spec()[0].1),
                        ));
                        assert(rc as int * node.sims_spec() <= 0x10_0000i64 * 0x80_0000_0000i64)
                            by (nonlinear_arith)
                            requires
                                1 <= rc <= 0x10_0000u32,
                                0 <= node_before.sims_spec() <= 0x80_0000_0000i64,
                                node.sims_spec() == node_before.sims_spec(),
                        ;
                        assert(rc as int * n as int <= 0x10_0000i64 * 0x10_0000i64)
                            by (nonlinear_arith)
                            requires
                                1 <= rc <= 0x10_0000u32,
                                0 <= n <= rc,
                        ;
                    }
                    node.score = node.score + s;
                    node.simulations = node.simulations + n;
                    proof {
                        let fin = *node;
                        assert(-(rc as int * fin.sims_spec()) <= fin.score_spec() <= rc as int
                            * fin.sims_spec()) by (nonlinear_arith)
                            requires
                                fin.score_spec() == node_before.score_spec() + s as int,
                                fin.sims_spec() == node_before.sims_spec() + n as int,
                                -(rc as int * node_before.sims_spec())
                                    <= node_before.score_spec(),
                                node_before.score_spec() <= rc as int
                                    * node_before.sims_spec(),
                                -(rc as int * n as int) <= s as int <= rc as int * n as int,
                        ;
                        assert forall|i: int| 0 <= i < fin.children_spec().len() implies
                            (#[trigger] fin.children_spec()[i]).1.tree_wf(rc as int)
                            && fin.children_spec()[i].1.sims_spec() <= fin.sims_spec() by {
                            if i == 0 {
                            } else {
                                lemma_fresh_node(fin.children_spec()[i].1);
                            }
                        }
                        assert(fin.tree_wf(rc as int));
                        assert(fin.children_spec().map_values(|c: (Position, Node)| c.0)
                            =~= moves@);
                        assert forall|i: int| 0 <= i < fin.children_spec().len() implies
                            (#[trigger] fin.children_spec()[i]).1.consistent(
                            step(v, fin.children_spec()[i].0.0, fin.children_spec()[i].0.1),
                        ) by {
                            if i == 0 {
                                assert(fin.children_spec()[i].0 == mv);
                            } else {
                                lemma_fresh_node(fin.children_spec()[i].1);
                            }
                        }
                        assert(fin.consistent(v));
                    }
                    (-s, n)
                }
            },
        }
    }
}

/// A leaf node stays well formed when it absorbs one evaluation: a score
/// within the rollout budget, counted over `rc` fresh simulations, keeps
/// the score within the budget times the visit count, with room to spare in
/// the machine integers.
proof fn lemma_node_absorb(node: Node, rc: int, delta: int)
    requires
        node.tree_wf(rc),
        1 <= rc <= RC_BOUND as int,
        node.sims_spec() <= SIM_BOUND as int,
        -rc <= delta <= rc,
    ensures
        -(0x10_0000i64 * 0x80_0000_0000i64) <= node.score_spec(),
        node.score_spec() <= 0x10_0000i64 * 0x80_0000_0000i64,
        -(rc * (node.sims_spec() + rc)) <= node.score_spec() + delta,
        node.score_spec() + delta <= rc * (node.sims_spec() + rc),
        -(rc * rc) <= delta <= rc * rc,
{
    let sc = node.score_spec();
    let si = node.sims_spec();
    assert((-(0x10_0000i64 * 0x80_0000_0000i64) <= sc <= 0x10_0000i64 * 0x80_0000_0000i64)
        && (-(rc * (si + rc)) <= sc + delta <= rc * (si + rc)) && (-(rc * rc) <= delta <= rc
        * rc)) by (nonlinear_arith)
        requires
            -(rc * si) <= sc <= rc * si,
            0 <= si <= 0x80_0000_0000i64,
            1 <= rc <= 0x10_0000i64,
            -rc <= delta <= rc,
    ;
}

// ---------------------------------------------------------------------------
// Wall-clock budget
// ---------------------------------------------------------------------------

#[verifier::external_type_specification]
#[verifier::external_body]
pub struct ExInstant(Instant);

/// Relies on std's `Instant::now`: an opaque timestamp of a monotonic
/// clock.  Nothing is promised of it: the value depends on when it runs.
#[verifier::external_body]
fn instant_now() -> (t: Instant) {
    Instant::now()
}

/// Relies on std's `Instant::elapsed`: the time since `start`.  Nothing is
/// promised of it: the value depends on the clock.
#[verifier::external_body]
fn elapsed_of(start: &Instant) -> (d: Duration) {
    start.elapsed()
}

/// Relies on std's ordering of `Duration`: whether `a` is longer than `b`.
/// `Duration` is opaque here, so nothing is promised of the answer.
#[verifier::external_body]
fn duration_gt(a: &Duration, b: &Duration) -> (r: bool) {
    *a > *b
}

// ---------------------------------------------------------------------------
// The search
// ---------------------------------------------------------------------------

/// The average score of `a` is at most that of `b`, compared exactly by
/// cross-multiplication; meaningful when both nodes have simulations.
pub open spec fn avg_le(a: Node, b: Node) -> bool {
    a.score_spec() * b.sims_spec() <= b.score_spec() * a.sims_spec()
}

/// The exact average comparison is transitive over visited nodes.
proof fn lemma_avg_le_trans(a_s: int, a_n: int, b_s: int, b_n: int, c_s: int, c_n: int)
    requires
        a_n > 0,
        b_n > 0,
        c_n > 0,
        a_s * b_n <= b_s * a_n,
        b_s * c_n <= c_s * b_n,
    ensures
        a_s * c_n <= c_s * a_n,
{
    assert(a_s * c_n <= c_s * a_n) by (nonlinear_arith)
        requires
            a_n > 0,
            b_n > 0,
            c_n > 0,
            a_s * b_n <= b_s * a_n,
            b_s * c_n <= c_s * b_n,
    ;
}

/// Monte Carlo tree search: expands the root if it is fresh, runs search
/// iterations until the thinking budget is spent (or the tree has hit its
/// growth cap), and returns the move of the root child with the greatest
/// average score.  Among equal averages the first-found child is kept, and
/// a never-visited first child is sticky, as an unvisited average compares
/// as no better and no worse than anything.  The tree keeps its statistics
/// and can be reused across turns through `Node::take_move`.
pub fn mcts(
    starting_board: &GameState,
    random_count: u32,
    thinking_time: Duration,
    root: &mut Node,
) -> (r: Position)
    requires
        starting_board.inv(),
        starting_board@.state is Ongoing,
        old(root).consistent(starting_board@),
        old(root).tree_wf(random_count as int),
        old(root).sims_spec() <= SIM_BOUND as int,
        1 <= random_count <= RC_BOUND,
    ensures
        final(root).consistent(starting_board@),
        final(root).tree_wf(random_count as int),
        final(root).sims_spec() <= SIM_BOUND as int,
        final(root).sims_spec() >= old(root).sims_spec(),
        final(root).children_spec().len() > 0,
        exists|i: int|
            0 <= i < final(root).children_spec().len()
                && (#[trigger] final(root).children_spec()[i]).0 == r,
        constrained_moves(starting_board@).contains(r),
        move_ok(starting_board@, r.0, r.1),
        (forall|i: int|
            0 <= i < final(root).children_spec().len()
                ==> (#[trigger] final(root).children_spec()[i]).1.sims_spec() > 0)
            ==> (exists|i: int|
            0 <= i < final(root).children_spec().len()
                && (#[trigger] final(root).children_spec()[i]).0 == r && (forall|j: int|
                0 <= j < final(root).children_spec().len() ==> avg_le(
                    #[trigger] final(root).children_spec()[j].1,
                    final(root).children_spec()[i].1,
                ))),
{
    let ghost v = starting_board@;
    let rc = random_count;
    let start = instant_now();
    let ghost entry_root = *root;
    if !root.has_children() {
        let moves = starting_board.get_possible_moves();
        proof {
            lemma_moves_nonempty(v);
        }
        let mut k: usize = 0;
        while k < moves.len()
            invariant
                moves@ == constrained_moves(v),
                k <= moves@.len(),
                root.children_spec().len() == k,
                root.score_spec() == entry_root.score_spec(),
                root.sims_spec() == entry_root.sims_spec(),
                forall|i: int|
                    0 <= i < k ==> (#[trigger] root.children_spec()[i]).0 == moves@[i]
                        && root.children_spec()[i].1.children_spec().len() == 0
                        && root.children_spec()[i].1.score_spec() == 0
                        && root.children_spec()[i].1.sims_spec() == 0,
            decreases moves@.len() - k,
        {
            root.children.push((moves[k], Node::new()));
            k = k + 1;
        }
        proof {
            lemma_moves_nonempty(v);
            assert(root.children_spec().map_values(|c: (Position, Node)| c.0) =~= moves@);
            assert forall|i: int| 0 <= i < root.children_spec().len() implies (#[trigger]
            root.children_spec()[i]).1.tree_wf(rc as int) && root.children_spec()[i].1.sims_spec()
                <= root.sims_spec() && root.children_spec()[i].1.consistent(
                step(v, root.children_spec()[i].0.0, root.children_spec()[i].0.1),
            ) by {
                lemma_fresh_node(root.children_spec()[i].1);
            }
            assert(root.tree_wf(rc as int));
            assert(root.consistent(v));
        }
    }
    proof {
        assert(root.children_spec().len() > 0) by {
            if entry_root.children_spec().len() > 0 {
            }
        }
    }
    loop
        invariant
            starting_board.inv(),
            starting_board@ == v,
            v.state is Ongoing,
            1 <= rc <= RC_BOUND,
            root.consistent(v),
            root.tree_wf(rc as int),
            root.sims_spec() <= SIM_BOUND as int,
            root.sims_spec() >= old(root).sims_spec(),
            root.children_spec().len() > 0,
        decreases SIM_STOP + RC_BOUND - root.simulations,
    {
        if root.simulations >= SIM_STOP {
            break ;
        }
        let g = starting_board.clone();
        let (_s, _n) = mcts_iteration(g, root, rc);
        let e = elapsed_of(&start);
        if duration_gt(&e, &thinking_time) {
            break ;
        }
    }
    let ghost fin = *root;
    let mut best_idx: usize = 0;
    let mut k: usize = 1;
    while k < root.children.len()
        invariant
            *root == fin,
            root.tree_wf(rc as int),
            1 <= rc <= RC_BOUND,
            root.sims_spec() <= SIM_BOUND as int,
            root.children_spec().len() > 0,
            1 <= k <= root.children_spec().len(),
            best_idx < k,
            root.children_spec()[best_idx as int].1.sims_spec() == 0 ==> best_idx == 0
                && root.children_spec()[0].1.sims_spec() == 0,
            root.children_spec()[best_idx as int].1.sims_spec() > 0 ==> (forall|j: int|
                0 <= j < k ==> ((#[trigger] root.children_spec()[j]).1.sims_spec() > 0
                    ==> avg_le(
                    root.children_spec()[j].1,
                    root.children_spec()[best_idx as int].1,
                ))),
        decreases root.children_spec().len() - k,
    {
        proof {
            assert(root.children_spec()[best_idx as int].1.tree_wf(rc as int));
            assert(root.children_spec()[k as int].1.tree_wf(rc as int));
            let bs = root.children_spec()[best_idx as int].1.score_spec();
            let bn = root.children_spec()[best_idx as int].1.sims_spec();
            let cs = root.children_spec()[k as int].1.score_spec();
            let cn = root.children_spec()[k as int].1.sims_spec();
            assert(bs * cn <= 0x10_0000i128 * 0x80_0000_0000i128 * 0x80_0000_0000i128 && -(
            0x10_0000i128 * 0x80_0000_0000i128 * 0x80_0000_0000i128) <= bs * cn && cs * bn
                <= 0x10_0000i128 * 0x80_0000_0000i128 * 0x80_0000_0000i128 && -(0x10_0000i128
                * 0x80_0000_0000i128 * 0x80_0000_0000i128) <= cs * bn) by (nonlinear_arith)
                requires
                    -(rc as int * bn) <= bs <= rc as int * bn,
                    -(rc as int * cn) <= cs <= rc as int * cn,
                    0 <= bn <= root.sims_spec(),
                    0 <= cn <= root.sims_spec(),
                    0 <= root.sims_spec() <= 0x80_0000_0000i128,
                    1 <= rc <= 0x10_0000u32,
            ;
        }
        let b_sims = root.children[best_idx].1.simulations;
        let c_sims = root.children[k].1.simulations;
        let better = b_sims > 0 && c_sims > 0 && (root.children[best_idx].1.score as i128) * (
        c_sims as i128) < (root.children[k].1.score as i128) * (b_sims as i128);
        if better {
            proof {
                let bs = root.children_spec()[best_idx as int].1.score_spec();
                let bn = root.children_spec()[best_idx as int].1.sims_spec();
                let cs = root.children_spec()[k as int].1.score_spec();
                let cn = root.children_spec()[k as int].1.sims_spec();
                assert forall|j: int|
                    0 <= j < k + 1 && (#[trigger] root.children_spec()[j]).1.sims_spec()
                        > 0 implies avg_le(
                    root.children_spec()[j].1,
                    root.children_spec()[k as int].1,
                ) by {
                    if j < k {
                        lemma_avg_le_trans(
                            root.children_spec()[j].1.score_spec(),
                            root.children_spec()[j].1.sims_spec(),
                            bs,
                            bn,
                            cs,
                            cn,
                        );
                    }
                }
            }
            best_idx = k;
        }
        k = k + 1;
    }
    let chosen = root.children[best_idx].0;
    proof {
        let keys = root.children_spec().map_values(|c: (Position, Node)| c.0);
        assert(keys == constrained_moves(v));
        assert(keys[best_idx as int] == chosen);
        assert(constrained_moves(v).contains(chosen));
        lemma_move_from_list(v, chosen);
        if forall|i: int|
            0 <= i < root.children_spec().len()
                ==> (#[trigger] root.children_spec()[i]).1.sims_spec() > 0 {
            assert(root.children_spec()[best_idx as int].1.sims_spec() > 0);
        }
    }
    chosen
}

} // verus!
