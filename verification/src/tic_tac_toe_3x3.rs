//! An agent that searches the whole game tree with plain minimax.
use vstd::prelude::*;
use crate::board::{
    game_over_of, is_open, lemma_moves_open, lemma_place_fills_one, lemma_sum_bounds,
    lemma_undo_after_apply, moves_of, num_empty, place, score_of, triplet_at, triplet_count,
    triplets_from, triplets_in_row, wf_grid, Board, Cell, Move, Player, MAX_SIDE,
};

verus! {

/// Bound on the absolute value of every score on a well-formed board.
pub open spec fn score_bound() -> int {
    4 * (MAX_SIDE as int) * (MAX_SIDE as int)
}

/// The board after `p` plays `m`.
pub open spec fn child(g: Seq<Seq<Cell>>, m: Move, p: Player) -> Seq<Seq<Cell>> {
    place(g, m, p.piece())
}

/// The score seen from the side of `viewer`.
pub open spec fn perspective(g: Seq<Seq<Cell>>, viewer: Player) -> int {
    if viewer == Player::X {
        score_of(g)
    } else {
        -score_of(g)
    }
}

/// The value of the position for `viewer` when `current` is to move, both
/// sides playing perfectly, together with the first move (in row-major order)
/// that reaches it. `maximizing` tells whether `current` is `viewer`.
/// `fuel` bounds the depth of the tree; it never runs out when it is the
/// number of empty cells.
pub open spec fn minimax3(
    g: Seq<Seq<Cell>>,
    current: Player,
    viewer: Player,
    maximizing: bool,
    fuel: nat,
) -> (int, Option<Move>)
    decreases fuel, 1nat, 0nat,
{
    if game_over_of(g) {
        (perspective(g, viewer), None)
    } else if fuel == 0 {
        (0, None)
    } else {
        best3(g, current, viewer, maximizing, fuel, moves_of(g).len())
    }
}

/// The best of the first `k` legal moves of `g`: the highest value for the
/// maximizing side, the lowest for the other, the earliest move on ties.
pub open spec fn best3(
    g: Seq<Seq<Cell>>,
    current: Player,
    viewer: Player,
    maximizing: bool,
    fuel: nat,
    k: nat,
) -> (int, Option<Move>)
    decreases fuel, 0nat, k,
{
    if k == 0 || fuel == 0 {
        (
            if maximizing {
                i32::MIN as int
            } else {
                i32::MAX as int
            },
            None,
        )
    } else {
        let prev = best3(g, current, viewer, maximizing, fuel, (k - 1) as nat);
        let m = moves_of(g)[k - 1];
        let s = minimax3(
            child(g, m, current),
            current.opponent(),
            viewer,
            !maximizing,
            (fuel - 1) as nat,
        ).0;
        if (maximizing && s > prev.0) || (!maximizing && s < prev.0) {
            (s, Some(m))
        } else {
            prev
        }
    }
}

/// The number of lines of one piece lies in `[0, 4 n^2]`.
pub proof fn lemma_triplet_count_bounds(g: Seq<Seq<Cell>>, c: Cell)
    requires
        wf_grid(g),
    ensures
        0 <= triplet_count(g, c) <= 4 * g.len() * g.len(),
{
    let n = g.len() as int;
    assert forall|i: int| 0 <= i < n implies 0 <= #[trigger] triplets_in_row(g, c, i) <= 4 * n by {
        assert forall|j: int| 0 <= j < n implies 0 <= #[trigger] triplets_from(g, c, i, j) <= 4 by {
            lemma_sum_bounds(4, |d: int| triplet_at(g, c, i, j, d), 0, 1);
        }
        lemma_sum_bounds(n, |j: int| triplets_from(g, c, i, j), 0, 4);
    }
    lemma_sum_bounds(n, |i: int| triplets_in_row(g, c, i), 0, 4 * n);
    assert(n * (4 * n) == 4 * n * n) by (nonlinear_arith);
}

/// Every score lies within `score_bound()`.
pub proof fn lemma_score_bounds(g: Seq<Seq<Cell>>)
    requires
        wf_grid(g),
    ensures
        -score_bound() <= score_of(g) <= score_bound(),
        0 <= triplet_count(g, Cell::X) <= score_bound(),
        0 <= triplet_count(g, Cell::O) <= score_bound(),
{
    lemma_triplet_count_bounds(g, Cell::X);
    lemma_triplet_count_bounds(g, Cell::O);
    let n = g.len() as int;
    assert(4 * n * n <= score_bound()) by (nonlinear_arith)
        requires
            0 <= n <= MAX_SIDE,
    ;
}

/// Minimax values lie within `score_bound()`; off a finished board, the
/// search names a legal move whose value is the result.
pub proof fn lemma_minimax3_facts(
    g: Seq<Seq<Cell>>,
    current: Player,
    viewer: Player,
    maximizing: bool,
    fuel: nat,
)
    requires
        wf_grid(g),
    ensures
        -score_bound() <= minimax3(g, current, viewer, maximizing, fuel).0 <= score_bound(),
        !game_over_of(g) && fuel > 0 ==> match minimax3(
            g,
            current,
            viewer,
            maximizing,
            fuel,
        ).1 {
            Some(m) => moves_of(g).contains(m) && minimax3(
                child(g, m, current),
                current.opponent(),
                viewer,
                !maximizing,
                (fuel - 1) as nat,
            ).0 == minimax3(g, current, viewer, maximizing, fuel).0,
            None => false,
        },
    decreases fuel, 1nat, 0nat,
{
    if game_over_of(g) {
        lemma_score_bounds(g);
    } else if fuel > 0 {
        lemma_best3_facts(g, current, viewer, maximizing, fuel, moves_of(g).len());
    }
}

/// `best3` over at least one move picks one of them and stays within
/// `score_bound()`.
pub proof fn lemma_best3_facts(
    g: Seq<Seq<Cell>>,
    current: Player,
    viewer: Player,
    maximizing: bool,
    fuel: nat,
    k: nat,
)
    requires
        wf_grid(g),
        fuel > 0,
        1 <= k <= moves_of(g).len(),
    ensures
        -score_bound() <= best3(g, current, viewer, maximizing, fuel, k).0 <= score_bound(),
        match best3(g, current, viewer, maximizing, fuel, k).1 {
            Some(m) => moves_of(g).contains(m) && minimax3(
                child(g, m, current),
                current.opponent(),
                viewer,
                !maximizing,
                (fuel - 1) as nat,
            ).0 == best3(g, current, viewer, maximizing, fuel, k).0,
            None => false,
        },
    decreases fuel, 0nat, k,
{
    let m = moves_of(g)[k - 1];
    lemma_moves_open(g);
    assert(is_open(g, m));
    lemma_place_fills_one(g, m, current.piece());
    lemma_minimax3_facts(
        child(g, m, current),
        current.opponent(),
        viewer,
        !maximizing,
        (fuel - 1) as nat,
    );
    assert(moves_of(g).contains(m)) by {
        assert(moves_of(g)[k - 1] == m);
    }
    if k > 1 {
        lemma_best3_facts(g, current, viewer, maximizing, fuel, (k - 1) as nat);
    }
}

/// Every legal move gives its side no more (when maximizing) or no less (when
/// minimizing) than the value `best3` returns.
pub proof fn lemma_best3_bounds_children(
    g: Seq<Seq<Cell>>,
    current: Player,
    viewer: Player,
    maximizing: bool,
    fuel: nat,
    k: nat,
)
    requires
        wf_grid(g),
        fuel > 0,
        k <= moves_of(g).len(),
    ensures
        forall|t: int|
            #![trigger moves_of(g)[t]]
            0 <= t < k ==> {
                let s = minimax3(
                    child(g, moves_of(g)[t], current),
                    current.opponent(),
                    viewer,
                    !maximizing,
                    (fuel - 1) as nat,
                ).0;
                let b = best3(g, current, viewer, maximizing, fuel, k).0;
                if maximizing {
                    s <= b
                } else {
                    b <= s
                }
            },
    decreases k,
{
    if k > 0 {
        lemma_best3_bounds_children(g, current, viewer, maximizing, fuel, (k - 1) as nat);
    }
}

/// Law: the value of a position that is not finished is the best value among
/// the positions its legal moves lead to, and some legal move reaches it.
pub proof fn lemma_minimax3_is_optimal(
    g: Seq<Seq<Cell>>,
    current: Player,
    viewer: Player,
    maximizing: bool,
)
    requires
        wf_grid(g),
        !game_over_of(g),
    ensures
        ({
            let fuel = num_empty(g) as nat;
            let v = minimax3(g, current, viewer, maximizing, fuel).0;
            &&& forall|m: Move|
                #![trigger moves_of(g).contains(m)]
                moves_of(g).contains(m) ==> {
                    let s = minimax3(
                        child(g, m, current),
                        current.opponent(),
                        viewer,
                        !maximizing,
                        (fuel - 1) as nat,
                    ).0;
                    if maximizing {
                        s <= v
                    } else {
                        v <= s
                    }
                }
            &&& exists|m: Move|
                #![trigger moves_of(g).contains(m)]
                moves_of(g).contains(m) && minimax3(
                    child(g, m, current),
                    current.opponent(),
                    viewer,
                    !maximizing,
                    (fuel - 1) as nat,
                ).0 == v
        }),
{
    let fuel = num_empty(g) as nat;
    lemma_minimax3_facts(g, current, viewer, maximizing, fuel);
    lemma_best3_bounds_children(g, current, viewer, maximizing, fuel, moves_of(g).len());
    let mv = minimax3(g, current, viewer, maximizing, fuel).1;
    assert(mv is Some);
}

/// Plain minimax over the whole remaining game.
pub fn minimax(board: &mut Board, current: Player, viewer: Player, is_maximizing: bool) -> (r: (
    i32,
    Option<Move>,
))
    requires
        old(board).wf(),
    ensures
        final(board)@ == old(board)@,
        r.0 as int == minimax3(
            old(board)@,
            current,
            viewer,
            is_maximizing,
            num_empty(old(board)@) as nat,
        ).0,
        r.1 == minimax3(
            old(board)@,
            current,
            viewer,
            is_maximizing,
            num_empty(old(board)@) as nat,
        ).1,
    decreases num_empty(old(board)@),
{
    let ghost g = board@;
    let ghost fuel = num_empty(g) as nat;
    proof {
        lemma_minimax3_facts(g, current, viewer, is_maximizing, fuel);
    }
    if board.game_over() {
        let score = board.score();
        proof {
            lemma_score_bounds(g);
        }
        let perspective = if viewer == Player::X {
            score
        } else {
            -score
        };
        return (perspective, None);
    }
    let moves = board.moves();
    if moves.len() == 0 {
        return (0, None);
    }
    proof {
        lemma_moves_open(g);
    }
    let mut best_move: Option<Move> = None;
    let mut best_score: i32 = if is_maximizing {
        i32::MIN
    } else {
        i32::MAX
    };
    let n = moves.len();
    let mut idx: usize = 0;
    while idx < n
        invariant
            board.wf(),
            board@ == g,
            old(board)@ == g,
            wf_grid(g),
            moves@ == moves_of(g),
            n == moves@.len(),
            idx <= n,
            fuel == num_empty(g),
            fuel > 0,
            forall|k: int| 0 <= k < n ==> is_open(g, #[trigger] moves@[k]),
            best_score as int == best3(g, current, viewer, is_maximizing, fuel, idx as nat).0,
            best_move == best3(g, current, viewer, is_maximizing, fuel, idx as nat).1,
        decreases n - idx,
    {
        let m = moves[idx];
        assert(is_open(g, m));
        proof {
            lemma_place_fills_one(g, m, current.piece());
            lemma_undo_after_apply(g, m, current);
            lemma_minimax3_facts(
                child(g, m, current),
                current.opponent(),
                viewer,
                !is_maximizing,
                (fuel - 1) as nat,
            );
        }
        board.apply_move(m, current);
        let (score, _) = minimax(board, current.flip(), viewer, !is_maximizing);
        board.undo_move(m, current);
        if is_maximizing {
            if score > best_score {
                best_score = score;
                best_move = Some(m);
            }
        } else {
            if score < best_score {
                best_score = score;
                best_move = Some(m);
            }
        }
        idx = idx + 1;
    }
    (best_score, best_move)
}

/// The agent that searches the whole game tree.
pub struct SolutionAgent {}

impl SolutionAgent {
    /// Returns `(score, row, column)`: the value of the game for `player`,
    /// both sides playing perfectly, and the first move in row-major order
    /// that reaches it (`(0, 0)` when the game is already over). The board is
    /// left as it was; the time limit is not used.
    pub fn solve(board: &mut Board, player: Player, _time_limit: u64) -> (r: (i32, usize, usize))
        requires
            old(board).wf(),
        ensures
            final(board)@ == old(board)@,
            ({
                let (v, mv) = minimax3(
                    old(board)@,
                    player,
                    player,
                    true,
                    num_empty(old(board)@) as nat,
                );
                &&& r.0 as int == v
                &&& match mv {
                    Some(m) => r.1 == m.0 && r.2 == m.1,
                    None => r.1 == 0 && r.2 == 0,
                }
            }),
            !game_over_of(old(board)@) ==> is_open(old(board)@, (r.1, r.2)),
    {
        let ghost g = board@;
        proof {
            lemma_minimax3_facts(g, player, player, true, num_empty(g) as nat);
            lemma_moves_open(g);
        }
        let (score, best_move) = minimax(board, player, player, true);
        proof {
            if !game_over_of(g) {
                let m = best_move->0;
                let k = choose|k: int| 0 <= k < moves_of(g).len() && moves_of(g)[k] == m;
                assert(is_open(g, moves_of(g)[k]));
            }
        }
        match best_move {
            Some((row, col)) => (score, row, col),
            None => (score, 0, 0),
        }
    }
}

/// Law: the game is zero-sum. The value for `O` of a position is the
/// negation of its value for `X` (with the roles of the maximizing and the
/// minimizing side swapped), and both searches pick the same move.
pub proof fn lemma_zero_sum(g: Seq<Seq<Cell>>, current: Player, maximizing: bool, fuel: nat)
    requires
        wf_grid(g),
    ensures
        minimax3(g, current, Player::O, maximizing, fuel).0 == -minimax3(
            g,
            current,
            Player::X,
            !maximizing,
            fuel,
        ).0,
        minimax3(g, current, Player::O, maximizing, fuel).1 == minimax3(
            g,
            current,
            Player::X,
            !maximizing,
            fuel,
        ).1,
    decreases fuel, 1nat, 0nat,
{
    if !game_over_of(g) && fuel > 0 {
        lemma_zero_sum_best(g, current, maximizing, fuel, moves_of(g).len());
    }
}

proof fn lemma_zero_sum_best(
    g: Seq<Seq<Cell>>,
    current: Player,
    maximizing: bool,
    fuel: nat,
    k: nat,
)
    requires
        wf_grid(g),
        fuel > 0,
        1 <= k <= moves_of(g).len(),
    ensures
        best3(g, current, Player::O, maximizing, fuel, k).0 == -best3(
            g,
            current,
            Player::X,
            !maximizing,
            fuel,
            k,
        ).0,
        best3(g, current, Player::O, maximizing, fuel, k).1 == best3(
            g,
            current,
            Player::X,
            !maximizing,
            fuel,
            k,
        ).1,
    decreases fuel, 0nat, k,
{
    let m = moves_of(g)[k - 1];
    lemma_moves_open(g);
    assert(is_open(g, m));
    lemma_place_fills_one(g, m, current.piece());
    let h = child(g, m, current);
    lemma_zero_sum(h, current.opponent(), !maximizing, (fuel - 1) as nat);
    lemma_minimax3_facts(h, current.opponent(), Player::X, maximizing, (fuel - 1) as nat);
    let so = minimax3(h, current.opponent(), Player::O, !maximizing, (fuel - 1) as nat).0;
    let sx = minimax3(h, current.opponent(), Player::X, maximizing, (fuel - 1) as nat).0;
    assert(so == -sx);
    if k > 1 {
        lemma_zero_sum_best(g, current, maximizing, fuel, (k - 1) as nat);
    } else {
        let po = best3(g, current, Player::O, maximizing, fuel, 0);
        let px = best3(g, current, Player::X, !maximizing, fuel, 0);
        assert(po.0 == if maximizing {
            i32::MIN as int
        } else {
            i32::MAX as int
        });
        assert(px.0 == if !maximizing {
            i32::MIN as int
        } else {
            i32::MAX as int
        });
        assert(po.1 == px.1);
    }
}

} // verus!
