//! An automatic player for the sliding-tile puzzle 2048.
//!
//! The board engine packs every row of four tiles into sixteen bits and moves
//! tiles by shifting rows; the search picks moves by expectimax over the
//! tiles that chance may add.
use vstd::prelude::*;

pub mod ai;
pub mod game;
mod random;

use ai::best_move;
use ai::expectimax_sum_move;
use ai::expectimax_weight_move;
use ai::rand_move;
use ai::smart_depth;
use ai::SumTiles;
use ai::WeightedTiles;
use game::lemma_legal_moves;
use game::max_upto;
use game::row::empty_positions;
use game::spawned;
use game::Game;
use game::Move;
use game::State;
use random::entropy_rng;
use vstd::arithmetic::power2::pow2;

verus! {

/// How deep the search goes.
#[derive(Clone, Copy, Debug, PartialEq, Eq, Structural)]
pub enum Depth {
    /// As deep as [`ai::smart_depth`] says for the board at hand.
    Smart,
    /// Always to this depth.
    Fixed(u32),
}

/// The way in which the player picks its moves.
#[derive(Clone, Copy, Debug, PartialEq, Eq, Structural)]
pub enum Algorithm {
    /// Expectimax search that scores boards by the sum of their tiles.
    ExpectimaxSum(Depth),
    /// Expectimax search that scores boards by the weights of their cells.
    ExpectimaxWeight(Depth),
    /// A legal move picked by chance.
    Random,
}

/// A player and the tile it plays for.
#[derive(Clone, Copy, Debug)]
pub struct Config {
    /// The way in which the moves are picked.
    pub algorithm: Algorithm,
    /// The value of the tile that wins the game, if there is one.
    pub target_score: Option<u32>,
}

/// The depth that `d` stands for on the board `s`.
pub open spec fn depth_on(d: Depth, s: State) -> u32 {
    match d {
        Depth::Smart => if empty_positions(s.cells()).len() < 5 {
            3
        } else {
            2
        },
        Depth::Fixed(d) => d,
    }
}

/// The value of the highest tile of the board `s`.
pub open spec fn highest(s: State) -> nat {
    pow2(max_upto(s.cells(), 16) as nat)
}

impl Config {
    /// The depth that `d` stands for on the board `s`.
    pub fn choose_depth(d: Depth, s: &State) -> (depth: u32)
        ensures
            depth == depth_on(d, *s),
    {
        match d {
            Depth::Smart => smart_depth(s),
            Depth::Fixed(d) => d,
        }
    }

    /// The player's move from `s` and the board it leads to; `None` where
    /// `s` has no legal move, which ends the game.
    pub fn next_move(&self, s: &State) -> (r: Option<(Move, State)>)
        ensures
            r is None <==> s.legal().len() == 0,
            r matches Some(mv) ==> s.legal().contains(mv),
            self.algorithm matches Algorithm::ExpectimaxSum(d) ==> r == best_move(
                &SumTiles,
                *s,
                depth_on(d, *s) as nat,
            ),
            self.algorithm matches Algorithm::ExpectimaxWeight(d) ==> r == best_move(
                &WeightedTiles,
                *s,
                depth_on(d, *s) as nat,
            ),
    {
        match self.algorithm {
            Algorithm::ExpectimaxSum(d) => expectimax_sum_move(s, Self::choose_depth(d, s)),
            Algorithm::ExpectimaxWeight(d) => expectimax_weight_move(s, Self::choose_depth(d, s)),
            Algorithm::Random => {
                let mut rng = entropy_rng();
                rand_move(s, &mut rng)
            },
        }
    }

    /// Play one turn of `g`: make the player's move and let a new tile
    /// follow it. Returns whether there was a move to make; where there was
    /// none the game is over and stays as it is.
    pub fn play_turn(&self, g: &mut Game) -> (played: bool)
        requires
            old(g).move_count() < u32::MAX,
        ensures
            played <==> old(g).board().legal().len() > 0,
            !played ==> final(g).board() == old(g).board() && final(g).move_count() == old(
                g,
            ).move_count(),
            played ==> final(g).move_count() == old(g).move_count() + 1 && exists|k: int|
                0 <= k < old(g).board().legal().len() && spawned(
                    (#[trigger] old(g).board().legal()[k]).1.cells(),
                    final(g).board().cells(),
                ),
    {
        let s = *g.state();
        match self.next_move(&s) {
            Some((m, t)) => {
                proof {
                    lemma_legal_moves(s);
                    let k = choose|k: int| 0 <= k < s.legal().len() && s.legal()[k] == (m, t);
                    assert(s.legal()[k].1 == t);
                }
                g.next_state(t);
                true
            },
            None => false,
        }
    }

    /// Whether the highest tile of `g` has the value that the player plays
    /// for.
    pub fn reached_target(&self, g: &Game) -> (r: bool)
        ensures
            r <==> (self.target_score matches Some(target) && highest(g.board()) == target),
    {
        match self.target_score {
            Some(target) => g.state().highest_tile() == target,
            None => false,
        }
    }

    /// Whether the game `g` is won: its highest tile has at least the value
    /// that the player plays for, or there is no such value.
    pub fn won(&self, g: &Game) -> (r: bool)
        ensures
            r <==> (self.target_score matches Some(target) ==> highest(g.board()) >= target),
    {
        match self.target_score {
            Some(target) => g.state().highest_tile() >= target,
            None => true,
        }
    }
}

} // verus!
