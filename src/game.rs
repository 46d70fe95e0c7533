use vstd::prelude::*;
use rand::rngs::{OsRng, StdRng};
use rand::SeedableRng;
use crate::board::Board;
use crate::generator::{BoardGenerator, BoardGeneratorError};

verus! {

/// Relies on rand's `SeedableRng::from_rng` with `OsRng`: a generator seeded
/// from the operating system, or `None` where the system gives no entropy.
/// Nothing is known of the seed.
#[verifier::external_body]
fn fresh_rng() -> Option<StdRng> {
    StdRng::from_rng(OsRng).ok()
}

/// A generated puzzle: the clue board handed to the player and its solution.
pub struct Game {
    pub history: Vec<Board>,
    pub current: Board,
    pub solved: Board,
}

/// Why no puzzle was generated.
pub enum GameError {
    /// Every attempt ran out of cells that could be emptied.
    TriesExceeded,
    /// A failure that retrying does not mend.
    BoardGeneratorError(BoardGeneratorError),
    /// The operating system gave no entropy to seed the random source.
    RandomSourceUnavailable,
}

impl Game {
    /// What one generation attempt means for the retry loop: the game, a
    /// failure that ends the loop, or `None` to try again with a fresh board.
    pub fn from_attempt(attempt: Result<(Board, Board), BoardGeneratorError>) -> (r: Option<Result<Game, GameError>>)
        ensures
            attempt matches Ok((solved, clue)) ==> (r matches Some(Ok(g)) && g.solved == solved && g.current == clue
                && g.history@.len() == 0),
            attempt matches Err(e) ==> (if e is NoDeletionsAvailable {
                r is None
            } else {
                r == Some(Err::<Game, GameError>(GameError::BoardGeneratorError(e)))
            }),
    {
        match attempt {
            Ok((solved, emptied)) => Some(Ok(Game { history: Vec::new(), current: emptied, solved })),
            Err(BoardGeneratorError::NoDeletionsAvailable(_)) => None,
            Err(err) => Some(Err(GameError::BoardGeneratorError(err))),
        }
    }

    /// Generates a puzzle with exactly `desired_cells_given` digits, trying at
    /// most `max_tries` solved boards, all drawn from `generator`.
    pub fn new_with_generator(generator: &mut BoardGenerator, max_tries: usize, desired_cells_given: usize) -> (r:
        Result<Game, GameError>)
        ensures
            r matches Ok(g) ==> g.solved.wf() && g.solved.complete() && g.solved.valid() && g.current.wf()
                && g.current.filled_count() == desired_cells_given && g.current.extended_by(g.solved)
                && g.current.solved_only_by(g.solved) && g.history@.len() == 0,
            desired_cells_given == 81 ==> (r matches Ok(g) ==> g.current == g.solved),
            r matches Err(e) ==> e is TriesExceeded,
            max_tries == 0 ==> r is Err,
            max_tries >= 1 && desired_cells_given == 81 ==> r is Ok,
    {
        let mut i: usize = 0;
        while i < max_tries
            invariant
                i <= max_tries,
                desired_cells_given == 81 ==> i == 0,
            decreases max_tries - i,
        {
            let attempt = generator.new_board(desired_cells_given);
            match Game::from_attempt(attempt) {
                Some(outcome) => {
                    return outcome;
                },
                None => {},
            }
            i = i + 1;
        }
        Err(GameError::TriesExceeded)
    }

    /// Generates a puzzle with exactly `desired_cells_given` digits, trying at
    /// most `max_tries` solved boards, drawn from a generator seeded by the
    /// operating system.
    pub fn new_random(max_tries: usize, desired_cells_given: usize) -> (r: Result<Game, GameError>)
        ensures
            r matches Ok(g) ==> g.solved.wf() && g.solved.complete() && g.solved.valid() && g.current.wf()
                && g.current.filled_count() == desired_cells_given && g.current.extended_by(g.solved)
                && g.current.solved_only_by(g.solved) && g.history@.len() == 0,
            desired_cells_given == 81 ==> (r matches Ok(g) ==> g.current == g.solved),
            r matches Err(e) ==> e is TriesExceeded || e is RandomSourceUnavailable,
            max_tries == 0 ==> r is Err,
            max_tries >= 1 && desired_cells_given == 81 ==> (r is Ok || r matches Err(
                GameError::RandomSourceUnavailable,
            )),
    {
        match fresh_rng() {
            Some(rng) => {
                let mut generator = BoardGenerator::new(rng);
                Game::new_with_generator(&mut generator, max_tries, desired_cells_given)
            },
            None => Err(GameError::RandomSourceUnavailable),
        }
    }
}

} // verus!
