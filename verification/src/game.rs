//! The game: a guess each turn, the feedback it receives against the secret,
//! and the candidates that the feedback leaves, until the secret is guessed
//! or the guesses run out.
use crate::agent::WordleAgent;
use crate::eliminate::{eliminate, law_secret_survives, survivors};
use crate::response::{is_win, response_code, wins, WordleResponse};
use crate::word::Word;
use vstd::prelude::*;

verus! {

/// What one turn did.
pub struct Turn {
    /// The word that was guessed.
    pub guess: Word,
    /// The feedback that the guess received against the secret.
    pub response: WordleResponse,
    /// Whether the guess was the secret.
    pub won: bool,
    /// The candidates that are left for the next turn. After a winning guess
    /// they are the candidates as they stood.
    pub candidates: Vec<Word>,
}

/// The guess of a turn: the opening guess where there is one, else the
/// agent's choice among the candidates.
pub open spec fn turn_guess<A: WordleAgent + ?Sized>(
    agent: &A,
    candidates: Seq<Word>,
    opening: Option<Word>,
) -> Word {
    match opening {
        Some(word) => word,
        None => candidates[agent.choice(candidates)],
    }
}

/// Whether a turn can be played: there is an opening guess, or a candidate
/// to choose.
pub open spec fn can_guess(candidates: Seq<Word>, opening: Option<Word>) -> bool {
    opening is Some || candidates.len() > 0
}

/// The candidates that a turn leaves when its guess does not win.
pub open spec fn turn_leaves<A: WordleAgent + ?Sized>(
    agent: &A,
    secret: Seq<u8>,
    candidates: Seq<Word>,
    opening: Option<Word>,
) -> Seq<Word> {
    let guess = turn_guess(agent, candidates, opening);
    survivors(guess@, response_code(guess@, secret), candidates)
}

/// Whether the game is won within `guesses` turns. It is lost when no guess
/// is left, and when no candidate is left to choose from; a turn whose guess
/// does not win hands the surviving candidates to the next turn, which has
/// no opening guess.
pub open spec fn outcome<A: WordleAgent + ?Sized>(
    agent: &A,
    secret: Seq<u8>,
    candidates: Seq<Word>,
    guesses: nat,
    opening: Option<Word>,
) -> bool
    decreases guesses,
{
    if guesses == 0 || !can_guess(candidates, opening) {
        false
    } else {
        let guess = turn_guess(agent, candidates, opening);
        is_win(response_code(guess@, secret)) || outcome(
            agent,
            secret,
            turn_leaves(agent, secret, candidates, opening),
            (guesses - 1) as nat,
            None,
        )
    }
}

/// Plays one turn against `solution`: guesses `initial_guess` where it is
/// given, else the agent's choice among `wordlist`, and eliminates the
/// candidates that disagree with the feedback. Returns `None` where there is
/// neither an opening guess nor a candidate.
pub fn take_turn<A: WordleAgent + ?Sized>(
    solution: &Word,
    agent: &A,
    wordlist: Vec<Word>,
    initial_guess: Option<Word>,
) -> (turn: Option<Turn>)
    requires
        wordlist@.len() <= agent.capacity(),
    ensures
        turn is Some <==> can_guess(wordlist@, initial_guess),
        turn is Some ==> {
            let played = turn->0;
            &&& played.guess == turn_guess(agent, wordlist@, initial_guess)
            &&& played.response == response_code(played.guess@, solution@)
            &&& played.won == is_win(played.response as nat)
            &&& played.won ==> played.candidates@ == wordlist@
            &&& !played.won ==> played.candidates@ == turn_leaves(
                agent,
                solution@,
                wordlist@,
                initial_guess,
            )
            &&& played.candidates@.len() <= wordlist@.len()
            &&& wordlist@.contains(*solution) ==> played.candidates@.contains(*solution)
        },
{
    let guess = match initial_guess {
        Some(x) => x,
        None => {
            if wordlist.len() == 0 {
                return None;
            }
            agent.select_move(wordlist.as_slice())
        },
    };
    let response = guess.compare(solution);
    if wins(response) {
        return Some(Turn { guess, response, won: true, candidates: wordlist });
    }
    let new_wordlist = eliminate(&guess, response, wordlist.as_slice());
    proof {
        if wordlist@.contains(*solution) {
            law_secret_survives(guess, *solution, wordlist@);
        }
    }
    Some(Turn { guess, response, won: false, candidates: new_wordlist })
}

/// Plays a game of at most `guesses` turns against `solution`, starting from
/// the candidates `wordlist`, and says whether it was won.
pub fn play<A: WordleAgent + ?Sized>(
    solution: Word,
    agent: &A,
    wordlist: Vec<Word>,
    guesses: u8,
    initial_guess: Option<Word>,
) -> (won: bool)
    requires
        wordlist@.len() <= agent.capacity(),
    ensures
        won == outcome(agent, solution@, wordlist@, guesses as nat, initial_guess),
{
    let ghost result = outcome(agent, solution@, wordlist@, guesses as nat, initial_guess);
    let mut remaining: u8 = guesses;
    let mut candidates: Vec<Word> = wordlist;
    let mut opening: Option<Word> = initial_guess;
    while remaining > 0
        invariant
            candidates@.len() <= agent.capacity(),
            result == outcome(agent, solution@, wordlist@, guesses as nat, initial_guess),
            result == outcome(agent, solution@, candidates@, remaining as nat, opening),
        decreases remaining,
    {
        match take_turn(&solution, agent, candidates, opening) {
            None => {
                return false;
            },
            Some(turn) => {
                if turn.won {
                    return true;
                }
                candidates = turn.candidates;
                opening = None;
                remaining -= 1;
            },
        }
    }
    false
}

} // verus!
