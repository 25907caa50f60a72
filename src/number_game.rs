//! Number guessing game.
use std::cmp::Ordering;
use vstd::prelude::*;

verus! {

/// What a guess of `guess` tells about the secret `secret`: `Greater` when
/// the guess is too high, `Less` when it is too low.
pub open spec fn outcome(guess: int, secret: int) -> Ordering {
    if guess < secret {
        Ordering::Less
    } else if guess == secret {
        Ordering::Equal
    } else {
        Ordering::Greater
    }
}

/// Relies on `rand::Rng::gen_range` over `rand::thread_rng()`: a non-empty
/// inclusive range yields a value that lies inside it.
#[verifier::external_body]
fn draw_in_range(min: i128, max: i128) -> (r: i128)
    requires
        min <= max,
    ensures
        min <= r <= max,
{
    rand::Rng::gen_range(&mut rand::thread_rng(), min..=max)
}

/// The state of a game as a mathematical value.
pub struct GameView {
    pub min: int,
    pub max: int,
    pub guesses: nat,
    pub secret: int,
}

/// One guess leads from `before` to `after`: it adds one to the count and
/// leaves range and secret alone.
pub open spec fn guess_step(before: GameView, after: GameView) -> bool {
    after == (GameView { guesses: before.guesses + 1, ..before })
}

/// After `n` guesses counted from zero the count is `n`, and the range and
/// the secret are those the count started from.
pub proof fn lemma_guess_counter(states: Seq<GameView>)
    requires
        states.len() >= 1,
        states[0].guesses == 0,
        forall|i: int| 0 <= i < states.len() - 1 ==> guess_step(#[trigger] states[i], states[i + 1]),
    ensures
        states.last().guesses == states.len() - 1,
        states.last() == (GameView { guesses: states.last().guesses, ..states[0] }),
    decreases states.len(),
{
    if states.len() > 1 {
        let prefix = states.drop_last();
        assert forall|i: int| 0 <= i < prefix.len() - 1 implies guess_step(
            #[trigger] prefix[i],
            prefix[i + 1],
        ) by {
            assert(guess_step(states[i], states[i + 1]));
        }
        lemma_guess_counter(prefix);
        assert(guess_step(states[states.len() - 2], states[states.len() - 1]));
    }
}

/// A number guessing game.
pub struct NumberGuessingGame {
    /// Minimum the number can be.
    min: i128,
    /// Maximum the number can be.
    max: i128,
    /// The number of guesses made.
    guesses: u128,
    /// The current number.
    number: i128,
}

impl View for NumberGuessingGame {
    type V = GameView;

    closed spec fn view(&self) -> GameView {
        GameView {
            min: self.min as int,
            max: self.max as int,
            guesses: self.guesses as nat,
            secret: self.number as int,
        }
    }
}

impl NumberGuessingGame {
    /// The range is not empty and the secret lies inside it.
    pub open spec fn wf(&self) -> bool {
        self@.min <= self@.secret <= self@.max
    }

    /// Creates a game over `min..=max` with a freshly drawn secret and no
    /// guesses made.
    ///
    /// An Err would be returned if min > max.
    pub fn new(min: i128, max: i128) -> (r: Result<Self, ()>)
        ensures
            r is Ok <==> min <= max,
            r matches Ok(g) ==> {
                &&& g.wf()
                &&& g@.min == min
                &&& g@.max == max
                &&& g@.guesses == 0
            },
    {
        let mut output = Self { min: 0, max: 0, guesses: 0, number: 0 };
        match output.set_range(min, max) {
            Ok(()) => Ok(output),
            Err(()) => Err(()),
        }
    }

    /// Makes a guess of the secret and counts it.
    ///
    /// The handler is called with the outcome, the number of guesses made
    /// so far (this one included) and the secret; the outcome is returned.
    pub fn make_guess<T>(&mut self, guess: i128, guess_handler: T) -> (r: Ordering) where
        T: FnOnce(Ordering, u128, i128),

        requires
            old(self)@.guesses < u128::MAX,
            forall|o: Ordering, n: u128, s: i128| guess_handler.requires((o, n, s)),
        ensures
            r == outcome(guess as int, old(self)@.secret),
            guess_step(old(self)@, final(self)@),
            guess_handler.ensures(
                (r, final(self)@.guesses as u128, final(self)@.secret as i128),
                (),
            ),
    {
        self.guesses = self.guesses + 1;
        let result = if guess < self.number {
            Ordering::Less
        } else if guess == self.number {
            Ordering::Equal
        } else {
            Ordering::Greater
        };
        guess_handler(result, self.guesses, self.number);
        result
    }

    /// Draws a new secret from the current range and resets the number of
    /// guesses.
    pub fn reset_number(&mut self)
        requires
            old(self).wf(),
        ensures
            final(self).wf(),
            final(self)@.min == old(self)@.min,
            final(self)@.max == old(self)@.max,
            final(self)@.guesses == 0,
    {
        let number = draw_in_range(self.min, self.max);
        self.number = number;
        self.reset_n_guesses();
    }

    /// Makes `number` the secret and resets the number of guesses.
    ///
    /// An Err would be returned if `number` lies outside the range; the game
    /// is then left as it was.
    pub fn reset_number_to(&mut self, number: i128) -> (r: Result<(), ()>)
        ensures
            r is Ok <==> old(self)@.min <= number <= old(self)@.max,
            r is Ok ==> final(self)@ == (GameView {
                guesses: 0,
                secret: number as int,
                ..old(self)@
            }),
            r is Err ==> *final(self) == *old(self),
    {
        if number < self.min || number > self.max {
            return Err(());
        }
        self.number = number;
        self.reset_n_guesses();
        Ok(())
    }

    /// Resets the number of guesses made.
    pub fn reset_n_guesses(&mut self)
        ensures
            final(self)@ == (GameView { guesses: 0, ..old(self)@ }),
    {
        self.guesses = 0;
    }

    /// Gets the number of guesses made.
    pub fn get_n_guesses(&self) -> (r: u128)
        ensures
            r == self@.guesses,
    {
        self.guesses
    }

    /// Gets the minimum the number can be.
    pub fn min(&self) -> (r: i128)
        ensures
            r == self@.min,
    {
        self.min
    }

    /// Sets the minimum the number can be.
    ///
    /// An Err would be returned if min is greater than max. If this happens
    /// the game would not change.
    pub fn set_min(&mut self, min: i128) -> (r: Result<(), ()>)
        ensures
            r is Ok <==> min <= old(self)@.max,
            r is Ok ==> {
                &&& final(self).wf()
                &&& final(self)@.min == min
                &&& final(self)@.max == old(self)@.max
                &&& final(self)@.guesses == 0
            },
            r is Err ==> *final(self) == *old(self),
    {
        self.set_range(min, self.max)
    }

    /// Gets the maximum the number can be.
    pub fn max(&self) -> (r: i128)
        ensures
            r == self@.max,
    {
        self.max
    }

    /// Sets the maximum the number can be.
    ///
    /// An Err would be returned if min is greater than max. If this happens
    /// the game would not change.
    pub fn set_max(&mut self, max: i128) -> (r: Result<(), ()>)
        ensures
            r is Ok <==> old(self)@.min <= max,
            r is Ok ==> {
                &&& final(self).wf()
                &&& final(self)@.min == old(self)@.min
                &&& final(self)@.max == max
                &&& final(self)@.guesses == 0
            },
            r is Err ==> *final(self) == *old(self),
    {
        self.set_range(self.min, max)
    }

    /// Gets the range the number can be in, as (minimum, maximum), both
    /// inclusive.
    pub fn get_range(&self) -> (r: (i128, i128))
        ensures
            r.0 == self@.min,
            r.1 == self@.max,
    {
        (self.min(), self.max())
    }

    /// Sets the range the number can be in, draws a new secret from it and
    /// resets the number of guesses.
    ///
    /// An Err would be returned if min is greater than max. If this happens
    /// the game would not change.
    pub fn set_range(&mut self, min: i128, max: i128) -> (r: Result<(), ()>)
        ensures
            r is Ok <==> min <= max,
            r is Ok ==> {
                &&& final(self).wf()
                &&& final(self)@.min == min
                &&& final(self)@.max == max
                &&& final(self)@.guesses == 0
            },
            r is Err ==> *final(self) == *old(self),
    {
        if min > max {
            return Err(());
        }
        self.min = min;
        self.max = max;
        self.number = min;
        self.reset_number();
        Ok(())
    }
}

} // verus!
