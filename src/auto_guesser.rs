//! An automatic player that plays the number guessing game by bisection.
use crate::number_game::{outcome, GameView, NumberGuessingGame};
use std::cmp::Ordering;
use vstd::prelude::*;

verus! {

/// The middle of `a` and `b`: their sum halved, rounded toward zero.
pub open spec fn midpoint(a: int, b: int) -> int {
    let s = a + b;
    if s >= 0 {
        s / 2
    } else {
        -((-s) / 2)
    }
}

/// The new upper bound after a guess `g` turned out too high.
///
/// When only `lo` and `g` were left, `lo` is the only candidate.
pub open spec fn narrow_high(lo: int, g: int) -> int {
    if g == lo + 1 {
        lo
    } else {
        g
    }
}

/// The new lower bound after a guess `g` turned out too low.
///
/// When only `g` and `hi` were left, `hi` is the only candidate.
pub open spec fn narrow_low(g: int, hi: int) -> int {
    if g == hi - 1 {
        hi
    } else {
        g
    }
}

/// The guesses that bisection makes between `lo` and `hi` when the secret
/// is `secret`, up to and including the correct one.
pub open spec fn bisection(lo: int, hi: int, secret: int) -> Seq<int>
    decreases hi - lo,
{
    let g = midpoint(lo, hi);
    if hi <= lo || secret == g {
        seq![g]
    } else if secret < g {
        seq![g] + bisection(lo, narrow_high(lo, g), secret)
    } else {
        seq![g] + bisection(narrow_low(g, hi), hi, secret)
    }
}

/// Two to the power `n`.
pub open spec fn two_to(n: nat) -> nat
    decreases n,
{
    if n == 0 {
        1
    } else {
        2 * two_to((n - 1) as nat)
    }
}

/// The least `j` with `k <= 2^j`.
pub open spec fn ceil_log2(k: nat) -> nat
    decreases k,
{
    if k <= 1 {
        0
    } else {
        1 + ceil_log2(((k + 1) / 2) as nat)
    }
}

/// The middle of a range lies inside it, and either half holds at most
/// half of the range's width, rounded up.
proof fn lemma_midpoint(lo: int, hi: int)
    requires
        lo <= hi,
    ensures
        lo <= midpoint(lo, hi) <= hi,
        midpoint(lo, hi) - lo <= (hi - lo + 1) / 2,
        hi - midpoint(lo, hi) <= (hi - lo + 1) / 2,
{
}

/// Bisection over a range of width at most `2^j` makes at most `j + 1`
/// guesses (a range of width one needs two).
proof fn lemma_bisection_len(lo: int, hi: int, secret: int, j: nat)
    requires
        lo <= hi,
        hi - lo <= two_to(j),
        j == 0 ==> hi == lo,
    ensures
        bisection(lo, hi, secret).len() <= j + 1,
    decreases hi - lo,
{
    let g = midpoint(lo, hi);
    lemma_midpoint(lo, hi);
    if hi <= lo || secret == g {
    } else {
        let j1 = (j - 1) as nat;
        assert(two_to(j) == 2 * two_to(j1));
        if secret < g {
            let nh = narrow_high(lo, g);
            lemma_bisection_len(lo, nh, secret, j1);
        } else {
            let nl = narrow_low(g, hi);
            lemma_bisection_len(nl, hi, secret, j1);
        }
    }
}

/// `ceil_log2(k)` is large enough: `k <= 2^ceil_log2(k)`.
proof fn lemma_ceil_log2_covers(k: nat)
    ensures
        k <= two_to(ceil_log2(k)) || k == 0,
        ceil_log2(k) == 0 ==> k <= 1,
    decreases k,
{
    if k > 1 {
        lemma_ceil_log2_covers(((k + 1) / 2) as nat);
    }
}

/// Exponents add: `2^(a + b) == 2^a * 2^b`.
proof fn lemma_two_to_add(a: nat, b: nat)
    ensures
        two_to(a + b) == two_to(a) * two_to(b),
    decreases a,
{
    if a > 0 {
        let a1 = (a - 1) as nat;
        lemma_two_to_add(a1, b);
        let x = two_to(a1);
        let y = two_to(b);
        assert(a + b == a1 + b + 1);
        assert(two_to(a + b) == 2 * two_to(a1 + b));
        assert(two_to(a) == 2 * x);
        let z = two_to(a);
        assert(z * y == 2 * (x * y)) by (nonlinear_arith)
            requires
                z == 2 * x,
        ;
    } else {
        assert(two_to(a) == 1);
        assert(a + b == b);
    }
}

/// `2^128`, the number of values of a 128-bit integer.
proof fn lemma_two_to_128()
    ensures
        two_to(128) == 0x1_0000_0000_0000_0000_0000_0000_0000_0000,
{
    assert(two_to(1) == 2) by {
        reveal_with_fuel(two_to, 2);
    }
    lemma_two_to_add(1, 1);
    assert(two_to(2) == 4);
    lemma_two_to_add(2, 2);
    assert(two_to(4) == 16);
    lemma_two_to_add(4, 4);
    assert(two_to(8) == 0x100);
    lemma_two_to_add(8, 8);
    assert(two_to(16) == 0x1_0000);
    lemma_two_to_add(16, 16);
    assert(two_to(32) == 0x1_0000_0000);
    lemma_two_to_add(32, 32);
    assert(two_to(64) == 0x1_0000_0000_0000_0000);
    lemma_two_to_add(64, 64);
}

/// `ceil_log2(k)` is the least such exponent: `k <= 2^n` gives
/// `ceil_log2(k) <= n`.
proof fn lemma_ceil_log2_least(k: nat, n: nat)
    requires
        k <= two_to(n),
    ensures
        ceil_log2(k) <= n,
    decreases n,
{
    if k > 1 {
        let n1 = (n - 1) as nat;
        assert(n > 0);
        lemma_ceil_log2_least(((k + 1) / 2) as nat, n1);
    }
}

/// Bisection over a range of `K` values makes at most `ceil(log2(K)) + 1`
/// guesses before it guesses the secret.
pub proof fn lemma_solver_bound(min: int, max: int, secret: int)
    requires
        min <= max,
    ensures
        bisection(min, max, secret).len() <= ceil_log2((max - min + 1) as nat) + 1,
{
    let k = (max - min + 1) as nat;
    lemma_ceil_log2_covers(k);
    lemma_bisection_len(min, max, secret, ceil_log2(k));
}

/// Bisection over a range that holds the secret ends on the secret, and
/// every guess before that one is wrong.
pub proof fn lemma_bisection_finds(lo: int, hi: int, secret: int)
    requires
        lo <= secret <= hi,
    ensures
        bisection(lo, hi, secret).last() == secret,
        forall|i: int|
            0 <= i < bisection(lo, hi, secret).len() - 1 ==> bisection(lo, hi, secret)[i]
                != secret,
    decreases hi - lo,
{
    let g = midpoint(lo, hi);
    lemma_midpoint(lo, hi);
    if hi <= lo || secret == g {
    } else if secret < g {
        lemma_bisection_finds(lo, narrow_high(lo, g), secret);
    } else {
        lemma_bisection_finds(narrow_low(g, hi), hi, secret);
    }
}

/// One guess that the solver made, as it is reported to an observer.
#[derive(Clone, Copy, Debug)]
pub struct GuessStep {
    /// The value guessed.
    pub guess: i128,
    /// How the guess compares to the secret.
    pub outcome: Ordering,
    /// The number of guesses made so far, this one included.
    pub guesses: u128,
}

/// The steps of a run agree with bisection over `lo..=hi` toward `secret`.
pub open spec fn steps_follow(steps: Seq<GuessStep>, lo: int, hi: int, secret: int) -> bool {
    &&& steps.len() == bisection(lo, hi, secret).len()
    &&& forall|i: int|
        #![trigger steps[i]]
        0 <= i < steps.len() ==> {
            &&& steps[i].guess == bisection(lo, hi, secret)[i]
            &&& steps[i].outcome == outcome(steps[i].guess as int, secret)
            &&& steps[i].guesses == i + 1
        }
}

/// An AI that plays the number guessing game in the optimal way.
pub struct AutoNumberGuesser {
    game: NumberGuessingGame,
    steps: Vec<GuessStep>,
}

impl AutoNumberGuesser {
    /// The game played is well formed.
    pub open spec fn wf(&self) -> bool {
        self.spec_game().wf()
    }

    /// The game played.
    pub closed spec fn spec_game(&self) -> NumberGuessingGame {
        self.game
    }

    /// The steps recorded by the last verbose run.
    pub closed spec fn spec_steps(&self) -> Seq<GuessStep> {
        self.steps@
    }

    /// Creates an AI guesser for a game over `min..=max`.
    ///
    /// An Err would be returned if min > max.
    pub fn new(min: i128, max: i128) -> (r: Result<Self, ()>)
        ensures
            r is Ok <==> min <= max,
            r matches Ok(a) ==> {
                &&& a.wf()
                &&& a.spec_game()@.min == min
                &&& a.spec_game()@.max == max
                &&& a.spec_game()@.guesses == 0
                &&& a.spec_steps().len() == 0
            },
    {
        match NumberGuessingGame::new(min, max) {
            Ok(game) => Ok(Self { game, steps: Vec::new() }),
            Err(()) => Err(()),
        }
    }

    /// Returns a reference to the game.
    pub fn game(&self) -> (r: &NumberGuessingGame)
        ensures
            *r == self.spec_game(),
    {
        &self.game
    }

    /// Returns a mutable reference to the game.
    pub fn game_mut(&mut self) -> (r: &mut NumberGuessingGame)
        ensures
            *r == old(self).spec_game(),
            final(self).spec_game() == *final(r),
            final(self).spec_steps() == old(self).spec_steps(),
    {
        &mut self.game
    }

    /// The steps of the last run made with `verbose` set, in order; empty
    /// after a run without it.
    pub fn steps(&self) -> (r: &Vec<GuessStep>)
        ensures
            r@ == self.spec_steps(),
    {
        &self.steps
    }

    /// Draws a new secret and plays the game until the secret is guessed.
    ///
    /// Returns the number of guesses made. With `verbose` set, each guess is
    /// recorded in `steps`.
    pub fn start(&mut self, verbose: bool) -> (r: u128)
        requires
            old(self).wf(),
        ensures
            final(self).wf(),
            final(self).spec_game()@.min == old(self).spec_game()@.min,
            final(self).spec_game()@.max == old(self).spec_game()@.max,
            final(self).spec_game()@.guesses == r,
            r == bisection(
                final(self).spec_game()@.min,
                final(self).spec_game()@.max,
                final(self).spec_game()@.secret,
            ).len(),
            r <= ceil_log2(
                (final(self).spec_game()@.max - final(self).spec_game()@.min + 1) as nat,
            ) + 1,
            verbose ==> steps_follow(
                final(self).spec_steps(),
                final(self).spec_game()@.min,
                final(self).spec_game()@.max,
                final(self).spec_game()@.secret,
            ),
            !verbose ==> final(self).spec_steps().len() == 0,
    {
        self.game.reset_number();
        self.solve(verbose)
    }

    /// Plays the game against its current secret until the secret is
    /// guessed, counting guesses from zero.
    ///
    /// Returns the number of guesses made. With `verbose` set, each guess is
    /// recorded in `steps`.
    pub fn solve(&mut self, verbose: bool) -> (r: u128)
        requires
            old(self).wf(),
        ensures
            final(self).wf(),
            final(self).spec_game()@ == (GameView {
                guesses: r as nat,
                ..old(self).spec_game()@
            }),
            r == bisection(
                old(self).spec_game()@.min,
                old(self).spec_game()@.max,
                old(self).spec_game()@.secret,
            ).len(),
            r <= ceil_log2(
                (old(self).spec_game()@.max - old(self).spec_game()@.min + 1) as nat,
            ) + 1,
            verbose ==> steps_follow(
                final(self).spec_steps(),
                old(self).spec_game()@.min,
                old(self).spec_game()@.max,
                old(self).spec_game()@.secret,
            ),
            !verbose ==> final(self).spec_steps().len() == 0,
    {
        self.game.reset_n_guesses();
        self.steps.clear();
        let mut current_min = self.game.min();
        let mut current_max = self.game.max();
        let ghost start = self.game@;
        let ghost secret = start.secret;
        let ghost full = bisection(start.min, start.max, secret);
        proof {
            lemma_solver_bound(start.min, start.max, secret);
            lemma_two_to_128();
            lemma_ceil_log2_least((start.max - start.min + 1) as nat, 128);
            lemma_bisection_finds(start.min, start.max, secret);
        }
        let mut guess = Self::get_guess(current_min, current_max);
        loop
            invariant_except_break
                self.game@.guesses < full.len(),
                bisection(current_min as int, current_max as int, secret) == full.skip(
                    self.game@.guesses as int,
                ),
            invariant
                self.game.wf(),
                self.game@ == (GameView { guesses: self.game@.guesses, ..start }),
                start.min <= start.max,
                start.min <= secret <= start.max,
                secret == start.secret,
                full == bisection(start.min, start.max, secret),
                full.len() <= 129,
                full.last() == secret,
                forall|i: int| 0 <= i < full.len() - 1 ==> full[i] != secret,
                current_min <= secret <= current_max,
                guess == midpoint(current_min as int, current_max as int),
                verbose ==> self.steps@.len() == self.game@.guesses,
                !verbose ==> self.steps@.len() == 0,
                forall|i: int|
                    #![trigger self.steps@[i]]
                    0 <= i < self.steps@.len() ==> {
                        &&& self.steps@[i].guess == full[i]
                        &&& self.steps@[i].outcome == outcome(self.steps@[i].guess as int, secret)
                        &&& self.steps@[i].guesses == i + 1
                    },
            ensures
                self.game@.guesses == full.len(),
            decreases current_max - current_min,
        {
            let ghost before = self.game@.guesses;
            proof {
                lemma_midpoint(current_min as int, current_max as int);
                assert(bisection(current_min as int, current_max as int, secret)[0] == guess);
                assert(full.skip(before as int)[0] == full[before as int]);
            }
            let status = self.game.make_guess(guess, |_o: Ordering, _n: u128, _s: i128| {});
            assert(status == outcome(guess as int, secret));
            if verbose {
                let n = self.game.get_n_guesses();
                self.steps.push(GuessStep { guess, outcome: status, guesses: n });
            }
            match status {
                Ordering::Greater => {
                    current_max = guess;
                    if current_max == current_min + 1 {
                        current_max = current_min;
                    }
                },
                Ordering::Less => {
                    current_min = guess;
                    if current_min == current_max - 1 {
                        current_min = current_max;
                    }
                },
                Ordering::Equal => {
                    proof {
                        assert(before == full.len() - 1);
                    }
                    break ;
                },
            }
            proof {
                assert(full.skip((before + 1) as int) =~= full.skip(before as int).skip(1));
            }
            guess = Self::get_guess(current_min, current_max);
        }
        self.game.get_n_guesses()
    }

    /// The next guess between `min` and `max`: their middle, rounded toward
    /// zero.
    pub fn get_guess(min: i128, max: i128) -> (r: i128)
        ensures
            r == midpoint(min as int, max as int),
    {
        let (lo, hi) = if min <= max {
            (min, max)
        } else {
            (max, min)
        };
        if lo >= 0 {
            lo + (hi - lo) / 2
        } else if hi < 0 {
            hi - (hi - lo) / 2
        } else {
            let s = lo + hi;
            if s >= 0 {
                s / 2
            } else {
                let t = -(s + 1);
                -(t / 2 + t % 2)
            }
        }
    }
}

} // verus!
