use std::cmp::Ordering;

use guess_my_number::NumberGuessingGame;
use rand::Rng;

#[test]
fn number_game_test_reset_n_guesses() {
    let mut game = NumberGuessingGame::new(1, 10).unwrap();
    for _ in 0..100 {
        let mut rng = rand::thread_rng();
        let number = rng.gen_range(0..=100);

        // Making number wrong guesses
        for _ in 0..number {
            game.make_guess(100, |_, _, _| ());
        }

        // Testing function
        assert_eq!(game.get_n_guesses(), number);
        // Resetting
        game.reset_n_guesses();
    }
}

#[test]
fn number_guessing_game_constructor() {
    // Should Not Panic
    let game = NumberGuessingGame::new(0, 69).unwrap();
    let (min, max) = game.get_range();
    assert_eq!(min, 0);
    assert_eq!(max, 69);

    // Should return Result
    let game = NumberGuessingGame::new(0, -69);
    match game {
        Ok(_) => panic!("Maximum should be greater than minimum"),
        Err(_) => (),
    }
}

#[test]
fn make_guess() {
    let mut game = NumberGuessingGame::new(0, 0).unwrap();
    let mut handler: i128 = 0;

    // Test greater guess
    let status = game.make_guess(69, |_, _, _| handler = 69);
    assert_eq!(status, Ordering::Greater);
    assert_eq!(handler, 69);

    // Test lesser guess
    let status = game.make_guess(-69, |_, guess, _| handler = guess as i128);
    assert_eq!(status, Ordering::Less);
    assert_eq!(handler, 2);

    // Test lesser guess
    let status = game.make_guess(0, |_, _, num| handler = num);
    assert_eq!(status, Ordering::Equal);
    assert_eq!(handler, 0);
}

#[test]
fn get_n_guesses() {
    for _ in 0..100 {
        let mut game = NumberGuessingGame::new(1, 10).unwrap();

        // Getting the amount of times to guess
        let mut rng = rand::thread_rng();
        let number = rng.gen_range(0..=100);

        // Making number wrong guesses
        for _ in 0..number {
            game.make_guess(100, |_, _, _| ());
        }

        // Testing function
        assert_eq!(game.get_n_guesses(), number);
    }
}

#[test]
fn min() {
    let mut game = NumberGuessingGame::new(1, 10).unwrap();
    assert_eq!(game.min(), 1);

    // Should not panic
    game.set_min(2).expect("Valid Range shouldn't panic");
    assert_eq!(game.min(), 2);
}

#[test]
fn max() {
    let mut game = NumberGuessingGame::new(1, 10).unwrap();
    assert_eq!(game.max(), 10);

    // Should not panic
    game.set_max(69).expect("Valid Range shouldn't panic");
    assert_eq!(game.max(), 69);
}

#[test]
fn range() {
    let mut game = NumberGuessingGame::new(1, 10).unwrap();
    assert_eq!(game.get_range(), (1, 10));

    // Changing range
    game.set_range(69, 420)
        .expect("Valid Range shouldn't panic");
    assert_eq!(game.get_range(), (69, 420));

    // Trying to set invalid range
    match game.set_range(420, 69) {
        Ok(()) => panic!("Invalid range should panic."),
        Err(()) => (),
    };
    // Range should stay the same
    assert_eq!(game.get_range(), (69, 420));
}

/// Finds the secret of a game by asking about every value of its range.
fn find_secret(game: &mut NumberGuessingGame) -> i128 {
    let (min, max) = game.get_range();
    let mut found = None;
    for v in min..=max {
        if game.make_guess(v, |_, _, _| ()) == Ordering::Equal {
            found = Some(v);
        }
    }
    found.expect("the secret lies in the range")
}

#[test]
fn secret_lies_in_range() {
    for _ in 0..50 {
        let mut game = NumberGuessingGame::new(-3, 4).unwrap();
        let secret = find_secret(&mut game);
        assert!((-3..=4).contains(&secret));
        assert_eq!(game.get_n_guesses(), 8);
    }
}

#[test]
fn single_value_range() {
    let mut game = NumberGuessingGame::new(7, 7).unwrap();
    assert_eq!(game.make_guess(7, |_, _, _| ()), Ordering::Equal);
    assert_eq!(game.make_guess(8, |_, _, _| ()), Ordering::Greater);
    assert_eq!(game.make_guess(6, |_, _, _| ()), Ordering::Less);
}

#[test]
fn secret_is_drawn_not_fixed() {
    let mut seen_other = false;
    for _ in 0..50 {
        let mut game = NumberGuessingGame::new(0, 1000).unwrap();
        if game.make_guess(0, |_, _, _| ()) != Ordering::Equal {
            seen_other = true;
        }
    }
    assert!(seen_other);
}

#[test]
fn invalid_constructor_and_setters_keep_state() {
    assert!(NumberGuessingGame::new(5, 4).is_err());
    let mut game = NumberGuessingGame::new(0, 0).unwrap();
    game.make_guess(3, |_, _, _| ());
    assert!(game.set_min(1).is_err());
    assert!(game.set_max(-1).is_err());
    assert_eq!(game.get_range(), (0, 0));
    assert_eq!(game.get_n_guesses(), 1);
    assert_eq!(game.make_guess(0, |_, _, _| ()), Ordering::Equal);
}

#[test]
fn counter_resets() {
    let mut game = NumberGuessingGame::new(1, 10).unwrap();
    for n in 1..=5u128 {
        game.make_guess(11, |_, count, _| assert_eq!(count, n));
    }
    assert_eq!(game.get_n_guesses(), 5);
    game.reset_number();
    assert_eq!(game.get_n_guesses(), 0);
    game.make_guess(11, |_, _, _| ());
    game.set_range(1, 3).unwrap();
    assert_eq!(game.get_n_guesses(), 0);
}

#[test]
fn reset_number_to_sets_secret() {
    let mut game = NumberGuessingGame::new(1, 10).unwrap();
    game.make_guess(0, |_, _, _| ());
    game.reset_number_to(4).unwrap();
    assert_eq!(game.get_n_guesses(), 0);
    assert_eq!(game.make_guess(4, |_, _, _| ()), Ordering::Equal);
    assert_eq!(game.make_guess(5, |_, _, _| ()), Ordering::Greater);
    assert!(game.reset_number_to(11).is_err());
    assert!(game.reset_number_to(0).is_err());
    assert_eq!(game.get_n_guesses(), 2);
    assert_eq!(game.make_guess(4, |_, _, _| ()), Ordering::Equal);
}
