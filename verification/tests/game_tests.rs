use color_game::bottle::Bottle;
use color_game::color::Color;
use color_game::game::{get_random_mixed_bottles, Game, GenError};

fn bottle(slots: Vec<Color>) -> Bottle {
    Bottle { size: slots.len(), color_list: slots }
}

fn game(bottles: Vec<Bottle>) -> Game {
    let bottle_size = bottles[0].size;
    Game { bottles, bottle_size }
}

#[test]
fn win_requires_every_bottle_solved_or_empty() {
    let won = game(vec![
        bottle(vec![Color::Red, Color::Red, Color::Red]),
        bottle(vec![Color::Blue, Color::Blue, Color::Blue]),
        bottle(vec![Color::Transparent, Color::Transparent, Color::Transparent]),
    ]);
    assert!(won.is_game_won());

    // A mixed bottle blocks the win.
    let mixed = game(vec![
        bottle(vec![Color::Red, Color::Red, Color::Red]),
        bottle(vec![Color::Blue, Color::Red, Color::Blue]),
    ]);
    assert!(!mixed.is_game_won());

    // A uniform but not full bottle blocks the win.
    let short = game(vec![
        bottle(vec![Color::Red, Color::Red, Color::Red]),
        bottle(vec![Color::Blue, Color::Blue, Color::Transparent]),
    ]);
    assert!(!short.is_game_won());

    // A full but not uniform bottle blocks the win.
    let striped = game(vec![
        bottle(vec![Color::Red, Color::Blue, Color::Red]),
        bottle(vec![Color::Transparent, Color::Transparent, Color::Transparent]),
    ]);
    assert!(!striped.is_game_won());
}

#[test]
fn empty_bottle_prevents_loss() {
    let g = game(vec![
        bottle(vec![Color::Red, Color::Blue, Color::Red, Color::Blue]),
        bottle(vec![Color::Blue, Color::Red, Color::Blue, Color::Red]),
        bottle(vec![
            Color::Transparent,
            Color::Transparent,
            Color::Transparent,
            Color::Transparent,
        ]),
    ]);
    assert!(!g.is_game_lost());
}

#[test]
fn blocked_board_is_lost_and_one_opening_flips_it() {
    // No empty bottle; every pair is blocked: A's top run (Red, 3) cannot fit
    // B's single free slot, B's top run (Red, 2) cannot fit A's single free
    // slot, and C is solved, so it is neither a source nor (being full) a
    // target.
    let lost = game(vec![
        bottle(vec![Color::Red, Color::Red, Color::Red, Color::Transparent]),
        bottle(vec![Color::Blue, Color::Red, Color::Red, Color::Transparent]),
        bottle(vec![Color::Blue, Color::Blue, Color::Blue, Color::Blue]),
    ]);
    assert!(lost.is_game_lost());

    // Give B more space so its (Red, 1) run fits into A: no longer lost.
    let open = game(vec![
        bottle(vec![Color::Red, Color::Red, Color::Red, Color::Transparent]),
        bottle(vec![Color::Blue, Color::Red, Color::Transparent, Color::Transparent]),
        bottle(vec![Color::Blue, Color::Blue, Color::Blue, Color::Blue]),
    ]);
    assert!(!open.is_game_lost());
}

#[test]
fn solved_board_with_no_empty_bottle_is_lost() {
    // Every bottle solved: nothing may be poured, and nothing is empty.
    let g = game(vec![
        bottle(vec![Color::Red, Color::Red]),
        bottle(vec![Color::Blue, Color::Blue]),
    ]);
    assert!(g.is_game_lost());
    assert!(g.is_game_won());
}

#[test]
fn play_move_same_index_is_a_no_op() {
    let mut g = game(vec![
        bottle(vec![Color::Red, Color::Blue, Color::Transparent]),
        bottle(vec![Color::Blue, Color::Transparent, Color::Transparent]),
    ]);
    let before: Vec<Vec<Color>> = g.bottles.iter().map(|b| b.color_list.clone()).collect();
    let r = g.play_move(1, 1);
    assert!(r.is_ok());
    let after: Vec<Vec<Color>> = g.bottles.iter().map(|b| b.color_list.clone()).collect();
    assert_eq!(before, after);
}

#[test]
fn play_move_pours_between_the_two_indexed_bottles() {
    let mut g = game(vec![
        bottle(vec![Color::Red, Color::Red, Color::Transparent, Color::Transparent]),
        bottle(vec![Color::Blue, Color::Blue, Color::Transparent, Color::Transparent]),
        bottle(vec![Color::Red, Color::Transparent, Color::Transparent, Color::Transparent]),
    ]);
    let r = g.play_move(2, 0);
    assert!(r.is_ok());
    assert_eq!(g.bottles[0].color_list, vec![
        Color::Red,
        Color::Red,
        Color::Red,
        Color::Transparent,
    ]);
    assert_eq!(g.bottles[1].color_list, vec![
        Color::Blue,
        Color::Blue,
        Color::Transparent,
        Color::Transparent,
    ]);
    assert_eq!(g.bottles[2].color_list, vec![
        Color::Transparent,
        Color::Transparent,
        Color::Transparent,
        Color::Transparent,
    ]);
}

#[test]
fn play_move_works_with_source_above_target_and_below() {
    let mut g = game(vec![
        bottle(vec![Color::Red, Color::Transparent, Color::Transparent]),
        bottle(vec![Color::Red, Color::Red, Color::Transparent]),
    ]);
    // Source index above target index.
    g.play_move(1, 0).unwrap();
    assert_eq!(g.bottles[0].color_list, vec![Color::Red, Color::Red, Color::Red]);
    assert_eq!(g.bottles[1].color_list, vec![
        Color::Transparent,
        Color::Transparent,
        Color::Transparent,
    ]);
}

#[test]
fn accepted_pours_conserve_every_color() {
    let mut g = game(vec![
        bottle(vec![Color::Red, Color::Blue, Color::Blue, Color::Transparent]),
        bottle(vec![Color::Blue, Color::Red, Color::Red, Color::Transparent]),
        bottle(vec![
            Color::Transparent,
            Color::Transparent,
            Color::Transparent,
            Color::Transparent,
        ]),
    ]);
    let tally = |g: &Game, c: Color| {
        g.bottles
            .iter()
            .map(|b| b.color_list.iter().filter(|v| **v == c).count())
            .sum::<usize>()
    };
    let reds = tally(&g, Color::Red);
    let blues = tally(&g, Color::Blue);
    // A sequence of moves, some accepted and some rejected.
    let _ = g.play_move(0, 2);
    let _ = g.play_move(1, 0);
    let _ = g.play_move(2, 1);
    let _ = g.play_move(0, 1);
    let _ = g.play_move(1, 2);
    assert_eq!(tally(&g, Color::Red), reds);
    assert_eq!(tally(&g, Color::Blue), blues);
}

#[test]
fn generator_builds_full_unsolved_bottles() {
    for _ in 0..60 {
        let bottles = get_random_mixed_bottles(5, 4).expect("generation should succeed");
        assert_eq!(bottles.len(), 5);
        for b in &bottles {
            assert_eq!(b.size, 4);
            assert_eq!(b.color_list.len(), 4);
            assert!(b.is_full());
            assert!(!b.is_complete());
            for c in &b.color_list {
                assert_ne!(*c, Color::Transparent);
            }
        }
    }
}

#[test]
fn generator_deals_a_fair_mixture() {
    let palette = [
        Color::Red,
        Color::Green,
        Color::Yellow,
        Color::Blue,
        Color::Pink,
        Color::Cyan,
        Color::White,
    ];
    for _ in 0..20 {
        let bottles = get_random_mixed_bottles(4, 3).expect("generation should succeed");
        let mut used = 0;
        for color in palette {
            let units: usize = bottles
                .iter()
                .map(|b| b.color_list.iter().filter(|c| **c == color).count())
                .sum();
            // A color is either dealt as one whole bottle's worth or not at all.
            assert!(units == 0 || units == 3);
            if units == 3 {
                used += 1;
            }
        }
        assert_eq!(used, 4);
    }
}

#[test]
fn generator_rejects_too_many_bottles() {
    assert_eq!(get_random_mixed_bottles(8, 4).unwrap_err(), GenError::TooFewColors);
}

#[test]
fn generator_gives_up_on_unit_capacity() {
    // With one slot per bottle every full bottle is solved, so every shuffle
    // is rejected and the retry budget runs out.
    assert_eq!(get_random_mixed_bottles(3, 1).unwrap_err(), GenError::RetriesExhausted);
}

#[test]
fn new_game_appends_empty_bottles() {
    let g = Game::new(7, 2, 6).expect("generation should succeed");
    assert_eq!(g.bottle_size, 6);
    assert_eq!(g.bottles.len(), 9);
    for b in &g.bottles[..7] {
        assert!(b.is_full());
        assert!(!b.is_complete());
    }
    for b in &g.bottles[7..] {
        assert!(b.is_empty());
        assert_eq!(b.color_list, vec![Color::Transparent; 6]);
    }
    assert!(!g.is_game_won());
    assert!(!g.is_game_lost());
}
