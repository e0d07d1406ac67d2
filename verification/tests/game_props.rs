use set_core::card::Card;
use set_core::game::Game;

fn decode(id: u8) -> Card {
    Card::from_tile_number(id).unwrap()
}

fn identity_permutation() -> Vec<u8> {
    (0..81u8).collect()
}

/// A permutation whose first 12 decoded cards hold no set; the next three
/// identifiers (2, 5, 8) decode to a set.
fn setless_start_permutation() -> Vec<u8> {
    let mut p: Vec<u8> = vec![0, 1, 3, 4, 9, 10, 12, 13, 27, 28, 30, 31, 2, 5, 8];
    for id in 0..81u8 {
        if !p.contains(&id) {
            p.push(id);
        }
    }
    p
}

/// A permutation whose first 9 decoded cards hold no set, with the set
/// (2, 5, 8) at positions 9..12 and the set (6, 11, 22) at the very end of
/// the pile.
fn replace_scenario_permutation() -> Vec<u8> {
    let mut p: Vec<u8> = vec![0, 1, 3, 4, 9, 10, 12, 13, 27, 2, 5, 8];
    for id in 0..81u8 {
        if !p.contains(&id) && id != 6 && id != 11 && id != 22 {
            p.push(id);
        }
    }
    p.push(6);
    p.push(11);
    p.push(22);
    p
}

#[test]
fn new_deals_twelve_when_a_set_is_shown() {
    let game = Game::new(identity_permutation());
    assert_eq!(game.shown_count(), 12);
    assert_eq!(game.pile_count(), 69);
    assert_eq!(game.selection_count(), 0);
    assert!(!game.has_ended());
    for i in 0..12 {
        assert_eq!(game.card_at(i), decode(i as u8));
    }
}

#[test]
fn has_set_detects_embedded_triple() {
    // 0 and 1 complete to 2: a collection holding all three has a set.
    let with_set: Vec<Card> = vec![decode(0), decode(1), decode(4), decode(2)];
    assert!(Game::has_set(&with_set));
    // 0, 1 and 3 complete pairwise to 2, 6 and 8: none present, no set.
    let without_set: Vec<Card> = vec![decode(0), decode(1), decode(3)];
    assert!(!Game::has_set(&without_set));
    let empty: Vec<Card> = Vec::new();
    assert!(!Game::has_set(&empty));
}

#[test]
fn toggle_same_index_twice_restores_selection() {
    let mut game = Game::new(identity_permutation());
    let r1 = game.select_card(5).unwrap();
    assert_eq!(r1, (decode(5), true));
    assert!(game.is_selected(5));
    assert_eq!(game.selection_count(), 1);
    let r2 = game.select_card(5).unwrap();
    assert_eq!(r2, (decode(5), false));
    assert!(!game.is_selected(5));
    assert_eq!(game.selection_count(), 0);
    assert_eq!(game.shown_count(), 12);
    assert_eq!(game.pile_count(), 69);
}

#[test]
fn select_out_of_bounds_is_rejected() {
    let mut game = Game::new(identity_permutation());
    assert_eq!(game.select_card(12), Err(()));
    assert_eq!(game.select_card(1000), Err(()));
    assert_eq!(game.selection_count(), 0);
    assert_eq!(game.shown_count(), 12);
    assert_eq!(game.pile_count(), 69);
}

#[test]
fn pop_last_deselects_in_reverse_order() {
    let mut game = Game::new(identity_permutation());
    game.select_card(0).unwrap();
    game.select_card(3).unwrap();
    assert_eq!(game.pop_last(), Some(decode(3)));
    assert_eq!(game.selection_count(), 1);
    assert!(game.is_selected(0));
    assert_eq!(game.pop_last(), Some(decode(0)));
    assert_eq!(game.pop_last(), None);
    assert_eq!(game.selection_count(), 0);
}

#[test]
fn check_with_too_few_selected_changes_nothing() {
    let mut game = Game::new(identity_permutation());
    assert_eq!(game.check_selected_set(), None);
    game.select_card(0).unwrap();
    assert_eq!(game.check_selected_set(), None);
    game.select_card(1).unwrap();
    assert_eq!(game.check_selected_set(), None);
    assert_eq!(game.selection_count(), 2);
    assert!(game.is_selected(0));
    assert!(game.is_selected(1));
    assert_eq!(game.shown_count(), 12);
    assert_eq!(game.pile_count(), 69);
    for i in 0..12 {
        assert_eq!(game.card_at(i), decode(i as u8));
    }
}

#[test]
fn check_mismatch_reports_cards_and_clears_selection() {
    let mut game = Game::new(identity_permutation());
    game.select_card(0).unwrap();
    game.select_card(1).unwrap();
    game.select_card(3).unwrap();
    // third(card 0, card 1) is card 2, not card 3: no set.
    let r = game.check_selected_set();
    assert_eq!(r, Some(Err((decode(3), decode(1), decode(0)))));
    assert_eq!(game.selection_count(), 0);
    assert_eq!(game.shown_count(), 12);
    assert_eq!(game.pile_count(), 69);
    for i in 0..12 {
        assert_eq!(game.card_at(i), decode(i as u8));
    }
}

#[test]
fn replenish_draws_three_at_a_time_until_set() {
    let permutation = setless_start_permutation();
    let first_twelve: Vec<Card> = permutation[..12].iter().map(|&id| decode(id)).collect();
    assert!(!Game::has_set(&first_twelve));
    let game = Game::new(permutation);
    // one round of three cards was enough: 2, 5 and 8 form a set
    assert_eq!(game.shown_count(), 15);
    assert_eq!(game.pile_count(), 66);
    assert!(!game.has_ended());
    let shown: Vec<Card> = (0..15).map(|i| game.card_at(i)).collect();
    assert!(Game::has_set(&shown));
}

#[test]
fn playing_every_set_exhausts_the_pile_and_ends_the_game() {
    let mut game = Game::new(identity_permutation());
    let mut rounds = 0;
    while !game.has_ended() {
        assert!(rounds < 27, "a full deck holds at most 27 sets");
        let n = game.shown_count();
        let shown: Vec<Card> = (0..n).map(|i| game.card_at(i)).collect();
        // while the game is not over, the board always shows a set: find one
        let mut found = None;
        'outer: for i in 0..n {
            for j in i + 1..n {
                for k in 0..n {
                    if k != i && k != j && shown[i].third(&shown[j]) == shown[k] {
                        found = Some((i, j, k));
                        break 'outer;
                    }
                }
            }
        }
        let (i, j, k) = found.expect("an unfinished game always shows a set");
        game.select_card(i).unwrap();
        game.select_card(j).unwrap();
        game.select_card(k).unwrap();
        let verdict = game.check_selected_set().expect("three cards were selected");
        assert!(verdict.is_ok(), "any labelling of a set triple matches");
        // the board and pile keep moving in threes, and the selection clears
        assert_eq!(game.shown_count() % 3, 0);
        assert_eq!(game.pile_count() % 3, 0);
        assert_eq!(game.selection_count(), 0);
        if !game.has_ended() && game.pile_count() > 0 {
            assert!(game.shown_count() >= 12);
        }
        rounds += 1;
    }
    assert_eq!(game.pile_count(), 0);
}

#[test]
fn matched_set_is_replaced_from_the_end_of_the_pile() {
    let permutation = replace_scenario_permutation();
    let game_start = &permutation[..12];
    let remaining_nine: Vec<Card> = game_start[..9].iter().map(|&id| decode(id)).collect();
    assert!(!Game::has_set(&remaining_nine));
    let mut game = Game::new(permutation);
    assert_eq!(game.shown_count(), 12);
    assert_eq!(game.pile_count(), 69);
    game.select_card(9).unwrap();
    game.select_card(10).unwrap();
    game.select_card(11).unwrap();
    // third(card 2, card 5) is card 8: a set, removed and replaced
    let r = game.check_selected_set();
    assert_eq!(r, Some(Ok((decode(8), decode(5), decode(2)))));
    assert_eq!(game.selection_count(), 0);
    assert_eq!(game.shown_count(), 12);
    assert_eq!(game.pile_count(), 66);
    assert!(!game.has_ended());
    // the vacated positions took the last three pile cards
    assert_eq!(game.card_at(9), decode(6));
    assert_eq!(game.card_at(10), decode(11));
    assert_eq!(game.card_at(11), decode(22));
    // the rest of the board is untouched
    for i in 0..9 {
        assert_eq!(game.card_at(i), remaining_nine[i]);
    }
}
