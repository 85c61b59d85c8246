use yahtzee::ai::{choose_category, choose_keep, evaluate_entry, YahtzeeAI};
use yahtzee::dice::{dice_value, is_subset, keep_subset, number_count};
use yahtzee::game::GameState;
use yahtzee::human::Human;
use yahtzee::player::Player;
use yahtzee::scorecard::Scorecard;
use yahtzee::subsets::subsets;
use yahtzee::tosses::all_tosses;
use yahtzee::dice::MyDice;
use yahtzee::types::{possible_entries, qualifies, score, Category, DiceCategory, MyEntry, YahtzeeError};

#[test]
fn score_full_house_cases() {
    assert_eq!(score(Category::FullHouse, &vec![2, 2, 2, 3, 3]), 25);
    assert_eq!(score(Category::FullHouse, &vec![2, 2, 3, 4, 5]), 0);
}

#[test]
fn score_straight_cases() {
    assert_eq!(score(Category::SmallStraight, &vec![1, 2, 3, 4, 6]), 30);
    assert_eq!(score(Category::LargeStraight, &vec![1, 2, 3, 4, 6]), 0);
    assert_eq!(score(Category::LargeStraight, &vec![2, 3, 4, 5, 6]), 40);
}

#[test]
fn score_yahtzee_and_chance_cases() {
    assert_eq!(score(Category::Yahtzee, &vec![4, 4, 4, 4, 4]), 50);
    assert_eq!(score(Category::Chance, &vec![1, 1, 1, 1, 1]), 5);
}

#[test]
fn score_upper_and_kinds() {
    assert_eq!(score(Category::Ones, &vec![1, 1, 2, 3, 4]), 2);
    assert_eq!(score(Category::Twos, &vec![2, 2, 2, 3, 3]), 6);
    assert_eq!(score(Category::Sixes, &vec![6, 6, 6, 6, 6]), 30);
    assert_eq!(score(Category::ThreeOfAKind, &vec![2, 2, 2, 3, 3]), 12);
    assert_eq!(score(Category::FourOfAKind, &vec![2, 2, 2, 3, 3]), 0);
    assert_eq!(score(Category::FourOfAKind, &vec![5, 5, 5, 5, 2]), 22);
    assert!(qualifies(Category::ThreeOfAKind, &vec![2, 6, 6, 6, 1]));
    assert!(!qualifies(Category::FourOfAKind, &vec![2, 6, 6, 6, 1]));
}

#[test]
fn toss_multiplicities_sum_to_powers_of_six() {
    for k in 0..=5u8 {
        let tosses = all_tosses(k);
        let total: usize = tosses.iter().map(|p| p.1).sum();
        assert_eq!(total, 6usize.pow(k as u32));
    }
}

#[test]
fn toss_outcomes_zero_dice() {
    let tosses = all_tosses(0);
    assert_eq!(tosses.len(), 1);
    assert_eq!(tosses[0], (vec![], 1));
}

#[test]
fn enumeration_is_reproducible() {
    let hand: Vec<u8> = vec![1, 2, 2, 5, 5];
    assert_eq!(subsets(&hand), subsets(&hand));
    assert_eq!(all_tosses(3), all_tosses(3));
}

#[test]
fn subsets_are_distinct_and_counted() {
    let hand: Vec<u8> = vec![1, 2, 3, 3];
    let subs = subsets(&hand);
    assert_eq!(subs.len(), 12);
    for i in 0..subs.len() {
        assert!(is_subset(&subs[i], &hand));
        for j in i + 1..subs.len() {
            assert_ne!(subs[i], subs[j]);
        }
    }
}

#[test]
fn choose_category_picks_small_straight() {
    let card = Scorecard::new();
    let hand: Vec<u8> = vec![1, 1, 2, 3, 4];
    let first = choose_category(&card, &hand);
    let second = choose_category(&card, &hand);
    assert_eq!(first, Ok(Category::SmallStraight));
    assert_eq!(first, second);
}

#[test]
fn choose_category_full_scorecard_fails() {
    let mut card = Scorecard::new();
    for cat in Category::into_iter() {
        card.add((cat, 1));
    }
    assert_eq!(
        choose_category(&card, &vec![1, 2, 3, 4, 5]),
        Err(YahtzeeError::NoCategoryAvailable)
    );
}

#[test]
fn choose_keep_holds_a_made_yahtzee() {
    let card = Scorecard::new();
    let keep = choose_keep(&card, 1, &vec![4, 4, 4, 4, 4]);
    assert_eq!(keep, Ok(vec![4, 4, 4, 4, 4]));
}

#[test]
fn choose_keep_holds_a_made_large_straight() {
    let card = Scorecard::new();
    let keep = choose_keep(&card, 2, &vec![1, 2, 3, 4, 5]);
    assert_eq!(keep, Ok(vec![1, 2, 3, 4, 5]));
}

#[test]
fn choose_keep_rejects_long_hands() {
    let card = Scorecard::new();
    let keep = choose_keep(&card, 1, &vec![1, 1, 2, 2, 3, 3]);
    assert_eq!(keep, Err(YahtzeeError::InvalidHandLength));
}

#[test]
fn scorecard_totals_and_bonus() {
    let mut card = Scorecard::new();
    assert!(!card.has_bonus());
    card.add((Category::Sixes, 30));
    card.add((Category::Fives, 25));
    assert!(!card.has_bonus());
    assert_eq!(card.bonus_progress(), 22);
    card.add((Category::Fours, 8));
    assert!(card.has_bonus());
    assert_eq!(card.value_upper(), 63);
    assert_eq!(card.bonus_progress(), 18);
    card.add((Category::Yahtzee, 50));
    assert_eq!(card.value_lower(), 50);
    assert_eq!(card.value(), 63 + 35 + 50);
    assert_eq!(card.get(Category::Sixes), Some(30));
    assert_eq!(card.get(Category::Ones), None);
    assert!(card.has(Category::Fives));
    assert!(!card.has(Category::Chance));
}

#[test]
fn entry_evaluation_boosts_only_before_bonus() {
    let open = Scorecard::new();
    assert_eq!(evaluate_entry(&open, &(Category::Sixes, 30)), 42);
    assert_eq!(evaluate_entry(&open, &(Category::Ones, 1)), -1);
    assert_eq!(evaluate_entry(&open, &(Category::Yahtzee, 50)), 50);
    let mut secured = Scorecard::new();
    secured.add((Category::Sixes, 30));
    secured.add((Category::Fives, 25));
    secured.add((Category::Fours, 8));
    assert_eq!(evaluate_entry(&secured, &(Category::Threes, 9)), 9);
}

#[test]
fn hand_queries() {
    let hand: Vec<u8> = vec![1, 2, 5, 5, 6];
    assert_eq!(dice_value(&hand), 19);
    assert_eq!(number_count(&hand, 5), 2);
    assert_eq!(number_count(&hand, 3), 0);
    assert_eq!(keep_subset(&vec![2, 2, 3], &vec![2]), vec![2, 2]);
    assert_eq!(keep_subset(&vec![1, 2, 3], &vec![4]), Vec::<u8>::new());
    assert_eq!(keep_subset(&vec![1, 2, 2, 5], &vec![2, 5]), vec![2, 2, 5]);
}

#[test]
fn possible_entries_lists_all_categories() {
    let entries = possible_entries(&vec![2, 2, 2, 3, 3]);
    assert_eq!(entries.len(), 13);
    assert!(entries.contains(&(Category::Twos, 6)));
    assert!(entries.contains(&(Category::Threes, 6)));
    assert!(entries.contains(&(Category::ThreeOfAKind, 12)));
    assert!(entries.contains(&(Category::FullHouse, 25)));
    assert!(entries.contains(&(Category::Yahtzee, 0)));
    assert!(entries.contains(&(Category::Chance, 12)));
}

#[test]
fn automated_player_scores_a_yahtzee() {
    let ai = YahtzeeAI::new();
    let card = Scorecard::new();
    let entry = ai.decide_entry(&card, &vec![4, 4, 4, 4, 4]);
    assert_eq!(entry, (Category::Yahtzee, 50));
    let keep = ai.decide_keep(&card, 1, &vec![4, 4, 4, 4, 4]);
    assert_eq!(keep, vec![4, 4, 4, 4, 4]);
    assert_eq!(ai.name(), "KI");
}

#[test]
fn game_state_records_turns() {
    let mut state = GameState::new();
    state.write_entry(vec![1, 1, 2, 3, 4], (Category::SmallStraight, 30));
    assert_eq!(state.history.len(), 1);
    assert!(state.scorecard.has(Category::SmallStraight));
    assert_eq!(state.scorecard.get(Category::SmallStraight), Some(30));
}

#[test]
fn player_names() {
    assert_eq!(YahtzeeAI::new().player_name(), "KI");
    assert_eq!(Human::new("Ada").player_name(), "Ada");
}

#[test]
fn trait_views_of_hands_and_entries() {
    let hand: Vec<u8> = vec![2, 2, 2, 3, 3];
    assert_eq!(hand.value(), 12);
    assert_eq!(hand.number_count(2), 3);
    assert_eq!(hand.keep_subset(&vec![2]), vec![2, 2, 2]);
    assert!(hand.is_category(&Category::FullHouse));
    assert_eq!(hand.value_of_category(&Category::FullHouse), 25);
    assert_eq!(hand.entry_of_category(Category::Twos), (Category::Twos, 6));
    assert_eq!(hand.possible_entries().len(), 13);
    let entry = (Category::Twos, 6u8);
    assert!(entry.is_upper());
    assert_eq!(entry.upper_above_bonus(), 0);
    assert_eq!((Category::Ones, 5u8).upper_above_bonus(), 2);
    assert!(!(Category::Chance, 20u8).is_upper());
}

#[test]
fn permutation_and_subset_are_not_trivial() {
    assert!(!yahtzee::dice::is_permutation(&vec![1, 2, 3], &vec![1, 2, 4]));
    assert!(!yahtzee::dice::is_permutation(&vec![1, 2], &vec![1, 2, 2]));
    assert!(!is_subset(&vec![5, 5, 5], &vec![1, 2, 5, 5, 6]));
}
