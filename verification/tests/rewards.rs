use panda_economy::error::Error;
use panda_economy::game_rewards::{
    GameRewards, GameScore, HistoryRecord, BASE_REWARD_MULTIPLIER, COMBO_BONUS_MULTIPLIER,
};
use panda_economy::panda_token::PandaToken;
use panda_economy::principal::{Consent, Principal};
use soroban_sdk::Env;

fn admin() -> Principal {
    Principal::account(0, 1)
}

fn token() -> Principal {
    Principal::contract(0, 2)
}

fn nft() -> Principal {
    Principal::contract(0, 3)
}

fn player() -> Principal {
    Principal::account(5, 50)
}

fn other() -> Principal {
    Principal::account(6, 60)
}

fn engine() -> GameRewards {
    let mut engine = GameRewards::new();
    assert_eq!(engine.initialize(&Consent::of(admin()), admin(), token(), nft()), Ok(()));
    engine
}

#[test]
fn reward_of_score_100_combo_3() {
    assert_eq!(GameRewards::calculate_reward(100, 3), Ok(115_000_000));
}

#[test]
fn reward_formula_on_other_values() {
    assert_eq!(GameRewards::calculate_reward(0, 0), Ok(0));
    assert_eq!(GameRewards::calculate_reward(1, 0), Ok(1_000_000));
    assert_eq!(GameRewards::calculate_reward(0, 1), Ok(5_000_000));
    assert_eq!(GameRewards::calculate_reward(-2, 1), Ok(3_000_000));
    assert_eq!(GameRewards::calculate_reward(-7, 0), Ok(-7_000_000));
    assert_eq!(
        GameRewards::calculate_reward(42, u32::MAX),
        Ok(42_000_000 + 4_294_967_295i128 * 5_000_000)
    );
}

#[test]
fn reward_overflow_is_an_error() {
    assert_eq!(GameRewards::calculate_reward(i128::MAX, 0), Err(Error::ArithmeticOverflow));
    assert_eq!(GameRewards::calculate_reward(i128::MIN, 5), Err(Error::ArithmeticOverflow));
    let largest = i128::MAX / 1_000_000;
    assert_eq!(GameRewards::calculate_reward(largest, 0), Ok(largest * 1_000_000));
    assert_eq!(GameRewards::calculate_reward(largest, 1), Err(Error::ArithmeticOverflow));
    assert_eq!(GameRewards::calculate_reward(largest + 1, 0), Err(Error::ArithmeticOverflow));
}

#[test]
fn reward_rate_is_the_two_multipliers() {
    assert_eq!(GameRewards::get_reward_rate(), (1_000_000, 5_000_000));
    assert_eq!(BASE_REWARD_MULTIPLIER, 1_000_000);
    assert_eq!(COMBO_BONUS_MULTIPLIER, 5_000_000);
}

#[test]
fn new_engine_has_zero_defaults() {
    let engine = GameRewards::new();
    assert_eq!(engine.get_total_games_played(), 0);
    assert!(engine.get_player_scores(player()).is_empty());
}

#[test]
fn submit_score_returns_the_reward_and_credits_the_player() {
    let env = Env::default();
    let mut ledger = PandaToken::new(&env);
    let mut engine = engine();
    let reward = engine.submit_score(&mut ledger, &Consent::of(player()), player(), 100, 2_500, 3, Some(4), 777);
    assert_eq!(reward, Ok(115_000_000));
    assert_eq!(ledger.balance(player()), 115_000_000);
    assert_eq!(engine.get_total_games_played(), 1);
    assert_eq!(
        engine.get_player_scores(player()),
        vec![GameScore {
            player: player(),
            score: 100,
            distance: 2_500,
            combo: 3,
            timestamp: 777,
            panda_nft_id: Some(4),
        }]
    );
}

#[test]
fn history_holds_every_submission_in_call_order() {
    let env = Env::default();
    let mut ledger = PandaToken::new(&env);
    let mut engine = engine();
    for n in 0..6i128 {
        let consent = Consent::of(player());
        let result = engine.submit_score(&mut ledger, &consent, player(), n, 10 * n, 1, None, 1_000 + n as u64);
        assert_eq!(result, Ok(n * 1_000_000 + 5_000_000));
        if n == 2 {
            let consent = Consent::of(other());
            assert!(engine.submit_score(&mut ledger, &consent, other(), 9, 9, 9, None, 5).is_ok());
        }
    }
    let scores = engine.get_player_scores(player());
    assert_eq!(scores.len(), 6);
    for (n, record) in scores.iter().enumerate() {
        assert_eq!(record.score, n as i128);
        assert_eq!(record.distance, 10 * n as i128);
        assert_eq!(record.timestamp, 1_000 + n as u64);
        assert_eq!(record.player, player());
    }
    assert_eq!(engine.get_player_scores(other()).len(), 1);
    assert_eq!(engine.get_total_games_played(), 7);
    assert_eq!(ledger.balance(player()), 15_000_000 + 6 * 5_000_000);
}

#[test]
fn submit_score_without_the_players_consent_is_unauthorized() {
    let env = Env::default();
    let mut ledger = PandaToken::new(&env);
    let mut engine = engine();
    let result = engine.submit_score(&mut ledger, &Consent::of(other()), player(), 100, 1, 3, None, 1);
    assert_eq!(result, Err(Error::Unauthorized));
    assert_eq!(engine.get_total_games_played(), 0);
    assert!(engine.get_player_scores(player()).is_empty());
    assert_eq!(ledger.balance(player()), 0);
}

#[test]
fn submit_score_with_an_overflowing_reward_changes_nothing() {
    let env = Env::default();
    let mut ledger = PandaToken::new(&env);
    let mut engine = engine();
    let result = engine.submit_score(&mut ledger, &Consent::of(player()), player(), i128::MAX, 1, 3, None, 1);
    assert_eq!(result, Err(Error::ArithmeticOverflow));
    assert_eq!(engine.get_total_games_played(), 0);
    assert!(engine.get_player_scores(player()).is_empty());
}

#[test]
fn submit_score_before_initialize_is_not_initialized() {
    let env = Env::default();
    let mut ledger = PandaToken::new(&env);
    let mut engine = GameRewards::new();
    let result = engine.submit_score(&mut ledger, &Consent::of(player()), player(), 1, 1, 1, None, 1);
    assert_eq!(result, Err(Error::NotInitialized));
    assert_eq!(engine.get_total_games_played(), 0);
    assert_eq!(ledger.balance(player()), 0);
}

#[test]
fn failed_credit_rolls_the_submission_back() {
    let env = Env::default();
    let mut ledger = PandaToken::new(&env);
    let mut engine = engine();
    assert_eq!(
        engine.submit_score(&mut ledger, &Consent::of(player()), player(), 10, 1, 0, None, 1),
        Ok(10_000_000)
    );
    assert_eq!(ledger.mint(&Consent::none(), player(), i128::MAX - 10_000_000), Ok(()));
    let result = engine.submit_score(&mut ledger, &Consent::of(player()), player(), 1, 1, 0, None, 2);
    assert_eq!(result, Err(Error::ArithmeticOverflow));
    assert_eq!(engine.get_player_scores(player()).len(), 1);
    assert_eq!(engine.get_total_games_played(), 1);
    assert_eq!(ledger.balance(player()), i128::MAX);
    let result = engine.submit_score(&mut ledger, &Consent::of(other()), other(), -1, 1, 0, None, 3);
    assert_eq!(result, Err(Error::ArithmeticOverflow));
    assert!(engine.get_player_scores(other()).is_empty());
    assert_eq!(engine.get_total_games_played(), 1);
    assert_eq!(ledger.balance(other()), 0);
}

#[test]
fn prepare_then_record_with_a_failed_credit_changes_nothing() {
    let mut engine = engine();
    let submission = engine
        .prepare_score(&Consent::of(player()), player(), 100, 7, 3, Some(1), 55)
        .unwrap();
    assert_eq!(submission.reward, 115_000_000);
    assert_eq!(submission.token_address, token());
    assert_eq!(submission.record.timestamp, 55);
    assert_eq!(engine.get_total_games_played(), 0);
    let failed = engine.record_score(&submission, Err(Error::InsufficientBalance));
    assert_eq!(failed, Err(Error::InsufficientBalance));
    assert_eq!(engine.get_total_games_played(), 0);
    assert!(engine.get_player_scores(player()).is_empty());
    let done = engine.record_score(&submission, Ok(()));
    assert_eq!(done, Ok(115_000_000));
    assert_eq!(engine.get_total_games_played(), 1);
    assert_eq!(engine.get_player_scores(player()), vec![submission.record]);
}

#[test]
fn update_token_address_repoints_later_submissions() {
    let mut engine = engine();
    let new_token = Principal::contract(9, 9);
    assert_eq!(engine.update_token_address(&Consent::of(admin()), new_token), Ok(()));
    let submission = engine
        .prepare_score(&Consent::of(player()), player(), 1, 1, 1, None, 1)
        .unwrap();
    assert_eq!(submission.token_address, new_token);
}

#[test]
fn update_token_address_without_admin_consent_is_unauthorized_and_changes_nothing() {
    let mut engine = engine();
    let new_token = Principal::contract(9, 9);
    assert_eq!(engine.update_token_address(&Consent::of(player()), new_token), Err(Error::Unauthorized));
    assert_eq!(engine.update_token_address(&Consent::none(), new_token), Err(Error::Unauthorized));
    let submission = engine
        .prepare_score(&Consent::of(player()), player(), 1, 1, 1, None, 1)
        .unwrap();
    assert_eq!(submission.token_address, token());
}

#[test]
fn update_token_address_before_initialize_is_not_initialized() {
    let mut engine = GameRewards::new();
    assert_eq!(
        engine.update_token_address(&Consent::of(admin()), token()),
        Err(Error::NotInitialized)
    );
}

#[test]
fn engine_initialize_needs_the_admins_consent() {
    let mut engine = GameRewards::new();
    assert_eq!(engine.initialize(&Consent::of(player()), admin(), token(), nft()), Err(Error::Unauthorized));
    assert_eq!(
        engine.prepare_score(&Consent::of(player()), player(), 1, 1, 1, None, 1),
        Err(Error::NotInitialized)
    );
}

#[test]
fn engine_initialize_again_resets_the_count_and_keeps_the_histories() {
    let env = Env::default();
    let mut ledger = PandaToken::new(&env);
    let mut engine = engine();
    assert!(engine.submit_score(&mut ledger, &Consent::of(player()), player(), 1, 1, 1, None, 1).is_ok());
    assert_eq!(engine.get_total_games_played(), 1);
    assert_eq!(engine.initialize(&Consent::of(admin()), admin(), token(), nft()), Ok(()));
    assert_eq!(engine.get_total_games_played(), 0);
    assert_eq!(engine.get_player_scores(player()).len(), 1);
}

fn score_of(who: Principal, score: i128) -> GameScore {
    GameScore { player: who, score, distance: 0, combo: 0, timestamp: 1, panda_nft_id: None }
}

#[test]
fn restore_gathers_the_scores_of_each_player() {
    let histories = vec![
        HistoryRecord { player: player(), scores: vec![score_of(player(), 1), score_of(player(), 2)] },
        HistoryRecord { player: other(), scores: vec![score_of(other(), 3)] },
        HistoryRecord { player: player(), scores: vec![score_of(player(), 4)] },
    ];
    let mut engine = GameRewards::restore(Some(admin()), Some(token()), None, 41, &histories);
    assert_eq!(engine.get_admin(), Some(admin()));
    assert_eq!(engine.get_token_address(), Some(token()));
    assert_eq!(engine.get_nft_address(), None);
    assert_eq!(engine.get_total_games_played(), 41);
    assert_eq!(
        engine.get_player_scores(player()),
        vec![score_of(player(), 1), score_of(player(), 2), score_of(player(), 4)]
    );
    assert_eq!(engine.get_player_scores(other()), vec![score_of(other(), 3)]);
    let submission = engine
        .prepare_score(&Consent::of(other()), other(), 1, 1, 1, None, 1)
        .unwrap();
    assert_eq!(engine.record_score(&submission, Ok(())), Ok(6_000_000));
    assert_eq!(engine.get_total_games_played(), 42);
    assert_eq!(engine.get_player_scores(other()).len(), 2);
}

#[test]
fn count_of_games_cannot_pass_its_range() {
    let mut engine = GameRewards::restore(Some(admin()), Some(token()), Some(nft()), u64::MAX, &vec![]);
    assert_eq!(
        engine.prepare_score(&Consent::of(player()), player(), 1, 1, 1, None, 1),
        Err(Error::ArithmeticOverflow)
    );
    let mut before = GameRewards::restore(Some(admin()), Some(token()), Some(nft()), u64::MAX - 1, &vec![]);
    let submission = before
        .prepare_score(&Consent::of(player()), player(), 1, 1, 1, None, 1)
        .unwrap();
    assert_eq!(engine.record_score(&submission, Ok(())), Err(Error::ArithmeticOverflow));
    assert_eq!(engine.get_total_games_played(), u64::MAX);
    assert!(engine.get_player_scores(player()).is_empty());
    assert_eq!(before.record_score(&submission, Ok(())), Ok(6_000_000));
    assert_eq!(before.get_total_games_played(), u64::MAX);
}

#[test]
fn submission_to_a_restricted_ledger_needs_a_minter_among_the_consenting() {
    let env = Env::default();
    let mut ledger = PandaToken::new(&env);
    ledger.initialize(&env, admin());
    assert_eq!(ledger.add_minter(&Consent::of(admin()), token()), Ok(()));
    assert_eq!(ledger.restrict_minting(&Consent::of(admin()), true), Ok(()));
    let mut engine = engine();
    let alone = Consent::of(player());
    assert_eq!(
        engine.submit_score(&mut ledger, &alone, player(), 100, 1, 3, None, 1),
        Err(Error::Unauthorized)
    );
    assert_eq!(engine.get_total_games_played(), 0);
    assert!(engine.get_player_scores(player()).is_empty());
    assert_eq!(ledger.balance(player()), 0);
    let mut with_minter = Consent::of(player());
    with_minter.grant(token());
    assert_eq!(
        engine.submit_score(&mut ledger, &with_minter, player(), 100, 1, 3, None, 1),
        Ok(115_000_000)
    );
    assert_eq!(ledger.balance(player()), 115_000_000);
    assert_eq!(engine.get_total_games_played(), 1);
}

#[test]
fn reward_whose_first_product_overflows_is_an_error_even_if_the_sum_would_fit() {
    let score = i128::MIN / 1_000_000 - 1;
    assert_eq!(GameRewards::calculate_reward(score, 1), Err(Error::ArithmeticOverflow));
    assert_eq!(
        GameRewards::calculate_reward(score + 1, 1),
        Ok((score + 1) * 1_000_000 + 5_000_000)
    );
}
