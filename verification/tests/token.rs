use panda_economy::error::Error;
use panda_economy::panda_token::PandaToken;
use panda_economy::principal::{Consent, Principal};
use soroban_sdk::Env;

fn alice() -> Principal {
    Principal::account(1, 10)
}

fn bob() -> Principal {
    Principal::account(1, 11)
}

fn carol() -> Principal {
    Principal::contract(1, 10)
}

#[test]
fn new_ledger_is_empty() {
    let env = Env::default();
    let ledger = PandaToken::new(&env);
    assert_eq!(ledger.balance(alice()), 0);
    assert!(!ledger.is_initialized());
    assert!(!ledger.minters_only());
    assert_eq!(ledger.get_admin(), Err(Error::NotInitialized));
    assert!(ledger.minters().is_empty());
}

#[test]
fn initialize_seeds_the_minters_with_the_admin() {
    let env = Env::default();
    let mut ledger = PandaToken::new(&env);
    ledger.initialize(&env, alice());
    assert!(ledger.is_initialized());
    assert_eq!(ledger.get_admin(), Ok(alice()));
    assert_eq!(ledger.minters(), vec![alice()]);
}

#[test]
fn initialize_twice_resets_admin_and_minters_but_not_balances() {
    let env = Env::default();
    let mut ledger = PandaToken::new(&env);
    ledger.initialize(&env, alice());
    assert_eq!(ledger.add_minter(&Consent::of(alice()), bob()), Ok(()));
    assert_eq!(ledger.mint(&Consent::none(), bob(), 40), Ok(()));
    ledger.initialize(&env, carol());
    assert_eq!(ledger.get_admin(), Ok(carol()));
    assert_eq!(ledger.minters(), vec![carol()]);
    assert_eq!(ledger.balance(bob()), 40);
}

#[test]
fn add_minter_appends_without_deduplication() {
    let env = Env::default();
    let mut ledger = PandaToken::new(&env);
    ledger.initialize(&env, alice());
    let consent = Consent::of(alice());
    assert_eq!(ledger.add_minter(&consent, bob()), Ok(()));
    assert_eq!(ledger.add_minter(&consent, bob()), Ok(()));
    assert_eq!(ledger.minters(), vec![alice(), bob(), bob()]);
}

#[test]
fn add_minter_without_admin_consent_is_unauthorized_and_changes_nothing() {
    let env = Env::default();
    let mut ledger = PandaToken::new(&env);
    ledger.initialize(&env, alice());
    assert_eq!(ledger.add_minter(&Consent::of(bob()), bob()), Err(Error::Unauthorized));
    assert_eq!(ledger.add_minter(&Consent::none(), bob()), Err(Error::Unauthorized));
    assert_eq!(ledger.minters(), vec![alice()]);
    assert_eq!(ledger.get_admin(), Ok(alice()));
}

#[test]
fn add_minter_before_initialize_is_not_initialized() {
    let env = Env::default();
    let mut ledger = PandaToken::new(&env);
    assert_eq!(ledger.add_minter(&Consent::of(alice()), bob()), Err(Error::NotInitialized));
    assert!(ledger.minters().is_empty());
}

#[test]
fn mint_adds_to_the_balance() {
    let env = Env::default();
    let mut ledger = PandaToken::new(&env);
    assert_eq!(ledger.mint(&Consent::none(), alice(), 115_000_000), Ok(()));
    assert_eq!(ledger.mint(&Consent::none(), alice(), 5), Ok(()));
    assert_eq!(ledger.balance(alice()), 115_000_005);
    assert_eq!(ledger.balance(bob()), 0);
}

#[test]
fn principals_of_different_kind_have_different_balances() {
    let env = Env::default();
    let mut ledger = PandaToken::new(&env);
    assert_eq!(ledger.mint(&Consent::none(), alice(), 7), Ok(()));
    assert_eq!(ledger.mint(&Consent::none(), carol(), 9), Ok(()));
    assert_eq!(ledger.balance(alice()), 7);
    assert_eq!(ledger.balance(carol()), 9);
    assert_eq!(ledger.balance(Principal::account(10, 1)), 0);
}

#[test]
fn mint_beyond_the_range_overflows_and_changes_nothing() {
    let env = Env::default();
    let mut ledger = PandaToken::new(&env);
    assert_eq!(ledger.mint(&Consent::none(), alice(), i128::MAX), Ok(()));
    assert_eq!(ledger.mint(&Consent::none(), alice(), 1), Err(Error::ArithmeticOverflow));
    assert_eq!(ledger.balance(alice()), i128::MAX);
}

#[test]
fn mint_below_zero_overflows_and_changes_nothing() {
    let env = Env::default();
    let mut ledger = PandaToken::new(&env);
    assert_eq!(ledger.mint(&Consent::none(), alice(), 10), Ok(()));
    assert_eq!(ledger.mint(&Consent::none(), alice(), -11), Err(Error::ArithmeticOverflow));
    assert_eq!(ledger.balance(alice()), 10);
    assert_eq!(ledger.mint(&Consent::none(), alice(), -10), Ok(()));
    assert_eq!(ledger.balance(alice()), 0);
}

#[test]
fn transfer_moves_the_amount_and_conserves_the_sum() {
    let env = Env::default();
    let mut ledger = PandaToken::new(&env);
    assert_eq!(ledger.mint(&Consent::none(), alice(), 100), Ok(()));
    assert_eq!(ledger.mint(&Consent::none(), bob(), 20), Ok(()));
    assert_eq!(ledger.mint(&Consent::none(), carol(), 3), Ok(()));
    let before = ledger.balance(alice()) + ledger.balance(bob());
    assert_eq!(ledger.transfer(&Consent::of(alice()), alice(), bob(), 30), Ok(()));
    assert_eq!(ledger.balance(alice()), 70);
    assert_eq!(ledger.balance(bob()), 50);
    assert_eq!(ledger.balance(carol()), 3);
    assert_eq!(ledger.balance(alice()) + ledger.balance(bob()), before);
}

#[test]
fn transfer_of_the_whole_balance_succeeds() {
    let env = Env::default();
    let mut ledger = PandaToken::new(&env);
    assert_eq!(ledger.mint(&Consent::none(), alice(), 100), Ok(()));
    assert_eq!(ledger.transfer(&Consent::of(alice()), alice(), bob(), 100), Ok(()));
    assert_eq!(ledger.balance(alice()), 0);
    assert_eq!(ledger.balance(bob()), 100);
}

#[test]
fn transfer_beyond_the_balance_is_insufficient_and_changes_nothing() {
    let env = Env::default();
    let mut ledger = PandaToken::new(&env);
    assert_eq!(ledger.mint(&Consent::none(), alice(), 100), Ok(()));
    assert_eq!(
        ledger.transfer(&Consent::of(alice()), alice(), bob(), 101),
        Err(Error::InsufficientBalance)
    );
    assert_eq!(ledger.balance(alice()), 100);
    assert_eq!(ledger.balance(bob()), 0);
}

#[test]
fn transfer_from_an_unknown_principal_is_insufficient() {
    let env = Env::default();
    let mut ledger = PandaToken::new(&env);
    assert_eq!(
        ledger.transfer(&Consent::of(alice()), alice(), bob(), 1),
        Err(Error::InsufficientBalance)
    );
    assert_eq!(ledger.transfer(&Consent::of(alice()), alice(), bob(), 0), Ok(()));
    assert_eq!(ledger.balance(alice()), 0);
    assert_eq!(ledger.balance(bob()), 0);
}

#[test]
fn transfer_without_the_senders_consent_is_unauthorized() {
    let env = Env::default();
    let mut ledger = PandaToken::new(&env);
    assert_eq!(ledger.mint(&Consent::none(), alice(), 100), Ok(()));
    assert_eq!(ledger.transfer(&Consent::of(bob()), alice(), bob(), 10), Err(Error::Unauthorized));
    assert_eq!(ledger.transfer(&Consent::none(), alice(), bob(), 10), Err(Error::Unauthorized));
    assert_eq!(ledger.balance(alice()), 100);
    assert_eq!(ledger.balance(bob()), 0);
}

#[test]
fn transfer_to_oneself_changes_nothing() {
    let env = Env::default();
    let mut ledger = PandaToken::new(&env);
    assert_eq!(ledger.mint(&Consent::none(), alice(), 100), Ok(()));
    assert_eq!(ledger.transfer(&Consent::of(alice()), alice(), alice(), 60), Ok(()));
    assert_eq!(ledger.balance(alice()), 100);
}

#[test]
fn transfer_that_would_overflow_the_receiver_changes_nothing() {
    let env = Env::default();
    let mut ledger = PandaToken::new(&env);
    assert_eq!(ledger.mint(&Consent::none(), alice(), 100), Ok(()));
    assert_eq!(ledger.mint(&Consent::none(), bob(), i128::MAX), Ok(()));
    assert_eq!(
        ledger.transfer(&Consent::of(alice()), alice(), bob(), 1),
        Err(Error::ArithmeticOverflow)
    );
    assert_eq!(ledger.balance(alice()), 100);
    assert_eq!(ledger.balance(bob()), i128::MAX);
}

#[test]
fn transfer_of_a_negative_amount_cannot_take_from_the_receiver_below_zero() {
    let env = Env::default();
    let mut ledger = PandaToken::new(&env);
    assert_eq!(ledger.mint(&Consent::none(), alice(), 100), Ok(()));
    assert_eq!(ledger.mint(&Consent::none(), bob(), 5), Ok(()));
    assert_eq!(
        ledger.transfer(&Consent::of(alice()), alice(), bob(), -6),
        Err(Error::ArithmeticOverflow)
    );
    assert_eq!(ledger.balance(alice()), 100);
    assert_eq!(ledger.balance(bob()), 5);
}

#[test]
fn consent_covers_exactly_those_who_were_granted() {
    let mut consent = Consent::none();
    assert!(!consent.covers(alice()));
    consent.grant(alice());
    consent.grant(carol());
    assert!(consent.covers(alice()));
    assert!(consent.covers(carol()));
    assert!(!consent.covers(bob()));
    assert!(Consent::of(bob()).covers(bob()));
    assert!(!Consent::of(bob()).covers(alice()));
}

#[test]
fn principal_key_is_kind_and_both_halves() {
    assert_eq!(Principal::account(3, 4).to_key(), (0, 3, 4));
    assert_eq!(Principal::contract(3, 4).to_key(), (1, 3, 4));
    assert_ne!(Principal::account(3, 4), Principal::contract(3, 4));
    assert_ne!(Principal::account(3, 4), Principal::account(4, 3));
}

#[test]
fn metadata_is_fixed() {
    assert_eq!(PandaToken::name(), "Panda Rewards Token");
    assert_eq!(PandaToken::symbol(), "PANDA");
    assert_eq!(PandaToken::decimals(), 7);
}

#[test]
fn error_messages() {
    assert_eq!(Error::Unauthorized.message(), "Unauthorized");
    assert_eq!(Error::InsufficientBalance.message(), "Insufficient balance");
    assert_eq!(Error::NotFound.message(), "NFT does not exist");
    assert_eq!(Error::AlreadyStaked.message(), "NFT is already staked");
    assert_eq!(Error::NotStaked.message(), "NFT is not staked");
    assert_eq!(Error::CapExceeded.message(), "Max 5 pandas per player");
    assert_eq!(Error::ArithmeticOverflow.message(), "Arithmetic overflow");
    assert_eq!(Error::NotInitialized.message(), "Not initialized");
}

#[test]
fn restore_files_each_amount_under_its_principal() {
    let env = Env::default();
    let balances = vec![(alice(), 5), (bob(), 7), (alice(), 9)];
    let mut ledger = PandaToken::restore(&env, Some(carol()), true, &vec![carol(), bob()], false, &balances).unwrap();
    assert_eq!(ledger.balance(alice()), 9);
    assert_eq!(ledger.balance(bob()), 7);
    assert_eq!(ledger.balance(carol()), 0);
    assert_eq!(ledger.get_admin(), Ok(carol()));
    assert!(ledger.is_initialized());
    assert_eq!(ledger.minters(), vec![carol(), bob()]);
    assert_eq!(ledger.transfer(&Consent::of(alice()), alice(), bob(), 9), Ok(()));
    assert_eq!(ledger.balance(bob()), 16);
}

#[test]
fn restore_refuses_a_negative_amount() {
    let env = Env::default();
    assert!(PandaToken::restore(&env, None, false, &vec![], false, &vec![(alice(), 5), (bob(), -1)]).is_none());
    assert!(PandaToken::restore(&env, None, false, &vec![], false, &vec![(alice(), -1), (alice(), 1)]).is_none());
    assert!(PandaToken::restore(&env, None, false, &vec![], false, &vec![(alice(), 0)]).is_some());
    assert!(PandaToken::restore(&env, None, false, &vec![], false, &vec![]).is_some());
}

#[test]
fn restricted_minting_needs_the_consent_of_a_minter() {
    let env = Env::default();
    let mut ledger = PandaToken::new(&env);
    ledger.initialize(&env, alice());
    assert_eq!(ledger.add_minter(&Consent::of(alice()), carol()), Ok(()));
    assert_eq!(ledger.restrict_minting(&Consent::of(alice()), true), Ok(()));
    assert!(ledger.minters_only());
    assert_eq!(ledger.mint(&Consent::none(), bob(), 5), Err(Error::Unauthorized));
    assert_eq!(ledger.mint(&Consent::of(bob()), bob(), 5), Err(Error::Unauthorized));
    assert_eq!(ledger.balance(bob()), 0);
    assert_eq!(ledger.mint(&Consent::of(carol()), bob(), 5), Ok(()));
    assert_eq!(ledger.mint(&Consent::of(alice()), bob(), 6), Ok(()));
    let mut both = Consent::of(bob());
    both.grant(carol());
    assert_eq!(ledger.mint(&both, bob(), 7), Ok(()));
    assert_eq!(ledger.balance(bob()), 18);
    assert_eq!(ledger.restrict_minting(&Consent::of(alice()), false), Ok(()));
    assert_eq!(ledger.mint(&Consent::none(), bob(), 1), Ok(()));
    assert_eq!(ledger.balance(bob()), 19);
}

#[test]
fn restrict_minting_is_for_the_admin() {
    let env = Env::default();
    let mut ledger = PandaToken::new(&env);
    assert_eq!(ledger.restrict_minting(&Consent::of(alice()), true), Err(Error::NotInitialized));
    ledger.initialize(&env, alice());
    assert_eq!(ledger.restrict_minting(&Consent::of(bob()), true), Err(Error::Unauthorized));
    assert!(!ledger.minters_only());
    assert_eq!(ledger.mint(&Consent::none(), bob(), 1), Ok(()));
}

#[test]
fn restore_keeps_the_minting_rule() {
    let env = Env::default();
    let mut ledger = PandaToken::restore(&env, Some(alice()), true, &vec![alice()], true, &vec![]).unwrap();
    assert!(ledger.minters_only());
    assert_eq!(ledger.mint(&Consent::none(), bob(), 1), Err(Error::Unauthorized));
    assert_eq!(ledger.mint(&Consent::of(alice()), bob(), 1), Ok(()));
}

#[test]
fn balances_are_kept_apart_for_keys_of_any_size() {
    let env = Env::default();
    let mut ledger = PandaToken::new(&env);
    let big = Principal::account(u128::MAX, u128::MAX);
    let near = Principal::account(u128::MAX, u128::MAX - 1);
    let swapped = Principal::account(u128::MAX - 1, u128::MAX);
    assert_eq!(ledger.mint(&Consent::none(), big, 1), Ok(()));
    assert_eq!(ledger.mint(&Consent::none(), near, 2), Ok(()));
    assert_eq!(ledger.mint(&Consent::none(), swapped, 4), Ok(()));
    assert_eq!(ledger.mint(&Consent::none(), big, 8), Ok(()));
    assert_eq!(ledger.balance(big), 9);
    assert_eq!(ledger.balance(near), 2);
    assert_eq!(ledger.balance(swapped), 4);
    assert_eq!(ledger.balance(Principal::contract(u128::MAX, u128::MAX)), 0);
    assert_eq!(ledger.transfer(&Consent::of(big), big, near, 9), Ok(()));
    assert_eq!(ledger.balance(big), 0);
    assert_eq!(ledger.balance(near), 11);
}
