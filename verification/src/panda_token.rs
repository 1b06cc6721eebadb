//! The token ledger: balances of the fungible reward token, the set of
//! minters, and transfers that conserve the total.
//!
//! [`TokenState`] is the mathematical model of the ledger and says what every
//! operation does.  [`PandaToken`] is the ledger itself; it keeps the balances
//! in a host map and states each operation over the model.

use vstd::prelude::*;
use crate::error::Error;
use crate::host::{
    account_keys, keys_get, keys_len, keys_new, keys_push, ledger_entries, ledger_get, ledger_new, ledger_set, AccountKey,
    BalanceMap, KeyList,
};
use crate::principal::{admin_refusal, require_admin, Consent, Principal};

verus! {

/// The number of decimals of the token.
pub const DECIMALS: u32 = 7;

/// The sum of the amounts of a finite balance map.
pub open spec fn sum_of(balances: Map<AccountKey, i128>) -> int
    decreases balances.dom().len(),
    when balances.dom().finite()
{
    if balances.dom().len() == 0 {
        0
    } else {
        let k = balances.dom().choose();
        balances[k] + sum_of(balances.remove(k))
    }
}

/// Whether an amount is a balance: not negative and within `i128`.
pub open spec fn is_balance(amount: int) -> bool {
    0 <= amount <= i128::MAX
}

/// The model of the token ledger.  A principal without an entry in
/// `balances` has the balance zero.  While `minters_only` is off, anyone may
/// mint; while it is on, a mint needs the consent of a minter.
pub struct TokenState {
    pub admin: Option<Principal>,
    pub initialized: bool,
    pub minters: Seq<Principal>,
    pub minters_only: bool,
    pub balances: Map<AccountKey, i128>,
}

impl TokenState {
    /// The ledger before anything has happened.
    pub open spec fn genesis() -> TokenState {
        TokenState {
            admin: None,
            initialized: false,
            minters: Seq::empty(),
            minters_only: false,
            balances: Map::empty(),
        }
    }

    /// The ledger has finitely many entries and none is negative, and the
    /// minter list is no longer than a `u32` can count.
    pub open spec fn valid(self) -> bool {
        &&& self.minters.len() <= u32::MAX
        &&& self.balances.dom().finite()
        &&& forall|k: AccountKey| self.balances.dom().contains(k) ==> #[trigger] self.balances[k] >= 0
    }

    /// The balance of a principal.
    pub open spec fn balance_of(self, who: Principal) -> int {
        if self.balances.contains_key(who.key()) {
            self.balances[who.key()] as int
        } else {
            0
        }
    }

    /// The sum of all balances.
    pub open spec fn total_supply(self) -> int {
        sum_of(self.balances)
    }

    /// The ledger after `initialize`: `admin` is the admin and the only
    /// minter; the balances stay.
    pub open spec fn started(self, admin: Principal) -> TokenState {
        TokenState { admin: Some(admin), initialized: true, minters: seq![admin], ..self }
    }

    /// Why adding a minter is refused, if it is: as an admin-only operation
    /// is refused, or because the minter list is full.
    pub open spec fn add_minter_refusal(self, consent: Set<Principal>) -> Option<Error> {
        if admin_refusal(self.admin, consent).is_some() {
            admin_refusal(self.admin, consent)
        } else if self.minters.len() >= u32::MAX {
            Some(Error::ArithmeticOverflow)
        } else {
            None
        }
    }

    /// The ledger with one more minter at the end of the list.
    pub open spec fn with_minter(self, minter: Principal) -> TokenState {
        TokenState { minters: self.minters.push(minter), ..self }
    }

    /// The ledger in which the balance of `who` has changed by `amount`.
    pub open spec fn credited(self, who: Principal, amount: int) -> TokenState {
        TokenState {
            balances: self.balances.insert(who.key(), (self.balance_of(who) + amount) as i128),
            ..self
        }
    }

    /// Whether one of the minters is among those who consented.
    pub open spec fn minter_consents(self, consent: Set<Principal>) -> bool {
        exists|i: int| 0 <= i < self.minters.len() && consent.contains(#[trigger] self.minters[i])
    }

    /// Why a mint is refused, if it is: minting is for minters only and none
    /// of them consents, or the new balance would not be a balance.
    pub open spec fn mint_refusal(self, consent: Set<Principal>, to: Principal, amount: i128) -> Option<Error> {
        if self.minters_only && !self.minter_consents(consent) {
            Some(Error::Unauthorized)
        } else if !is_balance(self.balance_of(to) + amount) {
            Some(Error::ArithmeticOverflow)
        } else {
            None
        }
    }

    /// Why a transfer is refused, if it is.  The debit comes first, the
    /// credit is judged on the ledger after the debit.
    pub open spec fn transfer_refusal(
        self,
        consent: Set<Principal>,
        from: Principal,
        to: Principal,
        amount: i128,
    ) -> Option<Error> {
        if !consent.contains(from) {
            Some(Error::Unauthorized)
        } else if self.balance_of(from) < amount {
            Some(Error::InsufficientBalance)
        } else if !is_balance(self.balance_of(from) - amount) {
            Some(Error::ArithmeticOverflow)
        } else if !is_balance(self.credited(from, -amount).balance_of(to) + amount) {
            Some(Error::ArithmeticOverflow)
        } else {
            None
        }
    }

    /// The ledger after a transfer: `from` is debited, then `to` is credited.
    pub open spec fn transferred(self, from: Principal, to: Principal, amount: i128) -> TokenState {
        self.credited(from, -amount).credited(to, amount as int)
    }
}

/// The balance map in which each listed amount is filed under its principal,
/// one after the other.
pub open spec fn filed(balances: Seq<(Principal, i128)>) -> Map<AccountKey, i128>
    decreases balances.len(),
{
    if balances.len() == 0 {
        Map::empty()
    } else {
        filed(balances.drop_last()).insert(balances.last().0.key(), balances.last().1)
    }
}

/// The sum of a finite map is the amount under any one key plus the sum of
/// the rest.
pub proof fn lemma_sum_remove(balances: Map<AccountKey, i128>, key: AccountKey)
    requires
        balances.dom().finite(),
        balances.contains_key(key),
    ensures
        sum_of(balances) == balances[key] + sum_of(balances.remove(key)),
    decreases balances.dom().len(),
{
    let k = balances.dom().choose();
    if k != key {
        let rest = balances.remove(k);
        lemma_sum_remove(rest, key);
        let other = balances.remove(key);
        assert(other.contains_key(k));
        lemma_sum_remove(other, k);
        assert(rest.remove(key) =~= other.remove(k));
    }
}

/// Filing an amount under a key changes the sum by the difference to what was
/// filed there.
pub proof fn lemma_sum_insert(balances: Map<AccountKey, i128>, key: AccountKey, amount: i128)
    requires
        balances.dom().finite(),
    ensures
        balances.insert(key, amount).dom().finite(),
        sum_of(balances.insert(key, amount)) == sum_of(balances) + amount - (if balances.contains_key(key) {
            balances[key] as int
        } else {
            0
        }),
{
    let after = balances.insert(key, amount);
    lemma_sum_remove(after, key);
    if balances.contains_key(key) {
        lemma_sum_remove(balances, key);
        assert(after.remove(key) =~= balances.remove(key));
    } else {
        assert(after.remove(key) =~= balances);
    }
}

/// A change of one balance changes the total by the same amount and leaves
/// the ledger valid, when the new balance is a balance.
pub proof fn lemma_credited(s: TokenState, who: Principal, amount: int)
    requires
        s.valid(),
        is_balance(s.balance_of(who) + amount),
    ensures
        s.credited(who, amount).valid(),
        s.credited(who, amount).total_supply() == s.total_supply() + amount,
        s.credited(who, amount).balance_of(who) == s.balance_of(who) + amount,
        forall|other: Principal| other != who ==> s.credited(who, amount).balance_of(other) == s.balance_of(other),
{
    lemma_sum_insert(s.balances, who.key(), (s.balance_of(who) + amount) as i128);
}

/// The token ledger.
pub struct PandaToken {
    admin: Option<Principal>,
    initialized: bool,
    minters: KeyList,
    minters_only: bool,
    balances: BalanceMap,
}

/// The principals that a list of account keys stands for.
pub open spec fn principals_of(keys: Seq<AccountKey>) -> Seq<Principal> {
    keys.map_values(|key: AccountKey| Principal::of_key(key))
}

impl PandaToken {
    /// The model of this ledger.
    pub closed spec fn view(&self) -> TokenState {
        TokenState {
            admin: self.admin,
            initialized: self.initialized,
            minters: principals_of(account_keys(self.minters)),
            minters_only: self.minters_only,
            balances: ledger_entries(self.balances),
        }
    }

    /// The ledger is well formed: its model is valid.
    pub open spec fn wf(&self) -> bool {
        self@.valid()
    }

    /// A ledger without admin, minters and balances, whose balances will live
    /// in the given host environment.
    pub fn new(env: &soroban_sdk::Env) -> (ledger: PandaToken)
        ensures
            ledger.wf(),
            ledger@ == TokenState::genesis(),
    {
        let ledger = PandaToken {
            admin: None,
            initialized: false,
            minters: keys_new(env),
            minters_only: false,
            balances: ledger_new(env),
        };
        proof {
            assert(ledger@.minters =~= TokenState::genesis().minters);
        }
        ledger
    }

    /// Makes `admin` the admin and the only minter, and marks the ledger
    /// initialized.  A second call does the same again: it replaces the admin
    /// and forgets the minters added since.  The balances stay.
    pub fn initialize(&mut self, env: &soroban_sdk::Env, admin: Principal)
        requires
            old(self).wf(),
        ensures
            final(self).wf(),
            final(self)@ == old(self)@.started(admin),
    {
        self.admin = Some(admin);
        self.initialized = true;
        let mut minters = keys_new(env);
        keys_push(&mut minters, admin.to_key());
        self.minters = minters;
        proof {
            assert(self@.minters =~= old(self)@.started(admin).minters);
        }
    }

    /// Adds `minter` to the end of the minter list, also when it is in the
    /// list already.
    ///
    /// Refused with `NotInitialized` when the ledger has no admin, else with
    /// `Unauthorized` unless the admin consents, else with
    /// `ArithmeticOverflow` when the list holds as many minters as a `u32` can
    /// count.
    pub fn add_minter(&mut self, consent: &Consent, minter: Principal) -> (result: Result<(), Error>)
        requires
            old(self).wf(),
        ensures
            final(self).wf(),
            result.is_ok() <==> old(self)@.add_minter_refusal(consent@).is_none(),
            result.is_ok() ==> final(self)@ == old(self)@.with_minter(minter),
            result.is_err() ==> Some(result.unwrap_err()) == old(self)@.add_minter_refusal(consent@) && final(self)@
                == old(self)@,
    {
        if let Err(e) = require_admin(self.admin, consent) {
            return Err(e);
        }
        if keys_len(&self.minters) == u32::MAX {
            return Err(Error::ArithmeticOverflow);
        }
        keys_push(&mut self.minters, minter.to_key());
        proof {
            assert(self@.minters =~= old(self)@.with_minter(minter).minters);
        }
        Ok(())
    }

    /// Turns the rule that only minters may mint on or off.  A new ledger
    /// has it off.
    ///
    /// Refused with `NotInitialized` when the ledger has no admin, else with
    /// `Unauthorized` unless the admin consents.
    pub fn restrict_minting(&mut self, consent: &Consent, minters_only: bool) -> (result: Result<(), Error>)
        requires
            old(self).wf(),
        ensures
            final(self).wf(),
            result.is_ok() <==> admin_refusal(old(self)@.admin, consent@).is_none(),
            result.is_ok() ==> final(self)@ == (TokenState { minters_only, ..old(self)@ }),
            result.is_err() ==> Some(result.unwrap_err()) == admin_refusal(old(self)@.admin, consent@) && final(self)@
                == old(self)@,
    {
        if let Err(e) = require_admin(self.admin, consent) {
            return Err(e);
        }
        self.minters_only = minters_only;
        Ok(())
    }

    /// Whether one of the minters is among those who consented.
    fn minter_consents(&self, consent: &Consent) -> (yes: bool)
        requires
            self.wf(),
        ensures
            yes == self@.minter_consents(consent@),
    {
        let n: u32 = keys_len(&self.minters);
        let mut i: u32 = 0;
        while i < n
            invariant
                n == account_keys(self.minters).len(),
                i <= n,
                forall|j: int| 0 <= j < i ==> !consent@.contains(#[trigger] self@.minters[j]),
            decreases n - i,
        {
            if let Some(key) = keys_get(&self.minters, i) {
                if consent.covers(Principal::from_key(key)) {
                    assert(consent@.contains(self@.minters[i as int]));
                    return true;
                }
            }
            i = i + 1;
        }
        false
    }

    /// Changes the balance of `to` by `amount`.  Anyone may mint, unless
    /// minting was restricted to the minters.
    ///
    /// Refused with `Unauthorized` when minting is for minters only and none
    /// of them consents, else with `ArithmeticOverflow` when the new balance
    /// would be negative or beyond `i128`.
    pub fn mint(&mut self, consent: &Consent, to: Principal, amount: i128) -> (result: Result<(), Error>)
        requires
            old(self).wf(),
        ensures
            final(self).wf(),
            result.is_ok() <==> old(self)@.mint_refusal(consent@, to, amount).is_none(),
            result.is_ok() ==> final(self)@ == old(self)@.credited(to, amount as int),
            result.is_err() ==> Some(result.unwrap_err()) == old(self)@.mint_refusal(consent@, to, amount)
                && final(self)@ == old(self)@,
    {
        if self.minters_only && !self.minter_consents(consent) {
            return Err(Error::Unauthorized);
        }
        let current = self.balance(to);
        let raised = match current.checked_add(amount) {
            Some(raised) => raised,
            None => {
                return Err(Error::ArithmeticOverflow);
            },
        };
        if raised < 0 {
            return Err(Error::ArithmeticOverflow);
        }
        proof {
            lemma_credited(self@, to, amount as int);
        }
        ledger_set(&mut self.balances, to.to_key(), raised);
        Ok(())
    }

    /// Moves `amount` from `from` to `to`: `from` is debited, then `to` is
    /// credited, so that a transfer to oneself changes nothing.
    ///
    /// Refused with `Unauthorized` unless `from` consents, else with
    /// `InsufficientBalance` when `from` holds less than `amount`, else with
    /// `ArithmeticOverflow` when one of the two new balances would be negative
    /// or beyond `i128`, which only a negative `amount` can cause.
    pub fn transfer(&mut self, consent: &Consent, from: Principal, to: Principal, amount: i128) -> (result: Result<(), Error>)
        requires
            old(self).wf(),
        ensures
            final(self).wf(),
            result.is_ok() <==> old(self)@.transfer_refusal(consent@, from, to, amount).is_none(),
            result.is_ok() ==> final(self)@ == old(self)@.transferred(from, to, amount),
            result.is_err() ==> Some(result.unwrap_err()) == old(self)@.transfer_refusal(consent@, from, to, amount)
                && final(self)@ == old(self)@,
    {
        if !consent.covers(from) {
            return Err(Error::Unauthorized);
        }
        let from_balance = self.balance(from);
        if from_balance < amount {
            return Err(Error::InsufficientBalance);
        }
        let debited = match from_balance.checked_sub(amount) {
            Some(debited) => debited,
            None => {
                return Err(Error::ArithmeticOverflow);
            },
        };
        let to_balance = if to == from {
            debited
        } else {
            self.balance(to)
        };
        let credited = match to_balance.checked_add(amount) {
            Some(credited) => credited,
            None => {
                return Err(Error::ArithmeticOverflow);
            },
        };
        if credited < 0 {
            return Err(Error::ArithmeticOverflow);
        }
        proof {
            lemma_credited(self@, from, -amount);
            lemma_credited(self@.credited(from, -amount), to, amount as int);
        }
        ledger_set(&mut self.balances, from.to_key(), debited);
        ledger_set(&mut self.balances, to.to_key(), credited);
        Ok(())
    }

    /// The balance of `id`, zero for a principal that the ledger has never
    /// seen.
    pub fn balance(&self, id: Principal) -> (amount: i128)
        requires
            self.wf(),
        ensures
            amount == self@.balance_of(id),
            amount >= 0,
    {
        match ledger_get(&self.balances, id.to_key()) {
            Some(amount) => amount,
            None => 0,
        }
    }

    /// The admin.  Refused with `NotInitialized` when the ledger has none.
    pub fn get_admin(&self) -> (result: Result<Principal, Error>)
        ensures
            self@.admin.is_some() ==> result == Ok::<Principal, Error>(self@.admin.unwrap()),
            self@.admin.is_none() ==> result == Err::<Principal, Error>(Error::NotInitialized),
    {
        match self.admin {
            Some(admin) => Ok(admin),
            None => Err(Error::NotInitialized),
        }
    }

    /// Whether `initialize` has been called.
    pub fn is_initialized(&self) -> (yes: bool)
        ensures
            yes == self@.initialized,
    {
        self.initialized
    }

    /// Whether only minters may mint.
    pub fn minters_only(&self) -> (yes: bool)
        ensures
            yes == self@.minters_only,
    {
        self.minters_only
    }

    /// The minters, in the order in which they were added.
    pub fn minters(&self) -> (list: Vec<Principal>)
        requires
            self.wf(),
        ensures
            list@ == self@.minters,
    {
        let mut list: Vec<Principal> = Vec::new();
        let n: u32 = keys_len(&self.minters);
        let mut i: u32 = 0;
        while i < n
            invariant
                n == account_keys(self.minters).len(),
                i <= n,
                list@ == self@.minters.take(i as int),
            decreases n - i,
        {
            if let Some(key) = keys_get(&self.minters, i) {
                list.push(Principal::from_key(key));
            }
            proof {
                assert(self@.minters.take(i as int + 1) == self@.minters.take(i as int).push(self@.minters[i as int]));
            }
            i = i + 1;
        }
        proof {
            assert(self@.minters.take(n as int) == self@.minters);
        }
        list
    }

    /// The ledger with the given admin, mark, minters and minting rule, in
    /// which each listed amount is filed under its principal, a later one in
    /// place of an earlier one for the same principal; nothing when an amount
    /// is negative or when there are more minters than a `u32` can count.
    pub fn restore(
        env: &soroban_sdk::Env,
        admin: Option<Principal>,
        initialized: bool,
        minters: &Vec<Principal>,
        minters_only: bool,
        balances: &Vec<(Principal, i128)>,
    ) -> (ledger: Option<PandaToken>)
        ensures
            ledger.is_some() <==> minters@.len() <= u32::MAX && forall|i: int|
                0 <= i < balances@.len() ==> (#[trigger] balances@[i]).1 >= 0,
            ledger.is_some() ==> ledger.unwrap().wf() && ledger.unwrap()@ == (TokenState {
                admin,
                initialized,
                minters: minters@,
                minters_only,
                balances: filed(balances@),
            }),
    {
        if minters.len() > 0xffff_ffff {
            return None;
        }
        let mut keys = keys_new(env);
        let mut k: usize = 0;
        while k < minters.len()
            invariant
                k <= minters.len(),
                minters.len() <= u32::MAX,
                principals_of(account_keys(keys)) == minters@.take(k as int),
                account_keys(keys).len() == k,
            decreases minters.len() - k,
        {
            let ghost had = account_keys(keys);
            keys_push(&mut keys, minters[k].to_key());
            proof {
                assert(principals_of(had.push(minters@[k as int].key())) =~= principals_of(had).push(minters@[k as int]));
                assert(minters@.take(k as int + 1) == minters@.take(k as int).push(minters@[k as int]));
            }
            k = k + 1;
        }
        proof {
            assert(minters@.take(minters.len() as int) == minters@);
        }
        let mut entries = ledger_new(env);
        let mut i: usize = 0;
        while i < balances.len()
            invariant
                i <= balances.len(),
                ledger_entries(entries) == filed(balances@.take(i as int)),
                ledger_entries(entries).dom().finite(),
                forall|k: AccountKey| ledger_entries(entries).dom().contains(k) ==> #[trigger] ledger_entries(entries)[k] >= 0,
                forall|j: int| 0 <= j < i ==> (#[trigger] balances@[j]).1 >= 0,
            decreases balances.len() - i,
        {
            let holder = balances[i].0;
            let amount = balances[i].1;
            if amount < 0 {
                return None;
            }
            ledger_set(&mut entries, holder.to_key(), amount);
            proof {
                let next = balances@.take(i as int + 1);
                assert(next.drop_last() == balances@.take(i as int));
                assert(next.last() == balances@[i as int]);
            }
            i = i + 1;
        }
        proof {
            assert(balances@.take(balances.len() as int) == balances@);
        }
        Some(PandaToken { admin, initialized, minters: keys, minters_only, balances: entries })
    }

    /// The name of the token.
    pub fn name() -> (text: String)
        ensures
            text@ == "Panda Rewards Token"@,
    {
        "Panda Rewards Token".to_owned()
    }

    /// The symbol of the token.
    pub fn symbol() -> (text: String)
        ensures
            text@ == "PANDA"@,
    {
        "PANDA".to_owned()
    }

    /// The number of decimals of the token.
    pub fn decimals() -> (n: u32)
        ensures
            n == DECIMALS,
    {
        DECIMALS
    }
}

/// Conservation: a transfer that is not refused leaves the sum of the two
/// balances and the total supply as they were, and touches no third balance.
pub proof fn lemma_transfer_conserves(
    s: TokenState,
    consent: Set<Principal>,
    from: Principal,
    to: Principal,
    amount: i128,
)
    requires
        s.valid(),
        s.transfer_refusal(consent, from, to, amount).is_none(),
    ensures
        s.transferred(from, to, amount).valid(),
        s.transferred(from, to, amount).total_supply() == s.total_supply(),
        from != to ==> s.transferred(from, to, amount).balance_of(from) + s.transferred(from, to, amount).balance_of(
            to,
        ) == s.balance_of(from) + s.balance_of(to),
        from == to ==> s.transferred(from, to, amount).balance_of(from) == s.balance_of(from),
        forall|other: Principal|
            other != from && other != to ==> s.transferred(from, to, amount).balance_of(other) == s.balance_of(
                other,
            ),
{
    lemma_credited(s, from, -amount);
    lemma_credited(s.credited(from, -amount), to, amount as int);
}

/// A transfer of an amount that the sender holds, with the sender's consent
/// and not negative, is never refused.
pub proof fn lemma_transfer_succeeds(
    s: TokenState,
    consent: Set<Principal>,
    from: Principal,
    to: Principal,
    amount: i128,
)
    requires
        s.valid(),
        consent.contains(from),
        0 <= amount <= s.balance_of(from),
        s.total_supply() <= i128::MAX,
    ensures
        s.transfer_refusal(consent, from, to, amount).is_none(),
{
    lemma_credited(s, from, -amount);
    let mid = s.credited(from, -amount);
    lemma_balance_within_total(mid, to);
}

/// No balance of a valid ledger is over the total supply.
pub proof fn lemma_balance_within_total(s: TokenState, who: Principal)
    requires
        s.valid(),
    ensures
        0 <= s.balance_of(who) <= s.total_supply(),
{
    lemma_sum_not_negative(s.balances);
    if s.balances.contains_key(who.key()) {
        lemma_sum_remove(s.balances, who.key());
        lemma_sum_not_negative(s.balances.remove(who.key()));
    }
}

/// The sum of amounts that are not negative is not negative.
pub proof fn lemma_sum_not_negative(balances: Map<AccountKey, i128>)
    requires
        balances.dom().finite(),
        forall|k: AccountKey| balances.dom().contains(k) ==> #[trigger] balances[k] >= 0,
    ensures
        sum_of(balances) >= 0,
    decreases balances.dom().len(),
{
    if balances.dom().len() != 0 {
        let k = balances.dom().choose();
        lemma_sum_not_negative(balances.remove(k));
    }
}

} // verus!
