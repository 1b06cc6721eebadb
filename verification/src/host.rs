//! What the library takes from `soroban_sdk`: the environment handle and the
//! host collections that hold plain integers, the list of token ids, the
//! list of account keys and the balance map.
//!
//! Nothing in this file is proved.  Each item says in its comment which
//! function of `soroban_sdk` it stands for and what it claims of it.  The
//! rest of the library is proved against these claims.
//!
//! The host may stop a call altogether when the budget it grants is used up,
//! as an allocator may; a claim here speaks of the calls that return.

use vstd::prelude::*;

verus! {

/// `soroban_sdk::Env`, the handle of the host environment.  The library only
/// passes it on to the constructors of the host collections.
#[verifier::external_type_specification]
#[verifier::external_body]
pub struct ExEnv(soroban_sdk::Env);

/// `soroban_sdk::Vec<T>`, the host's growable sequence.
#[verifier::external_type_specification]
#[verifier::external_body]
#[verifier::reject_recursive_types(T)]
pub struct ExHostVec<T>(soroban_sdk::Vec<T>);

/// `soroban_sdk::Map<K, V>`, the host's key-value dictionary.
#[verifier::external_type_specification]
#[verifier::external_body]
#[verifier::reject_recursive_types(K)]
#[verifier::reject_recursive_types(V)]
pub struct ExHostMap<K, V>(soroban_sdk::Map<K, V>);

/// The form under which the balance map files a principal: its kind and the
/// two halves of its key.
pub type AccountKey = (u32, u128, u128);

/// The host map from account keys to amounts.
pub type BalanceMap = soroban_sdk::Map<AccountKey, i128>;

/// The host list of token ids.
pub type IdList = soroban_sdk::Vec<u64>;

/// The host list of account keys.
pub type KeyList = soroban_sdk::Vec<AccountKey>;

/// The items of a host list of token ids, first to last.
pub uninterp spec fn token_ids(list: soroban_sdk::Vec<u64>) -> Seq<u64>;

/// The items of a host list of account keys, first to last.
pub uninterp spec fn account_keys(list: soroban_sdk::Vec<AccountKey>) -> Seq<AccountKey>;

/// The entries of a host balance map: for each key that it holds, the amount
/// filed under it.
pub uninterp spec fn ledger_entries(ledger: soroban_sdk::Map<AccountKey, i128>) -> Map<AccountKey, i128>;

/// `soroban_sdk::Vec::new`: a list without items.
#[verifier::external_body]
pub(crate) fn ids_new(env: &soroban_sdk::Env) -> (list: soroban_sdk::Vec<u64>)
    ensures
        token_ids(list) == Seq::<u64>::empty(),
{
    soroban_sdk::Vec::new(env)
}

/// `soroban_sdk::Vec::len`: the number of items.  The host reports a length as
/// a `u32` and fails on a longer list, which the precondition leaves out.
#[verifier::external_body]
pub(crate) fn ids_len(list: &soroban_sdk::Vec<u64>) -> (n: u32)
    requires
        token_ids(*list).len() <= u32::MAX,
    ensures
        n == token_ids(*list).len(),
{
    list.len()
}

/// `soroban_sdk::Vec::get`: the item at the position, or `None` when the
/// position is past the end.  The lists that reach this function are made by
/// [`ids_new`], [`ids_push`] and [`ids_clone`], so every item is a `u64` and
/// the conversion inside `get` cannot fail.
#[verifier::external_body]
pub(crate) fn ids_get(list: &soroban_sdk::Vec<u64>, i: u32) -> (item: Option<u64>)
    requires
        token_ids(*list).len() <= u32::MAX,
    ensures
        i < token_ids(*list).len() ==> item == Some(token_ids(*list)[i as int]),
        i >= token_ids(*list).len() ==> item.is_none(),
{
    list.get(i)
}

/// `soroban_sdk::Vec::push_back`: the same items with the new one behind the
/// last.  The precondition keeps the length within what the host can report.
#[verifier::external_body]
pub(crate) fn ids_push(list: &mut soroban_sdk::Vec<u64>, id: u64)
    requires
        token_ids(*old(list)).len() < u32::MAX,
    ensures
        token_ids(*final(list)) == token_ids(*old(list)).push(id),
{
    list.push_back(id)
}

/// `Clone::clone` of `soroban_sdk::Vec`: a second handle of the same list, with
/// the same items.
#[verifier::external_body]
pub(crate) fn ids_clone(list: &soroban_sdk::Vec<u64>) -> (copy: soroban_sdk::Vec<u64>)
    ensures
        token_ids(copy) == token_ids(*list),
{
    list.clone()
}

/// `soroban_sdk::Vec::new`, for account keys: a list without items.
#[verifier::external_body]
pub(crate) fn keys_new(env: &soroban_sdk::Env) -> (list: KeyList)
    ensures
        account_keys(list) == Seq::<AccountKey>::empty(),
{
    soroban_sdk::Vec::new(env)
}

/// `soroban_sdk::Vec::len`, for account keys: the number of items, under the
/// same precondition as [`ids_len`].
#[verifier::external_body]
pub(crate) fn keys_len(list: &KeyList) -> (n: u32)
    requires
        account_keys(*list).len() <= u32::MAX,
    ensures
        n == account_keys(*list).len(),
{
    list.len()
}

/// `soroban_sdk::Vec::get`, for account keys: the item at the position, or
/// `None` when the position is past the end.  The lists that reach this
/// function are made by [`keys_new`] and [`keys_push`], so every item is an
/// account key and the conversion inside `get` cannot fail.
#[verifier::external_body]
pub(crate) fn keys_get(list: &KeyList, i: u32) -> (item: Option<AccountKey>)
    requires
        account_keys(*list).len() <= u32::MAX,
    ensures
        i < account_keys(*list).len() ==> item == Some(account_keys(*list)[i as int]),
        i >= account_keys(*list).len() ==> item.is_none(),
{
    list.get(i)
}

/// `soroban_sdk::Vec::push_back`, for account keys: the same items with the
/// new one behind the last, under the same precondition as [`ids_push`].
#[verifier::external_body]
pub(crate) fn keys_push(list: &mut KeyList, key: AccountKey)
    requires
        account_keys(*old(list)).len() < u32::MAX,
    ensures
        account_keys(*final(list)) == account_keys(*old(list)).push(key),
{
    list.push_back(key)
}

/// The balance map without entries.
pub open spec fn no_entries() -> Map<AccountKey, i128> {
    Map::empty()
}

/// `soroban_sdk::Map::new`: a map without entries.
#[verifier::external_body]
pub(crate) fn ledger_new(env: &soroban_sdk::Env) -> (ledger: BalanceMap)
    ensures
        ledger_entries(ledger) == no_entries(),
{
    soroban_sdk::Map::new(env)
}

/// `soroban_sdk::Map::get`: the amount filed under the key, or `None` when the
/// map has no entry for it.  The maps that reach this function are made by
/// [`ledger_new`] and [`ledger_set`], so every amount is an `i128` and the
/// conversion inside `get` cannot fail.
#[verifier::external_body]
pub(crate) fn ledger_get(ledger: &BalanceMap, key: AccountKey) -> (amount: Option<i128>)
    ensures
        ledger_entries(*ledger).contains_key(key) ==> amount == Some(ledger_entries(*ledger)[key]),
        !ledger_entries(*ledger).contains_key(key) ==> amount.is_none(),
{
    ledger.get(key)
}

/// `soroban_sdk::Map::set`: the map has one entry per key; setting a key files
/// the amount under it, in place of the amount that was there if there was
/// one, and leaves the other entries alone.
#[verifier::external_body]
pub(crate) fn ledger_set(ledger: &mut BalanceMap, key: AccountKey, amount: i128)
    ensures
        ledger_entries(*final(ledger)) == ledger_entries(*old(ledger)).insert(key, amount),
{
    ledger.set(key, amount)
}

} // verus!
