//! The collectible registry: minting under a per-owner cap, the ownership
//! index, and the stake / unstake state machine.
//!
//! [`RegistryState`] is the mathematical model of the registry and says what
//! every operation does.  [`PandaNFTContract`] is the registry itself; each of
//! its operations states its result and its effect over the model.

use vstd::prelude::*;
use vstd::seq_lib::seq_to_set_is_finite;
use vstd::set_lib::lemma_len_subset;
use crate::error::Error;
use crate::host::{ids_clone, ids_get, ids_len, ids_new, ids_push, token_ids, IdList};
use crate::principal::{admin_refusal, require_admin, Consent, Principal};

verus! {

/// The number of collectibles that one owner can hold.
pub const MAX_PANDAS_PER_PLAYER: u32 = 5;

/// A collectible.  `token_id` and `owner` never change after the mint; the
/// statistics change only by an admin's update, the stake fields only by
/// `stake` and `unstake`.
#[derive(Debug, PartialEq, Eq)]
pub struct PandaNFT {
    pub token_id: u64,
    pub owner: Principal,
    pub skin: String,
    pub minted_at: u64,
    pub games_played: u32,
    pub total_score: i128,
    pub is_staked: bool,
    pub staked_at: u64,
}

impl Clone for PandaNFT {
    fn clone(&self) -> (copy: Self)
        ensures
            copy == *self,
    {
        PandaNFT {
            token_id: self.token_id,
            owner: self.owner,
            skin: self.skin.clone(),
            minted_at: self.minted_at,
            games_played: self.games_played,
            total_score: self.total_score,
            is_staked: self.is_staked,
            staked_at: self.staked_at,
        }
    }
}

/// The ids of `list` other than `id`, in their order.
pub open spec fn without(list: Seq<u64>, id: u64) -> Seq<u64> {
    list.filter(|t: u64| t != id)
}

/// The collectible that a mint creates: no games, no score, not staked.
pub open spec fn fresh_panda(token_id: u64, owner: Principal, skin: String, now: u64) -> PandaNFT {
    PandaNFT {
        token_id,
        owner,
        skin,
        minted_at: now,
        games_played: 0,
        total_score: 0,
        is_staked: false,
        staked_at: 0,
    }
}

/// The model of the registry.
///
/// `tokens` holds the collectibles in the order of their mint, so that the
/// collectible with id `i` stands at position `i`.  `owned` and `staked` give
/// for every principal the ids that it owns and the ids that it has staked,
/// each in the order in which they were added; a principal that the registry
/// has never seen has two empty sequences.
pub struct RegistryState {
    pub admin: Option<Principal>,
    pub tokens: Seq<PandaNFT>,
    pub owned: Map<Principal, Seq<u64>>,
    pub staked: Map<Principal, Seq<u64>>,
}

impl RegistryState {
    /// The registry before anything has happened.
    pub open spec fn genesis() -> RegistryState {
        RegistryState {
            admin: None,
            tokens: Seq::empty(),
            owned: Map::total(|p: Principal| Seq::<u64>::empty()),
            staked: Map::total(|p: Principal| Seq::<u64>::empty()),
        }
    }

    /// Whether a collectible with this id was minted.
    pub open spec fn has(self, id: u64) -> bool {
        id < self.tokens.len()
    }

    /// The collectible with this id.
    pub open spec fn token(self, id: u64) -> PandaNFT
        recommends
            self.has(id),
    {
        self.tokens[id as int]
    }

    /// The index is consistent: ids are positions; a principal's owned list
    /// holds exactly the ids whose owner it is, its staked list exactly those
    /// of them that are staked, both without repetition; no owner is over the
    /// cap; and a collectible that is not staked has no stake time.
    pub open spec fn valid(self) -> bool {
        &&& self.tokens.len() <= u64::MAX
        &&& self.owned.dom() == Set::<Principal>::full()
        &&& self.staked.dom() == Set::<Principal>::full()
        &&& forall|i: int| 0 <= i < self.tokens.len() ==> (#[trigger] self.tokens[i]).token_id == i
        &&& forall|i: int|
            0 <= i < self.tokens.len() && !(#[trigger] self.tokens[i]).is_staked ==> self.tokens[i].staked_at
                == 0
        &&& forall|p: Principal| (#[trigger] self.owned[p]).no_duplicates()
        &&& forall|p: Principal| (#[trigger] self.owned[p]).len() <= MAX_PANDAS_PER_PLAYER
        &&& forall|p: Principal, id: u64| #[trigger]
            self.owned[p].contains(id) <==> self.has(id) && self.token(id).owner == p
        &&& forall|p: Principal| (#[trigger] self.staked[p]).no_duplicates()
        &&& forall|p: Principal, id: u64| #[trigger]
            self.staked[p].contains(id) <==> self.has(id) && self.token(id).owner == p && self.token(
                id,
            ).is_staked
    }

    /// Why a mint for `to` is refused, if it is.
    pub open spec fn mint_refusal(self, consent: Set<Principal>, to: Principal) -> Option<Error> {
        if !consent.contains(to) {
            Some(Error::Unauthorized)
        } else if self.owned[to].len() >= MAX_PANDAS_PER_PLAYER {
            Some(Error::CapExceeded)
        } else {
            None
        }
    }

    /// The registry after a mint for `to`: the next id goes to a fresh
    /// collectible, which joins the end of `to`'s owned list.
    pub open spec fn minted(self, to: Principal, skin: String, now: u64) -> RegistryState {
        let id = self.tokens.len() as u64;
        RegistryState {
            tokens: self.tokens.push(fresh_panda(id, to, skin, now)),
            owned: self.owned.insert(to, self.owned[to].push(id)),
            ..self
        }
    }

    /// The registry after one mint for `to` per skin, in the order of the
    /// skins, the mint number `i` at time `times[i]`.
    pub open spec fn minted_each(self, to: Principal, skins: Seq<String>, times: Seq<u64>) -> RegistryState
        decreases skins.len(),
    {
        if skins.len() == 0 {
            self
        } else {
            self.minted_each(to, skins.drop_last(), times.drop_last()).minted(to, skins.last(), times.last())
        }
    }

    /// Why staking `id` is refused, if it is.
    pub open spec fn stake_refusal(self, consent: Set<Principal>, id: u64) -> Option<Error> {
        if !self.has(id) {
            Some(Error::NotFound)
        } else if !consent.contains(self.token(id).owner) {
            Some(Error::Unauthorized)
        } else if self.token(id).is_staked {
            Some(Error::AlreadyStaked)
        } else {
            None
        }
    }

    /// The registry after staking `id` at time `now`.
    pub open spec fn with_stake(self, id: u64, now: u64) -> RegistryState {
        let owner = self.token(id).owner;
        RegistryState {
            tokens: self.tokens.update(
                id as int,
                PandaNFT { is_staked: true, staked_at: now, ..self.token(id) },
            ),
            staked: self.staked.insert(owner, self.staked[owner].push(id)),
            ..self
        }
    }

    /// Why unstaking `id` is refused, if it is.
    pub open spec fn unstake_refusal(self, consent: Set<Principal>, id: u64) -> Option<Error> {
        if !self.has(id) {
            Some(Error::NotFound)
        } else if !consent.contains(self.token(id).owner) {
            Some(Error::Unauthorized)
        } else if !self.token(id).is_staked {
            Some(Error::NotStaked)
        } else {
            None
        }
    }

    /// The registry after unstaking `id`.
    pub open spec fn without_stake(self, id: u64) -> RegistryState {
        let owner = self.token(id).owner;
        RegistryState {
            tokens: self.tokens.update(
                id as int,
                PandaNFT { is_staked: false, staked_at: 0, ..self.token(id) },
            ),
            staked: self.staked.insert(owner, without(self.staked[owner], id)),
            ..self
        }
    }

    /// The registry after an update of the statistics of `id`; the same
    /// registry when no such collectible exists.
    pub open spec fn with_stats(self, id: u64, games_played: u32, score: i128) -> RegistryState {
        if self.has(id) {
            RegistryState {
                tokens: self.tokens.update(
                    id as int,
                    PandaNFT { games_played, total_score: score, ..self.token(id) },
                ),
                ..self
            }
        } else {
            self
        }
    }

    /// For how long `id` has been staked at time `now`: nothing when it is not
    /// staked or when the clock has not passed the stake time.
    pub open spec fn staking_duration(self, id: u64, now: u64) -> int
        recommends
            self.has(id),
    {
        let t = self.token(id);
        if t.is_staked && now > t.staked_at {
            now - t.staked_at
        } else {
            0
        }
    }
}

/// `without` keeps exactly the other ids, keeps them apart, and gives the list
/// back unchanged when the id is not in it.
pub proof fn lemma_without(list: Seq<u64>, id: u64)
    ensures
        forall|t: u64| #[trigger] without(list, id).contains(t) <==> list.contains(t) && t != id,
        list.no_duplicates() ==> without(list, id).no_duplicates(),
        !list.contains(id) ==> without(list, id) == list,
        without(list, id).len() <= list.len(),
    decreases list.len(),
{
    reveal(Seq::filter);
    let pred = |t: u64| t != id;
    if list.len() == 0 {
        assert(without(list, id) == list);
    } else {
        let front = list.drop_last();
        let last = list.last();
        lemma_without(front, id);
        let rest = without(front, id);
        assert(list == front.push(last));
        assert forall|t: u64| #[trigger] without(list, id).contains(t) <==> list.contains(t) && t != id by {
            if list.contains(t) && t != id {
                let i = choose|i: int| 0 <= i < list.len() && list[i] == t;
                if i < front.len() {
                    assert(front[i] == t);
                    assert(rest.contains(t));
                    let j = choose|j: int| 0 <= j < rest.len() && rest[j] == t;
                    assert(without(list, id)[j] == t);
                } else {
                    assert(last == t);
                    assert(without(list, id) == rest.push(last));
                    assert(without(list, id)[rest.len() as int] == t);
                }
            }
            if without(list, id).contains(t) {
                let j = choose|j: int| 0 <= j < without(list, id).len() && without(list, id)[j] == t;
                if j < rest.len() {
                    assert(rest[j] == t);
                    assert(rest.contains(t));
                    let i = choose|i: int| 0 <= i < front.len() && front[i] == t;
                    assert(list[i] == t);
                } else {
                    assert(last == t);
                    assert(list[list.len() - 1] == t);
                }
            }
        }
        if list.no_duplicates() {
            assert(front.no_duplicates());
            if last != id {
                assert(!front.contains(last)) by {
                    if front.contains(last) {
                        let i = choose|i: int| 0 <= i < front.len() && front[i] == last;
                        assert(list[i] == list[list.len() - 1]);
                    }
                }
                assert(!rest.contains(last));
                assert(without(list, id) == rest.push(last));
            }
        }
        if !list.contains(id) {
            assert(list[list.len() - 1] != id);
            assert(!front.contains(id)) by {
                if front.contains(id) {
                    let i = choose|i: int| 0 <= i < front.len() && front[i] == id;
                    assert(list[i] == id);
                }
            }
        }
    }
}

/// A mint that is not refused leaves the index consistent.
pub proof fn lemma_minted_valid(s: RegistryState, to: Principal, skin: String, now: u64)
    requires
        s.valid(),
        s.owned[to].len() < MAX_PANDAS_PER_PLAYER,
        s.tokens.len() < u64::MAX,
    ensures
        s.minted(to, skin, now).valid(),
{
    let r = s.minted(to, skin, now);
    let id = s.tokens.len() as u64;
    assert(r.owned.dom() =~= Set::<Principal>::full());
    assert(!s.owned[to].contains(id));
    assert forall|p: Principal, t: u64| #[trigger]
        r.owned[p].contains(t) <==> r.has(t) && r.token(t).owner == p by {
        if p == to {
            if s.owned[to].contains(t) {
                let i = choose|i: int| 0 <= i < s.owned[to].len() && s.owned[to][i] == t;
                assert(r.owned[to][i] == t);
            }
            if t == id {
                assert(r.owned[to][s.owned[to].len() as int] == id);
            }
            if r.owned[to].contains(t) {
                let i = choose|i: int| 0 <= i < r.owned[to].len() && r.owned[to][i] == t;
                if i < s.owned[to].len() {
                    assert(s.owned[to][i] == t);
                    assert(s.owned[to].contains(t));
                }
            }
        } else {
            assert(r.owned[p] == s.owned[p]);
        }
        if t < id {
            assert(s.owned[p].contains(t) <==> s.has(t) && s.token(t).owner == p);
            assert(r.token(t) == s.token(t));
        }
    }
    assert forall|p: Principal, t: u64| #[trigger]
        r.staked[p].contains(t) <==> r.has(t) && r.token(t).owner == p && r.token(t).is_staked by {
        assert(s.staked[p].contains(t) <==> s.has(t) && s.token(t).owner == p && s.token(t).is_staked);
        if t < id {
            assert(r.token(t) == s.token(t));
        }
    }
    assert forall|p: Principal| (#[trigger] r.owned[p]).no_duplicates() by {
        assert(s.owned[p].no_duplicates());
    }
    assert forall|p: Principal| (#[trigger] r.owned[p]).len() <= MAX_PANDAS_PER_PLAYER by {
        assert(s.owned[p].len() <= MAX_PANDAS_PER_PLAYER);
    }
    assert forall|i: int| 0 <= i < r.tokens.len() implies (#[trigger] r.tokens[i]).token_id == i by {
        if i < s.tokens.len() {
            assert(s.tokens[i].token_id == i);
        }
    }
    assert forall|i: int| 0 <= i < r.tokens.len() && !(#[trigger] r.tokens[i]).is_staked implies r.tokens[i].staked_at
        == 0 by {
        if i < s.tokens.len() {
            assert(s.tokens[i].staked_at == 0);
        }
    }
}

/// A principal has staked no more collectibles than it owns.
pub proof fn lemma_staked_within_owned(s: RegistryState, p: Principal)
    requires
        s.valid(),
    ensures
        s.staked[p].len() <= s.owned[p].len(),
        s.staked[p].len() <= MAX_PANDAS_PER_PLAYER,
{
    let staked = s.staked[p];
    let owned = s.owned[p];
    staked.unique_seq_to_set();
    owned.unique_seq_to_set();
    seq_to_set_is_finite(owned);
    assert forall|t: u64| staked.to_set().contains(t) implies owned.to_set().contains(t) by {
        assert(staked.contains(t));
        assert(owned.contains(t));
    }
    lemma_len_subset(staked.to_set(), owned.to_set());
}

/// Staking a collectible that is not staked leaves the index consistent.
pub proof fn lemma_with_stake_valid(s: RegistryState, id: u64, now: u64)
    requires
        s.valid(),
        s.has(id),
        !s.token(id).is_staked,
    ensures
        s.with_stake(id, now).valid(),
{
    let r = s.with_stake(id, now);
    let o = s.token(id).owner;
    assert(r.staked.dom() =~= Set::<Principal>::full());
    assert(!s.staked[o].contains(id));
    assert forall|i: int| 0 <= i < r.tokens.len() implies (#[trigger] r.tokens[i]).token_id == i by {
        assert(s.tokens[i].token_id == i);
    }
    assert forall|i: int| 0 <= i < r.tokens.len() && !(#[trigger] r.tokens[i]).is_staked implies r.tokens[i].staked_at
        == 0 by {
        assert(s.tokens[i].staked_at == 0);
    }
    assert forall|p: Principal, t: u64| #[trigger]
        r.owned[p].contains(t) <==> r.has(t) && r.token(t).owner == p by {
        assert(s.owned[p].contains(t) <==> s.has(t) && s.token(t).owner == p);
    }
    assert forall|p: Principal| (#[trigger] r.staked[p]).no_duplicates() by {
        assert(s.staked[p].no_duplicates());
    }
    assert forall|p: Principal, t: u64| #[trigger]
        r.staked[p].contains(t) <==> r.has(t) && r.token(t).owner == p && r.token(t).is_staked by {
        assert(s.staked[p].contains(t) <==> s.has(t) && s.token(t).owner == p && s.token(t).is_staked);
        if p == o {
            let old_list = s.staked[o];
            let new_list = r.staked[o];
            if old_list.contains(t) {
                let i = choose|i: int| 0 <= i < old_list.len() && old_list[i] == t;
                assert(new_list[i] == t);
            }
            if t == id {
                assert(new_list[old_list.len() as int] == id);
            }
            if new_list.contains(t) {
                let i = choose|i: int| 0 <= i < new_list.len() && new_list[i] == t;
                if i < old_list.len() {
                    assert(old_list[i] == t);
                    assert(old_list.contains(t));
                }
            }
        } else {
            assert(r.staked[p] == s.staked[p]);
        }
    }
}

/// Unstaking a staked collectible leaves the index consistent.
pub proof fn lemma_without_stake_valid(s: RegistryState, id: u64)
    requires
        s.valid(),
        s.has(id),
        s.token(id).is_staked,
    ensures
        s.without_stake(id).valid(),
{
    let r = s.without_stake(id);
    let o = s.token(id).owner;
    assert(r.staked.dom() =~= Set::<Principal>::full());
    lemma_without(s.staked[o], id);
    assert forall|i: int| 0 <= i < r.tokens.len() implies (#[trigger] r.tokens[i]).token_id == i by {
        assert(s.tokens[i].token_id == i);
    }
    assert forall|i: int| 0 <= i < r.tokens.len() && !(#[trigger] r.tokens[i]).is_staked implies r.tokens[i].staked_at
        == 0 by {
        if i != id {
            assert(s.tokens[i].staked_at == 0);
        }
    }
    assert forall|p: Principal, t: u64| #[trigger]
        r.owned[p].contains(t) <==> r.has(t) && r.token(t).owner == p by {
        assert(s.owned[p].contains(t) <==> s.has(t) && s.token(t).owner == p);
    }
    assert forall|p: Principal| (#[trigger] r.staked[p]).no_duplicates() by {
        assert(s.staked[p].no_duplicates());
    }
    assert forall|p: Principal, t: u64| #[trigger]
        r.staked[p].contains(t) <==> r.has(t) && r.token(t).owner == p && r.token(t).is_staked by {
        assert(s.staked[p].contains(t) <==> s.has(t) && s.token(t).owner == p && s.token(t).is_staked);
        if p == o {
            assert(without(s.staked[o], id).contains(t) <==> s.staked[o].contains(t) && t != id);
        } else {
            assert(r.staked[p] == s.staked[p]);
        }
    }
}

/// An update of the statistics leaves the index consistent.
pub proof fn lemma_with_stats_valid(s: RegistryState, id: u64, games_played: u32, score: i128)
    requires
        s.valid(),
    ensures
        s.with_stats(id, games_played, score).valid(),
{
    let r = s.with_stats(id, games_played, score);
    if s.has(id) {
        assert forall|i: int| 0 <= i < r.tokens.len() implies (#[trigger] r.tokens[i]).token_id == i by {
            assert(s.tokens[i].token_id == i);
        }
        assert forall|i: int| 0 <= i < r.tokens.len() && !(#[trigger] r.tokens[i]).is_staked implies r.tokens[i].staked_at
            == 0 by {
            assert(s.tokens[i].staked_at == 0);
        }
        assert forall|p: Principal, t: u64| #[trigger]
            r.owned[p].contains(t) <==> r.has(t) && r.token(t).owner == p by {
            assert(s.owned[p].contains(t) <==> s.has(t) && s.token(t).owner == p);
        }
        assert forall|p: Principal, t: u64| #[trigger]
            r.staked[p].contains(t) <==> r.has(t) && r.token(t).owner == p && r.token(t).is_staked by {
            assert(s.staked[p].contains(t) <==> s.has(t) && s.token(t).owner == p && s.token(t).is_staked);
        }
    }
}

/// What the registry keeps for one owner: the ids it owns and the ids it has
/// staked, each as a host list.
struct Holding {
    owner: Principal,
    tokens: IdList,
    staked: IdList,
}

/// The position of `p`'s holding, if it has one.
spec fn slot_of(holdings: Seq<Holding>, p: Principal) -> Option<int> {
    if exists|i: int| 0 <= i < holdings.len() && holdings[i].owner == p {
        Some(choose|i: int| 0 <= i < holdings.len() && holdings[i].owner == p)
    } else {
        None
    }
}

/// The ids that `p` owns according to the holdings.
spec fn owned_in(holdings: Seq<Holding>, p: Principal) -> Seq<u64> {
    match slot_of(holdings, p) {
        Some(i) => token_ids(holdings[i].tokens),
        None => Seq::empty(),
    }
}

/// The ids that `p` has staked according to the holdings.
spec fn staked_in(holdings: Seq<Holding>, p: Principal) -> Seq<u64> {
    match slot_of(holdings, p) {
        Some(i) => token_ids(holdings[i].staked),
        None => Seq::empty(),
    }
}

/// No two holdings are of one owner.
spec fn one_slot_each(holdings: Seq<Holding>) -> bool {
    forall|i: int, j: int|
        0 <= i < j < holdings.len() ==> (#[trigger] holdings[i]).owner != (#[trigger] holdings[j]).owner
}

proof fn lemma_slot(holdings: Seq<Holding>, i: int)
    requires
        one_slot_each(holdings),
        0 <= i < holdings.len(),
    ensures
        slot_of(holdings, holdings[i].owner) == Some(i),
{
    let p = holdings[i].owner;
    let j = choose|j: int| 0 <= j < holdings.len() && holdings[j].owner == p;
    if j < i {
        assert(holdings[j].owner != holdings[i].owner);
    }
    if i < j {
        assert(holdings[i].owner != holdings[j].owner);
    }
}

/// The registry of collectibles.
pub struct PandaNFTContract {
    admin: Option<Principal>,
    tokens: Vec<PandaNFT>,
    holdings: Vec<Holding>,
}

impl PandaNFTContract {
    /// The model of this registry.
    pub closed spec fn view(&self) -> RegistryState {
        RegistryState {
            admin: self.admin,
            tokens: self.tokens@,
            owned: Map::total(|p: Principal| owned_in(self.holdings@, p)),
            staked: Map::total(|p: Principal| staked_in(self.holdings@, p)),
        }
    }

    /// Each owner has one holding.
    pub closed spec fn indexed(&self) -> bool {
        one_slot_each(self.holdings@)
    }

    /// The registry is well formed: its index is consistent.
    pub open spec fn wf(&self) -> bool {
        self.indexed() && self@.valid()
    }

    /// A registry without admin and without collectibles.
    pub fn new() -> (registry: PandaNFTContract)
        ensures
            registry.wf(),
            registry@ == RegistryState::genesis(),
    {
        let registry = PandaNFTContract { admin: None, tokens: Vec::new(), holdings: Vec::new() };
        proof {
            assert(registry@.owned =~= RegistryState::genesis().owned);
            assert(registry@.staked =~= RegistryState::genesis().staked);
            assert(registry@.tokens =~= RegistryState::genesis().tokens);
        }
        registry
    }

    /// Makes `admin` the admin of the registry.  Refused with `Unauthorized`
    /// unless `admin` consents; the collectibles are left alone.
    pub fn initialize(&mut self, consent: &Consent, admin: Principal) -> (result: Result<(), Error>)
        requires
            old(self).wf(),
        ensures
            final(self).wf(),
            result.is_ok() <==> consent@.contains(admin),
            result.is_ok() ==> final(self)@ == (RegistryState { admin: Some(admin), ..old(self)@ }),
            result.is_err() ==> result == Err::<(), Error>(Error::Unauthorized) && final(self)@ == old(self)@,
    {
        if !consent.covers(admin) {
            return Err(Error::Unauthorized);
        }
        self.admin = Some(admin);
        Ok(())
    }

    /// The position of `p`'s holding, if it has one.
    fn find(&self, p: Principal) -> (slot: Option<usize>)
        requires
            self.indexed(),
        ensures
            slot.is_some() ==> slot.unwrap() < self.holdings.len() && self.holdings[slot.unwrap() as int].owner == p
                && slot_of(self.holdings@, p) == Some(slot.unwrap() as int),
            slot.is_none() ==> slot_of(self.holdings@, p).is_none(),
    {
        let mut i: usize = 0;
        while i < self.holdings.len()
            invariant
                i <= self.holdings.len(),
                self.indexed(),
                forall|j: int| 0 <= j < i ==> self.holdings@[j].owner != p,
            decreases self.holdings.len() - i,
        {
            if self.holdings[i].owner == p {
                proof {
                    lemma_slot(self.holdings@, i as int);
                }
                return Some(i);
            }
            i = i + 1;
        }
        None
    }

    /// The position of `p`'s holding, which is made first when `p` has none.
    /// The model stays as it is.
    fn slot_for(&mut self, env: &soroban_sdk::Env, p: Principal) -> (i: usize)
        requires
            old(self).wf(),
        ensures
            final(self).wf(),
            final(self)@ == old(self)@,
            i < final(self).holdings.len(),
            final(self).holdings[i as int].owner == p,
            token_ids(final(self).holdings[i as int].tokens) == old(self)@.owned[p],
            token_ids(final(self).holdings[i as int].staked) == old(self)@.staked[p],
    {
        match self.find(p) {
            Some(i) => i,
            None => {
                let holding = Holding { owner: p, tokens: ids_new(env), staked: ids_new(env) };
                self.holdings.push(holding);
                proof {
                    let before = old(self).holdings@;
                    let after = self.holdings@;
                    let last = before.len() as int;
                    assert(one_slot_each(after)) by {
                        assert forall|a: int, b: int| 0 <= a < b < after.len() implies (#[trigger] after[a]).owner != (
                        #[trigger] after[b]).owner by {
                            if b < last {
                                assert(before[a].owner != before[b].owner);
                            } else {
                                assert(before[a].owner != p);
                            }
                        }
                    }
                    lemma_slot(after, last);
                    assert forall|q: Principal| owned_in(after, q) == owned_in(before, q) && staked_in(after, q)
                        == staked_in(before, q) by {
                        if q != p {
                            if slot_of(before, q).is_some() {
                                let k = slot_of(before, q).unwrap();
                                assert(after[k] == before[k]);
                                lemma_slot(after, k);
                            } else {
                                if slot_of(after, q).is_some() {
                                    let k = slot_of(after, q).unwrap();
                                    assert(before[k].owner == q);
                                }
                            }
                        }
                    }
                    assert(self@.owned =~= old(self)@.owned);
                    assert(self@.staked =~= old(self)@.staked);
                }
                self.holdings.len() - 1
            },
        }
    }

    /// Mints a collectible for `to` and returns its id, the number of
    /// collectibles minted before it.
    ///
    /// Refused with `Unauthorized` unless `to` consents, and with
    /// `CapExceeded` when `to` owns five collectibles already.
    pub fn mint(&mut self, env: &soroban_sdk::Env, consent: &Consent, to: Principal, skin: String, now: u64) -> (result: Result<u64, Error>)
        requires
            old(self).wf(),
        ensures
            final(self).wf(),
            result.is_ok() <==> old(self)@.mint_refusal(consent@, to).is_none(),
            result.is_ok() ==> result.unwrap() == old(self)@.tokens.len() && final(self)@ == old(self)@.minted(
                to,
                skin,
                now,
            ),
            result.is_err() ==> Some(result.unwrap_err()) == old(self)@.mint_refusal(consent@, to) && final(self)@
                == old(self)@,
    {
        if !consent.covers(to) {
            return Err(Error::Unauthorized);
        }
        let i = self.slot_for(env, to);
        let count = ids_len(&self.holdings[i].tokens);
        if count >= MAX_PANDAS_PER_PLAYER {
            return Err(Error::CapExceeded);
        }
        let ghost before = self@;
        let ghost held = self.holdings@;
        let id = self.tokens.len() as u64;
        self.tokens.push(fresh(id, to, skin, now));
        ids_push(&mut self.holdings[i].tokens, id);
        proof {
            let after = self.holdings@;
            assert(self.tokens@.len() == self.tokens.len());
            lemma_slot(held, i as int);
            assert(one_slot_each(after)) by {
                assert forall|a: int, b: int| 0 <= a < b < after.len() implies (#[trigger] after[a]).owner != (
                #[trigger] after[b]).owner by {
                    assert(held[a].owner != held[b].owner);
                }
            }
            lemma_slot(after, i as int);
            assert forall|q: Principal| q != to implies owned_in(after, q) == owned_in(held, q) by {
                lemma_other_slots(held, after, i as int, q);
            }
            assert forall|q: Principal| staked_in(after, q) == staked_in(held, q) by {
                if q != to {
                    lemma_other_slots(held, after, i as int, q);
                }
            }
            assert(self@.owned =~= before.minted(to, skin, now).owned);
            assert(self@.staked =~= before.minted(to, skin, now).staked);
            lemma_minted_valid(before, to, skin, now);
        }
        Ok(id)
    }

    /// Stakes the collectible at time `now`: it is marked staked since `now`
    /// and joins the end of its owner's staked list.
    ///
    /// Refused with `NotFound` when no such collectible exists, else with
    /// `Unauthorized` unless its owner consents, else with `AlreadyStaked`
    /// when it is staked.
    pub fn stake(&mut self, env: &soroban_sdk::Env, consent: &Consent, token_id: u64, now: u64) -> (result: Result<(), Error>)
        requires
            old(self).wf(),
        ensures
            final(self).wf(),
            result.is_ok() <==> old(self)@.stake_refusal(consent@, token_id).is_none(),
            result.is_ok() ==> final(self)@ == old(self)@.with_stake(token_id, now),
            result.is_err() ==> Some(result.unwrap_err()) == old(self)@.stake_refusal(consent@, token_id)
                && final(self)@ == old(self)@,
    {
        if token_id >= self.tokens.len() as u64 {
            return Err(Error::NotFound);
        }
        let at = token_id as usize;
        let owner = self.tokens[at].owner;
        if !consent.covers(owner) {
            return Err(Error::Unauthorized);
        }
        if self.tokens[at].is_staked {
            return Err(Error::AlreadyStaked);
        }
        let i = self.slot_for(env, owner);
        let ghost before = self@;
        let ghost held = self.holdings@;
        proof {
            lemma_staked_within_owned(before, owner);
            lemma_slot(held, i as int);
        }
        self.tokens[at].is_staked = true;
        self.tokens[at].staked_at = now;
        ids_push(&mut self.holdings[i].staked, token_id);
        proof {
            let after = self.holdings@;
            lemma_same_owners(held, after);
            lemma_slot(after, i as int);
            assert forall|q: Principal| owned_in(after, q) == owned_in(held, q) by {
                if q != owner {
                    lemma_other_slots(held, after, i as int, q);
                }
            }
            assert forall|q: Principal| q != owner implies staked_in(after, q) == staked_in(held, q) by {
                lemma_other_slots(held, after, i as int, q);
            }
            assert(self@.tokens =~= before.with_stake(token_id, now).tokens);
            assert(self@.owned =~= before.with_stake(token_id, now).owned);
            assert(self@.staked =~= before.with_stake(token_id, now).staked);
            lemma_with_stake_valid(before, token_id, now);
        }
        Ok(())
    }

    /// Unstakes the collectible: it is marked not staked, its stake time is
    /// cleared, and it leaves its owner's staked list, whose other ids keep
    /// their order.
    ///
    /// Refused with `NotFound` when no such collectible exists, else with
    /// `Unauthorized` unless its owner consents, else with `NotStaked` when it
    /// is not staked.
    pub fn unstake(&mut self, env: &soroban_sdk::Env, consent: &Consent, token_id: u64) -> (result: Result<(), Error>)
        requires
            old(self).wf(),
        ensures
            final(self).wf(),
            result.is_ok() <==> old(self)@.unstake_refusal(consent@, token_id).is_none(),
            result.is_ok() ==> final(self)@ == old(self)@.without_stake(token_id),
            result.is_err() ==> Some(result.unwrap_err()) == old(self)@.unstake_refusal(consent@, token_id)
                && final(self)@ == old(self)@,
    {
        if token_id >= self.tokens.len() as u64 {
            return Err(Error::NotFound);
        }
        let at = token_id as usize;
        let owner = self.tokens[at].owner;
        if !consent.covers(owner) {
            return Err(Error::Unauthorized);
        }
        if !self.tokens[at].is_staked {
            return Err(Error::NotStaked);
        }
        let i = self.slot_for(env, owner);
        let ghost before = self@;
        let ghost held = self.holdings@;
        proof {
            lemma_staked_within_owned(before, owner);
            lemma_slot(held, i as int);
        }
        let kept = ids_without(env, &self.holdings[i].staked, token_id);
        self.tokens[at].is_staked = false;
        self.tokens[at].staked_at = 0;
        self.holdings[i].staked = kept;
        proof {
            let after = self.holdings@;
            lemma_same_owners(held, after);
            lemma_slot(after, i as int);
            assert forall|q: Principal| owned_in(after, q) == owned_in(held, q) by {
                if q != owner {
                    lemma_other_slots(held, after, i as int, q);
                }
            }
            assert forall|q: Principal| q != owner implies staked_in(after, q) == staked_in(held, q) by {
                lemma_other_slots(held, after, i as int, q);
            }
            assert(self@.tokens =~= before.without_stake(token_id).tokens);
            assert(self@.owned =~= before.without_stake(token_id).owned);
            assert(self@.staked =~= before.without_stake(token_id).staked);
            lemma_without_stake_valid(before, token_id);
        }
        Ok(())
    }

    /// Overwrites the games played and the total score of the collectible.
    /// Where no such collectible exists, nothing changes and the call still
    /// succeeds.
    ///
    /// Refused with `NotInitialized` when the registry has no admin, else with
    /// `Unauthorized` unless the admin consents.
    pub fn update_panda_stats(&mut self, consent: &Consent, token_id: u64, games_played: u32, score: i128) -> (result: Result<(), Error>)
        requires
            old(self).wf(),
        ensures
            final(self).wf(),
            result.is_ok() <==> admin_refusal(old(self)@.admin, consent@).is_none(),
            result.is_ok() ==> final(self)@ == old(self)@.with_stats(token_id, games_played, score),
            result.is_err() ==> Some(result.unwrap_err()) == admin_refusal(old(self)@.admin, consent@) && final(self)@
                == old(self)@,
    {
        if let Err(e) = require_admin(self.admin, consent) {
            return Err(e);
        }
        let ghost before = self@;
        if token_id < self.tokens.len() as u64 {
            let at = token_id as usize;
            self.tokens[at].games_played = games_played;
            self.tokens[at].total_score = score;
            proof {
                assert(self@.tokens =~= before.with_stats(token_id, games_played, score).tokens);
                assert(self@.owned =~= before.owned);
                assert(self@.staked =~= before.staked);
            }
        }
        proof {
            lemma_with_stats_valid(before, token_id, games_played, score);
        }
        Ok(())
    }

    /// The owner of the collectible, if it exists.
    pub fn get_owner(&self, token_id: u64) -> (owner: Option<Principal>)
        ensures
            self@.has(token_id) ==> owner == Some(self@.token(token_id).owner),
            !self@.has(token_id) ==> owner.is_none(),
    {
        if token_id < self.tokens.len() as u64 {
            Some(self.tokens[token_id as usize].owner)
        } else {
            None
        }
    }

    /// The collectible, if it exists.
    pub fn get_token_data(&self, token_id: u64) -> (panda: Option<PandaNFT>)
        ensures
            self@.has(token_id) ==> panda == Some(self@.token(token_id)),
            !self@.has(token_id) ==> panda.is_none(),
    {
        if token_id < self.tokens.len() as u64 {
            Some(self.tokens[token_id as usize].clone())
        } else {
            None
        }
    }

    /// The ids that `player` owns, in the order of their mint.
    pub fn get_player_pandas(&self, env: &soroban_sdk::Env, player: Principal) -> (ids: IdList)
        requires
            self.wf(),
        ensures
            token_ids(ids) == self@.owned[player],
    {
        match self.find(player) {
            Some(i) => ids_clone(&self.holdings[i].tokens),
            None => ids_new(env),
        }
    }

    /// The number of collectibles that `player` owns.
    pub fn get_player_panda_count(&self, player: Principal) -> (count: u32)
        requires
            self.wf(),
        ensures
            count == self@.owned[player].len(),
    {
        proof {
            assert(self@.owned[player].len() <= MAX_PANDAS_PER_PLAYER);
        }
        match self.find(player) {
            Some(i) => ids_len(&self.holdings[i].tokens),
            None => 0,
        }
    }

    /// The number of collectibles minted so far, which is the next id.
    pub fn get_total_supply(&self) -> (supply: u64)
        ensures
            supply == self@.tokens.len(),
    {
        self.tokens.len() as u64
    }

    /// Whether a mint for `player` would pass the cap.
    pub fn can_mint_more(&self, player: Principal) -> (yes: bool)
        requires
            self.wf(),
        ensures
            yes == (self@.owned[player].len() < MAX_PANDAS_PER_PLAYER),
    {
        self.get_player_panda_count(player) < MAX_PANDAS_PER_PLAYER
    }

    /// The ids that `player` has staked, in the order in which it staked them.
    pub fn get_staked_pandas(&self, env: &soroban_sdk::Env, player: Principal) -> (ids: IdList)
        requires
            self.wf(),
        ensures
            token_ids(ids) == self@.staked[player],
    {
        match self.find(player) {
            Some(i) => ids_clone(&self.holdings[i].staked),
            None => ids_new(env),
        }
    }

    /// The number of collectibles that `player` has staked.
    pub fn get_staked_count(&self, player: Principal) -> (count: u32)
        requires
            self.wf(),
        ensures
            count == self@.staked[player].len(),
    {
        proof {
            lemma_staked_within_owned(self@, player);
        }
        match self.find(player) {
            Some(i) => ids_len(&self.holdings[i].staked),
            None => 0,
        }
    }

    /// For how long the collectible has been staked at time `now`: nothing
    /// when it is not staked or when `now` is not after its stake time.
    /// Refused with `NotFound` when no such collectible exists.
    pub fn get_staking_duration(&self, token_id: u64, now: u64) -> (result: Result<u64, Error>)
        ensures
            self@.has(token_id) ==> result.is_ok() && result.unwrap() == self@.staking_duration(token_id, now),
            !self@.has(token_id) ==> result == Err::<u64, Error>(Error::NotFound),
    {
        if token_id >= self.tokens.len() as u64 {
            return Err(Error::NotFound);
        }
        let panda = &self.tokens[token_id as usize];
        if !panda.is_staked {
            return Ok(0);
        }
        if now > panda.staked_at {
            Ok(now - panda.staked_at)
        } else {
            Ok(0)
        }
    }

    /// Whether the collectible exists and is staked.
    pub fn is_nft_staked(&self, token_id: u64) -> (yes: bool)
        ensures
            yes == (self@.has(token_id) && self@.token(token_id).is_staked),
    {
        if token_id < self.tokens.len() as u64 {
            self.tokens[token_id as usize].is_staked
        } else {
            false
        }
    }
}

/// The collectible that a mint creates.
fn fresh(token_id: u64, owner: Principal, skin: String, now: u64) -> (panda: PandaNFT)
    ensures
        panda == fresh_panda(token_id, owner, skin, now),
{
    PandaNFT {
        token_id,
        owner,
        skin,
        minted_at: now,
        games_played: 0,
        total_score: 0,
        is_staked: false,
        staked_at: 0,
    }
}

/// Where the holdings keep their owners, each owner still has one.
proof fn lemma_same_owners(before: Seq<Holding>, after: Seq<Holding>)
    requires
        one_slot_each(before),
        before.len() == after.len(),
        forall|k: int| 0 <= k < before.len() ==> (#[trigger] before[k]).owner == after[k].owner,
    ensures
        one_slot_each(after),
{
    assert forall|a: int, b: int| 0 <= a < b < after.len() implies (#[trigger] after[a]).owner != (
    #[trigger] after[b]).owner by {
        assert(before[a].owner == after[a].owner);
        assert(before[b].owner == after[b].owner);
        assert(before[a].owner != before[b].owner);
    }
}

/// The ids of `list` other than `id`, as a new host list.
fn ids_without(env: &soroban_sdk::Env, list: &IdList, id: u64) -> (kept: IdList)
    requires
        token_ids(*list).len() <= u32::MAX,
    ensures
        token_ids(kept) == without(token_ids(*list), id),
{
    let mut kept = ids_new(env);
    let n: u32 = ids_len(list);
    let mut i: u32 = 0;
    while i < n
        invariant
            n == token_ids(*list).len(),
            i <= n,
            token_ids(kept) == without(token_ids(*list).take(i as int), id),
        decreases n - i,
    {
        let item = ids_get(list, i);
        proof {
            let all = token_ids(*list);
            let seen = all.take(i as int);
            reveal(Seq::filter);
            assert(all.take(i as int + 1) == seen.push(all[i as int]));
            assert(seen.push(all[i as int]).drop_last() == seen);
            lemma_without(seen, id);
        }
        if let Some(t) = item {
            if t != id {
                ids_push(&mut kept, t);
            }
        }
        i = i + 1;
    }
    proof {
        assert(token_ids(*list).take(n as int) == token_ids(*list));
    }
    kept
}

/// Where only the holding at `i` differs, and keeps its owner, every other
/// principal has the lists it had.
proof fn lemma_other_slots(before: Seq<Holding>, after: Seq<Holding>, i: int, q: Principal)
    requires
        one_slot_each(before),
        one_slot_each(after),
        before.len() == after.len(),
        0 <= i < before.len(),
        before[i].owner == after[i].owner,
        forall|k: int| 0 <= k < before.len() && k != i ==> before[k] == after[k],
        q != before[i].owner,
    ensures
        owned_in(after, q) == owned_in(before, q),
        staked_in(after, q) == staked_in(before, q),
{
    if slot_of(before, q).is_some() {
        let k = slot_of(before, q).unwrap();
        assert(after[k] == before[k]);
        lemma_slot(after, k);
    } else {
        if slot_of(after, q).is_some() {
            let k = slot_of(after, q).unwrap();
            assert(before[k].owner == q);
        }
    }
}

/// Cap enforcement: a mint with the owner's consent is refused exactly when
/// the owner holds five collectibles, and then with `CapExceeded`; a mint that
/// is not refused adds one to the owner's count and leaves every other count
/// alone.
pub proof fn lemma_mint_cap(s: RegistryState, consent: Set<Principal>, to: Principal, skin: String, now: u64)
    requires
        s.valid(),
        consent.contains(to),
    ensures
        s.owned[to].len() >= MAX_PANDAS_PER_PLAYER <==> s.mint_refusal(consent, to) == Some(Error::CapExceeded),
        s.owned[to].len() < MAX_PANDAS_PER_PLAYER <==> s.mint_refusal(consent, to).is_none(),
        s.minted(to, skin, now).owned[to].len() == s.owned[to].len() + 1,
        forall|other: Principal| other != to ==> s.minted(to, skin, now).owned[other] == s.owned[other],
{
}

/// Cap enforcement over a run of mints: as long as the owner stays within the
/// cap, each of the mints is accepted and counted; and once the count is five,
/// the next mint is refused with `CapExceeded`.  So the sixth mint after five
/// accepted ones fails.
pub proof fn lemma_mints_reach_cap(
    s: RegistryState,
    consent: Set<Principal>,
    to: Principal,
    skins: Seq<String>,
    times: Seq<u64>,
)
    requires
        s.valid(),
        consent.contains(to),
        skins.len() == times.len(),
        s.owned[to].len() + skins.len() <= MAX_PANDAS_PER_PLAYER,
        s.tokens.len() + skins.len() <= u64::MAX,
    ensures
        s.minted_each(to, skins, times).valid(),
        s.minted_each(to, skins, times).tokens.len() == s.tokens.len() + skins.len(),
        s.minted_each(to, skins, times).owned[to].len() == s.owned[to].len() + skins.len(),
        forall|k: int|
            0 <= k < skins.len() ==> (#[trigger] s.minted_each(to, skins.take(k), times.take(k))).mint_refusal(
                consent,
                to,
            ).is_none(),
        s.owned[to].len() + skins.len() == MAX_PANDAS_PER_PLAYER ==> s.minted_each(to, skins, times).mint_refusal(
            consent,
            to,
        ) == Some(Error::CapExceeded),
    decreases skins.len(),
{
    if skins.len() > 0 {
        let front_skins = skins.drop_last();
        let front_times = times.drop_last();
        lemma_mints_reach_cap(s, consent, to, front_skins, front_times);
        let before = s.minted_each(to, front_skins, front_times);
        lemma_minted_valid(before, to, skins.last(), times.last());
        assert forall|k: int| 0 <= k < skins.len() implies (#[trigger] s.minted_each(
            to,
            skins.take(k),
            times.take(k),
        )).mint_refusal(consent, to).is_none() by {
            if k < front_skins.len() {
                assert(skins.take(k) == front_skins.take(k));
                assert(times.take(k) == front_times.take(k));
            } else {
                assert(skins.take(k) == front_skins);
                assert(times.take(k) == front_times);
            }
        }
    }
}

/// Stake toggling: staking a collectible and unstaking it again gives back
/// the registry as it was, so the collectible is not staked and its owner's
/// staked count is what it was before; in between, the collectible is staked,
/// a second stake is refused with `AlreadyStaked`, and the unstake is not
/// refused.
pub proof fn lemma_stake_then_unstake(s: RegistryState, consent: Set<Principal>, id: u64, now: u64)
    requires
        s.valid(),
        s.stake_refusal(consent, id).is_none(),
    ensures
        s.with_stake(id, now).valid(),
        s.with_stake(id, now).token(id).is_staked,
        s.with_stake(id, now).staked[s.token(id).owner].len() == s.staked[s.token(id).owner].len() + 1,
        s.with_stake(id, now).stake_refusal(consent, id) == Some(Error::AlreadyStaked),
        s.with_stake(id, now).unstake_refusal(consent, id).is_none(),
        s.with_stake(id, now).without_stake(id) == s,
{
    let owner = s.token(id).owner;
    let mid = s.with_stake(id, now);
    let back = mid.without_stake(id);
    lemma_with_stake_valid(s, id, now);
    assert(!s.staked[owner].contains(id));
    lemma_without(s.staked[owner], id);
    reveal(Seq::filter);
    assert(s.staked[owner].push(id).drop_last() == s.staked[owner]);
    assert(without(s.staked[owner].push(id), id) == s.staked[owner]);
    assert(back.staked =~= s.staked);
    assert(s.tokens[id as int].staked_at == 0);
    assert(back.tokens =~= s.tokens);
}

/// Stake toggling: with the owner's consent, unstaking a collectible that is
/// not staked is refused with `NotStaked`, and staking one that is staked
/// with `AlreadyStaked`.
pub proof fn lemma_stake_state(s: RegistryState, consent: Set<Principal>, id: u64)
    requires
        s.has(id),
        consent.contains(s.token(id).owner),
    ensures
        !s.token(id).is_staked <==> s.unstake_refusal(consent, id) == Some(Error::NotStaked),
        !s.token(id).is_staked <==> s.stake_refusal(consent, id).is_none(),
        s.token(id).is_staked <==> s.stake_refusal(consent, id) == Some(Error::AlreadyStaked),
        s.token(id).is_staked <==> s.unstake_refusal(consent, id).is_none(),
{
}

/// What a registry holds for one owner, in plain values: the ids it owns and
/// the ids it has staked, each in the order in which they were added.
#[derive(Debug, PartialEq, Eq)]
pub struct HoldingRecord {
    pub owner: Principal,
    pub tokens: Vec<u64>,
    pub staked: Vec<u64>,
}

/// No two records are of one owner.
pub open spec fn distinct_owners(records: Seq<HoldingRecord>) -> bool {
    forall|i: int, j: int|
        0 <= i < j < records.len() ==> (#[trigger] records[i]).owner != (#[trigger] records[j]).owner
}

/// The position of `p`'s record, if it has one.
pub open spec fn record_of(records: Seq<HoldingRecord>, p: Principal) -> Option<int> {
    if exists|i: int| 0 <= i < records.len() && records[i].owner == p {
        Some(choose|i: int| 0 <= i < records.len() && records[i].owner == p)
    } else {
        None
    }
}

/// The registry that an admin, the collectibles and the records describe.
pub open spec fn described(admin: Option<Principal>, tokens: Seq<PandaNFT>, records: Seq<HoldingRecord>) -> RegistryState {
    RegistryState {
        admin,
        tokens,
        owned: Map::total(
            |p: Principal|
                match record_of(records, p) {
                    Some(i) => records[i].tokens@,
                    None => Seq::empty(),
                },
        ),
        staked: Map::total(
            |p: Principal|
                match record_of(records, p) {
                    Some(i) => records[i].staked@,
                    None => Seq::empty(),
                },
        ),
    }
}

/// The ids of a plain list, as a host list.
fn ids_from(env: &soroban_sdk::Env, items: &Vec<u64>) -> (list: IdList)
    requires
        items.len() <= u32::MAX,
    ensures
        token_ids(list) == items@,
{
    let mut list = ids_new(env);
    let mut i: usize = 0;
    while i < items.len()
        invariant
            i <= items.len(),
            items.len() <= u32::MAX,
            token_ids(list) == items@.take(i as int),
        decreases items.len() - i,
    {
        ids_push(&mut list, items[i]);
        proof {
            assert(items@.take(i as int + 1) == items@.take(i as int).push(items@[i as int]));
        }
        i = i + 1;
    }
    proof {
        assert(items@.take(items.len() as int) == items@);
    }
    list
}

/// The ids of a host list, as a plain list.
fn ids_to_vec(list: &IdList) -> (items: Vec<u64>)
    requires
        token_ids(*list).len() <= u32::MAX,
    ensures
        items@ == token_ids(*list),
{
    let mut items: Vec<u64> = Vec::new();
    let n: u32 = ids_len(list);
    let mut i: u32 = 0;
    while i < n
        invariant
            n == token_ids(*list).len(),
            i <= n,
            items@ == token_ids(*list).take(i as int),
        decreases n - i,
    {
        let item = ids_get(list, i);
        if let Some(t) = item {
            items.push(t);
        }
        proof {
            let all = token_ids(*list);
            assert(all.take(i as int + 1) == all.take(i as int).push(all[i as int]));
        }
        i = i + 1;
    }
    proof {
        assert(token_ids(*list).take(n as int) == token_ids(*list));
    }
    items
}

/// Whether the id is in the list.
fn ids_has(list: &IdList, id: u64) -> (yes: bool)
    requires
        token_ids(*list).len() <= u32::MAX,
    ensures
        yes == token_ids(*list).contains(id),
{
    let n: u32 = ids_len(list);
    let mut i: u32 = 0;
    while i < n
        invariant
            n == token_ids(*list).len(),
            i <= n,
            forall|j: int| 0 <= j < i ==> token_ids(*list)[j] != id,
        decreases n - i,
    {
        let item = ids_get(list, i);
        if item == Some(id) {
            return true;
        }
        i = i + 1;
    }
    false
}

/// Whether no id stands twice in the list.
fn ids_distinct(list: &IdList) -> (yes: bool)
    requires
        token_ids(*list).len() <= u32::MAX,
    ensures
        yes == token_ids(*list).no_duplicates(),
{
    let n: u32 = ids_len(list);
    let mut i: u32 = 0;
    while i < n
        invariant
            n == token_ids(*list).len(),
            i <= n,
            forall|a: int, b: int| 0 <= a < i && a < b < n ==> token_ids(*list)[a] != token_ids(*list)[b],
        decreases n - i,
    {
        let first = ids_get(list, i);
        let mut j: u32 = i + 1;
        while j < n
            invariant
                n == token_ids(*list).len(),
                i < j <= n,
                first == Some(token_ids(*list)[i as int]),
                forall|b: int| i < b < j ==> token_ids(*list)[i as int] != token_ids(*list)[b],
            decreases n - j,
        {
            let second = ids_get(list, j);
            if first == second {
                return false;
            }
            j = j + 1;
        }
        i = i + 1;
    }
    proof {
        let all = token_ids(*list);
        assert forall|a: int, b: int| 0 <= a < all.len() && 0 <= b < all.len() && a != b implies all[a] != all[b] by {
            if a < b {
                assert(all[a] != all[b]);
            } else {
                assert(all[b] != all[a]);
            }
        }
    }
    true
}

/// What a restore asks of the holding at `k`: its lists
/// are short and without repetition, every owned id is a collectible of the
/// owner, and every staked id is a staked collectible of the owner.
spec fn holding_sound(tokens: Seq<PandaNFT>, holdings: Seq<Holding>, k: int) -> bool {
    let h = holdings[k];
    let owned = token_ids(h.tokens);
    let staked = token_ids(h.staked);
    &&& owned.len() <= MAX_PANDAS_PER_PLAYER
    &&& staked.len() <= MAX_PANDAS_PER_PLAYER
    &&& owned.no_duplicates()
    &&& staked.no_duplicates()
    &&& forall|a: int| 0 <= a < owned.len() ==> (#[trigger] owned[a]) < tokens.len() && tokens[owned[a] as int].owner == h.owner
    &&& forall|a: int|
        0 <= a < staked.len() ==> (#[trigger] staked[a]) < tokens.len() && tokens[staked[a] as int].owner == h.owner
            && tokens[staked[a] as int].is_staked
}

/// What a restore asks of the collectible at `i`: it
/// stands under its id, has no stake time unless it is staked, its owner has
/// a holding whose owned list names it, and whose staked list names it when
/// it is staked.
spec fn token_sound(tokens: Seq<PandaNFT>, holdings: Seq<Holding>, i: int) -> bool {
    let t = tokens[i];
    &&& t.token_id == i
    &&& !t.is_staked ==> t.staked_at == 0
    &&& slot_of(holdings, t.owner).is_some()
    &&& token_ids(holdings[slot_of(holdings, t.owner).unwrap()].tokens).contains(i as u64)
    &&& t.is_staked ==> token_ids(holdings[slot_of(holdings, t.owner).unwrap()].staked).contains(i as u64)
}

impl PandaNFTContract {
    /// The registry is valid exactly when every holding and every collectible
    /// is sound.
    proof fn lemma_sound_is_valid(&self)
        requires
            self.indexed(),
            self.tokens@.len() <= u64::MAX,
        ensures
            self@.valid() <==> (forall|k: int| 0 <= k < self.holdings@.len() ==> holding_sound(self.tokens@, self.holdings@, k))
                && (forall|i: int| 0 <= i < self.tokens@.len() ==> token_sound(self.tokens@, self.holdings@, i)),
    {
        let s = self@;
        let tokens = self.tokens@;
        let holdings = self.holdings@;
        assert(s.owned.dom() =~= Set::<Principal>::full());
        assert(s.staked.dom() =~= Set::<Principal>::full());
        if s.valid() {
            assert forall|k: int| 0 <= k < holdings.len() implies holding_sound(tokens, holdings, k) by {
                let p = holdings[k].owner;
                lemma_slot(holdings, k);
                lemma_staked_within_owned(s, p);
                assert(s.owned[p] == token_ids(holdings[k].tokens));
                assert(s.staked[p] == token_ids(holdings[k].staked));
                let owned = s.owned[p];
                let staked = s.staked[p];
                assert forall|a: int| 0 <= a < owned.len() implies (#[trigger] owned[a]) < tokens.len() && tokens[owned[a] as int].owner
                    == p by {
                    assert(owned.contains(owned[a]));
                    assert(s.has(owned[a]) && s.token(owned[a]).owner == p);
                }
                assert forall|a: int| 0 <= a < staked.len() implies (#[trigger] staked[a]) < tokens.len() && tokens[staked[a] as int].owner
                    == p && tokens[staked[a] as int].is_staked by {
                    assert(staked.contains(staked[a]));
                    assert(s.has(staked[a]) && s.token(staked[a]).owner == p && s.token(staked[a]).is_staked);
                }
            }
            assert forall|i: int| 0 <= i < tokens.len() implies token_sound(tokens, holdings, i) by {
                let t = tokens[i];
                let id = i as u64;
                assert(s.has(id) && s.token(id).owner == t.owner);
                assert(s.owned[t.owner].contains(id));
                assert(owned_in(holdings, t.owner).contains(id));
                if t.is_staked {
                    assert(s.staked[t.owner].contains(id));
                }
            }
        }
        if (forall|k: int| 0 <= k < holdings.len() ==> holding_sound(tokens, holdings, k)) && (forall|i: int|
            0 <= i < tokens.len() ==> token_sound(tokens, holdings, i)) {
            assert forall|i: int| 0 <= i < s.tokens.len() implies (#[trigger] s.tokens[i]).token_id == i by {
                assert(token_sound(tokens, holdings, i));
            }
            assert forall|i: int| 0 <= i < s.tokens.len() && !(#[trigger] s.tokens[i]).is_staked implies s.tokens[i].staked_at
                == 0 by {
                assert(token_sound(tokens, holdings, i));
            }
            assert forall|p: Principal|
                (#[trigger] s.owned[p]).no_duplicates() && s.owned[p].len() <= MAX_PANDAS_PER_PLAYER
                    && s.staked[p].no_duplicates() by {
                if slot_of(holdings, p).is_some() {
                    let k = slot_of(holdings, p).unwrap();
                    assert(holding_sound(tokens, holdings, k));
                }
            }
            assert forall|p: Principal| (#[trigger] s.staked[p]).no_duplicates() by {
                assert(s.owned[p].no_duplicates());
            }
            assert forall|p: Principal, id: u64| #[trigger]
                s.owned[p].contains(id) <==> s.has(id) && s.token(id).owner == p by {
                if s.owned[p].contains(id) {
                    let k = slot_of(holdings, p).unwrap();
                    assert(holding_sound(tokens, holdings, k));
                    let owned = token_ids(holdings[k].tokens);
                    let a = choose|a: int| 0 <= a < owned.len() && owned[a] == id;
                    assert(owned[a] < tokens.len());
                }
                if s.has(id) && s.token(id).owner == p {
                    assert(token_sound(tokens, holdings, id as int));
                }
            }
            assert forall|p: Principal, id: u64| #[trigger]
                s.staked[p].contains(id) <==> s.has(id) && s.token(id).owner == p && s.token(id).is_staked by {
                if s.staked[p].contains(id) {
                    let k = slot_of(holdings, p).unwrap();
                    assert(holding_sound(tokens, holdings, k));
                    let staked = token_ids(holdings[k].staked);
                    let a = choose|a: int| 0 <= a < staked.len() && staked[a] == id;
                    assert(staked[a] < tokens.len());
                }
                if s.has(id) && s.token(id).owner == p && s.token(id).is_staked {
                    assert(token_sound(tokens, holdings, id as int));
                }
            }
        }
    }

    /// Decides whether the holding at `k` is sound.
    fn holding_is_sound(&self, k: usize) -> (ok: bool)
        requires
            k < self.holdings.len(),
            token_ids(self.holdings[k as int].tokens).len() <= MAX_PANDAS_PER_PLAYER,
            token_ids(self.holdings[k as int].staked).len() <= MAX_PANDAS_PER_PLAYER,
        ensures
            ok == holding_sound(self.tokens@, self.holdings@, k as int),
    {
        let holding = &self.holdings[k];
        if !ids_distinct(&holding.tokens) || !ids_distinct(&holding.staked) {
            return false;
        }
        let ghost owned = token_ids(holding.tokens);
        let ghost staked = token_ids(holding.staked);
        let n: u32 = ids_len(&holding.tokens);
        let mut a: u32 = 0;
        while a < n
            invariant
                holding == &self.holdings[k as int],
                owned == token_ids(holding.tokens),
                n == owned.len(),
                a <= n,
                forall|b: int|
                    0 <= b < a ==> (#[trigger] owned[b]) < self.tokens@.len() && self.tokens@[owned[b] as int].owner
                        == holding.owner,
            decreases n - a,
        {
            let item = ids_get(&holding.tokens, a);
            let id = match item {
                Some(id) => id,
                None => {
                    return false;
                },
            };
            if id >= self.tokens.len() as u64 {
                return false;
            }
            if self.tokens[id as usize].owner != holding.owner {
                return false;
            }
            a = a + 1;
        }
        let m: u32 = ids_len(&holding.staked);
        let mut a: u32 = 0;
        while a < m
            invariant
                holding == &self.holdings[k as int],
                staked == token_ids(holding.staked),
                m == staked.len(),
                a <= m,
                forall|b: int|
                    0 <= b < a ==> (#[trigger] staked[b]) < self.tokens@.len() && self.tokens@[staked[b] as int].owner
                        == holding.owner && self.tokens@[staked[b] as int].is_staked,
            decreases m - a,
        {
            let item = ids_get(&holding.staked, a);
            let id = match item {
                Some(id) => id,
                None => {
                    return false;
                },
            };
            if id >= self.tokens.len() as u64 {
                return false;
            }
            if self.tokens[id as usize].owner != holding.owner || !self.tokens[id as usize].is_staked {
                return false;
            }
            a = a + 1;
        }
        true
    }

    /// Decides whether the collectible at `i` is sound.
    fn token_is_sound(&self, i: usize) -> (ok: bool)
        requires
            self.indexed(),
            i < self.tokens.len(),
            forall|k: int|
                0 <= k < self.holdings@.len() ==> token_ids(#[trigger] self.holdings@[k].tokens).len() <= u32::MAX
                    && token_ids(self.holdings@[k].staked).len() <= u32::MAX,
        ensures
            ok == token_sound(self.tokens@, self.holdings@, i as int),
    {
        let token = &self.tokens[i];
        if token.token_id != i as u64 {
            return false;
        }
        if !token.is_staked && token.staked_at != 0 {
            return false;
        }
        let k = match self.find(token.owner) {
            Some(k) => k,
            None => {
                return false;
            },
        };
        assert(token_ids(self.holdings@[k as int].tokens).len() <= u32::MAX);
        if !ids_has(&self.holdings[k].tokens, i as u64) {
            return false;
        }
        if token.is_staked && !ids_has(&self.holdings[k].staked, i as u64) {
            return false;
        }
        true
    }

    /// Decides whether the registry is valid.
    fn is_consistent(&self) -> (ok: bool)
        requires
            self.indexed(),
            forall|k: int|
                0 <= k < self.holdings@.len() ==> token_ids(#[trigger] self.holdings@[k].tokens).len()
                    <= MAX_PANDAS_PER_PLAYER && token_ids(self.holdings@[k].staked).len() <= MAX_PANDAS_PER_PLAYER,
        ensures
            ok == self@.valid(),
    {
        let ghost valid = self@.valid();
        proof {
            assert(self.tokens@.len() == self.tokens.len());
            self.lemma_sound_is_valid();
        }
        let mut k: usize = 0;
        while k < self.holdings.len()
            invariant
                k <= self.holdings.len(),
                valid == self@.valid(),
                valid ==> forall|j: int| 0 <= j < self.holdings@.len() ==> holding_sound(self.tokens@, self.holdings@, j),
                forall|j: int|
                    0 <= j < self.holdings@.len() ==> token_ids(#[trigger] self.holdings@[j].tokens).len()
                        <= MAX_PANDAS_PER_PLAYER && token_ids(self.holdings@[j].staked).len()
                        <= MAX_PANDAS_PER_PLAYER,
                forall|j: int| 0 <= j < k ==> holding_sound(self.tokens@, self.holdings@, j),
            decreases self.holdings.len() - k,
        {
            assert(token_ids(self.holdings@[k as int].tokens).len() <= MAX_PANDAS_PER_PLAYER);
            if !self.holding_is_sound(k) {
                return false;
            }
            k = k + 1;
        }
        let mut i: usize = 0;
        while i < self.tokens.len()
            invariant
                i <= self.tokens.len(),
                self.indexed(),
                valid == self@.valid(),
                valid <==> forall|j: int| 0 <= j < self.tokens@.len() ==> token_sound(self.tokens@, self.holdings@, j),
                forall|j: int|
                    0 <= j < self.holdings@.len() ==> token_ids(#[trigger] self.holdings@[j].tokens).len()
                        <= MAX_PANDAS_PER_PLAYER && token_ids(self.holdings@[j].staked).len()
                        <= MAX_PANDAS_PER_PLAYER,
                forall|j: int| 0 <= j < i ==> token_sound(self.tokens@, self.holdings@, j),
            decreases self.tokens.len() - i,
        {
            if !self.token_is_sound(i) {
                return false;
            }
            i = i + 1;
        }
        true
    }

    /// The registry that the admin, the collectibles and the records
    /// describe, when the records are of different owners and what they
    /// describe is a consistent index; else nothing.
    pub fn restore(env: &soroban_sdk::Env, admin: Option<Principal>, tokens: Vec<PandaNFT>, records: &Vec<HoldingRecord>) -> (registry: Option<PandaNFTContract>)
        ensures
            registry.is_some() <==> distinct_owners(records@) && described(admin, tokens@, records@).valid(),
            registry.is_some() ==> registry.unwrap().wf() && registry.unwrap()@ == described(admin, tokens@, records@),
    {
        let ghost goal = described(admin, tokens@, records@);
        // The owners must differ.
        let mut i: usize = 0;
        while i < records.len()
            invariant
                i <= records.len(),
                forall|a: int, b: int| 0 <= a < i && a < b < records.len() ==> (#[trigger] records@[a]).owner != (
                #[trigger] records@[b]).owner,
            decreases records.len() - i,
        {
            let mut j: usize = i + 1;
            while j < records.len()
                invariant
                    i < j <= records.len(),
                    forall|b: int| i < b < j ==> records@[i as int].owner != (#[trigger] records@[b]).owner,
                decreases records.len() - j,
            {
                if records[i].owner == records[j].owner {
                    return None;
                }
                j = j + 1;
            }
            i = i + 1;
        }
        assert(distinct_owners(records@));
        // The lists become host lists; one that is over the cap cannot be valid.
        let mut holdings: Vec<Holding> = Vec::new();
        let mut k: usize = 0;
        while k < records.len()
            invariant
                k <= records.len(),
                holdings.len() == k,
                distinct_owners(records@),
                goal == described(admin, tokens@, records@),
                forall|j: int|
                    0 <= j < k ==> (#[trigger] holdings@[j]).owner == records@[j].owner && token_ids(holdings@[j].tokens)
                        == records@[j].tokens@ && token_ids(holdings@[j].staked) == records@[j].staked@
                        && records@[j].tokens@.len() <= MAX_PANDAS_PER_PLAYER && records@[j].staked@.len()
                        <= MAX_PANDAS_PER_PLAYER,
            decreases records.len() - k,
        {
            let record = &records[k];
            if record.tokens.len() > 5 || record.staked.len() > 5 {
                proof {
                    lemma_record(records@, k as int);
                    if goal.valid() {
                        lemma_staked_within_owned(goal, record.owner);
                        assert(goal.owned[record.owner].len() <= MAX_PANDAS_PER_PLAYER);
                    }
                }
                return None;
            }
            let holding = Holding {
                owner: record.owner,
                tokens: ids_from(env, &record.tokens),
                staked: ids_from(env, &record.staked),
            };
            let ghost built = holdings@;
            holdings.push(holding);
            proof {
                assert forall|j: int| 0 <= j < k + 1 implies (#[trigger] holdings@[j]).owner == records@[j].owner
                    && token_ids(holdings@[j].tokens) == records@[j].tokens@ && token_ids(holdings@[j].staked)
                    == records@[j].staked@ && records@[j].tokens@.len() <= MAX_PANDAS_PER_PLAYER
                    && records@[j].staked@.len() <= MAX_PANDAS_PER_PLAYER by {
                    if j < k {
                        assert(holdings@[j] == built[j]);
                    }
                }
            }
            k = k + 1;
        }
        let registry = PandaNFTContract { admin, tokens, holdings };
        proof {
            let held = registry.holdings@;
            assert(one_slot_each(held)) by {
                assert forall|a: int, b: int| 0 <= a < b < held.len() implies (#[trigger] held[a]).owner != (
                #[trigger] held[b]).owner by {
                    assert(records@[a].owner != records@[b].owner);
                }
            }
            assert forall|p: Principal| owned_in(held, p) == goal.owned[p] && staked_in(held, p) == goal.staked[p] by {
                if slot_of(held, p).is_some() {
                    let a = slot_of(held, p).unwrap();
                    assert(records@[a].owner == p);
                    lemma_record(records@, a);
                } else {
                    if record_of(records@, p).is_some() {
                        let a = record_of(records@, p).unwrap();
                        assert(held[a].owner == p);
                    }
                }
            }
            assert(registry@.owned =~= goal.owned);
            assert(registry@.staked =~= goal.staked);
            assert(registry@ == goal);
        }
        if registry.is_consistent() {
            Some(registry)
        } else {
            None
        }
    }

    /// The admin, if the registry has one.
    pub fn get_admin(&self) -> (admin: Option<Principal>)
        ensures
            admin == self@.admin,
    {
        self.admin
    }

    /// The collectibles in the order of their ids.
    pub fn tokens(&self) -> (tokens: &Vec<PandaNFT>)
        ensures
            tokens@ == self@.tokens,
    {
        &self.tokens
    }

    /// A record for each owner that the registry has seen, the owners all
    /// different; together with the admin and the collectibles they describe
    /// the registry.
    pub fn holdings(&self) -> (records: Vec<HoldingRecord>)
        requires
            self.wf(),
        ensures
            distinct_owners(records@),
            described(self@.admin, self@.tokens, records@) == self@,
    {
        let mut records: Vec<HoldingRecord> = Vec::new();
        let mut k: usize = 0;
        while k < self.holdings.len()
            invariant
                k <= self.holdings.len(),
                records.len() == k,
                self.wf(),
                forall|j: int|
                    0 <= j < k ==> (#[trigger] records@[j]).owner == self.holdings@[j].owner && records@[j].tokens@
                        == token_ids(self.holdings@[j].tokens) && records@[j].staked@ == token_ids(
                        self.holdings@[j].staked,
                    ),
            decreases self.holdings.len() - k,
        {
            let holding = &self.holdings[k];
            proof {
                lemma_slot(self.holdings@, k as int);
                lemma_staked_within_owned(self@, holding.owner);
                assert(self@.owned[holding.owner] == token_ids(holding.tokens));
                assert(self@.staked[holding.owner] == token_ids(holding.staked));
            }
            let record = HoldingRecord {
                owner: holding.owner,
                tokens: ids_to_vec(&holding.tokens),
                staked: ids_to_vec(&holding.staked),
            };
            records.push(record);
            k = k + 1;
        }
        proof {
            let held = self.holdings@;
            let goal = described(self@.admin, self@.tokens, records@);
            assert(distinct_owners(records@)) by {
                assert forall|a: int, b: int| 0 <= a < b < records@.len() implies (#[trigger] records@[a]).owner != (
                #[trigger] records@[b]).owner by {
                    assert(held[a].owner != held[b].owner);
                }
            }
            assert forall|p: Principal| owned_in(held, p) == goal.owned[p] && staked_in(held, p) == goal.staked[p] by {
                if slot_of(held, p).is_some() {
                    let a = slot_of(held, p).unwrap();
                    assert(records@[a].owner == p);
                    lemma_record(records@, a);
                } else {
                    if record_of(records@, p).is_some() {
                        let a = record_of(records@, p).unwrap();
                        assert(held[a].owner == p);
                    }
                }
            }
            assert(self@.owned =~= goal.owned);
            assert(self@.staked =~= goal.staked);
        }
        records
    }
}

/// Among records of different owners, the record at `i` is the record of its
/// owner.
proof fn lemma_record(records: Seq<HoldingRecord>, i: int)
    requires
        distinct_owners(records),
        0 <= i < records.len(),
    ensures
        record_of(records, records[i].owner) == Some(i),
{
    let p = records[i].owner;
    let j = choose|j: int| 0 <= j < records.len() && records[j].owner == p;
    if j < i {
        assert(records[j].owner != records[i].owner);
    }
    if i < j {
        assert(records[i].owner != records[j].owner);
    }
}

} // verus!
