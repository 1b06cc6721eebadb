//! The reward engine: the reward formula, the score history of every player,
//! the count of games, and the credit that a score earns on the token ledger.
//!
//! [`RewardsState`] is the mathematical model of the engine and says what
//! every operation does.  [`GameRewards`] is the engine itself.
//!
//! A score is submitted in two steps around the credit on the token ledger:
//! [`GameRewards::prepare_score`] judges the submission and computes reward
//! and record without changing anything, [`GameRewards::record_score`] takes
//! the outcome of the credit and commits the record only when the credit
//! went through.  [`GameRewards::submit_score`] is the whole submission
//! against a ledger of this library.

use vstd::prelude::*;
use crate::error::Error;
use crate::panda_token::PandaToken;
use crate::principal::{admin_refusal, require_admin, Consent, Principal};

verus! {

/// The reward per point of score.
pub const BASE_REWARD_MULTIPLIER: i128 = 1_000_000;

/// The reward per unit of combo.
pub const COMBO_BONUS_MULTIPLIER: i128 = 5_000_000;

/// One submitted score.
#[derive(Clone, Copy, Debug, PartialEq, Eq)]
pub struct GameScore {
    pub player: Principal,
    pub score: i128,
    pub distance: i128,
    pub combo: u32,
    pub timestamp: u64,
    pub panda_nft_id: Option<u64>,
}

/// A submission that was judged and found in order: the record to append, the
/// reward to credit, and the ledger that is to credit it.
#[derive(Clone, Copy, Debug, PartialEq, Eq)]
pub struct Submission {
    pub record: GameScore,
    pub reward: i128,
    pub token_address: Principal,
}

/// The reward for a score and a combo, over the integers.
pub open spec fn reward_of(score: int, combo: int) -> int {
    score * BASE_REWARD_MULTIPLIER + combo * COMBO_BONUS_MULTIPLIER
}

/// Whether the reward can be computed in `i128`: the product of the score and
/// the sum of the two products both fit.
pub open spec fn reward_fits(score: i128, combo: u32) -> bool {
    &&& i128::MIN <= score * BASE_REWARD_MULTIPLIER <= i128::MAX
    &&& i128::MIN <= reward_of(score as int, combo as int) <= i128::MAX
}

/// The model of the reward engine.  `histories` gives every player its
/// scores in the order of submission; a player that never submitted has the
/// empty sequence.
pub struct RewardsState {
    pub admin: Option<Principal>,
    pub token_address: Option<Principal>,
    pub nft_address: Option<Principal>,
    pub total_games: nat,
    pub histories: Map<Principal, Seq<GameScore>>,
}

impl RewardsState {
    /// The engine before anything has happened.
    pub open spec fn genesis() -> RewardsState {
        RewardsState {
            admin: None,
            token_address: None,
            nft_address: None,
            total_games: 0,
            histories: Map::total(|p: Principal| Seq::<GameScore>::empty()),
        }
    }

    /// Every principal has a history.
    pub open spec fn valid(self) -> bool {
        self.histories.dom() == Set::<Principal>::full()
    }

    /// The engine after `initialize`: the three addresses are set and the
    /// count of games starts again at zero; the histories stay.
    pub open spec fn started(self, admin: Principal, token_address: Principal, nft_address: Principal) -> RewardsState {
        RewardsState {
            admin: Some(admin),
            token_address: Some(token_address),
            nft_address: Some(nft_address),
            total_games: 0,
            ..self
        }
    }

    /// Why a submission is refused before any credit is tried, if it is.
    pub open spec fn submit_refusal(self, consent: Set<Principal>, player: Principal, score: i128, combo: u32) -> Option<Error> {
        if !consent.contains(player) {
            Some(Error::Unauthorized)
        } else if !reward_fits(score, combo) {
            Some(Error::ArithmeticOverflow)
        } else if self.total_games >= u64::MAX {
            Some(Error::ArithmeticOverflow)
        } else if self.token_address.is_none() {
            Some(Error::NotInitialized)
        } else {
            None
        }
    }

    /// The engine after a record was committed: the record stands at the end
    /// of its player's history and one more game is counted.
    pub open spec fn recorded(self, record: GameScore) -> RewardsState {
        RewardsState {
            total_games: self.total_games + 1,
            histories: self.histories.insert(record.player, self.histories[record.player].push(record)),
            ..self
        }
    }

    /// The engine after the records were committed one after the other.
    pub open spec fn replayed(self, records: Seq<GameScore>) -> RewardsState
        decreases records.len(),
    {
        if records.len() == 0 {
            self
        } else {
            self.replayed(records.drop_last()).recorded(records.last())
        }
    }
}

/// The record that a submission at time `now` appends.
pub open spec fn record_of(
    player: Principal,
    score: i128,
    distance: i128,
    combo: u32,
    panda_nft_id: Option<u64>,
    now: u64,
) -> GameScore {
    GameScore { player, score, distance, combo, timestamp: now, panda_nft_id }
}

/// The scores of one player, in plain values.
#[derive(Debug, PartialEq, Eq)]
pub struct HistoryRecord {
    pub player: Principal,
    pub scores: Vec<GameScore>,
}

/// The histories that the records describe: each player has the scores of
/// its records, one record after the other.
pub open spec fn gathered(records: Seq<HistoryRecord>) -> Map<Principal, Seq<GameScore>>
    decreases records.len(),
{
    if records.len() == 0 {
        Map::total(|p: Principal| Seq::<GameScore>::empty())
    } else {
        let before = gathered(records.drop_last());
        before.insert(records.last().player, before[records.last().player] + records.last().scores@)
    }
}

/// The scores of one player.
struct PlayerHistory {
    player: Principal,
    scores: Vec<GameScore>,
}

/// The position of `p`'s history, if it has one.
spec fn page_of(pages: Seq<PlayerHistory>, p: Principal) -> Option<int> {
    if exists|i: int| 0 <= i < pages.len() && pages[i].player == p {
        Some(choose|i: int| 0 <= i < pages.len() && pages[i].player == p)
    } else {
        None
    }
}

/// The scores of `p` according to the pages.
spec fn scores_in(pages: Seq<PlayerHistory>, p: Principal) -> Seq<GameScore> {
    match page_of(pages, p) {
        Some(i) => pages[i].scores@,
        None => Seq::empty(),
    }
}

/// No two pages are of one player.
spec fn one_page_each(pages: Seq<PlayerHistory>) -> bool {
    forall|i: int, j: int| 0 <= i < j < pages.len() ==> (#[trigger] pages[i]).player != (#[trigger] pages[j]).player
}

proof fn lemma_page(pages: Seq<PlayerHistory>, i: int)
    requires
        one_page_each(pages),
        0 <= i < pages.len(),
    ensures
        page_of(pages, pages[i].player) == Some(i),
{
    let p = pages[i].player;
    let j = choose|j: int| 0 <= j < pages.len() && pages[j].player == p;
    if j < i {
        assert(pages[j].player != pages[i].player);
    }
    if i < j {
        assert(pages[i].player != pages[j].player);
    }
}

/// Where only the page at `i` differs, and keeps its player, every other
/// player has the scores it had.
proof fn lemma_other_pages(before: Seq<PlayerHistory>, after: Seq<PlayerHistory>, i: int, q: Principal)
    requires
        one_page_each(before),
        one_page_each(after),
        before.len() <= after.len(),
        0 <= i < after.len(),
        forall|k: int| 0 <= k < before.len() && k != i ==> before[k] == after[k],
        after.len() == before.len() || (after.len() == before.len() + 1 && i == before.len()),
        i < before.len() ==> before[i].player == after[i].player,
        q != after[i].player,
    ensures
        scores_in(after, q) == scores_in(before, q),
{
    if page_of(before, q).is_some() {
        let k = page_of(before, q).unwrap();
        assert(after[k] == before[k]);
        lemma_page(after, k);
    } else {
        if page_of(after, q).is_some() {
            let k = page_of(after, q).unwrap();
            assert(before[k].player == q);
        }
    }
}

/// The reward engine.
pub struct GameRewards {
    admin: Option<Principal>,
    token_address: Option<Principal>,
    nft_address: Option<Principal>,
    total_games: u64,
    pages: Vec<PlayerHistory>,
}

impl GameRewards {
    /// The model of this engine.
    pub closed spec fn view(&self) -> RewardsState {
        RewardsState {
            admin: self.admin,
            token_address: self.token_address,
            nft_address: self.nft_address,
            total_games: self.total_games as nat,
            histories: Map::total(|p: Principal| scores_in(self.pages@, p)),
        }
    }

    /// The engine is well formed: each player has one page.
    pub closed spec fn wf(&self) -> bool {
        one_page_each(self.pages@)
    }

    /// The model of a well-formed engine is valid.
    pub proof fn lemma_wf_valid(&self)
        requires
            self.wf(),
        ensures
            self@.valid(),
    {
        assert(self@.histories.dom() =~= Set::<Principal>::full());
    }

    /// An engine without addresses, games and scores.
    pub fn new() -> (engine: GameRewards)
        ensures
            engine.wf(),
            engine@ == RewardsState::genesis(),
    {
        let engine = GameRewards {
            admin: None,
            token_address: None,
            nft_address: None,
            total_games: 0,
            pages: Vec::new(),
        };
        proof {
            assert(engine@.histories =~= RewardsState::genesis().histories);
        }
        engine
    }

    /// Sets the admin, the token ledger and the registry that the engine
    /// works with, and starts the count of games at zero.  A second call does
    /// the same again.  The histories stay.
    ///
    /// Refused with `Unauthorized` unless `admin` consents.
    pub fn initialize(&mut self, consent: &Consent, admin: Principal, token_address: Principal, nft_address: Principal) -> (result: Result<(), Error>)
        requires
            old(self).wf(),
        ensures
            final(self).wf(),
            result.is_ok() <==> consent@.contains(admin),
            result.is_ok() ==> final(self)@ == old(self)@.started(admin, token_address, nft_address),
            result.is_err() ==> result == Err::<(), Error>(Error::Unauthorized) && final(self)@ == old(self)@,
    {
        if !consent.covers(admin) {
            return Err(Error::Unauthorized);
        }
        self.admin = Some(admin);
        self.token_address = Some(token_address);
        self.nft_address = Some(nft_address);
        self.total_games = 0;
        Ok(())
    }

    /// The reward for a score and a combo: the score times the base
    /// multiplier plus the combo times the combo multiplier.
    ///
    /// Refused with `ArithmeticOverflow` when the first product or the sum
    /// leaves `i128`.
    pub fn calculate_reward(score: i128, combo: u32) -> (result: Result<i128, Error>)
        ensures
            reward_fits(score, combo) ==> result == Ok::<i128, Error>(reward_of(score as int, combo as int) as i128),
            !reward_fits(score, combo) ==> result == Err::<i128, Error>(Error::ArithmeticOverflow),
    {
        let base_reward = match score.checked_mul(BASE_REWARD_MULTIPLIER) {
            Some(base_reward) => base_reward,
            None => {
                return Err(Error::ArithmeticOverflow);
            },
        };
        let combo_reward: i128 = (combo as i128) * COMBO_BONUS_MULTIPLIER;
        match base_reward.checked_add(combo_reward) {
            Some(total) => Ok(total),
            None => Err(Error::ArithmeticOverflow),
        }
    }

    /// The two multipliers of the reward formula, base first.
    pub fn get_reward_rate() -> (rate: (i128, i128))
        ensures
            rate.0 == BASE_REWARD_MULTIPLIER,
            rate.1 == COMBO_BONUS_MULTIPLIER,
    {
        (BASE_REWARD_MULTIPLIER, COMBO_BONUS_MULTIPLIER)
    }

    /// Judges a submission without changing anything, and gives the record,
    /// the reward and the ledger to credit.
    ///
    /// Refused with `Unauthorized` unless `player` consents, else with
    /// `ArithmeticOverflow` when the reward or the count of games would
    /// overflow, else with `NotInitialized` when the engine has no token
    /// ledger.
    pub fn prepare_score(
        &self,
        consent: &Consent,
        player: Principal,
        score: i128,
        distance: i128,
        combo: u32,
        panda_nft_id: Option<u64>,
        now: u64,
    ) -> (result: Result<Submission, Error>)
        ensures
            result.is_ok() <==> self@.submit_refusal(consent@, player, score, combo).is_none(),
            result.is_ok() ==> result.unwrap().record == record_of(player, score, distance, combo, panda_nft_id, now)
                && result.unwrap().reward == reward_of(score as int, combo as int) && Some(
                result.unwrap().token_address,
            ) == self@.token_address,
            result.is_err() ==> Some(result.unwrap_err()) == self@.submit_refusal(consent@, player, score, combo),
    {
        if !consent.covers(player) {
            return Err(Error::Unauthorized);
        }
        let reward = match Self::calculate_reward(score, combo) {
            Ok(reward) => reward,
            Err(e) => {
                return Err(e);
            },
        };
        if self.total_games == u64::MAX {
            return Err(Error::ArithmeticOverflow);
        }
        let token_address = match self.token_address {
            Some(token_address) => token_address,
            None => {
                return Err(Error::NotInitialized);
            },
        };
        let record = GameScore { player, score, distance, combo, timestamp: now, panda_nft_id };
        Ok(Submission { record, reward, token_address })
    }

    /// Commits a prepared submission when its credit went through, and
    /// returns the reward: the record joins the end of its player's history
    /// and one more game is counted.
    ///
    /// When the credit failed, the engine stays as it was and the error of
    /// the credit is returned.  Refused with `ArithmeticOverflow` when the
    /// count of games cannot grow.
    pub fn record_score(&mut self, submission: &Submission, credit: Result<(), Error>) -> (result: Result<i128, Error>)
        requires
            old(self).wf(),
        ensures
            final(self).wf(),
            credit.is_err() ==> result == Err::<i128, Error>(credit.unwrap_err()),
            credit.is_ok() && old(self)@.total_games == u64::MAX ==> result == Err::<i128, Error>(
                Error::ArithmeticOverflow,
            ),
            credit.is_ok() && old(self)@.total_games < u64::MAX ==> result == Ok::<i128, Error>(submission.reward),
            result.is_ok() ==> final(self)@ == old(self)@.recorded(submission.record),
            result.is_err() ==> final(self)@ == old(self)@,
    {
        if let Err(e) = credit {
            return Err(e);
        }
        if self.total_games == u64::MAX {
            return Err(Error::ArithmeticOverflow);
        }
        let player = submission.record.player;
        let i = self.page_for(player);
        let ghost before = self@;
        let ghost had = self.pages@;
        self.pages[i].scores.push(submission.record);
        self.total_games = self.total_games + 1;
        proof {
            let after = self.pages@;
            lemma_page(had, i as int);
            assert(one_page_each(after)) by {
                assert forall|a: int, b: int| 0 <= a < b < after.len() implies (#[trigger] after[a]).player != (
                #[trigger] after[b]).player by {
                    assert(had[a].player != had[b].player);
                }
            }
            lemma_page(after, i as int);
            assert forall|q: Principal| q != player implies scores_in(after, q) == scores_in(had, q) by {
                lemma_other_pages(had, after, i as int, q);
            }
            assert(self@.histories =~= before.recorded(submission.record).histories);
        }
        Ok(submission.reward)
    }

    /// Submits a score: the reward is credited to `player` on `ledger`, the
    /// record joins the end of the player's history, one more game is
    /// counted, and the reward is returned.  The ledger sees the consent that
    /// came with the submission.
    ///
    /// Refused as [`GameRewards::prepare_score`] refuses; and when the ledger
    /// refuses the credit, with the ledger's error.  A refusal of either kind
    /// leaves engine and ledger as they were.
    pub fn submit_score(
        &mut self,
        ledger: &mut PandaToken,
        consent: &Consent,
        player: Principal,
        score: i128,
        distance: i128,
        combo: u32,
        panda_nft_id: Option<u64>,
        now: u64,
    ) -> (result: Result<i128, Error>)
        requires
            old(self).wf(),
            old(ledger).wf(),
        ensures
            final(self).wf(),
            final(ledger).wf(),
            result.is_ok() <==> old(self)@.submit_refusal(consent@, player, score, combo).is_none() && old(
                ledger,
            )@.mint_refusal(consent@, player, reward_of(score as int, combo as int) as i128).is_none(),
            result.is_ok() ==> result.unwrap() == reward_of(score as int, combo as int) && final(self)@ == old(
                self,
            )@.recorded(record_of(player, score, distance, combo, panda_nft_id, now)) && final(ledger)@ == old(
                ledger,
            )@.credited(player, reward_of(score as int, combo as int)),
            result.is_err() ==> final(self)@ == old(self)@ && final(ledger)@ == old(ledger)@,
            old(self)@.submit_refusal(consent@, player, score, combo).is_some() ==> Some(result.unwrap_err()) == old(
                self,
            )@.submit_refusal(consent@, player, score, combo),
            result.is_err() && old(self)@.submit_refusal(consent@, player, score, combo).is_none() ==> Some(
                result.unwrap_err(),
            ) == old(ledger)@.mint_refusal(consent@, player, reward_of(score as int, combo as int) as i128),
    {
        let submission = match self.prepare_score(consent, player, score, distance, combo, panda_nft_id, now) {
            Ok(submission) => submission,
            Err(e) => {
                return Err(e);
            },
        };
        let credit = ledger.mint(consent, player, submission.reward);
        self.record_score(&submission, credit)
    }

    /// The scores of `player`, in the order of submission.
    pub fn get_player_scores(&self, player: Principal) -> (scores: Vec<GameScore>)
        requires
            self.wf(),
        ensures
            scores@ == self@.histories[player],
    {
        let mut scores: Vec<GameScore> = Vec::new();
        match self.find(player) {
            Some(i) => {
                let page = &self.pages[i].scores;
                let mut k: usize = 0;
                while k < page.len()
                    invariant
                        k <= page.len(),
                        scores@ == page@.take(k as int),
                    decreases page.len() - k,
                {
                    scores.push(page[k]);
                    proof {
                        assert(page@.take(k as int + 1) == page@.take(k as int).push(page@[k as int]));
                    }
                    k = k + 1;
                }
                proof {
                    assert(page@.take(page.len() as int) == page@);
                }
            },
            None => {},
        }
        scores
    }

    /// The number of games counted since the last `initialize`.
    pub fn get_total_games_played(&self) -> (games: u64)
        ensures
            games == self@.total_games,
    {
        self.total_games
    }

    /// Makes `new_token_address` the ledger that later submissions credit.
    ///
    /// Refused with `NotInitialized` when the engine has no admin, else with
    /// `Unauthorized` unless the admin consents.
    pub fn update_token_address(&mut self, consent: &Consent, new_token_address: Principal) -> (result: Result<(), Error>)
        requires
            old(self).wf(),
        ensures
            final(self).wf(),
            result.is_ok() <==> admin_refusal(old(self)@.admin, consent@).is_none(),
            result.is_ok() ==> final(self)@ == (RewardsState {
                token_address: Some(new_token_address),
                ..old(self)@
            }),
            result.is_err() ==> Some(result.unwrap_err()) == admin_refusal(old(self)@.admin, consent@) && final(self)@
                == old(self)@,
    {
        if let Err(e) = require_admin(self.admin, consent) {
            return Err(e);
        }
        self.token_address = Some(new_token_address);
        Ok(())
    }

    /// The engine with the given addresses and count of games, in which
    /// each player has the scores of its records, one record after the other.
    pub fn restore(
        admin: Option<Principal>,
        token_address: Option<Principal>,
        nft_address: Option<Principal>,
        total_games: u64,
        histories: &Vec<HistoryRecord>,
    ) -> (engine: GameRewards)
        ensures
            engine.wf(),
            engine@ == (RewardsState {
                admin,
                token_address,
                nft_address,
                total_games: total_games as nat,
                histories: gathered(histories@),
            }),
    {
        let mut engine = GameRewards { admin, token_address, nft_address, total_games, pages: Vec::new() };
        proof {
            assert(engine@.histories =~= gathered(histories@.take(0)));
        }
        let mut i: usize = 0;
        while i < histories.len()
            invariant
                i <= histories.len(),
                engine.wf(),
                engine@.admin == admin,
                engine@.token_address == token_address,
                engine@.nft_address == nft_address,
                engine@.total_games == total_games,
                engine@.histories == gathered(histories@.take(i as int)),
            decreases histories.len() - i,
        {
            engine.append(histories[i].player, &histories[i].scores);
            proof {
                let next = histories@.take(i as int + 1);
                assert(next.drop_last() == histories@.take(i as int));
                assert(next.last() == histories@[i as int]);
            }
            i = i + 1;
        }
        proof {
            assert(histories@.take(histories.len() as int) == histories@);
        }
        engine
    }

    /// Puts the scores behind those that `player` has.
    fn append(&mut self, player: Principal, scores: &Vec<GameScore>)
        requires
            old(self).wf(),
        ensures
            final(self).wf(),
            final(self)@ == (RewardsState {
                histories: old(self)@.histories.insert(player, old(self)@.histories[player] + scores@),
                ..old(self)@
            }),
    {
        let i = self.page_for(player);
        let ghost before = self@;
        let ghost had = self.pages@;
        let mut k: usize = 0;
        while k < scores.len()
            invariant
                k <= scores.len(),
                i < self.pages.len(),
                self.pages.len() == had.len(),
                self.admin == old(self).admin,
                self.token_address == old(self).token_address,
                self.nft_address == old(self).nft_address,
                self.total_games == old(self).total_games,
                forall|j: int| 0 <= j < had.len() && j != i ==> self.pages@[j] == had[j],
                self.pages@[i as int].player == player,
                self.pages@[i as int].scores@ == had[i as int].scores@ + scores@.take(k as int),
            decreases scores.len() - k,
        {
            self.pages[i].scores.push(scores[k]);
            proof {
                assert(scores@.take(k as int + 1) == scores@.take(k as int).push(scores@[k as int]));
                assert(had[i as int].scores@ + scores@.take(k as int).push(scores@[k as int]) == (had[i as int].scores@
                    + scores@.take(k as int)).push(scores@[k as int]));
            }
            k = k + 1;
        }
        proof {
            let after = self.pages@;
            assert(scores@.take(scores.len() as int) == scores@);
            lemma_page(had, i as int);
            assert(one_page_each(after)) by {
                assert forall|a: int, b: int| 0 <= a < b < after.len() implies (#[trigger] after[a]).player != (
                #[trigger] after[b]).player by {
                    assert(had[a].player != had[b].player);
                }
            }
            lemma_page(after, i as int);
            assert forall|q: Principal| q != player implies scores_in(after, q) == scores_in(had, q) by {
                lemma_other_pages(had, after, i as int, q);
            }
            assert(self@.histories =~= before.histories.insert(player, before.histories[player] + scores@));
        }
    }

    /// The admin, if the engine has one.
    pub fn get_admin(&self) -> (admin: Option<Principal>)
        ensures
            admin == self@.admin,
    {
        self.admin
    }

    /// The token ledger that submissions credit, if the engine has one.
    pub fn get_token_address(&self) -> (address: Option<Principal>)
        ensures
            address == self@.token_address,
    {
        self.token_address
    }

    /// The collectible registry that the engine knows, if it knows one.
    pub fn get_nft_address(&self) -> (address: Option<Principal>)
        ensures
            address == self@.nft_address,
    {
        self.nft_address
    }

    /// The position of `p`'s page, if it has one.
    fn find(&self, p: Principal) -> (page: Option<usize>)
        requires
            self.wf(),
        ensures
            page.is_some() ==> page.unwrap() < self.pages.len() && self.pages[page.unwrap() as int].player == p
                && page_of(self.pages@, p) == Some(page.unwrap() as int),
            page.is_none() ==> page_of(self.pages@, p).is_none(),
    {
        let mut i: usize = 0;
        while i < self.pages.len()
            invariant
                i <= self.pages.len(),
                self.wf(),
                forall|j: int| 0 <= j < i ==> self.pages@[j].player != p,
            decreases self.pages.len() - i,
        {
            if self.pages[i].player == p {
                proof {
                    lemma_page(self.pages@, i as int);
                }
                return Some(i);
            }
            i = i + 1;
        }
        None
    }

    /// The position of `p`'s page, which is made first when `p` has none.
    /// The model stays as it is.
    fn page_for(&mut self, p: Principal) -> (i: usize)
        requires
            old(self).wf(),
        ensures
            final(self).wf(),
            final(self)@ == old(self)@,
            i < final(self).pages.len(),
            final(self).pages[i as int].player == p,
            final(self).pages[i as int].scores@ == old(self)@.histories[p],
    {
        match self.find(p) {
            Some(i) => i,
            None => {
                self.pages.push(PlayerHistory { player: p, scores: Vec::new() });
                proof {
                    let before = old(self).pages@;
                    let after = self.pages@;
                    let last = before.len() as int;
                    assert(one_page_each(after)) by {
                        assert forall|a: int, b: int| 0 <= a < b < after.len() implies (#[trigger] after[a]).player != (
                        #[trigger] after[b]).player by {
                            if b < last {
                                assert(before[a].player != before[b].player);
                            } else {
                                assert(before[a].player != p);
                            }
                        }
                    }
                    lemma_page(after, last);
                    assert forall|q: Principal| scores_in(after, q) == scores_in(before, q) by {
                        if q != p {
                            lemma_other_pages(before, after, last, q);
                        }
                    }
                    assert(self@.histories =~= old(self)@.histories);
                }
                self.pages.len() - 1
            },
        }
    }
}

/// The records of `player` among `records`, in their order.
pub open spec fn records_of(records: Seq<GameScore>, player: Principal) -> Seq<GameScore> {
    records.filter(|r: GameScore| r.player == player)
}

/// History is append-only: committing a record puts it behind the scores that
/// its player had, and leaves the scores of every other player alone.
pub proof fn lemma_recorded_appends(s: RewardsState, record: GameScore)
    requires
        s.valid(),
    ensures
        s.recorded(record).valid(),
        s.recorded(record).total_games == s.total_games + 1,
        s.recorded(record).histories[record.player] == s.histories[record.player].push(record),
        forall|other: Principal| other != record.player ==> s.recorded(record).histories[other] == s.histories[other],
{
    assert(s.recorded(record).histories.dom() =~= Set::<Principal>::full());
}

/// History is append-only over any run of submissions: after the records
/// were committed one after the other, every player has the scores it had,
/// followed by its own records among them in the order of the calls; nothing
/// was removed or reordered; and each record was counted once.
pub proof fn lemma_replayed_appends(s: RewardsState, records: Seq<GameScore>, player: Principal)
    requires
        s.valid(),
    ensures
        s.replayed(records).valid(),
        s.replayed(records).total_games == s.total_games + records.len(),
        s.replayed(records).histories[player] == s.histories[player] + records_of(records, player),
        s.histories[player].is_prefix_of(s.replayed(records).histories[player]),
    decreases records.len(),
{
    reveal(Seq::filter);
    if records.len() == 0 {
        assert(records_of(records, player) == Seq::<GameScore>::empty());
        assert(s.histories[player] + Seq::<GameScore>::empty() == s.histories[player]);
    } else {
        let front = records.drop_last();
        let last = records.last();
        lemma_replayed_appends(s, front, player);
        let before = s.replayed(front);
        lemma_recorded_appends(before, last);
        if last.player == player {
            assert(records_of(records, player) == records_of(front, player).push(last));
            assert(s.histories[player] + records_of(front, player).push(last) == (s.histories[player] + records_of(
                front,
                player,
            )).push(last));
        } else {
            assert(records_of(records, player) == records_of(front, player));
        }
    }
}

/// After N submissions of one player to an engine in which it had no score,
/// its history is those N records in the order of the calls.
pub proof fn lemma_history_in_call_order(s: RewardsState, records: Seq<GameScore>, player: Principal)
    requires
        s.valid(),
        s.histories[player].len() == 0,
        forall|i: int| 0 <= i < records.len() ==> (#[trigger] records[i]).player == player,
    ensures
        s.replayed(records).histories[player] == records,
        s.replayed(records).histories[player].len() == records.len(),
{
    lemma_replayed_appends(s, records, player);
    lemma_all_of(records, player);
    assert(s.histories[player] + records == records);
}

/// Records that are all of one player are that player's records.
proof fn lemma_all_of(records: Seq<GameScore>, player: Principal)
    requires
        forall|i: int| 0 <= i < records.len() ==> (#[trigger] records[i]).player == player,
    ensures
        records_of(records, player) == records,
    decreases records.len(),
{
    reveal(Seq::filter);
    if records.len() > 0 {
        lemma_all_of(records.drop_last(), player);
        assert(records.drop_last().push(records.last()) == records);
    }
}

/// Reward determinism: the reward is the score times one million plus the
/// combo times five million, whatever else the engine holds; for a score of
/// 100 and a combo of 3 it is 115,000,000; and every score from zero to ten to
/// the eighteenth has a reward with every combo.
pub proof fn lemma_reward_formula(score: i128, combo: u32)
    ensures
        reward_of(score as int, combo as int) == score * 1_000_000 + combo * 5_000_000,
        reward_of(100, 3) == 115_000_000,
        0 <= score <= 1_000_000_000_000_000_000 ==> reward_fits(score, combo),
{
}

} // verus!
