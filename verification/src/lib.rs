//! Accounting core of a play-to-earn game economy.
//!
//! Three components keep the books: a fungible reward-token ledger
//! ([`panda_token`]), a capped and stakeable collectible registry
//! ([`panda_nft`]) and a reward engine that turns gameplay scores into token
//! credits ([`game_rewards`]).  Each component is a plain value with a
//! mathematical model; every operation states, over that model, what it
//! returns and how it changes the component.
//!
//! The host collaborators are explicit arguments: the consent given for a call
//! ([`principal::Consent`]), the current time as a `u64`, and the handle of the
//! host environment in which token-id lists and the balance map live
//! ([`host`]).


pub mod error;
pub mod game_rewards;
pub mod host;
pub mod panda_nft;
pub mod panda_token;
pub mod principal;
