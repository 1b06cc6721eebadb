//! Principals and the consent they give to a call.

use vstd::prelude::*;
use crate::error::Error;
use crate::host::AccountKey;

verus! {

/// The kind of a principal that is an account.
pub const ACCOUNT: u32 = 0;

/// The kind of a principal that is a contract.
pub const CONTRACT: u32 = 1;

/// An identity that can authorize actions: a player, a minter or an admin.
///
/// A principal is its kind and a 256-bit key, held as two halves.  Two
/// principals are the same exactly when all three numbers agree.
#[derive(Clone, Copy, Debug, PartialEq, Eq, Hash, Structural)]
pub struct Principal {
    pub kind: u32,
    pub hi: u128,
    pub lo: u128,
}

impl Principal {
    /// The three numbers of the principal, the form under which a balance map
    /// files it.
    pub open spec fn key(self) -> AccountKey {
        (self.kind, self.hi, self.lo)
    }

    /// The principal that the three numbers stand for.
    pub open spec fn of_key(key: AccountKey) -> Principal {
        Principal { kind: key.0, hi: key.1, lo: key.2 }
    }

    /// The principal that the three numbers stand for.
    pub fn from_key(key: AccountKey) -> (p: Principal)
        ensures
            p == Principal::of_key(key),
            p.key() == key,
    {
        Principal { kind: key.0, hi: key.1, lo: key.2 }
    }

    /// The account with the given key.
    pub fn account(hi: u128, lo: u128) -> (p: Principal)
        ensures
            p == (Principal { kind: ACCOUNT, hi, lo }),
    {
        Principal { kind: ACCOUNT, hi, lo }
    }

    /// The contract with the given key.
    pub fn contract(hi: u128, lo: u128) -> (p: Principal)
        ensures
            p == (Principal { kind: CONTRACT, hi, lo }),
    {
        Principal { kind: CONTRACT, hi, lo }
    }

    /// The three numbers of the principal.
    pub fn to_key(&self) -> (k: AccountKey)
        ensures
            k == self.key(),
    {
        (self.kind, self.hi, self.lo)
    }
}

/// The consent that came with one call: the principals who have proved that
/// they agree to it.  An operation that needs a principal's consent is refused
/// with `Unauthorized` unless that principal is among them.
pub struct Consent {
    signers: Vec<Principal>,
}

impl Consent {
    /// The set of principals who consented.
    pub closed spec fn view(&self) -> Set<Principal> {
        self.signers@.to_set()
    }

    /// The consent of nobody.
    pub fn none() -> (consent: Consent)
        ensures
            consent@ == Set::<Principal>::empty(),
    {
        let consent = Consent { signers: Vec::new() };
        assert(consent.signers@.to_set() =~= Set::<Principal>::empty());
        consent
    }

    /// The consent of one principal.
    pub fn of(who: Principal) -> (consent: Consent)
        ensures
            consent@ == Set::<Principal>::empty().insert(who),
    {
        let mut consent = Consent::none();
        consent.grant(who);
        consent
    }

    /// Adds a principal to those who consented.
    pub fn grant(&mut self, who: Principal)
        ensures
            final(self)@ == old(self)@.insert(who),
    {
        self.signers.push(who);
        proof {
            let before = old(self).signers@;
            let after = self.signers@;
            assert forall|p: Principal| after.to_set().contains(p) == before.to_set().insert(who).contains(p) by {
                if before.contains(p) {
                    let i = choose|i: int| 0 <= i < before.len() && before[i] == p;
                    assert(after[i] == p);
                }
                if p == who {
                    assert(after[before.len() as int] == who);
                }
            }
            assert(after.to_set() =~= before.to_set().insert(who));
        }
    }

    /// Whether the principal consented.
    pub fn covers(&self, who: Principal) -> (yes: bool)
        ensures
            yes == self@.contains(who),
    {
        let mut i: usize = 0;
        while i < self.signers.len()
            invariant
                i <= self.signers.len(),
                forall|j: int| 0 <= j < i ==> self.signers@[j] != who,
            decreases self.signers.len() - i,
        {
            if self.signers[i] == who {
                return true;
            }
            i = i + 1;
        }
        false
    }
}

/// Why an operation that only the admin may perform is refused, if it is:
/// with `NotInitialized` when there is no admin yet, else with `Unauthorized`
/// unless the admin is among those who consented.
pub open spec fn admin_refusal(admin: Option<Principal>, consent: Set<Principal>) -> Option<Error> {
    if admin.is_none() {
        Some(Error::NotInitialized)
    } else if !consent.contains(admin.unwrap()) {
        Some(Error::Unauthorized)
    } else {
        None
    }
}

/// Decides [`admin_refusal`] for the consent that came with a call.
pub fn require_admin(admin: Option<Principal>, consent: &Consent) -> (result: Result<(), Error>)
    ensures
        result.is_ok() <==> admin_refusal(admin, consent@).is_none(),
        result.is_err() ==> Some(result.unwrap_err()) == admin_refusal(admin, consent@),
{
    match admin {
        None => Err(Error::NotInitialized),
        Some(admin) => {
            if consent.covers(admin) {
                Ok(())
            } else {
                Err(Error::Unauthorized)
            }
        },
    }
}

/// Unauthorized rejection: where there is an admin, an admin-only operation
/// is refused with `Unauthorized` exactly when the admin has not consented.
pub proof fn lemma_admin_only(admin: Principal, consent: Set<Principal>)
    ensures
        !consent.contains(admin) ==> admin_refusal(Some(admin), consent) == Some(Error::Unauthorized),
        consent.contains(admin) ==> admin_refusal(Some(admin), consent).is_none(),
        admin_refusal(None, consent) == Some(Error::NotInitialized),
{
}

} // verus!
