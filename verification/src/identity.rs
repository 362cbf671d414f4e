//! Client identities: the key under which a live connection is registered.

use vstd::prelude::*;

verus! {

/// The owner of a connection: an organization scope plus a user scope.
/// Identities are compared structurally and are the sole key into the
/// registry.
#[derive(Clone, Copy, Debug, PartialEq, Eq, Structural)]
pub struct Identifier {
    pub organization_id: u32,
    pub user_id: u32,
}

/// The packed form of an identity: the organization scope in the high
/// 32 bits, the user scope in the low 32 bits.
pub open spec fn spec_key(id: Identifier) -> int {
    (id.organization_id as int) * 0x1_0000_0000 + (id.user_id as int)
}

/// Distinct identities pack to distinct keys, so a map keyed by the
/// packed form holds at most one entry per identity.
pub proof fn lemma_key_injective(a: Identifier, b: Identifier)
    requires
        spec_key(a) == spec_key(b),
    ensures
        a == b,
{
    assert(a.organization_id == b.organization_id && a.user_id == b.user_id) by (nonlinear_arith)
        requires
            (a.organization_id as int) * 0x1_0000_0000 + (a.user_id as int) == (b.organization_id
                as int) * 0x1_0000_0000 + (b.user_id as int),
            a.organization_id <= 0xffff_ffff,
            b.organization_id <= 0xffff_ffff,
            a.user_id <= 0xffff_ffff,
            b.user_id <= 0xffff_ffff,
    ;
}

impl Identifier {
    /// Build an identity from its two scopes.
    pub fn new(organization_id: u32, user_id: u32) -> (id: Identifier)
        ensures
            id.organization_id == organization_id,
            id.user_id == user_id,
    {
        Identifier { organization_id, user_id }
    }

    /// The packed form, used as the registry's map key.
    pub fn key(&self) -> (k: u64)
        ensures
            k == spec_key(*self),
    {
        (self.organization_id as u64) * 0x1_0000_0000 + (self.user_id as u64)
    }
}

} // verus!
