//! The interpreter entry point for revoking a share object: it shapes a
//! session's tenant and a parsed plan into a request and runs the
//! catalog operation.

use vstd::prelude::*;

use crate::api::revoke_share_object;
use crate::api::RevokeShareObjectReply;
use crate::api::RevokeShareObjectReq;
use crate::kv::KvStore;
use crate::state::inv;
use crate::types::ShareError;
use crate::types::ShareGrantObjectName;
use crate::types::ShareNameIdent;

verus! {

/// A parsed plan to revoke privileges on an object from a share.
pub struct RevokeShareObjectPlan {
    pub share: String,
    pub object: ShareGrantObjectName,
    pub privilege: u64,
}

/// Runs a `RevokeShareObjectPlan` for a session's tenant.
pub struct RevokeShareObjectInterpreter {
    pub tenant: String,
    pub plan: RevokeShareObjectPlan,
}

impl RevokeShareObjectInterpreter {
    /// Build the interpreter from the session's tenant and the plan.
    pub fn try_create(tenant: String, plan: RevokeShareObjectPlan) -> (r: Result<Self, ShareError>)
        ensures
            r matches Ok(it) && it.tenant@ == tenant@ && it.plan.share@ == plan.share@
                && it.plan.object@ == plan.object@ && it.plan.privilege == plan.privilege,
    {
        Ok(RevokeShareObjectInterpreter { tenant, plan })
    }

    /// The interpreter's name.
    pub fn name(&self) -> (r: &'static str)
        ensures
            r@ == "RevokeShareObjectInterpreter"@,
    {
        "RevokeShareObjectInterpreter"
    }

    /// Shape the request and run the revoke against the catalog; the
    /// caller supplies the timestamp. The outcome is exactly that of
    /// `revoke_share_object` on the shaped request.
    pub fn execute(&self, kv: &mut KvStore, update_on: u64) -> (r: Result<
        RevokeShareObjectReply,
        ShareError,
    >)
        requires
            old(kv).wf(),
            inv(old(kv)@),
            old(kv)@.next_seq < u64::MAX,
        ensures
            final(kv).wf(),
            *final(kv) == *old(kv) ==> inv(final(kv)@),
            crate::api::revoke_share_object_spec(
                *old(kv),
                *final(kv),
                self.tenant@,
                self.plan.share@,
                self.plan.object@,
                self.plan.privilege,
                update_on,
                r,
            ),
    {
        let req = RevokeShareObjectReq {
            share_name: ShareNameIdent {
                tenant: self.tenant.clone(),
                share_name: self.plan.share.clone(),
            },
            object: self.plan.object.clone(),
            privilege: self.plan.privilege,
            update_on,
        };
        revoke_share_object(kv, &req)
    }
}

} // verus!
