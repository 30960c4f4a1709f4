//! The read-only catalog operations: listing shares, their grants, their
//! accounts, and the shares that reference an object. These take no
//! retry loop; they read a consistent snapshot and resolve ids back to
//! names.

use vstd::prelude::*;

use crate::api::get_object_shared_by_share_ids;
use crate::api::get_share_account_meta_or_err;
use crate::api::get_share_id_to_name_or_err;
use crate::api::get_share_meta_by_id_or_err;
use crate::api::get_share_or_err;
use crate::kv::Key;
use crate::kv::KvStore;
use crate::kv::Value;
use crate::meta::accounts_set;
use crate::meta::ShareMeta;
use crate::state::account_of;
use crate::state::db_name_of;
use crate::state::in_obj_index;
use crate::state::inv;
use crate::state::meta_of;
use crate::state::name_of;
use crate::state::share_id_of;
use crate::state::table_name_of;
use crate::types::DatabaseNameIdent;
use crate::types::DBIdTableName;
use crate::types::ShareError;
use crate::types::ShareGrantObject;
use crate::types::ShareGrantObjectName;
use crate::types::ShareGrantObjectNameV;
use crate::types::ShareNameIdent;

verus! {

/// Request of `show_shares`.
pub struct ShowSharesReq {
    pub tenant: String,
}

/// One share as shown to a tenant: outbound (owned, with its accounts)
/// or inbound (offered to the tenant).
pub struct ShareAccountReply {
    pub share_name: ShareNameIdent,
    pub database_name: Option<String>,
    pub create_on: u64,
    pub accounts: Option<Vec<String>>,
    pub comment: Option<String>,
}

/// Reply of `show_shares`.
pub struct ShowSharesReply {
    pub outbound_accounts: Vec<ShareAccountReply>,
    pub inbound_accounts: Vec<ShareAccountReply>,
}

/// Request of `get_share_grant_objects`.
pub struct GetShareGrantObjectReq {
    pub share_name: ShareNameIdent,
}

/// One granted object, resolved back to its name.
pub struct ShareGrantReplyObject {
    pub object: ShareGrantObjectName,
    pub privileges: u64,
    pub grant_on: u64,
}

/// Reply of `get_share_grant_objects`.
pub struct GetShareGrantObjectReply {
    pub share_name: ShareNameIdent,
    pub objects: Vec<ShareGrantReplyObject>,
}

/// Request of `get_grant_tenants_of_share`.
pub struct GetShareGrantTenantsReq {
    pub share_name: ShareNameIdent,
}

/// Reply of `get_grant_tenants_of_share`.
pub struct GetShareGrantTenantsReply {
    pub accounts: Vec<String>,
}

/// Request of `get_grant_privileges_of_object`.
pub struct GetObjectGrantPrivilegesReq {
    pub tenant: String,
    pub object: ShareGrantObjectName,
}

/// One share's privileges on an object.
pub struct ObjectGrantPrivilege {
    pub share_name: String,
    pub privileges: u64,
    pub grant_on: u64,
}

/// Reply of `get_grant_privileges_of_object`.
pub struct GetObjectGrantPrivilegesReply {
    pub privileges: Vec<ObjectGrantPrivilege>,
}

/// Whether the name of the share's granted database (if any) still
/// resolves; shares without a database grant trivially resolve.
pub open spec fn db_name_resolves(m: crate::state::KvMap, me: crate::meta::ShareMetaV) -> bool {
    match me.database {
        None => true,
        Some(e) => match e.object {
            ShareGrantObject::Database(did) => db_name_of(m, did) is Some,
            ShareGrantObject::Table(_) => true,
        },
    }
}

/// The owner-side reply for share `(t, n)`, field by field: its accounts
/// as a set, its creation time, its comment, and its granted database's
/// resolved name.
pub open spec fn outbound_reply_matches(
    m: crate::state::KvMap,
    t: Seq<char>,
    n: Seq<char>,
    rep: ShareAccountReply,
) -> bool {
    &&& rep.share_name@.tenant == t
    &&& rep.share_name@.share_name == n
    &&& (match share_id_of(m, t, n) {
        Some(id) => match meta_of(m, id) {
            Some(me) => {
                &&& (match rep.accounts {
                    Some(accs) => accounts_set(accs@) == me.accounts,
                    None => false,
                })
                &&& rep.create_on == me.share_on
                &&& (match me.comment {
                    Some(c) => rep.comment matches Some(rc) && rc@ == c,
                    None => rep.comment is None,
                })
                &&& (match me.database {
                    None => rep.database_name is None,
                    Some(e) => match e.object {
                        ShareGrantObject::Database(did) => match db_name_of(m, did) {
                            Some(dn) => rep.database_name matches Some(s) && s@ == dn.db_name,
                            None => false,
                        },
                        ShareGrantObject::Table(_) => true,
                    },
                })
            },
            None => false,
        },
        None => false,
    })
}

/// Whether the share `(t, n)` loads cleanly from the owner's side: it
/// exists, holds its state record, and its granted database's name (if
/// any) still resolves.
pub open spec fn outbound_listable(m: crate::state::KvMap, t: Seq<char>, n: Seq<char>) -> bool {
    match share_id_of(m, t, n) {
        Some(id) => match meta_of(m, id) {
            Some(me) => db_name_resolves(m, me),
            None => false,
        },
        None => false,
    }
}

/// The guest-side reply for the membership of `t` on share `id`, field
/// by field: the owner's name, the invitation time, no account list, the
/// share's comment and its granted database's resolved name.
pub open spec fn inbound_reply_matches(
    m: crate::state::KvMap,
    t: Seq<char>,
    id: u64,
    rep: ShareAccountReply,
) -> bool {
    &&& (match account_of(m, t, id) {
        Some(am) => rep.create_on == am.share_on,
        None => false,
    })
    &&& (match name_of(m, id) {
        Some(nm) => rep.share_name@ == nm,
        None => false,
    })
    &&& rep.accounts is None
    &&& (match meta_of(m, id) {
        Some(me) => {
            &&& (match me.comment {
                Some(c) => rep.comment matches Some(rc) && rc@ == c,
                None => rep.comment is None,
            })
            &&& (match me.database {
                None => rep.database_name is None,
                Some(e) => match e.object {
                    ShareGrantObject::Database(did) => match db_name_of(m, did) {
                        Some(dn) => rep.database_name matches Some(s) && s@ == dn.db_name,
                        None => false,
                    },
                    ShareGrantObject::Table(_) => true,
                },
            })
        },
        None => false,
    })
}

/// Soundness of one owner-side reply: it is the pinned reply of the
/// share it names.
pub open spec fn outbound_row_ok(
    m: crate::state::KvMap,
    t: Seq<char>,
    rep: ShareAccountReply,
) -> bool {
    outbound_reply_matches(m, t, rep.share_name@.share_name, rep)
}

/// Soundness of an owner-side listing: every reply is pinned against the
/// share it names.
pub open spec fn outbound_replies_sound(
    m: crate::state::KvMap,
    t: Seq<char>,
    reps: Seq<ShareAccountReply>,
) -> bool {
    forall|i: int| 0 <= i < reps.len() ==> outbound_row_ok(m, t, #[trigger] reps[i])
}

/// Whether the listing holds a reply for share name `n`.
pub open spec fn has_outbound_row(reps: Seq<ShareAccountReply>, n: Seq<char>) -> bool {
    exists|i: int| 0 <= i < reps.len() && (#[trigger] reps[i]).share_name@.share_name == n
}

/// Completeness of an owner-side listing: every share of the tenant that
/// loads cleanly has its reply.
pub open spec fn outbound_replies_complete(
    m: crate::state::KvMap,
    t: Seq<char>,
    reps: Seq<ShareAccountReply>,
) -> bool {
    forall|n: Seq<char>| #[trigger] outbound_listable(m, t, n) ==> has_outbound_row(reps, n)
}

/// Soundness of one guest-side reply: it is the pinned reply of some
/// membership.
pub open spec fn inbound_row_sound(
    m: crate::state::KvMap,
    t: Seq<char>,
    rep: ShareAccountReply,
) -> bool {
    exists|id: u64| #[trigger] inbound_reply_matches(m, t, id, rep)
}

/// Soundness of a guest-side listing: every reply is the pinned reply of
/// some membership.
pub open spec fn inbound_replies_sound(
    m: crate::state::KvMap,
    t: Seq<char>,
    reps: Seq<ShareAccountReply>,
) -> bool {
    forall|i: int| 0 <= i < reps.len() ==> inbound_row_sound(m, t, #[trigger] reps[i])
}

/// Completeness of a guest-side listing: every membership of `t` has its
/// pinned reply.
pub open spec fn inbound_replies_complete(
    m: crate::state::KvMap,
    t: Seq<char>,
    reps: Seq<ShareAccountReply>,
) -> bool {
    forall|id: u64|
        (#[trigger] account_of(m, t, id)) is Some ==> exists|i: int|
            0 <= i < reps.len() && #[trigger] inbound_reply_matches(m, t, id, reps[i])
}

/// Resolve the name of the one database a share grants, if any.
pub fn get_share_database_name(
    kv: &KvStore,
    share_meta: &ShareMeta,
    share_name: &ShareNameIdent,
) -> (r: Result<Option<String>, ShareError>)
    requires
        kv.wf(),
        share_meta.wf(),
    ensures
        (match share_meta@.database {
            None => r == Ok::<Option<String>, ShareError>(None),
            Some(e) => match e.object {
                ShareGrantObject::Database(did) => match db_name_of(kv@.map, did) {
                    Some(nm) => r matches Ok(Some(s)) && s@ == nm.db_name,
                    None => r matches Err(ShareError::UnknownShare(x)) && x@
                        == share_name@.share_name,
                },
                ShareGrantObject::Table(_) => false,
            },
        }),
{
    match &share_meta.database {
        Some(entry) => {
            match entry.object {
                ShareGrantObject::Database(db_id) => {
                    let (name_ident_seq, v) = kv.get(&Key::DatabaseIdToName(db_id));
                    match v {
                        Some(Value::DatabaseName(name_ident)) => Ok(Some(name_ident.db_name)),
                        _ => Err(ShareError::UnknownShare(share_name.share_name.clone())),
                    }
                },
                ShareGrantObject::Table(_) => {
                    // The database slot always holds a database.
                    proof {
                        assert(false);
                    }
                    Err(ShareError::WrongShare(share_name.share_name.clone()))
                },
            }
        },
        None => Ok(None),
    }
}

/// Resolve an object id back to a user-facing name. A table keeps the
/// database name it was listed under.
pub fn get_object_name_from_id(
    kv: &KvStore,
    database_name: &Option<String>,
    object: ShareGrantObject,
) -> (r: Result<Option<ShareGrantObjectName>, ShareError>)
    requires
        kv.wf(),
        object is Table ==> database_name is Some,
    ensures
        (match object {
            ShareGrantObject::Database(did) => match db_name_of(kv@.map, did) {
                Some(nm) => r matches Ok(Some(o)) && o@ == ShareGrantObjectNameV::Database(
                    nm.db_name,
                ),
                None => r == Ok::<Option<ShareGrantObjectName>, ShareError>(None),
            },
            ShareGrantObject::Table(tid) => match table_name_of(kv@.map, tid) {
                Some(tn) => r matches Ok(Some(o)) && o@ == ShareGrantObjectNameV::Table(
                    database_name.unwrap()@,
                    tn.table_name,
                ),
                None => r == Ok::<Option<ShareGrantObjectName>, ShareError>(None),
            },
        }),
{
    match object {
        ShareGrantObject::Database(db_id) => {
            let (_seq, v) = kv.get(&Key::DatabaseIdToName(db_id));
            match v {
                Some(Value::DatabaseName(db_name)) => Ok(
                    Some(ShareGrantObjectName::Database(db_name.db_name)),
                ),
                _ => Ok(None),
            }
        },
        ShareGrantObject::Table(table_id) => {
            let (_seq, v) = kv.get(&Key::TableIdToName(table_id));
            match v {
                Some(Value::TableName(table_name)) => {
                    let db_name = match database_name {
                        Some(n) => n.clone(),
                        None => {
                            proof {
                                assert(false);
                            }
                            String::new()
                        },
                    };
                    Ok(Some(ShareGrantObjectName::Table(db_name, table_name.table_name)))
                },
                _ => Ok(None),
            }
        },
    }
}

/// One share, shown from the owner's side: its accounts, creation time,
/// comment, and its granted database's name. The share must exist, hold
/// its state record, and (if it grants a database) that database's name
/// must still resolve; then success is owed.
pub fn get_outbound_shared_accounts_by_name(kv: &KvStore, share_name: &ShareNameIdent) -> (r:
    Result<ShareAccountReply, ShareError>)
    requires
        kv.wf(),
    ensures
        ({
            let m = kv@.map;
            let t = share_name@.tenant;
            let n = share_name@.share_name;
            match share_id_of(m, t, n) {
                None => r matches Err(ShareError::UnknownShare(x)) && x@ == n,
                Some(id) => match meta_of(m, id) {
                    None => r matches Err(ShareError::UnknownShareId(i)) && i == id,
                    Some(me) => if !db_name_resolves(m, me) {
                        r matches Err(ShareError::UnknownShare(x)) && x@ == n
                    } else {
                        r matches Ok(rep) && outbound_reply_matches(m, t, n, rep)
                    },
                },
            }
        }),
{
    let (_share_id_seq, _share_id, _share_meta_seq, share_meta) = match get_share_or_err(
        kv,
        share_name,
    ) {
        Ok(x) => x,
        Err(e) => {
            return Err(
                match e {
                    ShareError::UnknownShare(x) => ShareError::UnknownShare(x),
                    ShareError::UnknownShareId(x) => ShareError::UnknownShareId(x),
                    _ => {
                        proof {
                            assert(false);
                        }
                        e
                    },
                },
            );
        },
    };
    let accounts = share_meta.get_accounts();
    let database_name = match get_share_database_name(kv, &share_meta, share_name) {
        Ok(x) => x,
        Err(e) => {
            return Err(e);
        },
    };
    Ok(
        ShareAccountReply {
            share_name: share_name.clone(),
            database_name,
            create_on: share_meta.share_on,
            accounts: Some(accounts),
            comment: match &share_meta.comment {
                Some(c) => Some(c.clone()),
                None => None,
            },
        },
    )
}

/// Every share the tenant owns, with its accounts: one reply per share
/// that loads cleanly, each reply pinned field by field. A share whose
/// records cannot all be resolved is left out silently.
pub fn get_outbound_shared_accounts_by_tenant(kv: &KvStore, tenant: &String) -> (r: Vec<
    ShareAccountReply,
>)
    requires
        kv.wf(),
    ensures
        outbound_replies_sound(kv@.map, tenant@, r@),
        outbound_replies_complete(kv@.map, tenant@, r@),
{
    let ghost m = kv@.map;
    let mut out: Vec<ShareAccountReply> = Vec::new();
    let share_name_keys = kv.list_shares_of_tenant(tenant);
    let names_n = share_name_keys.len();
    let mut i: usize = 0;
    while i < names_n
        invariant
            0 <= i <= names_n,
            forall|k: int|
                0 <= k < share_name_keys@.len() ==> (#[trigger] share_name_keys@[k])@.tenant
                    == tenant@ && share_id_of(m, tenant@, share_name_keys@[k]@.share_name) is Some,
            forall|k: int|
                0 <= k < out@.len() ==> outbound_reply_matches(
                    m,
                    tenant@,
                    (#[trigger] out@[k]).share_name@.share_name,
                    out@[k],
                ),
            forall|k: int|
                0 <= k < i ==> (outbound_listable(
                    m,
                    tenant@,
                    (#[trigger] share_name_keys@[k])@.share_name,
                ) ==> exists|l: int|
                    0 <= l < out@.len() && (#[trigger] out@[l]).share_name@.share_name
                        == share_name_keys@[k]@.share_name),
        decreases names_n - i,
    {
        let ghost out_before = out@;
        match get_outbound_shared_accounts_by_name(kv, &share_name_keys[i]) {
            Ok(reply) => {
                proof {
                    assert(reply.share_name@ == share_name_keys@[i as int]@);
                }
                out.push(reply);
            },
            Err(_) => {
                proof {
                    assert(!outbound_listable(m, tenant@, share_name_keys@[i as int]@.share_name));
                }
            },
        }
        proof {
            assert forall|k: int|
                0 <= k < i + 1 implies (outbound_listable(
                m,
                tenant@,
                (#[trigger] share_name_keys@[k])@.share_name,
            ) ==> exists|l: int|
                0 <= l < out@.len() && (#[trigger] out@[l]).share_name@.share_name
                    == share_name_keys@[k]@.share_name) by {
                if k < i {
                    if outbound_listable(m, tenant@, share_name_keys@[k]@.share_name) {
                        let l = choose|l: int|
                            0 <= l < out_before.len() && (#[trigger] out_before[l]).share_name@.share_name
                                == share_name_keys@[k]@.share_name;
                        assert(out@[l].share_name@.share_name
                            == share_name_keys@[k]@.share_name);
                    }
                } else {
                    if outbound_listable(m, tenant@, share_name_keys@[k]@.share_name) {
                        assert(out@.last().share_name@.share_name
                            == share_name_keys@[k]@.share_name);
                    }
                }
            }
        }
        i += 1;
    }
    proof {
        assert forall|i2: int|
            0 <= i2 < out@.len() implies outbound_row_ok(m, tenant@, #[trigger] out@[i2]) by {
            assert(outbound_reply_matches(m, tenant@, out@[i2].share_name@.share_name, out@[i2]));
        }
        assert(outbound_replies_sound(m, tenant@, out@));
        assert forall|n: Seq<char>|
            #[trigger] outbound_listable(m, tenant@, n) implies has_outbound_row(out@, n) by {
            assert(share_id_of(m, tenant@, n) is Some);
            let k = choose|k: int|
                0 <= k < share_name_keys@.len() && (#[trigger] share_name_keys@[k])@.share_name
                    == n;
            assert(outbound_listable(m, tenant@, share_name_keys@[k]@.share_name));
            let l = choose|l: int|
                0 <= l < out@.len() && (#[trigger] out@[l]).share_name@.share_name
                    == share_name_keys@[k]@.share_name;
            assert(out@[l].share_name@.share_name == n);
        }
        assert(outbound_replies_complete(m, tenant@, out@));
    }
    out
}

/// Every share offered to the tenant, one entry per membership record,
/// each pinned field by field. Success is owed unless some share the
/// tenant is invited to grants a database whose name no longer
/// resolves; then that failure surfaces.
pub fn get_inbound_shared_accounts_by_tenant(kv: &KvStore, tenant: &String) -> (r: Result<
    Vec<ShareAccountReply>,
    ShareError,
>)
    requires
        kv.wf(),
        inv(kv@),
    ensures
        ({
            let m = kv@.map;
            match r {
                Ok(reps) => inbound_replies_sound(m, tenant@, reps@) && inbound_replies_complete(
                    m,
                    tenant@,
                    reps@,
                ),
                Err(e) => e matches ShareError::UnknownShare(_) && exists|id: u64|
                    (#[trigger] account_of(m, tenant@, id)) is Some && (match meta_of(m, id) {
                        Some(me) => !db_name_resolves(m, me),
                        None => false,
                    }),
            }
        }),
{
    let ghost m = kv@.map;
    let mut inbound: Vec<ShareAccountReply> = Vec::new();
    let share_accounts = kv.list_accounts_of(tenant);
    let accs_n = share_accounts.len();
    let mut i: usize = 0;
    while i < accs_n
        invariant
            0 <= i <= accs_n,
            forall|k: int|
                0 <= k < share_accounts@.len() ==> (#[trigger] share_accounts@[k])@.account
                    == tenant@ && account_of(m, tenant@, share_accounts@[k]@.share_id) is Some,
            inbound@.len() == i,
            forall|k: int|
                0 <= k < i ==> inbound_reply_matches(
                    m,
                    tenant@,
                    (#[trigger] share_accounts@[k])@.share_id,
                    inbound@[k],
                ),
        decreases accs_n - i,
    {
        let share_id = share_accounts[i].share_id;
        let (_share_meta_seq, share_meta) = match get_share_meta_by_id_or_err(kv, share_id) {
            Ok(x) => x,
            Err(e) => {
                proof {
                    // A membership record always points at a live share.
                    assert(meta_of(m, share_id) is Some);
                    assert(false);
                }
                return Err(e);
            },
        };
        let (_seq, share_name) = match get_share_id_to_name_or_err(kv, share_id) {
            Ok(x) => x,
            Err(e) => {
                proof {
                    assert(name_of(m, share_id) is Some);
                    assert(false);
                }
                return Err(e);
            },
        };
        let database_name = match get_share_database_name(kv, &share_meta, &share_name) {
            Ok(x) => x,
            Err(e) => {
                proof {
                    assert(account_of(m, tenant@, share_id) is Some);
                    assert(!db_name_resolves(m, share_meta@));
                }
                return Err(e);
            },
        };
        let share_account_key = crate::types::ShareAccountNameIdent {
            account: tenant.clone(),
            share_id,
        };
        let (_seq2, meta) = match get_share_account_meta_or_err(kv, &share_account_key) {
            Ok(x) => x,
            Err(e) => {
                proof {
                    assert(false);
                }
                return Err(e);
            },
        };
        let reply = ShareAccountReply {
            share_name,
            database_name,
            create_on: meta.share_on,
            accounts: None,
            comment: match &share_meta.comment {
                Some(c) => Some(c.clone()),
                None => None,
            },
        };
        proof {
            assert(inbound_reply_matches(m, tenant@, share_id, reply));
        }
        inbound.push(reply);
        i += 1;
    }
    proof {
        assert forall|id: u64|
            (#[trigger] account_of(m, tenant@, id)) is Some implies exists|i2: int|
            0 <= i2 < inbound@.len() && #[trigger] inbound_reply_matches(
                m,
                tenant@,
                id,
                inbound@[i2],
            ) by {
            let k = choose|k: int|
                0 <= k < share_accounts@.len() && (#[trigger] share_accounts@[k])@.share_id == id;
            assert(inbound_reply_matches(m, tenant@, id, inbound@[k]));
        }
        assert forall|i2: int|
            0 <= i2 < inbound@.len() implies inbound_row_sound(
            m,
            tenant@,
            #[trigger] inbound@[i2],
        ) by {
            assert(inbound_reply_matches(
                m,
                tenant@,
                share_accounts@[i2]@.share_id,
                inbound@[i2],
            ));
        }
        assert(inbound_replies_sound(m, tenant@, inbound@));
        assert(inbound_replies_complete(m, tenant@, inbound@));
    }
    Ok(inbound)
}

/// Every share of the tenant (outbound) and every share offered to it
/// (inbound), each reply pinned and each listing complete. Success is
/// owed unless an inbound share's granted database name no longer
/// resolves.
pub fn show_shares(kv: &KvStore, req: &ShowSharesReq) -> (r: Result<ShowSharesReply, ShareError>)
    requires
        kv.wf(),
        inv(kv@),
    ensures
        ({
            let m = kv@.map;
            match r {
                Ok(rep) => {
                    &&& outbound_replies_sound(m, req.tenant@, rep.outbound_accounts@)
                    &&& outbound_replies_complete(m, req.tenant@, rep.outbound_accounts@)
                    &&& inbound_replies_sound(m, req.tenant@, rep.inbound_accounts@)
                    &&& inbound_replies_complete(m, req.tenant@, rep.inbound_accounts@)
                },
                Err(e) => e matches ShareError::UnknownShare(_) && exists|id: u64|
                    (#[trigger] account_of(m, req.tenant@, id)) is Some && (match meta_of(m, id) {
                        Some(me) => !db_name_resolves(m, me),
                        None => false,
                    }),
            }
        }),
{
    let outbound_accounts = get_outbound_shared_accounts_by_tenant(kv, &req.tenant);
    let inbound_accounts = match get_inbound_shared_accounts_by_tenant(kv, &req.tenant) {
        Ok(x) => x,
        Err(e) => {
            return Err(e);
        },
    };
    Ok(ShowSharesReply { outbound_accounts, inbound_accounts })
}

/// The accounts a share is offered to. The share must exist, hold its
/// state record, and (if it grants a database) that database's name must
/// still resolve; then success is owed, with exactly the listed accounts.
pub fn get_grant_tenants_of_share(kv: &KvStore, req: &GetShareGrantTenantsReq) -> (r: Result<
    GetShareGrantTenantsReply,
    ShareError,
>)
    requires
        kv.wf(),
    ensures
        ({
            let m = kv@.map;
            let t = req.share_name@.tenant;
            let n = req.share_name@.share_name;
            match share_id_of(m, t, n) {
                None => r matches Err(ShareError::UnknownShare(x)) && x@ == n,
                Some(id) => match meta_of(m, id) {
                    None => r matches Err(ShareError::UnknownShareId(i)) && i == id,
                    Some(me) => if !db_name_resolves(m, me) {
                        r matches Err(ShareError::UnknownShare(x)) && x@ == n
                    } else {
                        r matches Ok(rep) && accounts_set(rep.accounts@) == me.accounts
                    },
                },
            }
        }),
{
    let reply = match get_outbound_shared_accounts_by_name(kv, &req.share_name) {
        Ok(x) => x,
        Err(e) => {
            return Err(e);
        },
    };
    let accounts = match reply.accounts {
        Some(accounts) => accounts,
        None => Vec::new(),
    };
    Ok(GetShareGrantTenantsReply { accounts })
}

} // verus!

verus! {

/// Whether `name` is the resolved name of object `o`, tables keeping the
/// database name `dbn` they were listed under.
pub open spec fn object_named(
    m: crate::state::KvMap,
    o: ShareGrantObject,
    name: ShareGrantObjectNameV,
    dbn: Seq<char>,
) -> bool {
    match o {
        ShareGrantObject::Database(did) => name matches ShareGrantObjectNameV::Database(dn)
            && (db_name_of(m, did) matches Some(x) && x.db_name == dn),
        ShareGrantObject::Table(tid) => name matches ShareGrantObjectNameV::Table(dn, tn) && dn
            == dbn && (table_name_of(m, tid) matches Some(y) && y.table_name == tn),
    }
}

/// The pinned row of grant entry `o`: the entry's privileges and time,
/// with the object resolved to its name (tables under database name
/// `dbn`).
pub open spec fn grant_row_for(
    m: crate::state::KvMap,
    me: crate::meta::ShareMetaV,
    dbn: Seq<char>,
    o: ShareGrantObject,
    row: ShareGrantReplyObject,
) -> bool {
    match me.grant_entry_of(o) {
        Some(e) => e.privileges == row.privileges && e.grant_on == row.grant_on && object_named(
            m,
            o,
            row.object@,
            dbn,
        ),
        None => false,
    }
}

/// Soundness of one listed row: it is the pinned row of some grant the
/// share holds.
pub open spec fn grant_row_ok(
    m: crate::state::KvMap,
    me: crate::meta::ShareMetaV,
    dbn: Seq<char>,
    row: ShareGrantReplyObject,
) -> bool {
    exists|o: ShareGrantObject| #[trigger] grant_row_for(m, me, dbn, o, row)
}

/// Whether the listing holds the pinned row of grant entry `o`.
pub open spec fn has_grant_row(
    m: crate::state::KvMap,
    me: crate::meta::ShareMetaV,
    dbn: Seq<char>,
    o: ShareGrantObject,
    rows: Seq<ShareGrantReplyObject>,
) -> bool {
    exists|i: int| 0 <= i < rows.len() && #[trigger] grant_row_for(m, me, dbn, o, rows[i])
}

/// Whether an object's id still resolves to a name.
pub open spec fn object_resolves(m: crate::state::KvMap, o: ShareGrantObject) -> bool {
    match o {
        ShareGrantObject::Database(did) => db_name_of(m, did) is Some,
        ShareGrantObject::Table(tid) => table_name_of(m, tid) is Some,
    }
}

/// What `get_share_grant_objects` owes for share state `me`: nothing
/// without a database grant or when the database's name is gone;
/// otherwise one pinned row per grant whose id still resolves, and
/// nothing else.
pub open spec fn grant_objects_ok(
    m: crate::state::KvMap,
    me: crate::meta::ShareMetaV,
    rows: Seq<ShareGrantReplyObject>,
) -> bool {
    match me.database {
        None => rows.len() == 0,
        Some(e) => match e.object {
            ShareGrantObject::Database(did) => match db_name_of(m, did) {
                None => rows.len() == 0,
                Some(dn) => (forall|i: int|
                    0 <= i < rows.len() ==> grant_row_ok(m, me, dn.db_name, #[trigger] rows[i]))
                    && (forall|o: ShareGrantObject|
                    (#[trigger] me.grants_object(o) && object_resolves(m, o)) ==> has_grant_row(
                        m,
                        me,
                        dn.db_name,
                        o,
                        rows,
                    )),
            },
            ShareGrantObject::Table(_) => true,
        },
    }
}

/// Every object a share grants, resolved back to names: one row per
/// grant whose id still resolves, none otherwise. The share must exist
/// and hold its state record; then success is owed.
pub fn get_share_grant_objects(kv: &KvStore, req: &GetShareGrantObjectReq) -> (r: Result<
    GetShareGrantObjectReply,
    ShareError,
>)
    requires
        kv.wf(),
    ensures
        ({
            let m = kv@.map;
            let t = req.share_name@.tenant;
            let n = req.share_name@.share_name;
            match share_id_of(m, t, n) {
                None => r matches Err(ShareError::UnknownShare(x)) && x@ == n,
                Some(id) => match meta_of(m, id) {
                    None => r matches Err(ShareError::UnknownShareId(i)) && i == id,
                    Some(me) => r matches Ok(rep) && rep.share_name@ == req.share_name@
                        && grant_objects_ok(m, me, rep.objects@),
                },
            }
        }),
{
    let share_name_key = &req.share_name;
    let (_share_id_seq, _share_id, _share_meta_seq, share_meta) = match get_share_or_err(
        kv,
        share_name_key,
    ) {
        Ok(x) => x,
        Err(e) => {
            return Err(
                match e {
                    ShareError::UnknownShare(x) => ShareError::UnknownShare(x),
                    ShareError::UnknownShareId(x) => ShareError::UnknownShareId(x),
                    _ => {
                        proof {
                            assert(false);
                        }
                        e
                    },
                },
            );
        },
    };
    let database_entry = match share_meta.database {
        Some(e) => e,
        None => {
            return Ok(
                GetShareGrantObjectReply { share_name: req.share_name.clone(), objects: Vec::new() },
            );
        },
    };
    let database = match get_object_name_from_id(kv, &None, database_entry.object) {
        Ok(x) => x,
        Err(e) => {
            proof {
                assert(false);
            }
            return Err(e);
        },
    };
    let database_name: String = match database {
        Some(ShareGrantObjectName::Database(db_name)) => db_name,
        _ => {
            return Ok(
                GetShareGrantObjectReply { share_name: req.share_name.clone(), objects: Vec::new() },
            );
        },
    };
    let ghost m = kv@.map;
    let ghost me = share_meta@;
    let ghost dbn = database_name@;
    let database_name_opt = Some(database_name);
    let mut objects: Vec<ShareGrantReplyObject> = Vec::new();
    let entries_n = share_meta.entries.len();
    let mut i: usize = 0;
    while i < entries_n
        invariant
            0 <= i <= entries_n,
            share_meta.wf(),
            share_meta@ == me,
            database_name_opt matches Some(s) && s@ == dbn,
            me.database matches Some(de) && (de.object matches ShareGrantObject::Database(did)
                && (db_name_of(m, did) matches Some(dn) && dn.db_name == dbn)),
            forall|k: int|
                0 <= k < objects@.len() ==> grant_row_ok(m, me, dbn, #[trigger] objects@[k]),
            forall|k: int|
                0 <= k < i ==> (object_resolves(m, (#[trigger] share_meta.entries@[k]).object)
                    ==> has_grant_row(m, me, dbn, share_meta.entries@[k].object, objects@)),
        decreases entries_n - i,
    {
        let entry = share_meta.entries[i];
        proof {
            crate::meta::lemma_entries_map_index(share_meta.entries@, i as int);
        }
        let object = match get_object_name_from_id(kv, &database_name_opt, entry.object) {
            Ok(x) => x,
            Err(e) => {
                proof {
                    assert(false);
                }
                return Err(e);
            },
        };
        let ghost rows_before = objects@;
        match object {
            Some(object) => {
                let reply_obj = ShareGrantReplyObject {
                    object,
                    privileges: entry.privileges,
                    grant_on: entry.grant_on,
                };
                proof {
                    let o = entry.object;
                    assert(me.grant_entry_of(o) == Some(entry));
                    assert(object_named(m, o, reply_obj.object@, dbn));
                    assert(grant_row_for(m, me, dbn, o, reply_obj));
                }
                objects.push(reply_obj);
            },
            None => {
                proof {
                    assert(!object_resolves(m, entry.object));
                }
            },
        }
        proof {
            assert forall|k: int|
                0 <= k < i + 1 implies (object_resolves(
                m,
                (#[trigger] share_meta.entries@[k]).object,
            ) ==> has_grant_row(m, me, dbn, share_meta.entries@[k].object, objects@)) by {
                if k < i {
                    if object_resolves(m, share_meta.entries@[k].object) {
                        let l = choose|l: int|
                            0 <= l < rows_before.len() && #[trigger] grant_row_for(
                                m,
                                me,
                                dbn,
                                share_meta.entries@[k].object,
                                rows_before[l],
                            );
                        assert(grant_row_for(
                            m,
                            me,
                            dbn,
                            share_meta.entries@[k].object,
                            objects@[l],
                        ));
                    }
                } else {
                    if object_resolves(m, share_meta.entries@[k].object) {
                        assert(grant_row_for(
                            m,
                            me,
                            dbn,
                            share_meta.entries@[k].object,
                            objects@.last(),
                        ));
                    }
                }
            }
        }
        i += 1;
    }
    let ghost rows_before_db = objects@;
    let object = match get_object_name_from_id(kv, &database_name_opt, database_entry.object) {
        Ok(x) => x,
        Err(e) => {
            proof {
                assert(false);
            }
            return Err(e);
        },
    };
    match object {
        Some(object) => {
            let reply_obj = ShareGrantReplyObject {
                object,
                privileges: database_entry.privileges,
                grant_on: database_entry.grant_on,
            };
            proof {
                let o = database_entry.object;
                assert(me.grant_entry_of(o) == Some(database_entry));
                assert(object_named(m, o, reply_obj.object@, dbn));
                assert(grant_row_for(m, me, dbn, o, reply_obj));
            }
            objects.push(reply_obj);
        },
        None => {
            proof {
                assert(false);
            }
        },
    }
    proof {
        // Every grant with a resolving id has its row: table entries from
        // the loop, the database grant from the final push.
        assert forall|o: ShareGrantObject|
            (#[trigger] me.grants_object(o) && object_resolves(m, o)) implies has_grant_row(
            m,
            me,
            dbn,
            o,
            objects@,
        ) by {
            if me.database matches Some(de) && de.object == o {
                assert(grant_row_for(m, me, dbn, o, objects@.last()));
            } else {
                assert(me.entries.contains_key(o));
                crate::meta::lemma_entries_map_contains(share_meta.entries@, o);
                let k = choose|k: int|
                    0 <= k < share_meta.entries@.len() && (#[trigger] share_meta.entries@[k]).object
                        == o;
                assert(object_resolves(m, share_meta.entries@[k].object));
                let l = choose|l: int|
                    0 <= l < rows_before_db.len() && #[trigger] grant_row_for(
                        m,
                        me,
                        dbn,
                        o,
                        rows_before_db[l],
                    );
                assert(grant_row_for(m, me, dbn, o, objects@[l]));
            }
        }
        assert(grant_objects_ok(m, me, objects@)) by {
            assert forall|k: int|
                0 <= k < objects@.len() implies grant_row_ok(m, me, dbn, #[trigger] objects@[k]) by {
                if k < rows_before_db.len() {
                    assert(grant_row_ok(m, me, dbn, rows_before_db[k]));
                } else {
                    assert(grant_row_for(m, me, dbn, database_entry.object, objects@[k]));
                }
            }
        }
    }
    Ok(GetShareGrantObjectReply { share_name: req.share_name.clone(), objects })
}

/// Soundness of one listed row: it repeats the grant entry of some
/// share that stands in the object's reverse index.
pub open spec fn object_privilege_row_sound(
    m: crate::state::KvMap,
    o: ShareGrantObject,
    row: ObjectGrantPrivilege,
) -> bool {
    exists|id: u64|
        #![trigger in_obj_index(m, id, o)]
        in_obj_index(m, id, o) && (name_of(m, id) matches Some(nm) && nm.share_name
            == row.share_name@) && (match meta_of(m, id) {
            Some(me) => match me.grant_entry_of(o) {
                Some(e) => e.privileges == row.privileges && e.grant_on == row.grant_on,
                None => false,
            },
            None => false,
        })
}

/// Soundness of an object-privilege listing: every row repeats the
/// grant entry of some share that stands in the object's reverse index.
pub open spec fn object_privileges_sound(
    m: crate::state::KvMap,
    o: ShareGrantObject,
    reps: Seq<ObjectGrantPrivilege>,
) -> bool {
    forall|i: int|
        0 <= i < reps.len() ==> object_privilege_row_sound(m, o, #[trigger] reps[i])
}

/// The pinned row of share `id`'s grant on `o`: the owner's share name
/// and the grant entry's privileges and time.
pub open spec fn object_privilege_row_for(
    m: crate::state::KvMap,
    o: ShareGrantObject,
    id: u64,
    row: ObjectGrantPrivilege,
) -> bool {
    &&& (match name_of(m, id) {
        Some(nm) => nm.share_name == row.share_name@,
        None => false,
    })
    &&& (match meta_of(m, id) {
        Some(me) => match me.grant_entry_of(o) {
            Some(e) => e.privileges == row.privileges && e.grant_on == row.grant_on,
            None => false,
        },
        None => false,
    })
}

/// Whether the listing holds the pinned row of share `id`'s grant on `o`.
pub open spec fn has_object_privilege_row(
    m: crate::state::KvMap,
    o: ShareGrantObject,
    id: u64,
    rows: Seq<ObjectGrantPrivilege>,
) -> bool {
    exists|i: int| 0 <= i < rows.len() && #[trigger] object_privilege_row_for(m, o, id, rows[i])
}

/// Completeness of an object-privilege listing: every reverse-index
/// member whose state holds a grant entry on `o` has its pinned row.
pub open spec fn object_privileges_complete(
    m: crate::state::KvMap,
    o: ShareGrantObject,
    rows: Seq<ObjectGrantPrivilege>,
) -> bool {
    forall|id: u64|
        ((#[trigger] in_obj_index(m, id, o)) && (match meta_of(m, id) {
            Some(me) => me.grant_entry_of(o) is Some,
            None => false,
        })) ==> has_object_privilege_row(m, o, id, rows)
}

/// A reverse-index member whose share records are gone: a dropped
/// share's id left behind.
pub open spec fn dangling_member(m: crate::state::KvMap, o: ShareGrantObject, id: u64) -> bool {
    in_obj_index(m, id, o) && (name_of(m, id) is None || meta_of(m, id) is None)
}

/// Whether the reverse index of `o` holds any dangling member.
pub open spec fn some_dangling_member(m: crate::state::KvMap, o: ShareGrantObject) -> bool {
    exists|id: u64| #[trigger] dangling_member(m, o, id)
}

/// Every share that references an object, with the privileges it holds
/// on it. Shares whose grant entry is gone are skipped silently. Success
/// is owed unless the reverse index holds a dangling member (a dropped
/// share's id), which surfaces as an unknown-share-id error.
pub fn get_grant_privileges_of_object(kv: &KvStore, req: &GetObjectGrantPrivilegesReq) -> (r:
    Result<GetObjectGrantPrivilegesReply, ShareError>)
    requires
        kv.wf(),
    ensures
        ({
            let m = kv@.map;
            match crate::api::resolved_object(m, req.object@, req.tenant@) {
                None => (match req.object@ {
                    ShareGrantObjectNameV::Database(dn) => r matches Err(
                        ShareError::UnknownDatabase(x),
                    ) && x@ == dn,
                    ShareGrantObjectNameV::Table(dn, tn) => if crate::state::db_id_of(
                        m,
                        req.tenant@,
                        dn,
                    ) is None {
                        r matches Err(ShareError::UnknownDatabase(x)) && x@ == dn
                    } else {
                        r matches Err(ShareError::UnknownTable(x, y)) && x@ == dn && y@ == tn
                    },
                }),
                Some((o, obj_db)) => if some_dangling_member(m, o) {
                    r matches Err(ShareError::UnknownShareId(i)) && dangling_member(m, o, i)
                } else {
                    r matches Ok(rep) && object_privileges_sound(m, o, rep.privileges@)
                        && object_privileges_complete(m, o, rep.privileges@)
                },
            }
        }),
{
    let object: ShareGrantObject = match &req.object {
        ShareGrantObjectName::Database(db_name) => {
            let db_name_key = Key::DatabaseName(
                DatabaseNameIdent { tenant: req.tenant.clone(), db_name: db_name.clone() },
            );
            let (db_seq, db_id) = kv.get_u64(&db_name_key);
            if db_seq == 0 {
                return Err(ShareError::UnknownDatabase(db_name.clone()));
            }
            proof {
                assert(crate::state::db_id_of(kv@.map, req.tenant@, db_name@) == Some(db_id));
                assert(crate::api::resolved_object(kv@.map, req.object@, req.tenant@) == Some(
                    (ShareGrantObject::Database(db_id), db_id),
                ));
            }
            ShareGrantObject::Database(db_id)
        },
        ShareGrantObjectName::Table(db_name, table_name) => {
            let db_name_key = Key::DatabaseName(
                DatabaseNameIdent { tenant: req.tenant.clone(), db_name: db_name.clone() },
            );
            let (db_seq, db_id) = kv.get_u64(&db_name_key);
            if db_seq == 0 {
                return Err(ShareError::UnknownDatabase(db_name.clone()));
            }
            let table_name_key = Key::DbIdTableName(
                DBIdTableName { db_id, table_name: table_name.clone() },
            );
            let (table_seq, table_id) = kv.get_u64(&table_name_key);
            if table_seq == 0 {
                return Err(ShareError::UnknownTable(db_name.clone(), table_name.clone()));
            }
            proof {
                assert(crate::state::db_id_of(kv@.map, req.tenant@, db_name@) == Some(db_id));
                assert(crate::state::table_id_of(kv@.map, db_id, table_name@) == Some(table_id));
                assert(crate::api::resolved_object(kv@.map, req.object@, req.tenant@) == Some(
                    (ShareGrantObject::Table(table_id), db_id),
                ));
            }
            ShareGrantObject::Table(table_id)
        },
    };
    let ghost m = kv@.map;
    let (_seq, share_ids) = get_object_shared_by_share_ids(kv, &object);
    let ghost ids = share_ids@;
    let mut privileges: Vec<ObjectGrantPrivilege> = Vec::new();
    let ghost mut wids: Seq<u64> = Seq::empty();
    let ids_n = share_ids.share_ids.len();
    let mut i: usize = 0;
    while i < ids_n
        invariant
            0 <= i <= ids_n,
            share_ids.wf(),
            share_ids@ == ids,
            ids == (match crate::state::obj_ids_of(m, object) {
                Some(x) => x,
                None => Set::<u64>::empty(),
            }),
            wids.len() == privileges@.len(),
            forall|k: int|
                #![trigger wids[k]]
                0 <= k < privileges@.len() ==> in_obj_index(m, wids[k], object)
                    && object_privilege_row_for(m, object, wids[k], privileges@[k]),
            forall|k: int|
                0 <= k < i ==> name_of(m, (#[trigger] share_ids.share_ids@[k])) is Some && meta_of(
                    m,
                    share_ids.share_ids@[k],
                ) is Some,
            forall|k: int|
                0 <= k < i ==> ((match meta_of(m, (#[trigger] share_ids.share_ids@[k])) {
                    Some(me) => me.grant_entry_of(object) is Some,
                    None => false,
                }) ==> has_object_privilege_row(
                    m,
                    object,
                    share_ids.share_ids@[k],
                    privileges@,
                )),
        decreases ids_n - i,
    {
        let share_id = share_ids.share_ids[i];
        proof {
            crate::meta::lemma_ids_set_contains(share_ids.share_ids@, share_id);
            assert(ids.contains(share_id));
            assert(in_obj_index(m, share_id, object));
        }
        let (_name_seq, share_name) = match get_share_id_to_name_or_err(kv, share_id) {
            Ok(x) => x,
            Err(e) => {
                proof {
                    let o = crate::api::resolved_object(m, req.object@, req.tenant@).unwrap().0;
                    assert(o == object);
                    assert(dangling_member(m, o, share_id));
                    assert(some_dangling_member(m, o));
                }
                return Err(e);
            },
        };
        let (_meta_seq, share_meta) = match get_share_meta_by_id_or_err(kv, share_id) {
            Ok(x) => x,
            Err(e) => {
                proof {
                    let o = crate::api::resolved_object(m, req.object@, req.tenant@).unwrap().0;
                    assert(o == object);
                    assert(dangling_member(m, o, share_id));
                    assert(some_dangling_member(m, o));
                }
                return Err(e);
            },
        };
        let ghost privs_before = privileges@;
        let ghost wids_before = wids;
        match share_meta.get_grant_entry(object) {
            Some(entry) => {
                let row = ObjectGrantPrivilege {
                    share_name: share_name.share_name,
                    privileges: entry.privileges,
                    grant_on: entry.grant_on,
                };
                proof {
                    assert(object_privilege_row_for(m, object, share_id, row));
                }
                privileges.push(row);
                proof {
                    wids = wids.push(share_id);
                    assert forall|k: int|
                        #![trigger wids[k]]
                        0 <= k < privileges@.len() implies in_obj_index(m, wids[k], object)
                        && object_privilege_row_for(m, object, wids[k], privileges@[k]) by {
                        if k < privs_before.len() {
                            assert(wids[k] == wids_before[k]);
                            assert(privileges@[k] == privs_before[k]);
                            assert(in_obj_index(m, wids_before[k], object));
                        } else {
                            assert(wids[k] == share_id);
                        }
                    }
                }
            },
            None => {},
        }
        proof {
            assert forall|k: int|
                0 <= k < i + 1 implies ((match meta_of(m, (#[trigger] share_ids.share_ids@[k])) {
                Some(me) => me.grant_entry_of(object) is Some,
                None => false,
            }) ==> has_object_privilege_row(m, object, share_ids.share_ids@[k], privileges@)) by {
                if k < i {
                    if (match meta_of(m, share_ids.share_ids@[k]) {
                        Some(me) => me.grant_entry_of(object) is Some,
                        None => false,
                    }) {
                        let l = choose|l: int|
                            0 <= l < privs_before.len() && #[trigger] object_privilege_row_for(
                                m,
                                object,
                                share_ids.share_ids@[k],
                                privs_before[l],
                            );
                        assert(object_privilege_row_for(
                            m,
                            object,
                            share_ids.share_ids@[k],
                            privileges@[l],
                        ));
                    }
                } else {
                    if (match meta_of(m, share_ids.share_ids@[k]) {
                        Some(me) => me.grant_entry_of(object) is Some,
                        None => false,
                    }) {
                        assert(object_privilege_row_for(
                            m,
                            object,
                            share_ids.share_ids@[k],
                            privileges@.last(),
                        ));
                    }
                }
            }
        }
        i += 1;
    }
    proof {
        let ro = crate::api::resolved_object(kv@.map, req.object@, req.tenant@);
        match ro {
            Some((o, obj_db)) => {
                assert(o == object);
                // No reverse-index member dangles: every one was read.
                assert forall|id: u64| !#[trigger] dangling_member(m, o, id) by {
                    if in_obj_index(m, id, object) {
                        crate::meta::lemma_ids_set_contains(share_ids.share_ids@, id);
                        let k = choose|k: int|
                            0 <= k < share_ids.share_ids@.len() && (
                            #[trigger] share_ids.share_ids@[k]) == id;
                        assert(name_of(m, share_ids.share_ids@[k]) is Some);
                    }
                }
                assert(!some_dangling_member(m, o));
                assert forall|k: int|
                    0 <= k < privileges@.len() implies object_privilege_row_sound(
                    m,
                    object,
                    #[trigger] privileges@[k],
                ) by {
                    assert(in_obj_index(m, wids[k], object));
                    assert(object_privilege_row_for(m, object, wids[k], privileges@[k]));
                }
                assert(object_privileges_sound(m, object, privileges@));
                assert(object_privileges_sound(kv@.map, o, privileges@));
                assert forall|id: u64|
                    ((#[trigger] in_obj_index(m, id, object)) && (match meta_of(m, id) {
                        Some(me) => me.grant_entry_of(object) is Some,
                        None => false,
                    })) implies has_object_privilege_row(m, object, id, privileges@) by {
                    crate::meta::lemma_ids_set_contains(share_ids.share_ids@, id);
                    let k = choose|k: int|
                        0 <= k < share_ids.share_ids@.len() && (
                        #[trigger] share_ids.share_ids@[k]) == id;
                    assert(has_object_privilege_row(
                        m,
                        object,
                        share_ids.share_ids@[k],
                        privileges@,
                    ));
                }
                assert(object_privileges_complete(m, object, privileges@));
                assert(object_privileges_complete(kv@.map, o, privileges@));
            },
            None => {
                assert(false);
            },
        }
    }
    Ok(GetObjectGrantPrivilegesReply { privileges })
}

} // verus!
