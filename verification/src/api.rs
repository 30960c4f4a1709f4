//! The share catalog operations: retrying compare-and-swap transactions
//! over the versioned store. Every mutating operation reads the records
//! it depends on, validates the domain rules, and commits one transaction
//! whose conditions pin the sequence number of every record it read.

use vstd::prelude::*;

use crate::kv::apply_ops;
use crate::kv::conds_hold;
use crate::kv::lemma_apply_ops_push;
use crate::kv::seq_of;
use crate::kv::Key;
use crate::kv::KeyV;
use crate::kv::KvStore;
use crate::kv::TxnCondition;
use crate::kv::TxnOp;
use crate::kv::TxnOpV;
use crate::kv::TxnRequest;
use crate::kv::Value;
use crate::kv::ValueV;
use crate::meta::ShareAccountMeta;
use crate::meta::ShareMeta;
use crate::state::account_of;
use crate::state::inv;
use crate::state::lemma_create_share_preserves;
use crate::state::meta_of;
use crate::state::share_id_of;
use crate::state::share_name_key;
use crate::state::KvMap;
use crate::types::ShareError;
use crate::types::ShareGrantObjectName;
use crate::types::ShareNameIdent;
use crate::types::ShareNameIdentV;

verus! {

/// The optimistic-concurrency retry budget of every mutating operation.
pub const TXN_MAX_RETRY_TIMES: u64 = 10;

/// Request of `create_share`.
pub struct CreateShareReq {
    pub if_not_exists: bool,
    pub share_name: ShareNameIdent,
    pub comment: Option<String>,
    pub create_on: u64,
}

/// Reply of `create_share`.
pub struct CreateShareReply {
    pub share_id: u64,
}

/// Request of `drop_share`.
pub struct DropShareReq {
    pub if_exists: bool,
    pub share_name: ShareNameIdent,
}

/// Reply of `drop_share`.
pub struct DropShareReply {}

/// Request of `add_share_tenants`.
pub struct AddShareAccountsReq {
    pub share_name: ShareNameIdent,
    pub if_exists: bool,
    pub accounts: Vec<String>,
    pub share_on: u64,
}

/// Reply of `add_share_tenants`.
pub struct AddShareAccountsReply {}

/// Request of `remove_share_tenants`.
pub struct RemoveShareAccountsReq {
    pub share_name: ShareNameIdent,
    pub if_exists: bool,
    pub accounts: Vec<String>,
}

/// Reply of `remove_share_tenants`.
pub struct RemoveShareAccountsReply {}

/// Request of `grant_share_object`.
pub struct GrantShareObjectReq {
    pub share_name: ShareNameIdent,
    pub object: ShareGrantObjectName,
    pub privilege: u64,
    pub grant_on: u64,
}

/// Reply of `grant_share_object`.
pub struct GrantShareObjectReply {}

/// Request of `revoke_share_object`.
pub struct RevokeShareObjectReq {
    pub share_name: ShareNameIdent,
    pub object: ShareGrantObjectName,
    pub privilege: u64,
    pub update_on: u64,
}

/// Reply of `revoke_share_object`.
pub struct RevokeShareObjectReply {}

/// Read a share name binding, or the error that the share is unknown.
///
/// Returns the pair `(share_id_seq, share_id)`.
pub fn get_share_id_or_err(kv: &KvStore, name_key: &ShareNameIdent) -> (r: Result<
    (u64, u64),
    ShareError,
>)
    requires
        kv.wf(),
    ensures
        match r {
            Ok((id_seq, id)) => share_id_of(kv@.map, name_key@.tenant, name_key@.share_name)
                == Some(id) && id_seq == seq_of(kv@.map, share_name_key(name_key@.tenant, name_key@.share_name))
                && id_seq >= 1,
            Err(e) => share_id_of(kv@.map, name_key@.tenant, name_key@.share_name) is None && (
            e matches ShareError::UnknownShare(n) && n@ == name_key@.share_name),
        },
{
    let key = Key::ShareName(name_key.clone());
    let (id_seq, id) = kv.get_u64(&key);
    if id_seq == 0 {
        return Err(ShareError::UnknownShare(name_key.share_name.clone()));
    }
    Ok((id_seq, id))
}

/// Read a share's state by id, or the error that the id is unknown.
///
/// Returns the pair `(share_meta_seq, share_meta)`.
pub fn get_share_meta_by_id_or_err(kv: &KvStore, share_id: u64) -> (r: Result<
    (u64, ShareMeta),
    ShareError,
>)
    requires
        kv.wf(),
    ensures
        match r {
            Ok((meta_seq, meta)) => meta_of(kv@.map, share_id) == Some(meta@) && meta.wf()
                && meta_seq == seq_of(kv@.map, KeyV::ShareId(share_id)) && meta_seq >= 1,
            Err(e) => meta_of(kv@.map, share_id) is None && (e matches ShareError::UnknownShareId(i)
                && i == share_id),
        },
{
    let key = Key::ShareId(share_id);
    let (meta_seq, v) = kv.get(&key);
    match v {
        Some(Value::ShareMeta(meta)) => Ok((meta_seq, meta)),
        _ => Err(ShareError::UnknownShareId(share_id)),
    }
}

/// Read the name a share id resolves back to, or the error that the id
/// is unknown.
pub fn get_share_id_to_name_or_err(kv: &KvStore, share_id: u64) -> (r: Result<
    (u64, ShareNameIdent),
    ShareError,
>)
    requires
        kv.wf(),
    ensures
        match r {
            Ok((name_seq, name)) => crate::state::name_of(kv@.map, share_id) == Some(name@)
                && name_seq == seq_of(kv@.map, KeyV::ShareIdToName(share_id)) && name_seq >= 1,
            Err(e) => crate::state::name_of(kv@.map, share_id) is None && (
            e matches ShareError::UnknownShareId(i) && i == share_id),
        },
{
    let key = Key::ShareIdToName(share_id);
    let (name_seq, v) = kv.get(&key);
    match v {
        Some(Value::ShareName(name)) => Ok((name_seq, name)),
        _ => Err(ShareError::UnknownShareId(share_id)),
    }
}

/// Resolve a share name to its id and state.
///
/// Returns `(share_id_seq, share_id, share_meta_seq, share_meta)`; the
/// share must exist under its name and hold its state record.
pub fn get_share_or_err(kv: &KvStore, name_key: &ShareNameIdent) -> (r: Result<
    (u64, u64, u64, ShareMeta),
    ShareError,
>)
    requires
        kv.wf(),
    ensures
        match r {
            Ok((id_seq, id, meta_seq, meta)) => share_id_of(
                kv@.map,
                name_key@.tenant,
                name_key@.share_name,
            ) == Some(id) && meta_of(kv@.map, id) == Some(meta@) && meta.wf() && id_seq == seq_of(
                kv@.map,
                share_name_key(name_key@.tenant, name_key@.share_name),
            ) && meta_seq == seq_of(kv@.map, KeyV::ShareId(id)) && id_seq >= 1 && meta_seq >= 1,
            Err(e) => match e {
                ShareError::UnknownShare(n) => n@ == name_key@.share_name && share_id_of(
                    kv@.map,
                    name_key@.tenant,
                    name_key@.share_name,
                ) is None,
                ShareError::UnknownShareId(id) => share_id_of(
                    kv@.map,
                    name_key@.tenant,
                    name_key@.share_name,
                ) == Some(id) && meta_of(kv@.map, id) is None,
                _ => false,
            },
        },
{
    let (id_seq, id) = match get_share_id_or_err(kv, name_key) {
        Ok(x) => x,
        Err(e) => {
            return Err(e);
        },
    };
    let (meta_seq, meta) = match get_share_meta_by_id_or_err(kv, id) {
        Ok(x) => x,
        Err(e) => {
            return Err(e);
        },
    };
    Ok((id_seq, id, meta_seq, meta))
}

/// Read the membership record of `(account, share_id)`, or the error
/// that the account is not on the share.
pub fn get_share_account_meta_or_err(kv: &KvStore, name_key: &crate::types::ShareAccountNameIdent)
    -> (r: Result<(u64, ShareAccountMeta), ShareError>)
    requires
        kv.wf(),
    ensures
        match r {
            Ok((am_seq, am)) => account_of(kv@.map, name_key@.account, name_key@.share_id) == Some(
                am@,
            ) && am_seq == seq_of(kv@.map, crate::state::account_key(name_key@.account, name_key@.share_id))
                && am_seq >= 1,
            Err(e) => account_of(kv@.map, name_key@.account, name_key@.share_id) is None && (
            e matches ShareError::UnknownShareAccounts(accs, id) && accs@.len() == 1 && accs@[0]@
                == name_key@.account && id == name_key@.share_id),
        },
{
    let key = Key::ShareAccount(name_key.clone());
    let (am_seq, v) = kv.get(&key);
    match v {
        Some(Value::ShareAccountMeta(am)) => Ok((am_seq, am)),
        _ => {
            let mut accs: Vec<String> = Vec::new();
            accs.push(name_key.account.clone());
            Err(ShareError::UnknownShareAccounts(accs, name_key.share_id))
        },
    }
}

/// Create a share.
///
/// The name must be unbound; a bound name yields the existing id under
/// `if_not_exists`, and the error otherwise. Three records are inserted
/// atomically: the name binding, the fresh share state, and the reverse
/// name binding.
pub fn create_share(kv: &mut KvStore, req: &CreateShareReq) -> (r: Result<
    CreateShareReply,
    ShareError,
>)
    requires
        old(kv).wf(),
        inv(old(kv)@),
        old(kv)@.next_seq < u64::MAX,
        old(kv)@.next_id < u64::MAX,
    ensures
        final(kv).wf(),
        inv(final(kv)@),
        ({
            let m0 = old(kv)@.map;
            let t = req.share_name@.tenant;
            let n = req.share_name@.share_name;
            match share_id_of(m0, t, n) {
                Some(id) => *final(kv) == *old(kv) && (if req.if_not_exists {
                    r == Ok::<CreateShareReply, ShareError>(CreateShareReply { share_id: id })
                } else {
                    r matches Err(ShareError::ShareAlreadyExists(x)) && x@ == n
                }),
                None => {
                    let id = old(kv)@.next_id;
                    &&& r == Ok::<CreateShareReply, ShareError>(CreateShareReply { share_id: id })
                    &&& final(kv)@.map == m0.insert(
                        share_name_key(t, n),
                        (old(kv)@.next_seq, ValueV::Id(id)),
                    ).insert(
                        KeyV::ShareId(id),
                        (
                            old(kv)@.next_seq,
                            ValueV::ShareMeta(
                                crate::meta::ShareMetaV {
                                    database: None,
                                    entries: Map::empty(),
                                    accounts: Set::empty(),
                                    comment: (match req.comment {
                                        Some(ref c) => Some(c@),
                                        None => None,
                                    }),
                                    share_on: req.create_on,
                                    update_on: req.create_on,
                                },
                            ),
                        ),
                    ).insert(
                        KeyV::ShareIdToName(id),
                        (
                            old(kv)@.next_seq,
                            ValueV::ShareName(ShareNameIdentV { tenant: t, share_name: n }),
                        ),
                    )
                    &&& final(kv)@.next_seq == old(kv)@.next_seq + 1
                    &&& final(kv)@.next_id == old(kv)@.next_id + 1
                },
            }
        }),
{
    let name_key = &req.share_name;
    let mut retry: u64 = 0;
    while retry < TXN_MAX_RETRY_TIMES
        invariant
            retry == 0,
            *kv == *old(kv),
        decreases TXN_MAX_RETRY_TIMES - retry,
    {
        retry = retry + 1;

        // Read phase: the name must be unbound.
        let key = Key::ShareName(name_key.clone());
        let (share_id_seq, share_id) = kv.get_u64(&key);
        if share_id_seq > 0 {
            return if req.if_not_exists {
                Ok(CreateShareReply { share_id })
            } else {
                Err(ShareError::ShareAlreadyExists(name_key.share_name.clone()))
            };
        }
        // Commit phase: insert the three records, conditioned on the
        // continued absence of both name bindings.
        let share_id = kv.fetch_id();
        let id_key = Key::ShareId(share_id);
        let id_to_name_key = Key::ShareIdToName(share_id);
        let share_meta = ShareMeta::new(
            req.create_on,
            match &req.comment {
                Some(c) => Some(c.clone()),
                None => None,
            },
        );
        let ghost me = share_meta@;

        let mut condition: Vec<TxnCondition> = Vec::new();
        condition.push(TxnCondition { key: key.clone(), seq: 0 });
        condition.push(TxnCondition { key: Key::ShareIdToName(share_id), seq: 0 });
        let mut if_then: Vec<TxnOp> = Vec::new();
        if_then.push(TxnOp::Put(key, Value::Id(share_id)));
        if_then.push(TxnOp::Put(id_key, Value::ShareMeta(share_meta)));
        if_then.push(TxnOp::Put(id_to_name_key, Value::ShareName(name_key.clone())));
        let txn = TxnRequest { condition, if_then };

        proof {
            assert(crate::state::id_used(old(kv)@.map, share_id) == false);
        }
        let succ = kv.send_txn(&txn);
        proof {
            let m0 = old(kv)@.map;
            let sq = old(kv)@.next_seq;
            let t = req.share_name@.tenant;
            let n = req.share_name@.share_name;
            let cs = txn.condition@.map_values(|c: TxnCondition| c@);
            assert(cs[0] == txn.condition@[0]@);
            assert(cs[1] == txn.condition@[1]@);
            assert(seq_of(m0, share_name_key(t, n)) == 0);
            assert(seq_of(m0, KeyV::ShareIdToName(share_id)) == 0);
            assert(conds_hold(m0, cs)) by {
                assert(forall|i: int|
                    0 <= i < cs.len() ==> seq_of(m0, (#[trigger] cs[i]).key) == cs[i].seq);
            }
            assert(succ);
            let ops = txn.if_then@.map_values(|op: TxnOp| op@);
            let o0 = TxnOpV::Put(share_name_key(t, n), ValueV::Id(share_id));
            let o1 = TxnOpV::Put(KeyV::ShareId(share_id), ValueV::ShareMeta(me));
            let o2 = TxnOpV::Put(
                KeyV::ShareIdToName(share_id),
                ValueV::ShareName(ShareNameIdentV { tenant: t, share_name: n }),
            );
            assert(ops[0] == txn.if_then@[0]@ && ops[1] == txn.if_then@[1]@ && ops[2]
                == txn.if_then@[2]@);
            assert(ops =~= seq![o0, o1, o2]);
            assert(seq![o0, o1, o2] =~= seq![o0, o1].push(o2));
            assert(seq![o0, o1] =~= seq![o0].push(o1));
            assert(seq![o0] =~= Seq::<TxnOpV>::empty().push(o0));
            lemma_apply_ops_push(m0, seq![o0, o1], o2, sq);
            lemma_apply_ops_push(m0, seq![o0], o1, sq);
            lemma_apply_ops_push(m0, Seq::<TxnOpV>::empty(), o0, sq);
            assert(kv@.map == m0.insert(share_name_key(t, n), (sq, ValueV::Id(share_id))).insert(
                KeyV::ShareId(share_id),
                (sq, ValueV::ShareMeta(me)),
            ).insert(
                KeyV::ShareIdToName(share_id),
                (sq, ValueV::ShareName(ShareNameIdentV { tenant: t, share_name: n })),
            ));
            lemma_create_share_preserves(old(kv)@, kv@, t, n, share_id, me, sq);
        }
        if succ {
            return Ok(CreateShareReply { share_id });
        }
        proof {
            assert(false);
        }
    }
    proof {
        assert(false);
    }
    Err(ShareError::TxnRetryMaxTimes(TXN_MAX_RETRY_TIMES))
}

} // verus!

verus! {

/// The accounts of a request that are actually new to the share: not the
/// owning tenant and not yet listed.
pub open spec fn filtered_new_accounts(
    accs: Seq<String>,
    tenant: Seq<char>,
    existing: Set<Seq<char>>,
) -> Set<Seq<char>> {
    Set::new(
        |a: Seq<char>|
            (exists|i: int| 0 <= i < accs.len() && accs[i]@ == a) && a != tenant
                && !existing.contains(a),
    )
}

/// Scanning one more requested account grows the filtered set by that
/// account exactly when it passes the filter.
proof fn lemma_filtered_step(accs: Seq<String>, i: int, tenant: Seq<char>, existing: Set<Seq<char>>)
    requires
        0 <= i < accs.len(),
    ensures
        filtered_new_accounts(accs.take(i + 1), tenant, existing) == (if accs[i]@ != tenant
            && !existing.contains(accs[i]@) {
            filtered_new_accounts(accs.take(i), tenant, existing).insert(accs[i]@)
        } else {
            filtered_new_accounts(accs.take(i), tenant, existing)
        }),
{
    let f0 = filtered_new_accounts(accs.take(i), tenant, existing);
    let f1 = filtered_new_accounts(accs.take(i + 1), tenant, existing);
    assert forall|a: Seq<char>| f1.contains(a) implies (f0.contains(a) || (a == accs[i]@ && a
        != tenant && !existing.contains(a))) by {
        let j = choose|j: int|
            0 <= j < accs.take(i + 1).len() && (#[trigger] accs.take(i + 1)[j])@ == a;
        if j < i {
            assert(accs.take(i)[j]@ == a);
        } else {
            assert(accs.take(i + 1)[j] == accs[i]);
        }
    }
    assert forall|a: Seq<char>| f0.contains(a) implies f1.contains(a) by {
        let j = choose|j: int| 0 <= j < accs.take(i).len() && (#[trigger] accs.take(i)[j])@ == a;
        assert(accs.take(i + 1)[j]@ == a);
    }
    if accs[i]@ != tenant && !existing.contains(accs[i]@) {
        assert(accs.take(i + 1)[i]@ == accs[i]@);
        assert(f1.contains(accs[i]@));
        assert(f1 =~= f0.insert(accs[i]@));
    } else {
        assert(f1 =~= f0);
    }
}

/// Offer a share to more accounts.
///
/// The owning tenant and already-listed accounts are skipped silently;
/// if nothing is left the request fails. One transaction writes every
/// new membership record and the share state with the new accounts.
pub fn add_share_tenants(kv: &mut KvStore, req: &AddShareAccountsReq) -> (r: Result<
    AddShareAccountsReply,
    ShareError,
>)
    requires
        old(kv).wf(),
        inv(old(kv)@),
        old(kv)@.next_seq < u64::MAX,
    ensures
        final(kv).wf(),
        inv(final(kv)@),
        ({
            let m0 = old(kv)@.map;
            let m1 = final(kv)@.map;
            let t = req.share_name@.tenant;
            let n = req.share_name@.share_name;
            match share_id_of(m0, t, n) {
                None => *final(kv) == *old(kv) && (if req.if_exists {
                    r == Ok::<AddShareAccountsReply, ShareError>(AddShareAccountsReply {})
                } else {
                    r matches Err(ShareError::UnknownShare(x)) && x@ == n
                }),
                Some(id) => {
                    let me0 = meta_of(m0, id).unwrap();
                    let added = filtered_new_accounts(req.accounts@, t, me0.accounts);
                    if added == Set::<Seq<char>>::empty() {
                        &&& *final(kv) == *old(kv)
                        &&& r matches Err(ShareError::ShareAccountsAlreadyExists(x, accs)) && x@
                            == n && accs@.len() == req.accounts@.len() && (forall|i: int|
                            0 <= i < accs@.len() ==> (#[trigger] accs@[i])@ == req.accounts@[i]@)
                    } else {
                        &&& r == Ok::<AddShareAccountsReply, ShareError>(AddShareAccountsReply {})
                        &&& meta_of(m1, id) matches Some(me1) && me1 == (crate::meta::ShareMetaV {
                            accounts: me0.accounts.union(added),
                            ..me0
                        })
                        &&& forall|a: Seq<char>|
                            added.contains(a) ==> #[trigger] account_of(m1, a, id) == Some(
                                crate::meta::ShareAccountMetaV {
                                    account: a,
                                    share_id: id,
                                    share_on: req.share_on,
                                },
                            )
                        &&& forall|a: Seq<char>|
                            !added.contains(a) ==> #[trigger] account_of(m1, a, id) == account_of(
                                m0,
                                a,
                                id,
                            )
                        &&& forall|a: Seq<char>, i2: u64|
                            i2 != id ==> #[trigger] account_of(m1, a, i2) == account_of(m0, a, i2)
                        &&& forall|i2: u64| i2 != id ==> #[trigger] meta_of(m1, i2) == meta_of(m0, i2)
                        &&& forall|t2: Seq<char>, n2: Seq<char>| #[trigger]
                            share_id_of(m1, t2, n2) == share_id_of(m0, t2, n2)
                        &&& forall|i2: u64| #[trigger] crate::state::name_of(m1, i2)
                            == crate::state::name_of(m0, i2)
                        &&& crate::state::outer_frame(m0, m1)
                        &&& final(kv)@.next_seq == old(kv)@.next_seq + 1
                        &&& final(kv)@.next_id == old(kv)@.next_id
                    }
                },
            }
        }),
{
    broadcast use crate::state::group_accessor_frames;

    let name_key = &req.share_name;
    let ghost t = req.share_name@.tenant;
    let ghost n = req.share_name@.share_name;
    let ghost m0 = old(kv)@.map;
    let mut retry: u64 = 0;
    while retry < TXN_MAX_RETRY_TIMES
        invariant
            retry == 0,
            *kv == *old(kv),
        decreases TXN_MAX_RETRY_TIMES - retry,
    {
        retry = retry + 1;

        // Read phase: the share and its state.
        let (share_id_seq, share_id, share_meta_seq, mut share_meta) = match get_share_or_err(
            kv,
            name_key,
        ) {
            Ok(x) => x,
            Err(e) => {
                if let ShareError::UnknownShare(_) = e {
                    if req.if_exists {
                        return Ok(AddShareAccountsReply {});
                    }
                    return Err(e);
                }
                proof {
                    assert(false);
                }
                return Err(e);
            },
        };
        let ghost me0 = share_meta@;
        let ghost added = filtered_new_accounts(req.accounts@, t, me0.accounts);

        // Validate phase: filter the requested accounts.
        let mut add_keys: Vec<crate::types::ShareAccountNameIdent> = Vec::new();
        let acc_n = req.accounts.len();
        let mut i: usize = 0;
        proof {
            assert(req.accounts@.take(0) =~= Seq::<String>::empty());
            assert(filtered_new_accounts(req.accounts@.take(0), t, me0.accounts) =~= Set::<
                Seq<char>,
            >::empty());
        }
        while i < acc_n
            invariant
                0 <= i <= acc_n,
                *kv == *old(kv),
                share_meta@ == me0,
                share_meta.wf(),
                forall|k: int|
                    0 <= k < add_keys@.len() ==> (#[trigger] add_keys@[k])@.share_id == share_id
                        && filtered_new_accounts(req.accounts@.take(i as int), t, me0.accounts).contains(add_keys@[k]@.account),
                forall|a: Seq<char>|
                    filtered_new_accounts(req.accounts@.take(i as int), t, me0.accounts).contains(a)
                        ==> exists|k: int| 0 <= k < add_keys@.len() && (#[trigger] add_keys@[k])@.account == a,
            decreases acc_n - i,
        {
            let account = &req.accounts[i];
            proof {
                lemma_filtered_step(req.accounts@, i as int, t, me0.accounts);
            }
            let ghost keys_before = add_keys@;
            if !(*account == name_key.tenant) {
                if !share_meta.has_account(account) {
                    add_keys.push(
                        crate::types::ShareAccountNameIdent {
                            account: account.clone(),
                            share_id,
                        },
                    );
                }
            }
            proof {
                assert forall|a: Seq<char>|
                    #![trigger filtered_new_accounts(req.accounts@.take(i + 1 as int), t, me0.accounts).contains(a)]
                    filtered_new_accounts(
                        req.accounts@.take(i + 1 as int),
                        t,
                        me0.accounts,
                    ).contains(a) implies exists|k2: int|
                    0 <= k2 < add_keys@.len() && (#[trigger] add_keys@[k2])@.account == a by {
                    if filtered_new_accounts(
                        req.accounts@.take(i as int),
                        t,
                        me0.accounts,
                    ).contains(a) {
                        let k2 = choose|k2: int|
                            0 <= k2 < keys_before.len() && (#[trigger] keys_before[k2])@.account
                                == a;
                        assert(add_keys@[k2]@.account == a);
                    } else {
                        assert(a == req.accounts@[i as int]@);
                        assert(add_keys@.last()@.account == a);
                    }
                }
            }
            i += 1;
        }
        proof {
            assert(req.accounts@.take(acc_n as int) =~= req.accounts@);
        }
        if add_keys.len() == 0 {
            proof {
                assert forall|a: Seq<char>| !added.contains(a) by {
                    if added.contains(a) {
                        assert(exists|k: int|
                            0 <= k < add_keys@.len() && (#[trigger] add_keys@[k])@.account == a);
                    }
                }
                assert(added =~= Set::<Seq<char>>::empty());
            }
            let mut accs: Vec<String> = Vec::new();
            let mut j: usize = 0;
            while j < acc_n
                invariant
                    0 <= j <= acc_n,
                    *kv == *old(kv),
                    accs@.len() == j,
                    forall|k: int| 0 <= k < j ==> (#[trigger] accs@[k])@ == req.accounts@[k]@,
                decreases acc_n - j,
            {
                accs.push(req.accounts[j].clone());
                j += 1;
            }
            return Err(ShareError::ShareAccountsAlreadyExists(name_key.share_name.clone(), accs));
        }
        proof {
            assert(added != Set::<Seq<char>>::empty()) by {
                assert(added.contains(add_keys@[0]@.account));
                assert(!Set::<Seq<char>>::empty().contains(add_keys@[0]@.account));
            }
        }

        // Commit phase: put every new membership record and the state.
        proof {
            assert(me0.accounts.union(Set::<Seq<char>>::empty()) =~= me0.accounts);
        }
        let id_key = Key::ShareId(share_id);
        let mut condition: Vec<TxnCondition> = Vec::new();
        condition.push(TxnCondition { key: Key::ShareName(name_key.clone()), seq: share_id_seq });
        condition.push(TxnCondition { key: Key::ShareId(share_id), seq: share_meta_seq });
        let mut if_then: Vec<TxnOp> = Vec::new();
        let ghost mut processed: Set<Seq<char>> = Set::empty();

        let keys_n = add_keys.len();
        let mut k: usize = 0;
        while k < keys_n
            invariant
                0 <= k <= keys_n,
                *kv == *old(kv),
                share_meta.wf(),
                share_meta@ == (crate::meta::ShareMetaV {
                    accounts: me0.accounts.union(processed),
                    ..me0
                }),
                forall|a: Seq<char>|
                    #[trigger] processed.contains(a) ==> exists|j: int|
                        0 <= j < k && (#[trigger] add_keys@[j])@.account == a,
                forall|j: int|
                    0 <= j < k ==> processed.contains((#[trigger] add_keys@[j])@.account),
                forall|j: int|
                    0 <= j < add_keys@.len() ==> (#[trigger] add_keys@[j])@.share_id == share_id
                        && added.contains(add_keys@[j]@.account),
                forall|a: Seq<char>|
                    added.contains(a) ==> exists|j: int|
                        0 <= j < add_keys@.len() && (#[trigger] add_keys@[j])@.account == a,
                condition@.len() == 2 + k,
                forall|j: int|
                    0 <= j < condition@.len() ==> crate::kv::seq_of(
                        m0,
                        (#[trigger] condition@[j])@.key,
                    ) == condition@[j]@.seq,
                if_then@.len() == k,
                forall|j: int|
                    0 <= j < if_then@.len() ==> crate::state::is_account_op_for(
                        (#[trigger] if_then@[j])@,
                        share_id,
                    ),
                forall|a: Seq<char>|
                    #![trigger account_of(m0, a, share_id)]
                    crate::state::account_key_effect(
                        account_of(m0, a, share_id),
                        if_then@.map_values(|op: TxnOp| op@),
                        a,
                        share_id,
                    ) == (if processed.contains(a) {
                        Some(
                            crate::meta::ShareAccountMetaV {
                                account: a,
                                share_id,
                                share_on: req.share_on,
                            },
                        )
                    } else {
                        account_of(m0, a, share_id)
                    }),
            decreases keys_n - k,
        {
            let share_account_key = &add_keys[k];
            let ghost a = share_account_key@.account;
            proof {
                // The account is new, so its membership record is absent.
                assert(added.contains(a));
                assert(!me0.accounts.contains(a));
                kv.lemma_typed(crate::state::account_key(a, share_id));
                if account_of(m0, a, share_id) is Some {
                    assert(me0.accounts.contains(a));
                }
                assert(crate::kv::seq_of(m0, crate::state::account_key(a, share_id)) == 0);
            }
            condition.push(TxnCondition { key: Key::ShareAccount(share_account_key.clone()), seq: 0 });
            let share_account_meta = ShareAccountMeta::new(
                share_account_key.account.clone(),
                share_id,
                req.share_on,
            );
            let ghost ops_before = if_then@.map_values(|op: TxnOp| op@);
            if_then.push(
                TxnOp::Put(
                    Key::ShareAccount(share_account_key.clone()),
                    Value::ShareAccountMeta(share_account_meta),
                ),
            );
            share_meta.add_account(share_account_key.account.clone());
            proof {
                let ops_after = if_then@.map_values(|op: TxnOp| op@);
                assert(ops_after.drop_last() =~= ops_before);
                assert(ops_after.last() == if_then@.last()@);
                assert forall|a2: Seq<char>|
                    #![trigger account_of(m0, a2, share_id)]
                    crate::state::account_key_effect(
                        account_of(m0, a2, share_id),
                        ops_after,
                        a2,
                        share_id,
                    ) == (if processed.insert(a).contains(a2) {
                        Some(
                            crate::meta::ShareAccountMetaV {
                                account: a2,
                                share_id,
                                share_on: req.share_on,
                            },
                        )
                    } else {
                        account_of(m0, a2, share_id)
                    }) by {
                    assert(crate::state::account_key_effect(
                        account_of(m0, a2, share_id),
                        ops_before,
                        a2,
                        share_id,
                    ) == (if processed.contains(a2) {
                        Some(
                            crate::meta::ShareAccountMetaV {
                                account: a2,
                                share_id,
                                share_on: req.share_on,
                            },
                        )
                    } else {
                        account_of(m0, a2, share_id)
                    }));
                }
                let p_old = processed;
                processed = processed.insert(a);
                assert(me0.accounts.union(p_old).insert(a) =~= me0.accounts.union(
                    p_old.insert(a),
                ));
            }
            k += 1;
        }
        proof {
            assert(processed =~= added);
        }
        let ghost ops_acc = if_then@.map_values(|op: TxnOp| op@);
        if_then.push(TxnOp::Put(id_key, Value::ShareMeta(share_meta)));
        let txn = TxnRequest { condition, if_then };

        let succ = kv.send_txn(&txn);
        proof {
            let sq = old(kv)@.next_seq;
            let cs = txn.condition@.map_values(|c: TxnCondition| c@);
            assert forall|j: int|
                0 <= j < cs.len() implies crate::kv::seq_of(m0, (#[trigger] cs[j]).key)
                == cs[j].seq by {
                assert(cs[j] == txn.condition@[j]@);
            }
            assert(succ);
            let ops = txn.if_then@.map_values(|op: TxnOp| op@);
            assert(ops.drop_last() =~= ops_acc);
            assert(ops =~= ops_acc.push(ops.last()));
            crate::state::lemma_apply_account_ops(m0, ops_acc, share_id, sq);
            crate::kv::lemma_apply_ops_push(m0, ops_acc, ops.last(), sq);
            let macc = crate::kv::apply_ops(m0, ops_acc, sq);
            let m1 = kv@.map;
            assert(m1 == macc.insert(
                KeyV::ShareId(share_id),
                (sq, ValueV::ShareMeta(crate::meta::ShareMetaV {
                    accounts: me0.accounts.union(added),
                    ..me0
                })),
            ));
            assert(meta_of(m1, share_id) == Some(crate::meta::ShareMetaV {
                accounts: me0.accounts.union(added),
                ..me0
            }));
            assert forall|a: Seq<char>|
                added.contains(a) implies #[trigger] account_of(m1, a, share_id) == Some(
                crate::meta::ShareAccountMetaV { account: a, share_id, share_on: req.share_on },
            ) by {
                assert(account_of(macc, a, share_id) == crate::state::account_key_effect(
                    account_of(m0, a, share_id),
                    ops_acc,
                    a,
                    share_id,
                ));
                assert(account_of(m1, a, share_id) == account_of(macc, a, share_id));
            }
            assert forall|a: Seq<char>|
                !added.contains(a) implies #[trigger] account_of(m1, a, share_id) == account_of(
                m0,
                a,
                share_id,
            ) by {
                assert(account_of(macc, a, share_id) == crate::state::account_key_effect(
                    account_of(m0, a, share_id),
                    ops_acc,
                    a,
                    share_id,
                ));
                assert(account_of(m1, a, share_id) == account_of(macc, a, share_id));
            }
            assert forall|a: Seq<char>, i2: u64|
                i2 != share_id implies #[trigger] account_of(m1, a, i2) == account_of(
                m0,
                a,
                i2,
            ) by {
                assert(account_of(macc, a, i2) == account_of(m0, a, i2));
            }
            assert forall|i2: u64|
                i2 != share_id implies #[trigger] meta_of(m1, i2) == meta_of(m0, i2) by {
                assert(meta_of(macc, i2) == meta_of(m0, i2));
            }
            assert forall|t2: Seq<char>, n2: Seq<char>| #[trigger]
                share_id_of(m1, t2, n2) == share_id_of(m0, t2, n2) by {
                assert(share_id_of(macc, t2, n2) == share_id_of(m0, t2, n2));
            }
            assert forall|i2: u64| #[trigger] crate::state::name_of(m1, i2)
                == crate::state::name_of(m0, i2) by {
                assert(crate::state::name_of(macc, i2) == crate::state::name_of(m0, i2));
            }
            assert forall|o: crate::types::ShareGrantObject| #[trigger] crate::state::obj_ids_of(
                m1,
                o,
            ) == crate::state::obj_ids_of(m0, o) by {
                assert(crate::state::obj_ids_of(macc, o) == crate::state::obj_ids_of(m0, o));
            }
            assert forall|d: u64| #[trigger] crate::state::db_meta_of(m1, d)
                == crate::state::db_meta_of(m0, d) by {
                assert(crate::state::db_meta_of(macc, d) == crate::state::db_meta_of(m0, d));
            }
            assert forall|t2: Seq<char>, dn: Seq<char>| #[trigger] crate::state::db_id_of(
                m1,
                t2,
                dn,
            ) == crate::state::db_id_of(m0, t2, dn) by {
                assert(crate::state::db_id_of(macc, t2, dn) == crate::state::db_id_of(m0, t2, dn));
            }
            assert forall|d: u64| #[trigger] crate::state::db_name_of(m1, d)
                == crate::state::db_name_of(m0, d) by {
                assert(crate::state::db_name_of(macc, d) == crate::state::db_name_of(m0, d));
            }
            assert forall|d: u64, tn: Seq<char>| #[trigger] crate::state::table_id_of(m1, d, tn)
                == crate::state::table_id_of(m0, d, tn) by {
                assert(crate::state::table_id_of(macc, d, tn) == crate::state::table_id_of(
                    m0,
                    d,
                    tn,
                ));
            }
            assert forall|ti: u64| #[trigger] crate::state::table_name_of(m1, ti)
                == crate::state::table_name_of(m0, ti) by {
                assert(crate::state::table_name_of(macc, ti) == crate::state::table_name_of(
                    m0,
                    ti,
                ));
            }
            assert forall|ti: u64| #[trigger] crate::state::table_meta_same(m0, m1, ti) by {
                assert(crate::state::table_meta_same(m0, macc, ti));
                assert(KeyV::ShareId(share_id) != KeyV::TableId(ti));
            }
            assert forall|i2: u64| #[trigger] crate::state::id_used(m1, i2)
                == crate::state::id_used(m0, i2) by {
                assert(crate::state::id_used(macc, i2) == crate::state::id_used(m0, i2));
                if i2 == share_id {
                    assert(crate::state::id_used(m0, i2));
                }
            }
            // The owner is never among the added accounts, and membership
            // records now agree with the new list.
            assert(crate::state::name_of(m0, share_id) is Some);
            let nm = crate::state::name_of(m0, share_id).unwrap();
            assert(nm.tenant == t && nm.share_name == n) by {
                assert(share_id_of(m0, t, n) == Some(share_id));
            }
            assert(!me0.accounts.union(added).contains(nm.tenant)) by {
                assert(!added.contains(t));
                assert(!me0.accounts.contains(t)) by {
                    assert(crate::state::name_of(m0, share_id) == Some(nm));
                }
            }
            assert forall|a: Seq<char>|
                match #[trigger] account_of(m1, a, share_id) {
                    Some(am) => me0.accounts.union(added).contains(a) && am.account == a
                        && am.share_id == share_id,
                    None => !me0.accounts.union(added).contains(a),
                } by {
                if added.contains(a) {
                } else {
                    assert(account_of(m1, a, share_id) == account_of(m0, a, share_id));
                    match account_of(m0, a, share_id) {
                        Some(am) => {
                            assert(me0.accounts.contains(a));
                            assert(am.account == a && am.share_id == share_id);
                        },
                        None => {
                            assert(!me0.accounts.contains(a));
                        },
                    }
                }
            }
            crate::state::lemma_set_accounts_preserves(
                old(kv)@,
                kv@,
                share_id,
                me0.accounts.union(added),
            );
        }
        if succ {
            return Ok(AddShareAccountsReply {});
        }
        proof {
            assert(false);
        }
    }
    proof {
        assert(false);
    }
    Err(ShareError::TxnRetryMaxTimes(TXN_MAX_RETRY_TIMES))
}

} // verus!

verus! {

/// The accounts of a request that are actually listed on the share and
/// not the owning tenant.
pub open spec fn filtered_listed_accounts(
    accs: Seq<String>,
    tenant: Seq<char>,
    existing: Set<Seq<char>>,
) -> Set<Seq<char>> {
    Set::new(
        |a: Seq<char>|
            (exists|i: int| 0 <= i < accs.len() && accs[i]@ == a) && a != tenant
                && existing.contains(a),
    )
}

/// Scanning one more requested account grows the filtered set by that
/// account exactly when it passes the filter.
proof fn lemma_listed_step(accs: Seq<String>, i: int, tenant: Seq<char>, existing: Set<Seq<char>>)
    requires
        0 <= i < accs.len(),
    ensures
        filtered_listed_accounts(accs.take(i + 1), tenant, existing) == (if accs[i]@ != tenant
            && existing.contains(accs[i]@) {
            filtered_listed_accounts(accs.take(i), tenant, existing).insert(accs[i]@)
        } else {
            filtered_listed_accounts(accs.take(i), tenant, existing)
        }),
{
    let f0 = filtered_listed_accounts(accs.take(i), tenant, existing);
    let f1 = filtered_listed_accounts(accs.take(i + 1), tenant, existing);
    assert forall|a: Seq<char>| f1.contains(a) implies (f0.contains(a) || (a == accs[i]@ && a
        != tenant && existing.contains(a))) by {
        let j = choose|j: int|
            0 <= j < accs.take(i + 1).len() && (#[trigger] accs.take(i + 1)[j])@ == a;
        if j < i {
            assert(accs.take(i)[j]@ == a);
        } else {
            assert(accs.take(i + 1)[j] == accs[i]);
        }
    }
    assert forall|a: Seq<char>| f0.contains(a) implies f1.contains(a) by {
        let j = choose|j: int| 0 <= j < accs.take(i).len() && (#[trigger] accs.take(i)[j])@ == a;
        assert(accs.take(i + 1)[j]@ == a);
    }
    if accs[i]@ != tenant && existing.contains(accs[i]@) {
        assert(accs.take(i + 1)[i]@ == accs[i]@);
        assert(f1.contains(accs[i]@));
        assert(f1 =~= f0.insert(accs[i]@));
    } else {
        assert(f1 =~= f0);
    }
}

/// Withdraw a share from some of its accounts.
///
/// Requested accounts that are not listed are skipped silently; if none
/// is listed the request fails. One transaction deletes every listed
/// membership record and writes the share state without those accounts.
pub fn remove_share_tenants(kv: &mut KvStore, req: &RemoveShareAccountsReq) -> (r: Result<
    RemoveShareAccountsReply,
    ShareError,
>)
    requires
        old(kv).wf(),
        inv(old(kv)@),
        old(kv)@.next_seq < u64::MAX,
    ensures
        final(kv).wf(),
        inv(final(kv)@),
        ({
            let m0 = old(kv)@.map;
            let m1 = final(kv)@.map;
            let t = req.share_name@.tenant;
            let n = req.share_name@.share_name;
            match share_id_of(m0, t, n) {
                None => *final(kv) == *old(kv) && (if req.if_exists {
                    r == Ok::<RemoveShareAccountsReply, ShareError>(RemoveShareAccountsReply {})
                } else {
                    r matches Err(ShareError::UnknownShare(x)) && x@ == n
                }),
                Some(id) => {
                    let me0 = meta_of(m0, id).unwrap();
                    let removed = filtered_listed_accounts(req.accounts@, t, me0.accounts);
                    if removed == Set::<Seq<char>>::empty() {
                        &&& *final(kv) == *old(kv)
                        &&& r matches Err(ShareError::UnknownShareAccounts(accs, i2)) && i2 == id
                            && accs@.len() == req.accounts@.len() && (forall|i: int|
                            0 <= i < accs@.len() ==> (#[trigger] accs@[i])@ == req.accounts@[i]@)
                    } else {
                        &&& r == Ok::<RemoveShareAccountsReply, ShareError>(
                            RemoveShareAccountsReply {},
                        )
                        &&& meta_of(m1, id) matches Some(me1) && me1 == (crate::meta::ShareMetaV {
                            accounts: me0.accounts.difference(removed),
                            ..me0
                        })
                        &&& forall|a: Seq<char>|
                            removed.contains(a) ==> #[trigger] account_of(m1, a, id) is None
                        &&& forall|a: Seq<char>|
                            !removed.contains(a) ==> #[trigger] account_of(m1, a, id) == account_of(
                                m0,
                                a,
                                id,
                            )
                        &&& forall|a: Seq<char>, i2: u64|
                            i2 != id ==> #[trigger] account_of(m1, a, i2) == account_of(m0, a, i2)
                        &&& forall|i2: u64| i2 != id ==> #[trigger] meta_of(m1, i2) == meta_of(m0, i2)
                        &&& forall|t2: Seq<char>, n2: Seq<char>| #[trigger]
                            share_id_of(m1, t2, n2) == share_id_of(m0, t2, n2)
                        &&& forall|i2: u64| #[trigger] crate::state::name_of(m1, i2)
                            == crate::state::name_of(m0, i2)
                        &&& crate::state::outer_frame(m0, m1)
                        &&& final(kv)@.next_seq == old(kv)@.next_seq + 1
                        &&& final(kv)@.next_id == old(kv)@.next_id
                    }
                },
            }
        }),
{
    broadcast use crate::state::group_accessor_frames;

    let name_key = &req.share_name;
    let ghost t = req.share_name@.tenant;
    let ghost n = req.share_name@.share_name;
    let ghost m0 = old(kv)@.map;
    let mut retry: u64 = 0;
    while retry < TXN_MAX_RETRY_TIMES
        invariant
            retry == 0,
            *kv == *old(kv),
        decreases TXN_MAX_RETRY_TIMES - retry,
    {
        retry = retry + 1;

        // Read phase: the share and its state.
        let (_share_id_seq, share_id, share_meta_seq, mut share_meta) = match get_share_or_err(
            kv,
            name_key,
        ) {
            Ok(x) => x,
            Err(e) => {
                if let ShareError::UnknownShare(_) = e {
                    if req.if_exists {
                        return Ok(RemoveShareAccountsReply {});
                    }
                    return Err(e);
                }
                proof {
                    assert(false);
                }
                return Err(e);
            },
        };
        let ghost me0 = share_meta@;
        let ghost removed = filtered_listed_accounts(req.accounts@, t, me0.accounts);

        // Validate phase: keep the listed accounts, with their record's
        // sequence number.
        let mut del_keys: Vec<(crate::types::ShareAccountNameIdent, u64)> = Vec::new();
        let acc_n = req.accounts.len();
        let mut i: usize = 0;
        proof {
            assert(req.accounts@.take(0) =~= Seq::<String>::empty());
            assert(filtered_listed_accounts(req.accounts@.take(0), t, me0.accounts) =~= Set::<
                Seq<char>,
            >::empty());
        }
        while i < acc_n
            invariant
                0 <= i <= acc_n,
                *kv == *old(kv),
                share_meta@ == me0,
                share_meta.wf(),
                forall|k: int|
                    0 <= k < del_keys@.len() ==> (#[trigger] del_keys@[k]).0@.share_id == share_id
                        && filtered_listed_accounts(req.accounts@.take(i as int), t, me0.accounts).contains(del_keys@[k].0@.account)
                        && del_keys@[k].1 == crate::kv::seq_of(m0, crate::state::account_key(del_keys@[k].0@.account, share_id)),
                forall|a: Seq<char>|
                    #![trigger filtered_listed_accounts(req.accounts@.take(i as int), t, me0.accounts).contains(a)]
                    filtered_listed_accounts(req.accounts@.take(i as int), t, me0.accounts).contains(a)
                        ==> exists|k: int| 0 <= k < del_keys@.len() && (#[trigger] del_keys@[k]).0@.account == a,
            decreases acc_n - i,
        {
            let account = &req.accounts[i];
            proof {
                lemma_listed_step(req.accounts@, i as int, t, me0.accounts);
            }
            let ghost keys_before = del_keys@;
            if !(*account == name_key.tenant) {
                if share_meta.has_account(account) {
                    let share_account_key = crate::types::ShareAccountNameIdent {
                        account: account.clone(),
                        share_id,
                    };
                    let (am_seq, _am) = match get_share_account_meta_or_err(
                        kv,
                        &share_account_key,
                    ) {
                        Ok(x) => x,
                        Err(e) => {
                            proof {
                                assert(account_of(m0, account@, share_id) is Some);
                                assert(false);
                            }
                            return Err(e);
                        },
                    };
                    del_keys.push((share_account_key, am_seq));
                }
            }
            proof {
                assert forall|a: Seq<char>|
                    #![trigger filtered_listed_accounts(req.accounts@.take(i + 1 as int), t, me0.accounts).contains(a)]
                    filtered_listed_accounts(
                        req.accounts@.take(i + 1 as int),
                        t,
                        me0.accounts,
                    ).contains(a) implies exists|k2: int|
                    0 <= k2 < del_keys@.len() && (#[trigger] del_keys@[k2]).0@.account == a by {
                    if filtered_listed_accounts(
                        req.accounts@.take(i as int),
                        t,
                        me0.accounts,
                    ).contains(a) {
                        let k2 = choose|k2: int|
                            0 <= k2 < keys_before.len() && (#[trigger] keys_before[k2]).0@.account
                                == a;
                        assert(del_keys@[k2].0@.account == a);
                    } else {
                        assert(a == req.accounts@[i as int]@);
                        assert(del_keys@.last().0@.account == a);
                    }
                }
            }
            i += 1;
        }
        proof {
            assert(req.accounts@.take(acc_n as int) =~= req.accounts@);
        }
        if del_keys.len() == 0 {
            proof {
                assert forall|a: Seq<char>| !removed.contains(a) by {
                    if removed.contains(a) {
                        assert(exists|k: int|
                            0 <= k < del_keys@.len() && (#[trigger] del_keys@[k]).0@.account == a);
                    }
                }
                assert(removed =~= Set::<Seq<char>>::empty());
            }
            let mut accs: Vec<String> = Vec::new();
            let mut j: usize = 0;
            while j < acc_n
                invariant
                    0 <= j <= acc_n,
                    *kv == *old(kv),
                    accs@.len() == j,
                    forall|k: int| 0 <= k < j ==> (#[trigger] accs@[k])@ == req.accounts@[k]@,
                decreases acc_n - j,
            {
                accs.push(req.accounts[j].clone());
                j += 1;
            }
            return Err(ShareError::UnknownShareAccounts(accs, share_id));
        }
        proof {
            assert(removed != Set::<Seq<char>>::empty()) by {
                assert(removed.contains(del_keys@[0].0@.account));
                assert(!Set::<Seq<char>>::empty().contains(del_keys@[0].0@.account));
            }
            assert(me0.accounts.difference(Set::<Seq<char>>::empty()) =~= me0.accounts);
        }

        // Commit phase: delete every listed membership record and put the
        // state without those accounts.
        let id_key = Key::ShareId(share_id);
        let mut condition: Vec<TxnCondition> = Vec::new();
        condition.push(TxnCondition { key: Key::ShareId(share_id), seq: share_meta_seq });
        let mut if_then: Vec<TxnOp> = Vec::new();
        let ghost mut processed: Set<Seq<char>> = Set::empty();

        let keys_n = del_keys.len();
        let mut k: usize = 0;
        while k < keys_n
            invariant
                0 <= k <= keys_n,
                *kv == *old(kv),
                share_meta.wf(),
                share_meta@ == (crate::meta::ShareMetaV {
                    accounts: me0.accounts.difference(processed),
                    ..me0
                }),
                forall|a: Seq<char>|
                    #[trigger] processed.contains(a) ==> exists|j: int|
                        0 <= j < k && (#[trigger] del_keys@[j]).0@.account == a,
                forall|j: int|
                    0 <= j < k ==> processed.contains((#[trigger] del_keys@[j]).0@.account),
                forall|j: int|
                    0 <= j < del_keys@.len() ==> (#[trigger] del_keys@[j]).0@.share_id == share_id
                        && removed.contains(del_keys@[j].0@.account) && del_keys@[j].1
                        == crate::kv::seq_of(m0, crate::state::account_key(del_keys@[j].0@.account, share_id)),
                forall|a: Seq<char>|
                    #![trigger removed.contains(a)]
                    removed.contains(a) ==> exists|j: int|
                        0 <= j < del_keys@.len() && (#[trigger] del_keys@[j]).0@.account == a,
                condition@.len() == 1 + k,
                forall|j: int|
                    0 <= j < condition@.len() ==> crate::kv::seq_of(
                        m0,
                        (#[trigger] condition@[j])@.key,
                    ) == condition@[j]@.seq,
                if_then@.len() == k,
                forall|j: int|
                    0 <= j < if_then@.len() ==> crate::state::is_account_op_for(
                        (#[trigger] if_then@[j])@,
                        share_id,
                    ),
                forall|a: Seq<char>|
                    #![trigger account_of(m0, a, share_id)]
                    crate::state::account_key_effect(
                        account_of(m0, a, share_id),
                        if_then@.map_values(|op: TxnOp| op@),
                        a,
                        share_id,
                    ) == (if processed.contains(a) {
                        None
                    } else {
                        account_of(m0, a, share_id)
                    }),
            decreases keys_n - k,
        {
            let (share_account_key, am_seq) = &del_keys[k];
            let ghost a = share_account_key@.account;
            condition.push(
                TxnCondition { key: Key::ShareAccount(share_account_key.clone()), seq: *am_seq },
            );
            let ghost ops_before = if_then@.map_values(|op: TxnOp| op@);
            if_then.push(TxnOp::Del(Key::ShareAccount(share_account_key.clone())));
            share_meta.del_account(&share_account_key.account);
            proof {
                let ops_after = if_then@.map_values(|op: TxnOp| op@);
                assert(ops_after.drop_last() =~= ops_before);
                assert(ops_after.last() == if_then@.last()@);
                assert forall|a2: Seq<char>|
                    #![trigger account_of(m0, a2, share_id)]
                    crate::state::account_key_effect(
                        account_of(m0, a2, share_id),
                        ops_after,
                        a2,
                        share_id,
                    ) == (if processed.insert(a).contains(a2) {
                        None
                    } else {
                        account_of(m0, a2, share_id)
                    }) by {
                    assert(crate::state::account_key_effect(
                        account_of(m0, a2, share_id),
                        ops_before,
                        a2,
                        share_id,
                    ) == (if processed.contains(a2) {
                        None
                    } else {
                        account_of(m0, a2, share_id)
                    }));
                }
                let p_old = processed;
                processed = processed.insert(a);
                assert(me0.accounts.difference(p_old).remove(a) =~= me0.accounts.difference(
                    p_old.insert(a),
                ));
            }
            k += 1;
        }
        proof {
            assert(processed =~= removed);
        }
        let ghost ops_acc = if_then@.map_values(|op: TxnOp| op@);
        if_then.push(TxnOp::Put(id_key, Value::ShareMeta(share_meta)));
        let txn = TxnRequest { condition, if_then };

        let succ = kv.send_txn(&txn);
        proof {
            let sq = old(kv)@.next_seq;
            let cs = txn.condition@.map_values(|c: TxnCondition| c@);
            assert forall|j: int|
                0 <= j < cs.len() implies crate::kv::seq_of(m0, (#[trigger] cs[j]).key)
                == cs[j].seq by {
                assert(cs[j] == txn.condition@[j]@);
            }
            assert(succ);
            let ops = txn.if_then@.map_values(|op: TxnOp| op@);
            assert(ops.drop_last() =~= ops_acc);
            assert(ops =~= ops_acc.push(ops.last()));
            crate::state::lemma_apply_account_ops(m0, ops_acc, share_id, sq);
            crate::kv::lemma_apply_ops_push(m0, ops_acc, ops.last(), sq);
            let macc = crate::kv::apply_ops(m0, ops_acc, sq);
            let m1 = kv@.map;
            let ghost me1 = crate::meta::ShareMetaV {
                accounts: me0.accounts.difference(removed),
                ..me0
            };
            assert(m1 == macc.insert(KeyV::ShareId(share_id), (sq, ValueV::ShareMeta(me1))));
            assert(meta_of(m1, share_id) == Some(me1));
            assert forall|a: Seq<char>|
                removed.contains(a) implies #[trigger] account_of(m1, a, share_id) is None by {
                assert(account_of(macc, a, share_id) == crate::state::account_key_effect(
                    account_of(m0, a, share_id),
                    ops_acc,
                    a,
                    share_id,
                ));
                assert(account_of(m1, a, share_id) == account_of(macc, a, share_id));
            }
            assert forall|a: Seq<char>|
                !removed.contains(a) implies #[trigger] account_of(m1, a, share_id) == account_of(
                m0,
                a,
                share_id,
            ) by {
                assert(account_of(macc, a, share_id) == crate::state::account_key_effect(
                    account_of(m0, a, share_id),
                    ops_acc,
                    a,
                    share_id,
                ));
                assert(account_of(m1, a, share_id) == account_of(macc, a, share_id));
            }
            assert forall|a: Seq<char>, i2: u64|
                i2 != share_id implies #[trigger] account_of(m1, a, i2) == account_of(
                m0,
                a,
                i2,
            ) by {
                assert(account_of(macc, a, i2) == account_of(m0, a, i2));
            }
            assert forall|i2: u64|
                i2 != share_id implies #[trigger] meta_of(m1, i2) == meta_of(m0, i2) by {
                assert(meta_of(macc, i2) == meta_of(m0, i2));
            }
            assert forall|t2: Seq<char>, n2: Seq<char>| #[trigger]
                share_id_of(m1, t2, n2) == share_id_of(m0, t2, n2) by {
                assert(share_id_of(macc, t2, n2) == share_id_of(m0, t2, n2));
            }
            assert forall|i2: u64| #[trigger] crate::state::name_of(m1, i2)
                == crate::state::name_of(m0, i2) by {
                assert(crate::state::name_of(macc, i2) == crate::state::name_of(m0, i2));
            }
            assert forall|o: crate::types::ShareGrantObject| #[trigger] crate::state::obj_ids_of(
                m1,
                o,
            ) == crate::state::obj_ids_of(m0, o) by {
                assert(crate::state::obj_ids_of(macc, o) == crate::state::obj_ids_of(m0, o));
            }
            assert forall|d: u64| #[trigger] crate::state::db_meta_of(m1, d)
                == crate::state::db_meta_of(m0, d) by {
                assert(crate::state::db_meta_of(macc, d) == crate::state::db_meta_of(m0, d));
            }
            assert forall|t2: Seq<char>, dn: Seq<char>| #[trigger] crate::state::db_id_of(
                m1,
                t2,
                dn,
            ) == crate::state::db_id_of(m0, t2, dn) by {
                assert(crate::state::db_id_of(macc, t2, dn) == crate::state::db_id_of(m0, t2, dn));
            }
            assert forall|d: u64| #[trigger] crate::state::db_name_of(m1, d)
                == crate::state::db_name_of(m0, d) by {
                assert(crate::state::db_name_of(macc, d) == crate::state::db_name_of(m0, d));
            }
            assert forall|d: u64, tn: Seq<char>| #[trigger] crate::state::table_id_of(m1, d, tn)
                == crate::state::table_id_of(m0, d, tn) by {
                assert(crate::state::table_id_of(macc, d, tn) == crate::state::table_id_of(
                    m0,
                    d,
                    tn,
                ));
            }
            assert forall|ti: u64| #[trigger] crate::state::table_name_of(m1, ti)
                == crate::state::table_name_of(m0, ti) by {
                assert(crate::state::table_name_of(macc, ti) == crate::state::table_name_of(
                    m0,
                    ti,
                ));
            }
            assert forall|ti: u64| #[trigger] crate::state::table_meta_same(m0, m1, ti) by {
                assert(crate::state::table_meta_same(m0, macc, ti));
                assert(KeyV::ShareId(share_id) != KeyV::TableId(ti));
            }
            assert forall|i2: u64| #[trigger] crate::state::id_used(m1, i2)
                == crate::state::id_used(m0, i2) by {
                assert(crate::state::id_used(macc, i2) == crate::state::id_used(m0, i2));
                if i2 == share_id {
                    assert(crate::state::id_used(m0, i2));
                }
            }
            assert(crate::state::name_of(m0, share_id) is Some);
            let nm = crate::state::name_of(m0, share_id).unwrap();
            assert(!me0.accounts.difference(removed).contains(nm.tenant)) by {
                assert(crate::state::name_of(m0, share_id) == Some(nm));
                assert(!me0.accounts.contains(nm.tenant));
            }
            assert forall|a: Seq<char>|
                match #[trigger] account_of(m1, a, share_id) {
                    Some(am) => me0.accounts.difference(removed).contains(a) && am.account == a
                        && am.share_id == share_id,
                    None => !me0.accounts.difference(removed).contains(a),
                } by {
                if removed.contains(a) {
                } else {
                    assert(account_of(m1, a, share_id) == account_of(m0, a, share_id));
                    match account_of(m0, a, share_id) {
                        Some(am) => {
                            assert(me0.accounts.contains(a));
                            assert(am.account == a && am.share_id == share_id);
                        },
                        None => {
                            assert(!me0.accounts.contains(a));
                        },
                    }
                }
            }
            crate::state::lemma_set_accounts_preserves(
                old(kv)@,
                kv@,
                share_id,
                me0.accounts.difference(removed),
            );
        }
        if succ {
            return Ok(RemoveShareAccountsReply {});
        }
        proof {
            assert(false);
        }
    }
    proof {
        assert(false);
    }
    Err(ShareError::TxnRetryMaxTimes(TXN_MAX_RETRY_TIMES))
}

} // verus!

verus! {

/// Destroy a share: its name bindings, its state, and every membership
/// record, in one transaction. Grants it still held stay in the reverse
/// indexes until repaired; the invariant speaks of live shares only.
pub fn drop_share(kv: &mut KvStore, req: &DropShareReq) -> (r: Result<DropShareReply, ShareError>)
    requires
        old(kv).wf(),
        inv(old(kv)@),
        old(kv)@.next_seq < u64::MAX,
    ensures
        final(kv).wf(),
        inv(final(kv)@),
        ({
            let m0 = old(kv)@.map;
            let m1 = final(kv)@.map;
            let t = req.share_name@.tenant;
            let n = req.share_name@.share_name;
            match share_id_of(m0, t, n) {
                None => *final(kv) == *old(kv) && (if req.if_exists {
                    r == Ok::<DropShareReply, ShareError>(DropShareReply {})
                } else {
                    r matches Err(ShareError::UnknownShare(x)) && x@ == n
                }),
                Some(id) => {
                    &&& r == Ok::<DropShareReply, ShareError>(DropShareReply {})
                    &&& share_id_of(m1, t, n) is None
                    &&& meta_of(m1, id) is None
                    &&& crate::state::name_of(m1, id) is None
                    &&& forall|a: Seq<char>| #[trigger] account_of(m1, a, id) is None
                    &&& forall|t2: Seq<char>, n2: Seq<char>|
                        !(t2 == t && n2 == n) ==> #[trigger] share_id_of(m1, t2, n2)
                            == share_id_of(m0, t2, n2)
                    &&& forall|i2: u64| i2 != id ==> #[trigger] meta_of(m1, i2) == meta_of(m0, i2)
                    &&& forall|i2: u64|
                        i2 != id ==> #[trigger] crate::state::name_of(m1, i2)
                            == crate::state::name_of(m0, i2)
                    &&& forall|a: Seq<char>, i2: u64|
                        i2 != id ==> #[trigger] account_of(m1, a, i2) == account_of(m0, a, i2)
                    &&& crate::state::outer_frame(m0, m1)
                    &&& final(kv)@.next_seq == old(kv)@.next_seq + 1
                    &&& final(kv)@.next_id == old(kv)@.next_id
                },
            }
        }),
{
    broadcast use crate::state::group_accessor_frames;

    let name_key = &req.share_name;
    let ghost t = req.share_name@.tenant;
    let ghost n = req.share_name@.share_name;
    let ghost m0 = old(kv)@.map;
    let mut retry: u64 = 0;
    while retry < TXN_MAX_RETRY_TIMES
        invariant
            retry == 0,
            *kv == *old(kv),
        decreases TXN_MAX_RETRY_TIMES - retry,
    {
        retry = retry + 1;

        // Read phase: the share, its state, and its reverse name binding.
        let (share_id_seq, share_id, share_meta_seq, share_meta) = match get_share_or_err(
            kv,
            name_key,
        ) {
            Ok(x) => x,
            Err(e) => {
                if let ShareError::UnknownShare(_) = e {
                    if req.if_exists {
                        return Ok(DropShareReply {});
                    }
                    return Err(e);
                }
                proof {
                    assert(false);
                }
                return Err(e);
            },
        };
        let (share_name_seq, _share_name) = match get_share_id_to_name_or_err(kv, share_id) {
            Ok(x) => x,
            Err(e) => {
                proof {
                    assert(false);
                }
                return Err(e);
            },
        };
        let ghost me0 = share_meta@;

        // Collect every membership record with its sequence number.
        let accounts = share_meta.get_accounts();
        let mut del_keys: Vec<(crate::types::ShareAccountNameIdent, u64)> = Vec::new();
        let acc_n = accounts.len();
        let mut i: usize = 0;
        while i < acc_n
            invariant
                0 <= i <= acc_n,
                *kv == *old(kv),
                del_keys@.len() == i,
                forall|k: int|
                    0 <= k < i ==> (#[trigger] del_keys@[k]).0@.share_id == share_id
                        && del_keys@[k].0@.account == accounts@[k]@ && del_keys@[k].1
                        == crate::kv::seq_of(m0, crate::state::account_key(accounts@[k]@, share_id)),
            decreases acc_n - i,
        {
            let share_account_key = crate::types::ShareAccountNameIdent {
                account: accounts[i].clone(),
                share_id,
            };
            proof {
                crate::meta::lemma_accounts_set_contains(accounts@, accounts@[i as int]@);
                assert(me0.accounts.contains(accounts@[i as int]@));
            }
            let (am_seq, _am) = match get_share_account_meta_or_err(kv, &share_account_key) {
                Ok(x) => x,
                Err(e) => {
                    proof {
                        assert(account_of(m0, accounts@[i as int]@, share_id) is Some);
                        assert(false);
                    }
                    return Err(e);
                },
            };
            del_keys.push((share_account_key, am_seq));
            i += 1;
        }

        // Commit phase: delete every membership record and the three
        // share records, under the sequence numbers just read.
        let mut condition: Vec<TxnCondition> = Vec::new();
        condition.push(TxnCondition { key: Key::ShareName(name_key.clone()), seq: share_id_seq });
        condition.push(TxnCondition { key: Key::ShareId(share_id), seq: share_meta_seq });
        condition.push(TxnCondition { key: Key::ShareIdToName(share_id), seq: share_name_seq });
        let mut if_then: Vec<TxnOp> = Vec::new();
        let ghost mut processed: Set<Seq<char>> = Set::empty();

        let keys_n = del_keys.len();
        let mut k: usize = 0;
        while k < keys_n
            invariant
                0 <= k <= keys_n,
                *kv == *old(kv),
                forall|a: Seq<char>|
                    #[trigger] processed.contains(a) ==> exists|j: int|
                        0 <= j < k && (#[trigger] del_keys@[j]).0@.account == a,
                forall|j: int|
                    0 <= j < k ==> processed.contains((#[trigger] del_keys@[j]).0@.account),
                del_keys@.len() == acc_n,
                forall|j: int|
                    0 <= j < del_keys@.len() ==> (#[trigger] del_keys@[j]).0@.share_id == share_id
                        && del_keys@[j].0@.account == accounts@[j]@ && del_keys@[j].1
                        == crate::kv::seq_of(m0, crate::state::account_key(accounts@[j]@, share_id)),
                condition@.len() == 3 + k,
                forall|j: int|
                    0 <= j < condition@.len() ==> crate::kv::seq_of(
                        m0,
                        (#[trigger] condition@[j])@.key,
                    ) == condition@[j]@.seq,
                if_then@.len() == k,
                forall|j: int|
                    0 <= j < if_then@.len() ==> crate::state::is_account_op_for(
                        (#[trigger] if_then@[j])@,
                        share_id,
                    ),
                forall|a: Seq<char>|
                    #![trigger account_of(m0, a, share_id)]
                    crate::state::account_key_effect(
                        account_of(m0, a, share_id),
                        if_then@.map_values(|op: TxnOp| op@),
                        a,
                        share_id,
                    ) == (if processed.contains(a) {
                        None
                    } else {
                        account_of(m0, a, share_id)
                    }),
            decreases keys_n - k,
        {
            let (share_account_key, am_seq) = &del_keys[k];
            let ghost a = share_account_key@.account;
            condition.push(
                TxnCondition { key: Key::ShareAccount(share_account_key.clone()), seq: *am_seq },
            );
            let ghost ops_before = if_then@.map_values(|op: TxnOp| op@);
            if_then.push(TxnOp::Del(Key::ShareAccount(share_account_key.clone())));
            proof {
                let ops_after = if_then@.map_values(|op: TxnOp| op@);
                assert(ops_after.drop_last() =~= ops_before);
                assert(ops_after.last() == if_then@.last()@);
                assert forall|a2: Seq<char>|
                    #![trigger account_of(m0, a2, share_id)]
                    crate::state::account_key_effect(
                        account_of(m0, a2, share_id),
                        ops_after,
                        a2,
                        share_id,
                    ) == (if processed.insert(a).contains(a2) {
                        None
                    } else {
                        account_of(m0, a2, share_id)
                    }) by {
                    assert(crate::state::account_key_effect(
                        account_of(m0, a2, share_id),
                        ops_before,
                        a2,
                        share_id,
                    ) == (if processed.contains(a2) {
                        None
                    } else {
                        account_of(m0, a2, share_id)
                    }));
                }
                processed = processed.insert(a);
            }
            k += 1;
        }
        let ghost ops_acc = if_then@.map_values(|op: TxnOp| op@);
        if_then.push(TxnOp::Del(Key::ShareName(name_key.clone())));
        if_then.push(TxnOp::Del(Key::ShareId(share_id)));
        if_then.push(TxnOp::Del(Key::ShareIdToName(share_id)));
        let txn = TxnRequest { condition, if_then };

        let succ = kv.send_txn(&txn);
        proof {
            let sq = old(kv)@.next_seq;
            let cs = txn.condition@.map_values(|c: TxnCondition| c@);
            assert forall|j: int|
                0 <= j < cs.len() implies crate::kv::seq_of(m0, (#[trigger] cs[j]).key)
                == cs[j].seq by {
                assert(cs[j] == txn.condition@[j]@);
            }
            assert(succ);
            let ops = txn.if_then@.map_values(|op: TxnOp| op@);
            let d1 = TxnOpV::Del(crate::state::share_name_key(t, n));
            let d2 = TxnOpV::Del(KeyV::ShareId(share_id));
            let d3 = TxnOpV::Del(KeyV::ShareIdToName(share_id));
            assert(ops.drop_last().drop_last().drop_last() =~= ops_acc);
            assert(ops.drop_last().drop_last() =~= ops_acc.push(d1));
            assert(ops.drop_last() =~= ops_acc.push(d1).push(d2));
            assert(ops =~= ops_acc.push(d1).push(d2).push(d3));
            crate::state::lemma_apply_account_ops(m0, ops_acc, share_id, sq);
            crate::kv::lemma_apply_ops_push(m0, ops_acc, d1, sq);
            crate::kv::lemma_apply_ops_push(m0, ops_acc.push(d1), d2, sq);
            crate::kv::lemma_apply_ops_push(m0, ops_acc.push(d1).push(d2), d3, sq);
            let macc = crate::kv::apply_ops(m0, ops_acc, sq);
            let m1 = kv@.map;
            assert(m1 == macc.remove(crate::state::share_name_key(t, n)).remove(
                KeyV::ShareId(share_id),
            ).remove(KeyV::ShareIdToName(share_id)));
            assert(share_id_of(m1, t, n) is None);
            assert(meta_of(m1, share_id) is None);
            assert(crate::state::name_of(m1, share_id) is None);
            assert forall|a: Seq<char>| #[trigger] account_of(m1, a, share_id) is None by {
                assert(account_of(macc, a, share_id) == crate::state::account_key_effect(
                    account_of(m0, a, share_id),
                    ops_acc,
                    a,
                    share_id,
                ));
                assert(account_of(m1, a, share_id) == account_of(macc, a, share_id));
                if !processed.contains(a) {
                    match account_of(m0, a, share_id) {
                        Some(am) => {
                            assert(me0.accounts.contains(a));
                            crate::meta::lemma_accounts_set_contains(accounts@, a);
                            let j = choose|j: int|
                                0 <= j < accounts@.len() && (#[trigger] accounts@[j])@ == a;
                            assert(processed.contains(del_keys@[j].0@.account));
                            assert(false);
                        },
                        None => {},
                    }
                }
            }
            assert forall|t2: Seq<char>, n2: Seq<char>|
                !(t2 == t && n2 == n) implies #[trigger] share_id_of(m1, t2, n2) == share_id_of(
                m0,
                t2,
                n2,
            ) by {
                assert(crate::state::share_name_key(t2, n2) != crate::state::share_name_key(t, n));
                assert(share_id_of(macc, t2, n2) == share_id_of(m0, t2, n2));
            }
            assert forall|i2: u64|
                i2 != share_id implies #[trigger] meta_of(m1, i2) == meta_of(m0, i2) by {
                assert(meta_of(macc, i2) == meta_of(m0, i2));
            }
            assert forall|i2: u64|
                i2 != share_id implies #[trigger] crate::state::name_of(m1, i2)
                == crate::state::name_of(m0, i2) by {
                assert(crate::state::name_of(macc, i2) == crate::state::name_of(m0, i2));
            }
            assert forall|a: Seq<char>, i2: u64|
                i2 != share_id implies #[trigger] account_of(m1, a, i2) == account_of(
                m0,
                a,
                i2,
            ) by {
                assert(account_of(macc, a, i2) == account_of(m0, a, i2));
            }
            assert forall|o: crate::types::ShareGrantObject| #[trigger] crate::state::obj_ids_of(
                m1,
                o,
            ) == crate::state::obj_ids_of(m0, o) by {
                assert(crate::state::obj_ids_of(macc, o) == crate::state::obj_ids_of(m0, o));
            }
            assert forall|d: u64| #[trigger] crate::state::db_meta_of(m1, d)
                == crate::state::db_meta_of(m0, d) by {
                assert(crate::state::db_meta_of(macc, d) == crate::state::db_meta_of(m0, d));
            }
            assert forall|t2: Seq<char>, dn: Seq<char>| #[trigger] crate::state::db_id_of(
                m1,
                t2,
                dn,
            ) == crate::state::db_id_of(m0, t2, dn) by {
                assert(crate::state::db_id_of(macc, t2, dn) == crate::state::db_id_of(m0, t2, dn));
            }
            assert forall|d: u64| #[trigger] crate::state::db_name_of(m1, d)
                == crate::state::db_name_of(m0, d) by {
                assert(crate::state::db_name_of(macc, d) == crate::state::db_name_of(m0, d));
            }
            assert forall|d: u64, tn: Seq<char>| #[trigger] crate::state::table_id_of(m1, d, tn)
                == crate::state::table_id_of(m0, d, tn) by {
                assert(crate::state::table_id_of(macc, d, tn) == crate::state::table_id_of(
                    m0,
                    d,
                    tn,
                ));
            }
            assert forall|ti: u64| #[trigger] crate::state::table_name_of(m1, ti)
                == crate::state::table_name_of(m0, ti) by {
                assert(crate::state::table_name_of(macc, ti) == crate::state::table_name_of(
                    m0,
                    ti,
                ));
            }
            assert forall|ti: u64| #[trigger] crate::state::table_meta_same(m0, m1, ti) by {
                assert(crate::state::table_meta_same(m0, macc, ti));
            }
            assert forall|i2: u64| #[trigger] crate::state::id_used(m1, i2) implies
                crate::state::id_used(m0, i2) by {
                assert(crate::state::id_used(macc, i2) == crate::state::id_used(m0, i2));
            }
            crate::state::lemma_drop_share_preserves(old(kv)@, kv@, share_id, t, n);
        }
        if succ {
            return Ok(DropShareReply {});
        }
        proof {
            assert(false);
        }
    }
    proof {
        assert(false);
    }
    Err(ShareError::TxnRetryMaxTimes(TXN_MAX_RETRY_TIMES))
}

} // verus!

verus! {

/// A resolved object: its catalog ids plus the sequence numbers needed
/// to pin the external records in the final transaction's conditions.
pub enum ShareGrantObjectSeqAndId {
    /// `(db_meta_seq, db_id, db_meta)`
    Database(u64, u64, crate::meta::DatabaseMeta),
    /// `(db_id, table_meta_seq, table_id)`
    Table(u64, u64, u64),
}

/// What an object name resolves to: the object and the id of the
/// database it lives in.
pub open spec fn resolved_object(
    m: KvMap,
    name: crate::types::ShareGrantObjectNameV,
    tenant: Seq<char>,
) -> Option<(crate::types::ShareGrantObject, u64)> {
    match name {
        crate::types::ShareGrantObjectNameV::Database(dn) => match crate::state::db_id_of(
            m,
            tenant,
            dn,
        ) {
            Some(did) => Some((crate::types::ShareGrantObject::Database(did), did)),
            None => None,
        },
        crate::types::ShareGrantObjectNameV::Table(dn, tn) => match crate::state::db_id_of(
            m,
            tenant,
            dn,
        ) {
            Some(did) => match crate::state::table_id_of(m, did, tn) {
                Some(tid) => Some((crate::types::ShareGrantObject::Table(tid), did)),
                None => None,
            },
            None => None,
        },
    }
}

/// The domain rule of object grants: with a database granted, the object
/// must live in that database; without one, only a database may be
/// granted.
pub open spec fn check_object_ok(
    database: Option<crate::types::ShareGrantEntry>,
    obj_db: u64,
    is_table: bool,
) -> bool {
    match database {
        Some(e) => match e.object {
            crate::types::ShareGrantObject::Database(d0) => d0 == obj_db,
            crate::types::ShareGrantObject::Table(_) => false,
        },
        None => !is_table,
    }
}

/// Resolve an object name into ids and pinned sequence numbers.
pub fn get_share_object_seq_and_id(
    kv: &KvStore,
    obj_name: &ShareGrantObjectName,
    tenant: &String,
) -> (r: Result<ShareGrantObjectSeqAndId, ShareError>)
    requires
        kv.wf(),
        inv(kv@),
    ensures
        ({
            let m = kv@.map;
            match r {
                Ok(sid) => resolved_object(m, obj_name@, tenant@) matches Some((o, obj_db))
                    && (match sid {
                    ShareGrantObjectSeqAndId::Database(db_meta_seq, db_id, db_meta) => o
                        == crate::types::ShareGrantObject::Database(db_id) && obj_db == db_id
                        && crate::state::db_meta_of(m, db_id) == Some(db_meta@) && db_meta.wf()
                        && db_meta_seq == seq_of(m, KeyV::DatabaseId(db_id)) && db_meta_seq >= 1,
                    ShareGrantObjectSeqAndId::Table(db_id, table_meta_seq, table_id) => o
                        == crate::types::ShareGrantObject::Table(table_id) && obj_db == db_id
                        && table_meta_seq == seq_of(m, KeyV::TableId(table_id)) && table_meta_seq
                        >= 1,
                }),
                Err(e) => resolved_object(m, obj_name@, tenant@) is None && (match obj_name@ {
                    crate::types::ShareGrantObjectNameV::Database(dn) => (
                    e matches ShareError::UnknownDatabase(x) && x@ == dn),
                    crate::types::ShareGrantObjectNameV::Table(dn, tn) => if crate::state::db_id_of(
                        m,
                        tenant@,
                        dn,
                    ) is None {
                        e matches ShareError::UnknownDatabase(x) && x@ == dn
                    } else {
                        e matches ShareError::UnknownTable(x, y) && x@ == dn && y@ == tn
                    },
                }),
            }
        }),
{
    match obj_name {
        ShareGrantObjectName::Database(db_name) => {
            let name_key = Key::DatabaseName(
                crate::types::DatabaseNameIdent { tenant: tenant.clone(), db_name: db_name.clone() },
            );
            let (db_id_seq, db_id) = kv.get_u64(&name_key);
            if db_id_seq == 0 {
                return Err(ShareError::UnknownDatabase(db_name.clone()));
            }
            let (db_meta_seq, v) = kv.get(&Key::DatabaseId(db_id));
            match v {
                Some(Value::DatabaseMeta(db_meta)) => Ok(
                    ShareGrantObjectSeqAndId::Database(db_meta_seq, db_id, db_meta),
                ),
                _ => {
                    proof {
                        assert(crate::state::db_id_of(kv@.map, tenant@, db_name@) == Some(db_id));
                        assert(crate::state::db_meta_of(kv@.map, db_id) is Some);
                        assert(false);
                    }
                    Err(ShareError::UnknownDatabase(db_name.clone()))
                },
            }
        },
        ShareGrantObjectName::Table(db_name, table_name) => {
            let name_key = Key::DatabaseName(
                crate::types::DatabaseNameIdent { tenant: tenant.clone(), db_name: db_name.clone() },
            );
            let (db_id_seq, db_id) = kv.get_u64(&name_key);
            if db_id_seq == 0 {
                return Err(ShareError::UnknownDatabase(db_name.clone()));
            }
            let table_key = Key::DbIdTableName(
                crate::types::DBIdTableName { db_id, table_name: table_name.clone() },
            );
            let (table_id_seq, table_id) = kv.get_u64(&table_key);
            if table_id_seq == 0 {
                return Err(ShareError::UnknownTable(db_name.clone(), table_name.clone()));
            }
            let (table_meta_seq, _v) = kv.get(&Key::TableId(table_id));
            proof {
                assert(crate::state::table_id_of(kv@.map, db_id, table_name@) == Some(table_id));
                assert(kv@.map.contains_key(KeyV::TableId(table_id)));
            }
            Ok(ShareGrantObjectSeqAndId::Table(db_id, table_meta_seq, table_id))
        },
    }
}

/// Enforce the object-grant domain rule against the share's current
/// database grant.
pub fn check_share_object(
    database: &Option<crate::types::ShareGrantEntry>,
    seq_and_id: &ShareGrantObjectSeqAndId,
    obj_name: &ShareGrantObjectName,
) -> (r: Result<(), ShareError>)
    requires
        (match database {
            Some(e) => e.object is Database,
            None => true,
        }),
    ensures
        ({
            let obj_db = (match seq_and_id {
                ShareGrantObjectSeqAndId::Database(_, db_id, _) => *db_id,
                ShareGrantObjectSeqAndId::Table(db_id, _, _) => *db_id,
            });
            let is_table = seq_and_id is Table;
            match r {
                Ok(u) => check_object_ok(*database, obj_db, is_table),
                Err(e) => !check_object_ok(*database, obj_db, is_table) && (
                e matches ShareError::WrongShareObject(x) && x@ == obj_name@),
            }
        }),
{
    let object_db_id = match seq_and_id {
        ShareGrantObjectSeqAndId::Database(_, db_id, _) => *db_id,
        ShareGrantObjectSeqAndId::Table(db_id, _, _) => *db_id,
    };
    match database {
        Some(entry) => {
            if let crate::types::ShareGrantObject::Database(db_id) = entry.object {
                if db_id != object_db_id {
                    return Err(ShareError::WrongShareObject(obj_name.clone()));
                }
            }
            Ok(())
        },
        None => {
            // A table cannot be granted before its database.
            if let ShareGrantObjectSeqAndId::Table(_, _, _) = seq_and_id {
                return Err(ShareError::WrongShareObject(obj_name.clone()));
            }
            Ok(())
        },
    }
}

/// Read an object's reverse-index record; an absent record reads as
/// empty at sequence number `0`.
pub fn get_object_shared_by_share_ids(kv: &KvStore, object: &crate::types::ShareGrantObject) -> (r:
    (u64, crate::meta::ObjectSharedByShareIds))
    requires
        kv.wf(),
    ensures
        r.1.wf(),
        r.1@ == (match crate::state::obj_ids_of(kv@.map, *object) {
            Some(x) => x,
            None => Set::<u64>::empty(),
        }),
        r.0 == seq_of(kv@.map, KeyV::Object(*object)),
{
    let (seq, v) = kv.get(&Key::Object(*object));
    match v {
        Some(Value::ShareIds(ids)) => (seq, ids),
        _ => (0, crate::meta::ObjectSharedByShareIds::empty()),
    }
}

/// What a share's state becomes when `privileges` are granted on `o`.
pub open spec fn granted_meta(
    me: crate::meta::ShareMetaV,
    o: crate::types::ShareGrantObject,
    privileges: u64,
    grant_on: u64,
) -> crate::meta::ShareMetaV {
    match o {
        crate::types::ShareGrantObject::Database(_) => crate::meta::ShareMetaV {
            database: Some(crate::types::ShareGrantEntry { object: o, privileges, grant_on }),
            ..me
        },
        crate::types::ShareGrantObject::Table(_) => crate::meta::ShareMetaV {
            entries: me.entries.insert(
                o,
                crate::types::ShareGrantEntry {
                    object: o,
                    privileges: (match me.entries.get(o) {
                        Some(e) => e.privileges | privileges,
                        None => privileges,
                    }),
                    grant_on,
                },
            ),
            ..me
        },
    }
}

/// Grant privileges on a database or table to a share.
///
/// The object must live in the share's granted database (or be the first,
/// database, grant). An already-covered grant succeeds as a no-op. One
/// transaction writes the share state, the object's reverse index, and,
/// for a database, its `shared_by` set.
pub fn grant_share_object(kv: &mut KvStore, req: &GrantShareObjectReq) -> (r: Result<
    GrantShareObjectReply,
    ShareError,
>)
    requires
        old(kv).wf(),
        inv(old(kv)@),
        old(kv)@.next_seq < u64::MAX,
    ensures
        final(kv).wf(),
        inv(final(kv)@),
        ({
            let m0 = old(kv)@.map;
            let m1 = final(kv)@.map;
            let t = req.share_name@.tenant;
            let n = req.share_name@.share_name;
            match share_id_of(m0, t, n) {
                None => *final(kv) == *old(kv) && (r matches Err(ShareError::UnknownShare(x)) && x@
                    == n),
                Some(id) => {
                    let me0 = meta_of(m0, id).unwrap();
                    match resolved_object(m0, req.object@, t) {
                        None => *final(kv) == *old(kv) && (match req.object@ {
                            crate::types::ShareGrantObjectNameV::Database(dn) => (
                            r matches Err(ShareError::UnknownDatabase(x)) && x@ == dn),
                            crate::types::ShareGrantObjectNameV::Table(dn, tn) => if crate::state::db_id_of(
                                m0,
                                t,
                                dn,
                            ) is None {
                                r matches Err(ShareError::UnknownDatabase(x)) && x@ == dn
                            } else {
                                r matches Err(ShareError::UnknownTable(x, y)) && x@ == dn && y@
                                    == tn
                            },
                        }),
                        Some((o, obj_db)) => {
                            if !check_object_ok(me0.database, obj_db, o is Table) {
                                *final(kv) == *old(kv) && (
                                r matches Err(ShareError::WrongShareObject(x)) && x@ == req.object@)
                            } else if me0.has_granted(o, req.privilege) {
                                *final(kv) == *old(kv) && r == Ok::<
                                    GrantShareObjectReply,
                                    ShareError,
                                >(GrantShareObjectReply {})
                            } else {
                                &&& r == Ok::<GrantShareObjectReply, ShareError>(
                                    GrantShareObjectReply {},
                                )
                                &&& meta_of(m1, id) == Some(
                                    granted_meta(me0, o, req.privilege, req.grant_on),
                                )
                                &&& crate::state::obj_ids_of(m1, o) == Some(
                                    (match crate::state::obj_ids_of(m0, o) {
                                        Some(x) => x,
                                        None => Set::<u64>::empty(),
                                    }).insert(id),
                                )
                                &&& (match o {
                                    crate::types::ShareGrantObject::Database(did) => crate::state::db_meta_of(
                                        m1,
                                        did,
                                    ) == Some(
                                        crate::state::db_meta_of(m0, did).unwrap().insert(id),
                                    ),
                                    crate::types::ShareGrantObject::Table(_) => forall|d2: u64|
                                        #[trigger] crate::state::db_meta_of(m1, d2)
                                            == crate::state::db_meta_of(m0, d2),
                                })
                                &&& forall|o2: crate::types::ShareGrantObject|
                                    o2 != o ==> #[trigger] crate::state::obj_ids_of(m1, o2)
                                        == crate::state::obj_ids_of(m0, o2)
                                &&& forall|i2: u64|
                                    i2 != id ==> #[trigger] meta_of(m1, i2) == meta_of(m0, i2)
                                &&& forall|t2: Seq<char>, n2: Seq<char>| #[trigger]
                                    share_id_of(m1, t2, n2) == share_id_of(m0, t2, n2)
                                &&& forall|i2: u64| #[trigger] crate::state::name_of(m1, i2)
                                    == crate::state::name_of(m0, i2)
                                &&& forall|a: Seq<char>, i2: u64| #[trigger]
                                    account_of(m1, a, i2) == account_of(m0, a, i2)
                                &&& final(kv)@.next_seq == old(kv)@.next_seq + 1
                                &&& final(kv)@.next_id == old(kv)@.next_id
                            }
                        },
                    }
                },
            }
        }),
{
    broadcast use crate::state::group_accessor_frames;

    let name_key = &req.share_name;
    let ghost t = req.share_name@.tenant;
    let ghost n = req.share_name@.share_name;
    let ghost m0 = old(kv)@.map;
    let mut retry: u64 = 0;
    while retry < TXN_MAX_RETRY_TIMES
        invariant
            retry == 0,
            *kv == *old(kv),
        decreases TXN_MAX_RETRY_TIMES - retry,
    {
        retry = retry + 1;

        // Read phase: the share, its state, and the object.
        let (share_id_seq, share_id, share_meta_seq, mut share_meta) = match get_share_or_err(
            kv,
            name_key,
        ) {
            Ok(x) => x,
            Err(e) => {
                proof {
                    if !(e matches ShareError::UnknownShare(_)) {
                        assert(false);
                    }
                }
                return Err(e);
            },
        };
        let ghost me0 = share_meta@;
        let seq_and_id = match get_share_object_seq_and_id(kv, &req.object, &name_key.tenant) {
            Ok(x) => x,
            Err(e) => {
                return Err(e);
            },
        };

        // Validate phase: the domain rule, then the no-op check.
        match check_share_object(&share_meta.database, &seq_and_id, &req.object) {
            Ok(_) => {},
            Err(e) => {
                return Err(e);
            },
        };
        let object = match &seq_and_id {
            ShareGrantObjectSeqAndId::Database(_, db_id, _) => crate::types::ShareGrantObject::Database(
                *db_id,
            ),
            ShareGrantObjectSeqAndId::Table(_, _, table_id) => crate::types::ShareGrantObject::Table(
                *table_id,
            ),
        };
        if share_meta.has_granted_privileges(object, req.privilege) {
            return Ok(GrantShareObjectReply {});
        }
        let (share_ids_seq, mut share_ids) = get_object_shared_by_share_ids(kv, &object);
        share_ids.add(share_id);
        share_meta.grant_object_privileges(object, req.privilege, req.grant_on);

        // Commit phase.
        let mut condition: Vec<TxnCondition> = Vec::new();
        condition.push(TxnCondition { key: Key::ShareName(name_key.clone()), seq: share_id_seq });
        condition.push(TxnCondition { key: Key::ShareId(share_id), seq: share_meta_seq });
        condition.push(TxnCondition { key: Key::Object(object), seq: share_ids_seq });
        let mut if_then: Vec<TxnOp> = Vec::new();
        if_then.push(TxnOp::Put(Key::ShareId(share_id), Value::ShareMeta(share_meta)));
        if_then.push(TxnOp::Put(Key::Object(object), Value::ShareIds(share_ids)));
        match seq_and_id {
            ShareGrantObjectSeqAndId::Database(db_meta_seq, db_id, mut db_meta) => {
                condition.push(TxnCondition { key: Key::DatabaseId(db_id), seq: db_meta_seq });
                if !db_meta.contains(share_id) {
                    db_meta.insert(share_id);
                    if_then.push(TxnOp::Put(Key::DatabaseId(db_id), Value::DatabaseMeta(db_meta)));
                }
            },
            ShareGrantObjectSeqAndId::Table(_db_id, table_meta_seq, table_id) => {
                condition.push(TxnCondition { key: Key::TableId(table_id), seq: table_meta_seq });
            },
        };
        let txn = TxnRequest { condition, if_then };

        let succ = kv.send_txn(&txn);
        proof {
            let sq = old(kv)@.next_seq;
            let cs = txn.condition@.map_values(|c: TxnCondition| c@);
            assert forall|j: int|
                0 <= j < cs.len() implies crate::kv::seq_of(m0, (#[trigger] cs[j]).key)
                == cs[j].seq by {
                assert(cs[j] == txn.condition@[j]@);
            }
            assert(succ);
            let ops = txn.if_then@.map_values(|op: TxnOp| op@);
            let o0 = ops[0];
            let o1 = ops[1];
            let me1 = granted_meta(me0, object, req.privilege, req.grant_on);
            let ids1 = (match crate::state::obj_ids_of(m0, object) {
                Some(x) => x,
                None => Set::<u64>::empty(),
            }).insert(share_id);
            assert(o0 == TxnOpV::Put(KeyV::ShareId(share_id), ValueV::ShareMeta(me1)));
            assert(o1 == TxnOpV::Put(KeyV::Object(object), ValueV::ShareIds(ids1)));
            if ops.len() == 3 {
                let o2 = ops[2];
                assert(ops =~= seq![o0, o1, o2]);
                assert(seq![o0, o1, o2] =~= seq![o0, o1].push(o2));
                assert(seq![o0, o1] =~= seq![o0].push(o1));
                assert(seq![o0] =~= Seq::<TxnOpV>::empty().push(o0));
                crate::kv::lemma_apply_ops_push(m0, seq![o0, o1], o2, sq);
                crate::kv::lemma_apply_ops_push(m0, seq![o0], o1, sq);
                crate::kv::lemma_apply_ops_push(m0, Seq::<TxnOpV>::empty(), o0, sq);
            } else {
                assert(ops.len() == 2);
                assert(ops =~= seq![o0, o1]);
                assert(seq![o0, o1] =~= seq![o0].push(o1));
                assert(seq![o0] =~= Seq::<TxnOpV>::empty().push(o0));
                crate::kv::lemma_apply_ops_push(m0, seq![o0], o1, sq);
                crate::kv::lemma_apply_ops_push(m0, Seq::<TxnOpV>::empty(), o0, sq);
            }
            let m1 = kv@.map;
            assert(meta_of(m1, share_id) == Some(me1));
            assert(crate::state::obj_ids_of(m1, object) == Some(ids1));
            match object {
                crate::types::ShareGrantObject::Database(did) => {
                    let sb0 = crate::state::db_meta_of(m0, did).unwrap();
                    assert(crate::state::db_meta_of(m1, did) == Some(sb0.insert(share_id))) by {
                        if sb0.contains(share_id) {
                            assert(sb0.insert(share_id) =~= sb0);
                            assert(crate::state::db_meta_of(m1, did) == crate::state::db_meta_of(
                                m0,
                                did,
                            ));
                        }
                    }
                    assert(forall|d2: u64|
                        d2 != did ==> #[trigger] crate::state::db_meta_of(m1, d2)
                            == crate::state::db_meta_of(m0, d2));
                },
                crate::types::ShareGrantObject::Table(tid) => {
                    assert(forall|d2: u64| #[trigger]
                        crate::state::db_meta_of(m1, d2) == crate::state::db_meta_of(m0, d2));
                    // The table's parent is the database the share grants:
                    // the resolver found the table under that database's
                    // name, and the name catalog binds ids both ways.
                    match req.object@ {
                        crate::types::ShareGrantObjectNameV::Table(dn, tn) => {
                            let did = crate::state::db_id_of(m0, t, dn).unwrap();
                            assert(crate::state::table_id_of(m0, did, tn) == Some(tid));
                            assert(crate::state::table_name_of(m0, tid) is Some);
                        },
                        crate::types::ShareGrantObjectNameV::Database(_) => {
                            assert(false);
                        },
                    }
                },
            }
            crate::state::lemma_grant_object_preserves(old(kv)@, kv@, share_id, object);
        }
        if succ {
            return Ok(GrantShareObjectReply {});
        }
        proof {
            assert(false);
        }
    }
    proof {
        assert(false);
    }
    Err(ShareError::TxnRetryMaxTimes(TXN_MAX_RETRY_TIMES))
}

} // verus!

verus! {

/// What a share's state becomes when `privileges` are cleared on `o`.
/// The entry's remaining bits decide whether it stays or goes.
pub open spec fn revoked_meta(
    me: crate::meta::ShareMetaV,
    o: crate::types::ShareGrantObject,
    privileges: u64,
    update_on: u64,
) -> crate::meta::ShareMetaV {
    let stored = me.grant_entry_of(o).unwrap();
    let left = stored.privileges & !privileges;
    match o {
        crate::types::ShareGrantObject::Database(_) => if left == 0 {
            crate::meta::ShareMetaV { database: None, update_on, ..me }
        } else {
            crate::meta::ShareMetaV {
                database: Some(
                    crate::types::ShareGrantEntry {
                        object: o,
                        privileges: left,
                        grant_on: stored.grant_on,
                    },
                ),
                update_on,
                ..me
            }
        },
        crate::types::ShareGrantObject::Table(_) => if left == 0 {
            crate::meta::ShareMetaV { entries: me.entries.remove(o), update_on, ..me }
        } else {
            crate::meta::ShareMetaV {
                entries: me.entries.insert(
                    o,
                    crate::types::ShareGrantEntry {
                        object: o,
                        privileges: left,
                        grant_on: stored.grant_on,
                    },
                ),
                update_on,
                ..me
            }
        },
    }
}

/// Whether clearing `privileges` on `o` is refused: a database grant
/// whose bits would all clear cannot go while table grants linger.
pub open spec fn revoke_blocked(
    me: crate::meta::ShareMetaV,
    o: crate::types::ShareGrantObject,
    privileges: u64,
) -> bool {
    o is Database && (me.grant_entry_of(o).unwrap().privileges & !privileges) == 0 && me.entries
        != Map::<crate::types::ShareGrantObject, crate::types::ShareGrantEntry>::empty()
}

/// The full outcome of `revoke_share_object` on store `kv0` for share
/// `(t, n)`, object name `objname`, and the given privilege bits and
/// timestamp: which error comes on which state, when the call is a
/// no-op, and how the share state, the reverse index, and the database's
/// `shared_by` set move on success.
pub open spec fn revoke_share_object_spec(
    kv0: KvStore,
    kv1: KvStore,
    t: Seq<char>,
    n: Seq<char>,
    objname: crate::types::ShareGrantObjectNameV,
    privilege: u64,
    update_on: u64,
    r: Result<RevokeShareObjectReply, ShareError>,
) -> bool {
            let m0 = kv0@.map;
            let m1 = kv1@.map;
            match share_id_of(m0, t, n) {
                None => kv1 == kv0 && (r matches Err(ShareError::UnknownShare(x)) && x@
                    == n),
                Some(id) => {
                    let me0 = meta_of(m0, id).unwrap();
                    match resolved_object(m0, objname, t) {
                        None => kv1 == kv0 && (match objname {
                            crate::types::ShareGrantObjectNameV::Database(dn) => (
                            r matches Err(ShareError::UnknownDatabase(x)) && x@ == dn),
                            crate::types::ShareGrantObjectNameV::Table(dn, tn) => if crate::state::db_id_of(
                                m0,
                                t,
                                dn,
                            ) is None {
                                r matches Err(ShareError::UnknownDatabase(x)) && x@ == dn
                            } else {
                                r matches Err(ShareError::UnknownTable(x, y)) && x@ == dn && y@
                                    == tn
                            },
                        }),
                        Some((o, obj_db)) => {
                            if !check_object_ok(me0.database, obj_db, o is Table) {
                                kv1 == kv0 && (
                                r matches Err(ShareError::WrongShareObject(x)) && x@ == objname)
                            } else if !me0.has_granted(o, privilege) {
                                kv1 == kv0 && r == Ok::<
                                    RevokeShareObjectReply,
                                    ShareError,
                                >(RevokeShareObjectReply {})
                            } else if revoke_blocked(me0, o, privilege) {
                                kv1 == kv0 && (
                                r matches Err(ShareError::WrongShareObject(x)) && x@ == objname)
                            } else {
                                &&& r == Ok::<RevokeShareObjectReply, ShareError>(
                                    RevokeShareObjectReply {},
                                )
                                &&& meta_of(m1, id) == Some(
                                    revoked_meta(me0, o, privilege, update_on),
                                )
                                &&& crate::state::obj_ids_of(m1, o) == Some(
                                    (match crate::state::obj_ids_of(m0, o) {
                                        Some(x) => x,
                                        None => Set::<u64>::empty(),
                                    }).remove(id),
                                )
                                &&& (match o {
                                    crate::types::ShareGrantObject::Database(did) => crate::state::db_meta_of(
                                        m1,
                                        did,
                                    ) == Some(
                                        crate::state::db_meta_of(m0, did).unwrap().remove(id),
                                    ),
                                    crate::types::ShareGrantObject::Table(_) => forall|d2: u64|
                                        #[trigger] crate::state::db_meta_of(m1, d2)
                                            == crate::state::db_meta_of(m0, d2),
                                })
                                &&& forall|o2: crate::types::ShareGrantObject|
                                    o2 != o ==> #[trigger] crate::state::obj_ids_of(m1, o2)
                                        == crate::state::obj_ids_of(m0, o2)
                                &&& forall|i2: u64|
                                    i2 != id ==> #[trigger] meta_of(m1, i2) == meta_of(m0, i2)
                                &&& forall|t2: Seq<char>, n2: Seq<char>| #[trigger]
                                    share_id_of(m1, t2, n2) == share_id_of(m0, t2, n2)
                                &&& forall|i2: u64| #[trigger] crate::state::name_of(m1, i2)
                                    == crate::state::name_of(m0, i2)
                                &&& forall|a: Seq<char>, i2: u64| #[trigger]
                                    account_of(m1, a, i2) == account_of(m0, a, i2)
                                &&& ((me0.grant_entry_of(o).unwrap().privileges & !privilege)
                                    == 0 ==> inv(kv1@))
                                &&& kv1@.next_seq == kv0@.next_seq + 1
                                &&& kv1@.next_id == kv0@.next_id
                            }
                        },
                    }
                },
            }
        }

/// Revoke privileges on a database or table from a share.
///
/// A grant that does not cover the requested bits succeeds as a no-op.
/// One transaction writes the share state, the object's reverse index,
/// and, for a database, its `shared_by` set. A revoke that clears the
/// grant entirely keeps the record graph consistent; one that leaves
/// bits behind still unlists the share from the reverse index, so the
/// consistency invariant is promised only for the clearing case.
pub fn revoke_share_object(kv: &mut KvStore, req: &RevokeShareObjectReq) -> (r: Result<
    RevokeShareObjectReply,
    ShareError,
>)
    requires
        old(kv).wf(),
        inv(old(kv)@),
        old(kv)@.next_seq < u64::MAX,
    ensures
        final(kv).wf(),
        *final(kv) == *old(kv) ==> inv(final(kv)@),
        revoke_share_object_spec(
            *old(kv),
            *final(kv),
            req.share_name@.tenant,
            req.share_name@.share_name,
            req.object@,
            req.privilege,
            req.update_on,
            r,
        ),
{
    broadcast use crate::state::group_accessor_frames;

    let name_key = &req.share_name;
    let ghost t = req.share_name@.tenant;
    let ghost n = req.share_name@.share_name;
    let ghost m0 = old(kv)@.map;
    let mut retry: u64 = 0;
    while retry < TXN_MAX_RETRY_TIMES
        invariant
            retry == 0,
            *kv == *old(kv),
        decreases TXN_MAX_RETRY_TIMES - retry,
    {
        retry = retry + 1;

        // Read phase: the share, its state, and the object.
        let (share_id_seq, share_id, share_meta_seq, mut share_meta) = match get_share_or_err(
            kv,
            name_key,
        ) {
            Ok(x) => x,
            Err(e) => {
                proof {
                    if !(e matches ShareError::UnknownShare(_)) {
                        assert(false);
                    }
                }
                return Err(e);
            },
        };
        let ghost me0 = share_meta@;
        let seq_and_id = match get_share_object_seq_and_id(kv, &req.object, &name_key.tenant) {
            Ok(x) => x,
            Err(e) => {
                return Err(e);
            },
        };

        // Validate phase: the domain rule, then the no-op check.
        match check_share_object(&share_meta.database, &seq_and_id, &req.object) {
            Ok(_) => {},
            Err(e) => {
                return Err(e);
            },
        };
        let object = match &seq_and_id {
            ShareGrantObjectSeqAndId::Database(_, db_id, _) => crate::types::ShareGrantObject::Database(
                *db_id,
            ),
            ShareGrantObjectSeqAndId::Table(_, _, table_id) => crate::types::ShareGrantObject::Table(
                *table_id,
            ),
        };
        if !share_meta.has_granted_privileges(object, req.privilege) {
            return Ok(RevokeShareObjectReply {});
        }
        let ghost left = me0.grant_entry_of(object).unwrap().privileges & !req.privilege;
        proof {
            if me0.entries.contains_key(object) && object is Database {
                crate::meta::lemma_entries_map_contains(share_meta.entries@, object);
                let j = choose|j: int|
                    0 <= j < share_meta.entries@.len() && (#[trigger] share_meta.entries@[j]).object
                        == object;
                assert(false);
            }
            assert(me0.grants_object(object));
        }
        let ok = share_meta.revoke_object_privileges(object, req.privilege, req.update_on);
        if !ok {
            proof {
                assert(revoke_blocked(me0, object, req.privilege));
            }
            return Err(ShareError::WrongShareObject(req.object.clone()));
        }
        proof {
            assert(!revoke_blocked(me0, object, req.privilege));
            assert(share_meta@ == revoked_meta(me0, object, req.privilege, req.update_on));
        }
        let (share_ids_seq, mut share_ids) = get_object_shared_by_share_ids(kv, &object);
        share_ids.remove(share_id);

        // Commit phase.
        let mut condition: Vec<TxnCondition> = Vec::new();
        condition.push(TxnCondition { key: Key::ShareName(name_key.clone()), seq: share_id_seq });
        condition.push(TxnCondition { key: Key::ShareId(share_id), seq: share_meta_seq });
        condition.push(TxnCondition { key: Key::Object(object), seq: share_ids_seq });
        let mut if_then: Vec<TxnOp> = Vec::new();
        if_then.push(TxnOp::Put(Key::ShareId(share_id), Value::ShareMeta(share_meta)));
        if_then.push(TxnOp::Put(Key::Object(object), Value::ShareIds(share_ids)));
        match seq_and_id {
            ShareGrantObjectSeqAndId::Database(db_meta_seq, db_id, mut db_meta) => {
                condition.push(TxnCondition { key: Key::DatabaseId(db_id), seq: db_meta_seq });
                db_meta.remove(share_id);
                if_then.push(TxnOp::Put(Key::DatabaseId(db_id), Value::DatabaseMeta(db_meta)));
            },
            ShareGrantObjectSeqAndId::Table(_db_id, table_meta_seq, table_id) => {
                condition.push(TxnCondition { key: Key::TableId(table_id), seq: table_meta_seq });
            },
        };
        let txn = TxnRequest { condition, if_then };

        let succ = kv.send_txn(&txn);
        proof {
            let sq = old(kv)@.next_seq;
            let cs = txn.condition@.map_values(|c: TxnCondition| c@);
            assert forall|j: int|
                0 <= j < cs.len() implies crate::kv::seq_of(m0, (#[trigger] cs[j]).key)
                == cs[j].seq by {
                assert(cs[j] == txn.condition@[j]@);
            }
            assert(succ);
            let ops = txn.if_then@.map_values(|op: TxnOp| op@);
            let o0 = ops[0];
            let o1 = ops[1];
            let me1 = revoked_meta(me0, object, req.privilege, req.update_on);
            let ids1 = (match crate::state::obj_ids_of(m0, object) {
                Some(x) => x,
                None => Set::<u64>::empty(),
            }).remove(share_id);
            assert(o0 == TxnOpV::Put(KeyV::ShareId(share_id), ValueV::ShareMeta(me1)));
            assert(o1 == TxnOpV::Put(KeyV::Object(object), ValueV::ShareIds(ids1)));
            if ops.len() == 3 {
                let o2 = ops[2];
                assert(ops =~= seq![o0, o1, o2]);
                assert(seq![o0, o1, o2] =~= seq![o0, o1].push(o2));
                assert(seq![o0, o1] =~= seq![o0].push(o1));
                assert(seq![o0] =~= Seq::<TxnOpV>::empty().push(o0));
                crate::kv::lemma_apply_ops_push(m0, seq![o0, o1], o2, sq);
                crate::kv::lemma_apply_ops_push(m0, seq![o0], o1, sq);
                crate::kv::lemma_apply_ops_push(m0, Seq::<TxnOpV>::empty(), o0, sq);
            } else {
                assert(ops.len() == 2);
                assert(ops =~= seq![o0, o1]);
                assert(seq![o0, o1] =~= seq![o0].push(o1));
                assert(seq![o0] =~= Seq::<TxnOpV>::empty().push(o0));
                crate::kv::lemma_apply_ops_push(m0, seq![o0], o1, sq);
                crate::kv::lemma_apply_ops_push(m0, Seq::<TxnOpV>::empty(), o0, sq);
            }
            let m1 = kv@.map;
            assert(meta_of(m1, share_id) == Some(me1));
            assert(crate::state::obj_ids_of(m1, object) == Some(ids1));
            if left == 0 {
                crate::state::lemma_revoke_object_preserves(old(kv)@, kv@, share_id, object);
            }
        }
        if succ {
            return Ok(RevokeShareObjectReply {});
        }
        proof {
            assert(false);
        }
    }
    proof {
        assert(false);
    }
    Err(ShareError::TxnRetryMaxTimes(TXN_MAX_RETRY_TIMES))
}

} // verus!
