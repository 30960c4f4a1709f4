//! The catalog's global consistency laws, stated on their own. Each is a
//! projection of the invariant `inv` that every mutating operation
//! requires and re-establishes, so it holds of every state those
//! operations can reach from an empty store.

use vstd::prelude::*;

use crate::kv::KvStateV;
use crate::state::account_of;
use crate::state::db_grant_of;
use crate::state::entry_grant;
use crate::state::grants;
use crate::state::in_db_shared_by;
use crate::state::in_obj_index;
use crate::state::inv;
use crate::state::meta_of;
use crate::state::name_of;
use crate::state::share_id_of;
use crate::state::table_parent;
use crate::types::ShareGrantObject;
use crate::types::ShareNameIdentV;

verus! {

/// Forward and reverse name mappings agree: a name resolves to an id
/// exactly when that id resolves back to the same name, and the share's
/// state record exists exactly as long as both do.
pub proof fn lemma_name_round_trip(s: KvStateV)
    requires
        inv(s),
    ensures
        forall|t: Seq<char>, n: Seq<char>|
            match #[trigger] share_id_of(s.map, t, n) {
                Some(id) => name_of(s.map, id) == Some(
                    ShareNameIdentV { tenant: t, share_name: n },
                ) && meta_of(s.map, id) is Some,
                None => true,
            },
        forall|id: u64|
            match #[trigger] name_of(s.map, id) {
                Some(nm) => share_id_of(s.map, nm.tenant, nm.share_name) == Some(id) && meta_of(
                    s.map,
                    id,
                ) is Some,
                None => true,
            },
{
}

/// Account symmetry: the accounts listed in a share's state are exactly
/// the `(account, share_id)` membership records, and each record repeats
/// its key. The owning tenant is never among them.
pub proof fn lemma_account_symmetry(s: KvStateV)
    requires
        inv(s),
    ensures
        forall|a: Seq<char>, id: u64|
            (match meta_of(s.map, id) {
                Some(me) => me.accounts.contains(a),
                None => false,
            }) <==> (match #[trigger] account_of(s.map, a, id) {
                Some(am) => am.account == a && am.share_id == id,
                None => false,
            }),
        forall|id: u64|
            match (#[trigger] name_of(s.map, id), meta_of(s.map, id)) {
                (Some(nm), Some(me)) => !me.accounts.contains(nm.tenant),
                _ => true,
            },
{
    assert forall|a: Seq<char>, id: u64|
        (match meta_of(s.map, id) {
            Some(me) => me.accounts.contains(a),
            None => false,
        }) <==> (match #[trigger] account_of(s.map, a, id) {
            Some(am) => am.account == a && am.share_id == id,
            None => false,
        }) by {
        if (match meta_of(s.map, id) {
            Some(me) => me.accounts.contains(a),
            None => false,
        }) {
            assert(account_of(s.map, a, id) is Some);
        }
    }
}

/// Reverse index: every grant a share's state holds stands in the
/// object's reverse index; conversely, a reverse-index member that is a
/// live share holds the grant. (A dropped share may leave a dangling id
/// in the index; hence the converse speaks of live shares.)
pub proof fn lemma_reverse_index(s: KvStateV)
    requires
        inv(s),
    ensures
        forall|id: u64, o: ShareGrantObject| #[trigger]
            grants(s.map, id, o) ==> in_obj_index(s.map, id, o),
        forall|id: u64, o: ShareGrantObject|
            (#[trigger] in_obj_index(s.map, id, o) && meta_of(s.map, id) is Some) ==> grants(
                s.map,
                id,
                o,
            ),
{
}

/// Database before table: a table grant exists only while the share
/// grants the table's own database.
pub proof fn lemma_db_before_table(s: KvStateV)
    requires
        inv(s),
    ensures
        forall|id: u64, tid: u64|
            #[trigger] entry_grant(s.map, id, ShareGrantObject::Table(tid)) ==> (match db_grant_of(
                s.map,
                id,
            ) {
                Some(did) => table_parent(s.map, tid) == Some(did),
                None => false,
            }),
{
}

/// The `shared_by` mirror: a share granting a database stands in that
/// database's `shared_by` set, and a live member of a `shared_by` set
/// grants that database.
pub proof fn lemma_shared_by_mirror(s: KvStateV)
    requires
        inv(s),
    ensures
        forall|id: u64|
            match #[trigger] db_grant_of(s.map, id) {
                Some(did) => in_db_shared_by(s.map, id, did),
                None => true,
            },
        forall|id: u64, did: u64|
            (#[trigger] in_db_shared_by(s.map, id, did) && meta_of(s.map, id) is Some)
                ==> db_grant_of(s.map, id) == Some(did),
{
}

/// An empty store satisfies the invariant: the laws hold of every state
/// the verified operations can reach from it.
pub proof fn lemma_empty_store_inv(s: KvStateV)
    requires
        s.map == Map::<crate::kv::KeyV, (u64, crate::kv::ValueV)>::empty(),
        s.next_id >= 1,
    ensures
        inv(s),
{
    assert(inv(s)) by {
        assert forall|id: u64| !#[trigger] crate::state::id_used(s.map, id) by {}
    }
}

} // verus!
