//! The mathematical state of the catalog: typed accessors over the
//! store's map view, and the consistency invariant that every committed
//! transaction preserves.

use vstd::prelude::*;

use crate::kv::KeyV;
use crate::kv::KvStateV;
use crate::kv::TxnOpV;
use crate::kv::ValueV;
use crate::meta::ShareAccountMetaV;
use crate::meta::ShareMetaV;
use crate::types::ShareGrantEntry;
use crate::types::DBIdTableNameV;
use crate::types::DatabaseNameIdentV;
use crate::types::ShareAccountNameIdentV;
use crate::types::ShareGrantObject;
use crate::types::ShareNameIdentV;

verus! {

/// The map a store presents: key -> (sequence number, value).
pub type KvMap = Map<KeyV, (u64, ValueV)>;

/// The id a share name resolves to, if the name is bound.
pub open spec fn share_id_of(m: KvMap, t: Seq<char>, n: Seq<char>) -> Option<u64> {
    let k = KeyV::ShareName(ShareNameIdentV { tenant: t, share_name: n });
    if m.contains_key(k) {
        match m[k].1 {
            ValueV::Id(x) => Some(x),
            _ => None,
        }
    } else {
        None
    }
}

/// The share state stored under a share id, if any.
pub open spec fn meta_of(m: KvMap, id: u64) -> Option<ShareMetaV> {
    let k = KeyV::ShareId(id);
    if m.contains_key(k) {
        match m[k].1 {
            ValueV::ShareMeta(x) => Some(x),
            _ => None,
        }
    } else {
        None
    }
}

/// The name a share id resolves back to, if any.
pub open spec fn name_of(m: KvMap, id: u64) -> Option<ShareNameIdentV> {
    let k = KeyV::ShareIdToName(id);
    if m.contains_key(k) {
        match m[k].1 {
            ValueV::ShareName(x) => Some(x),
            _ => None,
        }
    } else {
        None
    }
}

/// The membership record of `(account, share id)`, if any.
pub open spec fn account_of(m: KvMap, a: Seq<char>, id: u64) -> Option<ShareAccountMetaV> {
    let k = KeyV::ShareAccount(ShareAccountNameIdentV { account: a, share_id: id });
    if m.contains_key(k) {
        match m[k].1 {
            ValueV::ShareAccountMeta(x) => Some(x),
            _ => None,
        }
    } else {
        None
    }
}

/// The reverse-index record of an object: the share ids that reference
/// it, if the record exists.
pub open spec fn obj_ids_of(m: KvMap, o: ShareGrantObject) -> Option<Set<u64>> {
    let k = KeyV::Object(o);
    if m.contains_key(k) {
        match m[k].1 {
            ValueV::ShareIds(x) => Some(x),
            _ => None,
        }
    } else {
        None
    }
}

/// The `shared_by` set of a database's metadata, if the database exists.
pub open spec fn db_meta_of(m: KvMap, did: u64) -> Option<Set<u64>> {
    let k = KeyV::DatabaseId(did);
    if m.contains_key(k) {
        match m[k].1 {
            ValueV::DatabaseMeta(x) => Some(x),
            _ => None,
        }
    } else {
        None
    }
}

/// The id a database name resolves to, if bound.
pub open spec fn db_id_of(m: KvMap, t: Seq<char>, dn: Seq<char>) -> Option<u64> {
    let k = KeyV::DatabaseName(DatabaseNameIdentV { tenant: t, db_name: dn });
    if m.contains_key(k) {
        match m[k].1 {
            ValueV::Id(x) => Some(x),
            _ => None,
        }
    } else {
        None
    }
}

/// The name a database id resolves back to, if any.
pub open spec fn db_name_of(m: KvMap, did: u64) -> Option<DatabaseNameIdentV> {
    let k = KeyV::DatabaseIdToName(did);
    if m.contains_key(k) {
        match m[k].1 {
            ValueV::DatabaseName(x) => Some(x),
            _ => None,
        }
    } else {
        None
    }
}

/// The id a table name (inside database `did`) resolves to, if bound.
pub open spec fn table_id_of(m: KvMap, did: u64, tn: Seq<char>) -> Option<u64> {
    let k = KeyV::DbIdTableName(DBIdTableNameV { db_id: did, table_name: tn });
    if m.contains_key(k) {
        match m[k].1 {
            ValueV::Id(x) => Some(x),
            _ => None,
        }
    } else {
        None
    }
}

/// The name a table id resolves back to, if any.
pub open spec fn table_name_of(m: KvMap, tid: u64) -> Option<DBIdTableNameV> {
    let k = KeyV::TableIdToName(tid);
    if m.contains_key(k) {
        match m[k].1 {
            ValueV::TableName(x) => Some(x),
            _ => None,
        }
    } else {
        None
    }
}

/// The id of the database a table belongs to, if the table resolves.
pub open spec fn table_parent(m: KvMap, tid: u64) -> Option<u64> {
    match table_name_of(m, tid) {
        Some(dtn) => Some(dtn.db_id),
        None => None,
    }
}

/// Whether the share `id` currently grants something on `o`.
pub open spec fn grants(m: KvMap, id: u64, o: ShareGrantObject) -> bool {
    match meta_of(m, id) {
        Some(me) => me.grants_object(o),
        None => false,
    }
}

/// Whether the share `id` holds a table grant entry on `o`.
pub open spec fn entry_grant(m: KvMap, id: u64, o: ShareGrantObject) -> bool {
    match meta_of(m, id) {
        Some(me) => me.entries.contains_key(o),
        None => false,
    }
}

/// The id of the one database the share currently grants, if any.
pub open spec fn db_grant_of(m: KvMap, id: u64) -> Option<u64> {
    match meta_of(m, id) {
        Some(me) => match me.database {
            Some(e) => match e.object {
                ShareGrantObject::Database(did) => Some(did),
                ShareGrantObject::Table(_) => None,
            },
            None => None,
        },
        None => None,
    }
}

/// Whether `id` stands in the reverse index of `o`.
pub open spec fn in_obj_index(m: KvMap, id: u64, o: ShareGrantObject) -> bool {
    match obj_ids_of(m, o) {
        Some(ids) => ids.contains(id),
        None => false,
    }
}

/// Whether `id` stands in the `shared_by` set of database `did`.
pub open spec fn in_db_shared_by(m: KvMap, id: u64, did: u64) -> bool {
    match db_meta_of(m, did) {
        Some(sb) => sb.contains(id),
        None => false,
    }
}

/// Whether some record keyed by the id `id` exists.
pub open spec fn id_used(m: KvMap, id: u64) -> bool {
    ||| m.contains_key(KeyV::ShareId(id))
    ||| m.contains_key(KeyV::ShareIdToName(id))
    ||| m.contains_key(KeyV::DatabaseId(id))
    ||| m.contains_key(KeyV::DatabaseIdToName(id))
    ||| m.contains_key(KeyV::TableId(id))
    ||| m.contains_key(KeyV::TableIdToName(id))
}

/// Name -> id bindings point at a reverse binding that agrees.
pub open spec fn inv_name_forward(m: KvMap) -> bool {
    forall|t: Seq<char>, n: Seq<char>|
        match #[trigger] share_id_of(m, t, n) {
            Some(id) => name_of(m, id) == Some(ShareNameIdentV { tenant: t, share_name: n }),
            None => true,
        }
}

/// Id -> name bindings point at a forward binding that agrees.
pub open spec fn inv_name_back(m: KvMap) -> bool {
    forall|id: u64|
        match #[trigger] name_of(m, id) {
            Some(nm) => share_id_of(m, nm.tenant, nm.share_name) == Some(id),
            None => true,
        }
}

/// A share's state record exists exactly while its id -> name binding
/// does.
pub open spec fn inv_meta_presence(m: KvMap) -> bool {
    forall|id: u64|
        (#[trigger] meta_of(m, id)) is Some <==> (#[trigger] name_of(m, id)) is Some
}

/// Every account listed in a share's state has a membership record.
pub open spec fn inv_accounts_forward(m: KvMap) -> bool {
    forall|a: Seq<char>, id: u64|
        (match meta_of(m, id) {
            Some(me) => me.accounts.contains(a),
            None => false,
        }) ==> (#[trigger] account_of(m, a, id)) is Some
}

/// Every membership record belongs to a live share that lists its
/// account, and its fields repeat its key.
pub open spec fn inv_accounts_back(m: KvMap) -> bool {
    forall|a: Seq<char>, id: u64|
        match #[trigger] account_of(m, a, id) {
            Some(am) => am.account == a && am.share_id == id && (match meta_of(m, id) {
                Some(me) => me.accounts.contains(a),
                None => false,
            }),
            None => true,
        }
}

/// Every grant held in a share's state stands in the object's reverse
/// index.
pub open spec fn inv_index_forward(m: KvMap) -> bool {
    forall|id: u64, o: ShareGrantObject| #[trigger]
        grants(m, id, o) ==> in_obj_index(m, id, o)
}

/// Every reverse-index member that is a live share holds the grant. (A
/// dropped share may leave its id behind; see `drop_share`.)
pub open spec fn inv_index_back(m: KvMap) -> bool {
    forall|id: u64, o: ShareGrantObject|
        (#[trigger] in_obj_index(m, id, o) && meta_of(m, id) is Some) ==> grants(m, id, o)
}

/// A table grant exists only under the share's database grant, and the
/// table belongs to that database.
pub open spec fn inv_db_before_table(m: KvMap) -> bool {
    forall|id: u64, tid: u64|
        #[trigger] entry_grant(m, id, ShareGrantObject::Table(tid)) ==> (match db_grant_of(
            m,
            id,
        ) {
            Some(did) => table_parent(m, tid) == Some(did),
            None => false,
        })
}

/// A share granting a database stands in that database's `shared_by`.
pub open spec fn inv_shared_by_forward(m: KvMap) -> bool {
    forall|id: u64|
        match #[trigger] db_grant_of(m, id) {
            Some(did) => in_db_shared_by(m, id, did),
            None => true,
        }
}

/// A live share in a database's `shared_by` grants that database. (A
/// dropped share may leave its id behind; see `drop_share`.)
pub open spec fn inv_shared_by_back(m: KvMap) -> bool {
    forall|id: u64, did: u64|
        (#[trigger] in_db_shared_by(m, id, did) && meta_of(m, id) is Some) ==> db_grant_of(m, id)
            == Some(did)
}

/// The owning tenant is never listed as an account of its own share.
pub open spec fn inv_no_self_share(m: KvMap) -> bool {
    forall|id: u64|
        match (#[trigger] name_of(m, id), meta_of(m, id)) {
            (Some(nm), Some(me)) => !me.accounts.contains(nm.tenant),
            _ => true,
        }
}

/// Database name bindings and reverse bindings agree, and a bound
/// database has its metadata record.
pub open spec fn inv_db_names(m: KvMap) -> bool {
    &&& forall|t: Seq<char>, dn: Seq<char>|
        match #[trigger] db_id_of(m, t, dn) {
            Some(did) => db_name_of(m, did) == Some(DatabaseNameIdentV { tenant: t, db_name: dn })
                && db_meta_of(m, did) is Some,
            None => true,
        }
    &&& forall|did: u64|
        match #[trigger] db_name_of(m, did) {
            Some(dn) => db_id_of(m, dn.tenant, dn.db_name) == Some(did),
            None => true,
        }
}

/// Table name bindings and reverse bindings agree, and a bound table has
/// its metadata record.
pub open spec fn inv_table_names(m: KvMap) -> bool {
    &&& forall|did: u64, tn: Seq<char>|
        match #[trigger] table_id_of(m, did, tn) {
            Some(tid) => table_name_of(m, tid) == Some(
                DBIdTableNameV { db_id: did, table_name: tn },
            ) && m.contains_key(KeyV::TableId(tid)),
            None => true,
        }
    &&& forall|tid: u64|
        match #[trigger] table_name_of(m, tid) {
            Some(dtn) => table_id_of(m, dtn.db_id, dtn.table_name) == Some(tid),
            None => true,
        }
}

/// The mutual-consistency invariant of the whole record graph.
pub open spec fn graph_inv(m: KvMap) -> bool {
    &&& inv_name_forward(m)
    &&& inv_name_back(m)
    &&& inv_meta_presence(m)
    &&& inv_accounts_forward(m)
    &&& inv_accounts_back(m)
    &&& inv_index_forward(m)
    &&& inv_index_back(m)
    &&& inv_db_before_table(m)
    &&& inv_shared_by_forward(m)
    &&& inv_shared_by_back(m)
    &&& inv_no_self_share(m)
    &&& inv_db_names(m)
    &&& inv_table_names(m)
}

/// Ids at or above the allocator's counter are unused: what the allocator
/// will hand out is fresh.
pub open spec fn fresh_ids(s: KvStateV) -> bool {
    forall|id: u64| s.next_id <= id ==> !#[trigger] id_used(s.map, id)
}

/// Every id recorded inside a reverse index or a `shared_by` set was
/// once allocated, so it lies below the allocator's counter.
pub open spec fn ids_bounded(s: KvStateV) -> bool {
    &&& forall|id: u64, o: ShareGrantObject| #[trigger]
        in_obj_index(s.map, id, o) ==> id < s.next_id
    &&& forall|id: u64, did: u64| #[trigger] in_db_shared_by(s.map, id, did) ==> id < s.next_id
}

/// The catalog invariant: the record graph is mutually consistent and
/// the id allocator is ahead of every id in use.
pub open spec fn inv(s: KvStateV) -> bool {
    graph_inv(s.map) && fresh_ids(s) && ids_bounded(s)
}

/// The key of the `share_id_of` accessor.
pub open spec fn share_name_key(t: Seq<char>, n: Seq<char>) -> KeyV {
    KeyV::ShareName(ShareNameIdentV { tenant: t, share_name: n })
}

/// The key of the `account_of` accessor.
pub open spec fn account_key(a: Seq<char>, id: u64) -> KeyV {
    KeyV::ShareAccount(ShareAccountNameIdentV { account: a, share_id: id })
}

/// The key of the `db_id_of` accessor.
pub open spec fn db_name_key(t: Seq<char>, dn: Seq<char>) -> KeyV {
    KeyV::DatabaseName(DatabaseNameIdentV { tenant: t, db_name: dn })
}

/// The key of the `table_id_of` accessor.
pub open spec fn table_name_key(did: u64, tn: Seq<char>) -> KeyV {
    KeyV::DbIdTableName(DBIdTableNameV { db_id: did, table_name: tn })
}

/// Binding an unrelated key leaves `share_id_of` unchanged.
pub broadcast proof fn frame_share_id_insert(
    m: KvMap,
    k: KeyV,
    p: (u64, ValueV),
    t: Seq<char>,
    n: Seq<char>,
)
    ensures
        k != share_name_key(t, n) ==> #[trigger] share_id_of(m.insert(k, p), t, n) == share_id_of(
            m,
            t,
            n,
        ),
{
}

/// Dropping an unrelated key leaves `share_id_of` unchanged.
pub broadcast proof fn frame_share_id_remove(m: KvMap, k: KeyV, t: Seq<char>, n: Seq<char>)
    ensures
        k != share_name_key(t, n) ==> #[trigger] share_id_of(m.remove(k), t, n) == share_id_of(
            m,
            t,
            n,
        ),
{
}

/// Binding an unrelated key leaves `meta_of` unchanged.
pub broadcast proof fn frame_meta_insert(m: KvMap, k: KeyV, p: (u64, ValueV), id: u64)
    ensures
        k != KeyV::ShareId(id) ==> #[trigger] meta_of(m.insert(k, p), id) == meta_of(m, id),
{
}

/// Dropping an unrelated key leaves `meta_of` unchanged.
pub broadcast proof fn frame_meta_remove(m: KvMap, k: KeyV, id: u64)
    ensures
        k != KeyV::ShareId(id) ==> #[trigger] meta_of(m.remove(k), id) == meta_of(m, id),
{
}

/// Binding an unrelated key leaves `name_of` unchanged.
pub broadcast proof fn frame_name_insert(m: KvMap, k: KeyV, p: (u64, ValueV), id: u64)
    ensures
        k != KeyV::ShareIdToName(id) ==> #[trigger] name_of(m.insert(k, p), id) == name_of(m, id),
{
}

/// Dropping an unrelated key leaves `name_of` unchanged.
pub broadcast proof fn frame_name_remove(m: KvMap, k: KeyV, id: u64)
    ensures
        k != KeyV::ShareIdToName(id) ==> #[trigger] name_of(m.remove(k), id) == name_of(m, id),
{
}

/// Binding an unrelated key leaves `account_of` unchanged.
pub broadcast proof fn frame_account_insert(
    m: KvMap,
    k: KeyV,
    p: (u64, ValueV),
    a: Seq<char>,
    id: u64,
)
    ensures
        k != account_key(a, id) ==> #[trigger] account_of(m.insert(k, p), a, id) == account_of(
            m,
            a,
            id,
        ),
{
}

/// Dropping an unrelated key leaves `account_of` unchanged.
pub broadcast proof fn frame_account_remove(m: KvMap, k: KeyV, a: Seq<char>, id: u64)
    ensures
        k != account_key(a, id) ==> #[trigger] account_of(m.remove(k), a, id) == account_of(
            m,
            a,
            id,
        ),
{
}

/// Binding an unrelated key leaves `obj_ids_of` unchanged.
pub broadcast proof fn frame_obj_ids_insert(
    m: KvMap,
    k: KeyV,
    p: (u64, ValueV),
    o: ShareGrantObject,
)
    ensures
        k != KeyV::Object(o) ==> #[trigger] obj_ids_of(m.insert(k, p), o) == obj_ids_of(m, o),
{
}

/// Dropping an unrelated key leaves `obj_ids_of` unchanged.
pub broadcast proof fn frame_obj_ids_remove(m: KvMap, k: KeyV, o: ShareGrantObject)
    ensures
        k != KeyV::Object(o) ==> #[trigger] obj_ids_of(m.remove(k), o) == obj_ids_of(m, o),
{
}

/// Binding an unrelated key leaves `db_meta_of` unchanged.
pub broadcast proof fn frame_db_meta_insert(m: KvMap, k: KeyV, p: (u64, ValueV), did: u64)
    ensures
        k != KeyV::DatabaseId(did) ==> #[trigger] db_meta_of(m.insert(k, p), did) == db_meta_of(
            m,
            did,
        ),
{
}

/// Dropping an unrelated key leaves `db_meta_of` unchanged.
pub broadcast proof fn frame_db_meta_remove(m: KvMap, k: KeyV, did: u64)
    ensures
        k != KeyV::DatabaseId(did) ==> #[trigger] db_meta_of(m.remove(k), did) == db_meta_of(
            m,
            did,
        ),
{
}

/// Binding an unrelated key leaves `db_id_of` unchanged.
pub broadcast proof fn frame_db_id_insert(
    m: KvMap,
    k: KeyV,
    p: (u64, ValueV),
    t: Seq<char>,
    dn: Seq<char>,
)
    ensures
        k != db_name_key(t, dn) ==> #[trigger] db_id_of(m.insert(k, p), t, dn) == db_id_of(
            m,
            t,
            dn,
        ),
{
}

/// Dropping an unrelated key leaves `db_id_of` unchanged.
pub broadcast proof fn frame_db_id_remove(m: KvMap, k: KeyV, t: Seq<char>, dn: Seq<char>)
    ensures
        k != db_name_key(t, dn) ==> #[trigger] db_id_of(m.remove(k), t, dn) == db_id_of(m, t, dn),
{
}

/// Binding an unrelated key leaves `db_name_of` unchanged.
pub broadcast proof fn frame_db_name_insert(m: KvMap, k: KeyV, p: (u64, ValueV), did: u64)
    ensures
        k != KeyV::DatabaseIdToName(did) ==> #[trigger] db_name_of(m.insert(k, p), did)
            == db_name_of(m, did),
{
}

/// Dropping an unrelated key leaves `db_name_of` unchanged.
pub broadcast proof fn frame_db_name_remove(m: KvMap, k: KeyV, did: u64)
    ensures
        k != KeyV::DatabaseIdToName(did) ==> #[trigger] db_name_of(m.remove(k), did) == db_name_of(
            m,
            did,
        ),
{
}

/// Binding an unrelated key leaves `table_id_of` unchanged.
pub broadcast proof fn frame_table_id_insert(
    m: KvMap,
    k: KeyV,
    p: (u64, ValueV),
    did: u64,
    tn: Seq<char>,
)
    ensures
        k != table_name_key(did, tn) ==> #[trigger] table_id_of(m.insert(k, p), did, tn)
            == table_id_of(m, did, tn),
{
}

/// Dropping an unrelated key leaves `table_id_of` unchanged.
pub broadcast proof fn frame_table_id_remove(m: KvMap, k: KeyV, did: u64, tn: Seq<char>)
    ensures
        k != table_name_key(did, tn) ==> #[trigger] table_id_of(m.remove(k), did, tn)
            == table_id_of(m, did, tn),
{
}

/// Binding an unrelated key leaves `table_name_of` unchanged.
pub broadcast proof fn frame_table_name_insert(m: KvMap, k: KeyV, p: (u64, ValueV), tid: u64)
    ensures
        k != KeyV::TableIdToName(tid) ==> #[trigger] table_name_of(m.insert(k, p), tid)
            == table_name_of(m, tid),
{
}

/// Dropping an unrelated key leaves `table_name_of` unchanged.
pub broadcast proof fn frame_table_name_remove(m: KvMap, k: KeyV, tid: u64)
    ensures
        k != KeyV::TableIdToName(tid) ==> #[trigger] table_name_of(m.remove(k), tid)
            == table_name_of(m, tid),
{
}

/// All the frame lemmas of the accessors, for ambient use in
/// preservation proofs.
pub broadcast group group_accessor_frames {
    frame_share_id_insert,
    frame_share_id_remove,
    frame_meta_insert,
    frame_meta_remove,
    frame_name_insert,
    frame_name_remove,
    frame_account_insert,
    frame_account_remove,
    frame_obj_ids_insert,
    frame_obj_ids_remove,
    frame_db_meta_insert,
    frame_db_meta_remove,
    frame_db_id_insert,
    frame_db_id_remove,
    frame_db_name_insert,
    frame_db_name_remove,
    frame_table_id_insert,
    frame_table_id_remove,
    frame_table_name_insert,
    frame_table_name_remove,
}

} // verus!

verus! {

/// Creating a share preserves the catalog invariant: the three fresh
/// records are mutually consistent and nothing else moves.
pub proof fn lemma_create_share_preserves(
    s0: KvStateV,
    s1: KvStateV,
    t: Seq<char>,
    n: Seq<char>,
    id: u64,
    me: ShareMetaV,
    sq: u64,
)
    requires
        inv(s0),
        share_id_of(s0.map, t, n) is None,
        id == s0.next_id,
        me.database is None,
        me.entries == Map::<ShareGrantObject, ShareGrantEntry>::empty(),
        me.accounts == Set::<Seq<char>>::empty(),
        s1.map == s0.map.insert(share_name_key(t, n), (sq, ValueV::Id(id))).insert(
            KeyV::ShareId(id),
            (sq, ValueV::ShareMeta(me)),
        ).insert(
            KeyV::ShareIdToName(id),
            (sq, ValueV::ShareName(ShareNameIdentV { tenant: t, share_name: n })),
        ),
        s1.next_id == s0.next_id + 1,
    ensures
        inv(s1),
{
    broadcast use group_accessor_frames;

    let m0 = s0.map;
    let m1 = s1.map;
    let nm = ShareNameIdentV { tenant: t, share_name: n };
    assert(!id_used(m0, id));
    assert(share_id_of(m1, t, n) == Some(id));
    assert(meta_of(m1, id) == Some(me));
    assert(name_of(m1, id) == Some(nm));
    assert forall|id2: u64| #[trigger] name_of(m0, id2) is Some implies id2 != id by {
        assert(id_used(m0, id2));
    }
    assert forall|id2: u64| #[trigger] meta_of(m0, id2) is Some implies id2 != id by {
        assert(id_used(m0, id2));
    }
    assert forall|id2: u64, o: ShareGrantObject| #[trigger]
        in_obj_index(m0, id2, o) implies id2 != id by {}
    assert forall|id2: u64, did: u64| #[trigger] in_db_shared_by(m0, id2, did) implies id2
        != id by {}
    assert(inv_name_forward(m1));
    assert(inv_name_back(m1));
    assert(inv_meta_presence(m1));
    assert(inv_accounts_forward(m1));
    assert(inv_accounts_back(m1));
    assert forall|id2: u64, o: ShareGrantObject| #[trigger] grants(m1, id2, o) implies in_obj_index(
        m1,
        id2,
        o,
    ) by {
        assert(obj_ids_of(m1, o) == obj_ids_of(m0, o));
        if id2 == id {
            assert(!me.grants_object(o));
        } else {
            assert(meta_of(m1, id2) == meta_of(m0, id2));
            assert(grants(m0, id2, o));
        }
    }
    assert(inv_index_forward(m1));
    assert forall|id2: u64, o: ShareGrantObject|
        (#[trigger] in_obj_index(m1, id2, o) && meta_of(m1, id2) is Some) implies grants(
        m1,
        id2,
        o,
    ) by {
        assert(obj_ids_of(m1, o) == obj_ids_of(m0, o));
        assert(in_obj_index(m0, id2, o));
        assert(id2 != id);
        assert(meta_of(m1, id2) == meta_of(m0, id2));
        assert(grants(m0, id2, o));
    }
    assert(inv_index_back(m1));
    assert forall|id2: u64, tid: u64| #[trigger]
        entry_grant(m1, id2, ShareGrantObject::Table(tid)) implies (match db_grant_of(m1, id2) {
        Some(did) => table_parent(m1, tid) == Some(did),
        None => false,
    }) by {
        assert(table_name_of(m1, tid) == table_name_of(m0, tid));
        if id2 == id {
            assert(!me.entries.contains_key(ShareGrantObject::Table(tid)));
        } else {
            assert(meta_of(m1, id2) == meta_of(m0, id2));
            assert(entry_grant(m0, id2, ShareGrantObject::Table(tid)));
        }
    }
    assert(inv_db_before_table(m1));
    assert forall|id2: u64|
        match #[trigger] db_grant_of(m1, id2) {
            Some(did) => in_db_shared_by(m1, id2, did),
            None => true,
        } by {
        if id2 != id {
            assert(meta_of(m1, id2) == meta_of(m0, id2));
            match db_grant_of(m0, id2) {
                Some(did) => {
                    assert(in_db_shared_by(m0, id2, did));
                    assert(db_meta_of(m1, did) == db_meta_of(m0, did));
                },
                None => {},
            }
        }
    }
    assert(inv_shared_by_forward(m1));
    assert forall|id2: u64, did: u64|
        (#[trigger] in_db_shared_by(m1, id2, did) && meta_of(m1, id2) is Some) implies db_grant_of(
        m1,
        id2,
    ) == Some(did) by {
        assert(db_meta_of(m1, did) == db_meta_of(m0, did));
        assert(in_db_shared_by(m0, id2, did));
        assert(id2 != id);
        assert(meta_of(m1, id2) == meta_of(m0, id2));
    }
    assert(inv_shared_by_back(m1));
    assert(inv_no_self_share(m1));
    assert(inv_db_names(m1));
    assert(inv_table_names(m1));
    assert forall|id2: u64| s1.next_id <= id2 implies !#[trigger] id_used(m1, id2) by {
        assert(!id_used(m0, id2));
        assert(id2 != id);
    }
    assert(fresh_ids(s1));
    assert forall|id2: u64, o: ShareGrantObject| #[trigger] in_obj_index(m1, id2, o) implies id2
        < s1.next_id by {
        assert(obj_ids_of(m1, o) == obj_ids_of(m0, o));
        assert(in_obj_index(m0, id2, o));
    }
    assert forall|id2: u64, did: u64| #[trigger] in_db_shared_by(m1, id2, did) implies id2
        < s1.next_id by {
        assert(db_meta_of(m1, did) == db_meta_of(m0, did));
        assert(in_db_shared_by(m0, id2, did));
    }
    assert(ids_bounded(s1));
}

} // verus!

verus! {

/// Whether an op writes or deletes a membership record of share `id`,
/// with fields that repeat the key.
pub open spec fn is_account_op_for(op: TxnOpV, id: u64) -> bool {
    match op {
        TxnOpV::Put(k, v) => match (k, v) {
            (KeyV::ShareAccount(akv), ValueV::ShareAccountMeta(am)) => akv.share_id == id
                && am.account == akv.account && am.share_id == id,
            _ => false,
        },
        TxnOpV::Del(k) => match k {
            KeyV::ShareAccount(akv) => akv.share_id == id,
            _ => false,
        },
    }
}

/// Every op of the list is a membership-record op of share `id`.
pub open spec fn account_ops_only(ops: Seq<TxnOpV>, id: u64) -> bool {
    forall|i: int| 0 <= i < ops.len() ==> is_account_op_for(#[trigger] ops[i], id)
}

/// What the membership record of `(a, id)` holds after the ops run, the
/// last op on its key winning.
pub open spec fn account_key_effect(
    base: Option<ShareAccountMetaV>,
    ops: Seq<TxnOpV>,
    a: Seq<char>,
    id: u64,
) -> Option<ShareAccountMetaV>
    decreases ops.len(),
{
    if ops.len() == 0 {
        base
    } else {
        let prev = account_key_effect(base, ops.drop_last(), a, id);
        match ops.last() {
            TxnOpV::Put(k, v) => if k == account_key(a, id) {
                match v {
                    ValueV::ShareAccountMeta(am) => Some(am),
                    _ => prev,
                }
            } else {
                prev
            },
            TxnOpV::Del(k) => if k == account_key(a, id) {
                None
            } else {
                prev
            },
        }
    }
}

/// Membership-record ops of share `id` touch nothing but membership
/// records of share `id`.
pub proof fn lemma_apply_account_ops(m0: KvMap, ops: Seq<TxnOpV>, id: u64, sq: u64)
    requires
        account_ops_only(ops, id),
    ensures
        ({
            let m1 = crate::kv::apply_ops(m0, ops, sq);
            &&& forall|t: Seq<char>, n: Seq<char>| #[trigger]
                share_id_of(m1, t, n) == share_id_of(m0, t, n)
            &&& forall|i2: u64| #[trigger] name_of(m1, i2) == name_of(m0, i2)
            &&& forall|i2: u64| #[trigger] meta_of(m1, i2) == meta_of(m0, i2)
            &&& forall|o: ShareGrantObject| #[trigger] obj_ids_of(m1, o) == obj_ids_of(m0, o)
            &&& forall|d: u64| #[trigger] db_meta_of(m1, d) == db_meta_of(m0, d)
            &&& forall|t: Seq<char>, dn: Seq<char>| #[trigger]
                db_id_of(m1, t, dn) == db_id_of(m0, t, dn)
            &&& forall|d: u64| #[trigger] db_name_of(m1, d) == db_name_of(m0, d)
            &&& forall|d: u64, tn: Seq<char>| #[trigger]
                table_id_of(m1, d, tn) == table_id_of(m0, d, tn)
            &&& forall|ti: u64| #[trigger] table_name_of(m1, ti) == table_name_of(m0, ti)
            &&& forall|ti: u64| #[trigger] table_meta_same(m0, m1, ti)
            &&& forall|i2: u64| #[trigger] id_used(m1, i2) == id_used(m0, i2)
            &&& forall|a: Seq<char>, i2: u64|
                i2 != id ==> #[trigger] account_of(m1, a, i2) == account_of(m0, a, i2)
            &&& forall|a: Seq<char>| #[trigger]
                account_of(m1, a, id) == account_key_effect(account_of(m0, a, id), ops, a, id)
        }),
    decreases ops.len(),
{
    broadcast use group_accessor_frames;

    if ops.len() > 0 {
        let init = ops.drop_last();
        let op = ops.last();
        assert(init.push(op) =~= ops);
        assert(account_ops_only(init, id)) by {
            assert(forall|i: int| 0 <= i < init.len() ==> init[i] == ops[i]);
        }
        lemma_apply_account_ops(m0, init, id, sq);
        crate::kv::lemma_apply_ops_push(m0, init, op, sq);
        let mi = crate::kv::apply_ops(m0, init, sq);
        let m1 = crate::kv::apply_ops(m0, ops, sq);
        assert(m1 == crate::kv::apply_op(mi, op, sq));
        assert(is_account_op_for(op, id));
        let akv = (match op {
            TxnOpV::Put(k, _) => k,
            TxnOpV::Del(k) => k,
        });
        assert forall|i2: u64| #[trigger] id_used(m1, i2) == id_used(mi, i2) by {
            assert(!(akv is ShareId) && !(akv is ShareIdToName) && !(akv is DatabaseId) && !(
            akv is DatabaseIdToName) && !(akv is TableId) && !(akv is TableIdToName));
        }
        assert forall|ti: u64| #[trigger] table_meta_same(mi, m1, ti) by {
            assert(akv != KeyV::TableId(ti));
        }
        assert forall|ti: u64| #[trigger] table_meta_same(m0, m1, ti) by {
            assert(table_meta_same(m0, mi, ti));
            assert(table_meta_same(mi, m1, ti));
        }
        assert forall|a: Seq<char>| #[trigger]
            account_of(m1, a, id) == account_key_effect(account_of(m0, a, id), ops, a, id) by {
            assert(account_of(mi, a, id) == account_key_effect(account_of(m0, a, id), init, a, id));
            if akv == account_key(a, id) {
            } else {
                assert(account_of(m1, a, id) == account_of(mi, a, id));
            }
        }
    } else {
        assert(crate::kv::apply_ops(m0, ops, sq) == m0);
    }
}

/// Whether both maps bind `TableId(tid)` alike. The invariant only ever
/// needs the binding's existence.
pub open spec fn table_meta_same(m0: KvMap, m1: KvMap, tid: u64) -> bool {
    m1.contains_key(KeyV::TableId(tid)) == m0.contains_key(KeyV::TableId(tid))
}

/// Everything the share operations never touch outside their own share:
/// reverse indexes, database metadata, and the name catalog.
pub open spec fn outer_frame(m0: KvMap, m1: KvMap) -> bool {
    &&& forall|o: ShareGrantObject| #[trigger] obj_ids_of(m1, o) == obj_ids_of(m0, o)
    &&& forall|d: u64| #[trigger] db_meta_of(m1, d) == db_meta_of(m0, d)
    &&& forall|t: Seq<char>, dn: Seq<char>| #[trigger] db_id_of(m1, t, dn) == db_id_of(m0, t, dn)
    &&& forall|d: u64| #[trigger] db_name_of(m1, d) == db_name_of(m0, d)
    &&& forall|d: u64, tn: Seq<char>| #[trigger] table_id_of(m1, d, tn) == table_id_of(m0, d, tn)
    &&& forall|ti: u64| #[trigger] table_name_of(m1, ti) == table_name_of(m0, ti)
    &&& forall|ti: u64| #[trigger] table_meta_same(m0, m1, ti)
}

/// Replacing the account list of one share preserves the catalog
/// invariant, provided the membership records are made to agree with the
/// new list and the owner stays off it.
pub proof fn lemma_set_accounts_preserves(s0: KvStateV, s1: KvStateV, id: u64, accs: Set<Seq<char>>)
    requires
        inv(s0),
        meta_of(s0.map, id) is Some,
        meta_of(s1.map, id) is Some,
        ({
            let me0 = meta_of(s0.map, id).unwrap();
            let me1 = meta_of(s1.map, id).unwrap();
            me1.database == me0.database && me1.entries == me0.entries && me1.accounts == accs
        }),
        (match name_of(s0.map, id) {
            Some(nm) => !accs.contains(nm.tenant),
            None => false,
        }),
        outer_frame(s0.map, s1.map),
        forall|t: Seq<char>, n: Seq<char>| #[trigger]
            share_id_of(s1.map, t, n) == share_id_of(s0.map, t, n),
        forall|i2: u64| #[trigger] name_of(s1.map, i2) == name_of(s0.map, i2),
        forall|i2: u64| i2 != id ==> #[trigger] meta_of(s1.map, i2) == meta_of(s0.map, i2),
        forall|a: Seq<char>, i2: u64|
            i2 != id ==> #[trigger] account_of(s1.map, a, i2) == account_of(s0.map, a, i2),
        forall|a: Seq<char>|
            match #[trigger] account_of(s1.map, a, id) {
                Some(am) => accs.contains(a) && am.account == a && am.share_id == id,
                None => !accs.contains(a),
            },
        forall|i2: u64| #[trigger] id_used(s1.map, i2) == id_used(s0.map, i2),
        s1.next_id == s0.next_id,
    ensures
        inv(s1),
{
    let m0 = s0.map;
    let m1 = s1.map;
    let me0 = meta_of(m0, id).unwrap();
    let me1 = meta_of(m1, id).unwrap();
    assert forall|t2: Seq<char>, n2: Seq<char>|
        match #[trigger] share_id_of(m1, t2, n2) {
            Some(id2) => name_of(m1, id2) == Some(ShareNameIdentV { tenant: t2, share_name: n2 }),
            None => true,
        } by {
        match share_id_of(m0, t2, n2) {
            Some(id2) => {
                assert(name_of(m1, id2) == name_of(m0, id2));
            },
            None => {},
        }
    }
    assert(inv_name_forward(m1));
    assert forall|id2: u64|
        match #[trigger] name_of(m1, id2) {
            Some(nm) => share_id_of(m1, nm.tenant, nm.share_name) == Some(id2),
            None => true,
        } by {
        match name_of(m0, id2) {
            Some(nm) => {
                assert(share_id_of(m1, nm.tenant, nm.share_name) == share_id_of(
                    m0,
                    nm.tenant,
                    nm.share_name,
                ));
            },
            None => {},
        }
    }
    assert(inv_name_back(m1));
    assert forall|id2: u64| (#[trigger] meta_of(m1, id2)) is Some <==> (#[trigger] name_of(
        m1,
        id2,
    )) is Some by {
        assert(name_of(m1, id2) == name_of(m0, id2));
        if id2 != id {
            assert(meta_of(m1, id2) == meta_of(m0, id2));
        }
    }
    assert(inv_meta_presence(m1));
    assert forall|a: Seq<char>, id2: u64|
        (match meta_of(m1, id2) {
            Some(me) => me.accounts.contains(a),
            None => false,
        }) implies (#[trigger] account_of(m1, a, id2)) is Some by {
        if id2 != id {
            assert(meta_of(m1, id2) == meta_of(m0, id2));
            assert(account_of(m1, a, id2) == account_of(m0, a, id2));
            assert(account_of(m0, a, id2) is Some);
        }
    }
    assert(inv_accounts_forward(m1));
    assert forall|a: Seq<char>, id2: u64|
        match #[trigger] account_of(m1, a, id2) {
            Some(am) => am.account == a && am.share_id == id2 && (match meta_of(m1, id2) {
                Some(me) => me.accounts.contains(a),
                None => false,
            }),
            None => true,
        } by {
        if id2 != id {
            assert(account_of(m1, a, id2) == account_of(m0, a, id2));
            assert(meta_of(m1, id2) == meta_of(m0, id2));
            match account_of(m0, a, id2) {
                Some(am) => {
                    assert(am.account == a && am.share_id == id2);
                },
                None => {},
            }
        }
    }
    assert(inv_accounts_back(m1));
    assert forall|id2: u64, o: ShareGrantObject| #[trigger] grants(m1, id2, o) implies in_obj_index(
        m1,
        id2,
        o,
    ) by {
        assert(obj_ids_of(m1, o) == obj_ids_of(m0, o));
        if id2 != id {
            assert(meta_of(m1, id2) == meta_of(m0, id2));
        } else {
            assert(me1.grants_object(o) == me0.grants_object(o));
        }
        assert(grants(m0, id2, o));
        assert(in_obj_index(m0, id2, o));
    }
    assert(inv_index_forward(m1));
    assert forall|id2: u64, o: ShareGrantObject|
        (#[trigger] in_obj_index(m1, id2, o) && meta_of(m1, id2) is Some) implies grants(
        m1,
        id2,
        o,
    ) by {
        assert(obj_ids_of(m1, o) == obj_ids_of(m0, o));
        if id2 != id {
            assert(meta_of(m1, id2) == meta_of(m0, id2));
        } else {
            assert(me1.grants_object(o) == me0.grants_object(o));
        }
        assert(in_obj_index(m0, id2, o));
        assert(meta_of(m0, id2) is Some);
        assert(grants(m0, id2, o));
    }
    assert(inv_index_back(m1));
    assert forall|id2: u64, tid: u64| #[trigger]
        entry_grant(m1, id2, ShareGrantObject::Table(tid)) implies (match db_grant_of(m1, id2) {
        Some(did) => table_parent(m1, tid) == Some(did),
        None => false,
    }) by {
        assert(table_name_of(m1, tid) == table_name_of(m0, tid));
        if id2 != id {
            assert(meta_of(m1, id2) == meta_of(m0, id2));
        } else {
            assert(me1.entries == me0.entries && me1.database == me0.database);
        }
        assert(entry_grant(m0, id2, ShareGrantObject::Table(tid)));
        assert(db_grant_of(m1, id2) == db_grant_of(m0, id2));
    }
    assert(inv_db_before_table(m1));
    assert forall|id2: u64|
        match #[trigger] db_grant_of(m1, id2) {
            Some(did) => in_db_shared_by(m1, id2, did),
            None => true,
        } by {
        if id2 != id {
            assert(meta_of(m1, id2) == meta_of(m0, id2));
        }
        match db_grant_of(m0, id2) {
            Some(did) => {
                assert(in_db_shared_by(m0, id2, did));
                assert(db_meta_of(m1, did) == db_meta_of(m0, did));
            },
            None => {},
        }
        assert(db_grant_of(m1, id2) == db_grant_of(m0, id2));
    }
    assert(inv_shared_by_forward(m1));
    assert forall|id2: u64, did: u64|
        (#[trigger] in_db_shared_by(m1, id2, did) && meta_of(m1, id2) is Some) implies db_grant_of(
        m1,
        id2,
    ) == Some(did) by {
        assert(db_meta_of(m1, did) == db_meta_of(m0, did));
        assert(in_db_shared_by(m0, id2, did));
        if id2 != id {
            assert(meta_of(m1, id2) == meta_of(m0, id2));
        }
        assert(db_grant_of(m0, id2) == Some(did));
        assert(db_grant_of(m1, id2) == db_grant_of(m0, id2));
    }
    assert(inv_shared_by_back(m1));
    assert forall|id2: u64|
        match (#[trigger] name_of(m1, id2), meta_of(m1, id2)) {
            (Some(nm), Some(me)) => !me.accounts.contains(nm.tenant),
            _ => true,
        } by {
        assert(name_of(m1, id2) == name_of(m0, id2));
        if id2 != id {
            assert(meta_of(m1, id2) == meta_of(m0, id2));
        }
    }
    assert(inv_no_self_share(m1));
    assert forall|t2: Seq<char>, dn: Seq<char>|
        match #[trigger] db_id_of(m1, t2, dn) {
            Some(did) => db_name_of(m1, did) == Some(
                DatabaseNameIdentV { tenant: t2, db_name: dn },
            ) && db_meta_of(m1, did) is Some,
            None => true,
        } by {
        match db_id_of(m0, t2, dn) {
            Some(did) => {
                assert(db_name_of(m1, did) == db_name_of(m0, did));
                assert(db_meta_of(m1, did) == db_meta_of(m0, did));
            },
            None => {},
        }
    }
    assert forall|did: u64|
        match #[trigger] db_name_of(m1, did) {
            Some(dn) => db_id_of(m1, dn.tenant, dn.db_name) == Some(did),
            None => true,
        } by {
        match db_name_of(m0, did) {
            Some(dn) => {
                assert(db_id_of(m1, dn.tenant, dn.db_name) == db_id_of(m0, dn.tenant, dn.db_name));
            },
            None => {},
        }
    }
    assert(inv_db_names(m1));
    assert forall|did: u64, tn: Seq<char>|
        match #[trigger] table_id_of(m1, did, tn) {
            Some(tid) => table_name_of(m1, tid) == Some(
                DBIdTableNameV { db_id: did, table_name: tn },
            ) && m1.contains_key(KeyV::TableId(tid)),
            None => true,
        } by {
        match table_id_of(m0, did, tn) {
            Some(tid) => {
                assert(table_name_of(m1, tid) == table_name_of(m0, tid));
                assert(id_used(m1, tid) == id_used(m0, tid));
                assert(m0.contains_key(KeyV::TableId(tid)));
                assert(table_meta_same(m0, m1, tid));
            },
            None => {},
        }
    }
    assert forall|tid: u64|
        match #[trigger] table_name_of(m1, tid) {
            Some(dtn) => table_id_of(m1, dtn.db_id, dtn.table_name) == Some(tid),
            None => true,
        } by {
        match table_name_of(m0, tid) {
            Some(dtn) => {
                assert(table_id_of(m1, dtn.db_id, dtn.table_name) == table_id_of(
                    m0,
                    dtn.db_id,
                    dtn.table_name,
                ));
            },
            None => {},
        }
    }
    assert(inv_table_names(m1));
    assert forall|id2: u64| s1.next_id <= id2 implies !#[trigger] id_used(m1, id2) by {
        assert(id_used(m1, id2) == id_used(m0, id2));
        assert(!id_used(m0, id2));
    }
    assert(fresh_ids(s1));
    assert forall|id2: u64, o: ShareGrantObject| #[trigger] in_obj_index(m1, id2, o) implies id2
        < s1.next_id by {
        assert(obj_ids_of(m1, o) == obj_ids_of(m0, o));
        assert(in_obj_index(m0, id2, o));
    }
    assert forall|id2: u64, did: u64| #[trigger] in_db_shared_by(m1, id2, did) implies id2
        < s1.next_id by {
        assert(db_meta_of(m1, did) == db_meta_of(m0, did));
        assert(in_db_shared_by(m0, id2, did));
    }
    assert(ids_bounded(s1));
}

} // verus!

verus! {

/// Dropping a share (its name bindings, state, and every membership
/// record) preserves the catalog invariant. Reverse indexes may keep the
/// dropped id; the invariant speaks of live shares only.
pub proof fn lemma_drop_share_preserves(
    s0: KvStateV,
    s1: KvStateV,
    id: u64,
    t: Seq<char>,
    n: Seq<char>,
)
    requires
        inv(s0),
        share_id_of(s0.map, t, n) == Some(id),
        share_id_of(s1.map, t, n) is None,
        meta_of(s1.map, id) is None,
        name_of(s1.map, id) is None,
        forall|t2: Seq<char>, n2: Seq<char>|
            !(t2 == t && n2 == n) ==> #[trigger] share_id_of(s1.map, t2, n2) == share_id_of(
                s0.map,
                t2,
                n2,
            ),
        forall|i2: u64| i2 != id ==> #[trigger] meta_of(s1.map, i2) == meta_of(s0.map, i2),
        forall|i2: u64| i2 != id ==> #[trigger] name_of(s1.map, i2) == name_of(s0.map, i2),
        forall|a: Seq<char>| #[trigger] account_of(s1.map, a, id) is None,
        forall|a: Seq<char>, i2: u64|
            i2 != id ==> #[trigger] account_of(s1.map, a, i2) == account_of(s0.map, a, i2),
        outer_frame(s0.map, s1.map),
        forall|i2: u64| #[trigger] id_used(s1.map, i2) ==> id_used(s0.map, i2),
        s1.next_id == s0.next_id,
    ensures
        inv(s1),
{
    let m0 = s0.map;
    let m1 = s1.map;
    assert forall|t2: Seq<char>, n2: Seq<char>|
        match #[trigger] share_id_of(m1, t2, n2) {
            Some(id2) => name_of(m1, id2) == Some(ShareNameIdentV { tenant: t2, share_name: n2 }),
            None => true,
        } by {
        if !(t2 == t && n2 == n) {
            match share_id_of(m0, t2, n2) {
                Some(id2) => {
                    assert(name_of(m0, id2) == Some(
                        ShareNameIdentV { tenant: t2, share_name: n2 },
                    ));
                    assert(name_of(m0, id) == Some(ShareNameIdentV { tenant: t, share_name: n }));
                    assert(id2 != id);
                    assert(name_of(m1, id2) == name_of(m0, id2));
                },
                None => {},
            }
        }
    }
    assert(inv_name_forward(m1));
    assert forall|id2: u64|
        match #[trigger] name_of(m1, id2) {
            Some(nm) => share_id_of(m1, nm.tenant, nm.share_name) == Some(id2),
            None => true,
        } by {
        if id2 != id {
            match name_of(m0, id2) {
                Some(nm) => {
                    assert(share_id_of(m0, nm.tenant, nm.share_name) == Some(id2));
                    assert(!(nm.tenant == t && nm.share_name == n));
                    assert(share_id_of(m1, nm.tenant, nm.share_name) == share_id_of(
                        m0,
                        nm.tenant,
                        nm.share_name,
                    ));
                },
                None => {},
            }
        }
    }
    assert(inv_name_back(m1));
    assert forall|id2: u64| (#[trigger] meta_of(m1, id2)) is Some <==> (#[trigger] name_of(
        m1,
        id2,
    )) is Some by {
        if id2 != id {
            assert(meta_of(m1, id2) == meta_of(m0, id2));
            assert(name_of(m1, id2) == name_of(m0, id2));
        }
    }
    assert(inv_meta_presence(m1));
    assert forall|a: Seq<char>, id2: u64|
        (match meta_of(m1, id2) {
            Some(me) => me.accounts.contains(a),
            None => false,
        }) implies (#[trigger] account_of(m1, a, id2)) is Some by {
        if id2 != id {
            assert(meta_of(m1, id2) == meta_of(m0, id2));
            assert(account_of(m1, a, id2) == account_of(m0, a, id2));
            assert(account_of(m0, a, id2) is Some);
        }
    }
    assert(inv_accounts_forward(m1));
    assert forall|a: Seq<char>, id2: u64|
        match #[trigger] account_of(m1, a, id2) {
            Some(am) => am.account == a && am.share_id == id2 && (match meta_of(m1, id2) {
                Some(me) => me.accounts.contains(a),
                None => false,
            }),
            None => true,
        } by {
        if id2 != id {
            assert(account_of(m1, a, id2) == account_of(m0, a, id2));
            assert(meta_of(m1, id2) == meta_of(m0, id2));
            match account_of(m0, a, id2) {
                Some(am) => {
                    assert(am.account == a && am.share_id == id2);
                },
                None => {},
            }
        }
    }
    assert(inv_accounts_back(m1));
    assert forall|id2: u64, o: ShareGrantObject| #[trigger] grants(m1, id2, o) implies in_obj_index(
        m1,
        id2,
        o,
    ) by {
        assert(obj_ids_of(m1, o) == obj_ids_of(m0, o));
        assert(id2 != id);
        assert(meta_of(m1, id2) == meta_of(m0, id2));
        assert(grants(m0, id2, o));
        assert(in_obj_index(m0, id2, o));
    }
    assert(inv_index_forward(m1));
    assert forall|id2: u64, o: ShareGrantObject|
        (#[trigger] in_obj_index(m1, id2, o) && meta_of(m1, id2) is Some) implies grants(
        m1,
        id2,
        o,
    ) by {
        assert(obj_ids_of(m1, o) == obj_ids_of(m0, o));
        assert(in_obj_index(m0, id2, o));
        assert(id2 != id);
        assert(meta_of(m1, id2) == meta_of(m0, id2));
        assert(meta_of(m0, id2) is Some);
        assert(grants(m0, id2, o));
    }
    assert(inv_index_back(m1));
    assert forall|id2: u64, tid: u64| #[trigger]
        entry_grant(m1, id2, ShareGrantObject::Table(tid)) implies (match db_grant_of(m1, id2) {
        Some(did) => table_parent(m1, tid) == Some(did),
        None => false,
    }) by {
        assert(table_name_of(m1, tid) == table_name_of(m0, tid));
        assert(id2 != id);
        assert(meta_of(m1, id2) == meta_of(m0, id2));
        assert(entry_grant(m0, id2, ShareGrantObject::Table(tid)));
        assert(db_grant_of(m1, id2) == db_grant_of(m0, id2));
    }
    assert(inv_db_before_table(m1));
    assert forall|id2: u64|
        match #[trigger] db_grant_of(m1, id2) {
            Some(did) => in_db_shared_by(m1, id2, did),
            None => true,
        } by {
        if id2 != id {
            assert(meta_of(m1, id2) == meta_of(m0, id2));
            match db_grant_of(m0, id2) {
                Some(did) => {
                    assert(in_db_shared_by(m0, id2, did));
                    assert(db_meta_of(m1, did) == db_meta_of(m0, did));
                },
                None => {},
            }
            assert(db_grant_of(m1, id2) == db_grant_of(m0, id2));
        }
    }
    assert(inv_shared_by_forward(m1));
    assert forall|id2: u64, did: u64|
        (#[trigger] in_db_shared_by(m1, id2, did) && meta_of(m1, id2) is Some) implies db_grant_of(
        m1,
        id2,
    ) == Some(did) by {
        assert(db_meta_of(m1, did) == db_meta_of(m0, did));
        assert(in_db_shared_by(m0, id2, did));
        assert(id2 != id);
        assert(meta_of(m1, id2) == meta_of(m0, id2));
        assert(db_grant_of(m0, id2) == Some(did));
        assert(db_grant_of(m1, id2) == db_grant_of(m0, id2));
    }
    assert(inv_shared_by_back(m1));
    assert forall|id2: u64|
        match (#[trigger] name_of(m1, id2), meta_of(m1, id2)) {
            (Some(nm), Some(me)) => !me.accounts.contains(nm.tenant),
            _ => true,
        } by {
        if id2 != id {
            assert(name_of(m1, id2) == name_of(m0, id2));
            assert(meta_of(m1, id2) == meta_of(m0, id2));
        }
    }
    assert(inv_no_self_share(m1));
    assert forall|t2: Seq<char>, dn: Seq<char>|
        match #[trigger] db_id_of(m1, t2, dn) {
            Some(did) => db_name_of(m1, did) == Some(
                DatabaseNameIdentV { tenant: t2, db_name: dn },
            ) && db_meta_of(m1, did) is Some,
            None => true,
        } by {
        match db_id_of(m0, t2, dn) {
            Some(did) => {
                assert(db_name_of(m1, did) == db_name_of(m0, did));
                assert(db_meta_of(m1, did) == db_meta_of(m0, did));
            },
            None => {},
        }
    }
    assert forall|did: u64|
        match #[trigger] db_name_of(m1, did) {
            Some(dn) => db_id_of(m1, dn.tenant, dn.db_name) == Some(did),
            None => true,
        } by {
        match db_name_of(m0, did) {
            Some(dn) => {
                assert(db_id_of(m1, dn.tenant, dn.db_name) == db_id_of(m0, dn.tenant, dn.db_name));
            },
            None => {},
        }
    }
    assert(inv_db_names(m1));
    assert forall|did: u64, tn: Seq<char>|
        match #[trigger] table_id_of(m1, did, tn) {
            Some(tid) => table_name_of(m1, tid) == Some(
                DBIdTableNameV { db_id: did, table_name: tn },
            ) && m1.contains_key(KeyV::TableId(tid)),
            None => true,
        } by {
        match table_id_of(m0, did, tn) {
            Some(tid) => {
                assert(table_name_of(m1, tid) == table_name_of(m0, tid));
                assert(m0.contains_key(KeyV::TableId(tid)));
                assert(table_meta_same(m0, m1, tid));
            },
            None => {},
        }
    }
    assert forall|tid: u64|
        match #[trigger] table_name_of(m1, tid) {
            Some(dtn) => table_id_of(m1, dtn.db_id, dtn.table_name) == Some(tid),
            None => true,
        } by {
        match table_name_of(m0, tid) {
            Some(dtn) => {
                assert(table_id_of(m1, dtn.db_id, dtn.table_name) == table_id_of(
                    m0,
                    dtn.db_id,
                    dtn.table_name,
                ));
            },
            None => {},
        }
    }
    assert(inv_table_names(m1));
    assert forall|id2: u64| s1.next_id <= id2 implies !#[trigger] id_used(m1, id2) by {
        assert(!id_used(m0, id2));
    }
    assert(fresh_ids(s1));
    assert forall|id2: u64, o: ShareGrantObject| #[trigger] in_obj_index(m1, id2, o) implies id2
        < s1.next_id by {
        assert(obj_ids_of(m1, o) == obj_ids_of(m0, o));
        assert(in_obj_index(m0, id2, o));
    }
    assert forall|id2: u64, did: u64| #[trigger] in_db_shared_by(m1, id2, did) implies id2
        < s1.next_id by {
        assert(db_meta_of(m1, did) == db_meta_of(m0, did));
        assert(in_db_shared_by(m0, id2, did));
    }
    assert(ids_bounded(s1));
}

} // verus!

verus! {

/// Granting privileges on one object preserves the catalog invariant:
/// the share's state, the object's reverse index, and (for a database)
/// the `shared_by` set move together.
pub proof fn lemma_grant_object_preserves(s0: KvStateV, s1: KvStateV, id: u64, o: ShareGrantObject)
    requires
        inv(s0),
        meta_of(s0.map, id) is Some,
        meta_of(s1.map, id) is Some,
        ({
            let me0 = meta_of(s0.map, id).unwrap();
            let me1 = meta_of(s1.map, id).unwrap();
            &&& me1.accounts == me0.accounts
            &&& (match o {
                ShareGrantObject::Database(did) => {
                    &&& me1.entries == me0.entries
                    &&& me1.database matches Some(e1) && e1.object == o
                    &&& (match me0.database {
                        Some(e0) => e0.object == o,
                        None => true,
                    })
                },
                ShareGrantObject::Table(tid) => {
                    &&& me1.database == me0.database
                    &&& me1.entries.contains_key(o) && me1.entries[o].object == o
                    &&& me1.entries == me0.entries.insert(o, me1.entries[o])
                    &&& me0.database matches Some(e) && (e.object matches
                        ShareGrantObject::Database(did0) && table_parent(s0.map, tid) == Some(
                        did0,
                    ))
                },
            })
        }),
        obj_ids_of(s1.map, o) matches Some(ids1) && ids1 == (match obj_ids_of(s0.map, o) {
            Some(x) => x,
            None => Set::<u64>::empty(),
        }).insert(id),
        forall|o2: ShareGrantObject|
            o2 != o ==> #[trigger] obj_ids_of(s1.map, o2) == obj_ids_of(s0.map, o2),
        (match o {
            ShareGrantObject::Database(did) => (db_meta_of(s0.map, did) matches Some(sb0)
                && db_meta_of(s1.map, did) == Some(sb0.insert(id))) && forall|d2: u64|
                d2 != did ==> #[trigger] db_meta_of(s1.map, d2) == db_meta_of(s0.map, d2),
            ShareGrantObject::Table(_) => forall|d2: u64| #[trigger]
                db_meta_of(s1.map, d2) == db_meta_of(s0.map, d2),
        }),
        forall|t2: Seq<char>, n2: Seq<char>| #[trigger]
            share_id_of(s1.map, t2, n2) == share_id_of(s0.map, t2, n2),
        forall|i2: u64| #[trigger] name_of(s1.map, i2) == name_of(s0.map, i2),
        forall|i2: u64| i2 != id ==> #[trigger] meta_of(s1.map, i2) == meta_of(s0.map, i2),
        forall|a: Seq<char>, i2: u64| #[trigger]
            account_of(s1.map, a, i2) == account_of(s0.map, a, i2),
        forall|t2: Seq<char>, dn: Seq<char>| #[trigger]
            db_id_of(s1.map, t2, dn) == db_id_of(s0.map, t2, dn),
        forall|d2: u64| #[trigger] db_name_of(s1.map, d2) == db_name_of(s0.map, d2),
        forall|d2: u64, tn: Seq<char>| #[trigger]
            table_id_of(s1.map, d2, tn) == table_id_of(s0.map, d2, tn),
        forall|ti: u64| #[trigger] table_name_of(s1.map, ti) == table_name_of(s0.map, ti),
        forall|ti: u64| #[trigger] table_meta_same(s0.map, s1.map, ti),
        forall|i2: u64| #[trigger] id_used(s1.map, i2) == id_used(s0.map, i2),
        s1.next_id == s0.next_id,
    ensures
        inv(s1),
{
    let m0 = s0.map;
    let m1 = s1.map;
    let me0 = meta_of(m0, id).unwrap();
    let me1 = meta_of(m1, id).unwrap();
    assert(id_used(m0, id));
    assert(id < s0.next_id);
    assert forall|o2: ShareGrantObject| me1.grants_object(o2) <==> (o2 == o || me0.grants_object(
        o2,
    )) by {
        match o {
            ShareGrantObject::Database(_) => {},
            ShareGrantObject::Table(_) => {},
        }
    }
    assert forall|t2: Seq<char>, n2: Seq<char>|
        match #[trigger] share_id_of(m1, t2, n2) {
            Some(id2) => name_of(m1, id2) == Some(ShareNameIdentV { tenant: t2, share_name: n2 }),
            None => true,
        } by {
        match share_id_of(m0, t2, n2) {
            Some(id2) => {
                assert(name_of(m1, id2) == name_of(m0, id2));
            },
            None => {},
        }
    }
    assert(inv_name_forward(m1));
    assert forall|id2: u64|
        match #[trigger] name_of(m1, id2) {
            Some(nm) => share_id_of(m1, nm.tenant, nm.share_name) == Some(id2),
            None => true,
        } by {
        match name_of(m0, id2) {
            Some(nm) => {
                assert(share_id_of(m1, nm.tenant, nm.share_name) == share_id_of(
                    m0,
                    nm.tenant,
                    nm.share_name,
                ));
            },
            None => {},
        }
    }
    assert(inv_name_back(m1));
    assert forall|id2: u64| (#[trigger] meta_of(m1, id2)) is Some <==> (#[trigger] name_of(
        m1,
        id2,
    )) is Some by {
        assert(name_of(m1, id2) == name_of(m0, id2));
        if id2 != id {
            assert(meta_of(m1, id2) == meta_of(m0, id2));
        }
    }
    assert(inv_meta_presence(m1));
    assert forall|a: Seq<char>, id2: u64|
        (match meta_of(m1, id2) {
            Some(me) => me.accounts.contains(a),
            None => false,
        }) implies (#[trigger] account_of(m1, a, id2)) is Some by {
        assert(account_of(m1, a, id2) == account_of(m0, a, id2));
        if id2 != id {
            assert(meta_of(m1, id2) == meta_of(m0, id2));
        }
        assert(account_of(m0, a, id2) is Some);
    }
    assert(inv_accounts_forward(m1));
    assert forall|a: Seq<char>, id2: u64|
        match #[trigger] account_of(m1, a, id2) {
            Some(am) => am.account == a && am.share_id == id2 && (match meta_of(m1, id2) {
                Some(me) => me.accounts.contains(a),
                None => false,
            }),
            None => true,
        } by {
        assert(account_of(m1, a, id2) == account_of(m0, a, id2));
        if id2 != id {
            assert(meta_of(m1, id2) == meta_of(m0, id2));
        }
        match account_of(m0, a, id2) {
            Some(am) => {
                assert(am.account == a && am.share_id == id2);
            },
            None => {},
        }
    }
    assert(inv_accounts_back(m1));
    assert forall|id2: u64, o2: ShareGrantObject| #[trigger] grants(m1, id2, o2) implies
        in_obj_index(m1, id2, o2) by {
        if id2 != id {
            assert(meta_of(m1, id2) == meta_of(m0, id2));
            assert(grants(m0, id2, o2));
            assert(in_obj_index(m0, id2, o2));
            if o2 == o {
            } else {
                assert(obj_ids_of(m1, o2) == obj_ids_of(m0, o2));
            }
        } else {
            if o2 == o {
            } else {
                assert(grants(m0, id, o2));
                assert(in_obj_index(m0, id, o2));
                assert(obj_ids_of(m1, o2) == obj_ids_of(m0, o2));
            }
        }
    }
    assert(inv_index_forward(m1));
    assert forall|id2: u64, o2: ShareGrantObject|
        (#[trigger] in_obj_index(m1, id2, o2) && meta_of(m1, id2) is Some) implies grants(
        m1,
        id2,
        o2,
    ) by {
        if o2 == o {
            if id2 == id {
            } else {
                assert(in_obj_index(m0, id2, o2));
                assert(meta_of(m1, id2) == meta_of(m0, id2));
                assert(grants(m0, id2, o2));
            }
        } else {
            assert(obj_ids_of(m1, o2) == obj_ids_of(m0, o2));
            assert(in_obj_index(m0, id2, o2));
            if id2 != id {
                assert(meta_of(m1, id2) == meta_of(m0, id2));
            }
            assert(meta_of(m0, id2) is Some);
            assert(grants(m0, id2, o2));
        }
    }
    assert(inv_index_back(m1));
    assert forall|id2: u64, tid2: u64| #[trigger]
        entry_grant(m1, id2, ShareGrantObject::Table(tid2)) implies (match db_grant_of(m1, id2) {
        Some(did2) => table_parent(m1, tid2) == Some(did2),
        None => false,
    }) by {
        assert(table_name_of(m1, tid2) == table_name_of(m0, tid2));
        if id2 != id {
            assert(meta_of(m1, id2) == meta_of(m0, id2));
            assert(entry_grant(m0, id2, ShareGrantObject::Table(tid2)));
        } else {
            match o {
                ShareGrantObject::Database(did) => {
                    assert(entry_grant(m0, id, ShareGrantObject::Table(tid2)));
                    match me0.database {
                        Some(e0) => {
                            assert(db_grant_of(m1, id) == db_grant_of(m0, id));
                        },
                        None => {
                            assert(db_grant_of(m0, id) is None);
                            assert(false);
                        },
                    }
                },
                ShareGrantObject::Table(tid) => {
                    if tid2 == tid {
                    } else {
                        assert(me0.entries.contains_key(ShareGrantObject::Table(tid2)));
                        assert(entry_grant(m0, id, ShareGrantObject::Table(tid2)));
                        assert(db_grant_of(m1, id) == db_grant_of(m0, id));
                    }
                },
            }
        }
    }
    assert(inv_db_before_table(m1));
    assert forall|id2: u64|
        match #[trigger] db_grant_of(m1, id2) {
            Some(did2) => in_db_shared_by(m1, id2, did2),
            None => true,
        } by {
        if id2 != id {
            assert(meta_of(m1, id2) == meta_of(m0, id2));
            match db_grant_of(m0, id2) {
                Some(did2) => {
                    assert(in_db_shared_by(m0, id2, did2));
                    match o {
                        ShareGrantObject::Database(did) => {
                            if did2 == did {
                                assert(db_meta_of(m0, did) is Some);
                            } else {
                                assert(db_meta_of(m1, did2) == db_meta_of(m0, did2));
                            }
                        },
                        ShareGrantObject::Table(_) => {
                            assert(db_meta_of(m1, did2) == db_meta_of(m0, did2));
                        },
                    }
                },
                None => {},
            }
        } else {
            match o {
                ShareGrantObject::Database(did) => {
                    assert(db_grant_of(m1, id) == Some(did));
                },
                ShareGrantObject::Table(_) => {
                    assert(db_grant_of(m1, id) == db_grant_of(m0, id));
                    match db_grant_of(m0, id) {
                        Some(did2) => {
                            assert(in_db_shared_by(m0, id, did2));
                            assert(db_meta_of(m1, did2) == db_meta_of(m0, did2));
                        },
                        None => {},
                    }
                },
            }
        }
    }
    assert(inv_shared_by_forward(m1));
    assert forall|id2: u64, did2: u64|
        (#[trigger] in_db_shared_by(m1, id2, did2) && meta_of(m1, id2) is Some) implies
        db_grant_of(m1, id2) == Some(did2) by {
        match o {
            ShareGrantObject::Database(did) => {
                if did2 == did {
                    if id2 == id {
                        assert(db_grant_of(m1, id) == Some(did));
                    } else {
                        assert(in_db_shared_by(m0, id2, did2));
                        assert(meta_of(m1, id2) == meta_of(m0, id2));
                        assert(db_grant_of(m0, id2) == Some(did2));
                    }
                } else {
                    assert(db_meta_of(m1, did2) == db_meta_of(m0, did2));
                    assert(in_db_shared_by(m0, id2, did2));
                    if id2 == id {
                        assert(db_grant_of(m0, id) == Some(did2));
                        match me0.database {
                            Some(e0) => {
                                assert(e0.object == o);
                                assert(false);
                            },
                            None => {
                                assert(false);
                            },
                        }
                    } else {
                        assert(meta_of(m1, id2) == meta_of(m0, id2));
                        assert(db_grant_of(m0, id2) == Some(did2));
                    }
                }
            },
            ShareGrantObject::Table(_) => {
                assert(db_meta_of(m1, did2) == db_meta_of(m0, did2));
                assert(in_db_shared_by(m0, id2, did2));
                if id2 != id {
                    assert(meta_of(m1, id2) == meta_of(m0, id2));
                }
                assert(meta_of(m0, id2) is Some);
                assert(db_grant_of(m0, id2) == Some(did2));
                if id2 == id {
                    assert(db_grant_of(m1, id) == db_grant_of(m0, id));
                }
            },
        }
    }
    assert(inv_shared_by_back(m1));
    assert forall|id2: u64|
        match (#[trigger] name_of(m1, id2), meta_of(m1, id2)) {
            (Some(nm), Some(me)) => !me.accounts.contains(nm.tenant),
            _ => true,
        } by {
        assert(name_of(m1, id2) == name_of(m0, id2));
        if id2 != id {
            assert(meta_of(m1, id2) == meta_of(m0, id2));
        }
    }
    assert(inv_no_self_share(m1));
    assert forall|t2: Seq<char>, dn: Seq<char>|
        match #[trigger] db_id_of(m1, t2, dn) {
            Some(did2) => db_name_of(m1, did2) == Some(
                DatabaseNameIdentV { tenant: t2, db_name: dn },
            ) && db_meta_of(m1, did2) is Some,
            None => true,
        } by {
        match db_id_of(m0, t2, dn) {
            Some(did2) => {
                assert(db_name_of(m1, did2) == db_name_of(m0, did2));
                assert(db_meta_of(m0, did2) is Some);
                match o {
                    ShareGrantObject::Database(did) => {
                        if did2 != did {
                            assert(db_meta_of(m1, did2) == db_meta_of(m0, did2));
                        }
                    },
                    ShareGrantObject::Table(_) => {
                        assert(db_meta_of(m1, did2) == db_meta_of(m0, did2));
                    },
                }
            },
            None => {},
        }
    }
    assert forall|did2: u64|
        match #[trigger] db_name_of(m1, did2) {
            Some(dn) => db_id_of(m1, dn.tenant, dn.db_name) == Some(did2),
            None => true,
        } by {
        match db_name_of(m0, did2) {
            Some(dn) => {
                assert(db_id_of(m1, dn.tenant, dn.db_name) == db_id_of(m0, dn.tenant, dn.db_name));
            },
            None => {},
        }
    }
    assert(inv_db_names(m1));
    assert forall|did2: u64, tn: Seq<char>|
        match #[trigger] table_id_of(m1, did2, tn) {
            Some(tid2) => table_name_of(m1, tid2) == Some(
                DBIdTableNameV { db_id: did2, table_name: tn },
            ) && m1.contains_key(KeyV::TableId(tid2)),
            None => true,
        } by {
        match table_id_of(m0, did2, tn) {
            Some(tid2) => {
                assert(table_name_of(m1, tid2) == table_name_of(m0, tid2));
                assert(m0.contains_key(KeyV::TableId(tid2)));
                assert(table_meta_same(m0, m1, tid2));
            },
            None => {},
        }
    }
    assert forall|tid2: u64|
        match #[trigger] table_name_of(m1, tid2) {
            Some(dtn) => table_id_of(m1, dtn.db_id, dtn.table_name) == Some(tid2),
            None => true,
        } by {
        match table_name_of(m0, tid2) {
            Some(dtn) => {
                assert(table_id_of(m1, dtn.db_id, dtn.table_name) == table_id_of(
                    m0,
                    dtn.db_id,
                    dtn.table_name,
                ));
            },
            None => {},
        }
    }
    assert(inv_table_names(m1));
    assert forall|id2: u64| s1.next_id <= id2 implies !#[trigger] id_used(m1, id2) by {
        assert(id_used(m1, id2) == id_used(m0, id2));
        assert(!id_used(m0, id2));
    }
    assert(fresh_ids(s1));
    assert forall|id2: u64, o2: ShareGrantObject| #[trigger] in_obj_index(m1, id2, o2) implies id2
        < s1.next_id by {
        if o2 == o && id2 == id {
        } else if o2 == o {
            assert(in_obj_index(m0, id2, o2));
        } else {
            assert(obj_ids_of(m1, o2) == obj_ids_of(m0, o2));
            assert(in_obj_index(m0, id2, o2));
        }
    }
    assert forall|id2: u64, did2: u64| #[trigger] in_db_shared_by(m1, id2, did2) implies id2
        < s1.next_id by {
        match o {
            ShareGrantObject::Database(did) => {
                if did2 == did && id2 == id {
                } else if did2 == did {
                    assert(in_db_shared_by(m0, id2, did2));
                } else {
                    assert(db_meta_of(m1, did2) == db_meta_of(m0, did2));
                    assert(in_db_shared_by(m0, id2, did2));
                }
            },
            ShareGrantObject::Table(_) => {
                assert(db_meta_of(m1, did2) == db_meta_of(m0, did2));
                assert(in_db_shared_by(m0, id2, did2));
            },
        }
    }
    assert(ids_bounded(s1));
}

} // verus!

verus! {

/// Fully revoking one object's grant preserves the catalog invariant:
/// the grant entry, the reverse-index member, and (for a database) the
/// `shared_by` member disappear together.
pub proof fn lemma_revoke_object_preserves(s0: KvStateV, s1: KvStateV, id: u64, o: ShareGrantObject)
    requires
        inv(s0),
        meta_of(s0.map, id) is Some,
        meta_of(s1.map, id) is Some,
        ({
            let me0 = meta_of(s0.map, id).unwrap();
            let me1 = meta_of(s1.map, id).unwrap();
            &&& me1.accounts == me0.accounts
            &&& (match o {
                ShareGrantObject::Database(did) => {
                    &&& me1.entries == me0.entries
                    &&& me0.entries == Map::<ShareGrantObject, ShareGrantEntry>::empty()
                    &&& me1.database is None
                    &&& me0.database matches Some(e0) && e0.object == o
                },
                ShareGrantObject::Table(_) => {
                    &&& me1.database == me0.database
                    &&& me1.entries == me0.entries.remove(o)
                },
            })
            &&& (match me0.database {
                Some(e0) => e0.object is Database,
                None => true,
            })
        }),
        obj_ids_of(s1.map, o) matches Some(ids1) && ids1 == (match obj_ids_of(s0.map, o) {
            Some(x) => x,
            None => Set::<u64>::empty(),
        }).remove(id),
        forall|o2: ShareGrantObject|
            o2 != o ==> #[trigger] obj_ids_of(s1.map, o2) == obj_ids_of(s0.map, o2),
        (match o {
            ShareGrantObject::Database(did) => (db_meta_of(s0.map, did) matches Some(sb0)
                && db_meta_of(s1.map, did) == Some(sb0.remove(id))) && forall|d2: u64|
                d2 != did ==> #[trigger] db_meta_of(s1.map, d2) == db_meta_of(s0.map, d2),
            ShareGrantObject::Table(_) => forall|d2: u64| #[trigger]
                db_meta_of(s1.map, d2) == db_meta_of(s0.map, d2),
        }),
        forall|t2: Seq<char>, n2: Seq<char>| #[trigger]
            share_id_of(s1.map, t2, n2) == share_id_of(s0.map, t2, n2),
        forall|i2: u64| #[trigger] name_of(s1.map, i2) == name_of(s0.map, i2),
        forall|i2: u64| i2 != id ==> #[trigger] meta_of(s1.map, i2) == meta_of(s0.map, i2),
        forall|a: Seq<char>, i2: u64| #[trigger]
            account_of(s1.map, a, i2) == account_of(s0.map, a, i2),
        forall|t2: Seq<char>, dn: Seq<char>| #[trigger]
            db_id_of(s1.map, t2, dn) == db_id_of(s0.map, t2, dn),
        forall|d2: u64| #[trigger] db_name_of(s1.map, d2) == db_name_of(s0.map, d2),
        forall|d2: u64, tn: Seq<char>| #[trigger]
            table_id_of(s1.map, d2, tn) == table_id_of(s0.map, d2, tn),
        forall|ti: u64| #[trigger] table_name_of(s1.map, ti) == table_name_of(s0.map, ti),
        forall|ti: u64| #[trigger] table_meta_same(s0.map, s1.map, ti),
        forall|i2: u64| #[trigger] id_used(s1.map, i2) == id_used(s0.map, i2),
        s1.next_id == s0.next_id,
    ensures
        inv(s1),
{
    let m0 = s0.map;
    let m1 = s1.map;
    let me0 = meta_of(m0, id).unwrap();
    let me1 = meta_of(m1, id).unwrap();
    assert forall|o2: ShareGrantObject| me1.grants_object(o2) implies (o2 != o
        && me0.grants_object(o2)) by {
        match o {
            ShareGrantObject::Database(_) => {},
            ShareGrantObject::Table(_) => {},
        }
    }
    assert forall|o2: ShareGrantObject| (o2 != o && me0.grants_object(o2)) implies
        me1.grants_object(o2) by {
        match o {
            ShareGrantObject::Database(_) => {
                if me0.entries.contains_key(o2) {
                    assert(false);
                }
                match me0.database {
                    Some(e0) => {
                        assert(e0.object == o);
                    },
                    None => {},
                }
            },
            ShareGrantObject::Table(_) => {},
        }
    }
    assert forall|t2: Seq<char>, n2: Seq<char>|
        match #[trigger] share_id_of(m1, t2, n2) {
            Some(id2) => name_of(m1, id2) == Some(ShareNameIdentV { tenant: t2, share_name: n2 }),
            None => true,
        } by {
        match share_id_of(m0, t2, n2) {
            Some(id2) => {
                assert(name_of(m1, id2) == name_of(m0, id2));
            },
            None => {},
        }
    }
    assert(inv_name_forward(m1));
    assert forall|id2: u64|
        match #[trigger] name_of(m1, id2) {
            Some(nm) => share_id_of(m1, nm.tenant, nm.share_name) == Some(id2),
            None => true,
        } by {
        match name_of(m0, id2) {
            Some(nm) => {
                assert(share_id_of(m1, nm.tenant, nm.share_name) == share_id_of(
                    m0,
                    nm.tenant,
                    nm.share_name,
                ));
            },
            None => {},
        }
    }
    assert(inv_name_back(m1));
    assert forall|id2: u64| (#[trigger] meta_of(m1, id2)) is Some <==> (#[trigger] name_of(
        m1,
        id2,
    )) is Some by {
        assert(name_of(m1, id2) == name_of(m0, id2));
        if id2 != id {
            assert(meta_of(m1, id2) == meta_of(m0, id2));
        }
    }
    assert(inv_meta_presence(m1));
    assert forall|a: Seq<char>, id2: u64|
        (match meta_of(m1, id2) {
            Some(me) => me.accounts.contains(a),
            None => false,
        }) implies (#[trigger] account_of(m1, a, id2)) is Some by {
        assert(account_of(m1, a, id2) == account_of(m0, a, id2));
        if id2 != id {
            assert(meta_of(m1, id2) == meta_of(m0, id2));
        }
        assert(account_of(m0, a, id2) is Some);
    }
    assert(inv_accounts_forward(m1));
    assert forall|a: Seq<char>, id2: u64|
        match #[trigger] account_of(m1, a, id2) {
            Some(am) => am.account == a && am.share_id == id2 && (match meta_of(m1, id2) {
                Some(me) => me.accounts.contains(a),
                None => false,
            }),
            None => true,
        } by {
        assert(account_of(m1, a, id2) == account_of(m0, a, id2));
        if id2 != id {
            assert(meta_of(m1, id2) == meta_of(m0, id2));
        }
        match account_of(m0, a, id2) {
            Some(am) => {
                assert(am.account == a && am.share_id == id2);
            },
            None => {},
        }
    }
    assert(inv_accounts_back(m1));
    assert forall|id2: u64, o2: ShareGrantObject| #[trigger] grants(m1, id2, o2) implies
        in_obj_index(m1, id2, o2) by {
        if id2 != id {
            assert(meta_of(m1, id2) == meta_of(m0, id2));
            assert(grants(m0, id2, o2));
            assert(in_obj_index(m0, id2, o2));
            if o2 == o {
            } else {
                assert(obj_ids_of(m1, o2) == obj_ids_of(m0, o2));
            }
        } else {
            assert(o2 != o && me0.grants_object(o2));
            assert(grants(m0, id, o2));
            assert(in_obj_index(m0, id, o2));
            assert(obj_ids_of(m1, o2) == obj_ids_of(m0, o2));
        }
    }
    assert(inv_index_forward(m1));
    assert forall|id2: u64, o2: ShareGrantObject|
        (#[trigger] in_obj_index(m1, id2, o2) && meta_of(m1, id2) is Some) implies grants(
        m1,
        id2,
        o2,
    ) by {
        if o2 == o {
            assert(id2 != id);
            assert(in_obj_index(m0, id2, o2));
            assert(meta_of(m1, id2) == meta_of(m0, id2));
            assert(grants(m0, id2, o2));
        } else {
            assert(obj_ids_of(m1, o2) == obj_ids_of(m0, o2));
            assert(in_obj_index(m0, id2, o2));
            if id2 != id {
                assert(meta_of(m1, id2) == meta_of(m0, id2));
                assert(meta_of(m0, id2) is Some);
                assert(grants(m0, id2, o2));
            } else {
                assert(meta_of(m0, id) is Some);
                assert(grants(m0, id, o2));
                assert(me0.grants_object(o2));
            }
        }
    }
    assert(inv_index_back(m1));
    assert forall|id2: u64, tid2: u64| #[trigger]
        entry_grant(m1, id2, ShareGrantObject::Table(tid2)) implies (match db_grant_of(m1, id2) {
        Some(did2) => table_parent(m1, tid2) == Some(did2),
        None => false,
    }) by {
        assert(table_name_of(m1, tid2) == table_name_of(m0, tid2));
        if id2 != id {
            assert(meta_of(m1, id2) == meta_of(m0, id2));
            assert(entry_grant(m0, id2, ShareGrantObject::Table(tid2)));
        } else {
            match o {
                ShareGrantObject::Database(_) => {
                    assert(false);
                },
                ShareGrantObject::Table(_) => {
                    assert(me0.entries.contains_key(ShareGrantObject::Table(tid2)));
                    assert(entry_grant(m0, id, ShareGrantObject::Table(tid2)));
                    assert(db_grant_of(m1, id) == db_grant_of(m0, id));
                },
            }
        }
    }
    assert(inv_db_before_table(m1));
    assert forall|id2: u64|
        match #[trigger] db_grant_of(m1, id2) {
            Some(did2) => in_db_shared_by(m1, id2, did2),
            None => true,
        } by {
        if id2 != id {
            assert(meta_of(m1, id2) == meta_of(m0, id2));
            match db_grant_of(m0, id2) {
                Some(did2) => {
                    assert(in_db_shared_by(m0, id2, did2));
                    match o {
                        ShareGrantObject::Database(did) => {
                            if did2 == did {
                            } else {
                                assert(db_meta_of(m1, did2) == db_meta_of(m0, did2));
                            }
                        },
                        ShareGrantObject::Table(_) => {
                            assert(db_meta_of(m1, did2) == db_meta_of(m0, did2));
                        },
                    }
                },
                None => {},
            }
        } else {
            match o {
                ShareGrantObject::Database(_) => {
                    assert(db_grant_of(m1, id) is None);
                },
                ShareGrantObject::Table(_) => {
                    assert(db_grant_of(m1, id) == db_grant_of(m0, id));
                    match db_grant_of(m0, id) {
                        Some(did2) => {
                            assert(in_db_shared_by(m0, id, did2));
                            assert(db_meta_of(m1, did2) == db_meta_of(m0, did2));
                        },
                        None => {},
                    }
                },
            }
        }
    }
    assert(inv_shared_by_forward(m1));
    assert forall|id2: u64, did2: u64|
        (#[trigger] in_db_shared_by(m1, id2, did2) && meta_of(m1, id2) is Some) implies
        db_grant_of(m1, id2) == Some(did2) by {
        match o {
            ShareGrantObject::Database(did) => {
                if did2 == did {
                    assert(id2 != id);
                    assert(in_db_shared_by(m0, id2, did2));
                    assert(meta_of(m1, id2) == meta_of(m0, id2));
                    assert(db_grant_of(m0, id2) == Some(did2));
                } else {
                    assert(db_meta_of(m1, did2) == db_meta_of(m0, did2));
                    assert(in_db_shared_by(m0, id2, did2));
                    if id2 == id {
                        assert(meta_of(m0, id) is Some);
                        assert(db_grant_of(m0, id) == Some(did2));
                        match me0.database {
                            Some(e0) => {
                                assert(e0.object == o);
                                assert(false);
                            },
                            None => {
                                assert(false);
                            },
                        }
                    } else {
                        assert(meta_of(m1, id2) == meta_of(m0, id2));
                        assert(db_grant_of(m0, id2) == Some(did2));
                    }
                }
            },
            ShareGrantObject::Table(_) => {
                assert(db_meta_of(m1, did2) == db_meta_of(m0, did2));
                assert(in_db_shared_by(m0, id2, did2));
                if id2 != id {
                    assert(meta_of(m1, id2) == meta_of(m0, id2));
                }
                assert(meta_of(m0, id2) is Some);
                assert(db_grant_of(m0, id2) == Some(did2));
                if id2 == id {
                    assert(db_grant_of(m1, id) == db_grant_of(m0, id));
                }
            },
        }
    }
    assert(inv_shared_by_back(m1));
    assert forall|id2: u64|
        match (#[trigger] name_of(m1, id2), meta_of(m1, id2)) {
            (Some(nm), Some(me)) => !me.accounts.contains(nm.tenant),
            _ => true,
        } by {
        assert(name_of(m1, id2) == name_of(m0, id2));
        if id2 != id {
            assert(meta_of(m1, id2) == meta_of(m0, id2));
        }
    }
    assert(inv_no_self_share(m1));
    assert forall|t2: Seq<char>, dn: Seq<char>|
        match #[trigger] db_id_of(m1, t2, dn) {
            Some(did2) => db_name_of(m1, did2) == Some(
                DatabaseNameIdentV { tenant: t2, db_name: dn },
            ) && db_meta_of(m1, did2) is Some,
            None => true,
        } by {
        match db_id_of(m0, t2, dn) {
            Some(did2) => {
                assert(db_name_of(m1, did2) == db_name_of(m0, did2));
                assert(db_meta_of(m0, did2) is Some);
                match o {
                    ShareGrantObject::Database(did) => {
                        if did2 != did {
                            assert(db_meta_of(m1, did2) == db_meta_of(m0, did2));
                        }
                    },
                    ShareGrantObject::Table(_) => {
                        assert(db_meta_of(m1, did2) == db_meta_of(m0, did2));
                    },
                }
            },
            None => {},
        }
    }
    assert forall|did2: u64|
        match #[trigger] db_name_of(m1, did2) {
            Some(dn) => db_id_of(m1, dn.tenant, dn.db_name) == Some(did2),
            None => true,
        } by {
        match db_name_of(m0, did2) {
            Some(dn) => {
                assert(db_id_of(m1, dn.tenant, dn.db_name) == db_id_of(m0, dn.tenant, dn.db_name));
            },
            None => {},
        }
    }
    assert(inv_db_names(m1));
    assert forall|did2: u64, tn: Seq<char>|
        match #[trigger] table_id_of(m1, did2, tn) {
            Some(tid2) => table_name_of(m1, tid2) == Some(
                DBIdTableNameV { db_id: did2, table_name: tn },
            ) && m1.contains_key(KeyV::TableId(tid2)),
            None => true,
        } by {
        match table_id_of(m0, did2, tn) {
            Some(tid2) => {
                assert(table_name_of(m1, tid2) == table_name_of(m0, tid2));
                assert(m0.contains_key(KeyV::TableId(tid2)));
                assert(table_meta_same(m0, m1, tid2));
            },
            None => {},
        }
    }
    assert forall|tid2: u64|
        match #[trigger] table_name_of(m1, tid2) {
            Some(dtn) => table_id_of(m1, dtn.db_id, dtn.table_name) == Some(tid2),
            None => true,
        } by {
        match table_name_of(m0, tid2) {
            Some(dtn) => {
                assert(table_id_of(m1, dtn.db_id, dtn.table_name) == table_id_of(
                    m0,
                    dtn.db_id,
                    dtn.table_name,
                ));
            },
            None => {},
        }
    }
    assert(inv_table_names(m1));
    assert forall|id2: u64| s1.next_id <= id2 implies !#[trigger] id_used(m1, id2) by {
        assert(id_used(m1, id2) == id_used(m0, id2));
        assert(!id_used(m0, id2));
    }
    assert(fresh_ids(s1));
    assert forall|id2: u64, o2: ShareGrantObject| #[trigger] in_obj_index(m1, id2, o2) implies id2
        < s1.next_id by {
        if o2 == o {
            assert(in_obj_index(m0, id2, o2));
        } else {
            assert(obj_ids_of(m1, o2) == obj_ids_of(m0, o2));
            assert(in_obj_index(m0, id2, o2));
        }
    }
    assert forall|id2: u64, did2: u64| #[trigger] in_db_shared_by(m1, id2, did2) implies id2
        < s1.next_id by {
        match o {
            ShareGrantObject::Database(did) => {
                if did2 == did {
                    assert(in_db_shared_by(m0, id2, did2));
                } else {
                    assert(db_meta_of(m1, did2) == db_meta_of(m0, did2));
                    assert(in_db_shared_by(m0, id2, did2));
                }
            },
            ShareGrantObject::Table(_) => {
                assert(db_meta_of(m1, did2) == db_meta_of(m0, did2));
                assert(in_db_shared_by(m0, id2, did2));
            },
        }
    }
    assert(ids_bounded(s1));
}

} // verus!

verus! {

/// Registering a database (name binding, empty metadata, reverse
/// binding) preserves the catalog invariant.
pub proof fn lemma_create_database_preserves(
    s0: KvStateV,
    s1: KvStateV,
    t: Seq<char>,
    dn: Seq<char>,
    did: u64,
    sq: u64,
)
    requires
        inv(s0),
        db_id_of(s0.map, t, dn) is None,
        did == s0.next_id,
        s1.map == s0.map.insert(db_name_key(t, dn), (sq, ValueV::Id(did))).insert(
            KeyV::DatabaseId(did),
            (sq, ValueV::DatabaseMeta(Set::<u64>::empty())),
        ).insert(
            KeyV::DatabaseIdToName(did),
            (sq, ValueV::DatabaseName(DatabaseNameIdentV { tenant: t, db_name: dn })),
        ),
        s1.next_id == s0.next_id + 1,
    ensures
        inv(s1),
{
    broadcast use group_accessor_frames;

    let m0 = s0.map;
    let m1 = s1.map;
    let nm = DatabaseNameIdentV { tenant: t, db_name: dn };
    assert(!id_used(m0, did));
    assert(db_id_of(m1, t, dn) == Some(did));
    assert(db_meta_of(m1, did) == Some(Set::<u64>::empty()));
    assert(db_name_of(m1, did) == Some(nm));
    assert forall|d2: u64| #[trigger] db_name_of(m0, d2) is Some implies d2 != did by {
        assert(id_used(m0, d2));
    }
    assert forall|d2: u64| #[trigger] db_meta_of(m0, d2) is Some implies d2 != did by {
        assert(id_used(m0, d2));
    }
    assert(inv_name_forward(m1));
    assert(inv_name_back(m1));
    assert(inv_meta_presence(m1));
    assert(inv_accounts_forward(m1));
    assert(inv_accounts_back(m1));
    assert forall|id2: u64, o: ShareGrantObject| #[trigger] grants(m1, id2, o) implies in_obj_index(
        m1,
        id2,
        o,
    ) by {
        assert(obj_ids_of(m1, o) == obj_ids_of(m0, o));
        assert(meta_of(m1, id2) == meta_of(m0, id2));
        assert(grants(m0, id2, o));
    }
    assert(inv_index_forward(m1));
    assert forall|id2: u64, o: ShareGrantObject|
        (#[trigger] in_obj_index(m1, id2, o) && meta_of(m1, id2) is Some) implies grants(
        m1,
        id2,
        o,
    ) by {
        assert(obj_ids_of(m1, o) == obj_ids_of(m0, o));
        assert(in_obj_index(m0, id2, o));
        assert(meta_of(m1, id2) == meta_of(m0, id2));
        assert(grants(m0, id2, o));
    }
    assert(inv_index_back(m1));
    assert forall|id2: u64, tid: u64| #[trigger]
        entry_grant(m1, id2, ShareGrantObject::Table(tid)) implies (match db_grant_of(m1, id2) {
        Some(did2) => table_parent(m1, tid) == Some(did2),
        None => false,
    }) by {
        assert(table_name_of(m1, tid) == table_name_of(m0, tid));
        assert(meta_of(m1, id2) == meta_of(m0, id2));
        assert(entry_grant(m0, id2, ShareGrantObject::Table(tid)));
    }
    assert(inv_db_before_table(m1));
    assert forall|id2: u64|
        match #[trigger] db_grant_of(m1, id2) {
            Some(did2) => in_db_shared_by(m1, id2, did2),
            None => true,
        } by {
        assert(meta_of(m1, id2) == meta_of(m0, id2));
        match db_grant_of(m0, id2) {
            Some(did2) => {
                assert(in_db_shared_by(m0, id2, did2));
                assert(db_meta_of(m0, did2) is Some);
                assert(did2 != did);
                assert(db_meta_of(m1, did2) == db_meta_of(m0, did2));
            },
            None => {},
        }
    }
    assert(inv_shared_by_forward(m1));
    assert forall|id2: u64, did2: u64|
        (#[trigger] in_db_shared_by(m1, id2, did2) && meta_of(m1, id2) is Some) implies
        db_grant_of(m1, id2) == Some(did2) by {
        if did2 == did {
            assert(db_meta_of(m1, did) == Some(Set::<u64>::empty()));
        } else {
            assert(db_meta_of(m1, did2) == db_meta_of(m0, did2));
            assert(in_db_shared_by(m0, id2, did2));
            assert(meta_of(m1, id2) == meta_of(m0, id2));
            assert(db_grant_of(m0, id2) == Some(did2));
        }
    }
    assert(inv_shared_by_back(m1));
    assert(inv_no_self_share(m1));
    assert forall|t2: Seq<char>, dn2: Seq<char>|
        match #[trigger] db_id_of(m1, t2, dn2) {
            Some(did2) => db_name_of(m1, did2) == Some(
                DatabaseNameIdentV { tenant: t2, db_name: dn2 },
            ) && db_meta_of(m1, did2) is Some,
            None => true,
        } by {
        if t2 == t && dn2 == dn {
        } else {
            assert(db_id_of(m1, t2, dn2) == db_id_of(m0, t2, dn2));
            match db_id_of(m0, t2, dn2) {
                Some(did2) => {
                    assert(db_name_of(m0, did2) is Some);
                    assert(did2 != did);
                    assert(db_name_of(m1, did2) == db_name_of(m0, did2));
                    assert(db_meta_of(m1, did2) == db_meta_of(m0, did2));
                },
                None => {},
            }
        }
    }
    assert forall|did2: u64|
        match #[trigger] db_name_of(m1, did2) {
            Some(dn2) => db_id_of(m1, dn2.tenant, dn2.db_name) == Some(did2),
            None => true,
        } by {
        if did2 != did {
            match db_name_of(m0, did2) {
                Some(dn2) => {
                    assert(db_id_of(m0, dn2.tenant, dn2.db_name) == Some(did2));
                    assert(!(dn2.tenant == t && dn2.db_name == dn));
                    assert(db_id_of(m1, dn2.tenant, dn2.db_name) == db_id_of(
                        m0,
                        dn2.tenant,
                        dn2.db_name,
                    ));
                },
                None => {},
            }
        }
    }
    assert(inv_db_names(m1));
    assert forall|did2: u64, tn: Seq<char>|
        match #[trigger] table_id_of(m1, did2, tn) {
            Some(tid) => table_name_of(m1, tid) == Some(
                DBIdTableNameV { db_id: did2, table_name: tn },
            ) && m1.contains_key(KeyV::TableId(tid)),
            None => true,
        } by {
        match table_id_of(m0, did2, tn) {
            Some(tid) => {
                assert(table_name_of(m1, tid) == table_name_of(m0, tid));
                assert(m0.contains_key(KeyV::TableId(tid)));
                assert(id_used(m0, tid));
                assert(tid != did);
            },
            None => {},
        }
    }
    assert forall|tid: u64|
        match #[trigger] table_name_of(m1, tid) {
            Some(dtn) => table_id_of(m1, dtn.db_id, dtn.table_name) == Some(tid),
            None => true,
        } by {
        match table_name_of(m0, tid) {
            Some(dtn) => {
                assert(table_id_of(m1, dtn.db_id, dtn.table_name) == table_id_of(
                    m0,
                    dtn.db_id,
                    dtn.table_name,
                ));
            },
            None => {},
        }
    }
    assert(inv_table_names(m1));
    assert forall|id2: u64| s1.next_id <= id2 implies !#[trigger] id_used(m1, id2) by {
        assert(!id_used(m0, id2));
        assert(id2 != did);
    }
    assert(fresh_ids(s1));
    assert forall|id2: u64, o: ShareGrantObject| #[trigger] in_obj_index(m1, id2, o) implies id2
        < s1.next_id by {
        assert(obj_ids_of(m1, o) == obj_ids_of(m0, o));
        assert(in_obj_index(m0, id2, o));
    }
    assert forall|id2: u64, did2: u64| #[trigger] in_db_shared_by(m1, id2, did2) implies id2
        < s1.next_id by {
        if did2 != did {
            assert(db_meta_of(m1, did2) == db_meta_of(m0, did2));
            assert(in_db_shared_by(m0, id2, did2));
        }
    }
    assert(ids_bounded(s1));
}

/// Registering a table under an existing database preserves the catalog
/// invariant.
pub proof fn lemma_create_table_preserves(
    s0: KvStateV,
    s1: KvStateV,
    did: u64,
    tn: Seq<char>,
    tid: u64,
    sq: u64,
)
    requires
        inv(s0),
        table_id_of(s0.map, did, tn) is None,
        tid == s0.next_id,
        s1.map == s0.map.insert(table_name_key(did, tn), (sq, ValueV::Id(tid))).insert(
            KeyV::TableId(tid),
            (sq, ValueV::TableMeta(crate::meta::TableMeta { created_on: 0 })),
        ).insert(
            KeyV::TableIdToName(tid),
            (sq, ValueV::TableName(DBIdTableNameV { db_id: did, table_name: tn })),
        ),
        s1.next_id == s0.next_id + 1,
    ensures
        inv(s1),
{
    broadcast use group_accessor_frames;

    let m0 = s0.map;
    let m1 = s1.map;
    let dtn = DBIdTableNameV { db_id: did, table_name: tn };
    assert(!id_used(m0, tid));
    assert(table_id_of(m1, did, tn) == Some(tid));
    assert(table_name_of(m1, tid) == Some(dtn));
    assert(m1.contains_key(KeyV::TableId(tid)));
    assert forall|t2: u64| #[trigger] table_name_of(m0, t2) is Some implies t2 != tid by {
        assert(id_used(m0, t2));
    }
    assert(inv_name_forward(m1));
    assert(inv_name_back(m1));
    assert(inv_meta_presence(m1));
    assert(inv_accounts_forward(m1));
    assert(inv_accounts_back(m1));
    assert forall|id2: u64, o: ShareGrantObject| #[trigger] grants(m1, id2, o) implies in_obj_index(
        m1,
        id2,
        o,
    ) by {
        assert(obj_ids_of(m1, o) == obj_ids_of(m0, o));
        assert(meta_of(m1, id2) == meta_of(m0, id2));
        assert(grants(m0, id2, o));
    }
    assert(inv_index_forward(m1));
    assert forall|id2: u64, o: ShareGrantObject|
        (#[trigger] in_obj_index(m1, id2, o) && meta_of(m1, id2) is Some) implies grants(
        m1,
        id2,
        o,
    ) by {
        assert(obj_ids_of(m1, o) == obj_ids_of(m0, o));
        assert(in_obj_index(m0, id2, o));
        assert(meta_of(m1, id2) == meta_of(m0, id2));
        assert(grants(m0, id2, o));
    }
    assert(inv_index_back(m1));
    assert forall|id2: u64, tid2: u64| #[trigger]
        entry_grant(m1, id2, ShareGrantObject::Table(tid2)) implies (match db_grant_of(m1, id2) {
        Some(did2) => table_parent(m1, tid2) == Some(did2),
        None => false,
    }) by {
        assert(meta_of(m1, id2) == meta_of(m0, id2));
        assert(entry_grant(m0, id2, ShareGrantObject::Table(tid2)));
        assert(table_name_of(m0, tid2) is Some);
        assert(tid2 != tid);
        assert(table_name_of(m1, tid2) == table_name_of(m0, tid2));
    }
    assert(inv_db_before_table(m1));
    assert forall|id2: u64|
        match #[trigger] db_grant_of(m1, id2) {
            Some(did2) => in_db_shared_by(m1, id2, did2),
            None => true,
        } by {
        assert(meta_of(m1, id2) == meta_of(m0, id2));
        match db_grant_of(m0, id2) {
            Some(did2) => {
                assert(in_db_shared_by(m0, id2, did2));
                assert(db_meta_of(m1, did2) == db_meta_of(m0, did2));
            },
            None => {},
        }
    }
    assert(inv_shared_by_forward(m1));
    assert forall|id2: u64, did2: u64|
        (#[trigger] in_db_shared_by(m1, id2, did2) && meta_of(m1, id2) is Some) implies
        db_grant_of(m1, id2) == Some(did2) by {
        assert(db_meta_of(m1, did2) == db_meta_of(m0, did2));
        assert(in_db_shared_by(m0, id2, did2));
        assert(meta_of(m1, id2) == meta_of(m0, id2));
        assert(db_grant_of(m0, id2) == Some(did2));
    }
    assert(inv_shared_by_back(m1));
    assert(inv_no_self_share(m1));
    assert forall|t2: Seq<char>, dn2: Seq<char>|
        match #[trigger] db_id_of(m1, t2, dn2) {
            Some(did2) => db_name_of(m1, did2) == Some(
                DatabaseNameIdentV { tenant: t2, db_name: dn2 },
            ) && db_meta_of(m1, did2) is Some,
            None => true,
        } by {
        match db_id_of(m0, t2, dn2) {
            Some(did2) => {
                assert(db_name_of(m1, did2) == db_name_of(m0, did2));
                assert(db_meta_of(m1, did2) == db_meta_of(m0, did2));
            },
            None => {},
        }
    }
    assert forall|did2: u64|
        match #[trigger] db_name_of(m1, did2) {
            Some(dn2) => db_id_of(m1, dn2.tenant, dn2.db_name) == Some(did2),
            None => true,
        } by {
        match db_name_of(m0, did2) {
            Some(dn2) => {
                assert(db_id_of(m1, dn2.tenant, dn2.db_name) == db_id_of(
                    m0,
                    dn2.tenant,
                    dn2.db_name,
                ));
            },
            None => {},
        }
    }
    assert(inv_db_names(m1));
    assert forall|did2: u64, tn2: Seq<char>|
        match #[trigger] table_id_of(m1, did2, tn2) {
            Some(tid2) => table_name_of(m1, tid2) == Some(
                DBIdTableNameV { db_id: did2, table_name: tn2 },
            ) && m1.contains_key(KeyV::TableId(tid2)),
            None => true,
        } by {
        if did2 == did && tn2 == tn {
        } else {
            assert(table_id_of(m1, did2, tn2) == table_id_of(m0, did2, tn2));
            match table_id_of(m0, did2, tn2) {
                Some(tid2) => {
                    assert(table_name_of(m0, tid2) is Some);
                    assert(tid2 != tid);
                    assert(table_name_of(m1, tid2) == table_name_of(m0, tid2));
                    assert(m0.contains_key(KeyV::TableId(tid2)));
                },
                None => {},
            }
        }
    }
    assert forall|tid2: u64|
        match #[trigger] table_name_of(m1, tid2) {
            Some(dtn2) => table_id_of(m1, dtn2.db_id, dtn2.table_name) == Some(tid2),
            None => true,
        } by {
        if tid2 != tid {
            match table_name_of(m0, tid2) {
                Some(dtn2) => {
                    assert(table_id_of(m0, dtn2.db_id, dtn2.table_name) == Some(tid2));
                    assert(!(dtn2.db_id == did && dtn2.table_name == tn));
                    assert(table_id_of(m1, dtn2.db_id, dtn2.table_name) == table_id_of(
                        m0,
                        dtn2.db_id,
                        dtn2.table_name,
                    ));
                },
                None => {},
            }
        }
    }
    assert(inv_table_names(m1));
    assert forall|id2: u64| s1.next_id <= id2 implies !#[trigger] id_used(m1, id2) by {
        assert(!id_used(m0, id2));
        assert(id2 != tid);
    }
    assert(fresh_ids(s1));
    assert forall|id2: u64, o: ShareGrantObject| #[trigger] in_obj_index(m1, id2, o) implies id2
        < s1.next_id by {
        assert(obj_ids_of(m1, o) == obj_ids_of(m0, o));
        assert(in_obj_index(m0, id2, o));
    }
    assert forall|id2: u64, did2: u64| #[trigger] in_db_shared_by(m1, id2, did2) implies id2
        < s1.next_id by {
        assert(db_meta_of(m1, did2) == db_meta_of(m0, did2));
        assert(in_db_shared_by(m0, id2, did2));
    }
    assert(ids_bounded(s1));
}

} // verus!
