use share_catalog::api::add_share_tenants;
use share_catalog::api::create_share;
use share_catalog::api::AddShareAccountsReq;
use share_catalog::api::CreateShareReq;
use share_catalog::api::TXN_MAX_RETRY_TIMES;
use share_catalog::kv::Key;
use share_catalog::kv::KvStore;
use share_catalog::kv::TxnCondition;
use share_catalog::kv::TxnOp;
use share_catalog::kv::TxnRequest;
use share_catalog::kv::Value;
use share_catalog::types::ShareError;
use share_catalog::types::ShareNameIdent;

fn ident(tenant: &str, share: &str) -> ShareNameIdent {
    ShareNameIdent {
        tenant: String::from(tenant),
        share_name: String::from(share),
    }
}

#[test]
fn concurrent_creators_yield_one_share() {
    let mut kv = KvStore::new();
    let first = create_share(
        &mut kv,
        &CreateShareReq {
            if_not_exists: false,
            share_name: ident("A", "s1"),
            comment: None,
            create_on: 1,
        },
    );
    let winner_id = first.expect("first creator").share_id;

    // A second creator racing on the same name loses with the error, or
    // observes the same id under if_not_exists.
    let loser = create_share(
        &mut kv,
        &CreateShareReq {
            if_not_exists: false,
            share_name: ident("A", "s1"),
            comment: None,
            create_on: 1,
        },
    );
    assert!(matches!(loser, Err(ShareError::ShareAlreadyExists(_))));
    let observer = create_share(
        &mut kv,
        &CreateShareReq {
            if_not_exists: true,
            share_name: ident("A", "s1"),
            comment: None,
            create_on: 1,
        },
    )
    .expect("if_not_exists");
    assert_eq!(observer.share_id, winner_id);

    // Exactly one forward binding exists.
    let (seq, v) = kv.get(&Key::ShareName(ident("A", "s1")));
    assert!(seq > 0);
    assert!(matches!(v, Some(Value::Id(id)) if id == winner_id));
}

#[test]
fn concurrent_add_converges() {
    let mut kv = KvStore::new();
    create_share(
        &mut kv,
        &CreateShareReq {
            if_not_exists: false,
            share_name: ident("A", "s1"),
            comment: None,
            create_on: 1,
        },
    )
    .expect("create");

    // Two adders of the same account from the same pre-state: the first
    // commits; the second re-reads, observes the account present, and
    // reports it.
    let first = add_share_tenants(
        &mut kv,
        &AddShareAccountsReq {
            share_name: ident("A", "s1"),
            if_exists: false,
            accounts: vec![String::from("B")],
            share_on: 2,
        },
    );
    assert!(first.is_ok());
    let second = add_share_tenants(
        &mut kv,
        &AddShareAccountsReq {
            share_name: ident("A", "s1"),
            if_exists: false,
            accounts: vec![String::from("B")],
            share_on: 2,
        },
    );
    assert!(matches!(
        second,
        Err(ShareError::ShareAccountsAlreadyExists(_, _))
    ));

    let accounts = share_catalog::queries::get_grant_tenants_of_share(
        &kv,
        &share_catalog::queries::GetShareGrantTenantsReq {
            share_name: ident("A", "s1"),
        },
    )
    .expect("accounts")
    .accounts;
    assert_eq!(accounts, vec![String::from("B")]);
}

#[test]
fn stale_transaction_is_refused() {
    let mut kv = KvStore::new();
    create_share(
        &mut kv,
        &CreateShareReq {
            if_not_exists: false,
            share_name: ident("A", "s1"),
            comment: None,
            create_on: 1,
        },
    )
    .expect("create");

    // A writer that still believes the name is unbound (sequence 0)
    // fails its compare-and-swap and changes nothing.
    let (seq_before, _) = kv.get(&Key::ShareName(ident("A", "s1")));
    assert!(seq_before > 0);
    let stale = TxnRequest {
        condition: vec![TxnCondition {
            key: Key::ShareName(ident("A", "s1")),
            seq: 0,
        }],
        if_then: vec![TxnOp::Put(Key::ShareName(ident("A", "s1")), Value::Id(999))],
    };
    let succ = kv.send_txn(&stale);
    assert!(!succ);
    let (seq_after, v) = kv.get(&Key::ShareName(ident("A", "s1")));
    assert_eq!(seq_before, seq_after);
    assert!(matches!(v, Some(Value::Id(id)) if id != 999));
}

#[test]
fn conflicting_write_invalidates_a_pinned_read() {
    let mut kv = KvStore::new();
    create_share(
        &mut kv,
        &CreateShareReq {
            if_not_exists: false,
            share_name: ident("A", "s1"),
            comment: None,
            create_on: 1,
        },
    )
    .expect("create");

    // An operation pins the sequence number it read; a concurrent writer
    // that commits in between invalidates the pin, forcing a retry.
    let (pinned_seq, pinned_v) = kv.get(&Key::ShareName(ident("A", "s1")));
    let id = match pinned_v {
        Some(Value::Id(id)) => id,
        _ => panic!("missing binding"),
    };
    let interference = TxnRequest {
        condition: vec![TxnCondition {
            key: Key::ShareName(ident("A", "s1")),
            seq: pinned_seq,
        }],
        if_then: vec![TxnOp::Put(Key::ShareName(ident("A", "s1")), Value::Id(id))],
    };
    assert!(kv.send_txn(&interference));

    let pinned = TxnRequest {
        condition: vec![TxnCondition {
            key: Key::ShareName(ident("A", "s1")),
            seq: pinned_seq,
        }],
        if_then: vec![],
    };
    assert!(!kv.send_txn(&pinned));
}

#[test]
fn retry_budget_is_bounded() {
    // The retry budget every mutating operation works under.
    assert_eq!(TXN_MAX_RETRY_TIMES, 10);
}
