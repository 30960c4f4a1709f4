use share_catalog::api::add_share_tenants;
use share_catalog::api::create_share;
use share_catalog::api::grant_share_object;
use share_catalog::api::AddShareAccountsReq;
use share_catalog::api::CreateShareReq;
use share_catalog::api::GrantShareObjectReq;
use share_catalog::catalog::create_database;
use share_catalog::catalog::create_table;
use share_catalog::interpreter::RevokeShareObjectInterpreter;
use share_catalog::interpreter::RevokeShareObjectPlan;
use share_catalog::kv::KvStore;
use share_catalog::queries::get_grant_privileges_of_object;
use share_catalog::queries::get_share_grant_objects;
use share_catalog::queries::show_shares;
use share_catalog::queries::GetObjectGrantPrivilegesReq;
use share_catalog::queries::GetShareGrantObjectReq;
use share_catalog::queries::ShowSharesReq;
use share_catalog::types::ShareError;
use share_catalog::types::ShareGrantObjectName;
use share_catalog::types::ShareNameIdent;
use share_catalog::types::PRIVILEGE_SELECT;
use share_catalog::types::PRIVILEGE_USAGE;

fn ident(tenant: &str, share: &str) -> ShareNameIdent {
    ShareNameIdent {
        tenant: String::from(tenant),
        share_name: String::from(share),
    }
}

fn setup(kv: &mut KvStore) {
    let tenant = String::from("A");
    create_database(kv, &tenant, &String::from("db"));
    create_table(kv, &tenant, &String::from("db"), &String::from("t1")).expect("table");
    create_share(
        kv,
        &CreateShareReq {
            if_not_exists: false,
            share_name: ident("A", "s1"),
            comment: Some(String::from("a share")),
            create_on: 1,
        },
    )
    .expect("create");
    grant_share_object(
        kv,
        &GrantShareObjectReq {
            share_name: ident("A", "s1"),
            object: ShareGrantObjectName::Database(String::from("db")),
            privilege: PRIVILEGE_USAGE,
            grant_on: 2,
        },
    )
    .expect("grant db");
    grant_share_object(
        kv,
        &GrantShareObjectReq {
            share_name: ident("A", "s1"),
            object: ShareGrantObjectName::Table(String::from("db"), String::from("t1")),
            privilege: PRIVILEGE_SELECT,
            grant_on: 3,
        },
    )
    .expect("grant table");
    add_share_tenants(
        kv,
        &AddShareAccountsReq {
            share_name: ident("A", "s1"),
            if_exists: false,
            accounts: vec![String::from("B")],
            share_on: 4,
        },
    )
    .expect("add");
}

#[test]
fn grant_objects_resolve_to_names() {
    let mut kv = KvStore::new();
    setup(&mut kv);
    let reply = get_share_grant_objects(
        &kv,
        &GetShareGrantObjectReq {
            share_name: ident("A", "s1"),
        },
    )
    .expect("objects");
    assert_eq!(reply.objects.len(), 2);
    let mut saw_db = false;
    let mut saw_table = false;
    for o in &reply.objects {
        match &o.object {
            ShareGrantObjectName::Database(dn) => {
                assert_eq!(dn, "db");
                assert_eq!(o.privileges, PRIVILEGE_USAGE);
                assert_eq!(o.grant_on, 2);
                saw_db = true;
            }
            ShareGrantObjectName::Table(dn, tn) => {
                assert_eq!(dn, "db");
                assert_eq!(tn, "t1");
                assert_eq!(o.privileges, PRIVILEGE_SELECT);
                assert_eq!(o.grant_on, 3);
                saw_table = true;
            }
        }
    }
    assert!(saw_db && saw_table);
}

#[test]
fn object_privileges_name_the_share() {
    let mut kv = KvStore::new();
    setup(&mut kv);
    let reply = get_grant_privileges_of_object(
        &kv,
        &GetObjectGrantPrivilegesReq {
            tenant: String::from("A"),
            object: ShareGrantObjectName::Database(String::from("db")),
        },
    )
    .expect("privileges");
    assert_eq!(reply.privileges.len(), 1);
    assert_eq!(reply.privileges[0].share_name, "s1");
    assert_eq!(reply.privileges[0].privileges, PRIVILEGE_USAGE);

    let missing = get_grant_privileges_of_object(
        &kv,
        &GetObjectGrantPrivilegesReq {
            tenant: String::from("A"),
            object: ShareGrantObjectName::Database(String::from("missing")),
        },
    );
    assert!(matches!(missing, Err(ShareError::UnknownDatabase(_))));
}

#[test]
fn show_shares_lists_outbound_and_inbound() {
    let mut kv = KvStore::new();
    setup(&mut kv);
    let owner_view = show_shares(
        &kv,
        &ShowSharesReq {
            tenant: String::from("A"),
        },
    )
    .expect("owner view");
    assert_eq!(owner_view.outbound_accounts.len(), 1);
    let out = &owner_view.outbound_accounts[0];
    assert_eq!(out.share_name.share_name, "s1");
    assert_eq!(out.database_name.as_deref(), Some("db"));
    assert_eq!(out.comment.as_deref(), Some("a share"));
    assert_eq!(out.create_on, 1);
    assert_eq!(out.accounts.as_ref().map(|a| a.len()), Some(1));
    assert_eq!(owner_view.inbound_accounts.len(), 0);

    let guest_view = show_shares(
        &kv,
        &ShowSharesReq {
            tenant: String::from("B"),
        },
    )
    .expect("guest view");
    assert_eq!(guest_view.outbound_accounts.len(), 0);
    assert_eq!(guest_view.inbound_accounts.len(), 1);
    let inb = &guest_view.inbound_accounts[0];
    assert_eq!(inb.share_name.share_name, "s1");
    assert_eq!(inb.share_name.tenant, "A");
    assert_eq!(inb.create_on, 4);
}

#[test]
fn interpreter_revokes_through_the_catalog() {
    let mut kv = KvStore::new();
    setup(&mut kv);
    let interp = RevokeShareObjectInterpreter::try_create(
        String::from("A"),
        RevokeShareObjectPlan {
            share: String::from("s1"),
            object: ShareGrantObjectName::Table(String::from("db"), String::from("t1")),
            privilege: PRIVILEGE_SELECT,
        },
    )
    .expect("interpreter");
    assert_eq!(interp.name(), "RevokeShareObjectInterpreter");
    interp.execute(&mut kv, 9).expect("revoke");

    let reply = get_share_grant_objects(
        &kv,
        &GetShareGrantObjectReq {
            share_name: ident("A", "s1"),
        },
    )
    .expect("objects");
    assert_eq!(reply.objects.len(), 1);
    assert!(matches!(
        &reply.objects[0].object,
        ShareGrantObjectName::Database(_)
    ));
}
