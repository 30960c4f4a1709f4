//! Entity types of the share catalog: identities, grant objects,
//! privileges, metadata records, and the error taxonomy.

use vstd::prelude::*;

verus! {

/// Privilege to use a database.
pub const PRIVILEGE_USAGE: u64 = 1;

/// Privilege to select from a table.
pub const PRIVILEGE_SELECT: u64 = 2;

/// Privilege to reference an object from another share.
pub const PRIVILEGE_REFERENCE_USAGE: u64 = 4;

/// Logical handle of a share inside a tenant's namespace.
pub struct ShareNameIdent {
    pub tenant: String,
    pub share_name: String,
}

/// Mathematical image of a `ShareNameIdent`.
pub struct ShareNameIdentV {
    pub tenant: Seq<char>,
    pub share_name: Seq<char>,
}

impl View for ShareNameIdent {
    type V = ShareNameIdentV;

    open spec fn view(&self) -> ShareNameIdentV {
        ShareNameIdentV { tenant: self.tenant@, share_name: self.share_name@ }
    }
}

impl Clone for ShareNameIdent {
    fn clone(&self) -> (r: Self)
        ensures
            r@ == self@,
    {
        ShareNameIdent { tenant: self.tenant.clone(), share_name: self.share_name.clone() }
    }
}

/// Per-(account, share) membership handle.
pub struct ShareAccountNameIdent {
    pub account: String,
    pub share_id: u64,
}

/// Mathematical image of a `ShareAccountNameIdent`.
pub struct ShareAccountNameIdentV {
    pub account: Seq<char>,
    pub share_id: u64,
}

impl View for ShareAccountNameIdent {
    type V = ShareAccountNameIdentV;

    open spec fn view(&self) -> ShareAccountNameIdentV {
        ShareAccountNameIdentV { account: self.account@, share_id: self.share_id }
    }
}

impl Clone for ShareAccountNameIdent {
    fn clone(&self) -> (r: Self)
        ensures
            r@ == self@,
    {
        ShareAccountNameIdent { account: self.account.clone(), share_id: self.share_id }
    }
}

/// Handle of a database inside a tenant's namespace.
pub struct DatabaseNameIdent {
    pub tenant: String,
    pub db_name: String,
}

/// Mathematical image of a `DatabaseNameIdent`.
pub struct DatabaseNameIdentV {
    pub tenant: Seq<char>,
    pub db_name: Seq<char>,
}

impl View for DatabaseNameIdent {
    type V = DatabaseNameIdentV;

    open spec fn view(&self) -> DatabaseNameIdentV {
        DatabaseNameIdentV { tenant: self.tenant@, db_name: self.db_name@ }
    }
}

impl Clone for DatabaseNameIdent {
    fn clone(&self) -> (r: Self)
        ensures
            r@ == self@,
    {
        DatabaseNameIdent { tenant: self.tenant.clone(), db_name: self.db_name.clone() }
    }
}

/// Handle of a table inside a database, by the database's id.
pub struct DBIdTableName {
    pub db_id: u64,
    pub table_name: String,
}

/// Mathematical image of a `DBIdTableName`.
pub struct DBIdTableNameV {
    pub db_id: u64,
    pub table_name: Seq<char>,
}

impl View for DBIdTableName {
    type V = DBIdTableNameV;

    open spec fn view(&self) -> DBIdTableNameV {
        DBIdTableNameV { db_id: self.db_id, table_name: self.table_name@ }
    }
}

impl Clone for DBIdTableName {
    fn clone(&self) -> (r: Self)
        ensures
            r@ == self@,
    {
        DBIdTableName { db_id: self.db_id, table_name: self.table_name.clone() }
    }
}

/// A shareable object, identified by its catalog id.
#[derive(Clone, Copy, PartialEq, Eq, Structural)]
pub enum ShareGrantObject {
    Database(u64),
    Table(u64),
}

/// A shareable object, identified by name as the user wrote it.
#[derive(Debug)]
pub enum ShareGrantObjectName {
    Database(String),
    Table(String, String),
}

/// Mathematical image of a `ShareGrantObjectName`.
pub enum ShareGrantObjectNameV {
    Database(Seq<char>),
    Table(Seq<char>, Seq<char>),
}

impl View for ShareGrantObjectName {
    type V = ShareGrantObjectNameV;

    open spec fn view(&self) -> ShareGrantObjectNameV {
        match self {
            ShareGrantObjectName::Database(db) => ShareGrantObjectNameV::Database(db@),
            ShareGrantObjectName::Table(db, t) => ShareGrantObjectNameV::Table(db@, t@),
        }
    }
}

impl Clone for ShareGrantObjectName {
    fn clone(&self) -> (r: Self)
        ensures
            r@ == self@,
    {
        match self {
            ShareGrantObjectName::Database(db) => ShareGrantObjectName::Database(db.clone()),
            ShareGrantObjectName::Table(db, t) => {
                ShareGrantObjectName::Table(db.clone(), t.clone())
            },
        }
    }
}

/// One grant inside a share: the object, the privilege bits that were
/// granted on it, and the time of the latest grant.
#[derive(Clone, Copy, PartialEq, Eq, Structural)]
pub struct ShareGrantEntry {
    pub object: ShareGrantObject,
    pub privileges: u64,
    pub grant_on: u64,
}

/// The errors of the share catalog. Each carries enough context to
/// identify the offending entity.
#[derive(Debug)]
pub enum ShareError {
    /// No share of this name exists in the tenant's namespace.
    UnknownShare(String),
    /// No share of this id exists.
    UnknownShareId(u64),
    /// None of the named accounts is listed on the share.
    UnknownShareAccounts(Vec<String>, u64),
    /// A share of this name already exists.
    ShareAlreadyExists(String),
    /// Every named account is already listed on the share.
    ShareAccountsAlreadyExists(String, Vec<String>),
    /// The share's database record is not a database object: a corruption
    /// signal.
    WrongShare(String),
    /// Domain-rule violation: a cross-database grant, a table granted
    /// before its database, or a database revoked while table grants
    /// linger.
    WrongShareObject(ShareGrantObjectName),
    /// No database of this name exists in the tenant's namespace.
    UnknownDatabase(String),
    /// No table of this name exists in the database.
    UnknownTable(String, String),
    /// The optimistic retry budget was exhausted.
    TxnRetryMaxTimes(u64),
}

} // verus!
