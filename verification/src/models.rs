//! The value objects of the comparison: connection configurations,
//! deployments, the two kinds of schema facts, and the grouping keys of the
//! two report paths, together with their ordering keys.

use vstd::prelude::*;

use crate::text::lex2_lt;

verus! {

/// One configured connection: where to reach one deployment's database.
pub struct ConnectInfo {
    pub host: String,
    pub port: i32,
    pub schema: String,
    pub user: String,
    pub password: String,
    pub country: String,
    pub environment: String,
}

/// One distinct (environment, country) combination whose schema is compared.
pub struct Deploy {
    pub country: String,
    pub environment: String,
}

impl ConnectInfo {
    /// The deployment a configured connection belongs to.
    pub fn to_deploy(&self) -> (d: Deploy)
        ensures
            d.environment == self.environment,
            d.country == self.country,
    {
        Deploy { country: self.country.clone(), environment: self.environment.clone() }
    }
}

/// The ordering key of a deployment: environment first, then country.
pub open spec fn deploy_key(d: Deploy) -> (Seq<char>, Seq<char>) {
    (d.environment@, d.country@)
}

/// The deployment key of a configured connection.
pub open spec fn connect_key(c: ConnectInfo) -> (Seq<char>, Seq<char>) {
    (c.environment@, c.country@)
}

/// Deployments are ordered lexicographically by (environment, country).
pub open spec fn deploy_lt(a: Deploy, b: Deploy) -> bool {
    lex2_lt(deploy_key(a), deploy_key(b))
}

/// One observed column definition in one deployment.
pub struct ColumnInfo {
    pub country: String,
    pub environment: String,
    pub schema: String,
    pub table: String,
    pub column_name: String,
    pub column_type: String,
    pub data_type: String,
    pub text_max_length: Option<i32>,
    pub text_octet_length: Option<i32>,
    pub num_precision: Option<i32>,
    pub num_scale: Option<i32>,
    pub default_value: Option<String>,
    pub nullable: String,
    pub comment: Option<String>,
    pub display: Option<String>,
}

/// One observed (table, index, sequence position) entry in one deployment; an
/// index over n columns yields n of these.
pub struct IndexInfo {
    pub country: String,
    pub environment: String,
    pub schema: String,
    pub table: String,
    pub index_name: String,
    pub unique: bool,
    pub sequence: i32,
    pub column: String,
    pub display: Option<String>,
}

/// Grouping identity of a column fact.
pub struct UniqueColumn {
    pub schema: String,
    pub table: String,
    pub column_name: String,
}

/// Grouping identity of an index fact.
pub struct UniqueIndex {
    pub schema: String,
    pub table: String,
    pub index_name: String,
}

/// The grouping key of a column fact.
pub open spec fn column_key(c: ColumnInfo) -> (Seq<char>, Seq<char>, Seq<char>) {
    (c.schema@, c.table@, c.column_name@)
}

/// The key a `UniqueColumn` stands for.
pub open spec fn ucol_key(u: UniqueColumn) -> (Seq<char>, Seq<char>, Seq<char>) {
    (u.schema@, u.table@, u.column_name@)
}

/// The grouping key of an index fact.
pub open spec fn index_key(i: IndexInfo) -> (Seq<char>, Seq<char>, Seq<char>) {
    (i.schema@, i.table@, i.index_name@)
}

/// The key a `UniqueIndex` stands for.
pub open spec fn uidx_key(u: UniqueIndex) -> (Seq<char>, Seq<char>, Seq<char>) {
    (u.schema@, u.table@, u.index_name@)
}

/// Whether a fact was observed in the given deployment.
pub open spec fn column_in_deploy(c: ColumnInfo, d: Deploy) -> bool {
    c.environment@ == d.environment@ && c.country@ == d.country@
}

/// Whether an index entry was observed in the given deployment.
pub open spec fn index_in_deploy(i: IndexInfo, d: Deploy) -> bool {
    i.environment@ == d.environment@ && i.country@ == d.country@
}

fn clone_opt_i32(o: &Option<i32>) -> (r: Option<i32>)
    ensures
        r == *o,
{
    match o {
        Some(v) => Some(*v),
        None => None,
    }
}

fn clone_opt_string(o: &Option<String>) -> (r: Option<String>)
    ensures
        r == *o,
{
    match o {
        Some(s) => Some(s.clone()),
        None => None,
    }
}

impl ColumnInfo {
    /// An equal copy of the fact.
    pub fn duplicate(&self) -> (r: ColumnInfo)
        ensures
            r == *self,
    {
        ColumnInfo {
            country: self.country.clone(),
            environment: self.environment.clone(),
            schema: self.schema.clone(),
            table: self.table.clone(),
            column_name: self.column_name.clone(),
            column_type: self.column_type.clone(),
            data_type: self.data_type.clone(),
            text_max_length: clone_opt_i32(&self.text_max_length),
            text_octet_length: clone_opt_i32(&self.text_octet_length),
            num_precision: clone_opt_i32(&self.num_precision),
            num_scale: clone_opt_i32(&self.num_scale),
            default_value: clone_opt_string(&self.default_value),
            nullable: self.nullable.clone(),
            comment: clone_opt_string(&self.comment),
            display: clone_opt_string(&self.display),
        }
    }
}

impl IndexInfo {
    /// An equal copy of the fact.
    pub fn duplicate(&self) -> (r: IndexInfo)
        ensures
            r == *self,
    {
        IndexInfo {
            country: self.country.clone(),
            environment: self.environment.clone(),
            schema: self.schema.clone(),
            table: self.table.clone(),
            index_name: self.index_name.clone(),
            unique: self.unique,
            sequence: self.sequence,
            column: self.column.clone(),
            display: clone_opt_string(&self.display),
        }
    }
}

} // verus!
