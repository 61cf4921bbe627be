//! The inserts that fill the tables of the forum benchmark in a SQL
//! database: one prepared statement per table and the named parameters of
//! each row. Running them is the caller's part.
use vstd::prelude::*;

verus! {

/// A value of a generated record.
#[derive(Clone, Debug)]
pub enum DataType {
    Int(i32),
    Text(String),
}

/// A value bound to a named statement parameter.
#[derive(Debug)]
pub enum Param {
    Int(i32),
    Text(String),
}

/// The tables of the benchmark.
#[derive(Clone, Copy, Debug)]
pub enum Table {
    Role,
    User,
    Post,
    Class,
}

/// A prepared insert and the named parameters of each row to run it with.
#[derive(Debug)]
pub struct InsertBatch {
    pub query: String,
    pub params: Vec<Vec<(String, Param)>>,
}

/// The generated records of each table.
pub struct Populate {
    pub roles: Vec<Vec<DataType>>,
    pub users: Vec<Vec<DataType>>,
    pub posts: Vec<Vec<DataType>>,
    pub classes: Vec<Vec<DataType>>,
}

/// The number of columns of a table.
pub open spec fn columns(t: Table) -> int {
    match t {
        Table::Role => 3,
        Table::User => 1,
        Table::Post => 5,
        Table::Class => 1,
    }
}

/// The parameter name of column `c` of a table.
pub open spec fn column_name(t: Table, c: int) -> Seq<char> {
    match t {
        Table::Role => if c == 0 { "r_uid"@ } else if c == 1 { "r_cid"@ } else { "r_role"@ },
        Table::User => "u_id"@,
        Table::Post => if c == 0 { "p_id"@ } else if c == 1 { "p_cid"@ } else if c == 2 { "p_author"@ } else if c == 3 {
            "p_content"@
        } else {
            "p_private"@
        },
        Table::Class => "c_id"@,
    }
}

/// Whether column `c` of a table holds text; the others hold integers.
pub open spec fn is_text_column(t: Table, c: int) -> bool {
    t is Post && c == 3
}

/// The insert statement of a table, with one named parameter per column.
pub open spec fn insert_query(t: Table) -> Seq<char> {
    match t {
        Table::Role => "INSERT INTO Role (r_uid, r_cid, r_role) VALUES (:r_uid, :r_cid, :r_role)"@,
        Table::User => "INSERT INTO User (u_id) VALUES (:u_id)"@,
        Table::Post =>
            "INSERT INTO Post (p_id, p_cid, p_author, p_content, p_private) VALUES (:p_id, :p_cid, :p_author, :p_content, :p_private)"@,
        Table::Class => "INSERT INTO Class (c_id) VALUES (:c_id)"@,
    }
}

/// A record has a value of the right kind in every column of the table.
pub open spec fn fits(t: Table, r: Seq<DataType>) -> bool {
    &&& r.len() >= columns(t)
    &&& forall|c: int| 0 <= c < columns(t) ==> (is_text_column(t, c) <==> (#[trigger] r[c]) is Text)
}

/// The parameter holds the value of the record.
pub open spec fn param_of(p: Param, d: DataType) -> bool {
    match (p, d) {
        (Param::Int(a), DataType::Int(b)) => a == b,
        (Param::Text(a), DataType::Text(b)) => a@ == b@,
        _ => false,
    }
}

/// The parameters of a row: each column's name and value, in column order.
pub open spec fn row_params(t: Table, row: Seq<(String, Param)>, r: Seq<DataType>) -> bool {
    &&& row.len() == columns(t)
    &&& forall|c: int| 0 <= c < columns(t) ==> (#[trigger] row[c]).0@ == column_name(t, c) && param_of(row[c].1, r[c])
}

/// The batch inserts every record of `records` into the table.
pub open spec fn batch_of(t: Table, b: InsertBatch, records: Seq<Vec<DataType>>) -> bool {
    &&& b.query@ == insert_query(t)
    &&& b.params.len() == records.len()
    &&& forall|k: int| 0 <= k < records.len() ==> row_params(t, (#[trigger] b.params@[k])@, records[k]@)
}

fn columns_of(t: &Table) -> (r: usize)
    ensures
        r == columns(*t),
{
    match t {
        Table::Role => 3,
        Table::User => 1,
        Table::Post => 5,
        Table::Class => 1,
    }
}

fn name_of(t: &Table, c: usize) -> (r: &'static str)
    ensures
        r@ == column_name(*t, c as int),
{
    match t {
        Table::Role => if c == 0 { "r_uid" } else if c == 1 { "r_cid" } else { "r_role" },
        Table::User => "u_id",
        Table::Post => if c == 0 { "p_id" } else if c == 1 { "p_cid" } else if c == 2 { "p_author" } else if c == 3 {
            "p_content"
        } else {
            "p_private"
        },
        Table::Class => "c_id",
    }
}

fn query_of(t: &Table) -> (r: &'static str)
    ensures
        r@ == insert_query(*t),
{
    match t {
        Table::Role => "INSERT INTO Role (r_uid, r_cid, r_role) VALUES (:r_uid, :r_cid, :r_role)",
        Table::User => "INSERT INTO User (u_id) VALUES (:u_id)",
        Table::Post =>
            "INSERT INTO Post (p_id, p_cid, p_author, p_content, p_private) VALUES (:p_id, :p_cid, :p_author, :p_content, :p_private)",
        Table::Class => "INSERT INTO Class (c_id) VALUES (:c_id)",
    }
}

fn param_from(d: &DataType) -> (p: Param)
    ensures
        param_of(p, *d),
{
    match d {
        DataType::Int(i) => Param::Int(*i),
        DataType::Text(s) => Param::Text(s.clone()),
    }
}

/// The database that the benchmark fills, by its connection address.
pub struct Backend {
    addr: String,
}

impl Backend {
    pub fn new(addr: &str) -> (r: Backend)
        ensures
            r.addr_spec() == addr@,
    {
        Backend { addr: addr.to_owned() }
    }

    pub closed spec fn addr_spec(&self) -> Seq<char> {
        self.addr@
    }

    /// The connection address.
    pub fn addr(&self) -> (r: &str)
        ensures
            r@ == self.addr_spec(),
    {
        self.addr.as_str()
    }

    /// The insert of a table for the given records.
    fn populate(&self, t: Table, records: &Vec<Vec<DataType>>) -> (r: InsertBatch)
        requires
            forall|k: int| 0 <= k < records.len() ==> fits(t, (#[trigger] records@[k])@),
        ensures
            batch_of(t, r, records@),
    {
        let ncols = columns_of(&t);
        let mut params: Vec<Vec<(String, Param)>> = Vec::new();
        let n = records.len();
        let mut k: usize = 0;
        while k < n
            invariant
                n == records.len(),
                k <= n,
                ncols == columns(t),
                forall|x: int| 0 <= x < records.len() ==> fits(t, (#[trigger] records@[x])@),
                params.len() == k,
                forall|x: int| 0 <= x < k ==> row_params(t, (#[trigger] params@[x])@, records@[x]@),
            decreases n - k,
        {
            let rec = &records[k];
            proof {
                assert(fits(t, records@[k as int]@));
            }
            let mut row: Vec<(String, Param)> = Vec::new();
            let mut c: usize = 0;
            while c < ncols
                invariant
                    ncols == columns(t),
                    c <= ncols,
                    *rec == records@[k as int],
                    rec@.len() >= ncols,
                    row.len() == c,
                    forall|y: int| 0 <= y < c ==> (#[trigger] row@[y]).0@ == column_name(t, y) && param_of(row@[y].1, rec@[y]),
                decreases ncols - c,
            {
                let name = name_of(&t, c).to_owned();
                let value = param_from(&rec[c]);
                row.push((name, value));
                c = c + 1;
            }
            params.push(row);
            k = k + 1;
        }
        InsertBatch { query: query_of(&t).to_owned(), params }
    }

    /// The inserts that fill the benchmark's tables from the generated
    /// records: roles, users, posts and classes, in that order.
    pub fn populate_tables(&self, pop: &Populate) -> (r: Vec<InsertBatch>)
        requires
            forall|k: int| 0 <= k < pop.roles.len() ==> fits(Table::Role, (#[trigger] pop.roles@[k])@),
            forall|k: int| 0 <= k < pop.users.len() ==> fits(Table::User, (#[trigger] pop.users@[k])@),
            forall|k: int| 0 <= k < pop.posts.len() ==> fits(Table::Post, (#[trigger] pop.posts@[k])@),
            forall|k: int| 0 <= k < pop.classes.len() ==> fits(Table::Class, (#[trigger] pop.classes@[k])@),
        ensures
            r.len() == 4,
            batch_of(Table::Role, r@[0], pop.roles@),
            batch_of(Table::User, r@[1], pop.users@),
            batch_of(Table::Post, r@[2], pop.posts@),
            batch_of(Table::Class, r@[3], pop.classes@),
    {
        let mut r: Vec<InsertBatch> = Vec::new();
        r.push(self.populate(Table::Role, &pop.roles));
        r.push(self.populate(Table::User, &pop.users));
        r.push(self.populate(Table::Post, &pop.posts));
        r.push(self.populate(Table::Class, &pop.classes));
        r
    }
}

}
