//! Named databases over tenants.
//!
//! Operators think in named databases, not in 32-hex tenant ids. A name maps to
//! a deterministic tenant id, and a small registry keeps the names that were
//! provisioned, with their restore points.

use sha2::Digest;
use vstd::prelude::*;
use vstd::utf8::encode_utf8;

use crate::bytes::read_16;
use crate::common::ids::{id_text, id_text_round_trip, tenant_id_named, TenantId};
use crate::text::{chars_of, copy_str, same_text, string_of, trim, trimmed};

verus! {

/// A named restore point (a branch) of a database.
#[derive(Debug, PartialEq, Eq)]
pub struct RestorePoint {
    pub name: String,
    /// The branch's timeline id (32 hex characters).
    pub timeline: String,
    /// The position this restore point branches from.
    pub lsn: u64,
}

/// A provisioned database (a named tenant).
#[derive(Debug, PartialEq, Eq)]
pub struct Database {
    pub name: String,
    /// The tenant id (32 hex characters) derived from the name.
    pub id: String,
    /// Named restore points.
    pub branches: Vec<RestorePoint>,
    /// The timeline the database currently serves from (without one, the live
    /// root).
    pub current: Option<String>,
}

/// What a [`RestorePoint`] holds.
pub struct RestorePointV {
    pub name: Seq<char>,
    pub timeline: Seq<char>,
    pub lsn: u64,
}

/// What a [`Database`] holds.
pub struct DatabaseV {
    pub name: Seq<char>,
    pub id: Seq<char>,
    pub branches: Seq<RestorePointV>,
    pub current: Option<Seq<char>>,
}

impl View for RestorePoint {
    type V = RestorePointV;

    open spec fn view(&self) -> RestorePointV {
        RestorePointV { name: self.name@, timeline: self.timeline@, lsn: self.lsn }
    }
}

/// What each restore point of a list holds.
pub open spec fn points_view(p: Seq<RestorePoint>) -> Seq<RestorePointV> {
    Seq::new(p.len(), |i: int| p[i]@)
}

impl View for Database {
    type V = DatabaseV;

    open spec fn view(&self) -> DatabaseV {
        DatabaseV {
            name: self.name@,
            id: self.id@,
            branches: points_view(self.branches@),
            current: match self.current {
                Some(t) => Some(t@),
                None => None,
            },
        }
    }
}

/// What each database of a list holds.
pub open spec fn databases_view(d: Seq<Database>) -> Seq<DatabaseV> {
    Seq::new(d.len(), |i: int| d[i]@)
}

impl Clone for RestorePoint {
    fn clone(&self) -> (r: RestorePoint)
        ensures
            r@ == self@,
    {
        RestorePoint {
            name: copy_str(self.name.as_str()),
            timeline: copy_str(self.timeline.as_str()),
            lsn: self.lsn,
        }
    }
}

impl Clone for Database {
    fn clone(&self) -> (r: Database)
        ensures
            r@ == self@,
    {
        let mut branches: Vec<RestorePoint> = Vec::new();
        let mut i: usize = 0;
        while i < self.branches.len()
            invariant
                i <= self.branches@.len(),
                branches@.len() == i,
                forall|k: int| 0 <= k < i ==> (#[trigger] branches@[k])@ == self.branches@[k]@,
            decreases self.branches@.len() - i,
        {
            branches.push(self.branches[i].clone());
            i += 1;
        }
        assert(points_view(branches@) =~= points_view(self.branches@));
        Database {
            name: copy_str(self.name.as_str()),
            id: copy_str(self.id.as_str()),
            branches,
            current: match &self.current {
                Some(t) => Some(copy_str(t.as_str())),
                None => None,
            },
        }
    }
}

/// What `Sha256::digest` makes of a byte string.
pub uninterp spec fn sha256_of(bytes: Seq<u8>) -> Seq<u8>;

/// `sha2::Sha256::digest`: the SHA-256 digest of the bytes, 32 bytes long. Which
/// bytes is left to the name.
#[verifier::external_body]
fn sha256(bytes: &[u8]) -> (r: Vec<u8>)
    ensures
        r@ == sha256_of(bytes@),
        r@.len() == 32,
{
    sha2::Sha256::digest(bytes).to_vec()
}

/// The id that a digest amounts to: its first 16 bytes in hexadecimal.
pub fn id_from_digest(digest: &[u8]) -> (r: String)
    requires
        digest@.len() >= 16,
    ensures
        r@ == id_text(digest@.take(16)),
{
    let id = TenantId::from_bytes(read_16(digest, 0));
    assert(id@ =~= digest@.take(16));
    id.to_string()
}

/// The id of a name.
pub open spec fn name_id(name: Seq<char>) -> Seq<char> {
    id_text(sha256_of(encode_utf8(trim(name))).take(16))
}

/// Derive a stable 32-hex tenant id from a database name, white space around it
/// aside: the first 16 bytes of its SHA-256.
pub fn id_from_name(name: &str) -> (r: String)
    ensures
        r@ == name_id(name@),
        r@.len() == 32,
        tenant_id_named(r@) is Some,
{
    let c = chars_of(name);
    let t = string_of(trimmed(c.as_slice()));
    let digest = sha256(t.as_str().as_bytes());
    let r = id_from_digest(digest.as_slice());
    proof {
        let b = digest@.take(16);
        id_text_round_trip("TenantId"@, b);
    }
    r
}

/// A `postgresql://` connection string for `name` at the client `endpoint`.
pub fn connection_string(name: &str, endpoint: &str) -> (r: String)
    ensures
        r@ == connection_text(name@, endpoint@),
{
    let mut m = copy_str("postgresql://postgres@");
    m.push_str(endpoint);
    m.push_str("/");
    m.push_str(name);
    m
}

/// A connection string.
pub open spec fn connection_text(name: Seq<char>, endpoint: Seq<char>) -> Seq<char> {
    "postgresql://postgres@"@ + endpoint + "/"@ + name
}

// ---------------------------------------------------------------------------
// The registry
// ---------------------------------------------------------------------------

/// The number of the first database of the name, from number `i` on, or -1.
pub open spec fn named_from(dbs: Seq<DatabaseV>, name: Seq<char>, i: int) -> int
    decreases dbs.len() - i,
{
    if i < 0 || i >= dbs.len() {
        -1
    } else if dbs[i].name == name {
        i
    } else {
        named_from(dbs, name, i + 1)
    }
}

/// The number of the first database of the name, or -1.
pub open spec fn named(dbs: Seq<DatabaseV>, name: Seq<char>) -> int {
    named_from(dbs, name, 0)
}

/// A fresh database.
pub open spec fn new_database(name: Seq<char>) -> DatabaseV {
    DatabaseV { name, id: name_id(name), branches: Seq::empty(), current: None }
}

/// The registry after a name was recorded, and the name's entry; nothing for an
/// empty name. A name that is there stays as it is.
pub open spec fn upserted(dbs: Seq<DatabaseV>, name: Seq<char>) -> Option<
    (Seq<DatabaseV>, DatabaseV),
> {
    let t = trim(name);
    if t.len() == 0 {
        None
    } else if named(dbs, t) >= 0 {
        Some((dbs, dbs[named(dbs, t)]))
    } else {
        Some((dbs.push(new_database(t)), new_database(t)))
    }
}

/// The registry without a name, and the entry that it had.
pub open spec fn forgotten(dbs: Seq<DatabaseV>, name: Seq<char>) -> (
    Seq<DatabaseV>,
    Option<DatabaseV>,
) {
    let n = named(dbs, name);
    if n >= 0 {
        (dbs.remove(n), Some(dbs[n]))
    } else {
        (dbs, None)
    }
}

/// Whether one of the restore points has the name.
pub open spec fn has_point(p: Seq<RestorePointV>, name: Seq<char>) -> bool {
    exists|i: int| 0 <= i < p.len() && (#[trigger] p[i]).name == name
}

/// The registry after a restore point was recorded; one of the name stays as it
/// is.
pub open spec fn with_point(dbs: Seq<DatabaseV>, db: Seq<char>, p: RestorePointV) -> Seq<DatabaseV> {
    let n = named(dbs, db);
    if n >= 0 && !has_point(dbs[n].branches, p.name) {
        dbs.update(n, DatabaseV { branches: dbs[n].branches.push(p), ..dbs[n] })
    } else {
        dbs
    }
}

/// The registry after the timeline that a database serves from was set.
pub open spec fn with_current(dbs: Seq<DatabaseV>, db: Seq<char>, timeline: Option<Seq<char>>) -> Seq<
    DatabaseV,
> {
    let n = named(dbs, db);
    if n >= 0 {
        dbs.update(n, DatabaseV { current: timeline, ..dbs[n] })
    } else {
        dbs
    }
}

/// Find a database by name.
pub fn find(dbs: &Vec<Database>, name: &str) -> (r: Option<usize>)
    ensures
        match r {
            Some(i) => named(databases_view(dbs@), name@) == i && i < dbs@.len(),
            None => named(databases_view(dbs@), name@) == -1,
        },
{
    let ghost dv = databases_view(dbs@);
    let mut i: usize = 0;
    while i < dbs.len()
        invariant
            i <= dbs@.len(),
            dv == databases_view(dbs@),
            named_from(dv, name@, 0) == named_from(dv, name@, i as int),
        decreases dbs@.len() - i,
    {
        assert(dv[i as int] == dbs@[i as int]@);
        if same_text(dbs[i].name.as_str(), name) {
            return Some(i);
        }
        i += 1;
    }
    None
}

/// Record a database name; its entry. Nothing is recorded of an empty name, and
/// nothing changes where the name is known.
pub fn upsert(dbs: &mut Vec<Database>, name: &str) -> (r: Result<Database, String>)
    ensures
        match upserted(databases_view(old(dbs)@), name@) {
            Some((now, entry)) => r matches Ok(d) && d@ == entry && databases_view(final(dbs)@)
                == now,
            None => r matches Err(m) && m@ == "database name must not be empty"@ && final(dbs)@
                == old(dbs)@,
        },
{
    let c = chars_of(name);
    let t = string_of(trimmed(c.as_slice()));
    if t.as_str().is_empty() {
        return Err(copy_str("database name must not be empty"));
    }
    match find(dbs, t.as_str()) {
        Some(i) => Ok(dbs[i].clone()),
        None => {
            let id = id_from_name(t.as_str());
            let db = Database {
                name: copy_str(t.as_str()),
                id,
                branches: Vec::new(),
                current: None,
            };
            assert(db@.branches =~= Seq::empty());
            let entry = db.clone();
            dbs.push(db);
            assert(databases_view(dbs@) =~= databases_view(old(dbs)@).push(entry@));
            Ok(entry)
        },
    }
}

/// Forget a database name; its entry, if it was known.
pub fn remove(dbs: &mut Vec<Database>, name: &str) -> (r: Option<Database>)
    ensures
        ({
            let (now, entry) = forgotten(databases_view(old(dbs)@), name@);
            &&& databases_view(final(dbs)@) == now
            &&& match r {
                Some(d) => entry == Some(d@),
                None => entry is None,
            }
        }),
{
    match find(dbs, name) {
        Some(i) => {
            let db = dbs.remove(i);
            assert(databases_view(dbs@) =~= databases_view(old(dbs)@).remove(i as int));
            Some(db)
        },
        None => None,
    }
}

/// Record a restore point of a database; whether anything changed.
pub fn add_branch(dbs: &mut Vec<Database>, db: &str, branch: &str, timeline: &str, lsn: u64) -> (r:
    bool)
    ensures
        databases_view(final(dbs)@) == with_point(
            databases_view(old(dbs)@),
            db@,
            RestorePointV { name: branch@, timeline: timeline@, lsn },
        ),
        r == ({
            let dv = databases_view(old(dbs)@);
            let n = named(dv, db@);
            n >= 0 && !has_point(dv[n].branches, branch@)
        }),
{
    let ghost dv = databases_view(dbs@);
    let n: usize = match find(dbs, db) {
        Some(n) => n,
        None => return false,
    };
    let ghost pv = points_view(dbs@[n as int].branches@);
    assert(dv[n as int].branches == pv);
    let mut i: usize = 0;
    while i < dbs[n].branches.len()
        invariant
            n < dbs@.len(),
            dbs@ == old(dbs)@,
            pv == points_view(dbs@[n as int].branches@),
            dv == databases_view(old(dbs)@),
            dv[n as int].branches == pv,
            n == named(dv, db@),
            i <= dbs@[n as int].branches@.len(),
            forall|k: int| 0 <= k < i ==> (#[trigger] pv[k]).name != branch@,
        decreases dbs@[n as int].branches@.len() - i,
    {
        assert(pv[i as int] == dbs@[n as int].branches@[i as int]@);
        if same_text(dbs[n].branches[i].name.as_str(), branch) {
            assert(has_point(pv, branch@));
            return false;
        }
        i += 1;
    }
    assert(!has_point(pv, branch@));
    let p = RestorePoint { name: copy_str(branch), timeline: copy_str(timeline), lsn };
    let ghost x = p@;
    dbs[n].branches.push(p);
    assert(points_view(dbs@[n as int].branches@) =~= pv.push(x));
    assert(databases_view(dbs@) =~= dv.update(
        n as int,
        DatabaseV { branches: pv.push(x), ..dv[n as int] },
    ));
    true
}

/// Set the timeline a database serves from (without one, the live root);
/// whether the database is known.
pub fn set_current(dbs: &mut Vec<Database>, db: &str, timeline: Option<String>) -> (r: bool)
    ensures
        databases_view(final(dbs)@) == with_current(
            databases_view(old(dbs)@),
            db@,
            match timeline {
                Some(t) => Some(t@),
                None => None,
            },
        ),
        r == (named(databases_view(old(dbs)@), db@) >= 0),
{
    let ghost dv = databases_view(dbs@);
    match find(dbs, db) {
        Some(n) => {
            let ghost t = match timeline {
                Some(ref t) => Some(t@),
                None => None,
            };
            dbs[n].current = timeline;
            assert(databases_view(dbs@) =~= dv.update(
                n as int,
                DatabaseV { current: t, ..dv[n as int] },
            ));
            true
        },
        None => false,
    }
}

pub(crate) proof fn lemma_named(dbs: Seq<DatabaseV>, name: Seq<char>, i: int)
    requires
        0 <= i <= dbs.len(),
    ensures
        ({
            let n = named_from(dbs, name, i);
            &&& n == -1 || i <= n < dbs.len()
            &&& n >= 0 ==> dbs[n].name == name
            &&& forall|k: int|
                i <= k < dbs.len() && (n < 0 || k < n) ==> (#[trigger] dbs[k]).name != name
        }),
    decreases dbs.len() - i,
{
    if i < dbs.len() && dbs[i].name != name {
        lemma_named(dbs, name, i + 1);
    }
}

/// Recording a name a second time changes nothing and gives the same entry.
pub proof fn recording_a_name_is_idempotent(dbs: Seq<DatabaseV>, name: Seq<char>)
    requires
        trim(name).len() > 0,
    ensures
        ({
            let (now, entry) = upserted(dbs, name)->0;
            upserted(now, name) == Some((now, entry))
        }),
{
    let t = trim(name);
    let (now, entry) = upserted(dbs, name)->0;
    lemma_named(dbs, t, 0);
    lemma_named(now, t, 0);
    if named(dbs, t) < 0 {
        let n = dbs.len() as int;
        assert(now[n].name == t);
        let k = named(now, t);
        if k < 0 {
            assert(now[n].name != t);
        } else if k < n {
            assert(now[k] == dbs[k]);
        }
    }
}

/// Recording a restore point a second time changes nothing.
pub proof fn recording_a_point_is_idempotent(
    dbs: Seq<DatabaseV>,
    db: Seq<char>,
    p: RestorePointV,
)
    ensures
        with_point(with_point(dbs, db, p), db, p) == with_point(dbs, db, p),
{
    let now = with_point(dbs, db, p);
    let n = named(dbs, db);
    lemma_named(dbs, db, 0);
    lemma_named(now, db, 0);
    if n >= 0 && !has_point(dbs[n].branches, p.name) {
        let k = named(now, db);
        assert(now[n].name == db);
        if k < 0 || n < k {
            assert(now[n].name != db);
        } else if k < n {
            assert(now[k] == dbs[k]);
        }
        let b = now[n].branches;
        assert(b[b.len() - 1].name == p.name);
        assert(has_point(b, p.name));
    }
}

/// What does not name the database of a restore point or of a served timeline
/// stays as it is.
pub proof fn other_databases_are_untouched(
    dbs: Seq<DatabaseV>,
    db: Seq<char>,
    p: RestorePointV,
    timeline: Option<Seq<char>>,
    i: int,
)
    requires
        0 <= i < dbs.len(),
        dbs[i].name != db,
    ensures
        with_point(dbs, db, p)[i] == dbs[i],
        with_current(dbs, db, timeline)[i] == dbs[i],
{
    lemma_named(dbs, db, 0);
}

} // verus!
