//! Persistent query cache.
//!
//! The cache state — the rows, their embeddings and the hit/miss
//! counters — lives in this struct and every operation on it is
//! specified and verified against that state.  Each mutation is first
//! mirrored to an embedded SQLite store (one `queries.db` file per cache
//! directory) through the trusted wrappers below, so the state survives
//! the process; a mutation whose mirror write fails reports an error and
//! leaves the state unchanged.  The mirror statements are written so that
//! replaying them yields the same rows this struct holds: in particular
//! the upsert in `store` is one atomic `INSERT .. ON CONFLICT` statement.

use vstd::prelude::*;
use crate::chars::{lower_of, str_eq};
use crate::codec::{blob_decode, blob_encode};
use crate::embedder::{cosine_spec, embed_spec, Embedder, MAX_DIMENSIONS, SCALE};
use crate::error::CyxError;

verus! {

broadcast use vstd::seq_lib::group_to_multiset_ensures;

/// One cached query, as callers see it.
#[derive(Debug, Clone)]
pub struct CachedQuery {
    pub id: i64,
    pub query_original: String,
    pub query_normalized: String,
    pub query_hash: String,
    pub response: String,
    pub provider: String,
    pub model: String,
    pub created_at: i64,
    pub last_accessed: i64,
    pub access_count: i32,
}

/// Aggregate counters over the whole cache.
#[derive(Debug, Clone)]
pub struct CacheStats {
    pub total_entries: i64,
    pub total_size_bytes: i64,
    pub hit_count: i64,
    pub miss_count: i64,
    pub oldest_entry: Option<i64>,
    pub newest_entry: Option<i64>,
}

/// A value bound into a mirror SQL statement.
pub enum SqlParam {
    Int(i64),
    Text(String),
    Blob(Vec<u8>),
    Null,
}

/// One row as it comes back from the store file.
pub struct StoredRow {
    pub id: i64,
    pub query_original: String,
    pub query_normalized: String,
    pub query_hash: String,
    pub embedding: Option<Vec<u8>>,
    pub response: String,
    pub provider: String,
    pub model: String,
    pub created_at: i64,
    pub last_accessed: i64,
    pub access_count: i64,
}

#[verifier::external_type_specification]
#[verifier::external_body]
pub struct ExConnection(rusqlite::Connection);

/// Relies on chrono's `Utc::now` and `DateTime::timestamp`: seconds since
/// the Unix epoch by the system clock.  Nothing is promised of the value.
#[verifier::external_body]
pub(crate) fn now_seconds() -> i64 {
    chrono::Utc::now().timestamp()
}

/// Relies on rusqlite's `Connection::open`: opens the database file at
/// `path`, creating it when absent; existing contents are kept.
#[verifier::external_body]
fn open_db(path: &str) -> Result<rusqlite::Connection, String> {
    match rusqlite::Connection::open(path) {
        Ok(c) => Ok(c),
        Err(e) => Err(e.to_string()),
    }
}

/// Relies on rusqlite's `Connection::execute`: runs the one SQL statement
/// in `sql` with the given bound values and yields how many rows it
/// changed.  What it does to the file is determined by `sql`, which the
/// callers in this module spell out.
#[verifier::external_body]
fn db_exec(conn: &rusqlite::Connection, sql: &str, params: &Vec<SqlParam>) -> Result<usize, String> {
    let vals: Vec<rusqlite::types::Value> = params.iter().map(|p| match p {
        SqlParam::Int(i) => rusqlite::types::Value::Integer(*i),
        SqlParam::Text(t) => rusqlite::types::Value::Text(t.clone()),
        SqlParam::Blob(b) => rusqlite::types::Value::Blob(b.clone()),
        SqlParam::Null => rusqlite::types::Value::Null,
    }).collect();
    conn.execute(sql, rusqlite::params_from_iter(vals)).map_err(|e| e.to_string())
}

/// Relies on rusqlite's `Statement::query_map`: runs `sql`, which must
/// select the eleven `queries` columns in schema order, and yields the
/// rows.  What comes back depends on the file on disk, so nothing is
/// promised of the values.
#[verifier::external_body]
fn db_query_rows(conn: &rusqlite::Connection, sql: &str) -> Result<Vec<StoredRow>, String> {
    let mut stmt = conn.prepare(sql).map_err(|e| e.to_string())?;
    let rows = stmt.query_map([], |r| Ok(StoredRow {
        id: r.get(0)?, query_original: r.get(1)?, query_normalized: r.get(2)?,
        query_hash: r.get(3)?, embedding: r.get(4)?, response: r.get(5)?,
        provider: r.get(6)?, model: r.get(7)?, created_at: r.get(8)?,
        last_accessed: r.get(9)?, access_count: r.get(10)?,
    })).map_err(|e| e.to_string())?;
    rows.collect::<Result<Vec<_>, _>>().map_err(|e| e.to_string())
}

/// Relies on rusqlite's `Connection::query_row`: runs `sql`, which must
/// select two integer columns, and yields the first row.  What comes back
/// depends on the file on disk, so nothing is promised of the values.
#[verifier::external_body]
fn db_query_two_ints(conn: &rusqlite::Connection, sql: &str) -> Result<(i64, i64), String> {
    conn.query_row(sql, [], |r| Ok((r.get(0)?, r.get(1)?))).map_err(|e| e.to_string())
}

/// One row with its decoded embedding.
struct Record {
    q: CachedQuery,
    emb: Option<Vec<i64>>,
}

/// The rows of a record list, as callers see them.
spec fn entries_of(rs: Seq<Record>) -> Seq<CachedQuery> {
    Seq::new(rs.len(), |i: int| rs[i].q)
}

/// The embeddings of a record list.
spec fn embeddings_of(rs: Seq<Record>) -> Seq<Option<Seq<i64>>> {
    Seq::new(
        rs.len(),
        |i: int|
            match rs[i].emb {
                Some(v) => Some(v@),
                None => None,
            },
    )
}

/// The first row whose hash is `h`, if any.
pub open spec fn find_hash(es: Seq<CachedQuery>, h: Seq<char>) -> Option<int>
    decreases es.len(),
{
    if es.len() == 0 {
        None
    } else if es[0].query_hash@ == h {
        Some(0)
    } else {
        match find_hash(es.drop_first(), h) {
            Some(k) => Some(k + 1),
            None => None,
        }
    }
}

proof fn lemma_find_hash_found(es: Seq<CachedQuery>, h: Seq<char>, i: int)
    requires
        0 <= i < es.len(),
        forall|k: int| 0 <= k < i ==> es[k].query_hash@ != h,
        es[i].query_hash@ == h,
    ensures
        find_hash(es, h) == Some(i),
    decreases i,
{
    if i > 0 {
        lemma_find_hash_found(es.drop_first(), h, i - 1);
    }
}

proof fn lemma_find_hash_missing(es: Seq<CachedQuery>, h: Seq<char>)
    requires
        forall|k: int| 0 <= k < es.len() ==> es[k].query_hash@ != h,
    ensures
        find_hash(es, h) is None,
    decreases es.len(),
{
    if es.len() > 0 {
        lemma_find_hash_missing(es.drop_first(), h);
    }
}

/// Properties of a found index, without unrolling `find_hash`.
pub proof fn lemma_find_hash_props(es: Seq<CachedQuery>, h: Seq<char>)
    ensures
        match find_hash(es, h) {
            Some(i) => 0 <= i < es.len() && es[i].query_hash@ == h,
            None => forall|k: int| 0 <= k < es.len() ==> es[k].query_hash@ != h,
        },
    decreases es.len(),
{
    if es.len() > 0 {
        lemma_find_hash_props(es.drop_first(), h);
        if es[0].query_hash@ != h {
            match find_hash(es.drop_first(), h) {
                Some(k) => {
                    assert(es.drop_first()[k] == es[k + 1]);
                },
                None => {
                    assert forall|k: int| 0 <= k < es.len() implies es[k].query_hash@ != h by {
                        if k > 0 {
                            assert(es.drop_first()[k - 1] == es[k]);
                        }
                    }
                },
            }
        }
    }
}

/// An access-count increment that sticks at the top of the range.
pub open spec fn sat_inc(c: i32) -> i32 {
    if c < i32::MAX {
        (c + 1) as i32
    } else {
        c
    }
}

/// The relation between a row and its state after an upsert hit it:
/// response, provider, model and `last_accessed` replaced, the access
/// count up by one, everything else kept.
pub open spec fn row_updated(
    old_q: CachedQuery,
    new_q: CachedQuery,
    response: Seq<char>,
    provider: Seq<char>,
    model: Seq<char>,
    now: i64,
) -> bool {
    &&& new_q.id == old_q.id
    &&& new_q.query_original@ == old_q.query_original@
    &&& new_q.query_normalized@ == old_q.query_normalized@
    &&& new_q.query_hash@ == old_q.query_hash@
    &&& new_q.response@ == response
    &&& new_q.provider@ == provider
    &&& new_q.model@ == model
    &&& new_q.created_at == old_q.created_at
    &&& new_q.last_accessed == now
    &&& new_q.access_count == sat_inc(old_q.access_count)
}

/// What a freshly inserted row holds.
pub open spec fn fresh_row(
    q: CachedQuery,
    id: int,
    original: Seq<char>,
    normalized: Seq<char>,
    hash: Seq<char>,
    response: Seq<char>,
    provider: Seq<char>,
    model: Seq<char>,
    now: i64,
) -> bool {
    &&& q.id == id
    &&& q.query_original@ == original
    &&& q.query_normalized@ == normalized
    &&& q.query_hash@ == hash
    &&& q.response@ == response
    &&& q.provider@ == provider
    &&& q.model@ == model
    &&& q.created_at == now
    &&& q.last_accessed == now
    &&& q.access_count == 1
}

/// A copy of a cached query.
pub fn clone_query(q: &CachedQuery) -> (r: CachedQuery)
    ensures
        r == *q,
{
    CachedQuery {
        id: q.id,
        query_original: q.query_original.clone(),
        query_normalized: q.query_normalized.clone(),
        query_hash: q.query_hash.clone(),
        response: q.response.clone(),
        provider: q.provider.clone(),
        model: q.model.clone(),
        created_at: q.created_at,
        last_accessed: q.last_accessed,
        access_count: q.access_count,
    }
}

/// A copy of a vector of fixed-point values.
fn copy_i64s(v: &Vec<i64>) -> (r: Vec<i64>)
    ensures
        r@ == v@,
{
    let mut r: Vec<i64> = Vec::new();
    let n = v.len();
    let mut i: usize = 0;
    while i < n
        invariant
            n == v@.len(),
            0 <= i <= n,
            r@ == v@.take(i as int),
        decreases n - i,
    {
        r.push(v[i]);
        proof {
            assert(v@.take(i + 1) =~= v@.take(i as int).push(v@[i as int]));
        }
        i = i + 1;
    }
    proof {
        assert(v@.take(n as int) =~= v@);
    }
    r
}

/// The embedded query cache: rows, embeddings and counters, mirrored to
/// one SQLite file per cache directory.
pub struct CacheStorage {
    conn: rusqlite::Connection,
    cache_dir: String,
    embedder: Option<Embedder>,
    records: Vec<Record>,
    hit_count: i64,
    miss_count: i64,
    next_id: i64,
}

impl CacheStorage {
    /// The cached rows, in insertion order.
    pub closed spec fn entries(&self) -> Seq<CachedQuery> {
        entries_of(self.records@)
    }

    /// The rows' embeddings, aligned with `entries`.
    pub closed spec fn embeddings(&self) -> Seq<Option<Seq<i64>>> {
        embeddings_of(self.records@)
    }

    /// How many lookups hit so far.
    pub closed spec fn hits(&self) -> int {
        self.hit_count as int
    }

    /// How many lookups missed so far.
    pub closed spec fn misses(&self) -> int {
        self.miss_count as int
    }

    /// Whether an embedder is attached.
    pub closed spec fn has_embedder(&self) -> bool {
        self.embedder is Some
    }

    /// The attached embedder's dimension, 0 without one.
    pub closed spec fn dims(&self) -> int {
        match self.embedder {
            Some(e) => e.spec_dimensions(),
            None => 0,
        }
    }

    /// The id the next inserted row will get.
    pub closed spec fn spec_next_id(&self) -> int {
        self.next_id as int
    }

    /// The directory this cache lives in.
    pub closed spec fn spec_cache_dir(&self) -> Seq<char> {
        self.cache_dir@
    }

    /// The embedding `store` attaches for a normalized text.
    pub open spec fn embedding_for(&self, normalized: Seq<char>) -> Option<Seq<i64>> {
        if self.has_embedder() {
            Some(embed_spec(lower_of(normalized), self.dims()))
        } else {
            None
        }
    }

    /// The cache's invariant: hashes are unique, embeddings fit the
    /// embedder, ids stay below the insertion counter, counters are
    /// nonnegative.
    pub open spec fn wf(&self) -> bool {
        &&& forall|i: int, j: int|
            0 <= i < j < self.entries().len() ==> self.entries()[i].query_hash@
                != self.entries()[j].query_hash@
        &&& forall|i: int|
            0 <= i < self.embeddings().len() ==> match #[trigger] self.embeddings()[i] {
                Some(v) => self.has_embedder() && v.len() == self.dims() && forall|k: int|
                    0 <= k < v.len() ==> 0 <= #[trigger] v[k] <= SCALE,
                None => true,
            }
        &&& forall|i: int|
            0 <= i < self.entries().len() ==> (#[trigger] self.entries()[i]).id
                < self.spec_next_id()
        &&& self.entries().len() == self.embeddings().len()
        &&& self.hits() >= 0
        &&& self.misses() >= 0
        &&& self.has_embedder() ==> 1 <= self.dims() <= MAX_DIMENSIONS as int
    }

    /// The index of the row with this hash, if one exists.
    fn find_index(&self, query_hash: &str) -> (r: Option<usize>)
        ensures
            match r {
                Some(i) => find_hash(self.entries(), query_hash@) == Some(i as int),
                None => find_hash(self.entries(), query_hash@) is None,
            },
    {
        let n = self.records.len();
        let mut i: usize = 0;
        while i < n
            invariant
                n == self.records@.len(),
                0 <= i <= n,
                forall|k: int| 0 <= k < i ==> self.entries()[k].query_hash@ != query_hash@,
            decreases n - i,
        {
            if str_eq(self.records[i].q.query_hash.as_str(), query_hash) {
                proof {
                    assert(self.entries()[i as int].query_hash@ == query_hash@);
                    lemma_find_hash_found(self.entries(), query_hash@, i as int);
                }
                return Some(i);
            }
            proof {
                assert(self.entries()[i as int] == self.records@[i as int].q);
            }
            i = i + 1;
        }
        proof {
            lemma_find_hash_missing(self.entries(), query_hash@);
        }
        None
    }

    /// The directory this cache was opened in.
    pub fn get_cache_dir(&self) -> (r: &String)
        ensures
            r@ == self.spec_cache_dir(),
    {
        &self.cache_dir
    }

    /// Opens (creating if absent) the store file `queries.db` under
    /// `cache_dir`, ensures the schema, and loads the existing rows and
    /// counters.  The directory itself must already exist.  Fails when
    /// the file cannot be opened, a statement fails, or the stored data
    /// cannot be read; an existing store is never destroyed.
    pub fn new(cache_dir: &str) -> (r: Result<CacheStorage, CyxError>)
        ensures
            match r {
                Ok(s) => s.wf() && s.spec_cache_dir() == cache_dir@ && s.has_embedder(),
                Err(_) => true,
            },
    {
        let mut path = String::new();
        path.append(cache_dir);
        path.append("/queries.db");
        let conn = match open_db(path.as_str()) {
            Ok(c) => c,
            Err(m) => {
                return Err(CyxError::new(m));
            },
        };
        let no_params: Vec<SqlParam> = Vec::new();
        match db_exec(
            &conn,
            "CREATE TABLE IF NOT EXISTS queries (id INTEGER PRIMARY KEY AUTOINCREMENT, query_original TEXT NOT NULL, query_normalized TEXT NOT NULL, query_hash TEXT NOT NULL UNIQUE, embedding BLOB, response TEXT NOT NULL, provider TEXT NOT NULL, model TEXT NOT NULL, created_at INTEGER NOT NULL, last_accessed INTEGER NOT NULL, access_count INTEGER DEFAULT 1)",
            &no_params,
        ) {
            Ok(_) => (),
            Err(m) => {
                return Err(CyxError::new(m));
            },
        }
        // Migration for store files from before the embedding column;
        // on a current file the statement fails and that is fine.
        let _ = db_exec(&conn, "ALTER TABLE queries ADD COLUMN embedding BLOB", &no_params);
        match db_exec(
            &conn,
            "CREATE INDEX IF NOT EXISTS idx_query_hash ON queries(query_hash)",
            &no_params,
        ) {
            Ok(_) => (),
            Err(m) => {
                return Err(CyxError::new(m));
            },
        }
        match db_exec(
            &conn,
            "CREATE INDEX IF NOT EXISTS idx_created_at ON queries(created_at)",
            &no_params,
        ) {
            Ok(_) => (),
            Err(m) => {
                return Err(CyxError::new(m));
            },
        }
        match db_exec(
            &conn,
            "CREATE INDEX IF NOT EXISTS idx_access_count ON queries(access_count)",
            &no_params,
        ) {
            Ok(_) => (),
            Err(m) => {
                return Err(CyxError::new(m));
            },
        }
        match db_exec(
            &conn,
            "CREATE TABLE IF NOT EXISTS cache_stats (id INTEGER PRIMARY KEY CHECK (id = 1), hit_count INTEGER DEFAULT 0, miss_count INTEGER DEFAULT 0)",
            &no_params,
        ) {
            Ok(_) => (),
            Err(m) => {
                return Err(CyxError::new(m));
            },
        }
        match db_exec(
            &conn,
            "INSERT OR IGNORE INTO cache_stats (id, hit_count, miss_count) VALUES (1, 0, 0)",
            &no_params,
        ) {
            Ok(_) => (),
            Err(m) => {
                return Err(CyxError::new(m));
            },
        }
        let rows = match db_query_rows(
            &conn,
            "SELECT id, query_original, query_normalized, query_hash, embedding, response, provider, model, created_at, last_accessed, access_count FROM queries ORDER BY id ASC",
        ) {
            Ok(rs) => rs,
            Err(m) => {
                return Err(CyxError::new(m));
            },
        };
        let counters = match db_query_two_ints(
            &conn,
            "SELECT hit_count, miss_count FROM cache_stats WHERE id = 1",
        ) {
            Ok(c) => c,
            Err(m) => {
                return Err(CyxError::new(m));
            },
        };
        let embedder = Embedder::new_simple(Embedder::get_default_dimensions());
        let dims = embedder.dimensions();
        let mut records: Vec<Record> = Vec::new();
        let mut next_id: i64 = 1;
        let nrows = rows.len();
        let mut i: usize = 0;
        while i < nrows
            invariant
                nrows == rows@.len(),
                0 <= i <= nrows,
                embedder.wf(),
                dims == embedder.spec_dimensions(),
                next_id >= 1,
                forall|a: int, b: int|
                    0 <= a < b < entries_of(records@).len() ==> entries_of(
                        records@,
                    )[a].query_hash@ != entries_of(records@)[b].query_hash@,
                forall|a: int|
                    0 <= a < embeddings_of(records@).len() ==> match #[trigger] embeddings_of(
                        records@,
                    )[a] {
                        Some(v) => v.len() == dims as int && forall|k: int|
                            0 <= k < v.len() ==> 0 <= #[trigger] v[k] <= SCALE,
                        None => true,
                    },
                forall|a: int|
                    0 <= a < entries_of(records@).len() ==> (#[trigger] entries_of(records@)[a]).id
                        < next_id,
                entries_of(records@).len() == embeddings_of(records@).len(),
            decreases nrows - i,
        {
            let row = &rows[i];
            // Rows with out-of-range ids or a hash already seen cannot
            // come from this crate's own mirror; they are dropped rather
            // than trusted.
            if row.id >= 1 && row.id < i64::MAX {
                let mut duplicate = false;
                let m = records.len();
                let mut k: usize = 0;
                while k < m && !duplicate
                    invariant
                        m == records@.len(),
                        0 <= k <= m,
                        duplicate ==> exists|a: int|
                            0 <= a < m && entries_of(records@)[a].query_hash@ == rows@[i as int].query_hash@,
                        !duplicate ==> forall|a: int|
                            0 <= a < k ==> entries_of(records@)[a].query_hash@ != rows@[i as int].query_hash@,
                        i < nrows,
                        nrows == rows@.len(),
                    decreases m - k,
                {
                    if str_eq(records[k].q.query_hash.as_str(), rows[i].query_hash.as_str()) {
                        duplicate = true;
                        proof {
                            assert(entries_of(records@)[k as int].query_hash@ == rows@[i as int].query_hash@);
                        }
                        k = k + 1;
                    } else {
                        proof {
                            assert(entries_of(records@)[k as int] == records@[k as int].q);
                        }
                        k = k + 1;
                    }
                }
                if !duplicate {
                    let emb: Option<Vec<i64>> = match &row.embedding {
                        Some(blob) => {
                            match blob_decode(blob) {
                                Some(v) => {
                                    if Self::embedding_usable(&v, dims) {
                                        Some(v)
                                    } else {
                                        None
                                    }
                                },
                                None => None,
                            }
                        },
                        None => None,
                    };
                    let ac: i32 = if row.access_count > (i32::MAX as i64) {
                        i32::MAX
                    } else if row.access_count < 1 {
                        1
                    } else {
                        row.access_count as i32
                    };
                    let q = CachedQuery {
                        id: row.id,
                        query_original: row.query_original.clone(),
                        query_normalized: row.query_normalized.clone(),
                        query_hash: row.query_hash.clone(),
                        response: row.response.clone(),
                        provider: row.provider.clone(),
                        model: row.model.clone(),
                        created_at: row.created_at,
                        last_accessed: row.last_accessed,
                        access_count: ac,
                    };
                    let ghost new_emb_view: Option<Seq<i64>> = (match emb {
                        Some(ref v) => Some(v@),
                        None => None,
                    });
                    let ghost old_records = records@;
                    let ghost old_next = next_id as int;
                    records.push(Record { q, emb });
                    if row.id >= next_id {
                        next_id = row.id + 1;
                    }
                    proof {
                        let es = entries_of(records@);
                        let old_es = entries_of(old_records);
                        let last = old_records.len() as int;
                        assert(es.len() == last + 1);
                        assert forall|a: int| 0 <= a < last implies es[a] == old_es[a] by {
                            assert(records@[a] == old_records[a]);
                        }
                        assert forall|a: int| 0 <= a < last implies embeddings_of(records@)[a]
                            == embeddings_of(old_records)[a] by {
                            assert(records@[a] == old_records[a]);
                        }
                        assert(es[last].query_hash@ == rows@[i as int].query_hash@);
                        assert(embeddings_of(records@)[last] == new_emb_view);
                        assert forall|a: int, b: int|
                            0 <= a < b < es.len() implies es[a].query_hash@
                            != es[b].query_hash@ by {
                            if b < last {
                                assert(es[a] == old_es[a] && es[b] == old_es[b]);
                            } else {
                                assert(es[a] == old_es[a]);
                                assert(old_es[a].query_hash@ != rows@[i as int].query_hash@);
                            }
                        }
                        assert forall|a: int|
                            0 <= a < embeddings_of(records@).len() implies match #[trigger] embeddings_of(
                            records@,
                        )[a] {
                            Some(v) => v.len() == dims as int && forall|k: int|
                                0 <= k < v.len() ==> 0 <= #[trigger] v[k] <= SCALE,
                            None => true,
                        } by {
                            if a < last {
                                assert(embeddings_of(records@)[a] == embeddings_of(old_records)[a]);
                            } else {
                                assert(embeddings_of(records@)[a] == new_emb_view);
                            }
                        }
                        assert forall|a: int| 0 <= a < es.len() implies (#[trigger] es[a]).id
                            < next_id by {
                            if a < last {
                                assert(es[a] == old_es[a]);
                                assert(old_es[a].id < old_next);
                                assert(old_next <= next_id as int);
                            } else {
                                assert(es[a].id == rows@[i as int].id);
                            }
                        }
                    }
                }
            }
            i = i + 1;
        }
        let hit_count: i64 = if counters.0 < 0 {
            0
        } else {
            counters.0
        };
        let miss_count: i64 = if counters.1 < 0 {
            0
        } else {
            counters.1
        };
        let mut dir = String::new();
        dir.append(cache_dir);
        let s = CacheStorage {
            conn,
            cache_dir: dir,
            embedder: Some(embedder),
            records,
            hit_count,
            miss_count,
            next_id,
        };
        Ok(s)
    }

    /// Whether a decoded embedding fits the attached embedder.
    fn embedding_usable(v: &Vec<i64>, dims: usize) -> (r: bool)
        ensures
            r == (v@.len() == dims as int && forall|k: int|
                0 <= k < v@.len() ==> 0 <= #[trigger] v@[k] <= SCALE),
    {
        if v.len() != dims {
            return false;
        }
        let n = v.len();
        let mut k: usize = 0;
        while k < n
            invariant
                n == v@.len(),
                0 <= k <= n,
                forall|p: int| 0 <= p < k ==> 0 <= #[trigger] v@[p] <= SCALE,
            decreases n - k,
        {
            if v[k] < 0 || v[k] > SCALE {
                return false;
            }
            k = k + 1;
        }
        true
    }
}

/// What one `store` at time `now` does to the cache, returning row id
/// `id`: an upsert keyed by `hash`.  A colliding hash updates the row in
/// place (`row_updated`) and refreshes its embedding; a new hash appends
/// a fresh row (`fresh_row`) under the next id.  The hit/miss counters
/// are untouched either way.
pub open spec fn store_rel(
    pre: CacheStorage,
    post: CacheStorage,
    original: Seq<char>,
    normalized: Seq<char>,
    hash: Seq<char>,
    response: Seq<char>,
    provider: Seq<char>,
    model: Seq<char>,
    id: int,
    now: i64,
) -> bool {
    &&& post.hits() == pre.hits()
    &&& post.misses() == pre.misses()
    &&& post.has_embedder() == pre.has_embedder()
    &&& post.dims() == pre.dims()
    &&& match find_hash(pre.entries(), hash) {
        Some(k) => {
            &&& post.entries().len() == pre.entries().len()
            &&& forall|m: int|
                0 <= m < pre.entries().len() && m != k ==> #[trigger] post.entries()[m]
                    == pre.entries()[m] && post.embeddings()[m] == pre.embeddings()[m]
            &&& row_updated(pre.entries()[k], post.entries()[k], response, provider, model, now)
            &&& post.embeddings()[k] == pre.embedding_for(normalized)
            &&& id == pre.entries()[k].id
            &&& post.spec_next_id() == pre.spec_next_id()
        },
        None => {
            &&& post.entries().len() == pre.entries().len() + 1
            &&& forall|m: int|
                0 <= m < pre.entries().len() ==> #[trigger] post.entries()[m] == pre.entries()[m]
                    && post.embeddings()[m] == pre.embeddings()[m]
            &&& fresh_row(
                post.entries()[pre.entries().len() as int],
                pre.spec_next_id(),
                original,
                normalized,
                hash,
                response,
                provider,
                model,
                now,
            )
            &&& post.embeddings()[pre.entries().len() as int] == pre.embedding_for(normalized)
            &&& id == pre.spec_next_id()
            &&& post.spec_next_id() == pre.spec_next_id() + 1
        },
    }
}

impl CacheStorage {
    /// Stores a response under its query hash at time `now`: one atomic
    /// upsert, as `store_rel` describes.  Fails only when the mirror
    /// write fails or the id space is exhausted, and then changes
    /// nothing.
    pub fn store_at(
        &mut self,
        query_original: &str,
        query_normalized: &str,
        query_hash: &str,
        response: &str,
        provider: &str,
        model: &str,
        now: i64,
    ) -> (r: Result<i64, CyxError>)
        requires
            old(self).wf(),
        ensures
            final(self).wf(),
            match r {
                Ok(id) => store_rel(
                    *old(self),
                    *final(self),
                    query_original@,
                    query_normalized@,
                    query_hash@,
                    response@,
                    provider@,
                    model@,
                    id as int,
                    now,
                ),
                Err(_) => *final(self) == *old(self),
            },
    {
        let emb: Option<Vec<i64>> = match &self.embedder {
            Some(e) => {
                proof {
                    assert(self.has_embedder());
                    assert(e.wf());
                }
                Some(e.embed(query_normalized))
            },
            None => None,
        };
        let ghost emb_view: Option<Seq<i64>> = (match emb {
            Some(ref v) => Some(v@),
            None => None,
        });
        proof {
            assert(emb_view == self.embedding_for(query_normalized@));
        }
        let idx_opt = self.find_index(query_hash);
        proof {
            lemma_find_hash_props(self.entries(), query_hash@);
        }
        let row_id: i64 = match idx_opt {
            Some(i) => self.records[i].q.id,
            None => {
                if self.next_id == i64::MAX {
                    return Err(CyxError::new("cache id space exhausted".to_owned()));
                }
                self.next_id
            },
        };
        let blob_param: SqlParam = match &emb {
            Some(v) => SqlParam::Blob(blob_encode(v)),
            None => SqlParam::Null,
        };
        let mut params: Vec<SqlParam> = Vec::new();
        params.push(SqlParam::Int(row_id));
        params.push(SqlParam::Text(query_original.to_owned()));
        params.push(SqlParam::Text(query_normalized.to_owned()));
        params.push(SqlParam::Text(query_hash.to_owned()));
        params.push(blob_param);
        params.push(SqlParam::Text(response.to_owned()));
        params.push(SqlParam::Text(provider.to_owned()));
        params.push(SqlParam::Text(model.to_owned()));
        params.push(SqlParam::Int(now));
        params.push(SqlParam::Int(now));
        params.push(SqlParam::Int(1));
        match db_exec(
            &self.conn,
            "INSERT INTO queries (id, query_original, query_normalized, query_hash, embedding, response, provider, model, created_at, last_accessed, access_count) VALUES (?1, ?2, ?3, ?4, ?5, ?6, ?7, ?8, ?9, ?10, ?11) ON CONFLICT(query_hash) DO UPDATE SET embedding = excluded.embedding, response = excluded.response, provider = excluded.provider, model = excluded.model, last_accessed = excluded.last_accessed, access_count = access_count + 1",
            &params,
        ) {
            Ok(_) => (),
            Err(m) => {
                return Err(CyxError::new(m));
            },
        }
        let ghost pre = *self;
        match idx_opt {
            Some(i) => {
                let old_q = &self.records[i].q;
                let new_q = CachedQuery {
                    id: old_q.id,
                    query_original: old_q.query_original.clone(),
                    query_normalized: old_q.query_normalized.clone(),
                    query_hash: old_q.query_hash.clone(),
                    response: response.to_owned(),
                    provider: provider.to_owned(),
                    model: model.to_owned(),
                    created_at: old_q.created_at,
                    last_accessed: now,
                    access_count: if old_q.access_count < i32::MAX {
                        old_q.access_count + 1
                    } else {
                        old_q.access_count
                    },
                };
                self.records.set(i, Record { q: new_q, emb });
                proof {
                    let k = i as int;
                    let es = self.entries();
                    let old_es = pre.entries();
                    assert forall|m: int| 0 <= m < old_es.len() && m != k implies #[trigger] es[m]
                        == old_es[m] && self.embeddings()[m] == pre.embeddings()[m] by {
                        assert(self.records@[m] == pre.records@[m]);
                    }
                    assert(es[k] == self.records@[k].q);
                    assert(row_updated(old_es[k], es[k], response@, provider@, model@, now));
                    assert(self.embeddings()[k] == emb_view);
                    assert forall|a: int, b: int|
                        0 <= a < b < es.len() implies es[a].query_hash@ != es[b].query_hash@ by {
                        assert(es[a].query_hash@ == old_es[a].query_hash@);
                        assert(es[b].query_hash@ == old_es[b].query_hash@);
                    }
                    assert forall|a: int|
                        0 <= a < self.embeddings().len() implies match #[trigger] self.embeddings()[a] {
                        Some(v) => self.has_embedder() && v.len() == self.dims() && forall|kk: int|
                            0 <= kk < v.len() ==> 0 <= #[trigger] v[kk] <= SCALE,
                        None => true,
                    } by {
                        if a != k {
                            assert(self.embeddings()[a] == pre.embeddings()[a]);
                        }
                    }
                    assert forall|a: int| 0 <= a < es.len() implies (#[trigger] es[a]).id
                        < self.spec_next_id() by {
                        if a != k {
                            assert(es[a] == old_es[a]);
                        } else {
                            assert(es[a].id == old_es[k].id);
                        }
                    }
                }
                Ok(row_id)
            },
            None => {
                let q = CachedQuery {
                    id: row_id,
                    query_original: query_original.to_owned(),
                    query_normalized: query_normalized.to_owned(),
                    query_hash: query_hash.to_owned(),
                    response: response.to_owned(),
                    provider: provider.to_owned(),
                    model: model.to_owned(),
                    created_at: now,
                    last_accessed: now,
                    access_count: 1,
                };
                self.records.push(Record { q, emb });
                self.next_id = self.next_id + 1;
                proof {
                    let es = self.entries();
                    let old_es = pre.entries();
                    let last = old_es.len() as int;
                    assert(es.len() == last + 1);
                    assert forall|m: int| 0 <= m < last implies #[trigger] es[m] == old_es[m]
                        && self.embeddings()[m] == pre.embeddings()[m] by {
                        assert(self.records@[m] == pre.records@[m]);
                    }
                    assert(es[last] == self.records@[last].q);
                    assert(fresh_row(
                        es[last],
                        pre.spec_next_id(),
                        query_original@,
                        query_normalized@,
                        query_hash@,
                        response@,
                        provider@,
                        model@,
                        now,
                    ));
                    assert(self.embeddings()[last] == emb_view);
                    assert forall|a: int, b: int|
                        0 <= a < b < es.len() implies es[a].query_hash@ != es[b].query_hash@ by {
                        if b < last {
                            assert(es[a] == old_es[a] && es[b] == old_es[b]);
                        } else {
                            assert(es[a] == old_es[a]);
                            assert(old_es[a].query_hash@ != query_hash@);
                        }
                    }
                    assert forall|a: int|
                        0 <= a < self.embeddings().len() implies match #[trigger] self.embeddings()[a] {
                        Some(v) => self.has_embedder() && v.len() == self.dims() && forall|kk: int|
                            0 <= kk < v.len() ==> 0 <= #[trigger] v[kk] <= SCALE,
                        None => true,
                    } by {
                        if a < last {
                            assert(self.embeddings()[a] == pre.embeddings()[a]);
                        } else {
                            assert(self.embeddings()[a] == emb_view);
                        }
                    }
                    assert forall|a: int| 0 <= a < es.len() implies (#[trigger] es[a]).id
                        < self.spec_next_id() by {
                        if a < last {
                            assert(es[a] == old_es[a]);
                        }
                    }
                }
                Ok(row_id)
            },
        }
    }

    /// Stores a response under its query hash, stamped with the current
    /// clock time.  The change is `store_rel` for the moment the clock
    /// gave; a failure changes nothing.
    pub fn store(
        &mut self,
        query_original: &str,
        query_normalized: &str,
        query_hash: &str,
        response: &str,
        provider: &str,
        model: &str,
    ) -> (r: Result<i64, CyxError>)
        requires
            old(self).wf(),
        ensures
            final(self).wf(),
            match r {
                Ok(id) => exists|t: i64|
                    store_rel(
                        *old(self),
                        *final(self),
                        query_original@,
                        query_normalized@,
                        query_hash@,
                        response@,
                        provider@,
                        model@,
                        id as int,
                        t,
                    ),
                Err(_) => *final(self) == *old(self),
            },
    {
        let now = now_seconds();
        let r = self.store_at(
            query_original,
            query_normalized,
            query_hash,
            response,
            provider,
            model,
            now,
        );
        proof {
            if r is Ok {
                assert(store_rel(
                    *old(self),
                    *self,
                    query_original@,
                    query_normalized@,
                    query_hash@,
                    response@,
                    provider@,
                    model@,
                    r.unwrap() as int,
                    now,
                ));
            }
        }
        r
    }
}

/// A lookup-counter increment that sticks at the top of the range.
pub open spec fn sat_inc64(c: i64) -> i64 {
    if c < i64::MAX {
        (c + 1) as i64
    } else {
        c
    }
}

/// The relation between a row and its state after a hit touched it:
/// `last_accessed` refreshed, the access count up by one, everything
/// else kept.
pub open spec fn touched_row(old_q: CachedQuery, new_q: CachedQuery, now: i64) -> bool {
    &&& new_q.id == old_q.id
    &&& new_q.query_original@ == old_q.query_original@
    &&& new_q.query_normalized@ == old_q.query_normalized@
    &&& new_q.query_hash@ == old_q.query_hash@
    &&& new_q.response@ == old_q.response@
    &&& new_q.provider@ == old_q.provider@
    &&& new_q.model@ == old_q.model@
    &&& new_q.created_at == old_q.created_at
    &&& new_q.last_accessed == now
    &&& new_q.access_count == sat_inc(old_q.access_count)
}

/// What one exact lookup at time `now` does: a hit returns the row as it
/// was, touches its access bookkeeping and counts one hit; a miss
/// returns nothing, changes no row and counts one miss.
pub open spec fn get_rel(
    pre: CacheStorage,
    post: CacheStorage,
    hash: Seq<char>,
    found: Option<CachedQuery>,
    now: i64,
) -> bool {
    &&& post.has_embedder() == pre.has_embedder()
    &&& post.dims() == pre.dims()
    &&& post.spec_next_id() == pre.spec_next_id()
    &&& match find_hash(pre.entries(), hash) {
        Some(k) => {
            &&& found == Some(pre.entries()[k])
            &&& post.entries().len() == pre.entries().len()
            &&& forall|m: int|
                0 <= m < pre.entries().len() && m != k ==> #[trigger] post.entries()[m]
                    == pre.entries()[m] && post.embeddings()[m] == pre.embeddings()[m]
            &&& touched_row(pre.entries()[k], post.entries()[k], now)
            &&& post.embeddings()[k] == pre.embeddings()[k]
            &&& post.hits() == sat_inc64(pre.hits() as i64) as int
            &&& post.misses() == pre.misses()
        },
        None => {
            &&& found is None
            &&& post.entries() == pre.entries()
            &&& post.embeddings() == pre.embeddings()
            &&& post.hits() == pre.hits()
            &&& post.misses() == sat_inc64(pre.misses() as i64) as int
        },
    }
}

impl CacheStorage {
    /// Exact lookup at time `now`, as `get_rel` describes.  A failed
    /// mirror write reports an error and changes nothing.
    pub fn get_by_hash_at(&mut self, query_hash: &str, now: i64) -> (r: Result<
        Option<CachedQuery>,
        CyxError,
    >)
        requires
            old(self).wf(),
        ensures
            final(self).wf(),
            match r {
                Ok(found) => get_rel(*old(self), *final(self), query_hash@, found, now),
                Err(_) => *final(self) == *old(self),
            },
    {
        let idx_opt = self.find_index(query_hash);
        proof {
            lemma_find_hash_props(self.entries(), query_hash@);
        }
        match idx_opt {
            Some(i) => {
                let mut params: Vec<SqlParam> = Vec::new();
                params.push(SqlParam::Int(now));
                params.push(SqlParam::Text(query_hash.to_owned()));
                match db_exec(
                    &self.conn,
                    "UPDATE queries SET last_accessed = ?1, access_count = access_count + 1 WHERE query_hash = ?2",
                    &params,
                ) {
                    Ok(_) => (),
                    Err(m) => {
                        return Err(CyxError::new(m));
                    },
                }
                let no_params: Vec<SqlParam> = Vec::new();
                match db_exec(
                    &self.conn,
                    "UPDATE cache_stats SET hit_count = hit_count + 1 WHERE id = 1",
                    &no_params,
                ) {
                    Ok(_) => (),
                    Err(m) => {
                        return Err(CyxError::new(m));
                    },
                }
                let ghost pre = *self;
                let found_q = clone_query(&self.records[i].q);
                let old_q = &self.records[i].q;
                let new_q = CachedQuery {
                    id: old_q.id,
                    query_original: old_q.query_original.clone(),
                    query_normalized: old_q.query_normalized.clone(),
                    query_hash: old_q.query_hash.clone(),
                    response: old_q.response.clone(),
                    provider: old_q.provider.clone(),
                    model: old_q.model.clone(),
                    created_at: old_q.created_at,
                    last_accessed: now,
                    access_count: if old_q.access_count < i32::MAX {
                        old_q.access_count + 1
                    } else {
                        old_q.access_count
                    },
                };
                let emb = match &self.records[i].emb {
                    Some(v) => Some(copy_i64s(v)),
                    None => None,
                };
                self.records.set(i, Record { q: new_q, emb });
                if self.hit_count < i64::MAX {
                    self.hit_count = self.hit_count + 1;
                }
                proof {
                    let k = i as int;
                    let es = self.entries();
                    let old_es = pre.entries();
                    assert forall|m: int| 0 <= m < old_es.len() && m != k implies #[trigger] es[m]
                        == old_es[m] && self.embeddings()[m] == pre.embeddings()[m] by {
                        assert(self.records@[m] == pre.records@[m]);
                    }
                    assert(es[k] == self.records@[k].q);
                    assert(touched_row(old_es[k], es[k], now));
                    assert(self.embeddings()[k] == pre.embeddings()[k]);
                    assert forall|a: int, b: int|
                        0 <= a < b < es.len() implies es[a].query_hash@ != es[b].query_hash@ by {
                        assert(es[a].query_hash@ == old_es[a].query_hash@);
                        assert(es[b].query_hash@ == old_es[b].query_hash@);
                    }
                    assert forall|a: int|
                        0 <= a < self.embeddings().len() implies match #[trigger] self.embeddings()[a] {
                        Some(v) => self.has_embedder() && v.len() == self.dims() && forall|kk: int|
                            0 <= kk < v.len() ==> 0 <= #[trigger] v[kk] <= SCALE,
                        None => true,
                    } by {
                        assert(self.embeddings()[a] == pre.embeddings()[a]);
                    }
                    assert forall|a: int| 0 <= a < es.len() implies (#[trigger] es[a]).id
                        < self.spec_next_id() by {
                        if a != k {
                            assert(es[a] == old_es[a]);
                        } else {
                            assert(es[a].id == old_es[k].id);
                        }
                    }
                }
                Ok(Some(found_q))
            },
            None => {
                let no_params: Vec<SqlParam> = Vec::new();
                match db_exec(
                    &self.conn,
                    "UPDATE cache_stats SET miss_count = miss_count + 1 WHERE id = 1",
                    &no_params,
                ) {
                    Ok(_) => (),
                    Err(m) => {
                        return Err(CyxError::new(m));
                    },
                }
                if self.miss_count < i64::MAX {
                    self.miss_count = self.miss_count + 1;
                }
                Ok(None)
            },
        }
    }

    /// Exact lookup stamped with the current clock time; a hit updates
    /// the row's access bookkeeping and the hit counter, a miss counts
    /// one miss.  A failure changes nothing.
    pub fn get_by_hash(&mut self, query_hash: &str) -> (r: Result<Option<CachedQuery>, CyxError>)
        requires
            old(self).wf(),
        ensures
            final(self).wf(),
            match r {
                Ok(found) => exists|t: i64|
                    get_rel(*old(self), *final(self), query_hash@, found, t),
                Err(_) => *final(self) == *old(self),
            },
    {
        let now = now_seconds();
        let r = self.get_by_hash_at(query_hash, now);
        proof {
            if r is Ok {
                assert(get_rel(*old(self), *self, query_hash@, r.unwrap(), now));
            }
        }
        r
    }

    /// Deletes every row and resets both counters to zero; the result is
    /// how many rows were deleted.  A failure changes nothing.
    pub fn clear(&mut self) -> (r: Result<usize, CyxError>)
        requires
            old(self).wf(),
        ensures
            final(self).wf(),
            match r {
                Ok(n) => {
                    &&& n == old(self).entries().len()
                    &&& final(self).entries().len() == 0
                    &&& final(self).hits() == 0
                    &&& final(self).misses() == 0
                    &&& final(self).has_embedder() == old(self).has_embedder()
                    &&& final(self).dims() == old(self).dims()
                    &&& final(self).spec_next_id() == old(self).spec_next_id()
                },
                Err(_) => *final(self) == *old(self),
            },
    {
        let no_params: Vec<SqlParam> = Vec::new();
        match db_exec(&self.conn, "DELETE FROM queries", &no_params) {
            Ok(_) => (),
            Err(m) => {
                return Err(CyxError::new(m));
            },
        }
        match db_exec(
            &self.conn,
            "UPDATE cache_stats SET hit_count = 0, miss_count = 0 WHERE id = 1",
            &no_params,
        ) {
            Ok(_) => (),
            Err(m) => {
                return Err(CyxError::new(m));
            },
        }
        let n = self.records.len();
        self.records = Vec::new();
        self.hit_count = 0;
        self.miss_count = 0;
        Ok(n)
    }

    /// Deletes the row with this hash if it exists; the result says
    /// whether anything was deleted.  On a missing hash nothing changes.
    /// A failure changes nothing either.
    pub fn remove_by_hash(&mut self, query_hash: &str) -> (r: Result<bool, CyxError>)
        requires
            old(self).wf(),
        ensures
            final(self).wf(),
            match r {
                Ok(b) => match find_hash(old(self).entries(), query_hash@) {
                    Some(k) => {
                        &&& b == true
                        &&& final(self).entries() == old(self).entries().remove(k)
                        &&& final(self).embeddings() == old(self).embeddings().remove(k)
                        &&& final(self).hits() == old(self).hits()
                        &&& final(self).misses() == old(self).misses()
                        &&& final(self).has_embedder() == old(self).has_embedder()
                        &&& final(self).dims() == old(self).dims()
                        &&& final(self).spec_next_id() == old(self).spec_next_id()
                    },
                    None => b == false && *final(self) == *old(self),
                },
                Err(_) => *final(self) == *old(self),
            },
    {
        let idx_opt = self.find_index(query_hash);
        proof {
            lemma_find_hash_props(self.entries(), query_hash@);
        }
        let mut params: Vec<SqlParam> = Vec::new();
        params.push(SqlParam::Text(query_hash.to_owned()));
        match db_exec(&self.conn, "DELETE FROM queries WHERE query_hash = ?1", &params) {
            Ok(_) => (),
            Err(m) => {
                return Err(CyxError::new(m));
            },
        }
        match idx_opt {
            Some(i) => {
                let ghost pre = *self;
                self.records.remove(i);
                proof {
                    let k = i as int;
                    let es = self.entries();
                    let old_es = pre.entries();
                    assert forall|m: int| 0 <= m < es.len() implies #[trigger] es[m]
                        == old_es.remove(k)[m] && self.embeddings()[m] == pre.embeddings().remove(
                        k,
                    )[m] by {
                        if m < k {
                            assert(self.records@[m] == pre.records@[m]);
                        } else {
                            assert(self.records@[m] == pre.records@[m + 1]);
                        }
                    }
                    assert(es =~= old_es.remove(k));
                    assert(self.embeddings() =~= pre.embeddings().remove(k));
                    assert forall|a: int, b: int|
                        0 <= a < b < es.len() implies es[a].query_hash@ != es[b].query_hash@ by {
                        let a0 = if a < k {
                            a
                        } else {
                            a + 1
                        };
                        let b0 = if b < k {
                            b
                        } else {
                            b + 1
                        };
                        assert(es[a] == old_es[a0] && es[b] == old_es[b0]);
                    }
                    assert forall|a: int|
                        0 <= a < self.embeddings().len() implies match #[trigger] self.embeddings()[a] {
                        Some(v) => self.has_embedder() && v.len() == self.dims() && forall|kk: int|
                            0 <= kk < v.len() ==> 0 <= #[trigger] v[kk] <= SCALE,
                        None => true,
                    } by {
                        let a0 = if a < k {
                            a
                        } else {
                            a + 1
                        };
                        assert(self.embeddings()[a] == pre.embeddings()[a0]);
                    }
                    assert forall|a: int| 0 <= a < es.len() implies (#[trigger] es[a]).id
                        < self.spec_next_id() by {
                        let a0 = if a < k {
                            a
                        } else {
                            a + 1
                        };
                        assert(es[a] == old_es[a0]);
                    }
                }
                Ok(true)
            },
            None => Ok(false),
        }
    }
}

/// A row paired with its embedding.
pub open spec fn paired(s: &CacheStorage) -> Seq<(CachedQuery, Option<Seq<i64>>)> {
    Seq::new(s.entries().len(), |i: int| (s.entries()[i], s.embeddings()[i]))
}

/// The rows of a record list paired with their embeddings.
spec fn paired_of(rs: Seq<Record>) -> Seq<(CachedQuery, Option<Seq<i64>>)> {
    Seq::new(
        rs.len(),
        |i: int|
            (
                rs[i].q,
                match rs[i].emb {
                    Some(v) => Some(v@),
                    None => None,
                },
            ),
    )
}

/// Whether two records hold the same row and the same embedding.
spec fn rec_like(a: Record, b: Record) -> bool {
    &&& a.q == b.q
    &&& match (a.emb, b.emb) {
        (Some(x), Some(y)) => x@ == y@,
        (None, None) => true,
        _ => false,
    }
}

/// The summed display size of the rows: characters of response plus
/// characters of original query, row by row.
pub open spec fn size_sum(es: Seq<CachedQuery>) -> int
    decreases es.len(),
{
    if es.len() == 0 {
        0
    } else {
        size_sum(es.drop_last()) + es.last().response@.len() + es.last().query_original@.len()
    }
}

/// The smaller of two mathematical integers.
pub open spec fn min_i(a: int, b: int) -> int {
    if a < b {
        a
    } else {
        b
    }
}

/// The earliest creation time among the rows.
pub open spec fn min_created(es: Seq<CachedQuery>) -> Option<i64>
    decreases es.len(),
{
    if es.len() == 0 {
        None
    } else {
        match min_created(es.drop_last()) {
            None => Some(es.last().created_at),
            Some(m) => Some(
                if es.last().created_at < m {
                    es.last().created_at
                } else {
                    m
                },
            ),
        }
    }
}

/// The latest creation time among the rows.
pub open spec fn max_created(es: Seq<CachedQuery>) -> Option<i64>
    decreases es.len(),
{
    if es.len() == 0 {
        None
    } else {
        match max_created(es.drop_last()) {
            None => Some(es.last().created_at),
            Some(m) => Some(
                if es.last().created_at > m {
                    es.last().created_at
                } else {
                    m
                },
            ),
        }
    }
}

impl CacheStorage {
    /// Deletes exactly the rows whose `created_at` lies before `cutoff`;
    /// newer rows keep their place, their embeddings and their data, and
    /// the hit/miss counters are untouched.  The result is how many rows
    /// were deleted.  A failure changes nothing.
    pub fn cleanup_before(&mut self, cutoff: i64) -> (r: Result<usize, CyxError>)
        requires
            old(self).wf(),
        ensures
            final(self).wf(),
            match r {
                Ok(n) => {
                    &&& paired(final(self)) == paired(old(self)).filter(
                        |p: (CachedQuery, Option<Seq<i64>>)| p.0.created_at >= cutoff,
                    )
                    &&& n + final(self).entries().len() == old(self).entries().len()
                    &&& final(self).hits() == old(self).hits()
                    &&& final(self).misses() == old(self).misses()
                    &&& final(self).has_embedder() == old(self).has_embedder()
                    &&& final(self).dims() == old(self).dims()
                    &&& final(self).spec_next_id() == old(self).spec_next_id()
                },
                Err(_) => *final(self) == *old(self),
            },
    {
        let mut params: Vec<SqlParam> = Vec::new();
        params.push(SqlParam::Int(cutoff));
        match db_exec(&self.conn, "DELETE FROM queries WHERE created_at < ?1", &params) {
            Ok(_) => (),
            Err(m) => {
                return Err(CyxError::new(m));
            },
        }
        let ghost pre = *self;
        let ghost pred = |p: (CachedQuery, Option<Seq<i64>>)| p.0.created_at >= cutoff;
        let ghost pp = paired(&pre);
        let n = self.records.len();
        let mut kept: Vec<Record> = Vec::new();
        let ghost mut idxs: Seq<int> = Seq::empty();
        let mut removed: usize = 0;
        let mut i: usize = 0;
        proof {
            reveal_with_fuel(Seq::<(CachedQuery, Option<Seq<i64>>)>::filter, 2);
            assert(pp.take(0) =~= Seq::<(CachedQuery, Option<Seq<i64>>)>::empty());
            assert(paired_of(kept@) =~= pp.take(0).filter(pred));
        }
        while i < n
            invariant
                *self == pre,
                pre.wf(),
                n == pre.records@.len(),
                pp == paired(&pre),
                0 <= i <= n,
                kept@.len() == idxs.len(),
                removed + kept@.len() == i,
                pred == (|p: (CachedQuery, Option<Seq<i64>>)| p.0.created_at >= cutoff),
                forall|a: int| 0 <= a < idxs.len() ==> 0 <= #[trigger] idxs[a] < i,
                forall|a: int, b: int| 0 <= a < b < idxs.len() ==> idxs[a] < idxs[b],
                forall|a: int|
                    0 <= a < kept@.len() ==> rec_like(#[trigger] kept@[a], pre.records@[idxs[a]]),
                paired_of(kept@) == pp.take(i as int).filter(pred),
            decreases n - i,
        {
            proof {
                reveal_with_fuel(Seq::<(CachedQuery, Option<Seq<i64>>)>::filter, 2);
                assert(pp.take(i + 1).drop_last() =~= pp.take(i as int));
                assert(pp.take(i + 1).last() == pp[i as int]);
                assert(pre.entries()[i as int] == pre.records@[i as int].q);
                assert(pp[i as int] == (pre.entries()[i as int], pre.embeddings()[i as int]));
            }
            if self.records[i].q.created_at >= cutoff {
                let q2 = clone_query(&self.records[i].q);
                let e2 = match &self.records[i].emb {
                    Some(v) => Some(copy_i64s(v)),
                    None => None,
                };
                let ghost old_kept = kept@;
                kept.push(Record { q: q2, emb: e2 });
                proof {
                    idxs = idxs.push(i as int);
                    let la = old_kept.len() as int;
                    assert(rec_like(kept@[la], pre.records@[i as int]));
                    assert forall|a: int| 0 <= a < kept@.len() implies rec_like(
                        #[trigger] kept@[a],
                        pre.records@[idxs[a]],
                    ) by {
                        if a < la {
                            assert(kept@[a] == old_kept[a]);
                            assert(idxs[a] == idxs.drop_last()[a]);
                        }
                    }
                    assert(paired_of(kept@)[la] == pp[i as int]);
                    assert forall|a: int| 0 <= a < la implies paired_of(kept@)[a] == paired_of(
                        old_kept,
                    )[a] by {
                        assert(kept@[a] == old_kept[a]);
                    }
                    assert(pred(pp[i as int]));
                    assert(pp.take(i + 1).filter(pred) == pp.take(i as int).filter(pred).push(
                        pp[i as int],
                    ));
                    assert(paired_of(kept@) =~= pp.take(i + 1).filter(pred));
                }
            } else {
                removed = removed + 1;
                proof {
                    assert(!pred(pp[i as int]));
                    assert(paired_of(kept@) =~= pp.take(i + 1).filter(pred));
                }
            }
            i = i + 1;
        }
        proof {
            assert(pp.take(n as int) =~= pp);
        }
        self.records = kept;
        proof {
            let es = self.entries();
            assert forall|m: int| 0 <= m < es.len() implies paired(self)[m] == paired_of(
                self.records@,
            )[m] by {
                assert(es[m] == self.records@[m].q);
            }
            assert(paired(self) =~= paired_of(self.records@));
            assert(paired(self) == pp.filter(pred));
            assert forall|a: int, b: int|
                0 <= a < b < es.len() implies es[a].query_hash@ != es[b].query_hash@ by {
                assert(rec_like(self.records@[a], pre.records@[idxs[a]]));
                assert(rec_like(self.records@[b], pre.records@[idxs[b]]));
                assert(es[a] == pre.records@[idxs[a]].q);
                assert(es[b] == pre.records@[idxs[b]].q);
                assert(pre.entries()[idxs[a]] == pre.records@[idxs[a]].q);
                assert(pre.entries()[idxs[b]] == pre.records@[idxs[b]].q);
            }
            assert forall|a: int|
                0 <= a < self.embeddings().len() implies match #[trigger] self.embeddings()[a] {
                Some(v) => self.has_embedder() && v.len() == self.dims() && forall|kk: int|
                    0 <= kk < v.len() ==> 0 <= #[trigger] v[kk] <= SCALE,
                None => true,
            } by {
                assert(rec_like(self.records@[a], pre.records@[idxs[a]]));
                assert(self.embeddings()[a] == pre.embeddings()[idxs[a]]);
            }
            assert forall|a: int| 0 <= a < es.len() implies (#[trigger] es[a]).id
                < self.spec_next_id() by {
                assert(rec_like(self.records@[a], pre.records@[idxs[a]]));
                assert(es[a] == pre.entries()[idxs[a]]);
            }
        }
        Ok(removed)
    }
}

/// What an age-based eviction with cutoff `c` did: rows strictly older
/// than `c` went, everything else stayed.
pub open spec fn cleanup_rel(pre: CacheStorage, post: CacheStorage, c: i64, n: int) -> bool {
    &&& paired(&post) == paired(&pre).filter(
        |p: (CachedQuery, Option<Seq<i64>>)| p.0.created_at >= c,
    )
    &&& n + post.entries().len() == pre.entries().len()
    &&& post.hits() == pre.hits()
    &&& post.misses() == pre.misses()
}

impl CacheStorage {
    /// Age-based eviction: deletes the rows older than `days` days before
    /// the current clock time and reports how many went; counters and
    /// newer rows stay untouched.
    pub fn cleanup_old_entries(&mut self, days: u32) -> (r: Result<usize, CyxError>)
        requires
            old(self).wf(),
        ensures
            final(self).wf(),
            match r {
                Ok(n) => exists|c: i64| cleanup_rel(*old(self), *final(self), c, n as int),
                Err(_) => *final(self) == *old(self),
            },
    {
        let now = now_seconds();
        let window: i64 = (days as i64) * 86400;
        let cutoff: i64 = if now >= i64::MIN + window {
            now - window
        } else {
            i64::MIN
        };
        let r = self.cleanup_before(cutoff);
        proof {
            if r is Ok {
                assert(cleanup_rel(*old(self), *self, cutoff, r.unwrap() as int));
            }
        }
        match r {
            Ok(n) => Ok(n),
            Err(e) => Err(e),
        }
    }
}

/// Selection sort, descending by `last_accessed`; ties keep a fixed,
/// deterministic order.
fn sort_queries_desc(v: Vec<CachedQuery>) -> (r: Vec<CachedQuery>)
    ensures
        r@.len() == v@.len(),
        r@.to_multiset() == v@.to_multiset(),
        forall|a: int, b: int|
            0 <= a < b < r@.len() ==> r@[a].last_accessed >= r@[b].last_accessed,
{
    let ghost orig = v@;
    let mut src = v;
    let mut out: Vec<CachedQuery> = Vec::new();
    proof {
        assert(out@.to_multiset().add(src@.to_multiset()) =~= orig.to_multiset());
    }
    while src.len() > 0
        invariant
            out@.to_multiset().add(src@.to_multiset()) == orig.to_multiset(),
            out@.len() + src@.len() == orig.len(),
            forall|a: int, b: int|
                0 <= a < b < out@.len() ==> out@[a].last_accessed >= out@[b].last_accessed,
            forall|a: int, b: int|
                0 <= a < out@.len() && 0 <= b < src@.len() ==> out@[a].last_accessed
                    >= src@[b].last_accessed,
        decreases src.len(),
    {
        let m = src.len();
        let mut best: usize = 0;
        let mut j: usize = 1;
        while j < m
            invariant
                m == src@.len(),
                1 <= j <= m,
                0 <= best < j,
                forall|p: int|
                    0 <= p < j ==> src@[best as int].last_accessed >= src@[p].last_accessed,
            decreases m - j,
        {
            if src[j].last_accessed > src[best].last_accessed {
                best = j;
            }
            j = j + 1;
        }
        let ghost vpre = src@;
        let ghost opre = out@;
        let item = src.remove(best);
        out.push(item);
        proof {
            assert(vpre.to_multiset().count(item) > 0) by {
                assert(vpre[best as int] == item);
                assert(vpre.contains(item));
            }
            assert(src@.to_multiset() =~= vpre.to_multiset().remove(item));
            assert(out@.to_multiset() =~= opre.to_multiset().insert(item));
            assert(out@.to_multiset().add(src@.to_multiset()) =~= orig.to_multiset()) by {
                assert forall|e: CachedQuery|
                    out@.to_multiset().add(src@.to_multiset()).count(e) == orig.to_multiset().count(
                    e,
                ) by {
                    assert(opre.to_multiset().add(vpre.to_multiset()).count(e)
                        == orig.to_multiset().count(e));
                }
            }
            assert forall|a: int, b: int|
                0 <= a < out@.len() && 0 <= b < src@.len() implies out@[a].last_accessed
                >= src@[b].last_accessed by {
                let b0 = if b < best as int {
                    b
                } else {
                    b + 1
                };
                assert(src@[b] == vpre[b0]);
                assert(item.last_accessed >= vpre[b0].last_accessed);
                if a < opre.len() {
                    assert(out@[a] == opre[a]);
                } else {
                    assert(out@[a] == item);
                }
            }
            assert forall|a: int, b: int|
                0 <= a < b < out@.len() implies out@[a].last_accessed
                >= out@[b].last_accessed by {
                if b < opre.len() {
                } else {
                    assert(out@[b] == item);
                    assert(opre[a].last_accessed >= vpre[best as int].last_accessed);
                }
            }
        }
    }
    out
}

/// Selection sort of scored rows, descending by score; ties keep a
/// fixed, deterministic order.
fn sort_scored_desc(v: Vec<(CachedQuery, i64)>) -> (r: Vec<(CachedQuery, i64)>)
    ensures
        r@.len() == v@.len(),
        r@.to_multiset() == v@.to_multiset(),
        forall|a: int, b: int| 0 <= a < b < r@.len() ==> r@[a].1 >= r@[b].1,
{
    let ghost orig = v@;
    let mut src = v;
    let mut out: Vec<(CachedQuery, i64)> = Vec::new();
    proof {
        assert(out@.to_multiset().add(src@.to_multiset()) =~= orig.to_multiset());
    }
    while src.len() > 0
        invariant
            out@.to_multiset().add(src@.to_multiset()) == orig.to_multiset(),
            out@.len() + src@.len() == orig.len(),
            forall|a: int, b: int| 0 <= a < b < out@.len() ==> out@[a].1 >= out@[b].1,
            forall|a: int, b: int|
                0 <= a < out@.len() && 0 <= b < src@.len() ==> out@[a].1 >= src@[b].1,
        decreases src.len(),
    {
        let m = src.len();
        let mut best: usize = 0;
        let mut j: usize = 1;
        while j < m
            invariant
                m == src@.len(),
                1 <= j <= m,
                0 <= best < j,
                forall|p: int| 0 <= p < j ==> src@[best as int].1 >= src@[p].1,
            decreases m - j,
        {
            if src[j].1 > src[best].1 {
                best = j;
            }
            j = j + 1;
        }
        let ghost vpre = src@;
        let ghost opre = out@;
        let item = src.remove(best);
        out.push(item);
        proof {
            assert(vpre.to_multiset().count(item) > 0) by {
                assert(vpre[best as int] == item);
                assert(vpre.contains(item));
            }
            assert(src@.to_multiset() =~= vpre.to_multiset().remove(item));
            assert(out@.to_multiset() =~= opre.to_multiset().insert(item));
            assert(out@.to_multiset().add(src@.to_multiset()) =~= orig.to_multiset()) by {
                assert forall|e: (CachedQuery, i64)|
                    out@.to_multiset().add(src@.to_multiset()).count(e) == orig.to_multiset().count(
                    e,
                ) by {
                    assert(opre.to_multiset().add(vpre.to_multiset()).count(e)
                        == orig.to_multiset().count(e));
                }
            }
            assert forall|a: int, b: int|
                0 <= a < out@.len() && 0 <= b < src@.len() implies out@[a].1 >= src@[b].1 by {
                let b0 = if b < best as int {
                    b
                } else {
                    b + 1
                };
                assert(src@[b] == vpre[b0]);
                assert(item.1 >= vpre[b0].1);
                if a < opre.len() {
                    assert(out@[a] == opre[a]);
                } else {
                    assert(out@[a] == item);
                }
            }
            assert forall|a: int, b: int|
                0 <= a < b < out@.len() implies out@[a].1 >= out@[b].1 by {
                if b < opre.len() {
                } else {
                    assert(out@[b] == item);
                    assert(opre[a].1 >= vpre[best as int].1);
                }
            }
        }
    }
    out
}

impl CacheStorage {
    /// The aggregate counters: row count, summed size of originals and
    /// responses in characters (each total clamped into `i64`), the
    /// global hit and miss counters, and the extreme creation times.
    pub fn stats(&self) -> (r: Result<CacheStats, CyxError>)
        requires
            self.wf(),
        ensures
            r is Ok,
            r matches Ok(st) ==> {
                &&& st.total_entries as int == min_i(
                    self.entries().len() as int,
                    i64::MAX as int,
                )
                &&& st.total_size_bytes as int == min_i(size_sum(self.entries()), i64::MAX as int)
                &&& st.hit_count as int == self.hits()
                &&& st.miss_count as int == self.misses()
                &&& st.oldest_entry == min_created(self.entries())
                &&& st.newest_entry == max_created(self.entries())
            },
    {
        let n = self.records.len();
        let total_entries: i64 = if (n as u64) > (i64::MAX as u64) {
            i64::MAX
        } else {
            n as i64
        };
        let mut sum: u128 = 0;
        let mut oldest: Option<i64> = None;
        let mut newest: Option<i64> = None;
        let mut i: usize = 0;
        proof {
            assert(self.entries().take(0) =~= Seq::<CachedQuery>::empty());
        }
        while i < n
            invariant
                self.wf(),
                n == self.records@.len(),
                0 <= i <= n,
                sum as int == min_i(size_sum(self.entries().take(i as int)), u128::MAX as int),
                oldest == min_created(self.entries().take(i as int)),
                newest == max_created(self.entries().take(i as int)),
            decreases n - i,
        {
            let q = &self.records[i].q;
            proof {
                let es = self.entries();
                assert(es[i as int] == self.records@[i as int].q);
                assert(es.take(i + 1).drop_last() =~= es.take(i as int));
                assert(es.take(i + 1).last() == es[i as int]);
            }
            let rl = q.response.as_str().unicode_len();
            let ol = q.query_original.as_str().unicode_len();
            let add: u128 = (rl as u128) + (ol as u128);
            sum = sum.saturating_add(add);
            oldest = match oldest {
                None => Some(q.created_at),
                Some(m) => Some(
                    if q.created_at < m {
                        q.created_at
                    } else {
                        m
                    },
                ),
            };
            newest = match newest {
                None => Some(q.created_at),
                Some(m) => Some(
                    if q.created_at > m {
                        q.created_at
                    } else {
                        m
                    },
                ),
            };
            i = i + 1;
        }
        proof {
            assert(self.entries().take(n as int) =~= self.entries());
        }
        let total_size_bytes: i64 = if sum > (i64::MAX as u128) {
            i64::MAX
        } else {
            sum as i64
        };
        Ok(
            CacheStats {
                total_entries,
                total_size_bytes,
                hit_count: self.hit_count,
                miss_count: self.miss_count,
                oldest_entry: oldest,
                newest_entry: newest,
            },
        )
    }

    /// All rows, ordered by `last_accessed` descending, optionally capped
    /// at `limit` rows.  Without a cap the result holds exactly the
    /// cached rows.
    pub fn list_all(&self, limit: Option<usize>) -> (r: Result<Vec<CachedQuery>, CyxError>)
        requires
            self.wf(),
        ensures
            r is Ok,
            r matches Ok(v) ==> {
                &&& v@.len() == match limit {
                    Some(l) => min_i(l as int, self.entries().len() as int),
                    None => self.entries().len() as int,
                }
                &&& forall|a: int, b: int|
                    0 <= a < b < v@.len() ==> v@[a].last_accessed >= v@[b].last_accessed
                &&& forall|k: int| 0 <= k < v@.len() ==> self.entries().contains(#[trigger] v@[k])
                &&& (match limit {
                    Some(l) => self.entries().len() <= l,
                    None => true,
                }) ==> v@.to_multiset() == self.entries().to_multiset()
            },
    {
        let n = self.records.len();
        let mut all: Vec<CachedQuery> = Vec::new();
        let mut i: usize = 0;
        while i < n
            invariant
                self.wf(),
                n == self.records@.len(),
                0 <= i <= n,
                all@ == self.entries().take(i as int),
            decreases n - i,
        {
            all.push(clone_query(&self.records[i].q));
            proof {
                let es = self.entries();
                assert(es[i as int] == self.records@[i as int].q);
                assert(es.take(i + 1) =~= es.take(i as int).push(es[i as int]));
            }
            i = i + 1;
        }
        proof {
            assert(self.entries().take(n as int) =~= self.entries());
            assert(all@ == self.entries());
        }
        let mut sorted = sort_queries_desc(all);
        let ghost full = sorted@;
        match limit {
            Some(l) => {
                sorted.truncate(l);
                proof {
                    if l < full.len() {
                        assert(sorted@ == full.subrange(0, l as int));
                    }
                    assert forall|k: int| 0 <= k < sorted@.len() implies self.entries().contains(
                        #[trigger] sorted@[k],
                    ) by {
                        assert(sorted@[k] == full[k]);
                        assert(full.contains(full[k]));
                        assert(full.to_multiset().count(full[k]) > 0);
                        assert(self.entries().to_multiset().count(full[k]) > 0);
                        assert(self.entries().contains(full[k]));
                    }
                    if self.entries().len() <= l {
                        assert(sorted@ == full);
                    }
                }
                Ok(sorted)
            },
            None => {
                proof {
                    assert forall|k: int| 0 <= k < sorted@.len() implies self.entries().contains(
                        #[trigger] sorted@[k],
                    ) by {
                        assert(full.contains(full[k]));
                        assert(full.to_multiset().count(full[k]) > 0);
                        assert(self.entries().to_multiset().count(full[k]) > 0);
                        assert(self.entries().contains(full[k]));
                    }
                }
                Ok(sorted)
            },
        }
    }
}

/// The vector the cache compares against for a normalized query.
pub open spec fn query_vec(s: &CacheStorage, normalized: Seq<char>) -> Seq<i64> {
    embed_spec(lower_of(normalized), s.dims())
}

/// The similarity score of row `i` against the query, in fixed point.
pub open spec fn score_at(s: &CacheStorage, normalized: Seq<char>, i: int) -> i64 {
    cosine_spec(query_vec(s, normalized), s.embeddings()[i].unwrap())
}

/// Whether row `i` takes part in a similarity search for this query and
/// threshold: it has a stored embedding and scores at least `threshold`.
pub open spec fn matches_at(
    s: &CacheStorage,
    normalized: Seq<char>,
    threshold: i64,
    i: int,
) -> bool {
    s.embeddings()[i] is Some && score_at(s, normalized, i) >= threshold
}

/// How many of the first `upto` rows match.
pub open spec fn match_count(
    s: &CacheStorage,
    normalized: Seq<char>,
    threshold: i64,
    upto: int,
) -> int
    decreases upto,
{
    if upto <= 0 {
        0
    } else {
        match_count(s, normalized, threshold, upto - 1) + if matches_at(
            s,
            normalized,
            threshold,
            upto - 1,
        ) {
            1int
        } else {
            0int
        }
    }
}

/// Whether a returned pair is one of the cache's rows with its true
/// score: some row `i` has a stored embedding, scores at least the
/// threshold, and the pair holds that row and that score.
pub open spec fn result_row_ok(
    s: &CacheStorage,
    normalized: Seq<char>,
    threshold: i64,
    p: (CachedQuery, i64),
) -> bool {
    exists|i: int|
        0 <= i < s.entries().len() && matches_at(s, normalized, threshold, i) && p.0
            == s.entries()[i] && p.1 == score_at(s, normalized, i)
}

proof fn lemma_match_count_zero(s: &CacheStorage, normalized: Seq<char>, threshold: i64, upto: int)
    requires
        forall|i: int| 0 <= i < upto ==> !matches_at(s, normalized, threshold, i),
    ensures
        match_count(s, normalized, threshold, upto) == 0,
    decreases upto,
{
    if upto > 0 {
        lemma_match_count_zero(s, normalized, threshold, upto - 1);
    }
}

impl CacheStorage {
    /// Linear-scan similarity search: embeds the query, scores every row
    /// that has a stored embedding, keeps the rows scoring at least
    /// `threshold` (fixed point, `SCALE` standing for 1.0), sorts them by
    /// descending score and returns at most `limit` of them.  Counters
    /// and rows are untouched; rows without an embedding are skipped.
    pub fn search_similar(&self, query_normalized: &str, threshold: i64, limit: usize) -> (r:
        Result<Vec<(CachedQuery, i64)>, CyxError>)
        requires
            self.wf(),
        ensures
            r is Ok,
            r matches Ok(v) ==> {
                &&& v@.len() == min_i(
                    limit as int,
                    match_count(self, query_normalized@, threshold, self.entries().len() as int),
                )
                &&& forall|k: int| 0 <= k < v@.len() ==> (#[trigger] v@[k]).1 >= threshold
                &&& forall|a: int, b: int| 0 <= a < b < v@.len() ==> v@[a].1 >= v@[b].1
                &&& forall|k: int|
                    0 <= k < v@.len() ==> #[trigger] result_row_ok(
                        self,
                        query_normalized@,
                        threshold,
                        v@[k],
                    )
            },
    {
        let ghost norm = query_normalized@;
        let qemb: Vec<i64> = match &self.embedder {
            Some(e) => {
                proof {
                    assert(e.wf());
                }
                e.embed(query_normalized)
            },
            None => {
                proof {
                    assert forall|i: int|
                        0 <= i < self.entries().len() implies !matches_at(
                        self,
                        norm,
                        threshold,
                        i,
                    ) by {
                        assert(self.embeddings()[i] is Some ==> self.has_embedder());
                    }
                    lemma_match_count_zero(self, norm, threshold, self.entries().len() as int);
                }
                return Ok(Vec::new());
            },
        };
        let n = self.records.len();
        let mut cand: Vec<(CachedQuery, i64)> = Vec::new();
        let ghost mut wits: Seq<int> = Seq::empty();
        let mut i: usize = 0;
        while i < n
            invariant
                self.wf(),
                self.has_embedder(),
                n == self.records@.len(),
                0 <= i <= n,
                qemb@ == query_vec(self, norm),
                crate::embedder::bounded_vec(qemb@),
                cand@.len() == match_count(self, norm, threshold, i as int),
                wits.len() == cand@.len(),
                forall|k: int| 0 <= k < cand@.len() ==> (#[trigger] cand@[k]).1 >= threshold,
                forall|k: int|
                    0 <= k < cand@.len() ==> 0 <= #[trigger] wits[k] < self.entries().len()
                        && matches_at(self, norm, threshold, wits[k]) && cand@[k].0
                        == self.entries()[wits[k]] && cand@[k].1 == score_at(self, norm, wits[k]),
            decreases n - i,
        {
            proof {
                assert(self.entries()[i as int] == self.records@[i as int].q);
            }
            match &self.records[i].emb {
                Some(emb) => {
                    proof {
                        assert(self.embeddings()[i as int] == Some(emb@));
                        assert(emb@.len() == self.dims());
                        assert(forall|k: int| 0 <= k < emb@.len() ==> 0 <= #[trigger] emb@[k] <= SCALE);
                        assert(crate::embedder::bounded_vec(emb@));
                    }
                    let score = crate::embedder::cosine_similarity(qemb.as_slice(), emb.as_slice());
                    proof {
                        assert(score == score_at(self, norm, i as int));
                    }
                    if score >= threshold {
                        let ghost old_cand = cand@;
                        let pair = (clone_query(&self.records[i].q), score);
                        cand.push(pair);
                        proof {
                            wits = wits.push(i as int);
                            assert(matches_at(self, norm, threshold, i as int));
                            let la = cand@.len() - 1;
                            assert(cand@[la].0 == self.entries()[i as int]);
                            assert(cand@[la].1 == score_at(self, norm, i as int));
                            assert forall|k: int| 0 <= k < cand@.len() implies 0 <= #[trigger] wits[k]
                                < self.entries().len() && matches_at(self, norm, threshold, wits[k])
                                && cand@[k].0 == self.entries()[wits[k]] && cand@[k].1 == score_at(
                                self,
                                norm,
                                wits[k],
                            ) by {
                                if k < la {
                                    assert(cand@[k] == old_cand[k]);
                                    assert(wits[k] == wits.drop_last()[k]);
                                }
                            }
                        }
                    } else {
                        proof {
                            assert(!matches_at(self, norm, threshold, i as int));
                        }
                    }
                },
                None => {
                    proof {
                        assert(self.embeddings()[i as int] is None);
                        assert(!matches_at(self, norm, threshold, i as int));
                    }
                },
            }
            i = i + 1;
        }
        let ghost total = match_count(self, norm, threshold, n as int);
        proof {
            assert forall|k: int| 0 <= k < cand@.len() implies #[trigger] result_row_ok(
                self,
                norm,
                threshold,
                cand@[k],
            ) by {
                let j = wits[k];
                assert(0 <= j < self.entries().len() && matches_at(self, norm, threshold, j)
                    && cand@[k].0 == self.entries()[j] && cand@[k].1 == score_at(self, norm, j));
            }
        }
        let ghost pre_sort = cand@;
        let mut sorted = sort_scored_desc(cand);
        let ghost cand_view = sorted@;
        proof {
            assert forall|k: int| 0 <= k < cand_view.len() implies ((#[trigger] cand_view[k]).1
                >= threshold && result_row_ok(self, norm, threshold, cand_view[k])) by {
                assert(cand_view.contains(cand_view[k]));
                assert(cand_view.to_multiset().count(cand_view[k]) > 0);
                assert(pre_sort.to_multiset().count(cand_view[k]) > 0);
                assert(pre_sort.contains(cand_view[k]));
                let m = choose|m: int| 0 <= m < pre_sort.len() && pre_sort[m] == cand_view[k];
                assert(pre_sort[m].1 >= threshold);
                assert(result_row_ok(self, norm, threshold, pre_sort[m]));
            }
        }
        sorted.truncate(limit);
        proof {
            if limit < cand_view.len() {
                assert(sorted@ == cand_view.subrange(0, limit as int));
            }
            assert forall|k: int| 0 <= k < sorted@.len() implies (#[trigger] sorted@[k])
                == cand_view[k] by {
                if limit < cand_view.len() {
                    assert(sorted@[k] == cand_view.subrange(0, limit as int)[k]);
                }
            }
            assert forall|k: int| 0 <= k < sorted@.len() implies #[trigger] result_row_ok(
                self,
                norm,
                threshold,
                sorted@[k],
            ) by {
                assert(sorted@[k] == cand_view[k]);
                assert(result_row_ok(self, norm, threshold, cand_view[k]));
            }
        }
        Ok(sorted)
    }
}

} // verus!