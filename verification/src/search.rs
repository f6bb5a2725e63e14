//! Recall of memories: lexical full-text matching ranked by SQLite FTS5,
//! or, for a query without terms, the most important recent memories.
use vstd::prelude::*;

use crate::agents::positions;
use crate::mesh::{Mesh, MeshError, MeshView};
use crate::ranking::{as_ints, is_top_ranked, top_ranked, RankKey};
use crate::records::{opt_text, MemoryRecord, MemoryView};
use crate::seqs::lemma_filter_take_step;
use crate::text::{copy_opt_text, texts};

verus! {

/// Whether `char::is_alphanumeric` holds of a character.
pub uninterp spec fn alphanumeric(c: char) -> bool;

/// `char::is_alphanumeric`: the character is alphabetic or numeric in the
/// Unicode sense.  The result is named [`alphanumeric`] of the character.
#[verifier::external_body]
pub(crate) fn is_alphanumeric(c: char) -> (b: bool)
    ensures
        b == alphanumeric(c),
{
    c.is_alphanumeric()
}

/// Characters that belong to a search term.
pub open spec fn term_char(c: char) -> bool {
    alphanumeric(c) || c == '.' || c == '-' || c == '_'
}

/// Scans a query: the terms completed so far and the term being read.
pub open spec fn scan(q: Seq<char>) -> (Seq<Seq<char>>, Seq<char>)
    decreases q.len(),
{
    if q.len() == 0 {
        (Seq::empty(), Seq::empty())
    } else {
        let (done, current) = scan(q.drop_last());
        if term_char(q.last()) {
            (done, current.push(q.last()))
        } else if current.len() > 0 {
            (done.push(current), Seq::empty())
        } else {
            (done, Seq::empty())
        }
    }
}

/// The terms of a query: its maximal runs of term characters, in order.
pub open spec fn query_terms(q: Seq<char>) -> Seq<Seq<char>> {
    let (done, current) = scan(q);
    if current.len() > 0 {
        done.push(current)
    } else {
        done
    }
}

/// A term as an FTS5 prefix phrase: `"term"*`.
pub open spec fn prefix_phrase(term: Seq<char>) -> Seq<char> {
    "\""@ + term + "\"*"@
}

/// The FTS5 query that requires every term as a prefix phrase.
pub open spec fn fts_expression(terms: Seq<Seq<char>>) -> Seq<char>
    decreases terms.len(),
{
    if terms.len() == 0 {
        Seq::empty()
    } else if terms.len() == 1 {
        prefix_phrase(terms[0])
    } else {
        fts_expression(terms.drop_last()) + " AND "@ + prefix_phrase(terms.last())
    }
}

/// Splits a query into its terms; see [`query_terms`].
pub fn split_query(query: &str) -> (terms: Vec<String>)
    ensures
        texts(terms@) == query_terms(query@),
{
    let n = query.unicode_len();
    let mut terms: Vec<String> = Vec::new();
    let mut start: usize = 0;
    let mut i: usize = 0;
    while i < n
        invariant
            n == query@.len(),
            start <= i <= n,
            (texts(terms@), query@.subrange(start as int, i as int)) == scan(query@.take(i as int)),
        decreases n - i,
    {
        let c = query.get_char(i);
        proof {
            assert(query@.take(i + 1).drop_last() =~= query@.take(i as int));
            assert(query@.take(i + 1).last() == c);
        }
        let inside = is_alphanumeric(c) || c == '.' || c == '-' || c == '_';
        if inside {
            assert(query@.subrange(start as int, i + 1) =~= query@.subrange(start as int, i as int).push(c));
        } else {
            if start < i {
                let ghost before = texts(terms@);
                let term = query.substring_char(start, i).to_owned();
                terms.push(term);
                assert(texts(terms@) =~= before.push(query@.subrange(start as int, i as int)));
            }
            start = i + 1;
            assert(query@.subrange(start as int, i + 1) =~= Seq::<char>::empty());
        }
        i += 1;
    }
    assert(query@.take(n as int) =~= query@);
    if start < n {
        let ghost before = texts(terms@);
        let term = query.substring_char(start, n).to_owned();
        terms.push(term);
        assert(texts(terms@) =~= before.push(query@.subrange(start as int, n as int)));
    }
    terms
}

/// Builds [`fts_expression`].
pub fn build_fts_expression(terms: &Vec<String>) -> (e: String)
    ensures
        e@ == fts_expression(texts(terms@)),
{
    let mut e = String::new();
    let mut i: usize = 0;
    while i < terms.len()
        invariant
            i <= terms@.len(),
            e@ == fts_expression(texts(terms@).take(i as int)),
        decreases terms@.len() - i,
    {
        let ghost ts = texts(terms@).take(i + 1);
        assert(ts.drop_last() =~= texts(terms@).take(i as int));
        assert(ts.last() == terms@[i as int]@);
        if i > 0 {
            e.append(" AND ");
        } else {
            assert(ts.len() == 1);
            assert(e@ =~= Seq::<char>::empty());
        }
        e.append("\"");
        e.append(terms[i].as_str());
        e.append("\"*");
        proof {
            if i > 0 {
                assert(e@ =~= fts_expression(ts.drop_last()) + " AND "@ + prefix_phrase(ts.last()));
            } else {
                assert(e@ =~= prefix_phrase(ts[0]));
            }
        }
        i += 1;
    }
    assert(texts(terms@).take(terms@.len() as int) =~= texts(terms@));
    e
}

#[verifier::external_type_specification]
#[verifier::external_body]
pub struct ExConnection(rusqlite::Connection);

#[verifier::external_type_specification]
#[verifier::external_body]
pub struct ExSqlError(rusqlite::Error);

/// A document of the full-text index: row id, content, key, kind.
pub type Document = (i64, Seq<char>, Seq<char>, Seq<char>);

/// The documents held by an in-memory FTS5 index, in insertion order.
pub uninterp spec fn fts_documents(db: rusqlite::Connection) -> Seq<Document>;

/// The FTS5 ranking of the documents that match an FTS5 query: for each
/// matching row id, the dense rank of its `bm25` score (1 for the best
/// score; equal scores share a rank).
pub uninterp spec fn fts_match_ranks(docs: Seq<Document>, expression: Seq<char>) -> Map<i64, i64>;

/// Whether SQLite can refuse, on some run, to open a database at `path`.
/// It depends on the path alone: every run on every machine is counted.
pub uninterp spec fn sqlite_open_may_fail(path: Seq<char>) -> bool;

/// Whether `Connection::execute_batch` of this SQL can fail on some run,
/// on some connection.
pub uninterp spec fn sqlite_batch_may_fail(sql: Seq<char>) -> bool;

/// Whether inserting `doc` into an FTS5 table that holds `docs` can fail
/// on some run.
pub uninterp spec fn fts_insert_may_fail(docs: Seq<Document>, doc: Document) -> bool;

/// Whether an FTS5 `MATCH` of `expression` over a table that holds `docs`
/// can fail on some run.
pub uninterp spec fn fts_match_may_fail(docs: Seq<Document>, expression: Seq<char>) -> bool;

/// The path of a private in-memory SQLite database.
pub open spec fn in_memory_path() -> Seq<char> {
    ":memory:"@
}

/// The statement that creates the full-text table of memories: FTS5 with
/// the columns `content`, `key` and `kind` and the default tokenizer.
pub open spec fn fts_schema() -> Seq<char> {
    "CREATE VIRTUAL TABLE documents USING fts5(content, key, kind)"@
}

/// Opens the SQLite database at `path` with `Connection::open` (the
/// library opens `:memory:`, a private in-memory database).  Claims only
/// that a failure is one SQLite can give for that path: whether it comes
/// on a given run depends on the machine (memory), so it is not stated.
#[verifier::external_body]
fn fts_connect(path: &str) -> (r: Result<rusqlite::Connection, rusqlite::Error>)
    ensures
        r is Err ==> sqlite_open_may_fail(path@),
{
    rusqlite::Connection::open(path)
}

/// Runs [`fts_schema`] with `Connection::execute_batch`, creating the FTS5
/// table `documents`.  Claims that after a success the index holds no
/// document (the statement fails where the table already exists), and
/// that a failure is one this statement can give.
#[verifier::external_body]
fn fts_create(db: &mut rusqlite::Connection, schema: &str) -> (r: Result<(), rusqlite::Error>)
    requires
        schema@ == fts_schema(),
    ensures
        r is Ok ==> fts_documents(*final(db)) == Seq::<Document>::empty(),
        r is Err ==> sqlite_batch_may_fail(schema@),
{
    db.execute_batch(schema)
}

/// Inserts one document with `Connection::execute`.  Claims that a
/// successful insert appends exactly that document, and that a failure is
/// one this insert can give into this table; nothing is claimed of the
/// table after a failure.
#[verifier::external_body]
fn fts_add(db: &mut rusqlite::Connection, id: i64, content: &str, key: &str, kind: &str) -> (r:
    Result<usize, rusqlite::Error>)
    ensures
        r is Ok ==> fts_documents(*final(db)) == fts_documents(*old(db)).push(
            (id, content@, key@, kind@),
        ),
        r is Err ==> fts_insert_may_fail(fts_documents(*old(db)), (id, content@, key@, kind@)),
{
    db.execute(
        "INSERT INTO documents(rowid, content, key, kind) VALUES (?1, ?2, ?3, ?4)",
        (id, content, key, kind),
    )
}

/// The hits agree with a ranking: each hit is a ranked row with its rank,
/// and every ranked row is a hit.
pub open spec fn hits_agree(hits: Seq<(i64, i64)>, ranks: Map<i64, i64>) -> bool {
    &&& forall|i: int|
        0 <= i < hits.len() ==> ranks.contains_key(#[trigger] hits[i].0) && ranks[hits[i].0]
            == hits[i].1
    &&& forall|id: i64| #[trigger] ranks.contains_key(id) ==> exists|i: int| 0 <= i < hits.len() && hits[i].0 == id
}

/// Runs an FTS5 `MATCH` query with `Statement::query_map`, returning each
/// matching row id with the dense rank of its `bm25` score.  Claims that
/// the rows agree with [`fts_match_ranks`] of the index and the query, and
/// that a failure is one this query can give over this index.
#[verifier::external_body]
fn fts_ranks(db: &rusqlite::Connection, expression: &str) -> (r: Result<
    Vec<(i64, i64)>,
    rusqlite::Error,
>)
    ensures
        r matches Ok(hits) ==> hits_agree(hits@, fts_match_ranks(fts_documents(*db), expression@)),
        r is Err ==> fts_match_may_fail(fts_documents(*db), expression@),
{
    let mut statement = db.prepare(
        "SELECT id, dense_rank() OVER (ORDER BY score) FROM (SELECT rowid AS id, bm25(documents) AS score FROM documents WHERE documents MATCH ?1)",
    )?;
    let rows = statement.query_map([expression], |row| Ok((row.get(0)?, row.get(1)?)))?;
    rows.collect()
}

/// The ranks the engine returned: each row id with the rank of its first
/// hit.
pub open spec fn hit_ranks(hits: Seq<(i64, i64)>) -> Map<i64, i64>
    decreases hits.len(),
{
    if hits.len() == 0 {
        Map::empty()
    } else {
        let earlier = hit_ranks(hits.drop_last());
        if earlier.contains_key(hits.last().0) {
            earlier
        } else {
            earlier.insert(hits.last().0, hits.last().1)
        }
    }
}

/// Whether the full-text engine can refuse, on some run, to rank
/// `docs` for `expression`: opening the in-memory database, creating the
/// table, inserting one of the documents or running the query can fail.
pub open spec fn engine_may_refuse(docs: Seq<Document>, expression: Seq<char>) -> bool {
    ||| sqlite_open_may_fail(in_memory_path())
    ||| sqlite_batch_may_fail(fts_schema())
    ||| exists|i: int| 0 <= i < docs.len() && #[trigger] fts_insert_may_fail(docs.take(i), docs[i])
    ||| fts_match_may_fail(docs, expression)
}

/// The ids ranked are the ids hit.
proof fn lemma_hit_ranks_ids(hits: Seq<(i64, i64)>, id: i64)
    ensures
        hit_ranks(hits).contains_key(id) <==> exists|j: int| 0 <= j < hits.len() && hits[j].0 == id,
    decreases hits.len(),
{
    if hits.len() > 0 {
        let rest = hits.drop_last();
        lemma_hit_ranks_ids(rest, id);
        if exists|j: int| 0 <= j < rest.len() && rest[j].0 == id {
            let j = choose|j: int| 0 <= j < rest.len() && rest[j].0 == id;
            assert(hits[j].0 == id);
        }
        if exists|j: int| 0 <= j < hits.len() && hits[j].0 == id {
            let j = choose|j: int| 0 <= j < hits.len() && hits[j].0 == id;
            if j < hits.len() - 1 {
                assert(rest[j].0 == id);
            }
        }
    }
}

/// An id's rank is that of its first hit.
proof fn lemma_hit_ranks_first(hits: Seq<(i64, i64)>, i: int)
    requires
        0 <= i < hits.len(),
        forall|j: int| 0 <= j < i ==> hits[j].0 != hits[i].0,
    ensures
        hit_ranks(hits).contains_key(hits[i].0),
        hit_ranks(hits)[hits[i].0] == hits[i].1,
    decreases hits.len(),
{
    let rest = hits.drop_last();
    if i == hits.len() - 1 {
        lemma_hit_ranks_ids(rest, hits[i].0);
        if exists|j: int| 0 <= j < rest.len() && rest[j].0 == hits[i].0 {
            let j = choose|j: int| 0 <= j < rest.len() && rest[j].0 == hits[i].0;
            assert(hits[j].0 == hits[i].0);
        }
    } else {
        assert(rest[i] == hits[i]);
        assert forall|j: int| 0 <= j < i implies rest[j].0 != rest[i].0 by {
            assert(rest[j] == hits[j]);
        }
        lemma_hit_ranks_first(rest, i);
    }
}

/// Hits that agree with a ranking give that ranking.
proof fn lemma_hit_ranks_agree(hits: Seq<(i64, i64)>, ranks: Map<i64, i64>)
    requires
        hits_agree(hits, ranks),
    ensures
        hit_ranks(hits) == ranks,
{
    assert forall|id: i64| hit_ranks(hits).contains_key(id) implies hit_ranks(hits)[id] == ranks[id] by {
        lemma_hit_ranks_values(hits, ranks, id);
    }
    assert forall|id: i64| hit_ranks(hits).contains_key(id) <==> ranks.contains_key(id) by {
        lemma_hit_ranks_ids(hits, id);
        if ranks.contains_key(id) {
            assert(exists|i: int| 0 <= i < hits.len() && hits[i].0 == id);
        }
        if hit_ranks(hits).contains_key(id) {
            let j = choose|j: int| 0 <= j < hits.len() && hits[j].0 == id;
            assert(ranks.contains_key(hits[j].0));
        }
    }
    assert(hit_ranks(hits) =~= ranks);
}

proof fn lemma_hit_ranks_values(hits: Seq<(i64, i64)>, ranks: Map<i64, i64>, id: i64)
    requires
        forall|i: int|
            0 <= i < hits.len() ==> ranks.contains_key(#[trigger] hits[i].0) && ranks[hits[i].0]
                == hits[i].1,
    ensures
        hit_ranks(hits).contains_key(id) ==> hit_ranks(hits)[id] == ranks[id],
    decreases hits.len(),
{
    if hits.len() > 0 {
        let rest = hits.drop_last();
        assert forall|i: int| 0 <= i < rest.len() implies ranks.contains_key(#[trigger] rest[i].0)
            && ranks[rest[i].0] == rest[i].1 by {
            assert(rest[i] == hits[i]);
        }
        lemma_hit_ranks_values(rest, ranks, id);
        assert(hits[hits.len() - 1] == hits.last());
    }
}

/// Finds the rank of a row id among the hits: that of its first hit.
fn find_hit(hits: &Vec<(i64, i64)>, id: i64) -> (r: Option<i64>)
    ensures
        match r {
            Some(rank) => hit_ranks(hits@).contains_key(id) && hit_ranks(hits@)[id] == rank,
            None => !hit_ranks(hits@).contains_key(id),
        },
{
    let mut i: usize = 0;
    while i < hits.len()
        invariant
            i <= hits@.len(),
            forall|j: int| 0 <= j < i ==> hits@[j].0 != id,
        decreases hits@.len() - i,
    {
        if hits[i].0 == id {
            proof {
                lemma_hit_ranks_first(hits@, i as int);
            }
            return Some(hits[i].1);
        }
        i += 1;
    }
    proof {
        lemma_hit_ranks_ids(hits@, id);
    }
    None
}

/// One recalled memory with the name of its author, if known.
#[derive(Debug)]
pub struct MemoryEntry {
    pub memory: MemoryRecord,
    pub agent_name: Option<String>,
}

pub struct MemoryEntryView {
    pub memory: MemoryView,
    pub agent_name: Option<Seq<char>>,
}

impl View for MemoryEntry {
    type V = MemoryEntryView;

    open spec fn view(&self) -> MemoryEntryView {
        MemoryEntryView { memory: self.memory@, agent_name: opt_text(self.agent_name) }
    }
}

pub open spec fn memory_entries_view(v: Seq<MemoryEntry>) -> Seq<MemoryEntryView> {
    v.map_values(|e: MemoryEntry| e@)
}

/// The document indexed for a memory; a missing key is indexed as empty.
pub open spec fn document(m: MemoryView) -> Document {
    (
        m.id,
        m.content,
        match m.key {
            Some(k) => k,
            None => Seq::empty(),
        },
        m.kind,
    )
}

impl MeshView {
    pub open spec fn documents(self) -> Seq<Document> {
        self.memories.map_values(|m: MemoryView| document(m))
    }

    pub open spec fn in_workspace(self, ws: Seq<char>) -> spec_fn(int) -> bool {
        |p: int| self.memories[p].workspace_id == ws
    }

    pub open spec fn matched_in(self, ws: Seq<char>, ranks: Map<i64, i64>) -> spec_fn(int) -> bool {
        |p: int| self.memories[p].workspace_id == ws && ranks.contains_key(self.memories[p].id)
    }

    /// The ranking of the memories for the terms of a query.
    pub open spec fn recall_ranks(self, terms: Seq<Seq<char>>) -> Map<i64, i64> {
        fts_match_ranks(self.documents(), fts_expression(terms))
    }

    /// Positions of the memories a recall in `ws` may return when the
    /// engine ranked the memories as `ranks`.
    pub open spec fn recall_candidates_by(
        self,
        ws: Seq<char>,
        terms: Seq<Seq<char>>,
        ranks: Map<i64, i64>,
    ) -> Seq<int> {
        if terms.len() == 0 {
            positions(self.memories.len()).filter(self.in_workspace(ws))
        } else {
            positions(self.memories.len()).filter(self.matched_in(ws, ranks))
        }
    }

    /// Positions of the memories a recall in `ws` may return.
    pub open spec fn recall_candidates(self, ws: Seq<char>, terms: Seq<Seq<char>>) -> Seq<int> {
        self.recall_candidates_by(ws, terms, self.recall_ranks(terms))
    }

    /// Recall order without terms: most important first, then most recent.
    pub open spec fn recency_key(self, p: int) -> RankKey {
        RankKey {
            primary: (-(self.memories[p].importance as int)) as i128,
            secondary: (-(self.memories[p].created_at as int)) as i128,
            tertiary: 0,
        }
    }

    /// Recall order with terms: best `bm25` rank first, then most
    /// important, then most recent.
    pub open spec fn relevance_key(self, p: int, ranks: Map<i64, i64>) -> RankKey {
        RankKey {
            primary: ranks[self.memories[p].id] as i128,
            secondary: (-(self.memories[p].importance as int)) as i128,
            tertiary: (-(self.memories[p].created_at as int)) as i128,
        }
    }

    pub open spec fn recall_key_by(self, terms: Seq<Seq<char>>, ranks: Map<i64, i64>, p: int) -> RankKey {
        if terms.len() == 0 {
            self.recency_key(p)
        } else {
            self.relevance_key(p, ranks)
        }
    }

    pub open spec fn recall_keys_by(
        self,
        terms: Seq<Seq<char>>,
        ranks: Map<i64, i64>,
        candidates: Seq<int>,
    ) -> Seq<RankKey> {
        candidates.map_values(|p: int| self.recall_key_by(terms, ranks, p))
    }

    pub open spec fn recall_keys(self, terms: Seq<Seq<char>>, candidates: Seq<int>) -> Seq<RankKey> {
        self.recall_keys_by(terms, self.recall_ranks(terms), candidates)
    }

    pub open spec fn memory_entry(self, p: int) -> MemoryEntryView {
        MemoryEntryView {
            memory: self.memories[p],
            agent_name: self.name_of(self.memories[p].agent_id),
        }
    }

    /// `out` answers a recall of `query` by `agent_id` once the engine has
    /// ranked the memories as `ranks`: the first `limit` memories of its
    /// workspace in recall order, among those ranked when the query has
    /// terms.
    pub open spec fn is_recall_by(
        self,
        agent_id: Seq<char>,
        query: Seq<char>,
        limit: nat,
        ranks: Map<i64, i64>,
        out: Seq<MemoryEntryView>,
    ) -> bool {
        let ws = self.agent(agent_id).workspace_id;
        let terms = query_terms(query);
        let candidates = self.recall_candidates_by(ws, terms, ranks);
        exists|r: Seq<int>|
            #[trigger] is_top_ranked(self.recall_keys_by(terms, ranks, candidates), limit, r)
                && out.len() == r.len() && forall|k: int|
                0 <= k < r.len() ==> #[trigger] out[k] == self.memory_entry(candidates[r[k]])
    }

    /// `out` answers a recall of `query` by `agent_id`: the first `limit`
    /// memories of its workspace in recall order, among those that match
    /// every term when the query has terms.
    pub open spec fn is_recall(self, agent_id: Seq<char>, query: Seq<char>, limit: nat, out: Seq<
        MemoryEntryView,
    >) -> bool {
        self.is_recall_by(agent_id, query, limit, self.recall_ranks(query_terms(query)), out)
    }
}

/// Copies a memory row.
pub fn copy_memory(m: &MemoryRecord) -> (r: MemoryRecord)
    ensures
        r@ == m@,
{
    MemoryRecord {
        id: m.id,
        workspace_id: m.workspace_id.clone(),
        agent_id: copy_opt_text(&m.agent_id),
        kind: m.kind.clone(),
        key: copy_opt_text(&m.key),
        content: m.content.clone(),
        importance: m.importance,
        created_at: m.created_at,
    }
}

impl Mesh {
    /// Indexes every memory in a fresh full-text index and ranks them for
    /// `expression`.
    fn rank_memories(&self, expression: &str) -> (r: Result<Vec<(i64, i64)>, MeshError>)
        ensures
            r matches Ok(hits) ==> hits_agree(hits@, fts_match_ranks(self@.documents(), expression@)),
            r is Err ==> r == Err::<Vec<(i64, i64)>, MeshError>(MeshError::SearchFailed)
                && engine_may_refuse(self@.documents(), expression@),
    {
        let mut db = match fts_connect(":memory:") {
            Ok(db) => db,
            Err(_) => return Err(MeshError::SearchFailed),
        };
        if fts_create(&mut db, "CREATE VIRTUAL TABLE documents USING fts5(content, key, kind)").is_err() {
            return Err(MeshError::SearchFailed);
        }
        let mut i: usize = 0;
        while i < self.memories.len()
            invariant
                i <= self.memories.len(),
                fts_documents(db) == self@.documents().take(i as int),
            decreases self.memories.len() - i,
        {
            let m = &self.memories[i];
            let empty = String::new();
            let key = match &m.key {
                Some(k) => k,
                None => &empty,
            };
            let added = fts_add(&mut db, m.id, m.content.as_str(), key.as_str(), m.kind.as_str());
            assert(self@.memories[i as int] == m@);
            if added.is_err() {
                assert(self@.documents()[i as int] == document(m@));
                return Err(MeshError::SearchFailed);
            }
            assert(self@.documents().take(i + 1) =~= self@.documents().take(i as int).push(document(m@)));
            i += 1;
        }
        assert(self@.documents().take(self.memories.len() as int) =~= self@.documents());
        match fts_ranks(&db, expression) {
            Ok(hits) => Ok(hits),
            Err(_) => Err(MeshError::SearchFailed),
        }
    }

    /// Recalls memories for `agent_id`; see [`MeshView::is_recall`].  A
    /// query without terms always succeeds; a query with terms fails only
    /// when the full-text engine refuses it ([`engine_may_refuse`]), and
    /// [`Mesh::recall_ranked`] says what is answered for each outcome of the
    /// engine.
    pub fn recall(&self, agent_id: &str, query: &str, limit: u32) -> (r: Result<
        Vec<MemoryEntry>,
        MeshError,
    >)
        requires
            self@.wf(),
        ensures
            match r {
                Ok(v) => self@.has_agent(agent_id@) && self@.is_recall(
                    agent_id@,
                    query@,
                    limit as nat,
                    memory_entries_view(v@),
                ),
                Err(e) => (e == MeshError::AgentNotFound && !self@.has_agent(agent_id@)) || (e
                    == MeshError::SearchFailed && self@.has_agent(agent_id@) && query_terms(
                    query@,
                ).len() > 0 && engine_may_refuse(
                    self@.documents(),
                    fts_expression(query_terms(query@)),
                )),
            },
            self@.has_agent(agent_id@) && query_terms(query@).len() == 0 ==> r is Ok,
    {
        if self.find_agent(agent_id).is_none() {
            return Err(MeshError::AgentNotFound);
        }
        let terms = split_query(query);
        let ghost ts = query_terms(query@);
        let hits = if terms.len() > 0 {
            let expression = build_fts_expression(&terms);
            match self.rank_memories(expression.as_str()) {
                Ok(h) => Some(h),
                Err(_) => None,
            }
        } else {
            None
        };
        assert(ts.len() > 0 && hits is None ==> engine_may_refuse(self@.documents(), fts_expression(ts)));
        proof {
            if hits is Some {
                lemma_hit_ranks_agree(hits->Some_0@, self@.recall_ranks(ts));
            }
        }
        let ghost given = if hits is Some {
            hit_ranks(hits->Some_0@)
        } else {
            Map::<i64, i64>::empty()
        };
        let r = self.recall_ranked(agent_id, query, limit, hits);
        proof {
            if r is Ok {
                let out = memory_entries_view(r->Ok_0@);
                let ws = self@.agent(agent_id@).workspace_id;
                let ranks = self@.recall_ranks(ts);
                if ts.len() > 0 {
                    assert(given == ranks);
                } else {
                    let c = self@.recall_candidates_by(ws, ts, given);
                    assert(c == self@.recall_candidates_by(ws, ts, ranks));
                    assert(self@.recall_keys_by(ts, given, c) =~= self@.recall_keys_by(ts, ranks, c));
                    let w = choose|w: Seq<int>|
                        #[trigger] is_top_ranked(self@.recall_keys_by(ts, given, c), limit as nat, w)
                            && out.len() == w.len() && forall|k: int|
                            0 <= k < w.len() ==> #[trigger] out[k] == self@.memory_entry(c[w[k]]);
                    assert(is_top_ranked(self@.recall_keys_by(ts, ranks, c), limit as nat, w));
                }
            }
        }
        r
    }

    /// The answer to a recall once the full-text engine has ranked every
    /// memory for the query's terms: `hits` holds the row ids it matched
    /// with their ranks, or is `None` when the engine failed.  A query
    /// without terms needs no engine and ignores `hits`.
    pub fn recall_ranked(
        &self,
        agent_id: &str,
        query: &str,
        limit: u32,
        hits: Option<Vec<(i64, i64)>>,
    ) -> (r: Result<Vec<MemoryEntry>, MeshError>)
        requires
            self@.wf(),
        ensures
            !self@.has_agent(agent_id@) ==> r == Err::<Vec<MemoryEntry>, MeshError>(
                MeshError::AgentNotFound,
            ),
            self@.has_agent(agent_id@) && query_terms(query@).len() > 0 && hits is None ==> r
                == Err::<Vec<MemoryEntry>, MeshError>(MeshError::SearchFailed),
            self@.has_agent(agent_id@) && (query_terms(query@).len() == 0 || hits is Some) ==> (r
                matches Ok(v) && self@.is_recall_by(
                agent_id@,
                query@,
                limit as nat,
                match hits {
                    Some(h) => hit_ranks(h@),
                    None => Map::empty(),
                },
                memory_entries_view(v@),
            )),
    {
        let ai = match self.find_agent(agent_id) {
            Some(i) => i,
            None => return Err(MeshError::AgentNotFound),
        };
        let ws = self.agents[ai].workspace_id.clone();
        let terms = split_query(query);
        let ghost ts = query_terms(query@);
        let with_terms = terms.len() > 0;
        let hits: Vec<(i64, i64)> = match hits {
            Some(h) => h,
            None => {
                if with_terms {
                    return Err(MeshError::SearchFailed);
                }
                Vec::new()
            },
        };
        let ghost ranks = hit_ranks(hits@);
        let ghost all = positions(self@.memories.len());
        let ghost pred = if ts.len() == 0 {
            self@.in_workspace(ws@)
        } else {
            self@.matched_in(ws@, ranks)
        };
        let mut candidates: Vec<usize> = Vec::new();
        let mut keys: Vec<RankKey> = Vec::new();
        let mut p: usize = 0;
        while p < self.memories.len()
            invariant
                p <= self.memories.len(),
                self@.wf(),
                with_terms == (ts.len() > 0),
                ranks == hit_ranks(hits@),
                all == positions(self@.memories.len()),
                pred == if ts.len() == 0 {
                    self@.in_workspace(ws@)
                } else {
                    self@.matched_in(ws@, ranks)
                },
                as_ints(candidates@) == all.take(p as int).filter(pred),
                keys@ == self@.recall_keys_by(ts, ranks, as_ints(candidates@)),
                forall|k: int| 0 <= k < candidates@.len() ==> (#[trigger] candidates@[k] as int) < p,
            decreases self.memories.len() - p,
        {
            proof {
                lemma_filter_take_step(all, pred, p as int);
            }
            let m = &self.memories[p];
            assert(self@.memories[p as int] == m@);
            let same_ws = crate::text::same_text(m.workspace_id.as_str(), ws.as_str());
            if same_ws {
                let key = if with_terms {
                    match find_hit(&hits, m.id) {
                        Some(rank) => Some(
                            RankKey {
                                primary: rank as i128,
                                secondary: -(m.importance as i128),
                                tertiary: -(m.created_at as i128),
                            },
                        ),
                        None => None,
                    }
                } else {
                    Some(
                        RankKey {
                            primary: -(m.importance as i128),
                            secondary: -(m.created_at as i128),
                            tertiary: 0,
                        },
                    )
                };
                if let Some(k) = key {
                    let ghost before_c = as_ints(candidates@);
                    candidates.push(p);
                    keys.push(k);
                    assert(as_ints(candidates@) =~= before_c.push(p as int));
                    assert(keys@ =~= self@.recall_keys_by(ts, ranks, as_ints(candidates@)));
                }
            }
            p += 1;
        }
        assert(all.take(self.memories.len() as int) =~= all);
        let ghost cands = as_ints(candidates@);
        assert(cands == self@.recall_candidates_by(ws@, ts, ranks));
        let order = top_ranked(&keys, limit as usize);
        let mut out: Vec<MemoryEntry> = Vec::new();
        let mut k: usize = 0;
        while k < order.len()
            invariant
                k <= order@.len(),
                self@.wf(),
                cands == as_ints(candidates@),
                is_top_ranked(keys@, limit as nat, as_ints(order@)),
                keys@.len() == candidates@.len(),
                forall|x: int| 0 <= x < candidates@.len() ==> (#[trigger] candidates@[x] as int) < self@.memories.len(),
                out@.len() == k,
                forall|x: int| 0 <= x < k ==> #[trigger] memory_entries_view(out@)[x] == self@.memory_entry(cands[as_ints(order@)[x]]),
            decreases order@.len() - k,
        {
            let ghost ok = as_ints(order@)[k as int];
            assert(0 <= ok < keys@.len());
            let p = candidates[order[k]];
            let m = &self.memories[p];
            let entry = MemoryEntry { memory: copy_memory(m), agent_name: self.name_of(&m.agent_id) };
            proof {
                assert(order@[k as int] as int == ok);
                assert(p as int == cands[ok]);
                assert(self@.memories[p as int] == m@);
                assert(entry@ == self@.memory_entry(cands[ok]));
            }
            let ghost before = memory_entries_view(out@);
            out.push(entry);
            assert(memory_entries_view(out@) =~= before.push(self@.memory_entry(cands[ok])));
            k += 1;
        }
        proof {
            let r = as_ints(order@);
            assert(self@.agent(agent_id@) == self@.agents[ai as int]);
            assert(self@.agent(agent_id@).workspace_id == ws@);
            assert(memory_entries_view(out@).len() == r.len());
            assert(is_top_ranked(self@.recall_keys_by(ts, ranks, self@.recall_candidates_by(ws@, ts, ranks)), limit as nat, r));
            assert(forall|x: int| 0 <= x < r.len() ==> #[trigger] memory_entries_view(out@)[x] == self@.memory_entry(self@.recall_candidates_by(ws@, ts, ranks)[r[x]]));
        }
        Ok(out)
    }
}

} // verus!
