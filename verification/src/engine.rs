use vstd::prelude::*;

use crate::dates::{date_epoch_of, format_epoch, MAX_EPOCH};
use crate::document::TikaDocument;
use crate::front_matter::strs_view;
use crate::pipeline::{
    files_view, ops_view, spec_sync, sync_plan, FileInput, IdxView, IndexOp, IndexedDoc, OpView,
    SyncReport,
};
use crate::store::ChecksumStore;
use crate::text::{chars_of, string_of_chars};

use tantivy::collector::TopDocs;
use tantivy::query::QueryParser;
use tantivy::schema::Value;
use tantivy::schema::{Field, Schema, INDEXED, STORED, STRING, TEXT};

verus! {

// The index engine is tantivy, held behind one opaque handle.  Verus sees
// the handle only through `op_log`, the sequence of staged operations since
// it was created; what is visible to a reader is a spec-level fold of that
// log: adds and deletes stage, a commit applies everything staged.  Each
// wrapper is trusted to push exactly its own operation onto the log.

/// One record as the engine stores it; `tags` is the tag list joined with
/// single spaces, which is how the tags field is indexed.
#[verifier::ext_equal]
pub struct Rec {
    pub filename: Seq<char>,
    pub full_path: Seq<char>,
    pub author: Seq<char>,
    pub date_epoch: int,
    pub tags: Seq<char>,
    pub title: Seq<char>,
    pub body: Seq<char>,
}

#[verifier::ext_equal]
pub enum EngineOp {
    Add(Rec),
    Delete(Seq<char>),
    Commit,
}

/// The tag list joined with single spaces.
pub open spec fn spec_join_spaces(ts: Seq<Seq<char>>) -> Seq<char>
    decreases ts.len(),
{
    if ts.len() == 0 {
        Seq::empty()
    } else if ts.len() == 1 {
        ts[0]
    } else {
        ts[0] + seq![' '] + spec_join_spaces(ts.skip(1))
    }
}

/// The record an indexed document becomes.
pub open spec fn rec_of(d: IdxView) -> Rec {
    Rec {
        filename: d.filename,
        full_path: d.full_path,
        author: d.author,
        date_epoch: d.date_epoch,
        tags: spec_join_spaces(d.tags),
        title: d.title,
        body: d.body,
    }
}

/// Applies staged operations to the committed records, in order: an add
/// appends, a delete removes every record with that full path.
pub open spec fn apply_staged(committed: Seq<Rec>, pending: Seq<EngineOp>) -> Seq<Rec>
    decreases pending.len(),
{
    if pending.len() == 0 {
        committed
    } else {
        let c2 = match pending[0] {
            EngineOp::Add(r) => committed.push(r),
            EngineOp::Delete(p) => committed.filter(|r: Rec| r.full_path != p),
            EngineOp::Commit => committed,
        };
        apply_staged(c2, pending.skip(1))
    }
}

/// Folds a log into (committed, still staged) from position `i`.
pub open spec fn run_log(
    committed: Seq<Rec>,
    pending: Seq<EngineOp>,
    log: Seq<EngineOp>,
    i: int,
) -> (Seq<Rec>, Seq<EngineOp>)
    decreases log.len() - i,
{
    if i < 0 || i >= log.len() {
        (committed, pending)
    } else {
        match log[i] {
            EngineOp::Commit => run_log(apply_staged(committed, pending), Seq::empty(), log, i + 1),
            op => run_log(committed, pending.push(op), log, i + 1),
        }
    }
}

/// The records a reader sees after the whole log: everything committed.
pub open spec fn visible(log: Seq<EngineOp>) -> Seq<Rec> {
    run_log(Seq::empty(), Seq::empty(), log, 0).0
}

/// The operations a plan stages on the engine.
pub open spec fn engine_ops(ops: Seq<OpView>) -> Seq<EngineOp> {
    Seq::new(
        ops.len(),
        |i: int|
            match ops[i] {
                OpView::Add(d) => EngineOp::Add(rec_of(d)),
                OpView::DeleteByPath(p) => EngineOp::Delete(p),
                OpView::Commit => EngineOp::Commit,
            },
    )
}

/// The engine handle: a tantivy in-memory index, its writer, and its schema
/// fields.  Opaque to Verus; `op_log` is its only model.
#[verifier::external_body]
pub struct Engine {
    index: tantivy::Index,
    writer: tantivy::IndexWriter,
    f_filename: Field,
    f_full_path: Field,
    f_author: Field,
    f_date: Field,
    f_tags: Field,
    f_title: Field,
    f_body: Field,
}

/// The operations staged on the engine since it was created, in order.
pub uninterp spec fn op_log(e: &Engine) -> Seq<EngineOp>;

/// The engine could not stage or commit.
#[derive(Clone, Copy, PartialEq, Eq, Structural, Debug)]
pub enum EngineError {
    Engine,
}

/// Where a sync run against the engine broke off.
#[derive(Clone, Copy, PartialEq, Eq, Structural, Debug)]
pub enum SyncFailure {
    /// An add failed before the commit: nothing was published, and the log
    /// grew by a prefix of the planned operations.
    Staging,
    /// The final commit itself failed: everything was staged, but whether it
    /// was published is not modeled; the handle should not be reused.
    Commit,
}

/// A query could not be run.
#[derive(Clone, Copy, PartialEq, Eq, Structural, Debug)]
pub enum QueryError {
    /// The engine's query parser rejected the query string.
    ParseFailure,
    /// The engine failed while searching.
    Engine,
}

/// One stored record as a search returns it: every stored field, no body.
pub struct SearchHit {
    pub filename: String,
    pub full_path: String,
    pub author: String,
    pub date_epoch: i64,
    pub tags: String,
    pub title: String,
}

#[verifier::ext_equal]
pub struct HitView {
    pub filename: Seq<char>,
    pub full_path: Seq<char>,
    pub author: Seq<char>,
    pub date_epoch: int,
    pub tags: Seq<char>,
    pub title: Seq<char>,
}

impl View for SearchHit {
    type V = HitView;

    open spec fn view(&self) -> HitView {
        HitView {
            filename: self.filename@,
            full_path: self.full_path@,
            author: self.author@,
            date_epoch: self.date_epoch as int,
            tags: self.tags@,
            title: self.title@,
        }
    }
}

/// The stored projection of a record: its stored fields, and no body.
pub open spec fn stored_of(r: Rec) -> HitView {
    HitView {
        filename: r.filename,
        full_path: r.full_path,
        author: r.author,
        date_epoch: r.date_epoch,
        tags: r.tags,
        title: r.title,
    }
}

/// `h` is the stored projection of some record visible in the log.
pub open spec fn hit_in(h: HitView, log: Seq<EngineOp>) -> bool {
    exists|j: int| 0 <= j < visible(log).len() && h == stored_of(visible(log)[j])
}

#[verifier::external_type_specification]
#[verifier::external_body]
pub struct ExTantivyDocument(tantivy::TantivyDocument);

#[verifier::external_type_specification]
#[verifier::external_body]
pub struct ExField(Field);

impl Engine {
    /// Relies on tantivy: Schema::builder, Index::create_in_ram and
    /// Index::writer.  A fresh in-memory index holds nothing, so the log
    /// starts empty.
    #[verifier::external_body]
    pub fn create() -> (r: Result<Engine, EngineError>)
        ensures
            r matches Ok(e) ==> op_log(&e) == Seq::<EngineOp>::empty(),
    {
        let mut b = Schema::builder();
        let f_filename = b.add_text_field("filename", TEXT | STORED);
        let f_full_path = b.add_text_field("full_path", STRING | STORED);
        let f_author = b.add_text_field("author", TEXT | STORED);
        let f_date = b.add_date_field("date", INDEXED | STORED);
        let f_tags = b.add_text_field("tags", TEXT | STORED);
        let f_title = b.add_text_field("title", TEXT | STORED);
        let f_body = b.add_text_field("body", TEXT);
        let index = tantivy::Index::create_in_ram(b.build());
        let writer: tantivy::IndexWriter = index.writer(50_000_000).map_err(
            |_| EngineError::Engine,
        )?;
        Ok(Engine { index, writer, f_filename, f_full_path, f_author, f_date, f_tags, f_title, f_body })
    }

    /// Relies on tantivy's IndexWriter::add_document: the record is staged,
    /// visible only after a commit.  On an error nothing was staged.  The
    /// engine keeps a date as a signed 64-bit nanosecond count, and
    /// DateTime::from_timestamp_secs multiplies by a thousand million
    /// unchecked, so only dates in the storable range are admitted.  A
    /// token over 65530 UTF-8 bytes is dropped at indexing, which would
    /// leave the raw path term unsearchable and the record undeletable, so
    /// only indexable paths are admitted.
    #[verifier::external_body]
    pub fn add_doc(&mut self, d: &IndexedDoc, tags_joined: &String) -> (r: Result<
        (),
        EngineError,
    >)
        requires
            tags_joined@ == spec_join_spaces(d@.tags),
            crate::dates::MIN_STORED_EPOCH <= d.date_epoch <= crate::dates::MAX_STORED_EPOCH,
            vstd::utf8::encode_utf8(d@.full_path).len() <= crate::pipeline::MAX_PATH_BYTES,
        ensures
            r is Ok ==> op_log(final(self)) == op_log(old(self)).push(EngineOp::Add(rec_of(d@))),
            r is Err ==> op_log(final(self)) == op_log(old(self)),
    {
        let mut doc = tantivy::TantivyDocument::new();
        doc.add_text(self.f_filename, &d.filename);
        doc.add_text(self.f_full_path, &d.full_path);
        doc.add_text(self.f_author, &d.author);
        doc.add_date(self.f_date, tantivy::DateTime::from_timestamp_secs(d.date_epoch));
        doc.add_text(self.f_tags, tags_joined);
        doc.add_text(self.f_title, &d.title);
        doc.add_text(self.f_body, &d.body);
        self.writer.add_document(doc).map(|_| ()).map_err(|_| EngineError::Engine)
    }

    /// Relies on tantivy's IndexWriter::delete_term: the full path field is
    /// indexed raw (STRING), so the term equals the whole path, and removal
    /// of every record under it is staged, applied at the next commit to
    /// what was staged before it.  Only an indexable path (at most 65530
    /// UTF-8 bytes, the engine's token cap) is admitted: a longer path's
    /// term is never indexed, so deleting by it would remove nothing.
    #[verifier::external_body]
    pub fn delete_by_path(&mut self, p: &String)
        requires
            vstd::utf8::encode_utf8(p@).len() <= crate::pipeline::MAX_PATH_BYTES,
        ensures
            op_log(final(self)) == op_log(old(self)).push(EngineOp::Delete(p@)),
    {
        let term = tantivy::Term::from_field_text(self.f_full_path, p);
        self.writer.delete_term(term);
    }

    /// Relies on tantivy's IndexWriter::commit: every staged operation
    /// becomes visible to readers opened afterwards.
    #[verifier::external_body]
    pub fn commit(&mut self) -> (r: Result<(), EngineError>)
        ensures
            r is Ok ==> op_log(final(self)) == op_log(old(self)).push(EngineOp::Commit),
    {
        self.writer.commit().map(|_| ()).map_err(|_| EngineError::Engine)
    }

    /// Relies on tantivy: Index::reader sees the latest commit, the query
    /// parser accepts free text and field:value qualifiers, and a search
    /// returns at most `limit` of the stored records, each one a projection
    /// of a visible record.  Ranking is the engine's own.
    #[verifier::external_body]
    pub fn search(&self, query: &String, limit: usize) -> (r: Result<Vec<SearchHit>, QueryError>)
        requires
            limit >= 1,
        ensures
            r matches Ok(hits) ==> hits@.len() <= limit,
            r matches Ok(hits) ==> forall|i: int|
                0 <= i < hits@.len() ==> hit_in((#[trigger] hits@[i])@, op_log(self)),
    {
        let reader = self.index.reader().map_err(|_| QueryError::Engine)?;
        let searcher = reader.searcher();
        let qp = QueryParser::for_index(&self.index, self.qfields());
        let q = qp.parse_query(query).map_err(|_| QueryError::ParseFailure)?;
        let c = TopDocs::with_limit(limit).order_by_score();
        let top = searcher.search(&q, &c).map_err(|_| QueryError::Engine)?;
        let mut out: Vec<SearchHit> = Vec::new();
        for (_w, a) in top {
            out.push(self.hit_of(&searcher.doc(a).map_err(|_| QueryError::Engine)?));
        }
        Ok(out)
    }

    /// The fields a free-text query searches by default.
    #[verifier::external_body]
    fn qfields(&self) -> Vec<Field> {
        vec![self.f_author, self.f_body, self.f_filename, self.f_tags, self.f_title]
    }

    /// Relies on tantivy's stored-field access: reads each stored field of
    /// one retrieved record back as plain text, absent fields as empty.
    #[verifier::external_body]
    fn hit_of(&self, doc: &tantivy::TantivyDocument) -> SearchHit {
        let text = |f: Field| -> String {
            doc.get_first(f).and_then(|v| v.as_str()).unwrap_or("").to_string()
        };
        let date_epoch = doc.get_first(self.f_date).and_then(|v| v.as_datetime()).map(
            |d| d.into_utc().unix_timestamp(),
        ).unwrap_or(0);
        SearchHit {
            filename: text(self.f_filename),
            full_path: text(self.f_full_path),
            author: text(self.f_author),
            date_epoch,
            tags: text(self.f_tags),
            title: text(self.f_title),
        }
    }
}

/// Joins tags with single spaces, as `spec_join_spaces` gives it.
pub fn join_spaces(ts: &Vec<String>) -> (r: String)
    ensures
        r@ == spec_join_spaces(strs_view(ts@)),
{
    let mut out: Vec<char> = Vec::new();
    let ghost tv = strs_view(ts@);
    let mut i: usize = 0;
    while i < ts.len()
        invariant
            0 <= i <= ts.len(),
            tv == strs_view(ts@),
            out@ =~= spec_join_spaces(tv.take(i as int)),
        decreases ts.len() - i,
    {
        if i > 0 {
            out.push(' ');
        }
        let cs: Vec<char> = chars_of(ts[i].as_str());
        let mut k: usize = 0;
        while k < cs.len()
            invariant
                0 <= k <= cs.len(),
                0 <= i < ts.len(),
                tv == strs_view(ts@),
                cs@ == tv[i as int],
                out@ =~= (if i > 0 {
                    spec_join_spaces(tv.take(i as int)) + seq![' ']
                } else {
                    spec_join_spaces(tv.take(i as int))
                }) + tv[i as int].take(k as int),
            decreases cs.len() - k,
        {
            out.push(cs[k]);
            proof {
                assert(tv[i as int].take(k + 1) =~= tv[i as int].take(k as int).push(
                    tv[i as int][k as int],
                ));
            }
            k = k + 1;
        }
        proof {
            assert(tv[i as int].take(tv[i as int].len() as int) =~= tv[i as int]);
            lemma_join_spaces_push(tv.take(i as int), tv[i as int]);
            assert(tv.take(i + 1) =~= tv.take(i as int).push(tv[i as int]));
        }
        i = i + 1;
    }
    proof {
        assert(tv.take(tv.len() as int) =~= tv);
    }
    string_of_chars(&out)
}

pub proof fn lemma_join_spaces_push(ts: Seq<Seq<char>>, l: Seq<char>)
    ensures
        spec_join_spaces(ts.push(l)) =~= if ts.len() == 0 {
            l
        } else {
            spec_join_spaces(ts) + seq![' '] + l
        },
    decreases ts.len(),
{
    if ts.len() == 0 {
        assert(ts.push(l).len() == 1);
        assert(spec_join_spaces(ts.push(l)) =~= ts.push(l)[0]);
    } else {
        assert(ts.push(l).skip(1) =~= ts.skip(1).push(l));
        lemma_join_spaces_push(ts.skip(1), l);
        if ts.len() == 1 {
            assert(spec_join_spaces(ts) =~= ts[0]);
        }
    }
}

/// Runs a full sync against the engine: computes the plan over the corpus
/// and the store, stages every operation, and commits once at the end.  On
/// success the report and the store to persist are returned, and the
/// engine's log grew by exactly the planned operations.  If staging broke
/// off, the log grew by a prefix of them and nothing was committed; after a
/// failed commit the engine's state is not modeled.
pub fn run_sync(files: &Vec<FileInput>, store: ChecksumStore, e: &mut Engine) -> (r: Result<
    (SyncReport, ChecksumStore),
    SyncFailure,
>)
    ensures
        r matches Ok(out) ==> ({
            let st = spec_sync(files_view(files@), store@);
            &&& op_log(final(e)) =~= op_log(old(e)) + engine_ops(st.ops)
            &&& out.0.new_count == st.new_count
            &&& out.0.updated_count == st.updated_count
            &&& out.0.unchanged_count == st.unchanged_count
            &&& out.0.failed_count == st.failed_count
            &&& crate::pipeline::failures_view(out.0.failures@) =~= st.failures
            &&& out.1@ == st.m
        }),
        r == Err::<(SyncReport, ChecksumStore), SyncFailure>(SyncFailure::Staging) ==> exists|n: int|
            0 <= n <= engine_ops(spec_sync(files_view(files@), store@).ops).len() && op_log(
                final(e),
            ) =~= op_log(old(e)) + engine_ops(spec_sync(files_view(files@), store@).ops).take(n),
{
    let ghost m0 = store@;
    let (ops, report, new_store) = sync_plan(files, store);
    let ghost planned = engine_ops(ops_view(ops@));
    proof {
        crate::pipeline::lemma_sync_ops_within_limits(files_view(files@), m0);
        assert(ops_view(ops@) =~= spec_sync(files_view(files@), m0).ops);
        assert(crate::pipeline::ops_within_limits(ops_view(ops@)));
    }
    let mut i: usize = 0;
    while i < ops.len()
        invariant
            0 <= i <= ops.len(),
            planned == engine_ops(ops_view(ops@)),
            planned == engine_ops(spec_sync(files_view(files@), m0).ops),
            m0 == store@,
            crate::pipeline::ops_within_limits(ops_view(ops@)),
            op_log(e) =~= op_log(old(e)) + planned.take(i as int),
        decreases ops.len() - i,
    {
        proof {
            assert(planned[i as int] == match ops_view(ops@)[i as int] {
                OpView::Add(d) => EngineOp::Add(rec_of(d)),
                OpView::DeleteByPath(p) => EngineOp::Delete(p),
                OpView::Commit => EngineOp::Commit,
            });
            assert(ops_view(ops@)[i as int] == ops@[i as int]@);
        }
        match &ops[i] {
            IndexOp::Add(d) => {
                proof {
                    assert(crate::pipeline::op_within_limits(ops_view(ops@)[i as int]));
                    assert(ops_view(ops@)[i as int] == OpView::Add(d@));
                }
                let tj: String = join_spaces(&d.tags);
                match e.add_doc(d, &tj) {
                    Ok(_) => {
                    },
                    Err(_) => {
                        proof {
                            let target = engine_ops(spec_sync(files_view(files@), m0).ops);
                            assert(planned == target);
                            assert(op_log(e) =~= op_log(old(e)) + target.take(i as int));
                            assert(0 <= i as int <= target.len());
                            assert(exists|n: int|
                                0 <= n <= target.len() && op_log(e) =~= op_log(old(e))
                                    + target.take(n));
                        }
                        return Err(SyncFailure::Staging);
                    },
                }
            },
            IndexOp::DeleteByPath(p) => {
                proof {
                    assert(crate::pipeline::op_within_limits(ops_view(ops@)[i as int]));
                    assert(ops_view(ops@)[i as int] == OpView::DeleteByPath(p@));
                }
                e.delete_by_path(p);
            },
            IndexOp::Commit => {
                match e.commit() {
                    Ok(_) => {
                    },
                    Err(_) => {
                        return Err(SyncFailure::Commit);
                    },
                }
            },
        }
        proof {
            assert(planned.take(i + 1) =~= planned.take(i as int).push(planned[i as int]));
        }
        i = i + 1;
    }
    proof {
        assert(planned.take(planned.len() as int) =~= planned);
        assert(ops_view(ops@) =~= spec_sync(files_view(files@), store@).ops);
    }
    Ok((report, new_store))
}

/// Whether `d` is the query projection of the stored record `r`: the stored
/// fields carried over, the body empty (it is never stored), the tag text as
/// one entry, and the date rendered as UTC when it is renderable.
pub open spec fn projected(d: crate::document::DocView, r: Rec) -> bool {
    &&& d.filename == r.filename
    &&& d.full_path == r.full_path
    &&& d.author == r.author
    &&& d.title == r.title
    &&& d.body == Seq::<char>::empty()
    &&& d.tags == seq![r.tags]
    &&& (0 <= r.date_epoch <= MAX_EPOCH ==> date_epoch_of(d.date) == Some(r.date_epoch))
    &&& (!(0 <= r.date_epoch <= MAX_EPOCH) ==> d.date == Seq::<char>::empty())
}

/// `d` is the query projection of some record visible in the log.
pub open spec fn doc_in(d: crate::document::DocView, log: Seq<EngineOp>) -> bool {
    exists|j: int| 0 <= j < visible(log).len() && projected(d, visible(log)[j])
}

impl TikaDocument {
    /// The document a search hit projects back to.
    pub fn from_hit(h: &SearchHit) -> (r: TikaDocument)
        ensures
            r@.filename == h@.filename,
            r@.full_path == h@.full_path,
            r@.author == h@.author,
            r@.title == h@.title,
            r@.body == Seq::<char>::empty(),
            r@.tags =~= seq![h@.tags],
            0 <= h.date_epoch <= MAX_EPOCH ==> date_epoch_of(r@.date) == Some(h@.date_epoch),
            !(0 <= h.date_epoch <= MAX_EPOCH) ==> r@.date == Seq::<char>::empty(),
    {
        let date: String = if 0 <= h.date_epoch && h.date_epoch <= MAX_EPOCH {
            format_epoch(h.date_epoch)
        } else {
            String::new()
        };
        let tags: Vec<String> = vec![h.tags.clone()];
        proof {
            assert(strs_view(tags@) =~= seq![tags@[0]@]);
        }
        TikaDocument {
            filename: h.filename.clone(),
            full_path: h.full_path.clone(),
            author: h.author.clone(),
            date,
            tags,
            title: h.title.clone(),
            body: String::new(),
        }
    }
}

/// Runs one query: at most `limit` results, each the stored projection of a
/// record visible in the engine, with the body always empty.
pub fn search_docs(e: &Engine, query: &String, limit: usize) -> (r: Result<
    Vec<TikaDocument>,
    QueryError,
>)
    requires
        limit >= 1,
    ensures
        r matches Ok(docs) ==> docs@.len() <= limit,
        r matches Ok(docs) ==> forall|i: int|
            0 <= i < docs@.len() ==> doc_in((#[trigger] docs@[i])@, op_log(e)),
{
    let hits: Vec<SearchHit> = match e.search(query, limit) {
        Ok(h) => h,
        Err(err) => {
            return Err(err);
        },
    };
    let mut out: Vec<TikaDocument> = Vec::new();
    let mut i: usize = 0;
    while i < hits.len()
        invariant
            0 <= i <= hits@.len(),
            out@.len() == i,
            hits@.len() <= limit,
            forall|t: int|
                0 <= t < hits@.len() ==> hit_in((#[trigger] hits@[t])@, op_log(e)),
            forall|t: int| 0 <= t < i ==> doc_in((#[trigger] out@[t])@, op_log(e)),
        decreases hits@.len() - i,
    {
        let d: TikaDocument = TikaDocument::from_hit(&hits[i]);
        out.push(d);
        proof {
            assert(hit_in(hits@[i as int]@, op_log(e)));
            let j = choose|j: int|
                0 <= j < visible(op_log(e)).len() && hits@[i as int]@ == stored_of(
                    visible(op_log(e))[j],
                );
            assert(projected(out@[i as int]@, visible(op_log(e))[j]));
            assert(doc_in(out@[i as int]@, op_log(e)));
        }
        i = i + 1;
    }
    Ok(out)
}


// ---- What holds of the visible records -------------------------------

/// How many visible records carry the given path.
pub open spec fn count_path(rs: Seq<Rec>, p: Seq<char>) -> int {
    rs.filter(|r: Rec| r.full_path == p).len() as int
}

/// Folding a log stops where it stops: the fold over `log + extra` up to
/// `log`'s end equals the fold over `log` alone.
pub proof fn lemma_run_log_append(
    c: Seq<Rec>,
    pend: Seq<EngineOp>,
    log: Seq<EngineOp>,
    extra: Seq<EngineOp>,
    i: int,
)
    requires
        0 <= i <= log.len(),
    ensures
        run_log(c, pend, log + extra, i) == run_log(
            run_log(c, pend, log, i).0,
            run_log(c, pend, log, i).1,
            log + extra,
            log.len() as int,
        ),
    decreases log.len() - i,
{
    if i < log.len() {
        assert((log + extra)[i] == log[i]);
        match log[i] {
            EngineOp::Commit => {
                lemma_run_log_append(apply_staged(c, pend), Seq::empty(), log, extra, i + 1);
            },
            op => {
                lemma_run_log_append(c, pend.push(op), log, extra, i + 1);
            },
        }
    }
}

/// After a log whose last operation is a commit, nothing is still staged.
pub proof fn lemma_pending_empty(c: Seq<Rec>, pend: Seq<EngineOp>, log: Seq<EngineOp>)
    requires
        log.len() > 0,
        log.last() == EngineOp::Commit,
    ensures
        run_log(c, pend, log, 0).1 =~= Seq::<EngineOp>::empty(),
{
    let log0 = log.drop_last();
    assert(log =~= log0 + seq![EngineOp::Commit]);
    lemma_run_log_append(c, pend, log0, seq![EngineOp::Commit], 0);
    assert(run_log(c, pend, log, 0) == run_log(
        run_log(c, pend, log0, 0).0,
        run_log(c, pend, log0, 0).1,
        log,
        log0.len() as int,
    ));
    assert(log[log0.len() as int] == EngineOp::Commit);
    let a = run_log(c, pend, log0, 0).0;
    let b = run_log(c, pend, log0, 0).1;
    assert(run_log(a, b, log, log0.len() as int) == run_log(
        apply_staged(a, b),
        Seq::<EngineOp>::empty(),
        log,
        log0.len() as int + 1,
    ));
    assert(run_log(apply_staged(a, b), Seq::<EngineOp>::empty(), log, log0.len() as int + 1).1
        =~= Seq::<EngineOp>::empty());
}

/// Deleting a path and then adding one record under it, in one committed
/// batch after any committed history, leaves exactly one visible record
/// under that path: the delete clears whatever history had put there, and
/// the add puts the one new version back.
pub proof fn lemma_one_record_per_path(log: Seq<EngineOp>, p: Seq<char>, r: Rec)
    requires
        log.len() > 0,
        log.last() == EngineOp::Commit,
        r.full_path == p,
    ensures
        count_path(
            visible(log + seq![EngineOp::Delete(p), EngineOp::Add(r), EngineOp::Commit]),
            p,
        ) == 1,
{
    broadcast use vstd::seq_lib::group_seq_lib_default;

    let extra = seq![EngineOp::Delete(p), EngineOp::Add(r), EngineOp::Commit];
    let full = log + extra;
    let c1 = run_log(Seq::<Rec>::empty(), Seq::<EngineOp>::empty(), log, 0).0;
    lemma_pending_empty(Seq::<Rec>::empty(), Seq::<EngineOp>::empty(), log);
    lemma_run_log_append(Seq::<Rec>::empty(), Seq::<EngineOp>::empty(), log, extra, 0);
    let n = log.len() as int;
    assert(full[n] == EngineOp::Delete(p));
    assert(full[n + 1] == EngineOp::Add(r));
    assert(full[n + 2] == EngineOp::Commit);
    assert(run_log(c1, Seq::<EngineOp>::empty(), full, n) == run_log(
        c1,
        Seq::<EngineOp>::empty().push(EngineOp::Delete(p)),
        full,
        n + 1,
    ));
    let staged = Seq::<EngineOp>::empty().push(EngineOp::Delete(p)).push(EngineOp::Add(r));
    assert(run_log(c1, Seq::<EngineOp>::empty().push(EngineOp::Delete(p)), full, n + 1)
        == run_log(c1, staged, full, n + 2));
    assert(run_log(c1, staged, full, n + 2) == run_log(
        apply_staged(c1, staged),
        Seq::<EngineOp>::empty(),
        full,
        n + 3,
    ));
    assert(n + 3 == full.len());
    assert(visible(full) == apply_staged(c1, staged));
    // apply the two staged operations by hand
    let keep = |rr: Rec| rr.full_path != p;
    let pick = |rr: Rec| rr.full_path == p;
    let c2 = c1.filter(keep);
    assert(staged.skip(1) =~= Seq::<EngineOp>::empty().push(EngineOp::Add(r)));
    assert(staged.skip(1).skip(1) =~= Seq::<EngineOp>::empty());
    assert(apply_staged(c1, staged) == apply_staged(c2, staged.skip(1)));
    assert(apply_staged(c2, staged.skip(1)) == apply_staged(c2.push(r), staged.skip(1).skip(1)));
    assert(visible(full) == c2.push(r));
    // under the path: the filtered history holds nothing, the add holds one
    assert(c2.filter(pick).len() == 0) by {
        if c2.filter(pick).len() > 0 {
            c2.lemma_filter_pred(pick, 0);
            let x = c2.filter(pick)[0];
            c2.filter(pick).lemma_index_contains(0);
            c2.lemma_filter_contains_rev(pick, x);
            let t = choose|t: int| 0 <= t < c2.len() && c2[t] == x;
            c1.lemma_filter_pred(keep, t);
            assert(keep(x) && pick(x));
        }
    }
    c2.lemma_filter_len_push(pick, r);
    assert(count_path(visible(full), p) == 1);
}


/// After a first full sync of a corpus and a second one in which exactly
/// one file changed (still parsing, its checksum differing), the engine's
/// committed state holds exactly one record under that file's path: the
/// update staged its delete before its add, and the one commit applied
/// both.
pub proof fn lemma_index_has_one_record_after_update(
    fv1: Seq<(Seq<char>, Option<Seq<char>>)>,
    fv2: Seq<(Seq<char>, Option<Seq<char>>)>,
    d: int,
    m0: Map<Seq<char>, u32>,
)
    requires
        crate::pipeline::distinct_paths(fv1),
        fv1.len() == fv2.len(),
        0 <= d < fv1.len(),
        forall|j: int| 0 <= j < fv1.len() && j != d ==> #[trigger] fv2[j] == fv1[j],
        fv2[d].0 == fv1[d].0,
        fv2[d].1 is Some,
        crate::pipeline::spec_doc_of(fv2[d].0, fv2[d].1.unwrap()) is Ok,
        crate::checksum::checksum_of(fv2[d].1.unwrap()) != crate::checksum::checksum_of(
            fv1[d].1.unwrap(),
        ),
        spec_sync(fv1, m0).failed_count == 0,
    ensures
        ({
            let log1 = engine_ops(spec_sync(fv1, m0).ops);
            let log2 = engine_ops(spec_sync(fv2, spec_sync(fv1, m0).m).ops);
            count_path(visible(log1 + log2), fv1[d].0) == 1
        }),
{
    let m1 = spec_sync(fv1, m0).m;
    let p = fv1[d].0;
    crate::pipeline::lemma_one_file_changed(fv1, fv2, d, m0);
    let doc = crate::pipeline::updated_doc(fv2[d], m1);
    let ops1 = spec_sync(fv1, m0).ops;
    let ops2 = spec_sync(fv2, m1).ops;
    let log1 = engine_ops(ops1);
    let log2 = engine_ops(ops2);
    // the first log ends in its one commit
    assert(ops1.len() > 0 && ops1.last() == OpView::Commit);
    assert(log1.len() == ops1.len());
    assert(log1.last() == EngineOp::Commit);
    // the second log is exactly delete, add, commit
    assert(ops2 =~= seq![OpView::DeleteByPath(p), OpView::Add(doc), OpView::Commit]);
    assert(log2 =~= seq![EngineOp::Delete(p), EngineOp::Add(rec_of(doc)), EngineOp::Commit]);
    // the updated document carries the file's own path
    assert(rec_of(doc).full_path == p) by {
        assert(crate::pipeline::spec_doc_of(fv2[d].0, fv2[d].1.unwrap()) == Ok::<
            IdxView,
            crate::pipeline::SyncError,
        >(doc));
    }
    lemma_one_record_per_path(log1, p, rec_of(doc));
    assert(log1 + log2 =~= log1 + seq![
        EngineOp::Delete(p),
        EngineOp::Add(rec_of(doc)),
        EngineOp::Commit,
    ]);
}

} // verus!
