use vstd::prelude::*;

use crate::checksum::{checksum_of, checksum_str};
use crate::dates::{date_epoch_of, parse_date, MAX_STORED_EPOCH, MIN_STORED_EPOCH};
use crate::document::{FieldName, ParseError, TikaDocument};
use crate::front_matter::{parse, spec_parse};
use crate::store::ChecksumStore;
use crate::text::{chars_of, string_of_chars};

verus! {

// The synchronization pipeline takes the corpus as plain values: each
// candidate file as its path and its text (None when it could not be read),
// in enumeration order.  It decides, against the checksum store, what the
// index engine must do — delete, add, then one commit at the end — and
// tallies a report.  Per-file failures never stop the run; they are recorded
// and the next file is taken up.

/// One candidate file: its resolved path and its raw text, or None when the
/// file could not be read as text.
pub struct FileInput {
    pub path: String,
    pub content: Option<String>,
}

/// Why one file was passed over.
#[derive(Clone, Copy, PartialEq, Eq, Structural, Debug)]
pub enum SyncError {
    /// The file could not be read as text.
    Unreadable,
    /// No delimited front matter block.
    NoFrontMatter,
    /// A required front matter field is missing.
    MissingField(FieldName),
    /// The tags value is none the front matter format reads.
    BadTags,
    /// The date is in neither accepted form, or denotes an instant the
    /// index engine cannot store.
    BadDate,
    /// The path's UTF-8 form is longer than the engine indexes as one raw
    /// term; records under such a path could never be replaced or deleted.
    PathTooLong,
}

/// The longest token, in UTF-8 bytes, the engine indexes; a longer raw path
/// term would be dropped at indexing, leaving its records unreachable by a
/// delete.
pub const MAX_PATH_BYTES: usize = 65530;

/// A document with its metadata resolved, ready for the index engine.
pub struct IndexedDoc {
    pub filename: String,
    pub full_path: String,
    pub author: String,
    pub date_epoch: i64,
    pub tags: Vec<String>,
    pub title: String,
    pub body: String,
}

#[verifier::ext_equal]
pub struct IdxView {
    pub filename: Seq<char>,
    pub full_path: Seq<char>,
    pub author: Seq<char>,
    pub date_epoch: int,
    pub tags: Seq<Seq<char>>,
    pub title: Seq<char>,
    pub body: Seq<char>,
}

impl View for IndexedDoc {
    type V = IdxView;

    open spec fn view(&self) -> IdxView {
        IdxView {
            filename: self.filename@,
            full_path: self.full_path@,
            author: self.author@,
            date_epoch: self.date_epoch as int,
            tags: crate::front_matter::strs_view(self.tags@),
            title: self.title@,
            body: self.body@,
        }
    }
}

/// One staged index operation.
pub enum IndexOp {
    /// Remove every record whose full path equals the given one.
    DeleteByPath(String),
    /// Stage one new record.
    Add(IndexedDoc),
    /// Make all staged operations visible.
    Commit,
}

#[verifier::ext_equal]
pub enum OpView {
    DeleteByPath(Seq<char>),
    Add(IdxView),
    Commit,
}

impl View for IndexOp {
    type V = OpView;

    open spec fn view(&self) -> OpView {
        match self {
            IndexOp::DeleteByPath(p) => OpView::DeleteByPath(p@),
            IndexOp::Add(d) => OpView::Add(d@),
            IndexOp::Commit => OpView::Commit,
        }
    }
}

pub open spec fn ops_view(v: Seq<IndexOp>) -> Seq<OpView> {
    Seq::new(v.len(), |i: int| v[i]@)
}

pub open spec fn files_view(v: Seq<FileInput>) -> Seq<(Seq<char>, Option<Seq<char>>)> {
    Seq::new(
        v.len(),
        |i: int|
            (
                v[i].path@,
                match v[i].content {
                    Some(c) => Some(c@),
                    None => None,
                },
            ),
    )
}

/// What one run did, outcome by outcome.
pub struct SyncReport {
    pub new_count: usize,
    pub updated_count: usize,
    pub unchanged_count: usize,
    pub failed_count: usize,
    pub failures: Vec<(String, SyncError)>,
}

pub open spec fn failures_view(v: Seq<(String, SyncError)>) -> Seq<(Seq<char>, SyncError)> {
    Seq::new(v.len(), |i: int| (v[i].0@, v[i].1))
}

/// Index of the first character after the last '/' at or before `i`.
pub open spec fn after_last_slash(p: Seq<char>, i: int) -> int
    decreases i,
{
    if i <= 0 {
        0
    } else if p[i - 1] == '/' {
        i
    } else {
        after_last_slash(p, i - 1)
    }
}

/// The path's base name: everything after its last '/'.
pub open spec fn spec_basename(p: Seq<char>) -> Seq<char> {
    p.skip(after_last_slash(p, p.len() as int))
}

/// The document a file's path and text denote, or why there is none: the
/// front matter parse, the filename default, and the date validation.
pub open spec fn spec_doc_of(path: Seq<char>, content: Seq<char>) -> Result<IdxView, SyncError> {
    if vstd::utf8::encode_utf8(path).len() > MAX_PATH_BYTES {
        Err(SyncError::PathTooLong)
    } else {
    match spec_parse(content) {
        Err(ParseError::NoFrontMatter) => Err(SyncError::NoFrontMatter),
        Err(ParseError::MissingField(f)) => Err(SyncError::MissingField(f)),
        Err(ParseError::BadTags) => Err(SyncError::BadTags),
        Ok(dv) => match date_epoch_of(dv.date) {
            None => Err(SyncError::BadDate),
            Some(t) => if !(MIN_STORED_EPOCH <= t <= MAX_STORED_EPOCH) {
                Err(SyncError::BadDate)
            } else {
                Ok(
                IdxView {
                    filename: if dv.filename.len() == 0 {
                        spec_basename(path)
                    } else {
                        dv.filename
                    },
                    full_path: path,
                    author: dv.author,
                    date_epoch: t,
                    tags: dv.tags,
                    title: dv.title,
                    body: dv.body,
                },
            )
            },
        },
    }
    }
}

#[verifier::ext_equal]
pub enum Outcome {
    New(IdxView),
    Updated(IdxView),
    Unchanged,
    Failed(SyncError),
}

/// What the pipeline decides for one file against the map `m`.
pub open spec fn spec_outcome(
    f: (Seq<char>, Option<Seq<char>>),
    m: Map<Seq<char>, u32>,
) -> Outcome {
    match f.1 {
        None => Outcome::Failed(SyncError::Unreadable),
        Some(c) => match spec_doc_of(f.0, c) {
            Err(e) => Outcome::Failed(e),
            Ok(d) => if !m.contains_key(f.0) {
                Outcome::New(d)
            } else if m[f.0] == checksum_of(c) {
                Outcome::Unchanged
            } else {
                Outcome::Updated(d)
            },
        },
    }
}

/// The pipeline's running state over the files processed so far.
#[verifier::ext_equal]
pub struct SyncState {
    pub m: Map<Seq<char>, u32>,
    pub ops: Seq<OpView>,
    pub new_count: int,
    pub updated_count: int,
    pub unchanged_count: int,
    pub failed_count: int,
    pub failures: Seq<(Seq<char>, SyncError)>,
}

pub open spec fn init_state(m: Map<Seq<char>, u32>) -> SyncState {
    SyncState {
        m: m,
        ops: Seq::empty(),
        new_count: 0,
        updated_count: 0,
        unchanged_count: 0,
        failed_count: 0,
        failures: Seq::empty(),
    }
}

/// One file's effect on the running state.
pub open spec fn sync_step(st: SyncState, f: (Seq<char>, Option<Seq<char>>)) -> SyncState {
    match spec_outcome(f, st.m) {
        Outcome::Failed(e) => SyncState {
            failed_count: st.failed_count + 1,
            failures: st.failures.push((f.0, e)),
            ..st
        },
        Outcome::New(d) => SyncState {
            m: st.m.insert(f.0, checksum_of(f.1.unwrap()) as u32),
            ops: st.ops.push(OpView::Add(d)),
            new_count: st.new_count + 1,
            ..st
        },
        Outcome::Updated(d) => SyncState {
            m: st.m.insert(f.0, checksum_of(f.1.unwrap()) as u32),
            ops: st.ops.push(OpView::DeleteByPath(f.0)).push(OpView::Add(d)),
            updated_count: st.updated_count + 1,
            ..st
        },
        Outcome::Unchanged => SyncState { unchanged_count: st.unchanged_count + 1, ..st },
    }
}

/// The state after the files from `i` on.
pub open spec fn sync_run(
    files: Seq<(Seq<char>, Option<Seq<char>>)>,
    i: int,
    st: SyncState,
) -> SyncState
    decreases files.len() - i,
{
    if i < 0 || i >= files.len() {
        st
    } else {
        sync_run(files, i + 1, sync_step(st, files[i]))
    }
}

/// The whole run: every file processed from the given map, then one commit.
pub open spec fn spec_sync(
    files: Seq<(Seq<char>, Option<Seq<char>>)>,
    m: Map<Seq<char>, u32>,
) -> SyncState {
    let st = sync_run(files, 0, init_state(m));
    SyncState { ops: st.ops.push(OpView::Commit), ..st }
}

fn basename(path: &String) -> (r: String)
    ensures
        r@ == spec_basename(path@),
{
    let pc: Vec<char> = chars_of(path.as_str());
    let mut i: usize = pc.len();
    while i > 0 && pc[i - 1] != '/'
        invariant
            0 <= i <= pc.len(),
            pc@ == path@,
            after_last_slash(path@, path@.len() as int) == after_last_slash(path@, i as int),
        decreases i,
    {
        i = i - 1;
    }
    proof {
        assert(after_last_slash(path@, i as int) == i as int);
    }
    let tail: Vec<char> = crate::store::copy_tail(&pc, i);
    string_of_chars(&tail)
}

/// Builds the document one readable file denotes, as `spec_doc_of` gives it.
pub fn doc_of(path: &String, content: &String) -> (r: Result<IndexedDoc, SyncError>)
    ensures
        r matches Ok(d) ==> spec_doc_of(path@, content@) matches Ok(dv) && d@ =~= dv,
        r matches Err(e) ==> spec_doc_of(path@, content@) == Err::<IdxView, SyncError>(e),
{
    let path_bytes: &[u8] = path.as_str().as_bytes();
    if path_bytes.len() > MAX_PATH_BYTES {
        return Err(SyncError::PathTooLong);
    }
    let text: Vec<char> = chars_of(content.as_str());
    let doc: TikaDocument = match parse(&text) {
        Ok(d) => d,
        Err(ParseError::NoFrontMatter) => {
            return Err(SyncError::NoFrontMatter);
        },
        Err(ParseError::MissingField(f)) => {
            return Err(SyncError::MissingField(f));
        },
        Err(ParseError::BadTags) => {
            return Err(SyncError::BadTags);
        },
    };
    let date_chars: Vec<char> = chars_of(doc.date.as_str());
    let t: i64 = match parse_date(&date_chars) {
        Some(t) => t,
        None => {
            return Err(SyncError::BadDate);
        },
    };
    if !(MIN_STORED_EPOCH <= t && t <= MAX_STORED_EPOCH) {
        return Err(SyncError::BadDate);
    }
    let filename: String = if doc.filename.as_str().is_empty() {
        basename(path)
    } else {
        doc.filename
    };
    let out = IndexedDoc {
        filename,
        full_path: clone_string(path),
        author: doc.author,
        date_epoch: t,
        tags: doc.tags,
        title: doc.title,
        body: doc.body,
    };
    Ok(out)
}

fn clone_string(s: &String) -> (r: String)
    ensures
        r@ == s@,
{
    let c: Vec<char> = chars_of(s.as_str());
    string_of_chars(&c)
}

pub proof fn lemma_ops_view_push(s: Seq<IndexOp>, x: IndexOp)
    ensures
        ops_view(s.push(x)) =~= ops_view(s).push(x@),
{
    assert forall|m: int| 0 <= m < s.len() + 1 implies ops_view(s.push(x))[m] == ops_view(
        s,
    ).push(x@)[m] by {
        if m < s.len() {
            assert(s.push(x)[m] == s[m]);
        } else {
            assert(s.push(x)[m] == x);
        }
    }
}

pub proof fn lemma_failures_view_push(s: Seq<(String, SyncError)>, x: (String, SyncError))
    ensures
        failures_view(s.push(x)) =~= failures_view(s).push((x.0@, x.1)),
{
    assert forall|m: int| 0 <= m < s.len() + 1 implies failures_view(s.push(x))[m]
        == failures_view(s).push((x.0@, x.1))[m] by {
        if m < s.len() {
            assert(s.push(x)[m] == s[m]);
        } else {
            assert(s.push(x)[m] == x);
        }
    }
}

/// Runs the decision side of a sync over the given corpus: reads nothing and
/// touches no engine, but says exactly which operations to stage (one commit,
/// at the end), returns the tallied report, and the store as it must be
/// persisted after the commit.
pub fn sync_plan(files: &Vec<FileInput>, store: ChecksumStore) -> (r: (
    Vec<IndexOp>,
    SyncReport,
    ChecksumStore,
))
    ensures
        ({
            let st = spec_sync(files_view(files@), store@);
            &&& ops_view(r.0@) =~= st.ops
            &&& r.1.new_count == st.new_count
            &&& r.1.updated_count == st.updated_count
            &&& r.1.unchanged_count == st.unchanged_count
            &&& r.1.failed_count == st.failed_count
            &&& failures_view(r.1.failures@) =~= st.failures
            &&& r.2@ == st.m
        }),
{
    let ghost fv = files_view(files@);
    let ghost m0 = store@;
    let mut store = store;
    let mut ops: Vec<IndexOp> = Vec::new();
    let mut new_count: usize = 0;
    let mut updated_count: usize = 0;
    let mut unchanged_count: usize = 0;
    let mut failed_count: usize = 0;
    let mut failures: Vec<(String, SyncError)> = Vec::new();
    let mut i: usize = 0;
    proof {
        assert(ops_view(ops@) =~= Seq::<OpView>::empty());
        assert(failures_view(failures@) =~= Seq::<(Seq<char>, SyncError)>::empty());
        assert((SyncState {
            m: store@,
            ops: ops_view(ops@),
            new_count: new_count as int,
            updated_count: updated_count as int,
            unchanged_count: unchanged_count as int,
            failed_count: failed_count as int,
            failures: failures_view(failures@),
        }) =~= init_state(m0));
    }
    while i < files.len()
        invariant
            0 <= i <= files.len(),
            fv == files_view(files@),
            new_count <= i,
            updated_count <= i,
            unchanged_count <= i,
            failed_count <= i,
            sync_run(
                fv,
                i as int,
                SyncState {
                    m: store@,
                    ops: ops_view(ops@),
                    new_count: new_count as int,
                    updated_count: updated_count as int,
                    unchanged_count: unchanged_count as int,
                    failed_count: failed_count as int,
                    failures: failures_view(failures@),
                },
            ) == sync_run(fv, 0, init_state(m0)),
        decreases files.len() - i,
    {
        let ghost st0 = SyncState {
            m: store@,
            ops: ops_view(ops@),
            new_count: new_count as int,
            updated_count: updated_count as int,
            unchanged_count: unchanged_count as int,
            failed_count: failed_count as int,
            failures: failures_view(failures@),
        };
        proof {
            assert(fv[i as int] == (files@[i as int].path@, match files@[i as int].content {
                Some(c) => Some(c@),
                None => None,
            }));
        }
        let f: &FileInput = &files[i];
        match &f.content {
            None => {
                let ghost prevf = failures@;
                failures.push((clone_string(&f.path), SyncError::Unreadable));
                failed_count = failed_count + 1;
                proof {
                    lemma_failures_view_push(prevf, failures@.last());
                    assert(failures@.drop_last() =~= prevf);
                    assert(spec_outcome(fv[i as int], st0.m) == Outcome::Failed(
                        SyncError::Unreadable,
                    ));
                    step_state_eq(st0, fv[i as int], store@, ops@, new_count as int,
                        updated_count as int, unchanged_count as int, failed_count as int,
                        failures@);
                }
            },
            Some(c) => {
                match doc_of(&f.path, c) {
                    Err(e) => {
                        let ghost prevf = failures@;
                        failures.push((clone_string(&f.path), e));
                        failed_count = failed_count + 1;
                        proof {
                            lemma_failures_view_push(prevf, failures@.last());
                            assert(failures@.drop_last() =~= prevf);
                            assert(spec_outcome(fv[i as int], st0.m) == Outcome::Failed(e));
                            step_state_eq(st0, fv[i as int], store@, ops@, new_count as int,
                                updated_count as int, unchanged_count as int, failed_count as int,
                                failures@);
                        }
                    },
                    Ok(d) => {
                        let ck: u32 = checksum_str(c.as_str());
                        let prev: Option<u32> = store.get(&f.path);
                        match prev {
                            None => {
                                let ghost prevo = ops@;
                                proof {
                                    assert(spec_outcome(fv[i as int], st0.m) matches Outcome::New(
                                        dv,
                                    ) && d@ == dv);
                                }
                                ops.push(IndexOp::Add(d));
                                store.set(clone_string(&f.path), ck);
                                new_count = new_count + 1;
                                proof {
                                    lemma_ops_view_push(prevo, ops@.last());
                                    assert(ops@.drop_last() =~= prevo);
                                    step_state_eq(st0, fv[i as int], store@, ops@,
                                        new_count as int, updated_count as int,
                                        unchanged_count as int, failed_count as int, failures@);
                                }
                            },
                            Some(pv) => {
                                if pv == ck {
                                    unchanged_count = unchanged_count + 1;
                                    proof {
                                        assert(spec_outcome(fv[i as int], st0.m)
                                            == Outcome::Unchanged);
                                        step_state_eq(st0, fv[i as int], store@, ops@,
                                            new_count as int, updated_count as int,
                                            unchanged_count as int, failed_count as int,
                                            failures@);
                                    }
                                } else {
                                    let ghost prevo = ops@;
                                    proof {
                                        assert(spec_outcome(fv[i as int], st0.m)
                                            matches Outcome::Updated(dv) && d@ == dv);
                                    }
                                    ops.push(IndexOp::DeleteByPath(clone_string(&f.path)));
                                    ops.push(IndexOp::Add(d));
                                    store.set(clone_string(&f.path), ck);
                                    updated_count = updated_count + 1;
                                    proof {
                                        lemma_ops_view_push(prevo, ops@.drop_last().last());
                                        lemma_ops_view_push(ops@.drop_last(), ops@.last());
                                        assert(ops@.drop_last().drop_last() =~= prevo);
                                        step_state_eq(st0, fv[i as int], store@, ops@,
                                            new_count as int, updated_count as int,
                                            unchanged_count as int, failed_count as int,
                                            failures@);
                                    }
                                }
                            },
                        }
                    },
                }
            },
        }
        i = i + 1;
    }
    let report = SyncReport { new_count, updated_count, unchanged_count, failed_count, failures };
    let ghost prevo = ops@;
    ops.push(IndexOp::Commit);
    proof {
        lemma_ops_view_push(prevo, ops@.last());
        assert(ops@.drop_last() =~= prevo);
        assert(ops_view(ops@) =~= sync_run(fv, 0, init_state(m0)).ops.push(OpView::Commit));
    }
    (ops, report, store)
}

/// The assembled next state equals `sync_step` of the previous one.
proof fn step_state_eq(
    st0: SyncState,
    f: (Seq<char>, Option<Seq<char>>),
    m: Map<Seq<char>, u32>,
    ops: Seq<IndexOp>,
    new_count: int,
    updated_count: int,
    unchanged_count: int,
    failed_count: int,
    failures: Seq<(String, SyncError)>,
)
    requires
        (SyncState {
            m,
            ops: ops_view(ops),
            new_count,
            updated_count,
            unchanged_count,
            failed_count,
            failures: failures_view(failures),
        }) =~= sync_step(st0, f),
    ensures
        (SyncState {
            m,
            ops: ops_view(ops),
            new_count,
            updated_count,
            unchanged_count,
            failed_count,
            failures: failures_view(failures),
        }) == sync_step(st0, f),
{
}


// ---- What holds of whole runs ----------------------------------------
//
// The corpus invariant is that full paths are unique.  Under it, each
// file's outcome depends only on the starting map, and a run can be
// characterized file by file: `tally` counts the outcomes, `ops_list` and
// `failed_list` collect what each outcome contributes, and `settled` says
// what the final map holds at each file's path.

pub open spec fn distinct_paths(fv: Seq<(Seq<char>, Option<Seq<char>>)>) -> bool {
    forall|a: int, b: int|
        0 <= a < b < fv.len() ==> (#[trigger] fv[a]).0 != (#[trigger] fv[b]).0
}

pub open spec fn agree_at(m1: Map<Seq<char>, u32>, m2: Map<Seq<char>, u32>, k: Seq<char>) -> bool {
    m1.contains_key(k) == m2.contains_key(k) && (m1.contains_key(k) ==> m1[k] == m2[k])
}

pub open spec fn path_in(fv: Seq<(Seq<char>, Option<Seq<char>>)>, i: int, k: Seq<char>) -> bool {
    exists|j: int| i <= j < fv.len() && (#[trigger] fv[j]).0 == k
}

/// (new, updated, unchanged, failed) among the files from `i` on, each
/// judged against the fixed map `m`.
pub open spec fn tally(fv: Seq<(Seq<char>, Option<Seq<char>>)>, i: int, m: Map<Seq<char>, u32>) -> (
    int,
    int,
    int,
    int,
)
    decreases fv.len() - i,
{
    if i < 0 || i >= fv.len() {
        (0, 0, 0, 0)
    } else {
        let t = tally(fv, i + 1, m);
        match spec_outcome(fv[i], m) {
            Outcome::New(d) => (t.0 + 1, t.1, t.2, t.3),
            Outcome::Updated(d) => (t.0, t.1 + 1, t.2, t.3),
            Outcome::Unchanged => (t.0, t.1, t.2 + 1, t.3),
            Outcome::Failed(e) => (t.0, t.1, t.2, t.3 + 1),
        }
    }
}

/// The operations the files from `i` on stage, each judged against `m`.
pub open spec fn ops_list(
    fv: Seq<(Seq<char>, Option<Seq<char>>)>,
    i: int,
    m: Map<Seq<char>, u32>,
) -> Seq<OpView>
    decreases fv.len() - i,
{
    if i < 0 || i >= fv.len() {
        Seq::empty()
    } else {
        (match spec_outcome(fv[i], m) {
            Outcome::New(d) => seq![OpView::Add(d)],
            Outcome::Updated(d) => seq![OpView::DeleteByPath(fv[i].0), OpView::Add(d)],
            Outcome::Unchanged => Seq::empty(),
            Outcome::Failed(e) => Seq::empty(),
        }) + ops_list(fv, i + 1, m)
    }
}

/// The recorded failures among the files from `i` on, judged against `m`.
pub open spec fn failed_list(
    fv: Seq<(Seq<char>, Option<Seq<char>>)>,
    i: int,
    m: Map<Seq<char>, u32>,
) -> Seq<(Seq<char>, SyncError)>
    decreases fv.len() - i,
{
    if i < 0 || i >= fv.len() {
        Seq::empty()
    } else {
        (match spec_outcome(fv[i], m) {
            Outcome::Failed(e) => seq![(fv[i].0, e)],
            _ => Seq::empty(),
        }) + failed_list(fv, i + 1, m)
    }
}

/// What the final map holds at one file's path, by its outcome.
pub open spec fn settled(
    fin_m: Map<Seq<char>, u32>,
    m0: Map<Seq<char>, u32>,
    f: (Seq<char>, Option<Seq<char>>),
) -> bool {
    match spec_outcome(f, m0) {
        Outcome::New(d) => fin_m.contains_key(f.0) && fin_m[f.0] == checksum_of(f.1.unwrap()),
        Outcome::Updated(d) => fin_m.contains_key(f.0) && fin_m[f.0] == checksum_of(f.1.unwrap()),
        Outcome::Unchanged => fin_m.contains_key(f.0) && fin_m[f.0] == m0[f.0],
        Outcome::Failed(e) => agree_at(fin_m, m0, f.0),
    }
}

/// A file's outcome depends only on the map's entry at its own path.
pub proof fn lemma_outcome_agree(
    f: (Seq<char>, Option<Seq<char>>),
    m1: Map<Seq<char>, u32>,
    m2: Map<Seq<char>, u32>,
)
    requires
        agree_at(m1, m2, f.0),
    ensures
        spec_outcome(f, m1) == spec_outcome(f, m2),
{
}

/// Characterizes a run over files with distinct paths: the counts, the
/// staged operations, the failures, and the final map, all in terms of the
/// outcomes that each file has against the starting map alone.
pub proof fn lemma_run_characterize(
    fv: Seq<(Seq<char>, Option<Seq<char>>)>,
    i: int,
    m0: Map<Seq<char>, u32>,
    st: SyncState,
)
    requires
        0 <= i <= fv.len(),
        distinct_paths(fv),
        forall|j: int| i <= j < fv.len() ==> agree_at(st.m, m0, (#[trigger] fv[j]).0),
    ensures
        sync_run(fv, i, st).new_count == st.new_count + tally(fv, i, m0).0,
        sync_run(fv, i, st).updated_count == st.updated_count + tally(fv, i, m0).1,
        sync_run(fv, i, st).unchanged_count == st.unchanged_count + tally(fv, i, m0).2,
        sync_run(fv, i, st).failed_count == st.failed_count + tally(fv, i, m0).3,
        sync_run(fv, i, st).ops =~= st.ops + ops_list(fv, i, m0),
        sync_run(fv, i, st).failures =~= st.failures + failed_list(fv, i, m0),
        forall|k: Seq<char>|
            #![trigger agree_at(sync_run(fv, i, st).m, st.m, k)]
            !path_in(fv, i, k) ==> agree_at(sync_run(fv, i, st).m, st.m, k),
        forall|j: int| i <= j < fv.len() ==> settled(sync_run(fv, i, st).m, m0, #[trigger] fv[j]),
    decreases fv.len() - i,
{
    if i >= fv.len() {
        assert(st.ops + ops_list(fv, i, m0) =~= st.ops);
        assert(st.failures + failed_list(fv, i, m0) =~= st.failures);
    } else {
        let f = fv[i];
        assert(agree_at(st.m, m0, f.0));
        lemma_outcome_agree(f, st.m, m0);
        let st2 = sync_step(st, f);
        assert forall|j: int| i + 1 <= j < fv.len() implies agree_at(
            st2.m,
            m0,
            (#[trigger] fv[j]).0,
        ) by {
            assert(fv[i].0 != fv[j].0);
            assert(agree_at(st.m, m0, fv[j].0));
        }
        lemma_run_characterize(fv, i + 1, m0, st2);
        let fin = sync_run(fv, i + 1, st2);
        assert(sync_run(fv, i, st) == fin);
        // the path of file i is not among the later ones
        assert(!path_in(fv, i + 1, f.0)) by {
            if path_in(fv, i + 1, f.0) {
                let j = choose|j: int| i + 1 <= j < fv.len() && (#[trigger] fv[j]).0 == f.0;
                assert(fv[i].0 != fv[j].0);
            }
        }
        assert(agree_at(fin.m, st2.m, f.0));
        assert(settled(fin.m, m0, f));
        // sequences compose
        match spec_outcome(f, m0) {
            Outcome::New(d) => {
                assert(st2.ops + ops_list(fv, i + 1, m0) =~= st.ops + (seq![OpView::Add(d)]
                    + ops_list(fv, i + 1, m0)));
                assert(st2.failures + failed_list(fv, i + 1, m0) =~= st.failures + failed_list(
                    fv,
                    i,
                    m0,
                ));
            },
            Outcome::Updated(d) => {
                assert(st2.ops + ops_list(fv, i + 1, m0) =~= st.ops + (seq![
                    OpView::DeleteByPath(f.0),
                    OpView::Add(d),
                ] + ops_list(fv, i + 1, m0)));
                assert(st2.failures + failed_list(fv, i + 1, m0) =~= st.failures + failed_list(
                    fv,
                    i,
                    m0,
                ));
            },
            Outcome::Unchanged => {
                assert(st2.ops + ops_list(fv, i + 1, m0) =~= st.ops + ops_list(fv, i, m0));
                assert(st2.failures + failed_list(fv, i + 1, m0) =~= st.failures + failed_list(
                    fv,
                    i,
                    m0,
                ));
            },
            Outcome::Failed(e) => {
                assert(st2.ops + ops_list(fv, i + 1, m0) =~= st.ops + ops_list(fv, i, m0));
                assert(st2.failures + failed_list(fv, i + 1, m0) =~= st.failures + (seq![
                    (f.0, e),
                ] + failed_list(fv, i + 1, m0)));
            },
        }
        // the map at paths outside [i, len)
        assert forall|k: Seq<char>| !path_in(fv, i, k) implies agree_at(
            #[trigger] sync_run(fv, i, st).m,
            st.m,
            k,
        ) by {
            assert(!path_in(fv, i + 1, k)) by {
                if path_in(fv, i + 1, k) {
                    let j = choose|j: int| i + 1 <= j < fv.len() && (#[trigger] fv[j]).0 == k;
                    assert(path_in(fv, i, k));
                }
            }
            assert(fv[i].0 != k) by {
                if fv[i].0 == k {
                    assert(path_in(fv, i, k));
                }
            }
            assert(agree_at(fin.m, st2.m, k));
        }
    }
}


/// When every file from `i` on comes back Unchanged against `m`, the tally
/// is all-Unchanged and nothing is staged or recorded.
pub proof fn lemma_tally_all_unchanged(
    fv: Seq<(Seq<char>, Option<Seq<char>>)>,
    i: int,
    m: Map<Seq<char>, u32>,
)
    requires
        0 <= i <= fv.len(),
        forall|j: int| i <= j < fv.len() ==> spec_outcome(#[trigger] fv[j], m) == Outcome::Unchanged,
    ensures
        tally(fv, i, m) == (0int, 0int, fv.len() - i, 0int),
        ops_list(fv, i, m) =~= Seq::<OpView>::empty(),
        failed_list(fv, i, m) =~= Seq::<(Seq<char>, SyncError)>::empty(),
    decreases fv.len() - i,
{
    if i < fv.len() {
        lemma_tally_all_unchanged(fv, i + 1, m);
        assert(Seq::<OpView>::empty() + ops_list(fv, i + 1, m) =~= ops_list(fv, i + 1, m));
        assert(Seq::<(Seq<char>, SyncError)>::empty() + failed_list(fv, i + 1, m) =~= failed_list(
            fv,
            i + 1,
            m,
        ));
    }
}

/// A zero failure count means no file failed.
pub proof fn lemma_tally_failed_zero(
    fv: Seq<(Seq<char>, Option<Seq<char>>)>,
    i: int,
    m: Map<Seq<char>, u32>,
)
    requires
        0 <= i <= fv.len(),
        tally(fv, i, m).3 == 0,
    ensures
        forall|j: int| i <= j < fv.len() ==> !(spec_outcome(#[trigger] fv[j], m) is Failed),
    decreases fv.len() - i,
{
    if i < fv.len() {
        assert(tally(fv, i + 1, m).3 >= 0) by {
            lemma_tally_nonneg(fv, i + 1, m);
        }
        lemma_tally_failed_zero(fv, i + 1, m);
    }
}

pub proof fn lemma_tally_nonneg(
    fv: Seq<(Seq<char>, Option<Seq<char>>)>,
    i: int,
    m: Map<Seq<char>, u32>,
)
    ensures
        tally(fv, i, m).0 >= 0,
        tally(fv, i, m).1 >= 0,
        tally(fv, i, m).2 >= 0,
        tally(fv, i, m).3 >= 0,
    decreases fv.len() - i,
{
    if 0 <= i < fv.len() {
        lemma_tally_nonneg(fv, i + 1, m);
    }
}

/// When exactly one file, at `d`, comes back Updated against `m` and every
/// other comes back Unchanged, the tally says so and exactly its
/// delete-then-add is staged.
pub proof fn lemma_tally_one_updated(
    fv: Seq<(Seq<char>, Option<Seq<char>>)>,
    i: int,
    m: Map<Seq<char>, u32>,
    d: int,
)
    requires
        0 <= i <= fv.len(),
        i <= d < fv.len(),
        spec_outcome(fv[d], m) matches Outcome::Updated(x),
        forall|j: int|
            i <= j < fv.len() && j != d ==> spec_outcome(#[trigger] fv[j], m) == Outcome::Unchanged,
    ensures
        tally(fv, i, m) == (0int, 1int, fv.len() - i - 1, 0int),
        ops_list(fv, i, m) =~= seq![
            OpView::DeleteByPath(fv[d].0),
            OpView::Add(updated_doc(fv[d], m)),
        ],
        failed_list(fv, i, m) =~= Seq::<(Seq<char>, SyncError)>::empty(),
    decreases fv.len() - i,
{
    if i == d {
        lemma_tally_all_unchanged(fv, i + 1, m);
        assert(spec_outcome(fv[d], m) == Outcome::Updated(updated_doc(fv[d], m)));
        assert(seq![OpView::DeleteByPath(fv[d].0), OpView::Add(updated_doc(fv[d], m))]
            + ops_list(fv, i + 1, m) =~= seq![
            OpView::DeleteByPath(fv[d].0),
            OpView::Add(updated_doc(fv[d], m)),
        ]);
        assert(Seq::<(Seq<char>, SyncError)>::empty() + failed_list(fv, i + 1, m) =~= Seq::<
            (Seq<char>, SyncError),
        >::empty());
    } else {
        lemma_tally_one_updated(fv, i + 1, m, d);
        assert(spec_outcome(fv[i], m) == Outcome::Unchanged);
        assert(Seq::<OpView>::empty() + ops_list(fv, i + 1, m) =~= ops_list(fv, i + 1, m));
        assert(Seq::<(Seq<char>, SyncError)>::empty() + failed_list(fv, i + 1, m) =~= failed_list(
            fv,
            i + 1,
            m,
        ));
    }
}

/// The document an Updated outcome carries.
pub open spec fn updated_doc(
    f: (Seq<char>, Option<Seq<char>>),
    m: Map<Seq<char>, u32>,
) -> IdxView {
    match spec_outcome(f, m) {
        Outcome::Updated(x) => x,
        Outcome::New(x) => x,
        _ => arbitrary(),
    }
}

/// Running the pipeline twice over an unchanged corpus with unique paths:
/// the second run stages no add and no delete — no New, no Updated — and,
/// when the first run had no failures, every outcome of the second run is
/// Unchanged and its only staged operation is the commit.
pub proof fn lemma_rerun_unchanged(
    fv: Seq<(Seq<char>, Option<Seq<char>>)>,
    m0: Map<Seq<char>, u32>,
)
    requires
        distinct_paths(fv),
    ensures
        spec_sync(fv, spec_sync(fv, m0).m).new_count == 0,
        spec_sync(fv, spec_sync(fv, m0).m).updated_count == 0,
        spec_sync(fv, m0).failed_count == 0 ==> spec_sync(fv, spec_sync(fv, m0).m).unchanged_count
            == fv.len() && spec_sync(fv, spec_sync(fv, m0).m).failed_count == 0 && spec_sync(
            fv,
            spec_sync(fv, m0).m,
        ).ops =~= seq![OpView::Commit],
{
    lemma_run_characterize(fv, 0, m0, init_state(m0));
    let m1 = spec_sync(fv, m0).m;
    assert(m1 == sync_run(fv, 0, init_state(m0)).m);
    // every file's second outcome is Unchanged, or the same failure again
    assert forall|j: int| 0 <= j < fv.len() implies (spec_outcome(#[trigger] fv[j], m1)
        == Outcome::Unchanged || (spec_outcome(fv[j], m1) is Failed && spec_outcome(fv[j], m1)
        == spec_outcome(fv[j], m0))) by {
        assert(settled(m1, m0, fv[j]));
        match spec_outcome(fv[j], m0) {
            Outcome::New(d) => {
                assert(m1.contains_key(fv[j].0) && m1[fv[j].0] == checksum_of(fv[j].1.unwrap()));
            },
            Outcome::Updated(d) => {
                assert(m1.contains_key(fv[j].0) && m1[fv[j].0] == checksum_of(fv[j].1.unwrap()));
            },
            Outcome::Unchanged => {
                assert(m1.contains_key(fv[j].0) && m1[fv[j].0] == m0[fv[j].0]);
            },
            Outcome::Failed(e) => {
                assert(agree_at(m1, m0, fv[j].0));
                lemma_outcome_agree(fv[j], m1, m0);
            },
        }
    }
    lemma_run_characterize(fv, 0, m1, init_state(m1));
    lemma_tally_no_new_upd(fv, 0, m1);
    if spec_sync(fv, m0).failed_count == 0 {
        lemma_tally_failed_zero(fv, 0, m0);
        assert forall|j: int| 0 <= j < fv.len() implies spec_outcome(#[trigger] fv[j], m1)
            == Outcome::Unchanged by {
            assert(!(spec_outcome(fv[j], m0) is Failed));
        }
        lemma_tally_all_unchanged(fv, 0, m1);
        assert(Seq::<OpView>::empty().push(OpView::Commit) =~= seq![OpView::Commit]);
        assert(sync_run(fv, 0, init_state(m1)).ops =~= Seq::<OpView>::empty() + ops_list(
            fv,
            0,
            m1,
        ));
        assert(sync_run(fv, 0, init_state(m1)).ops =~= Seq::<OpView>::empty());
    }
}

/// When every second outcome is Unchanged or Failed, nothing is New or
/// Updated in the tally.
pub proof fn lemma_tally_no_new_upd(
    fv: Seq<(Seq<char>, Option<Seq<char>>)>,
    i: int,
    m: Map<Seq<char>, u32>,
)
    requires
        0 <= i <= fv.len(),
        forall|j: int|
            i <= j < fv.len() ==> (spec_outcome(#[trigger] fv[j], m) == Outcome::Unchanged
                || spec_outcome(fv[j], m) is Failed),
    ensures
        tally(fv, i, m).0 == 0,
        tally(fv, i, m).1 == 0,
    decreases fv.len() - i,
{
    if i < fv.len() {
        lemma_tally_no_new_upd(fv, i + 1, m);
    }
}

/// Changing exactly one file of a previously synchronized corpus — same
/// paths, the file still parses, its checksum now differs — and re-running:
/// exactly that file comes back Updated, every other Unchanged, and the run
/// stages exactly its delete, its add, and the commit.
#[verifier::rlimit(100)]
pub proof fn lemma_one_file_changed(
    fv1: Seq<(Seq<char>, Option<Seq<char>>)>,
    fv2: Seq<(Seq<char>, Option<Seq<char>>)>,
    d: int,
    m0: Map<Seq<char>, u32>,
)
    requires
        distinct_paths(fv1),
        fv1.len() == fv2.len(),
        0 <= d < fv1.len(),
        forall|j: int| 0 <= j < fv1.len() && j != d ==> #[trigger] fv2[j] == fv1[j],
        fv2[d].0 == fv1[d].0,
        fv2[d].1 is Some,
        spec_doc_of(fv2[d].0, fv2[d].1.unwrap()) is Ok,
        checksum_of(fv2[d].1.unwrap()) != checksum_of(fv1[d].1.unwrap()),
        spec_sync(fv1, m0).failed_count == 0,
    ensures
        spec_sync(fv2, spec_sync(fv1, m0).m).updated_count == 1,
        spec_sync(fv2, spec_sync(fv1, m0).m).new_count == 0,
        spec_sync(fv2, spec_sync(fv1, m0).m).failed_count == 0,
        spec_sync(fv2, spec_sync(fv1, m0).m).unchanged_count == fv1.len() - 1,
        spec_sync(fv2, spec_sync(fv1, m0).m).ops =~= seq![
            OpView::DeleteByPath(fv1[d].0),
            OpView::Add(updated_doc(fv2[d], spec_sync(fv1, m0).m)),
            OpView::Commit,
        ],
        spec_outcome(fv2[d], spec_sync(fv1, m0).m) == Outcome::Updated(
            updated_doc(fv2[d], spec_sync(fv1, m0).m),
        ),
{
    lemma_run_characterize(fv1, 0, m0, init_state(m0));
    let m1 = spec_sync(fv1, m0).m;
    lemma_tally_failed_zero(fv1, 0, m0);
    assert(distinct_paths(fv2)) by {
        assert forall|a: int, b: int| 0 <= a < b < fv2.len() implies (#[trigger] fv2[a]).0 != (
        #[trigger] fv2[b]).0 by {
            assert(fv2[a].0 == fv1[a].0 && fv2[b].0 == fv1[b].0);
            assert(fv1[a].0 != fv1[b].0);
        }
    }
    // the changed file: Updated
    assert(spec_outcome(fv2[d], m1) matches Outcome::Updated(x)) by {
        assert(settled(m1, m0, fv1[d]));
        assert(!(spec_outcome(fv1[d], m0) is Failed));
        assert(m1.contains_key(fv1[d].0));
        match spec_outcome(fv1[d], m0) {
            Outcome::Unchanged => {
                assert(fv1[d].1 is Some);
                assert(m1[fv1[d].0] == m0[fv1[d].0]);
                assert(m0[fv1[d].0] == checksum_of(fv1[d].1.unwrap()));
            },
            _ => {},
        }
        assert(m1[fv1[d].0] == checksum_of(fv1[d].1.unwrap()));
    }
    // every other file: Unchanged
    assert forall|j: int| 0 <= j < fv2.len() && j != d implies spec_outcome(#[trigger] fv2[j], m1)
        == Outcome::Unchanged by {
        assert(fv2[j] == fv1[j]);
        assert(settled(m1, m0, fv1[j]));
        assert(!(spec_outcome(fv1[j], m0) is Failed));
        match spec_outcome(fv1[j], m0) {
            Outcome::New(x) => {},
            Outcome::Updated(x) => {},
            Outcome::Unchanged => {
                assert(fv1[j].1 is Some);
                assert(m0[fv1[j].0] == checksum_of(fv1[j].1.unwrap()));
            },
            Outcome::Failed(e) => {},
        }
        assert(m1.contains_key(fv1[j].0) && m1[fv1[j].0] == checksum_of(fv1[j].1.unwrap()));
    }
    lemma_run_characterize(fv2, 0, m1, init_state(m1));
    lemma_tally_one_updated(fv2, 0, m1, d);
    assert(sync_run(fv2, 0, init_state(m1)).ops =~= Seq::<OpView>::empty() + ops_list(fv2, 0, m1));
    assert(spec_sync(fv2, m1).ops =~= ops_list(fv2, 0, m1).push(OpView::Commit));
    assert(ops_list(fv2, 0, m1).push(OpView::Commit) =~= seq![
        OpView::DeleteByPath(fv1[d].0),
        OpView::Add(updated_doc(fv2[d], m1)),
        OpView::Commit,
    ]);
}

/// A failed file is recorded, with its reason, in the report's failure
/// list, and no operation of the run carries its path: it is never staged,
/// so it can never reach the index.
pub proof fn lemma_failed_file_not_staged(
    fv: Seq<(Seq<char>, Option<Seq<char>>)>,
    m0: Map<Seq<char>, u32>,
    j: int,
)
    requires
        distinct_paths(fv),
        0 <= j < fv.len(),
        spec_outcome(fv[j], m0) is Failed,
    ensures
        spec_sync(fv, m0).failures.contains((fv[j].0, spec_outcome(fv[j], m0)->Failed_0)),
        forall|t: int|
            0 <= t < spec_sync(fv, m0).ops.len() ==> !op_touches(
                #[trigger] spec_sync(fv, m0).ops[t],
                fv[j].0,
            ),
{
    lemma_run_characterize(fv, 0, m0, init_state(m0));
    lemma_failed_in_list(fv, 0, m0, j);
    lemma_ops_avoid_path(fv, 0, m0, j);
    assert(spec_sync(fv, m0).failures =~= Seq::<(Seq<char>, SyncError)>::empty() + failed_list(
        fv,
        0,
        m0,
    ));
    let ops0 = sync_run(fv, 0, init_state(m0)).ops;
    assert(ops0 =~= Seq::<OpView>::empty() + ops_list(fv, 0, m0));
    assert forall|t: int| 0 <= t < spec_sync(fv, m0).ops.len() implies !op_touches(
        #[trigger] spec_sync(fv, m0).ops[t],
        fv[j].0,
    ) by {
        if t < ops0.len() {
            assert(spec_sync(fv, m0).ops[t] == ops_list(fv, 0, m0)[t]);
        } else {
            assert(spec_sync(fv, m0).ops[t] == OpView::Commit);
        }
    }
}

/// Whether an operation stages something under the given path.
pub open spec fn op_touches(op: OpView, p: Seq<char>) -> bool {
    match op {
        OpView::Add(x) => x.full_path == p,
        OpView::DeleteByPath(q) => q == p,
        OpView::Commit => false,
    }
}

pub proof fn lemma_failed_in_list(
    fv: Seq<(Seq<char>, Option<Seq<char>>)>,
    i: int,
    m0: Map<Seq<char>, u32>,
    j: int,
)
    requires
        0 <= i <= j < fv.len(),
        spec_outcome(fv[j], m0) is Failed,
    ensures
        failed_list(fv, i, m0).contains((fv[j].0, spec_outcome(fv[j], m0)->Failed_0)),
    decreases fv.len() - i,
{
    if i == j {
        assert(failed_list(fv, i, m0)[0] == (fv[j].0, spec_outcome(fv[j], m0)->Failed_0));
    } else {
        lemma_failed_in_list(fv, i + 1, m0, j);
        let e = (fv[j].0, spec_outcome(fv[j], m0)->Failed_0);
        let rest = failed_list(fv, i + 1, m0);
        let t = choose|t: int| 0 <= t < rest.len() && rest[t] == e;
        let head = failed_list(fv, i, m0).len() - rest.len();
        assert(failed_list(fv, i, m0)[head + t] == e);
    }
}

pub proof fn lemma_ops_avoid_path(
    fv: Seq<(Seq<char>, Option<Seq<char>>)>,
    i: int,
    m0: Map<Seq<char>, u32>,
    j: int,
)
    requires
        0 <= i <= fv.len(),
        0 <= j < fv.len(),
        distinct_paths(fv),
        spec_outcome(fv[j], m0) is Failed,
    ensures
        forall|t: int|
            0 <= t < ops_list(fv, i, m0).len() ==> !op_touches(
                #[trigger] ops_list(fv, i, m0)[t],
                fv[j].0,
            ),
    decreases fv.len() - i,
{
    if i < fv.len() {
        lemma_ops_avoid_path(fv, i + 1, m0, j);
        let own = (match spec_outcome(fv[i], m0) {
            Outcome::New(d) => seq![OpView::Add(d)],
            Outcome::Updated(d) => seq![OpView::DeleteByPath(fv[i].0), OpView::Add(d)],
            Outcome::Unchanged => Seq::<OpView>::empty(),
            Outcome::Failed(e) => Seq::<OpView>::empty(),
        });
        assert forall|t: int| 0 <= t < ops_list(fv, i, m0).len() implies !op_touches(
            #[trigger] ops_list(fv, i, m0)[t],
            fv[j].0,
        ) by {
            if t < own.len() {
                assert(ops_list(fv, i, m0)[t] == own[t]);
                if i == j {
                } else {
                    assert(fv[i].0 != fv[j].0) by {
                        if i < j {
                            assert((#[trigger] fv[i]).0 != (#[trigger] fv[j]).0);
                        } else {
                            assert((#[trigger] fv[j]).0 != (#[trigger] fv[i]).0);
                        }
                    }
                    match spec_outcome(fv[i], m0) {
                        Outcome::New(x) => {
                            assert(x.full_path == fv[i].0) by {
                                assert(spec_doc_of(fv[i].0, fv[i].1.unwrap()) == Ok::<
                                    IdxView,
                                    SyncError,
                                >(x));
                            }
                        },
                        Outcome::Updated(x) => {
                            assert(x.full_path == fv[i].0) by {
                                assert(spec_doc_of(fv[i].0, fv[i].1.unwrap()) == Ok::<
                                    IdxView,
                                    SyncError,
                                >(x));
                            }
                        },
                        _ => {},
                    }
                }
            } else {
                assert(ops_list(fv, i, m0)[t] == ops_list(fv, i + 1, m0)[t - own.len()]);
            }
        }
    }
}


/// An operation stays within what the engine can hold: an added document
/// carries a storable date and an indexable path, and a delete names an
/// indexable path.  The pipeline has rejected every other file before
/// planning.
pub open spec fn op_within_limits(op: OpView) -> bool {
    &&& (op matches OpView::Add(d) ==> MIN_STORED_EPOCH <= d.date_epoch <= MAX_STORED_EPOCH
        && vstd::utf8::encode_utf8(d.full_path).len() <= MAX_PATH_BYTES)
    &&& (op matches OpView::DeleteByPath(p) ==> vstd::utf8::encode_utf8(p).len()
        <= MAX_PATH_BYTES)
}

pub open spec fn ops_within_limits(ops: Seq<OpView>) -> bool {
    forall|t: int| 0 <= t < ops.len() ==> op_within_limits(#[trigger] ops[t])
}

pub proof fn lemma_run_ops_within_limits(
    fv: Seq<(Seq<char>, Option<Seq<char>>)>,
    i: int,
    st: SyncState,
)
    requires
        0 <= i <= fv.len(),
        ops_within_limits(st.ops),
    ensures
        ops_within_limits(sync_run(fv, i, st).ops),
    decreases fv.len() - i,
{
    if i < fv.len() {
        let f = fv[i];
        let st2 = sync_step(st, f);
        assert(ops_within_limits(st2.ops)) by {
            match spec_outcome(f, st.m) {
                Outcome::New(d) => {
                    assert(spec_doc_of(f.0, f.1.unwrap()) == Ok::<IdxView, SyncError>(d));
                    assert(d.full_path == f.0);
                    assert(op_within_limits(OpView::Add(d)));
                    assert forall|t: int| 0 <= t < st2.ops.len() implies op_within_limits(
                        #[trigger] st2.ops[t],
                    ) by {
                        if t < st.ops.len() {
                            assert(st2.ops[t] == st.ops[t]);
                        } else {
                            assert(st2.ops[t] == OpView::Add(d));
                        }
                    }
                },
                Outcome::Updated(d) => {
                    assert(spec_doc_of(f.0, f.1.unwrap()) == Ok::<IdxView, SyncError>(d));
                    assert(d.full_path == f.0);
                    assert(op_within_limits(OpView::Add(d)));
                    assert(op_within_limits(OpView::DeleteByPath(f.0)));
                    assert forall|t: int| 0 <= t < st2.ops.len() implies op_within_limits(
                        #[trigger] st2.ops[t],
                    ) by {
                        if t < st.ops.len() {
                            assert(st2.ops[t] == st.ops[t]);
                        } else if t == st.ops.len() {
                            assert(st2.ops[t] == OpView::DeleteByPath(f.0));
                        } else {
                            assert(st2.ops[t] == OpView::Add(d));
                        }
                    }
                },
                Outcome::Unchanged => {},
                Outcome::Failed(e) => {},
            }
        }
        lemma_run_ops_within_limits(fv, i + 1, st2);
    }
}

/// Every operation a whole plan stages stays within the engine's limits.
pub proof fn lemma_sync_ops_within_limits(
    fv: Seq<(Seq<char>, Option<Seq<char>>)>,
    m: Map<Seq<char>, u32>,
)
    ensures
        ops_within_limits(spec_sync(fv, m).ops),
{
    lemma_run_ops_within_limits(fv, 0, init_state(m));
    let base = sync_run(fv, 0, init_state(m)).ops;
    assert forall|t: int| 0 <= t < spec_sync(fv, m).ops.len() implies op_within_limits(
        #[trigger] spec_sync(fv, m).ops[t],
    ) by {
        if t < base.len() {
            assert(spec_sync(fv, m).ops[t] == base[t]);
        } else {
            assert(spec_sync(fv, m).ops[t] == OpView::Commit);
        }
    }
}

} // verus!
