//! The decisions of the indexing pipeline: for a file event, what to do
//! next, given how the previous step turned out. The caller performs each
//! action (sleeping, reading the file, talking to the embedding server and
//! the vector store) and reports the outcome.

use vstd::prelude::*;

use crate::chunker::{
    chunk_file, chunk_views, extracted_text, kind_of, text_chunks, Chunk, ChunkError, FileSource,
};
use crate::harvester::{FileEvent, FileEventView};

verus! {

/// How long to let the operating system finish writing a file before it is
/// read, in milliseconds.
pub const SETTLE_MS: u64 = 100;

/// Where the indexing of one event stands.
#[derive(Debug, Clone, Copy, PartialEq, Eq, Structural)]
pub enum Stage {
    /// Waiting for the operating system to finish writing the file.
    Settling,
    /// Waiting for the contents of the file.
    Reading,
    /// Embedding the chunk at `next`.
    Embedding,
    /// Deleting the previous chunks of the file, all new chunks embedded.
    Replacing,
    /// Inserting the new chunks.
    Inserting,
    /// Deleting the chunks of a removed file, or of one without chunks.
    Removing,
    /// Nothing left to do.
    Finished,
}

/// The state of the indexing of one event.
pub struct IndexJob {
    pub stage: Stage,
    pub path: String,
    pub chunks: Vec<Chunk>,
    pub next: usize,
}

impl View for IndexJob {
    type V = (Stage, Seq<char>, Seq<(Seq<char>, nat)>, usize);

    open spec fn view(&self) -> Self::V {
        (self.stage, self.path@, chunk_views(self.chunks@), self.next)
    }
}

/// How the last action turned out.
pub enum Outcome {
    /// The action completed.
    Completed,
    /// The file was read: its bytes, or the text extracted from a PDF.
    FileRead(FileSource),
    /// The action failed; the error's message.
    Failed(String),
}

/// A chunk as it goes into the vector store, without its embedding.
pub struct ChunkRecord {
    pub id: String,
    pub file_path: String,
    pub content_snippet: String,
}

/// Why indexing an event failed.
#[derive(Debug)]
pub enum IndexError {
    /// The file could not be read into text.
    Chunk(ChunkError),
    /// Reading, embedding or storing failed; the message.
    Io(String),
}

/// What to do next.
pub enum IndexAction {
    /// Sleep this many milliseconds.
    Sleep(u64),
    /// Read the file at this path (extracting the text of a PDF).
    ReadFile(String),
    /// Delete all chunks of the file at this path from the store.
    DeleteByPath(String),
    /// Embed this text.
    Embed(String),
    /// Insert these records, each with the embedding of its text, in order.
    Insert(Vec<ChunkRecord>),
    /// The event is fully processed.
    Finish,
    /// Processing the event failed.
    Fail(IndexError),
}

/// Why indexing failed, with messages as text.
pub enum IndexErrorView {
    InvalidUtf8,
    PdfExtraction(Seq<char>),
    Io(Seq<char>),
}

impl View for IndexError {
    type V = IndexErrorView;

    open spec fn view(&self) -> IndexErrorView {
        match self {
            IndexError::Chunk(ChunkError::InvalidUtf8) => IndexErrorView::InvalidUtf8,
            IndexError::Chunk(ChunkError::PdfExtraction(m)) => IndexErrorView::PdfExtraction(m@),
            IndexError::Io(m) => IndexErrorView::Io(m@),
        }
    }
}

/// What an action says, with records reduced to their paths and texts.
pub enum ActionView {
    Sleep(u64),
    ReadFile(Seq<char>),
    DeleteByPath(Seq<char>),
    Embed(Seq<char>),
    Insert(Seq<(Seq<char>, Seq<char>)>),
    Finish,
    Fail(IndexErrorView),
}

/// The paths and texts of records.
pub open spec fn record_views(v: Seq<ChunkRecord>) -> Seq<(Seq<char>, Seq<char>)> {
    v.map_values(|r: ChunkRecord| (r.file_path@, r.content_snippet@))
}

impl View for IndexAction {
    type V = ActionView;

    open spec fn view(&self) -> ActionView {
        match self {
            IndexAction::Sleep(ms) => ActionView::Sleep(*ms),
            IndexAction::ReadFile(p) => ActionView::ReadFile(p@),
            IndexAction::DeleteByPath(p) => ActionView::DeleteByPath(p@),
            IndexAction::Embed(t) => ActionView::Embed(t@),
            IndexAction::Insert(rs) => ActionView::Insert(record_views(rs@)),
            IndexAction::Finish => ActionView::Finish,
            IndexAction::Fail(e) => ActionView::Fail(e@),
        }
    }
}

/// A fresh identifier: `uuid::Uuid::new_v4()` in its hyphenated text form,
/// which has 36 characters. Which identifier comes back is not stated: it
/// is random.
#[verifier::external_body]
fn new_chunk_id() -> (id: String)
    ensures
        id@.len() == 36,
{
    uuid::Uuid::new_v4().to_string()
}

/// The records for the chunks of a file: the file's path and each chunk's
/// text, in chunk order.
pub open spec fn records_for(path: Seq<char>, chunks: Seq<(Seq<char>, nat)>) -> Seq<
    (Seq<char>, Seq<char>),
> {
    chunks.map_values(|c: (Seq<char>, nat)| (path, c.0))
}

/// The job with nothing left to do.
pub open spec fn finished_view() -> (Stage, Seq<char>, Seq<(Seq<char>, nat)>, usize) {
    (Stage::Finished, seq![], seq![], 0)
}

/// The first step for an event: a file that changed is read after it
/// settles; the chunks of a removed file are deleted.
pub open spec fn start_spec(event: FileEventView) -> (
    (Stage, Seq<char>, Seq<(Seq<char>, nat)>, usize),
    ActionView,
) {
    match event {
        FileEventView::Upsert(p) => ((Stage::Settling, p, seq![], 0), ActionView::Sleep(SETTLE_MS)),
        FileEventView::Remove(p) => ((Stage::Removing, p, seq![], 0), ActionView::DeleteByPath(p)),
    }
}

/// The outcomes that each stage waits for.
pub open spec fn outcome_fits(stage: Stage, outcome: Outcome) -> bool {
    match outcome {
        Outcome::Failed(_) => stage != Stage::Finished,
        Outcome::FileRead(_) => stage == Stage::Reading,
        Outcome::Completed => stage != Stage::Reading && stage != Stage::Finished,
    }
}

/// The step after a completed action (other than reading the file): after
/// the last chunk is embedded the previous chunks of the file are deleted,
/// then the new ones inserted.
pub open spec fn completed_spec(job: (Stage, Seq<char>, Seq<(Seq<char>, nat)>, usize)) -> (
    (Stage, Seq<char>, Seq<(Seq<char>, nat)>, usize),
    ActionView,
) {
    let (stage, path, chunks, next) = job;
    match stage {
        Stage::Settling => ((Stage::Reading, path, chunks, next), ActionView::ReadFile(path)),
        Stage::Embedding => if next + 1 < chunks.len() {
            ((Stage::Embedding, path, chunks, (next + 1) as usize), ActionView::Embed(chunks[next + 1].0))
        } else {
            ((Stage::Replacing, path, chunks, next), ActionView::DeleteByPath(path))
        },
        Stage::Replacing => (
            (Stage::Inserting, path, chunks, next),
            ActionView::Insert(records_for(path, chunks)),
        ),
        _ => (finished_view(), ActionView::Finish),
    }
}

/// The error for a source whose text cannot be had.
pub open spec fn source_error_view(source: FileSource) -> IndexErrorView {
    match source {
        FileSource::PdfText(Err(m)) => IndexErrorView::PdfExtraction(m@),
        _ => IndexErrorView::InvalidUtf8,
    }
}

/// The step after the file was read, with `max` the chunk size: a file that
/// cannot be read into text ends the job with its error; the old chunks of
/// one without chunks are deleted; otherwise the first chunk is embedded.
pub open spec fn read_spec(path: Seq<char>, source: FileSource, max: nat) -> (
    (Stage, Seq<char>, Seq<(Seq<char>, nat)>, usize),
    ActionView,
) {
    match extracted_text(source) {
        None => (finished_view(), ActionView::Fail(source_error_view(source))),
        Some(t) => {
            let chunks = text_chunks(kind_of(path), t, max);
            if chunks.len() == 0 {
                ((Stage::Removing, path, seq![], 0), ActionView::DeleteByPath(path))
            } else {
                ((Stage::Embedding, path, chunks, 0), ActionView::Embed(chunks[0].0))
            }
        },
    }
}

/// A job's chunks and position agree with its stage.
pub open spec fn job_wf(job: (Stage, Seq<char>, Seq<(Seq<char>, nat)>, usize)) -> bool {
    let (stage, path, chunks, next) = job;
    match stage {
        Stage::Embedding => next < chunks.len(),
        Stage::Replacing => chunks.len() > 0,
        Stage::Inserting => chunks.len() > 0,
        _ => true,
    }
}

/// The records for the chunks, each with a fresh identifier.
fn make_records(path: &String, chunks: &Vec<Chunk>) -> (res: Vec<ChunkRecord>)
    ensures
        record_views(res@) == records_for(path@, chunk_views(chunks@)),
        forall|i: int| 0 <= i < res@.len() ==> (#[trigger] res@[i]).id@.len() == 36,
{
    let mut res: Vec<ChunkRecord> = Vec::new();
    let mut i: usize = 0;
    while i < chunks.len()
        invariant
            i <= chunks@.len(),
            record_views(res@) == records_for(path@, chunk_views(chunks@)).take(i as int),
            forall|k: int| 0 <= k < res@.len() ==> (#[trigger] res@[k]).id@.len() == 36,
        decreases chunks@.len() - i,
    {
        let r = ChunkRecord {
            id: new_chunk_id(),
            file_path: path.clone(),
            content_snippet: chunks[i].text.clone(),
        };
        proof {
            assert(record_views(res@.push(r)) =~= record_views(res@).push((path@, chunks@[i as int].text@)));
            assert(records_for(path@, chunk_views(chunks@)).take(i + 1) =~= records_for(
                path@,
                chunk_views(chunks@),
            ).take(i as int).push((path@, chunks@[i as int].text@)));
        }
        res.push(r);
        i = i + 1;
    }
    assert(records_for(path@, chunk_views(chunks@)).take(i as int) =~= records_for(
        path@,
        chunk_views(chunks@),
    ));
    res
}

/// The job with nothing left to do.
fn finished() -> (job: IndexJob)
    ensures
        job@ == finished_view(),
{
    let job = IndexJob { stage: Stage::Finished, path: String::new(), chunks: Vec::new(), next: 0 };
    assert(chunk_views(job.chunks@) =~= Seq::<(Seq<char>, nat)>::empty());
    job
}

/// The actions taken after `n` actions in a row complete, starting from
/// `job`.
pub open spec fn run_completed(job: (Stage, Seq<char>, Seq<(Seq<char>, nat)>, usize), n: nat) -> Seq<
    ActionView,
>
    decreases n,
{
    if n == 0 {
        seq![]
    } else {
        let (next_job, action) = completed_spec(job);
        seq![action] + run_completed(next_job, (n - 1) as nat)
    }
}

/// Embedding each of the chunks, in order.
pub open spec fn embeds(chunks: Seq<(Seq<char>, nat)>) -> Seq<ActionView> {
    chunks.map_values(|c: (Seq<char>, nat)| ActionView::Embed(c.0))
}

/// What follows the embeddings: deleting the file's previous chunks,
/// inserting the new records, finishing.
pub open spec fn replace_tail(path: Seq<char>, chunks: Seq<(Seq<char>, nat)>) -> Seq<ActionView> {
    seq![
        ActionView::DeleteByPath(path),
        ActionView::Insert(records_for(path, chunks)),
        ActionView::Finish,
    ]
}

/// From embedding chunk `i`, the remaining chunks are embedded in order,
/// then the previous chunks deleted, the records inserted, and the job
/// finishes.
proof fn lemma_run_from_embedding(path: Seq<char>, chunks: Seq<(Seq<char>, nat)>, i: usize)
    requires
        i < chunks.len(),
        chunks.len() <= usize::MAX,
    ensures
        run_completed((Stage::Embedding, path, chunks, i), (chunks.len() - i + 2) as nat) == embeds(
            chunks.subrange(i + 1, chunks.len() as int),
        ) + replace_tail(path, chunks),
    decreases chunks.len() - i,
{
    let job = (Stage::Embedding, path, chunks, i);
    let n = (chunks.len() - i + 2) as nat;
    if i + 1 < chunks.len() {
        lemma_run_from_embedding(path, chunks, (i + 1) as usize);
        let next = (Stage::Embedding, path, chunks, (i + 1) as usize);
        assert(completed_spec(job) == (next, ActionView::Embed(chunks[i + 1].0)));
        assert(embeds(chunks.subrange(i + 1, chunks.len() as int)) =~= seq![
            ActionView::Embed(chunks[i + 1].0),
        ] + embeds(chunks.subrange(i + 2, chunks.len() as int)));
        assert(run_completed(job, n) =~= seq![ActionView::Embed(chunks[i + 1].0)] + run_completed(
            next,
            (n - 1) as nat,
        ));
        assert(run_completed(job, n) =~= embeds(chunks.subrange(i + 1, chunks.len() as int))
            + replace_tail(path, chunks));
    } else {
        let rep = (Stage::Replacing, path, chunks, i);
        let ins = (Stage::Inserting, path, chunks, i);
        assert(completed_spec(job) == (rep, ActionView::DeleteByPath(path)));
        assert(completed_spec(rep) == (ins, ActionView::Insert(records_for(path, chunks))));
        assert(completed_spec(ins) == (finished_view(), ActionView::Finish));
        assert(run_completed(finished_view(), 0) =~= Seq::<ActionView>::empty());
        assert(run_completed(ins, 1) =~= seq![ActionView::Finish]);
        assert(run_completed(rep, 2) =~= seq![
            ActionView::Insert(records_for(path, chunks)),
            ActionView::Finish,
        ]);
        assert(embeds(chunks.subrange(i + 1, chunks.len() as int)) =~= Seq::<ActionView>::empty());
        assert(run_completed(job, n) =~= embeds(chunks.subrange(i + 1, chunks.len() as int))
            + replace_tail(path, chunks));
    }
}

/// Indexing a changed file whose text yields chunks, when every action
/// succeeds: sleep while the file settles, read it, embed each chunk in
/// order, then delete the file's previous chunks, insert one record per
/// chunk (the file's path and the chunk's text, in order), and finish.
pub proof fn lemma_upsert_pipeline(path: Seq<char>, source: FileSource, max: nat)
    requires
        extracted_text(source) is Some,
        text_chunks(kind_of(path), extracted_text(source).unwrap(), max).len() > 0,
        text_chunks(kind_of(path), extracted_text(source).unwrap(), max).len()
            <= usize::MAX,
    ensures
        ({
            let chunks = text_chunks(
                kind_of(path),
                extracted_text(source).unwrap(),
                max,
            );
            let settling = (Stage::Settling, path, Seq::<(Seq<char>, nat)>::empty(), 0usize);
            let reading = (Stage::Reading, path, Seq::<(Seq<char>, nat)>::empty(), 0usize);
            let (after_read, first) = read_spec(path, source, max);
            &&& start_spec(FileEventView::Upsert(path)) == (settling, ActionView::Sleep(SETTLE_MS))
            &&& completed_spec(settling) == (reading, ActionView::ReadFile(path))
            &&& seq![first] + run_completed(after_read, (chunks.len() + 2) as nat) == embeds(chunks)
                + replace_tail(path, chunks)
        }),
{
    let chunks = text_chunks(kind_of(path), extracted_text(source).unwrap(), max);
    let embedding = (Stage::Embedding, path, chunks, 0usize);
    assert(read_spec(path, source, max) == (embedding, ActionView::Embed(chunks[0].0)));
    lemma_run_from_embedding(path, chunks, 0);
    assert(embeds(chunks) =~= seq![ActionView::Embed(chunks[0].0)] + embeds(
        chunks.subrange(1, chunks.len() as int),
    ));
    assert(seq![ActionView::Embed(chunks[0].0)] + run_completed(embedding, (chunks.len() + 2) as nat)
        =~= embeds(chunks) + replace_tail(path, chunks));
}

/// Indexing a changed file whose text yields no chunks deletes the file's
/// previous chunks and finishes.
pub proof fn lemma_upsert_without_chunks(path: Seq<char>, source: FileSource, max: nat)
    requires
        extracted_text(source) is Some,
        text_chunks(kind_of(path), extracted_text(source).unwrap(), max).len() == 0,
    ensures
        read_spec(path, source, max) == (
            (Stage::Removing, path, Seq::<(Seq<char>, nat)>::empty(), 0usize),
            ActionView::DeleteByPath(path),
        ),
        completed_spec(read_spec(path, source, max).0) == (finished_view(), ActionView::Finish),
{
}

/// A file that cannot be read into text ends the job with its error,
/// before anything is deleted.
pub proof fn lemma_upsert_unreadable(path: Seq<char>, source: FileSource, max: nat)
    requires
        extracted_text(source) is None,
    ensures
        read_spec(path, source, max) == (finished_view(), ActionView::Fail(source_error_view(source))),
{
}

/// Once the previous chunks are deleted, the records inserted are one per
/// chunk, in chunk order, each holding the file's path and that chunk's own
/// text.
pub proof fn lemma_inserted_records(path: Seq<char>, chunks: Seq<(Seq<char>, nat)>, next: usize)
    ensures
        completed_spec((Stage::Replacing, path, chunks, next)).1 matches ActionView::Insert(rs) && rs.len()
            == chunks.len() && forall|i: int|
            0 <= i < chunks.len() ==> #[trigger] rs[i] == (path, chunks[i].0),
{
}

/// Indexing a removed file deletes its chunks and finishes.
pub proof fn lemma_remove_pipeline(path: Seq<char>)
    ensures
        start_spec(FileEventView::Remove(path)) == (
            (Stage::Removing, path, Seq::<(Seq<char>, nat)>::empty(), 0usize),
            ActionView::DeleteByPath(path),
        ),
        completed_spec((Stage::Removing, path, Seq::<(Seq<char>, nat)>::empty(), 0usize)) == (
            finished_view(),
            ActionView::Finish,
        ),
{
}

/// Owns the decisions of the `(path, content) → chunk → embed → upsert`
/// indexing pipeline.
pub struct Indexer {
    pub max_chunk_chars: usize,
}

impl Indexer {
    /// Create a new indexer that cuts chunks of at most `max_chunk_chars`
    /// bytes.
    pub fn new(max_chunk_chars: usize) -> (res: Self)
        ensures
            res.max_chunk_chars == max_chunk_chars,
    {
        Indexer { max_chunk_chars }
    }

    /// Starts processing an event.
    pub fn start(&self, event: FileEvent) -> (res: (IndexJob, IndexAction))
        ensures
            (res.0@, res.1@) == start_spec(event@),
    {
        match event {
            FileEvent::Upsert(p) => {
                let job = IndexJob { stage: Stage::Settling, path: p.clone(), chunks: Vec::new(), next: 0 };
                assert(chunk_views(job.chunks@) =~= Seq::<(Seq<char>, nat)>::empty());
                (job, IndexAction::Sleep(SETTLE_MS))
            },
            FileEvent::Remove(p) => {
                let job = IndexJob { stage: Stage::Removing, path: p.clone(), chunks: Vec::new(), next: 0 };
                assert(chunk_views(job.chunks@) =~= Seq::<(Seq<char>, nat)>::empty());
                (job, IndexAction::DeleteByPath(p))
            },
        }
    }

    /// Decides the next action from the job and how the last action turned
    /// out. A failed action ends the job with its message, so a failed
    /// embedding leaves the previous chunks of the file in place.
    pub fn step(&self, job: IndexJob, outcome: Outcome) -> (res: (IndexJob, IndexAction))
        requires
            job_wf(job@),
            outcome_fits(job.stage, outcome),
        ensures
            job_wf(res.0@),
            outcome matches Outcome::Failed(m) ==> res.0@ == finished_view() && res.1@
                == ActionView::Fail(IndexErrorView::Io(m@)),
            outcome matches Outcome::FileRead(src) ==> (res.0@, res.1@) == read_spec(
                job.path@,
                src,
                self.max_chunk_chars as nat,
            ),
            outcome is Completed ==> (res.0@, res.1@) == completed_spec(job@),
            res.1 matches IndexAction::Insert(rs) ==> forall|i: int|
                0 <= i < rs@.len() ==> (#[trigger] rs@[i]).id@.len() == 36,
    {
        match outcome {
            Outcome::Failed(msg) => (finished(), IndexAction::Fail(IndexError::Io(msg))),
            Outcome::FileRead(source) => {
                let path = job.path;
                match chunk_file(path.as_str(), &source, self.max_chunk_chars) {
                    Err(e) => {
                        let ghost g = e;
                        proof {
                            assert(source_error_view(source) == IndexError::Chunk(g)@);
                        }
                        (finished(), IndexAction::Fail(IndexError::Chunk(e)))
                    },
                    Ok(chunks) => {
                        assert(chunk_views(chunks@).len() == chunks@.len());
                        if chunks.len() == 0 {
                            let p = path.clone();
                            let job = IndexJob {
                                stage: Stage::Removing,
                                path,
                                chunks: Vec::new(),
                                next: 0,
                            };
                            assert(chunk_views(job.chunks@) =~= Seq::<(Seq<char>, nat)>::empty());
                            (job, IndexAction::DeleteByPath(p))
                        } else {
                            let t = chunks[0].text.clone();
                            (
                                IndexJob { stage: Stage::Embedding, path, chunks, next: 0 },
                                IndexAction::Embed(t),
                            )
                        }
                    },
                }
            },
            Outcome::Completed => {
                let stage = job.stage;
                assert(chunk_views(job.chunks@).len() == job.chunks@.len());
                match stage {
                    Stage::Settling => {
                        let p = job.path.clone();
                        (IndexJob { stage: Stage::Reading, ..job }, IndexAction::ReadFile(p))
                    },
                    Stage::Embedding => {
                        assert(job.next < job.chunks@.len());
                        if job.next < job.chunks.len() - 1 {
                            let t = job.chunks[job.next + 1].text.clone();
                            let next = job.next + 1;
                            (IndexJob { next, ..job }, IndexAction::Embed(t))
                        } else {
                            let p = job.path.clone();
                            (IndexJob { stage: Stage::Replacing, ..job }, IndexAction::DeleteByPath(p))
                        }
                    },
                    Stage::Replacing => {
                        let records = make_records(&job.path, &job.chunks);
                        (IndexJob { stage: Stage::Inserting, ..job }, IndexAction::Insert(records))
                    },
                    _ => (finished(), IndexAction::Finish),
                }
            },
        }
    }
}

} // verus!
