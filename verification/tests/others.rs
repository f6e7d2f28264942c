use embi_search::embedding::embeddings_url;
use embi_search::harvester::{file_events, is_supported, scan_events, ChangeKind, FileEvent};
use embi_search::chunker::{ChunkError, FileSource};
use embi_search::indexer::{IndexAction, IndexError, IndexJob, Indexer, Outcome, Stage};
use embi_search::server::{health_url, server_args, wait_step, WaitAction};
use embi_search::vectorstore::{delete_predicate, documents_table, VECTOR_DIM};

#[test]
fn supported_extensions() {
    assert!(is_supported("/home/u/notes.md"));
    assert!(is_supported("data.json"));
    assert!(is_supported("src/main.rs"));
    assert!(!is_supported("x.MD"));
    assert!(!is_supported(".txt"));
    assert!(!is_supported("archive.tar.gz"));
    assert!(is_supported("dir.d/file.tar.toml"));
    assert!(!is_supported("notes.txt/.."));
    assert!(is_supported("notes.txt/."));
    assert!(!is_supported("noext"));
}

#[test]
fn watcher_events() {
    let paths = vec!["a.txt".to_string(), "b.exe".to_string(), "c.py".to_string()];
    let ev = file_events(ChangeKind::Modify, &paths);
    assert_eq!(ev.len(), 2);
    assert!(matches!(&ev[0], FileEvent::Upsert(p) if p == "a.txt"));
    assert!(matches!(&ev[1], FileEvent::Upsert(p) if p == "c.py"));
    let ev = file_events(ChangeKind::Remove, &paths);
    assert!(matches!(&ev[1], FileEvent::Remove(p) if p == "c.py"));
    assert!(file_events(ChangeKind::Other, &paths).is_empty());
    assert_eq!(scan_events(&paths).len(), 2);
}

#[test]
fn store_names_and_filters() {
    assert_eq!(VECTOR_DIM, 768);
    assert_eq!(documents_table(), "documents");
    assert_eq!(delete_predicate("C:/x/O'Brien.txt"), "file_path = 'C:/x/O''Brien.txt'");
}

#[test]
fn server_endpoints_and_arguments() {
    assert_eq!(embeddings_url(8080), "http://127.0.0.1:8080/v1/embeddings");
    assert_eq!(health_url(0), "http://127.0.0.1:0/health");
    assert_eq!(
        server_args("m.gguf", 65535),
        vec!["--model", "m.gguf", "--port", "65535", "--host", "127.0.0.1", "--embedding", "--ctx-size", "8192"]
    );
}

#[test]
fn waiting_for_readiness() {
    assert_eq!(wait_step(0, 60_000, None), WaitAction::Probe);
    assert_eq!(wait_step(60_001, 60_000, None), WaitAction::TimedOut);
    assert_eq!(wait_step(10, 60_000, Some(Some(200))), WaitAction::Ready);
    assert_eq!(wait_step(10, 60_000, Some(Some(204))), WaitAction::Sleep(500));
    assert_eq!(wait_step(10, 60_000, Some(Some(503))), WaitAction::Sleep(500));
    assert_eq!(wait_step(10, 60_000, Some(None)), WaitAction::Sleep(500));
}

#[test]
fn indexing_an_upsert_runs_the_whole_pipeline() {
    let indexer = Indexer::new(80);
    let (job, action) = indexer.start(FileEvent::Upsert("n.txt".to_string()));
    assert!(matches!(action, IndexAction::Sleep(100)));
    let (job, action) = indexer.step(job, Outcome::Completed);
    assert!(matches!(&action, IndexAction::ReadFile(p) if p == "n.txt"));
    let content = format!("{}\n\n{}", "a".repeat(60), "b".repeat(60));
    let (job, action) = indexer.step(job, Outcome::FileRead(FileSource::Bytes(content.into_bytes())));
    assert!(matches!(&action, IndexAction::Embed(t) if *t == "a".repeat(60)));
    let (job, action) = indexer.step(job, Outcome::Completed);
    assert!(matches!(&action, IndexAction::Embed(t) if *t == "b".repeat(60)));
    let (job, action) = indexer.step(job, Outcome::Completed);
    assert!(matches!(&action, IndexAction::DeleteByPath(p) if p == "n.txt"));
    let (job, action) = indexer.step(job, Outcome::Completed);
    match &action {
        IndexAction::Insert(records) => {
            assert_eq!(records.len(), 2);
            assert_eq!(records[1].file_path, "n.txt");
            assert_eq!(records[1].content_snippet, "b".repeat(60));
            assert_eq!(records[0].id.len(), 36);
            assert_ne!(records[0].id, records[1].id);
        }
        _ => panic!("expected an insert"),
    }
    let (job, action) = indexer.step(job, Outcome::Completed);
    assert!(matches!(action, IndexAction::Finish));
    assert!(job.stage == Stage::Finished);
}

#[test]
fn a_failed_embedding_deletes_nothing() {
    let indexer = Indexer::new(80);
    let (job, _) = indexer.start(FileEvent::Upsert("n.txt".to_string()));
    let (job, _) = indexer.step(job, Outcome::Completed);
    let content = "a".repeat(60);
    let (job, action) = indexer.step(job, Outcome::FileRead(FileSource::Bytes(content.into_bytes())));
    assert!(matches!(&action, IndexAction::Embed(_)));
    let (job, action) = indexer.step(job, Outcome::Failed("server down".to_string()));
    assert!(matches!(&action, IndexAction::Fail(IndexError::Io(m)) if m == "server down"));
    assert!(job.stage == Stage::Finished);
}

#[test]
fn indexing_a_removal_and_a_failure() {
    let indexer = Indexer::new(80);
    let (job, action) = indexer.start(FileEvent::Remove("gone.md".to_string()));
    assert!(matches!(&action, IndexAction::DeleteByPath(p) if p == "gone.md"));
    let (_, action) = indexer.step(job, Outcome::Completed);
    assert!(matches!(action, IndexAction::Finish));
    let job = IndexJob { stage: Stage::Reading, path: "x.txt".to_string(), chunks: Vec::new(), next: 0 };
    let (_, action) = indexer.step(job, Outcome::Failed("denied".to_string()));
    assert!(matches!(&action, IndexAction::Fail(IndexError::Io(m)) if m == "denied"));
}

#[test]
fn a_file_without_chunks_loses_its_old_ones() {
    let indexer = Indexer::new(80);
    let (job, _) = indexer.start(FileEvent::Upsert("tiny.txt".to_string()));
    let (job, _) = indexer.step(job, Outcome::Completed);
    let (job, action) = indexer.step(job, Outcome::FileRead(FileSource::Bytes(b"short".to_vec())));
    assert!(matches!(&action, IndexAction::DeleteByPath(p) if p == "tiny.txt"));
    let (_, action) = indexer.step(job, Outcome::Completed);
    assert!(matches!(action, IndexAction::Finish));
}

#[test]
fn unreadable_files_fail_with_their_error() {
    let indexer = Indexer::new(80);
    let job = IndexJob { stage: Stage::Reading, path: "bad.txt".to_string(), chunks: Vec::new(), next: 0 };
    let (_, action) = indexer.step(job, Outcome::FileRead(FileSource::Bytes(vec![0xff])));
    assert!(matches!(action, IndexAction::Fail(IndexError::Chunk(ChunkError::InvalidUtf8))));
    let job = IndexJob { stage: Stage::Reading, path: "s.pdf".to_string(), chunks: Vec::new(), next: 0 };
    let (_, action) = indexer.step(job, Outcome::FileRead(FileSource::PdfText(Err("broken".to_string()))));
    assert!(matches!(&action, IndexAction::Fail(IndexError::Chunk(ChunkError::PdfExtraction(m))) if m == "broken"));
}
