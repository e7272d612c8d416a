use docrag::contents::File;
use docrag::finder::get_contents;
use docrag::llm::build_prompt;
use docrag::llm::completion_fragment;
use docrag::llm::error_stream_contents;
use docrag::pipeline::answer_context;
use docrag::vector::EmbeddingVector;
use docrag::vector::Payload;
use docrag::vector::SearchResult;
use docrag::vector::VectorDB;

fn corpus() -> Vec<File> {
    let mut a = File::new(
        "guide.mdx".to_string(),
        "# Guide\n\nHello world.\n\nMore text.\n".to_string(),
    );
    a.parse();
    let mut b = File::new("setup.mdx".to_string(), "Install the tool.\n".to_string());
    b.parse();
    vec![a, b]
}

fn payload(path: &str, text: &str) -> Payload {
    Payload { source_path: path.to_string(), text: text.to_string() }
}

#[test]
fn get_contents_resolves_a_chunk() {
    let files = corpus();
    let hit = SearchResult { id: 1, score: 3, payload: payload("guide.mdx", "Hello world.\n") };
    assert_eq!(get_contents(&files, &hit), Some("Hello world.\n".to_string()));
}

#[test]
fn get_contents_rejects_unknown_path() {
    let files = corpus();
    let hit = SearchResult { id: 1, score: 3, payload: payload("gone.mdx", "Hello world.\n") };
    assert_eq!(get_contents(&files, &hit), None);
}

#[test]
fn get_contents_rejects_unknown_text() {
    let files = corpus();
    let hit = SearchResult { id: 1, score: 3, payload: payload("guide.mdx", "# Guide\n") };
    assert_eq!(get_contents(&files, &hit), None);
}

#[test]
fn scenario_query_matches_one_chunk() {
    let files = corpus();
    let mut db = VectorDB::new();
    db.upsert_embedding(EmbeddingVector {
        id: 1,
        values: vec![1, 0],
        payload: payload("guide.mdx", "Hello world.\n"),
    });
    db.upsert_embedding(EmbeddingVector {
        id: 2,
        values: vec![0, 1],
        payload: payload("setup.mdx", "Install the tool.\n"),
    });
    let ctx = answer_context(&files, &db, &vec![10, 1]).expect("a context");
    assert_eq!(ctx.text, "Hello world.\n");
    assert_eq!(ctx.source_path, "guide.mdx");
}

#[test]
fn scenario_empty_index_yields_no_context() {
    let files = corpus();
    let db = VectorDB::new();
    let r = answer_context(&files, &db, &vec![10, 1]);
    assert!(r.is_err());
}

#[test]
fn stale_index_yields_no_context() {
    let files = corpus();
    let mut db = VectorDB::new();
    db.upsert_embedding(EmbeddingVector {
        id: 9,
        values: vec![1],
        payload: payload("removed.mdx", "Old chunk.\n"),
    });
    let r = answer_context(&files, &db, &vec![1]);
    assert!(r.is_err());
}

#[test]
fn prompt_is_question_context_and_instruction() {
    let p = build_prompt("What is this?", "Hello world.\n");
    assert_eq!(p, "What is this?\nContext: Hello world.\n\nBe concise.");
}

#[test]
fn fragment_concatenates_choice_contents() {
    let f = completion_fragment(&vec![Some("Hel".to_string()), Some("lo".to_string())]);
    assert_eq!(f, "Hello");
}

#[test]
fn fragment_keeps_a_newline_for_empty_choices() {
    let f = completion_fragment(&vec![Some("line".to_string()), None]);
    assert_eq!(f, "line\n");
    assert_eq!(completion_fragment(&vec![None]), "\n");
    assert_eq!(completion_fragment(&vec![]), "");
}

#[test]
fn scenario_failed_stream_is_one_fixed_message() {
    let fragments = error_stream_contents();
    assert_eq!(fragments, vec!["Error with your prompt".to_string()]);
}
