use docrag::contents::File;
use docrag::contents::split_lines;

fn parsed(text: &str) -> Vec<String> {
    let mut f = File::new("doc.mdx".to_string(), text.to_string());
    f.parse();
    f.sentences
}

#[test]
fn new_file_is_unparsed() {
    let f = File::new("a.mdx".to_string(), "body\n".to_string());
    assert_eq!(f.path, "a.mdx");
    assert_eq!(f.contents, "body\n");
    assert!(f.sentences.is_empty());
}

#[test]
fn scenario_heading_and_two_paragraphs() {
    let chunks = parsed("# Title\n\nHello world.\n\nMore text.\n");
    assert_eq!(chunks, vec!["Hello world.\n".to_string(), "More text.\n".to_string()]);
}

#[test]
fn scenario_fenced_block_round_trips() {
    let chunks = parsed("```\ncode line\n```\n");
    assert_eq!(chunks, vec!["```\ncode line\n```\n".to_string()]);
}

#[test]
fn fenced_block_keeps_blank_lines_verbatim() {
    let text = "```\n\nlet x = 1;\n\n```\n";
    let chunks = parsed(text);
    assert_eq!(chunks, vec![text.to_string()]);
}

#[test]
fn fence_with_language_tag_opens_block() {
    let text = "```rust\nfn main() {}\n```\n";
    let chunks = parsed(text);
    assert_eq!(chunks, vec![text.to_string()]);
}

#[test]
fn unterminated_code_block_yields_no_chunk() {
    let chunks = parsed("Intro paragraph.\n\n```\ncode line\n");
    assert_eq!(chunks, vec!["Intro paragraph.\n".to_string()]);
}

#[test]
fn unterminated_paragraph_yields_no_chunk() {
    let chunks = parsed("First.\n\nSecond without newline");
    assert_eq!(chunks, vec!["First.\n".to_string()]);
}

#[test]
fn final_newline_terminates_a_paragraph() {
    let chunks = parsed("Only line.\n");
    assert_eq!(chunks, vec!["Only line.\n".to_string()]);
}

#[test]
fn front_matter_never_appears() {
    let chunks = parsed("---\ntitle: about\nauthor: someone\n---\nBody text.\n\n");
    assert_eq!(chunks, vec!["Body text.\n".to_string()]);
}

#[test]
fn headings_never_appear() {
    let chunks = parsed("# One\n## Two\nUnder the headings.\n\n### Three\n");
    assert_eq!(chunks, vec!["Under the headings.\n".to_string()]);
}

#[test]
fn paragraphs_never_hold_blank_lines() {
    let chunks = parsed("a\nb\n\nc\n\n\n\nd\n");
    assert_eq!(
        chunks,
        vec!["a\nb\n".to_string(), "c\n".to_string(), "d\n".to_string()]
    );
    for c in &chunks {
        assert!(!c.contains("\n\n"));
    }
}

#[test]
fn empty_document_has_no_chunks() {
    assert!(parsed("").is_empty());
    assert!(parsed("\n\n\n").is_empty());
}

#[test]
fn chunks_come_in_document_order() {
    let text = "first\n\n```\nmiddle\n```\nlast\n\n";
    let chunks = parsed(text);
    assert_eq!(
        chunks,
        vec![
            "first\n".to_string(),
            "```\nmiddle\n```\n".to_string(),
            "last\n".to_string()
        ]
    );
    // each chunk starts at increasing positions of the document
    let mut pos = 0;
    for c in &chunks {
        let at = text[pos..].find(c.as_str()).expect("chunk text in document") + pos;
        assert!(at >= pos);
        pos = at + c.len();
    }
}

#[test]
fn split_lines_matches_newline_separators() {
    let lines = split_lines("a\nb\n");
    assert_eq!(lines, vec!["a".to_string(), "b".to_string(), "".to_string()]);
    let lines = split_lines("");
    assert_eq!(lines, vec!["".to_string()]);
    let lines = split_lines("no newline");
    assert_eq!(lines, vec!["no newline".to_string()]);
}
