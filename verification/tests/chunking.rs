use embi_search::chunker::{
    chunk_file, force_split, merge_and_split, split_markdown_headings, split_paragraphs,
    split_pdf_pages, strip_html_tags, html_sections, ChunkError, FileSource,
};

fn bytes(s: &str) -> FileSource {
    FileSource::Bytes(s.as_bytes().to_vec())
}

fn strings(v: &[&str]) -> Vec<String> {
    v.iter().map(|s| s.to_string()).collect()
}

#[test]
fn paragraphs_are_trimmed_and_empty_ones_dropped() {
    assert_eq!(split_paragraphs("a\n\n b \n\n\n\nc"), strings(&["a", "b", "c"]));
    assert_eq!(split_paragraphs("  \n\n \t "), Vec::<String>::new());
    assert_eq!(split_paragraphs("one\ntwo"), strings(&["one\ntwo"]));
}

#[test]
fn pdf_pages_split_on_form_feeds() {
    assert_eq!(split_pdf_pages("p1\x0c p2 \x0c\x0c"), strings(&["p1", "p2"]));
}

#[test]
fn markdown_splits_on_headings() {
    let text = "intro\n# A b\ntext\n#NoSpace\n## C d\r\nmore\n";
    assert_eq!(
        split_markdown_headings(text),
        strings(&["intro", "# A b\ntext\n#NoSpace", "## C d\nmore"])
    );
    assert_eq!(split_markdown_headings("intro\n#tag line\nbody"), strings(&["intro\n#tag line\nbody"]));
    assert_eq!(split_markdown_headings("a\n### x\nb"), strings(&["a", "### x\nb"]));
    assert_eq!(split_markdown_headings("a\n#\nb"), strings(&["a\n#\nb"]));
}

#[test]
fn crlf_line_endings_are_read_as_lines() {
    assert_eq!(split_markdown_headings("# a\r\nb\r"), strings(&["# a\nb"]));
}

#[test]
fn html_tags_are_stripped_and_whitespace_collapsed() {
    assert_eq!(strip_html_tags("<p>Hello <b>world</b></p>\n<div>x</div>"), "Hello world x");
    assert_eq!(strip_html_tags("a<br>b"), "a b");
    assert_eq!(strip_html_tags("a<p>b"), "a b");
    assert_eq!(strip_html_tags(""), "");
    assert_eq!(strip_html_tags("x > y"), "x y");
}

#[test]
fn html_splits_on_paragraph_and_heading_tags() {
    assert_eq!(html_sections("<p>Hello <b>world</b></p>\n<div>x</div>"), strings(&["Hello world", "x"]));
    assert_eq!(html_sections("<H2 class=\"t\">Title</h2><P>Body  text</P>"), strings(&["Title", "Body text"]));
    assert_eq!(html_sections("<pre>a</pre><hr>b"), strings(&["a b"]));
    assert_eq!(html_sections("a<p>b"), strings(&["a", "b"]));
    assert_eq!(html_sections(" <p> </p> "), Vec::<String>::new());
}

#[test]
fn small_sections_are_merged() {
    let merged = merge_and_split(strings(&["a", "b"]), 100);
    assert_eq!(merged, strings(&["a\n\nb"]));
    // A section too large to merge closes the buffer and stands alone.
    let big = "x".repeat(40);
    let merged = merge_and_split(strings(&["a", &big, "b"]), 100);
    assert_eq!(merged, vec!["a".to_string(), big.clone(), "b".to_string()]);
}

#[test]
fn oversized_paragraph_is_hard_split_at_spaces() {
    assert_eq!(force_split("aaaa bbbb cccc", 10), strings(&["aaaa bbbb", "cccc"]));
    assert_eq!(force_split("abcdefghijkl", 5), strings(&["abcde", "fghij", "kl"]));
}

#[test]
fn oversized_paragraph_is_split_into_sentences() {
    assert_eq!(force_split("One two. Three four.", 12), strings(&["One two.", "Three four."]));
    assert_eq!(force_split("Aa. Bb. Cc.", 8), strings(&["Aa. Bb.", "Cc."]));
}

#[test]
fn paragraphs_are_regathered_up_to_the_limit() {
    assert_eq!(force_split("aa\n\nbb\n\ncc", 6), strings(&["aa\n\nbb", "cc"]));
}

#[test]
fn hard_cuts_fall_between_characters() {
    assert_eq!(force_split("ééé", 3), strings(&["é", "é", "é"]));
    assert_eq!(force_split("ééééé", 4), strings(&["éé", "éé", "é"]));
    assert_eq!(force_split("éé", 1), strings(&["é", "é"]));
    assert_eq!(force_split("ab", 0), strings(&["a", "b"]));
    assert_eq!(merge_and_split(strings(&["ab"]), 0), strings(&["a", "b"]));
    assert_eq!(merge_and_split(strings(&["ééééé"]), 3), strings(&["é", "é", "é", "é", "é"]));
}

#[test]
fn chunk_file_numbers_sections_and_drops_short_ones() {
    let long1 = "L".repeat(60);
    let long2 = "M".repeat(70);
    let content = format!("{}\n\nshort\n\n{}", long1, long2);
    let chunks = chunk_file("dir/notes.txt", &bytes(&content), 80).unwrap();
    assert_eq!(chunks.len(), 2);
    assert_eq!(chunks[0].text, long1);
    assert_eq!(chunks[0].chunk_index, 0);
    assert_eq!(chunks[1].text, long2);
    assert_eq!(chunks[1].chunk_index, 2);
}

#[test]
fn chunk_file_reads_html_and_markdown() {
    let body = "word ".repeat(12);
    let html = format!("<html><body><p>{}</p></body></html>", body);
    let chunks = chunk_file("page.HTM", &bytes(&html), 1000).unwrap();
    assert_eq!(chunks.len(), 1);
    assert_eq!(chunks[0].text, body.trim());
    let md = format!("# Title here\n{}\n# Next one\n{}", body, body);
    let chunks = chunk_file("doc.md", &bytes(&md), 1000).unwrap();
    assert_eq!(chunks.len(), 1);
    assert!(chunks[0].text.starts_with("# Title here"));
    assert!(chunks[0].text.contains("\n\n# Next one"));
}

#[test]
fn chunk_file_errors() {
    match chunk_file("a.txt", &FileSource::Bytes(vec![0xff, 0xfe]), 100) {
        Err(ChunkError::InvalidUtf8) => {}
        other => panic!("unexpected {:?}", other.map(|v| v.len())),
    }
    match chunk_file("scan.PDF", &FileSource::PdfText(Err("no xref".to_string())), 100) {
        Err(ChunkError::PdfExtraction(m)) => assert_eq!(m, "no xref"),
        other => panic!("unexpected {:?}", other.map(|v| v.len())),
    }
}

#[test]
fn html_paragraphs_become_separate_chunks() {
    let a = "alpha ".repeat(10).trim().to_string() + "!";
    let b = "beta! ".repeat(10).trim().to_string() + "?";
    let a = &a[..60.min(a.len())];
    let b = &b[..60.min(b.len())];
    let html = format!("<p>{}</p><p>{}</p>", a, b);
    let chunks = chunk_file("page.html", &bytes(&html), 200).unwrap();
    assert_eq!(chunks.len(), 2);
    assert_eq!(chunks[0].text, a.trim());
    assert_eq!(chunks[1].text, b.trim());
    assert_eq!(chunks[1].chunk_index, 1);
}

#[test]
fn pdf_pages_come_from_the_extracted_text() {
    let page1 = "P".repeat(55);
    let page2 = "Q".repeat(56);
    let text = format!("{}\x0c{}", page1, page2);
    let chunks = chunk_file("x.Pdf", &FileSource::PdfText(Ok(text)), 100).unwrap();
    assert_eq!(chunks.len(), 2);
    assert_eq!(chunks[0].text, page1);
    assert_eq!(chunks[1].text, page2);
}
