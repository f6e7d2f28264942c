use embi_search::chunker::{
    chunk_file, extract_text, force_split, merge_and_split, path_kind, split_markdown_headings,
    split_paragraphs, split_sections, strip_html_tags, FileKind, FileSource,
};

fn visible(s: &str) -> String {
    s.chars().filter(|c| !c.is_whitespace()).collect()
}

fn sample_sections() -> Vec<String> {
    vec![
        "tiny".to_string(),
        "A first sentence here. A second one follows it. And a third, much longer sentence that keeps going well beyond the limit of the chunk size.".to_string(),
        "x y".to_string(),
        "Para one line.\n\nPara two is here.\n\n\n\nPara three has several words in it.".to_string(),
        "word ".repeat(30),
    ]
}

#[test]
fn merged_sections_stay_within_the_limit() {
    let sections = sample_sections();
    for max in [17usize, 40, 64, 200] {
        for piece in merge_and_split(sections.clone(), max) {
            assert!(piece.len() <= max, "{:?} longer than {}", piece, max);
        }
    }
}

#[test]
fn merging_and_splitting_loses_only_whitespace() {
    let sections = sample_sections();
    for max in [17usize, 40, 64, 200] {
        let merged = merge_and_split(sections.clone(), max);
        assert_eq!(visible(&merged.concat()), visible(&sections.concat()));
    }
    let pieces = force_split("Aa. Bb. Cc.", 8);
    assert_eq!(visible(&pieces.concat()), visible("Aa. Bb. Cc."));
}

#[test]
fn chunks_are_numbered_in_order_and_sized() {
    let text = format!("{}\n\n{}\n\nshort\n\n{}", "a ".repeat(40), "b".repeat(55), "c ".repeat(100));
    let chunks = chunk_file("t.txt", &FileSource::Bytes(text.into_bytes()), 120).unwrap();
    assert!(!chunks.is_empty());
    for w in chunks.windows(2) {
        assert!(w[0].chunk_index < w[1].chunk_index);
    }
    for c in &chunks {
        assert!(c.text.len() >= 50 && c.text.len() <= 120);
    }
}

#[test]
fn sections_are_non_empty_and_trimmed() {
    let text = "  one \n\n\n two\t\n\n   \n\nthree  ";
    for kind in [FileKind::Plain, FileKind::Markdown, FileKind::Pdf] {
        for s in split_sections(kind, text) {
            assert!(!s.is_empty());
            assert_eq!(s.trim(), s);
        }
    }
    assert_eq!(split_paragraphs(text), vec!["one", "two", "three"]);
    assert_eq!(split_markdown_headings("  \n# A b  \n"), vec!["# A b"]);
}

#[test]
fn kinds_follow_lowercased_extensions() {
    assert_eq!(path_kind("docs/Report.PDF"), FileKind::Pdf);
    assert_eq!(path_kind("README.Md"), FileKind::Markdown);
    assert_eq!(path_kind("index.htm"), FileKind::Html);
    assert_eq!(path_kind("index.HTML"), FileKind::Html);
    assert_eq!(path_kind("pdf"), FileKind::Plain);
    assert_eq!(path_kind(".md"), FileKind::Plain);
    assert_eq!(path_kind("C:\\Users\\u\\notes.MD"), FileKind::Markdown);
    assert_eq!(path_kind("C:\\notes.txt\\.md"), FileKind::Plain);
    assert_eq!(path_kind("a.pdf\\b"), FileKind::Plain);
}

#[test]
fn html_text_is_single_spaced_and_stripping_twice_changes_nothing() {
    for html in ["<h1> A \n title </h1>\n<p>one\t two</p><p> </p><p>three</p>", "a<p>b", " x>y <", ""] {
        let once = strip_html_tags(html);
        assert!(!once.contains('<') && !once.contains('>'));
        assert_eq!(once.trim(), once);
        assert!(!once.contains("  "));
        assert!(once.chars().all(|c| !c.is_whitespace() || c == ' '));
        assert_eq!(strip_html_tags(&once), once);
    }
    assert_eq!(split_sections(FileKind::Html, "<h1> A \n title </h1><p>one\t two</p>"), vec!["A title", "one two"]);
}

#[test]
fn pdf_text_is_taken_as_extracted() {
    let src = FileSource::PdfText(Ok("page one".to_string()));
    assert_eq!(extract_text(&src).unwrap(), "page one");
    assert!(extract_text(&FileSource::PdfText(Err("bad".to_string()))).is_err());
}

#[test]
fn plain_and_html_text_are_decoded() {
    let bytes = |b: &[u8]| FileSource::Bytes(b.to_vec());
    assert_eq!(extract_text(&bytes("héllo".as_bytes())).unwrap(), "héllo");
    assert_eq!(extract_text(&bytes(b"<b>hi</b>  there")).unwrap(), "<b>hi</b>  there");
    assert!(extract_text(&bytes(&[0xc3])).is_err());
}

#[test]
fn splitting_into_sections_keeps_every_word() {
    let text = "intro text\r\n# Head one\r\nbody  words\n\n## Two\nmore\x0cpage\n\n\npara";
    for kind in [FileKind::Plain, FileKind::Markdown, FileKind::Pdf] {
        let sections = split_sections(kind, text);
        assert_eq!(visible(&sections.concat()), visible(text));
    }
}
