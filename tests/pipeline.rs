use kepub::chapters::{ConfigError, PdfProcessor};
use kepub::extract::{ExtractError, PageSource, Step, Strategy};

const HEADING: &str = r"(?i)^(chapter|ch\.?)\s*\d+";

fn processor(min: usize, max_pages: usize, clean: bool) -> PdfProcessor {
    PdfProcessor::new(HEADING, min, max_pages, clean).expect("valid pattern")
}

fn strings(v: &[&str]) -> Vec<String> {
    v.iter().map(|s| s.to_string()).collect()
}

#[test]
fn form_feed_segmentation() {
    let p = processor(500, 0, true);
    assert_eq!(p.intelligent_page_splitting("A\x0CB\x0CC"), vec!["A", "B", "C"]);
}

#[test]
fn single_form_feed_piece_is_not_enough() {
    let p = processor(500, 0, true);
    assert_eq!(p.intelligent_page_splitting("  A  \x0C   "), vec!["A"]);
}

#[test]
fn max_pages_split_into_parts() {
    let p = processor(5, 2, true);
    let pages = strings(&[
        "Chapter 1\nIntro text here",
        "More text on page 1",
        "More text on page 2",
        "More text on page 3",
        "More text on page 4",
    ]);
    let chapters = p.detect_chapters(&pages);
    assert_eq!(chapters.len(), 3);
    let titles: Vec<&str> = chapters.iter().map(|c| c.title.as_str()).collect();
    assert_eq!(titles, vec!["Chapter 1 (Part 1)", "Chapter 1 (Part 2)", "Chapter 1 (Part 3)"]);
    let ranges: Vec<(usize, usize)> = chapters.iter().map(|c| (c.page_start, c.page_end)).collect();
    assert_eq!(ranges, vec![(0, 1), (2, 3), (4, 4)]);
    assert_eq!(chapters[0].content, "Intro text here\nMore text on page 1");
    assert_eq!(chapters[1].content, "More text on page 2\nMore text on page 3");
    assert_eq!(chapters[2].content, "More text on page 4");
}

#[test]
fn fallback_full_document() {
    let p = processor(10, 0, true);
    let pages = strings(&["Some intro text", "More text"]);
    let chapters = p.detect_chapters(&pages);
    assert_eq!(chapters.len(), 1);
    assert_eq!(chapters[0].title, "Full Document");
    assert_eq!(chapters[0].content, "Some intro text\n\nMore text");
    assert_eq!(chapters[0].page_start, 0);
    assert_eq!(chapters[0].page_end, 1);
}

#[test]
fn fallback_too_short_gives_nothing() {
    let p = processor(500, 0, true);
    assert!(p.detect_chapters(&strings(&["ab"])).is_empty());
}

#[test]
fn short_chapter_is_dropped() {
    let p = processor(20, 0, true);
    let pages = strings(&["Chapter 1\nshort", "Chapter 2\nThis chapter has enough content to pass."]);
    let chapters = p.detect_chapters(&pages);
    assert_eq!(chapters.len(), 1);
    assert_eq!(chapters[0].title, "Chapter 2");
    assert_eq!(chapters[0].content, "This chapter has enough content to pass.");
    assert_eq!((chapters[0].page_start, chapters[0].page_end), (1, 1));
}

#[test]
fn chapters_are_ordered_and_long_enough() {
    let p = processor(10, 0, false);
    let pages = strings(&[
        "Preface page",
        "Chapter 1\nFirst chapter body",
        "continued text of chapter one",
        "Ch. 2 Second\nSecond chapter body",
        "Chapter 3\nx",
    ]);
    let chapters = p.detect_chapters(&pages);
    assert_eq!(chapters.len(), 2);
    for c in &chapters {
        assert!(c.page_start <= c.page_end);
        assert!(c.content.chars().count() >= 10);
    }
    assert!(chapters[0].page_start <= chapters[1].page_start);
    assert_eq!((chapters[0].page_start, chapters[0].page_end), (1, 2));
    assert_eq!(chapters[0].content, "First chapter body\ncontinued text of chapter one");
    assert_eq!(chapters[1].title, "Ch. 2 Second");
}

#[test]
fn heading_only_in_first_ten_lines() {
    let p = processor(1, 0, true);
    let mut page = String::new();
    for i in 0..10 {
        page.push_str(&format!("line {}\n", i));
    }
    page.push_str("Chapter 9\nbody");
    let chapters = p.detect_chapters(&vec![page.clone()]);
    assert_eq!(chapters.len(), 1);
    assert_eq!(chapters[0].title, "Full Document");
}

#[test]
fn invalid_pattern_is_refused() {
    assert_eq!(
        PdfProcessor::new("(unclosed", 500, 0, true).err(),
        Some(ConfigError::InvalidPattern)
    );
}

#[test]
fn readability_filter() {
    let p = processor(500, 0, true);
    assert!(p.is_likely_readable_text("Hello, World!"));
    assert!(!p.is_likely_readable_text("\x01\x02\x03\x04\x05\x06\x07\x08\x0e\x0f"));
    assert!(!p.is_likely_readable_text("a"));
    assert!(!p.is_likely_readable_text(""));
    // 7 of 10 readable is not more than 70%
    assert!(!p.is_likely_readable_text("abcdefg###"));
    assert!(p.is_likely_readable_text("abcdefgh##"));
}

#[test]
fn escape_decoding() {
    let p = processor(500, 0, true);
    assert_eq!(
        p.clean_pdf_text_content("a\\(b\\)c\\\\d\\ne\\rf\\tg"),
        "a(b)c\\d\ne\rf\tg"
    );
    assert_eq!(p.clean_pdf_text_content("\\101\\102C"), "ABC");
    assert_eq!(p.clean_pdf_text_content("  x\\y  "), "xy");
}

#[test]
fn content_stream_text() {
    let p = processor(500, 0, true);
    let stream = b"(Outside) Tj BT /F1 12 Tf 72 712 Td (Hello) Tj [(Wor) -20 (ld)] TJ ET";
    assert_eq!(p.parse_pdf_content_stream(stream), "Hello World ");
    let nested = b"BT (a\\(b\\) (c)) Tj ET";
    assert_eq!(p.parse_pdf_content_stream(nested), "a(b) (c) ");
    assert_eq!(p.parse_pdf_content_stream(b"q 1 0 0 1 0 0 cm Q"), "");
}

#[test]
fn content_stream_invalid_utf8_is_replaced() {
    let p = processor(500, 0, true);
    assert_eq!(p.parse_pdf_content_stream(b"BT (a\xffb) Tj ET"), "a\u{fffd}b ");
}

#[test]
fn raw_text_from_bytes() {
    let p = processor(500, 0, true);
    let bytes = b"xx (Hello World) yy <48656C6C6F> (\x01\x02\x03) zz";
    assert_eq!(p.extract_raw_text_content(bytes), "Hello World Hello ");
    assert_eq!(p.extract_raw_text_content(b"<> <zz> (a)"), "");
}

#[test]
fn hex_decoding() {
    let p = processor(500, 0, true);
    assert_eq!(p.decode_hex_string("48 65 6C"), "Hel");
    assert_eq!(p.decode_hex_string("0001"), "");
    assert_eq!(p.decode_hex_string("41424"), "AB");
}

#[test]
fn character_budget_even_text() {
    let p = processor(500, 0, true);
    let text = "x".repeat(10000);
    let pages = p.character_based_splitting(&text);
    assert_eq!(pages.len(), 4);
    for page in &pages {
        assert_eq!(page.chars().count(), 2500);
    }
    assert_eq!(pages.concat(), text);
}

#[test]
fn character_budget_paragraph_break() {
    let p = processor(500, 0, true);
    let text = format!("{}\n\n{}", "a".repeat(2400), "b".repeat(2000));
    let pages = p.character_based_splitting(&text);
    assert_eq!(pages, vec!["a".repeat(2400), "b".repeat(2000)]);
}

#[test]
fn character_budget_sentence_end() {
    let p = processor(500, 0, true);
    let text = format!("{}. {}", "a".repeat(2550), "b".repeat(1000));
    let pages = p.character_based_splitting(&text);
    assert_eq!(pages, vec![format!("{}.", "a".repeat(2550)), "b".repeat(1000)]);
}

#[test]
fn character_budget_never_exceeds_cap() {
    let p = processor(500, 0, true);
    let text = format!("{}\n\n{}", "w ".repeat(3000), "z".repeat(9000));
    let pages = p.character_based_splitting(&text);
    assert!(!pages.is_empty());
    for page in &pages {
        assert!(page.chars().count() <= 4000);
        assert!(!page.trim().is_empty());
    }
}

#[test]
fn content_based_split() {
    let p = processor(500, 0, true);
    let mut lines: Vec<String> = (0..50).map(|i| format!("this is a long enough line {}", i)).collect();
    lines[41] = "short".to_string();
    let text = lines.join("\n");
    let pages = p.content_based_page_splitting(&text);
    assert_eq!(pages.len(), 2);
    assert_eq!(pages[0], lines[..42].join("\n"));
    assert_eq!(pages[1], lines[42..].join("\n"));
}

#[test]
fn content_based_forced_at_eighty_lines() {
    let p = processor(500, 0, true);
    let lines: Vec<String> = (0..100).map(|i| format!("this is a long enough line {}", i)).collect();
    let pages = p.content_based_page_splitting(&lines.join("\n"));
    assert_eq!(pages.len(), 2);
    assert_eq!(pages[0], lines[..80].join("\n"));
}

#[test]
fn content_based_short_text_stays_whole() {
    let p = processor(500, 0, true);
    assert_eq!(p.content_based_page_splitting("a\nb"), vec!["a\nb"]);
}

#[test]
fn structural_marker_split() {
    let p = processor(500, 0, true);
    let text = "intro\nChapter 1 a\nChapter 2 b\nChapter 3 c";
    let pages = p.split_by_structural_markers(text, &vec![6, 18, 30]);
    assert_eq!(pages, vec!["Chapter 1 a", "Chapter 2 b", "Chapter 3 c"]);
    assert_eq!(p.split_by_structural_markers("  body ", &vec![]), vec!["body"]);
}

#[test]
fn page_indicator_split() {
    let p = processor(500, 0, true);
    assert_eq!(p.split_by_pattern("page 1 foo page 2 bar", r"(?i)page\s+\d+"), vec!["foo", "bar"]);
    assert_eq!(
        p.intelligent_page_splitting("Intro Page 1 foo page 2 bar"),
        vec!["Intro", "foo", "bar"]
    );
    assert_eq!(p.split_by_pattern("keep", "(bad"), vec!["keep"]);
}

#[test]
fn clean_text() {
    let p = processor(500, 0, true);
    assert_eq!(p.clean_text_content("a  b\r\n\n\n\nc \n d"), "a b\n\nc \nd");
    let raw = processor(500, 0, false);
    assert_eq!(raw.clean_text_content("  a\r\n "), "  a\r\n ");
}

#[test]
fn page_texts_with_placeholders() {
    let p = processor(500, 0, true);
    let pages = vec![
        PageSource::Contents { streams: vec![b"BT (Hi) Tj ET".to_vec()], annotations: vec![] },
        PageSource::Contents { streams: vec![b"q Q".to_vec()], annotations: vec!["Note".to_string()] },
        PageSource::Contents { streams: vec![], annotations: vec![] },
        PageSource::Unreadable("bad object".to_string()),
    ];
    let texts = p.extract_pages(&pages).unwrap();
    assert_eq!(
        texts,
        vec![
            "Hi ",
            "Note\n",
            "[Page 3 - No extractable text]",
            "[Page 4 - Text extraction failed: bad object]",
        ]
    );
    assert!(matches!(p.extract_pages(&vec![]), Err(ExtractError::NoPages)));
    let unreadable = vec![
        PageSource::Unreadable("a".to_string()),
        PageSource::Unreadable("b".to_string()),
    ];
    assert!(matches!(p.extract_pages(&unreadable), Err(ExtractError::NoReadablePage)));
}

#[test]
fn streams_are_joined_in_order() {
    let p = processor(500, 0, true);
    let streams = vec![b"BT (one) Tj".to_vec(), b"(two) Tj ET".to_vec()];
    assert_eq!(p.extract_page_text(&streams, &vec![]), "one two ");
}

#[test]
fn full_text_acceptance() {
    let p = processor(500, 0, true);
    assert!(matches!(p.pages_from_full_text(" \n\t "), Err(ExtractError::NoText)));
    assert_eq!(p.pages_from_full_text("A\x0CB").unwrap(), vec!["A", "B"]);
}

#[test]
fn strategies_in_order() {
    assert!(matches!(Step::first(), Step::Run(Strategy::PageLevel)));
    assert!(matches!(
        Step::after(Strategy::PageLevel, Err(ExtractError::NoPages)),
        Step::Run(Strategy::WholeText)
    ));
    assert!(matches!(
        Step::after(Strategy::WholeText, Ok(vec![])),
        Step::Run(Strategy::RawBytes)
    ));
    assert!(matches!(Step::after(Strategy::RawBytes, Err(ExtractError::NoText)), Step::Fail));
    match Step::after(Strategy::WholeText, Ok(vec!["p".to_string()])) {
        Step::Done(pages) => assert_eq!(pages, vec!["p"]),
        _ => panic!("pages were found"),
    }
}

fn chapter(title: &str, content: &str, start: usize, end: usize) -> kepub::chapters::Chapter {
    kepub::chapters::Chapter {
        title: title.to_string(),
        content: content.to_string(),
        page_start: start,
        page_end: end,
    }
}

#[test]
fn plain_text_book() {
    let g = kepub::render::EbookGenerator;
    let chapters = vec![chapter("One", "First.", 0, 1), chapter("Two b", "Second.", 2, 2)];
    let txt = g.render_txt("My Book", "Ann", &chapters, true, true);
    let expected = format!(
        "MY BOOK\nby Ann\n{}\n\nTABLE OF CONTENTS\n{}\n\n1. One\n2. Two b\n\n\n\
         \n\nCHAPTER 1: ONE\n{}\nPages: 1 - 2\n\nFirst.\n\n\
         \n\nCHAPTER 2: TWO B\n{}\nPages: 3 - 3\n\nSecond.\n\n",
        "=".repeat(60),
        "-".repeat(20),
        "=".repeat(60),
        "=".repeat(60)
    );
    assert_eq!(txt, expected);
    let bare = g.render_txt("t", "a", &vec![], false, false);
    assert_eq!(bare, format!("T\nby a\n{}\n\n", "=".repeat(60)));
}

#[test]
fn html_paragraphs() {
    let g = kepub::render::EbookGenerator;
    assert_eq!(
        g.paragraphs_html("  a < b & c\nd > e \n\n \n\nsecond", "  "),
        "  <p>a &lt; b &amp; c<br/>d &gt; e</p>\n  <p>second</p>\n"
    );
    assert_eq!(g.paragraphs_html("", "x"), "");
}

#[test]
fn empty_last_part_is_not_kept() {
    let p = PdfProcessor::new(r"^Chapter \d+", 0, 2, true).unwrap();
    let pages = strings(&["Chapter 1\naaa", "bbb", "ccc", "ddd"]);
    let chapters = p.detect_chapters(&pages);
    let ranges: Vec<(usize, usize)> = chapters.iter().map(|c| (c.page_start, c.page_end)).collect();
    assert_eq!(ranges, vec![(0, 1), (2, 3)]);
    let titles: Vec<&str> = chapters.iter().map(|c| c.title.as_str()).collect();
    assert_eq!(titles, vec!["Chapter 1 (Part 1)", "Chapter 1 (Part 2)"]);
}

#[test]
fn empty_part_before_heading_is_not_kept() {
    let p = PdfProcessor::new(r"^Chapter \d+", 0, 1, true).unwrap();
    let pages = strings(&["Chapter 1\nx", "Chapter 2\ny"]);
    let chapters = p.detect_chapters(&pages);
    for c in &chapters {
        assert!(c.page_start <= c.page_end);
        assert!(c.page_end < pages.len());
    }
    let ranges: Vec<(usize, usize)> = chapters.iter().map(|c| (c.page_start, c.page_end)).collect();
    assert_eq!(ranges, vec![(0, 0), (1, 1)]);
}

#[test]
fn minimum_length_is_of_stored_content() {
    let p = processor(4, 0, true);
    // "\nabc" before cleaning, "abc" once cleaned: too short
    let chapters = p.detect_chapters(&strings(&["Chapter 1\n\nabc"]));
    assert_eq!(chapters.len(), 1);
    assert_eq!(chapters[0].title, "Full Document");
    assert_eq!(chapters[0].content, "Chapter 1\n\nabc");
    let kept = p.detect_chapters(&strings(&["Chapter 1\n\nabcd"]));
    assert_eq!(kept.len(), 1);
    assert_eq!(kept[0].content, "abcd");
}

#[test]
fn short_forced_part_is_dropped() {
    let p = processor(10, 1, true);
    let pages = strings(&["Chapter 1\nlong enough text", "x", "another long page"]);
    let chapters = p.detect_chapters(&pages);
    let titles: Vec<&str> = chapters.iter().map(|c| c.title.as_str()).collect();
    assert_eq!(titles, vec!["Chapter 1 (Part 1)", "Chapter 1 (Part 3)"]);
    for c in &chapters {
        assert!(c.content.chars().count() >= 10);
        assert_eq!(c.page_start, c.page_end);
    }
}

#[test]
fn no_pages_no_chapters() {
    let p = processor(0, 0, true);
    assert!(p.detect_chapters(&vec![]).is_empty());
}

#[test]
fn lone_numeric_lines_split_pages() {
    let p = PdfProcessor::new(r"^Chapter \d+", 500, 0, true).unwrap();
    assert_eq!(p.intelligent_page_splitting("Alpha\n1\nBeta\n2\nGamma"), vec!["Alpha", "Beta", "Gamma"]);
}

#[test]
fn structural_markers_at_line_starts() {
    let p = PdfProcessor::new(r"^Chapter \d+", 500, 0, true).unwrap();
    assert_eq!(
        p.intelligent_page_splitting("Chapter 1\nAlpha\nChapter 2\nBeta\nChapter 3\nGamma"),
        vec!["Chapter 1\nAlpha", "Chapter 2\nBeta", "Chapter 3\nGamma"]
    );
}

#[test]
fn line_pieces_are_trimmed_and_not_blank() {
    let p = processor(500, 0, true);
    let mut lines: Vec<String> = (0..40).map(|i| format!("  indented line number {}  ", i)).collect();
    lines.extend((0..45).map(|_| "   ".to_string()));
    lines.push("tail text".to_string());
    let pages = p.content_based_page_splitting(&lines.join("\n"));
    assert!(!pages.is_empty());
    for page in &pages {
        assert!(!page.is_empty());
        assert_eq!(page.as_str(), page.trim());
    }
    assert_eq!(pages.last().unwrap(), "tail text");
    for page in p.intelligent_page_splitting(&lines.join("\n")) {
        assert!(!page.is_empty());
        assert_eq!(page.as_str(), page.trim());
    }
    assert!(p.intelligent_page_splitting(" \n \t ").is_empty());
}

#[test]
fn escaped_backslash_stays_a_backslash() {
    let p = processor(500, 0, true);
    assert_eq!(p.clean_pdf_text_content("a\\\\nb"), "a\\nb");
    assert_eq!(p.clean_pdf_text_content("\\(x\\)\\t\\\\"), "(x)\t\\");
}

#[test]
fn fallback_measures_joined_pages() {
    let p = processor(10, 0, true);
    let page = format!("a{}b", " ".repeat(20));
    let chapters = p.detect_chapters(&vec![page]);
    assert_eq!(chapters.len(), 1);
    assert_eq!(chapters[0].title, "Full Document");
    assert_eq!(chapters[0].content, "a b");
    assert_eq!((chapters[0].page_start, chapters[0].page_end), (0, 0));
}

#[test]
fn full_text_with_content_is_accepted() {
    let p = processor(500, 0, true);
    let pages = p.pages_from_full_text("  one page of text  ").unwrap();
    assert_eq!(pages, vec!["one page of text"]);
}
