use wordbox::document::{Document, Frame, Glyph, Item, Page, Point, TextRun, Token};
use wordbox::extract::{document_is_valid, run_is_valid, words_with_boxes, PAGE_GAP};
use wordbox::geometry::{union_bbox, BBox};
use wordbox::tokenize::{is_ascii_punct, process_text_item};
use wordbox::walk::words_in_frame;

const ADV: i64 = 5_000_000;
const ASC: i64 = 8_000_000;
const DESC: i64 = -2_000_000;

/// One glyph per character, each `ADV` wide.
fn run_of(text: &str) -> TextRun {
    let mut glyphs = Vec::new();
    for (start, c) in text.char_indices() {
        glyphs.push(Glyph { start, end: start + c.len_utf8(), advance: ADV, offset: 0 });
    }
    TextRun { text: text.to_string(), glyphs, ascender: ASC, descender: DESC }
}

fn tokens(run: &TextRun, origin: Point, ws: bool, delims: bool) -> Vec<Token> {
    let mut words = Vec::new();
    process_text_item(&origin, run, &mut words, ws, delims);
    words
}

fn labels(ts: &[Token]) -> Vec<String> {
    ts.iter().map(|t| t.label.clone()).collect()
}

fn bx(x: i64, y: i64, width: i64, height: i64) -> BBox {
    BBox { x, y, width, height }
}

const ORIGIN: Point = Point { x: 0, y: 0 };

#[test]
fn hello_world_words_only() {
    let run = run_of("Hello, world!");
    let ts = tokens(&run, Point { x: 1_000_000, y: 20_000_000 }, false, false);
    assert_eq!(labels(&ts), vec!["Hello", "world"]);
    assert_eq!(ts[0].bbox, bx(1_000_000, 12_000_000, 5 * ADV, 10_000_000));
    assert_eq!(ts[1].bbox, bx(1_000_000 + 7 * ADV, 12_000_000, 5 * ADV, 10_000_000));
}

#[test]
fn hello_world_with_delimiters() {
    let run = run_of("Hello, world!");
    let ts = tokens(&run, ORIGIN, false, true);
    assert_eq!(labels(&ts), vec!["Hello", ",", "world", "!"]);
    assert_eq!(ts[1].bbox, bx(5 * ADV, -ASC, ADV, ASC - DESC));
    assert_eq!(ts[3].bbox, bx(12 * ADV, -ASC, ADV, ASC - DESC));
}

#[test]
fn hello_world_with_whitespace_only() {
    let run = run_of("Hello, world!");
    let ts = tokens(&run, ORIGIN, true, false);
    assert_eq!(labels(&ts), vec!["Hello", " ", "world"]);
    assert_eq!(ts[1].bbox, bx(6 * ADV, -ASC, ADV, ASC - DESC));
}

#[test]
fn hello_world_everything() {
    let run = run_of("Hello, world!");
    let ts = tokens(&run, ORIGIN, true, true);
    assert_eq!(labels(&ts), vec!["Hello", ",", " ", "world", "!"]);
}

#[test]
fn flags_leave_words_unchanged() {
    let run = run_of("a, b. c");
    let mut seen: Vec<Vec<(String, BBox)>> = Vec::new();
    for (ws, delims) in [(false, false), (false, true), (true, false), (true, true)] {
        let ts = tokens(&run, ORIGIN, ws, delims);
        let words: Vec<(String, BBox)> = ts
            .iter()
            .filter(|t| !t.label.chars().all(|c| c.is_whitespace() || c.is_ascii_punctuation()))
            .map(|t| (t.label.clone(), t.bbox))
            .collect();
        seen.push(words);
    }
    for w in &seen {
        assert_eq!(w, &seen[0]);
    }
    assert_eq!(seen[0].len(), 3);
}

#[test]
fn run_without_delimiters_is_one_word() {
    let run = run_of("Straße");
    let ts = tokens(&run, ORIGIN, true, true);
    assert_eq!(labels(&ts), vec!["Straße"]);
    assert_eq!(ts[0].bbox.width, 6 * ADV);
}

#[test]
fn uneven_advances_sum_into_width() {
    let text = "word";
    let glyphs = vec![
        Glyph { start: 0, end: 1, advance: 3, offset: 7 },
        Glyph { start: 1, end: 2, advance: 4, offset: 0 },
        Glyph { start: 2, end: 3, advance: 5, offset: 0 },
        Glyph { start: 3, end: 4, advance: 6, offset: 0 },
    ];
    let run = TextRun { text: text.to_string(), glyphs, ascender: 10, descender: -3 };
    let ts = tokens(&run, Point { x: 100, y: 50 }, false, false);
    assert_eq!(labels(&ts), vec!["word"]);
    assert_eq!(ts[0].bbox, bx(107, 40, 18, 13));
}

#[test]
fn whitespace_run_has_no_words() {
    let run = run_of(" \t ");
    assert!(tokens(&run, ORIGIN, false, true).is_empty());
    let ts = tokens(&run, ORIGIN, true, false);
    assert_eq!(labels(&ts), vec![" ", "\t", " "]);
    assert_eq!(ts[2].bbox, bx(2 * ADV, -ASC, ADV, ASC - DESC));
}

#[test]
fn multi_char_whitespace_glyph_is_one_token() {
    let text = "a  b";
    let glyphs = vec![
        Glyph { start: 0, end: 1, advance: 2, offset: 0 },
        Glyph { start: 1, end: 3, advance: 4, offset: 0 },
        Glyph { start: 3, end: 4, advance: 2, offset: 0 },
    ];
    let run = TextRun { text: text.to_string(), glyphs, ascender: 1, descender: 0 };
    let ts = tokens(&run, ORIGIN, true, false);
    assert_eq!(labels(&ts), vec!["a", "  ", "b"]);
    assert_eq!(ts[1].bbox, bx(2, -1, 4, 1));
    assert_eq!(ts[2].bbox, bx(6, -1, 2, 1));
}

#[test]
fn mixed_glyph_is_not_a_delimiter() {
    let text = "ab.cd";
    let glyphs = vec![
        Glyph { start: 0, end: 1, advance: 1, offset: 0 },
        Glyph { start: 1, end: 3, advance: 1, offset: 0 },
        Glyph { start: 3, end: 4, advance: 1, offset: 0 },
        Glyph { start: 4, end: 5, advance: 1, offset: 0 },
    ];
    let run = TextRun { text: text.to_string(), glyphs, ascender: 1, descender: 0 };
    assert_eq!(labels(&tokens(&run, ORIGIN, true, true)), vec!["ab.cd"]);
}

#[test]
fn empty_run_yields_nothing() {
    let run = TextRun { text: String::new(), glyphs: Vec::new(), ascender: 1, descender: 0 };
    assert!(tokens(&run, ORIGIN, true, true).is_empty());
}

#[test]
fn ascii_punctuation_classes() {
    for c in "!\"#$%&'()*+,-./:;<=>?@[\\]^_`{|}~".chars() {
        assert!(is_ascii_punct(c));
    }
    for c in ['a', 'Z', '0', ' ', '\u{2014}', '\u{bf}'] {
        assert!(!is_ascii_punct(c));
    }
}

#[test]
fn union_of_boxes() {
    let a = bx(0, 0, 10, 10);
    let b = bx(5, -5, 20, 3);
    assert_eq!(union_bbox(a, b), bx(0, -5, 25, 15));
    assert_eq!(union_bbox(a, a), a);
}

fn text_item(x: i64, y: i64, text: &str) -> (Point, Item) {
    (Point { x, y }, Item::Text(run_of(text)))
}

#[test]
fn group_of_adjacent_runs() {
    let nested = Frame { items: vec![text_item(0, 0, "Fig."), text_item(4 * ADV, 0, "1")] };
    let frame = Frame { items: vec![(Point { x: 10, y: 20 }, Item::Group(nested))] };
    let ts = words_in_frame(&frame, ORIGIN, false, true);
    assert_eq!(labels(&ts), vec!["Fig", ".", "1", "Fig.1"]);
    let fig = bx(10, 20 - ASC, 3 * ADV, ASC - DESC);
    let one = bx(10 + 4 * ADV, 20 - ASC, ADV, ASC - DESC);
    assert_eq!(ts[0].bbox, fig);
    assert_eq!(ts[2].bbox, one);
    assert_eq!(ts[3].bbox, union_bbox(union_bbox(fig, ts[1].bbox), one));
    assert_eq!(ts[3].bbox, bx(10, 20 - ASC, 5 * ADV, ASC - DESC));
}

#[test]
fn group_without_delimiters_joins_words() {
    let nested = Frame { items: vec![text_item(0, 0, "Fig."), text_item(4 * ADV, 0, "1")] };
    let frame = Frame { items: vec![(ORIGIN, Item::Group(nested))] };
    let ts = words_in_frame(&frame, ORIGIN, false, false);
    assert_eq!(labels(&ts), vec!["Fig", "1", "Fig1"]);
}

#[test]
fn tagged_region_and_nesting() {
    let inner = Frame { items: vec![text_item(0, 0, "b")] };
    let frame = Frame {
        items: vec![
            text_item(0, 0, "a"),
            (ORIGIN, Item::TagStart("heading".to_string())),
            text_item(0, 100, "x"),
            (Point { x: 50, y: 0 }, Item::Group(inner)),
            (ORIGIN, Item::Other),
            (ORIGIN, Item::TagEnd),
        ],
    };
    let ts = words_in_frame(&frame, ORIGIN, false, false);
    assert_eq!(labels(&ts), vec!["a", "x", "b", "xb"]);
    assert_eq!(ts[3].bbox, bx(0, -ASC, 50 + ADV, 100 + ASC - DESC));
}

#[test]
fn empty_group_and_stray_end_yield_nothing() {
    let frame = Frame {
        items: vec![
            (ORIGIN, Item::TagEnd),
            (ORIGIN, Item::Group(Frame { items: vec![(ORIGIN, Item::Other)] })),
            (ORIGIN, Item::TagStart("figure".to_string())),
            (ORIGIN, Item::TagEnd),
            text_item(0, 0, "z"),
        ],
    };
    let ts = words_in_frame(&frame, ORIGIN, true, true);
    assert_eq!(labels(&ts), vec!["z"]);
}

#[test]
fn unclosed_tag_yields_no_group() {
    let frame = Frame { items: vec![(ORIGIN, Item::TagStart("strong".to_string())), text_item(0, 0, "q")] };
    let ts = words_in_frame(&frame, ORIGIN, false, false);
    assert_eq!(labels(&ts), vec!["q"]);
}

fn two_page_document() -> Document {
    Document {
        pages: vec![
            Page { frame: Frame { items: vec![text_item(0, 10_000_000, "one")] }, height: 30_000_000 },
            Page { frame: Frame { items: vec![text_item(0, 10_000_000, "two")] }, height: 30_000_000 },
        ],
    }
}

#[test]
fn pages_are_stacked() {
    let doc = two_page_document();
    assert!(document_is_valid(&doc));
    let ts = words_with_boxes(&doc, false, false);
    assert_eq!(labels(&ts), vec!["one", "two"]);
    assert_eq!(ts[0].bbox.y, 10_000_000 - ASC);
    assert_eq!(ts[1].bbox.y, 30_000_000 + PAGE_GAP + 10_000_000 - ASC);
}

#[test]
fn extraction_is_deterministic() {
    let doc = two_page_document();
    let a = words_with_boxes(&doc, true, true);
    let b = words_with_boxes(&doc, true, true);
    assert_eq!(labels(&a), labels(&b));
    let boxes_a: Vec<BBox> = a.iter().map(|t| t.bbox).collect();
    let boxes_b: Vec<BBox> = b.iter().map(|t| t.bbox).collect();
    assert_eq!(boxes_a, boxes_b);
}

#[test]
fn malformed_runs_are_rejected() {
    let good = run_of("héllo");
    assert!(run_is_valid(&good, 0, 0));

    let mut split_char = run_of("héllo");
    split_char.glyphs[1].end = 2;
    assert!(!run_is_valid(&split_char, 0, 0));

    let mut past_end = run_of("abc");
    past_end.glyphs[2].end = 4;
    assert!(!run_is_valid(&past_end, 0, 0));

    let mut overlapping = run_of("abc");
    overlapping.glyphs[1].start = 0;
    assert!(!run_is_valid(&overlapping, 0, 0));

    let mut backwards = run_of("abc");
    backwards.glyphs[0] = Glyph { start: 1, end: 0, advance: 1, offset: 0 };
    assert!(!run_is_valid(&backwards, 0, 0));

    let mut negative = run_of("abc");
    negative.glyphs[0].advance = -1;
    assert!(!run_is_valid(&negative, 0, 0));

    let mut inverted = run_of("abc");
    inverted.ascender = -3_000_000;
    assert!(!run_is_valid(&inverted, 0, 0));
}

#[test]
fn oversized_coordinates_are_rejected() {
    let limit = wordbox::geometry::LIMIT;
    let run = run_of("abc");
    assert!(run_is_valid(&run, limit, 0));
    assert!(!run_is_valid(&run, limit + 1, 0));
    let mut wide = run_of("ab");
    wide.glyphs[0].advance = limit;
    wide.glyphs[1].advance = 1;
    assert!(!run_is_valid(&wide, 0, 0));

    let frame = Frame { items: vec![(Point { x: limit, y: 0 }, Item::Group(Frame { items: vec![text_item(1, 0, "a")] }))] };
    let doc = Document { pages: vec![Page { frame, height: 0 }] };
    assert!(!document_is_valid(&doc));

    let tall = Document { pages: vec![Page { frame: Frame { items: vec![] }, height: -1 }] };
    assert!(!document_is_valid(&tall));
}
