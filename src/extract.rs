use vstd::prelude::*;
use vstd::string::*;
use crate::geometry::{in_limit, LIMIT};
use crate::document::{Document, Frame, Item, Page, Point, TextRun, Token, TokenModel, view_tokens};
use crate::tokenize::{cursor, glyph_valid, lemma_cursor_monotone, run_valid, text_bytes};
use crate::walk::{frame_tokens, items_valid, lemma_items_valid_prefix, words_in_frame};

verus! {

/// The vertical gap between two stacked pages: one point.
pub const PAGE_GAP: i64 = 1000000;

/// The top of page `k` when the pages are stacked downwards, one gap apart.
pub open spec fn page_top(pages: Seq<Page>, k: int) -> int
    decreases k,
{
    if k <= 0 {
        0
    } else {
        page_top(pages, k - 1) + pages[k - 1].height + PAGE_GAP
    }
}

/// Page `k` has a bounded height and top and valid contents.
pub open spec fn page_valid(pages: Seq<Page>, k: int) -> bool {
    &&& 0 <= pages[k].height <= LIMIT
    &&& in_limit(page_top(pages, k))
    &&& items_valid(pages[k].frame.items@, 0, page_top(pages, k))
}

/// A document whose pages are all valid.
pub open spec fn document_valid(doc: Document) -> bool {
    forall|k: int| 0 <= k < doc.pages@.len() ==> #[trigger] page_valid(doc.pages@, k)
}

/// The tokens of the first `k` pages, each placed at its top.
pub open spec fn tokens_upto(pages: Seq<Page>, k: int, ws: bool, delims: bool) -> Seq<TokenModel>
    decreases k,
{
    if k <= 0 {
        seq![]
    } else {
        tokens_upto(pages, k - 1, ws, delims) + frame_tokens(pages[k - 1].frame, 0, page_top(pages, k - 1), ws, delims)
    }
}

/// The tokens of a whole document, page after page.
pub open spec fn document_tokens(doc: Document, ws: bool, delims: bool) -> Seq<TokenModel> {
    tokens_upto(doc.pages@, doc.pages@.len() as int, ws, delims)
}

/// All tokens of a document, pages stacked downwards one gap apart.
pub fn words_with_boxes(document: &Document, include_whitespace: bool, include_delimiters: bool) -> (r: Vec<Token>)
    requires
        document_valid(*document),
    ensures
        view_tokens(r@) == document_tokens(*document, include_whitespace, include_delimiters),
{
    let ghost pages = document.pages@;
    let mut out: Vec<Token> = Vec::new();
    let mut top: i64 = 0;
    let mut i: usize = 0;
    while i < document.pages.len()
        invariant
            pages == document.pages@,
            document_valid(*document),
            i <= pages.len(),
            top == page_top(pages, i as int),
            view_tokens(out@) == tokens_upto(pages, i as int, include_whitespace, include_delimiters),
        decreases pages.len() - i,
    {
        assert(page_valid(pages, i as int));
        let page = &document.pages[i];
        let mut words = words_in_frame(&page.frame, Point { x: 0, y: top }, include_whitespace, include_delimiters);
        let ghost prev = out@;
        out.append(&mut words);
        proof {
            assert(view_tokens(out@) =~= view_tokens(prev) + frame_tokens(pages[i as int].frame, 0, top as int, include_whitespace, include_delimiters));
        }
        top = top + page.height + PAGE_GAP;
        i = i + 1;
    }
    out
}

// ---------------------------------------------------------------------------
// Validation
// ---------------------------------------------------------------------------

/// Whether `run`, placed at `(ox, oy)`, is valid.
pub fn run_is_valid(run: &TextRun, ox: i64, oy: i64) -> (r: bool)
    ensures
        r == run_valid(*run, ox as int, oy as int),
{
    if ox < -LIMIT || ox > LIMIT || oy < -LIMIT || oy > LIMIT {
        return false;
    }
    if run.ascender < -LIMIT || run.ascender > LIMIT || run.descender < -LIMIT || run.descender > LIMIT {
        return false;
    }
    if run.descender > run.ascender {
        return false;
    }
    let text = run.text.as_str();
    let ghost bytes = text_bytes(*run);
    assert(text.spec_bytes() == bytes);
    proof {
        vstd::utf8::encode_utf8_valid_utf8(run.text@);
    }
    let ghost g = run.glyphs@;
    let n = run.glyphs.len();
    let mut cur: i64 = 0;
    let mut i: usize = 0;
    while i < n
        invariant
            n == g.len(),
            g == run.glyphs@,
            text.spec_bytes() == bytes,
            bytes == text_bytes(*run),
            vstd::utf8::valid_utf8(bytes),
            i <= n,
            forall|k: int| 0 <= k < i ==> #[trigger] glyph_valid(*run, k),
            cur == cursor(g, i as int),
            0 <= cur <= LIMIT,
        decreases n - i,
    {
        let gl = run.glyphs[i];
        let ordered = i == 0 || run.glyphs[i - 1].end <= gl.start;
        if gl.start > gl.end || !text.is_char_boundary(gl.start) || !text.is_char_boundary(gl.end)
            || gl.advance < 0 || gl.offset < -LIMIT || gl.offset > LIMIT || !ordered {
            assert(!glyph_valid(*run, i as int));
            return false;
        }
        assert(glyph_valid(*run, i as int));
        if gl.advance > LIMIT - cur {
            proof {
                if run_valid(*run, ox as int, oy as int) {
                    lemma_cursor_monotone(*run, i + 1, n as int);
                }
            }
            return false;
        }
        cur = cur + gl.advance;
        i = i + 1;
    }
    true
}

/// Whether the items of `frame`, placed at `(bx, by)`, are valid.
pub fn items_are_valid(frame: &Frame, bx: i64, by: i64) -> (r: bool)
    requires
        in_limit(bx as int),
        in_limit(by as int),
    ensures
        r == items_valid(frame.items@, bx as int, by as int),
    decreases frame,
{
    let ghost items = frame.items@;
    let n = frame.items.len();
    let mut i: usize = 0;
    while i < n
        invariant
            n == items.len(),
            items == frame.items@,
            in_limit(bx as int),
            in_limit(by as int),
            i <= n,
            items_valid(items.take(i as int), bx as int, by as int),
        decreases n - i,
    {
        proof {
            assert(items.take(i + 1).drop_last() =~= items.take(i as int));
            assert(items.take(i + 1).last() == items[i as int]);
            if items_valid(items, bx as int, by as int) {
                lemma_items_valid_prefix(items, bx as int, by as int, i + 1);
            }
        }
        let entry = &frame.items[i];
        let off = entry.0;
        if off.x < -LIMIT || off.x > LIMIT || off.y < -LIMIT || off.y > LIMIT {
            return false;
        }
        let px = bx + off.x;
        let py = by + off.y;
        if px < -LIMIT || px > LIMIT || py < -LIMIT || py > LIMIT {
            return false;
        }
        let ok = match &entry.1 {
            Item::Text(run) => run_is_valid(run, px, py),
            Item::Group(nested) => items_are_valid(nested, px, py),
            _ => true,
        };
        if !ok {
            return false;
        }
        i = i + 1;
    }
    proof {
        assert(items.take(n as int) =~= items);
    }
    true
}

/// Whether every page of `document` is valid, so that `words_with_boxes` may run on it.
pub fn document_is_valid(document: &Document) -> (r: bool)
    ensures
        r == document_valid(*document),
{
    let ghost pages = document.pages@;
    let mut top: i64 = 0;
    let mut i: usize = 0;
    while i < document.pages.len()
        invariant
            pages == document.pages@,
            i <= pages.len(),
            top == page_top(pages, i as int),
            -LIMIT <= top <= 3 * LIMIT,
            forall|k: int| 0 <= k < i ==> #[trigger] page_valid(pages, k),
        decreases pages.len() - i,
    {
        let page = &document.pages[i];
        if page.height < 0 || page.height > LIMIT || top > LIMIT {
            assert(!page_valid(pages, i as int));
            return false;
        }
        if !items_are_valid(&page.frame, 0, top) {
            assert(!page_valid(pages, i as int));
            return false;
        }
        assert(page_valid(pages, i as int));
        top = top + page.height + PAGE_GAP;
        i = i + 1;
    }
    true
}

} // verus!
