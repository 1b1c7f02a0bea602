use vstd::prelude::*;
use vstd::string::*;
use vstd::utf8::*;
use crate::geometry::{in_limit, BBox, BoxModel, LIMIT};
use crate::document::{Glyph, Point, TextRun, Token, TokenModel, view_tokens};

verus! {

broadcast use vstd::utf8::encode_utf8_decode_utf8;

// ---------------------------------------------------------------------------
// Characters and glyphs
// ---------------------------------------------------------------------------

/// Whether a character has Unicode's White_Space property.
pub uninterp spec fn white_space(c: char) -> bool;

/// Relies on `char::is_whitespace`, which tells whether a character has
/// Unicode's White_Space property: a function of the character alone.
#[verifier::external_body]
fn is_white_space(c: char) -> (r: bool)
    ensures
        r == white_space(c),
{
    c.is_whitespace()
}

/// ASCII punctuation: ``!"#$%&'()*+,-./``, ``:;<=>?@``, ``[\]^_` `` and ``{|}~``.
pub open spec fn ascii_punctuation(c: char) -> bool {
    (0x21 <= c as u32 <= 0x2f) || (0x3a <= c as u32 <= 0x40) || (0x5b <= c as u32 <= 0x60)
        || (0x7b <= c as u32 <= 0x7e)
}

/// Whether `c` is ASCII punctuation.
pub fn is_ascii_punct(c: char) -> (r: bool)
    ensures
        r == ascii_punctuation(c),
{
    let u = c as u32;
    (0x21 <= u && u <= 0x2f) || (0x3a <= u && u <= 0x40) || (0x5b <= u && u <= 0x60) || (0x7b <= u
        && u <= 0x7e)
}

/// The UTF-8 bytes of a run's text.
pub open spec fn text_bytes(run: TextRun) -> Seq<u8> {
    encode_utf8(run.text@)
}

/// The characters of the bytes `[a, b)`.
pub open spec fn byte_text(bytes: Seq<u8>, a: int, b: int) -> Seq<char> {
    decode_utf8(bytes.subrange(a, b))
}

/// The characters that glyph `i` renders.
pub open spec fn glyph_chars(run: TextRun, i: int) -> Seq<char> {
    byte_text(text_bytes(run), run.glyphs@[i].start as int, run.glyphs@[i].end as int)
}

/// A delimiter glyph renders only whitespace and ASCII punctuation, and at least one character.
pub open spec fn is_delimiter_glyph(run: TextRun, i: int) -> bool {
    let cs = glyph_chars(run, i);
    cs.len() > 0 && forall|j: int| 0 <= j < cs.len() ==> white_space(#[trigger] cs[j]) || ascii_punctuation(cs[j])
}

/// A whitespace glyph renders only whitespace, and at least one character.
pub open spec fn is_whitespace_glyph(run: TextRun, i: int) -> bool {
    let cs = glyph_chars(run, i);
    cs.len() > 0 && forall|j: int| 0 <= j < cs.len() ==> white_space(#[trigger] cs[j])
}

// ---------------------------------------------------------------------------
// Valid runs
// ---------------------------------------------------------------------------

/// The sum of the advances of the first `k` glyphs.
pub open spec fn cursor(glyphs: Seq<Glyph>, k: int) -> int
    decreases k,
{
    if k <= 0 {
        0
    } else {
        cursor(glyphs, k - 1) + glyphs[k - 1].advance
    }
}

/// Glyph `i` covers a range of whole characters inside the text, after the
/// glyph before it, with a non-negative advance and a bounded offset.
pub open spec fn glyph_valid(run: TextRun, i: int) -> bool {
    let g = run.glyphs@[i];
    let bytes = text_bytes(run);
    &&& g.start <= g.end <= bytes.len()
    &&& is_char_boundary(bytes, g.start as int)
    &&& is_char_boundary(bytes, g.end as int)
    &&& g.advance >= 0
    &&& in_limit(g.offset as int)
    &&& i > 0 ==> run.glyphs@[i - 1].end <= g.start
}

/// A run whose glyphs are valid and whose coordinates, placed at `(ox, oy)`, are bounded.
pub open spec fn run_valid(run: TextRun, ox: int, oy: int) -> bool {
    &&& in_limit(ox)
    &&& in_limit(oy)
    &&& in_limit(run.ascender as int)
    &&& in_limit(run.descender as int)
    &&& run.descender <= run.ascender
    &&& forall|i: int| 0 <= i < run.glyphs@.len() ==> #[trigger] glyph_valid(run, i)
    &&& cursor(run.glyphs@, run.glyphs@.len() as int) <= LIMIT
}

// ---------------------------------------------------------------------------
// Tokens of a run
// ---------------------------------------------------------------------------

/// The class of a token.
pub enum TokenClass {
    Word,
    Punctuation,
    Whitespace,
}

/// A token with its class.
pub struct Piece {
    pub class: TokenClass,
    pub token: TokenModel,
}

/// The token spanning glyphs `[a, b)` of a run placed at `(ox, oy)`: the text
/// from the first glyph's start to the last glyph's end, starting at the
/// cursor before glyph `a` moved by its offset, as wide as the advances of
/// the glyphs, from the ascender down to the descender.
pub open spec fn make_token(run: TextRun, ox: int, oy: int, a: int, b: int) -> TokenModel {
    let g = run.glyphs@;
    TokenModel {
        label: byte_text(text_bytes(run), g[a].start as int, g[b - 1].end as int),
        bbox: BoxModel {
            x: ox + cursor(g, a) + g[a].offset,
            y: oy - run.ascender,
            width: cursor(g, b) - cursor(g, a),
            height: run.ascender - run.descender,
        },
    }
}

/// The first glyph of the word pending after `k` glyphs: the one after the
/// last delimiter among them, or the first.
pub open spec fn word_start(run: TextRun, k: int) -> int
    decreases k,
{
    if k <= 0 {
        0
    } else if is_delimiter_glyph(run, k - 1) {
        k
    } else {
        word_start(run, k - 1)
    }
}

/// The tokens completed by the first `k` glyphs: at each delimiter glyph, the
/// pending word if there is one, then the delimiter itself.
pub open spec fn pieces_upto(run: TextRun, ox: int, oy: int, k: int) -> Seq<Piece>
    decreases k,
{
    if k <= 0 {
        seq![]
    } else {
        let prev = pieces_upto(run, ox, oy, k - 1);
        if is_delimiter_glyph(run, k - 1) {
            let ws = word_start(run, k - 1);
            let with_word = if ws < k - 1 {
                prev.push(Piece { class: TokenClass::Word, token: make_token(run, ox, oy, ws, k - 1) })
            } else {
                prev
            };
            let class = if is_whitespace_glyph(run, k - 1) {
                TokenClass::Whitespace
            } else {
                TokenClass::Punctuation
            };
            with_word.push(Piece { class, token: make_token(run, ox, oy, k - 1, k) })
        } else {
            prev
        }
    }
}

/// All tokens of a run placed at `(ox, oy)`, of every class, in order.
pub open spec fn run_pieces(run: TextRun, ox: int, oy: int) -> Seq<Piece> {
    let n = run.glyphs@.len() as int;
    let ws = word_start(run, n);
    if ws < n {
        pieces_upto(run, ox, oy, n).push(Piece { class: TokenClass::Word, token: make_token(run, ox, oy, ws, n) })
    } else {
        pieces_upto(run, ox, oy, n)
    }
}

/// Words are always kept; whitespace only with `ws`, punctuation only with `delims`.
pub open spec fn keeps(class: TokenClass, ws: bool, delims: bool) -> bool {
    match class {
        TokenClass::Word => true,
        TokenClass::Whitespace => ws,
        TokenClass::Punctuation => delims,
    }
}

/// The pieces that the flags keep, in order.
pub open spec fn kept(pieces: Seq<Piece>, ws: bool, delims: bool) -> Seq<Piece>
    decreases pieces.len(),
{
    if pieces.len() == 0 {
        seq![]
    } else {
        let rest = kept(pieces.drop_last(), ws, delims);
        if keeps(pieces.last().class, ws, delims) {
            rest.push(pieces.last())
        } else {
            rest
        }
    }
}

/// The tokens of a sequence of pieces.
pub open spec fn tokens_of(pieces: Seq<Piece>) -> Seq<TokenModel> {
    pieces.map_values(|p: Piece| p.token)
}

/// The tokens that a run placed at `(ox, oy)` yields under the flags.
pub open spec fn run_tokens(run: TextRun, ox: int, oy: int, ws: bool, delims: bool) -> Seq<TokenModel> {
    tokens_of(kept(run_pieces(run, ox, oy), ws, delims))
}

// ---------------------------------------------------------------------------
// Lemmas on runs
// ---------------------------------------------------------------------------

/// With non-negative advances the cursor never moves left.
pub proof fn lemma_cursor_monotone(run: TextRun, a: int, b: int)
    requires
        0 <= a <= b <= run.glyphs@.len(),
        forall|i: int| 0 <= i < run.glyphs@.len() ==> #[trigger] glyph_valid(run, i),
    ensures
        0 <= cursor(run.glyphs@, a) <= cursor(run.glyphs@, b),
    decreases b,
{
    if b > 0 {
        assert(glyph_valid(run, b - 1));
        if a < b {
            lemma_cursor_monotone(run, a, b - 1);
        } else {
            lemma_cursor_monotone(run, a - 1, b - 1);
        }
    }
}

/// Glyph ranges come in order: a glyph starts before any later glyph ends.
pub proof fn lemma_ranges_ordered(run: TextRun, a: int, b: int)
    requires
        0 <= a <= b < run.glyphs@.len(),
        forall|i: int| 0 <= i < run.glyphs@.len() ==> #[trigger] glyph_valid(run, i),
    ensures
        run.glyphs@[a].start <= run.glyphs@[b].end,
    decreases b,
{
    assert(glyph_valid(run, b));
    if a < b {
        lemma_ranges_ordered(run, a, b - 1);
        assert(glyph_valid(run, b - 1));
    }
}

/// A character boundary stays one in the bytes that follow an earlier boundary.
proof fn lemma_boundary_in_suffix(bytes: Seq<u8>, a: int, b: int)
    requires
        valid_utf8(bytes),
        0 <= a <= b <= bytes.len(),
        is_char_boundary(bytes, a),
        is_char_boundary(bytes, b),
    ensures
        valid_utf8(bytes.subrange(a, bytes.len() as int)),
        is_char_boundary(bytes.subrange(a, bytes.len() as int), b - a),
{
    let rest = bytes.subrange(a, bytes.len() as int);
    valid_utf8_split(bytes, a);
    is_char_boundary_start_end_of_seq(rest);
    if b < bytes.len() && b > a {
        is_char_boundary_iff_not_is_continuation_byte(bytes, b);
        is_char_boundary_iff_not_is_continuation_byte(rest, b - a);
        assert(rest[b - a] == bytes[b]);
    }
}

/// Adding a piece adds its token if the flags keep it.
pub proof fn lemma_kept_push(pieces: Seq<Piece>, p: Piece, ws: bool, delims: bool)
    ensures
        tokens_of(kept(pieces.push(p), ws, delims)) == if keeps(p.class, ws, delims) {
            tokens_of(kept(pieces, ws, delims)).push(p.token)
        } else {
            tokens_of(kept(pieces, ws, delims))
        },
{
    assert(pieces.push(p).drop_last() =~= pieces);
    if keeps(p.class, ws, delims) {
        assert(tokens_of(kept(pieces, ws, delims).push(p)) =~= tokens_of(kept(pieces, ws, delims)).push(p.token));
    }
}

// ---------------------------------------------------------------------------
// Extraction
// ---------------------------------------------------------------------------

/// The characters of the bytes `[a, b)` of `text`.
fn byte_slice(text: &str, a: usize, b: usize) -> (r: &str)
    requires
        a <= b <= text.spec_bytes().len(),
        is_char_boundary(text.spec_bytes(), a as int),
        is_char_boundary(text.spec_bytes(), b as int),
    ensures
        r@ == byte_text(text.spec_bytes(), a as int, b as int),
{
    proof {
        encode_utf8_valid_utf8(text@);
        lemma_boundary_in_suffix(text.spec_bytes(), a as int, b as int);
    }
    let (_, rest) = text.split_at(a);
    let (mid, _) = rest.split_at(b - a);
    proof {
        assert(mid.spec_bytes() =~= text.spec_bytes().subrange(a as int, b as int));
    }
    mid
}

/// Whether glyph `i` is a delimiter, and whether it is whitespace.
fn classify_glyph(run: &TextRun, i: usize) -> (r: (bool, bool))
    requires
        i < run.glyphs@.len(),
        glyph_valid(*run, i as int),
    ensures
        r.0 == is_delimiter_glyph(*run, i as int),
        r.1 == is_whitespace_glyph(*run, i as int),
{
    let g = run.glyphs[i];
    let s = byte_slice(run.text.as_str(), g.start, g.end);
    let n = s.unicode_len();
    let ghost cs = glyph_chars(*run, i as int);
    assert(s@ == cs);
    let mut delim = n > 0;
    let mut white = n > 0;
    let mut j: usize = 0;
    while j < n
        invariant
            n == cs.len(),
            s@ == cs,
            j <= n,
            delim == (n > 0 && forall|k: int| 0 <= k < j ==> white_space(#[trigger] cs[k]) || ascii_punctuation(cs[k])),
            white == (n > 0 && forall|k: int| 0 <= k < j ==> white_space(#[trigger] cs[k])),
        decreases n - j,
    {
        let c = s.get_char(j);
        let w = is_white_space(c);
        let p = is_ascii_punct(c);
        if !w {
            white = false;
            if !p {
                delim = false;
            }
        }
        j = j + 1;
    }
    (delim, white)
}

/// Appends the token spanning glyphs `[a, b)`, whose first glyph starts at
/// `word_start_x` from the run's origin.
fn finalize_word(pos: &Point, run: &TextRun, a: usize, b: usize, word_start_x: i64, words: &mut Vec<Token>)
    requires
        run_valid(*run, pos.x as int, pos.y as int),
        a < b <= run.glyphs@.len(),
        word_start_x == cursor(run.glyphs@, a as int),
    ensures
        view_tokens(final(words)@) == view_tokens(old(words)@).push(make_token(*run, pos.x as int, pos.y as int, a as int, b as int)),
        final(words)@.len() == old(words)@.len() + 1,
        forall|j: int| 0 <= j < old(words)@.len() ==> final(words)@[j] == old(words)@[j],
        final(words)@.last()@.bbox.bounded(),
{
    let ghost g = run.glyphs@;
    proof {
        assert(glyph_valid(*run, a as int));
        assert(glyph_valid(*run, b - 1));
        lemma_ranges_ordered(*run, a as int, b - 1);
        lemma_cursor_monotone(*run, a as int, b as int);
        lemma_cursor_monotone(*run, b as int, g.len() as int);
    }
    let start_byte = run.glyphs[a].start;
    let end_byte = run.glyphs[b - 1].end;
    let text = byte_slice(run.text.as_str(), start_byte, end_byte);
    let label = text.to_owned();

    let mut width: i64 = 0;
    let mut k: usize = a;
    while k < b
        invariant
            a <= k <= b <= g.len(),
            g == run.glyphs@,
            run_valid(*run, pos.x as int, pos.y as int),
            width == cursor(g, k as int) - cursor(g, a as int),
        decreases b - k,
    {
        proof {
            lemma_cursor_monotone(*run, a as int, k + 1);
            lemma_cursor_monotone(*run, k + 1, g.len() as int);
        }
        width = width + run.glyphs[k].advance;
        k = k + 1;
    }

    let x = pos.x + word_start_x + run.glyphs[a].offset;
    let y = pos.y - run.ascender;
    let height = run.ascender - run.descender;
    let token = Token { label, bbox: BBox { x, y, width, height } };
    assert(token@ == make_token(*run, pos.x as int, pos.y as int, a as int, b as int));
    words.push(token);
    proof {
        assert(view_tokens(words@) =~= view_tokens(old(words)@).push(token@));
    }
}

/// Splits a text run at its delimiter glyphs and appends its tokens: each
/// word, and each delimiter that the flags keep.
pub fn process_text_item(
    pos: &Point,
    run: &TextRun,
    words: &mut Vec<Token>,
    include_whitespace: bool,
    include_delimiters: bool,
)
    requires
        run_valid(*run, pos.x as int, pos.y as int),
    ensures
        view_tokens(final(words)@) == view_tokens(old(words)@) + run_tokens(
            *run,
            pos.x as int,
            pos.y as int,
            include_whitespace,
            include_delimiters,
        ),
        forall|j: int| old(words)@.len() <= j < final(words)@.len() ==> (#[trigger] final(words)@[j])@.bbox.bounded(),
{
    let ghost ox = pos.x as int;
    let ghost oy = pos.y as int;
    let ghost iw = include_whitespace;
    let ghost id = include_delimiters;
    let ghost w0 = view_tokens(words@);
    let ghost len0 = words@.len();
    let n = run.glyphs.len();
    let mut start: usize = 0;
    let mut start_x: i64 = 0;
    let mut current_x: i64 = 0;
    let mut i: usize = 0;
    while i < n
        invariant
            n == run.glyphs@.len(),
            run_valid(*run, ox, oy),
            ox == pos.x,
            oy == pos.y,
            iw == include_whitespace,
            id == include_delimiters,
            i <= n,
            start == word_start(*run, i as int),
            start <= i,
            start_x == cursor(run.glyphs@, start as int),
            current_x == cursor(run.glyphs@, i as int),
            words@.len() >= len0,
            view_tokens(words@) == w0 + tokens_of(kept(pieces_upto(*run, ox, oy, i as int), iw, id)),
            forall|j: int| len0 <= j < words@.len() ==> (#[trigger] words@[j])@.bbox.bounded(),
        decreases n - i,
    {
        let ghost prev = pieces_upto(*run, ox, oy, i as int);
        assert(glyph_valid(*run, i as int));
        let (is_delimiter, is_whitespace) = classify_glyph(run, i);
        if is_delimiter {
            let ghost with_word = prev;
            if start < i {
                finalize_word(pos, run, start, i, start_x, words);
                proof {
                    let p = Piece { class: TokenClass::Word, token: make_token(*run, ox, oy, start as int, i as int) };
                    lemma_kept_push(prev, p, iw, id);
                    with_word = prev.push(p);
                }
            }
            let ghost mid = words@;
            assert(view_tokens(words@) == w0 + tokens_of(kept(with_word, iw, id)));
            if (!is_whitespace || include_whitespace) && (is_whitespace || include_delimiters) {
                finalize_word(pos, run, i, i + 1, current_x, words);
            }
            proof {
                let class = if is_whitespace { TokenClass::Whitespace } else { TokenClass::Punctuation };
                let p = Piece { class, token: make_token(*run, ox, oy, i as int, i + 1) };
                lemma_kept_push(with_word, p, iw, id);
                assert(pieces_upto(*run, ox, oy, i + 1) == with_word.push(p));
                if keeps(class, iw, id) {
                    assert(view_tokens(words@) =~= view_tokens(mid).push(p.token));
                    assert(view_tokens(words@) =~= (w0 + tokens_of(kept(with_word, iw, id))).push(p.token));
                } else {
                    assert(words@ == mid);
                }
                assert(view_tokens(words@) =~= w0 + tokens_of(kept(pieces_upto(*run, ox, oy, i + 1), iw, id)));
            }
            start = i + 1;
        }
        proof {
            lemma_cursor_monotone(*run, i + 1, n as int);
        }
        current_x = current_x + run.glyphs[i].advance;
        if is_delimiter {
            start_x = current_x;
        }
        i = i + 1;
    }
    if start < n {
        let ghost prev = pieces_upto(*run, ox, oy, n as int);
        finalize_word(pos, run, start, n, start_x, words);
        proof {
            let p = Piece { class: TokenClass::Word, token: make_token(*run, ox, oy, start as int, n as int) };
            lemma_kept_push(prev, p, iw, id);
            assert(view_tokens(words@) =~= w0 + tokens_of(kept(run_pieces(*run, ox, oy), iw, id)));
        }
    }
}

} // verus!
