use vstd::prelude::*;
use vstd::utf8::*;
use crate::geometry::{lemma_union_all_smallest, BoxModel};
use crate::document::{Document, TextRun, TokenModel};
use crate::tokenize::{
    byte_text, cursor, lemma_kept_push, is_delimiter_glyph, is_whitespace_glyph, kept, keeps, make_token, pieces_upto,
    run_pieces, run_tokens, text_bytes, tokens_of, word_start, Piece, TokenClass,
};
use crate::walk::{boxes_of, group_token};
use crate::extract::document_tokens;

verus! {

/// The pieces of one class, in order.
pub open spec fn of_class(pieces: Seq<Piece>, class: TokenClass) -> Seq<Piece>
    decreases pieces.len(),
{
    if pieces.len() == 0 {
        seq![]
    } else {
        let rest = of_class(pieces.drop_last(), class);
        if pieces.last().class == class {
            rest.push(pieces.last())
        } else {
            rest
        }
    }
}

proof fn lemma_of_class_kept(pieces: Seq<Piece>, ws: bool, delims: bool)
    ensures
        of_class(kept(pieces, ws, delims), TokenClass::Word) == of_class(pieces, TokenClass::Word),
        of_class(kept(pieces, ws, delims), TokenClass::Whitespace) == if ws {
            of_class(pieces, TokenClass::Whitespace)
        } else {
            seq![]
        },
        of_class(kept(pieces, ws, delims), TokenClass::Punctuation) == if delims {
            of_class(pieces, TokenClass::Punctuation)
        } else {
            seq![]
        },
    decreases pieces.len(),
{
    if pieces.len() > 0 {
        let init = pieces.drop_last();
        lemma_of_class_kept(init, ws, delims);
        let k = kept(init, ws, delims);
        if keeps(pieces.last().class, ws, delims) {
            assert(k.push(pieces.last()).drop_last() =~= k);
        }
    }
}

/// The flags only choose which delimiter tokens appear: the words of a run
/// are the same under any flags, whitespace tokens appear exactly when
/// `ws` is set and punctuation tokens exactly when `delims` is set.
pub proof fn lemma_flags_gate_classes(run: TextRun, ox: int, oy: int, ws: bool, delims: bool, ws2: bool, delims2: bool)
    ensures
        of_class(kept(run_pieces(run, ox, oy), ws, delims), TokenClass::Word) == of_class(
            kept(run_pieces(run, ox, oy), ws2, delims2),
            TokenClass::Word,
        ),
        of_class(kept(run_pieces(run, ox, oy), ws, delims), TokenClass::Whitespace) == if ws {
            of_class(run_pieces(run, ox, oy), TokenClass::Whitespace)
        } else {
            seq![]
        },
        of_class(kept(run_pieces(run, ox, oy), ws, delims), TokenClass::Punctuation) == if delims {
            of_class(run_pieces(run, ox, oy), TokenClass::Punctuation)
        } else {
            seq![]
        },
        run_tokens(run, ox, oy, ws, delims) == tokens_of(kept(run_pieces(run, ox, oy), ws, delims)),
{
    lemma_of_class_kept(run_pieces(run, ox, oy), ws, delims);
    lemma_of_class_kept(run_pieces(run, ox, oy), ws2, delims2);
}

proof fn lemma_no_delimiters_upto(run: TextRun, ox: int, oy: int, k: int)
    requires
        0 <= k <= run.glyphs@.len(),
        forall|i: int| 0 <= i < run.glyphs@.len() ==> !#[trigger] is_delimiter_glyph(run, i),
    ensures
        pieces_upto(run, ox, oy, k) == Seq::<Piece>::empty(),
        word_start(run, k) == 0,
    decreases k,
{
    if k > 0 {
        lemma_no_delimiters_upto(run, ox, oy, k - 1);
        assert(!is_delimiter_glyph(run, k - 1));
    }
}

/// A run with glyphs and no delimiter glyph is one word, under any flags: it
/// spans from the first glyph's start to the last glyph's end (the whole text
/// when the glyphs cover it) and is as wide as all the advances together.
pub proof fn lemma_run_without_delimiters(run: TextRun, ox: int, oy: int, ws: bool, delims: bool)
    requires
        run.glyphs@.len() > 0,
        forall|i: int| 0 <= i < run.glyphs@.len() ==> !#[trigger] is_delimiter_glyph(run, i),
    ensures
        ({
            let n = run.glyphs@.len() as int;
            let toks = run_tokens(run, ox, oy, ws, delims);
            &&& toks.len() == 1
            &&& toks[0] == make_token(run, ox, oy, 0, n)
            &&& toks[0].label == byte_text(text_bytes(run), run.glyphs@[0].start as int, run.glyphs@[n - 1].end as int)
            &&& toks[0].bbox.width == cursor(run.glyphs@, n)
            &&& (run.glyphs@[0].start == 0 && run.glyphs@[n - 1].end == text_bytes(run).len()) ==> toks[0].label == run.text@
        }),
{
    let n = run.glyphs@.len() as int;
    lemma_no_delimiters_upto(run, ox, oy, n);
    let p = Piece { class: TokenClass::Word, token: make_token(run, ox, oy, 0, n) };
    assert(run_pieces(run, ox, oy) =~= seq![p]);
    assert(seq![p].drop_last() =~= Seq::<Piece>::empty());
    assert(seq![p].last() == p);
    assert(kept(seq![p].drop_last(), ws, delims) =~= Seq::<Piece>::empty());
    assert(kept(seq![p], ws, delims) =~= seq![p]);
    assert(run_tokens(run, ox, oy, ws, delims) =~= seq![p.token]);
    if run.glyphs@[0].start == 0 && run.glyphs@[n - 1].end == text_bytes(run).len() {
        assert(text_bytes(run).subrange(0, text_bytes(run).len() as int) =~= text_bytes(run));
        encode_utf8_decode_utf8(run.text@);
    }
}

/// The whitespace tokens of the first `k` glyphs of an all-whitespace run:
/// one per glyph.
pub open spec fn each_glyph(run: TextRun, ox: int, oy: int, k: int) -> Seq<Piece> {
    Seq::new(k as nat, |i: int| Piece { class: TokenClass::Whitespace, token: make_token(run, ox, oy, i, i + 1) })
}

proof fn lemma_whitespace_upto(run: TextRun, ox: int, oy: int, k: int)
    requires
        0 <= k <= run.glyphs@.len(),
        forall|i: int| 0 <= i < run.glyphs@.len() ==> #[trigger] is_whitespace_glyph(run, i),
    ensures
        pieces_upto(run, ox, oy, k) == each_glyph(run, ox, oy, k),
        word_start(run, k) == k,
    decreases k,
{
    if k > 0 {
        lemma_whitespace_upto(run, ox, oy, k - 1);
        assert(is_whitespace_glyph(run, k - 1));
        assert(is_delimiter_glyph(run, k - 1));
        assert(each_glyph(run, ox, oy, k - 1).push(
            Piece { class: TokenClass::Whitespace, token: make_token(run, ox, oy, k - 1, k) },
        ) =~= each_glyph(run, ox, oy, k));
    }
}

proof fn lemma_kept_each_glyph(run: TextRun, ox: int, oy: int, k: int, ws: bool, delims: bool)
    requires
        k >= 0,
    ensures
        tokens_of(kept(each_glyph(run, ox, oy, k), ws, delims)) == if ws {
            Seq::new(k as nat, |i: int| make_token(run, ox, oy, i, i + 1))
        } else {
            Seq::<TokenModel>::empty()
        },
    decreases k,
{
    if k > 0 {
        lemma_kept_each_glyph(run, ox, oy, k - 1, ws, delims);
        let e = each_glyph(run, ox, oy, k);
        let p = Piece { class: TokenClass::Whitespace, token: make_token(run, ox, oy, k - 1, k) };
        assert(e =~= each_glyph(run, ox, oy, k - 1).push(p));
        lemma_kept_push(each_glyph(run, ox, oy, k - 1), p, ws, delims);
        if ws {
            assert(tokens_of(kept(e, ws, delims)) =~= Seq::new(k as nat, |i: int| make_token(run, ox, oy, i, i + 1)));
        }
    } else {
        assert(tokens_of(Seq::<Piece>::empty()) =~= Seq::<TokenModel>::empty());
        assert(Seq::new(0, |i: int| make_token(run, ox, oy, i, i + 1)) =~= Seq::<TokenModel>::empty());
    }
}

/// A run of whitespace glyphs has no word. With `ws` set it yields one token
/// per glyph, each spanning that glyph alone; without, nothing.
pub proof fn lemma_whitespace_run(run: TextRun, ox: int, oy: int, ws: bool, delims: bool)
    requires
        forall|i: int| 0 <= i < run.glyphs@.len() ==> #[trigger] is_whitespace_glyph(run, i),
    ensures
        of_class(run_pieces(run, ox, oy), TokenClass::Word) == Seq::<Piece>::empty(),
        run_tokens(run, ox, oy, ws, delims) == if ws {
            Seq::new(run.glyphs@.len(), |i: int| make_token(run, ox, oy, i, i + 1))
        } else {
            Seq::<TokenModel>::empty()
        },
{
    let n = run.glyphs@.len() as int;
    lemma_whitespace_upto(run, ox, oy, n);
    lemma_kept_each_glyph(run, ox, oy, n, ws, delims);
    assert(of_class(each_glyph(run, ox, oy, n), TokenClass::Word) == Seq::<Piece>::empty()) by {
        lemma_of_class_each_glyph(run, ox, oy, n);
    }
}

proof fn lemma_of_class_each_glyph(run: TextRun, ox: int, oy: int, k: int)
    requires
        k >= 0,
    ensures
        of_class(each_glyph(run, ox, oy, k), TokenClass::Word) == Seq::<Piece>::empty(),
    decreases k,
{
    if k > 0 {
        assert(each_glyph(run, ox, oy, k).drop_last() =~= each_glyph(run, ox, oy, k - 1));
        lemma_of_class_each_glyph(run, ox, oy, k - 1);
    }
}

/// A group's box covers the box of each of its children, and every box that
/// covers them all covers the group's box: it is the smallest such box.
pub proof fn lemma_group_box_smallest(children: Seq<TokenModel>, outer: BoxModel)
    requires
        children.len() > 0,
    ensures
        forall|i: int| 0 <= i < children.len() ==> #[trigger] group_token(children).bbox.contains(children[i].bbox),
        (forall|i: int| 0 <= i < children.len() ==> #[trigger] outer.contains(children[i].bbox))
            ==> outer.contains(group_token(children).bbox),
{
    let boxes = boxes_of(children);
    lemma_union_all_smallest(boxes, outer);
    assert forall|i: int| 0 <= i < children.len() implies #[trigger] group_token(children).bbox.contains(children[i].bbox) by {
        assert(boxes[i] == children[i].bbox);
    }
    if forall|i: int| 0 <= i < children.len() ==> #[trigger] outer.contains(children[i].bbox) {
        assert forall|i: int| 0 <= i < boxes.len() implies #[trigger] outer.contains(boxes[i]) by {
            assert(outer.contains(children[i].bbox));
        }
    }
}

/// Extraction is a function of the document and the flags alone: equal
/// documents yield equal token sequences.
pub proof fn lemma_extraction_deterministic(a: Document, b: Document, ws: bool, delims: bool)
    requires
        a == b,
    ensures
        document_tokens(a, ws, delims) == document_tokens(b, ws, delims),
{
}

} // verus!
