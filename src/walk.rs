use vstd::prelude::*;
use vstd::string::*;
use crate::geometry::{in_limit, union_all, union_bbox, BoxModel};
use crate::document::{Frame, Item, Point, Token, TokenModel, view_tokens};
use crate::tokenize::{process_text_item, run_tokens, run_valid};

verus! {

// ---------------------------------------------------------------------------
// Aggregation
// ---------------------------------------------------------------------------

/// An open group or tagged region and the tokens gathered in it so far.
#[derive(Debug)]
pub struct Scope {
    pub kind: String,
    pub children: Vec<Token>,
}

/// A scope over mathematical values.
pub struct ScopeModel {
    pub kind: Seq<char>,
    pub children: Seq<TokenModel>,
}

impl View for Scope {
    type V = ScopeModel;

    open spec fn view(&self) -> ScopeModel {
        ScopeModel { kind: self.kind@, children: view_tokens(self.children@) }
    }
}

/// The state of a traversal: the flat output and the stack of open scopes.
pub struct WalkState {
    pub out: Seq<TokenModel>,
    pub stack: Seq<ScopeModel>,
}

/// The state held by an output vector and a scope stack.
pub open spec fn state_of(out: Seq<Token>, stack: Seq<Scope>) -> WalkState {
    WalkState { out: view_tokens(out), stack: stack.map_values(|s: Scope| s@) }
}

/// The labels of a sequence of tokens, joined without separators.
pub open spec fn concat_labels(ts: Seq<TokenModel>) -> Seq<char>
    decreases ts.len(),
{
    if ts.len() == 0 {
        seq![]
    } else {
        concat_labels(ts.drop_last()) + ts.last().label
    }
}

/// The boxes of a sequence of tokens.
pub open spec fn boxes_of(ts: Seq<TokenModel>) -> Seq<BoxModel> {
    ts.map_values(|t: TokenModel| t.bbox)
}

/// The token that stands for a closed scope with at least one child.
pub open spec fn group_token(children: Seq<TokenModel>) -> TokenModel {
    TokenModel { label: concat_labels(children), bbox: union_all(boxes_of(children)) }
}

/// Adds a token to the innermost open scope, if any.
pub open spec fn add_to_top(stack: Seq<ScopeModel>, t: TokenModel) -> Seq<ScopeModel> {
    if stack.len() == 0 {
        stack
    } else {
        let top = stack.last();
        stack.update(stack.len() - 1, ScopeModel { kind: top.kind, children: top.children.push(t) })
    }
}

/// A word or delimiter goes into the innermost scope and into the output.
pub open spec fn emit_leaf(st: WalkState, t: TokenModel) -> WalkState {
    WalkState { out: st.out.push(t), stack: add_to_top(st.stack, t) }
}

/// Emits each token in turn.
pub open spec fn emit_leaves(st: WalkState, ts: Seq<TokenModel>) -> WalkState
    decreases ts.len(),
{
    if ts.len() == 0 {
        st
    } else {
        emit_leaf(emit_leaves(st, ts.drop_last()), ts.last())
    }
}

/// Opens a scope of the given kind.
pub open spec fn open_scope(st: WalkState, kind: Seq<char>) -> WalkState {
    WalkState { out: st.out, stack: st.stack.push(ScopeModel { kind, children: seq![] }) }
}

/// Closes the innermost scope: nothing happens when none is open, an empty
/// scope vanishes, and otherwise its group token goes into the enclosing
/// scope or, at the outermost level, into the output.
pub open spec fn close_scope(st: WalkState) -> WalkState {
    if st.stack.len() == 0 {
        st
    } else {
        let top = st.stack.last();
        let rest = st.stack.drop_last();
        if top.children.len() == 0 {
            WalkState { out: st.out, stack: rest }
        } else if rest.len() > 0 {
            WalkState { out: st.out, stack: add_to_top(rest, group_token(top.children)) }
        } else {
            WalkState { out: st.out.push(group_token(top.children)), stack: rest }
        }
    }
}

/// Every token that a state holds has a bounded box.
pub open spec fn state_bounded(st: WalkState) -> bool {
    &&& forall|i: int| 0 <= i < st.out.len() ==> (#[trigger] st.out[i]).bbox.bounded()
    &&& forall|i: int, j: int|
        0 <= i < st.stack.len() && 0 <= j < st.stack[i].children.len() ==> (#[trigger] st.stack[i].children[j]).bbox.bounded()
}

// ---------------------------------------------------------------------------
// Traversal
// ---------------------------------------------------------------------------

/// The state after visiting `items`, placed at `(bx, by)`, from `st`.
pub open spec fn walk_items(items: Seq<(Point, Item)>, bx: int, by: int, st: WalkState, ws: bool, delims: bool) -> WalkState
    decreases items,
{
    if items.len() == 0 {
        st
    } else {
        let before = walk_items(items.drop_last(), bx, by, st, ws, delims);
        let px = bx + items.last().0.x;
        let py = by + items.last().0.y;
        match items.last().1 {
            Item::Text(run) => emit_leaves(before, run_tokens(run, px, py, ws, delims)),
            Item::Group(frame) => close_scope(
                walk_items(frame.items@, px, py, open_scope(before, "group"@), ws, delims),
            ),
            Item::TagStart(name) => open_scope(before, name@),
            Item::TagEnd => close_scope(before),
            Item::Other => before,
        }
    }
}

/// Items whose offsets, positions and text runs are bounded and whose runs
/// are valid, when placed at `(bx, by)`.
pub open spec fn items_valid(items: Seq<(Point, Item)>, bx: int, by: int) -> bool
    decreases items,
{
    if items.len() == 0 {
        true
    } else {
        let off = items.last().0;
        let px = bx + off.x;
        let py = by + off.y;
        &&& items_valid(items.drop_last(), bx, by)
        &&& in_limit(off.x as int) && in_limit(off.y as int) && in_limit(px) && in_limit(py)
        &&& match items.last().1 {
            Item::Text(run) => run_valid(run, px, py),
            Item::Group(frame) => items_valid(frame.items@, px, py),
            _ => true,
        }
    }
}

// ---------------------------------------------------------------------------
// Executable aggregation
// ---------------------------------------------------------------------------

/// A copy of a token.
fn copy_token(t: &Token) -> (r: Token)
    ensures
        r@ == t@,
{
    Token { label: t.label.clone(), bbox: t.bbox }
}

/// Pushes a word or delimiter into the innermost open scope and the output.
fn push_leaf(token: Token, output: &mut Vec<Token>, group_stack: &mut Vec<Scope>)
    requires
        token@.bbox.bounded(),
        state_bounded(state_of(old(output)@, old(group_stack)@)),
    ensures
        state_of(final(output)@, final(group_stack)@) == emit_leaf(state_of(old(output)@, old(group_stack)@), token@),
        state_bounded(state_of(final(output)@, final(group_stack)@)),
{
    let ghost st = state_of(output@, group_stack@);
    if group_stack.len() > 0 {
        let mut top = group_stack.pop().unwrap();
        top.children.push(copy_token(&token));
        group_stack.push(top);
        proof {
            assert(view_tokens(top.children@) =~= st.stack.last().children.push(token@));
            assert(group_stack@.map_values(|s: Scope| s@) =~= add_to_top(st.stack, token@));
        }
    }
    output.push(token);
    proof {
        assert(view_tokens(output@) =~= st.out.push(token@));
        let fin = state_of(output@, group_stack@);
        assert forall|i: int, j: int|
            0 <= i < fin.stack.len() && 0 <= j < fin.stack[i].children.len() implies (#[trigger] fin.stack[i].children[j]).bbox.bounded() by {
            if i < st.stack.len() - 1 || j < st.stack[i].children.len() {
                assert(fin.stack[i].children[j] == st.stack[i].children[j]);
            }
        }
    }
}

/// The token of a non-empty scope: the children's labels joined, and the
/// union of their boxes.
fn group_of(children: &Vec<Token>) -> (r: Token)
    requires
        children@.len() > 0,
        forall|j: int| 0 <= j < children@.len() ==> (#[trigger] children@[j])@.bbox.bounded(),
    ensures
        r@ == group_token(view_tokens(children@)),
        r@.bbox.bounded(),
{
    let ghost ts = view_tokens(children@);
    let mut text = children[0].label.clone();
    let mut bbox = children[0].bbox;
    proof {
        assert(ts.take(1).drop_last() =~= seq![]);
        assert(boxes_of(ts.take(1)) =~= seq![ts[0].bbox]);
        assert(ts.take(1).last() == ts[0]);
        assert(concat_labels(ts.take(1).drop_last()) =~= seq![]);
        assert(concat_labels(ts.take(1)) =~= ts[0].label);
    }
    let mut k: usize = 1;
    while k < children.len()
        invariant
            1 <= k <= children@.len(),
            ts == view_tokens(children@),
            forall|j: int| 0 <= j < children@.len() ==> (#[trigger] children@[j])@.bbox.bounded(),
            text@ == concat_labels(ts.take(k as int)),
            bbox@ == union_all(boxes_of(ts.take(k as int))),
            bbox@.bounded(),
        decreases children@.len() - k,
    {
        text.append(children[k].label.as_str());
        bbox = union_bbox(bbox, children[k].bbox);
        proof {
            assert(ts.take(k + 1).drop_last() =~= ts.take(k as int));
            assert(boxes_of(ts.take(k + 1)).drop_last() =~= boxes_of(ts.take(k as int)));
        }
        k = k + 1;
    }
    proof {
        assert(ts.take(k as int) =~= ts);
    }
    Token { label: text, bbox }
}

/// Closes the innermost open scope, if any, as `close_scope` describes.
fn finalize_scope(output: &mut Vec<Token>, group_stack: &mut Vec<Scope>)
    requires
        state_bounded(state_of(old(output)@, old(group_stack)@)),
    ensures
        state_of(final(output)@, final(group_stack)@) == close_scope(state_of(old(output)@, old(group_stack)@)),
        state_bounded(state_of(final(output)@, final(group_stack)@)),
{
    let ghost st = state_of(output@, group_stack@);
    if group_stack.len() > 0 {
        let top = group_stack.pop().unwrap();
        proof {
            assert(group_stack@.map_values(|s: Scope| s@) =~= st.stack.drop_last());
            assert forall|j: int| 0 <= j < top.children@.len() implies (#[trigger] top.children@[j])@.bbox.bounded() by {
                assert(st.stack[st.stack.len() - 1].children[j] == top.children@[j]@);
            }
        }
        if top.children.len() > 0 {
            let g = group_of(&top.children);
            if group_stack.len() > 0 {
                let mut parent = group_stack.pop().unwrap();
                parent.children.push(g);
                group_stack.push(parent);
                proof {
                    let rest = st.stack.drop_last();
                    assert(view_tokens(parent.children@) =~= rest.last().children.push(g@));
                    assert(group_stack@.map_values(|s: Scope| s@) =~= add_to_top(rest, g@));
                    let fin = state_of(output@, group_stack@);
                    assert forall|i: int, j: int|
                        0 <= i < fin.stack.len() && 0 <= j < fin.stack[i].children.len() implies (#[trigger] fin.stack[i].children[j]).bbox.bounded() by {
                        if i < rest.len() - 1 || j < rest[i].children.len() {
                            assert(fin.stack[i].children[j] == st.stack[i].children[j]);
                        }
                    }
                }
            } else {
                output.push(g);
                proof {
                    assert(view_tokens(output@) =~= st.out.push(g@));
                }
            }
        }
    }
}

/// Validity of items carries over to every prefix.
pub proof fn lemma_items_valid_prefix(items: Seq<(Point, Item)>, bx: int, by: int, k: int)
    requires
        items_valid(items, bx, by),
        0 <= k <= items.len(),
    ensures
        items_valid(items.take(k), bx, by),
    decreases items.len(),
{
    if k == items.len() {
        assert(items.take(k) =~= items);
    } else {
        lemma_items_valid_prefix(items.drop_last(), bx, by, k);
        assert(items.drop_last().take(k) =~= items.take(k));
    }
}

/// Opening a scope keeps every box bounded.
proof fn lemma_open_scope_bounded(st: WalkState, kind: Seq<char>)
    requires
        state_bounded(st),
    ensures
        state_bounded(open_scope(st, kind)),
{
    let fin = open_scope(st, kind);
    assert forall|i: int, j: int|
        0 <= i < fin.stack.len() && 0 <= j < fin.stack[i].children.len() implies (#[trigger] fin.stack[i].children[j]).bbox.bounded() by {
        assert(fin.stack[i] == st.stack[i]);
    }
}

/// Opens a scope of the given kind.
fn open_scope_exec(kind: String, output: &Vec<Token>, group_stack: &mut Vec<Scope>)
    requires
        state_bounded(state_of(output@, old(group_stack)@)),
    ensures
        state_of(output@, final(group_stack)@) == open_scope(state_of(output@, old(group_stack)@), kind@),
        state_bounded(state_of(output@, final(group_stack)@)),
{
    let ghost st = state_of(output@, group_stack@);
    let scope = Scope { kind, children: Vec::new() };
    group_stack.push(scope);
    proof {
        assert(view_tokens(scope.children@) =~= seq![]);
        assert(group_stack@.map_values(|s: Scope| s@) =~= st.stack.push(scope@));
        lemma_open_scope_bounded(st, kind@);
    }
}

/// Visits the items of `frame`, placed at `base`, in order: text runs yield
/// tokens, nested frames and tagged regions open and close scopes.
fn traverse_frames(
    frame: &Frame,
    base: Point,
    output: &mut Vec<Token>,
    group_stack: &mut Vec<Scope>,
    include_whitespace: bool,
    include_delimiters: bool,
)
    requires
        in_limit(base.x as int),
        in_limit(base.y as int),
        items_valid(frame.items@, base.x as int, base.y as int),
        state_bounded(state_of(old(output)@, old(group_stack)@)),
    ensures
        state_of(final(output)@, final(group_stack)@) == walk_items(
            frame.items@,
            base.x as int,
            base.y as int,
            state_of(old(output)@, old(group_stack)@),
            include_whitespace,
            include_delimiters,
        ),
        state_bounded(state_of(final(output)@, final(group_stack)@)),
    decreases frame,
{
    let ghost items = frame.items@;
    let ghost st0 = state_of(output@, group_stack@);
    let ghost bx = base.x as int;
    let ghost by = base.y as int;
    let n = frame.items.len();
    let mut i: usize = 0;
    while i < n
        invariant
            n == items.len(),
            items == frame.items@,
            bx == base.x,
            by == base.y,
            i <= n,
            items_valid(items, bx, by),
            state_of(output@, group_stack@) == walk_items(items.take(i as int), bx, by, st0, include_whitespace, include_delimiters),
            state_bounded(state_of(output@, group_stack@)),
        decreases n - i,
    {
        let ghost before = state_of(output@, group_stack@);
        proof {
            lemma_items_valid_prefix(items, bx, by, i + 1);
            assert(items.take(i + 1).drop_last() =~= items.take(i as int));
            assert(items.take(i + 1).last() == items[i as int]);
        }
        let entry = &frame.items[i];
        let absolute = Point { x: base.x + entry.0.x, y: base.y + entry.0.y };
        match &entry.1 {
            Item::Text(run) => {
                let mut words: Vec<Token> = Vec::new();
                process_text_item(&absolute, run, &mut words, include_whitespace, include_delimiters);
                let ghost ts = view_tokens(words@);
                assert(ts =~= run_tokens(*run, absolute.x as int, absolute.y as int, include_whitespace, include_delimiters));
                let mut k: usize = 0;
                while k < words.len()
                    invariant
                        k <= words@.len(),
                        ts == view_tokens(words@),
                        forall|j: int| 0 <= j < words@.len() ==> (#[trigger] words@[j])@.bbox.bounded(),
                        state_of(output@, group_stack@) == emit_leaves(before, ts.take(k as int)),
                        state_bounded(state_of(output@, group_stack@)),
                    decreases words@.len() - k,
                {
                    push_leaf(copy_token(&words[k]), output, group_stack);
                    proof {
                        assert(ts.take(k + 1).drop_last() =~= ts.take(k as int));
                    }
                    k = k + 1;
                }
                proof {
                    assert(ts.take(k as int) =~= ts);
                }
            },
            Item::Group(nested) => {
                open_scope_exec(<String as StringExecFns>::from_str("group"), output, group_stack);
                traverse_frames(nested, absolute, output, group_stack, include_whitespace, include_delimiters);
                finalize_scope(output, group_stack);
            },
            Item::TagStart(name) => {
                open_scope_exec(name.clone(), output, group_stack);
            },
            Item::TagEnd => {
                finalize_scope(output, group_stack);
            },
            Item::Other => {},
        }
        i = i + 1;
    }
    proof {
        assert(items.take(n as int) =~= items);
    }
}

/// The output of a traversal of `frame` placed at `(bx, by)`, from an empty state.
pub open spec fn frame_tokens(frame: Frame, bx: int, by: int, ws: bool, delims: bool) -> Seq<TokenModel> {
    walk_items(frame.items@, bx, by, WalkState { out: seq![], stack: seq![] }, ws, delims).out
}

/// All tokens of a frame placed at `origin`: words and kept delimiters as
/// they come, each group's token after the tokens it gathers. Scopes still
/// open at the end yield nothing.
pub fn words_in_frame(frame: &Frame, origin: Point, include_whitespace: bool, include_delimiters: bool) -> (r: Vec<Token>)
    requires
        in_limit(origin.x as int),
        in_limit(origin.y as int),
        items_valid(frame.items@, origin.x as int, origin.y as int),
    ensures
        view_tokens(r@) == frame_tokens(*frame, origin.x as int, origin.y as int, include_whitespace, include_delimiters),
        forall|j: int| 0 <= j < r@.len() ==> (#[trigger] r@[j])@.bbox.bounded(),
{
    let mut output: Vec<Token> = Vec::new();
    let mut group_stack: Vec<Scope> = Vec::new();
    proof {
        assert(view_tokens(output@) =~= seq![]);
        assert(group_stack@.map_values(|s: Scope| s@) =~= seq![]);
    }
    traverse_frames(frame, origin, &mut output, &mut group_stack, include_whitespace, include_delimiters);
    proof {
        let fin = state_of(output@, group_stack@);
        assert forall|j: int| 0 <= j < output@.len() implies (#[trigger] output@[j])@.bbox.bounded() by {
            assert(fin.out[j] == output@[j]@);
        }
    }
    output
}

} // verus!
