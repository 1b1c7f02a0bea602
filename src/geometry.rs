use vstd::prelude::*;

verus! {

/// Bound on every input coordinate and length, so that all derived
/// coordinates fit in an `i64` with room to spare.
pub const LIMIT: i64 = 288230376151711744;

/// Whether a value lies within the input bound.
pub open spec fn in_limit(v: int) -> bool {
    -LIMIT <= v <= LIMIT
}

/// An axis-aligned box: left, top, width and height.
#[derive(Clone, Copy, Debug, PartialEq, Eq)]
pub struct BBox {
    pub x: i64,
    pub y: i64,
    pub width: i64,
    pub height: i64,
}

/// A box over mathematical integers.
pub struct BoxModel {
    pub x: int,
    pub y: int,
    pub width: int,
    pub height: int,
}

impl View for BBox {
    type V = BoxModel;

    open spec fn view(&self) -> BoxModel {
        BoxModel { x: self.x as int, y: self.y as int, width: self.width as int, height: self.height as int }
    }
}

impl BoxModel {
    pub open spec fn right(self) -> int {
        self.x + self.width
    }

    pub open spec fn bottom(self) -> int {
        self.y + self.height
    }

    /// Whether `self` covers `other`.
    pub open spec fn contains(self, other: BoxModel) -> bool {
        self.x <= other.x && self.y <= other.y && other.right() <= self.right()
            && other.bottom() <= self.bottom()
    }

    /// The sides of every box the library builds stay well inside `i64`.
    pub open spec fn bounded(self) -> bool {
        self.width >= 0 && self.height >= 0 && -4 * LIMIT <= self.x && self.right() <= 4 * LIMIT
            && -4 * LIMIT <= self.y && self.bottom() <= 4 * LIMIT
    }
}

pub open spec fn min_int(a: int, b: int) -> int {
    if a <= b { a } else { b }
}

pub open spec fn max_int(a: int, b: int) -> int {
    if a >= b { a } else { b }
}

/// The smallest box covering both `a` and `b`.
pub open spec fn union_spec(a: BoxModel, b: BoxModel) -> BoxModel {
    let left = min_int(a.x, b.x);
    let top = min_int(a.y, b.y);
    BoxModel {
        x: left,
        y: top,
        width: max_int(a.right(), b.right()) - left,
        height: max_int(a.bottom(), b.bottom()) - top,
    }
}

/// The iterated union of a non-empty sequence of boxes, from the left.
pub open spec fn union_all(boxes: Seq<BoxModel>) -> BoxModel
    decreases boxes.len(),
{
    if boxes.len() <= 1 {
        boxes[0]
    } else {
        union_spec(union_all(boxes.drop_last()), boxes.last())
    }
}

/// The union of two boxes, computed without overflow.
pub fn union_bbox(a: BBox, b: BBox) -> (r: BBox)
    requires
        a@.bounded(),
        b@.bounded(),
    ensures
        r@ == union_spec(a@, b@),
        r@.bounded(),
{
    let left = if a.x <= b.x { a.x } else { b.x };
    let top = if a.y <= b.y { a.y } else { b.y };
    let ar = a.x + a.width;
    let br = b.x + b.width;
    let ab = a.y + a.height;
    let bb = b.y + b.height;
    let right = if ar >= br { ar } else { br };
    let bottom = if ab >= bb { ab } else { bb };
    BBox { x: left, y: top, width: right - left, height: bottom - top }
}

/// The union of a non-empty sequence of boxes covers each of them, and is
/// covered by every box that covers them all: it is the smallest such box.
pub proof fn lemma_union_all_smallest(boxes: Seq<BoxModel>, outer: BoxModel)
    requires
        boxes.len() > 0,
    ensures
        forall|i: int| 0 <= i < boxes.len() ==> #[trigger] union_all(boxes).contains(boxes[i]),
        (forall|i: int| 0 <= i < boxes.len() ==> #[trigger] outer.contains(boxes[i]))
            ==> outer.contains(union_all(boxes)),
    decreases boxes.len(),
{
    if boxes.len() > 1 {
        let init = boxes.drop_last();
        lemma_union_all_smallest(init, outer);
        assert forall|i: int| 0 <= i < boxes.len() implies #[trigger] union_all(boxes).contains(boxes[i]) by {
            if i < boxes.len() - 1 {
                assert(init[i] == boxes[i]);
                assert(union_all(init).contains(init[i]));
            }
        }
        if forall|i: int| 0 <= i < boxes.len() ==> #[trigger] outer.contains(boxes[i]) {
            assert forall|i: int| 0 <= i < init.len() implies #[trigger] outer.contains(init[i]) by {
                assert(outer.contains(boxes[i]));
            }
            assert(outer.contains(boxes[boxes.len() - 1]));
        }
    }
}

} // verus!
