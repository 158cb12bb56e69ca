//! Adaptive rectangle subdivision (boundary tracing): fills the image from the
//! escape-time counts of as few pixels as the corner agreement allows.

use vstd::prelude::*;
use crate::buffer::{PixelBuffer, RenderError, in_rect, lemma_byte_pixel, opaque, paint, pixel_of};

verus! {

/// When a rectangle whose corners disagree may still be filled in one color.
#[derive(Debug, Clone, Copy, PartialEq, Eq, Structural)]
pub struct FillPolicy {
    /// Subdivision depth from which approximate fills are allowed.
    pub min_depth: u32,
    /// Largest corner spread (below the iteration limit) that is filled with the average.
    pub tolerance: u32,
}

impl FillPolicy {
    /// Depth six, spread two.
    pub fn standard() -> (r: FillPolicy)
        ensures
            r.min_depth == 6,
            r.tolerance == 2,
    {
        FillPolicy { min_depth: 6, tolerance: 2 }
    }
}

/// A rectangle `x1, y1, x2, y2` (inclusive) with its subdivision depth.
pub type Rect = (u32, u32, u32, u32, u64);

/// The smaller of two counts.
pub open spec fn min2(a: u32, b: u32) -> u32 {
    if a <= b { a } else { b }
}

/// The larger of two counts.
pub open spec fn max2(a: u32, b: u32) -> u32 {
    if a >= b { a } else { b }
}

/// The count a rectangle is filled with, given its four corner counts, or `None`
/// when it must be split further.
pub open spec fn spec_fill_value(
    c1: u32,
    c2: u32,
    c3: u32,
    c4: u32,
    depth: u64,
    max_iterations: u32,
    policy: FillPolicy,
) -> Option<u32> {
    let lo = min2(min2(c1, c2), min2(c3, c4));
    let hi = max2(max2(c1, c2), max2(c3, c4));
    if depth >= policy.min_depth && (lo == max_iterations || (hi < max_iterations && hi - lo
        <= policy.tolerance)) {
        Some(((c1 + c2 + c3 + c4) / 4) as u32)
    } else {
        None
    }
}

/// Decides whether a rectangle with corner counts `c1..c4` at `depth` is filled,
/// and with which count.
pub fn fill_value(
    c1: u32,
    c2: u32,
    c3: u32,
    c4: u32,
    depth: u64,
    max_iterations: u32,
    policy: FillPolicy,
) -> (r: Option<u32>)
    ensures
        r == spec_fill_value(c1, c2, c3, c4, depth, max_iterations, policy),
{
    if depth < policy.min_depth as u64 {
        return None;
    }
    let lo = if c1 <= c2 { c1 } else { c2 };
    let lo2 = if c3 <= c4 { c3 } else { c4 };
    let lo = if lo <= lo2 { lo } else { lo2 };
    let hi = if c1 >= c2 { c1 } else { c2 };
    let hi2 = if c3 >= c4 { c3 } else { c4 };
    let hi = if hi >= hi2 { hi } else { hi2 };
    assert(lo == min2(min2(c1, c2), min2(c3, c4)));
    assert(hi == max2(max2(c1, c2), max2(c3, c4)));
    if lo == max_iterations || (hi < max_iterations && hi - lo <= policy.tolerance) {
        let sum: u64 = c1 as u64 + c2 as u64 + c3 as u64 + c4 as u64;
        let avg: u64 = sum / 4;
        assert(avg == (c1 + c2 + c3 + c4) / 4);
        assert(avg <= u32::MAX);
        Some(avg as u32)
    } else {
        None
    }
}

/// `c` is the color of count `v`: black at or past the limit, else what `shade` gives.
pub open spec fn colors<S: Fn(u32) -> [u8; 3]>(c: [u8; 3], v: u32, max_iterations: u32, shade: S) -> bool {
    if v >= max_iterations {
        c == [0u8, 0u8, 0u8]
    } else {
        shade.ensures((v,), c)
    }
}

/// Pixel bytes `p` show count `v`.
pub open spec fn shows<S: Fn(u32) -> [u8; 3]>(
    p: (u8, u8, u8, u8),
    v: u32,
    max_iterations: u32,
    shade: S,
) -> bool {
    exists|c: [u8; 3]| #[trigger] colors(c, v, max_iterations, shade) && p == opaque(c)
}

/// Pixel `(x, y)` of `b` shows a count that `eval` gives for it.
pub open spec fn shows_own_count<F: Fn(u32, u32) -> u32, S: Fn(u32) -> [u8; 3]>(
    b: Seq<u8>,
    width: u32,
    x: u32,
    y: u32,
    max_iterations: u32,
    eval: F,
    shade: S,
) -> bool {
    exists|v: u32|
        #[trigger] eval.ensures((x, y), v) && shows(
            pixel_of(b, width as int, x as int, y as int),
            v,
            max_iterations,
            shade,
        )
}

/// Every pixel of `b` shows a count that `eval` gives for it.
pub open spec fn shows_evaluation<F: Fn(u32, u32) -> u32, S: Fn(u32) -> [u8; 3]>(
    b: Seq<u8>,
    width: u32,
    height: u32,
    max_iterations: u32,
    eval: F,
    shade: S,
) -> bool {
    &&& b.len() == width * height * 4
    &&& forall|x: u32, y: u32|
        x < width && y < height ==> #[trigger] shows_own_count(b, width, x, y, max_iterations, eval, shade)
}

/// Pixel `(x, y)` of `b` lies in `r`, `eval` gives the counts `c` for the corners
/// of `r`, and the pixel shows the approximate fill count those corners allow at
/// the depth of `r`.
pub open spec fn shows_fill<F: Fn(u32, u32) -> u32, S: Fn(u32) -> [u8; 3]>(
    b: Seq<u8>,
    width: u32,
    height: u32,
    x: u32,
    y: u32,
    r: Rect,
    c: (u32, u32, u32, u32),
    max_iterations: u32,
    policy: FillPolicy,
    eval: F,
    shade: S,
) -> bool {
    &&& r.0 <= x <= r.2 < width
    &&& r.1 <= y <= r.3 < height
    &&& eval.ensures((r.0, r.1), c.0)
    &&& eval.ensures((r.2, r.1), c.1)
    &&& eval.ensures((r.0, r.3), c.2)
    &&& eval.ensures((r.2, r.3), c.3)
    &&& spec_fill_value(c.0, c.1, c.2, c.3, r.4, max_iterations, policy) matches Some(v) && shows(
        pixel_of(b, width as int, x as int, y as int),
        v,
        max_iterations,
        shade,
    )
}

/// Pixel `(x, y)` of `b` shows its own count, or the approximate fill count of a
/// rectangle around it.
pub open spec fn shows_count_or_fill<F: Fn(u32, u32) -> u32, S: Fn(u32) -> [u8; 3]>(
    b: Seq<u8>,
    width: u32,
    height: u32,
    x: u32,
    y: u32,
    max_iterations: u32,
    policy: FillPolicy,
    eval: F,
    shade: S,
) -> bool {
    ||| shows_own_count(b, width, x, y, max_iterations, eval, shade)
    ||| exists|r: Rect, c: (u32, u32, u32, u32)|
        #[trigger] shows_fill(b, width, height, x, y, r, c, max_iterations, policy, eval, shade)
}

/// Every pixel of `b` is opaque.
pub open spec fn all_opaque(b: Seq<u8>, width: int, height: int) -> bool {
    forall|x: int, y: int| 0 <= x < width && 0 <= y < height ==> (#[trigger] pixel_of(b, width, x, y)).3 == 255u8
}

/// `eval` gives one count per pixel.
pub open spec fn eval_deterministic<F: Fn(u32, u32) -> u32>(eval: F) -> bool {
    forall|x: u32, y: u32, v: u32, w: u32|
        eval.ensures((x, y), v) && eval.ensures((x, y), w) ==> v == w
}

/// `shade` gives one color per count.
pub open spec fn shade_deterministic<S: Fn(u32) -> [u8; 3]>(shade: S) -> bool {
    forall|v: u32, c: [u8; 3], d: [u8; 3]| shade.ensures((v,), c) && shade.ensures((v,), d) ==> c == d
}


/// `r` is a non-empty rectangle of the image, and its depth leaves room for the
/// splits that can still shrink it.
pub open spec fn rect_ok(r: Rect, width: u32, height: u32) -> bool {
    &&& r.0 <= r.2 < width
    &&& r.1 <= r.3 < height
    &&& r.4 + (r.2 - r.0 + 1) + (r.3 - r.1 + 1) <= width + height
}

/// `(x, y)` lies in `r`.
pub open spec fn in_r(r: Rect, x: int, y: int) -> bool {
    in_rect(x, y, r.0 as int, r.1 as int, r.2 as int, r.3 as int)
}

/// The number of pixels of `r`.
pub open spec fn area(r: Rect) -> int {
    (r.2 - r.0 + 1) * (r.3 - r.1 + 1)
}

/// Pending work: each rectangle counts twice its area less one, which a split lowers.
pub open spec fn weight(s: Seq<Rect>) -> int
    decreases s.len(),
{
    if s.len() == 0 {
        0
    } else {
        weight(s.drop_last()) + 2 * area(s.last()) - 1
    }
}

/// Some rectangle of `s` holds `(x, y)`.
pub open spec fn covered(s: Seq<Rect>, x: int, y: int) -> bool {
    exists|i: int| 0 <= i < s.len() && #[trigger] in_r(s[i], x, y)
}

proof fn lemma_weight_push(s: Seq<Rect>, r: Rect)
    ensures
        weight(s.push(r)) == weight(s) + 2 * area(r) - 1,
{
    assert(s.push(r).drop_last() =~= s);
}

proof fn lemma_weight_nonneg(s: Seq<Rect>, width: u32, height: u32)
    requires
        forall|i: int| 0 <= i < s.len() ==> rect_ok(#[trigger] s[i], width, height),
    ensures
        weight(s) >= 0,
    decreases s.len(),
{
    if s.len() > 0 {
        lemma_weight_nonneg(s.drop_last(), width, height);
        let r = s.last();
        assert(rect_ok(s[s.len() - 1], width, height));
        assert(area(r) >= 1) by (nonlinear_arith)
            requires
                r.0 <= r.2,
                r.1 <= r.3,
                area(r) == (r.2 - r.0 + 1) * (r.3 - r.1 + 1),
        ;
    }
}

/// The quadrants of `r` that are not empty, one level deeper, in the order they
/// are pushed.
pub open spec fn children(r: Rect) -> Seq<Rect> {
    let mx = (r.0 + (r.2 - r.0) / 2) as u32;
    let my = (r.1 + (r.3 - r.1) / 2) as u32;
    let d = (r.4 + 1) as u64;
    let s1 = seq![(r.0, r.1, mx, my, d)];
    let s2 = if mx < r.2 {
        s1.push(((mx + 1) as u32, r.1, r.2, my, d))
    } else {
        s1
    };
    let s3 = if my < r.3 {
        s2.push((r.0, (my + 1) as u32, mx, r.3, d))
    } else {
        s2
    };
    if mx < r.2 && my < r.3 {
        s3.push(((mx + 1) as u32, (my + 1) as u32, r.2, r.3, d))
    } else {
        s3
    }
}

proof fn lemma_weight_concat(s: Seq<Rect>, t: Seq<Rect>)
    ensures
        weight(s + t) == weight(s) + weight(t),
    decreases t.len(),
{
    if t.len() == 0 {
        assert(s + t =~= s);
    } else {
        lemma_weight_concat(s, t.drop_last());
        assert((s + t).drop_last() =~= s + t.drop_last());
    }
}

/// The quadrants of a rectangle that can be split lie in the image, cover it,
/// and weigh less than it.
proof fn lemma_children(r: Rect, width: u32, height: u32)
    requires
        rect_ok(r, width, height),
        r.0 < r.2 || r.1 < r.3,
    ensures
        children(r).len() >= 2,
        forall|i: int| 0 <= i < children(r).len() ==> rect_ok(#[trigger] children(r)[i], width, height),
        forall|x: int, y: int| #[trigger] in_r(r, x, y) ==> covered(children(r), x, y),
        weight(children(r)) < 2 * area(r) - 1,
{
    let mx = (r.0 + (r.2 - r.0) / 2) as u32;
    let my = (r.1 + (r.3 - r.1) / 2) as u32;
    let d = (r.4 + 1) as u64;
    let a: int = mx - r.0 + 1;
    let b: int = r.2 - mx;
    let c: int = my - r.1 + 1;
    let e: int = r.3 - my;
    let q1: Rect = (r.0, r.1, mx, my, d);
    let s1 = seq![q1];
    assert(s1 =~= Seq::<Rect>::empty().push(q1));
    lemma_weight_push(Seq::<Rect>::empty(), q1);
    let s2 = if mx < r.2 { s1.push(((mx + 1) as u32, r.1, r.2, my, d)) } else { s1 };
    lemma_weight_push(s1, ((mx + 1) as u32, r.1, r.2, my, d));
    let s3 = if my < r.3 { s2.push((r.0, (my + 1) as u32, mx, r.3, d)) } else { s2 };
    lemma_weight_push(s2, (r.0, (my + 1) as u32, mx, r.3, d));
    lemma_weight_push(s3, ((mx + 1) as u32, (my + 1) as u32, r.2, r.3, d));
    let ch = children(r);
    assert(b == 0 ==> b * c == 0 && b * e == 0) by (nonlinear_arith);
    assert(e == 0 ==> a * e == 0 && b * e == 0) by (nonlinear_arith);
    assert(a * c + b * c + a * e + b * e == (a + b) * (c + e)) by (nonlinear_arith);
    assert(weight(ch) == 2 * area(r) - ch.len());
    assert forall|x: int, y: int| #[trigger] in_r(r, x, y) implies covered(ch, x, y) by {
        if x <= mx && y <= my {
            assert(in_r(ch[0], x, y));
        } else if x > mx && y <= my {
            assert(in_r(ch[1], x, y));
        } else if x <= mx && y > my {
            let j = if mx < r.2 { 2int } else { 1int };
            assert(in_r(ch[j], x, y));
        } else {
            assert(in_r(ch[3], x, y));
        }
    }
}

/// Pushes the quadrants of `r` that are not empty, one level deeper.
fn split(rect_stack: &mut Vec<Rect>, r: Rect, width: u32, height: u32)
    requires
        rect_ok(r, width, height),
        r.0 < r.2 || r.1 < r.3,
    ensures
        final(rect_stack)@ == old(rect_stack)@ + children(r),
        forall|i: int|
            old(rect_stack)@.len() <= i < final(rect_stack)@.len() ==> rect_ok(#[trigger] final(rect_stack)@[i], width, height),
        forall|x: int, y: int| #[trigger] in_r(r, x, y) ==> covered(final(rect_stack)@, x, y),
        weight(final(rect_stack)@) < weight(old(rect_stack)@) + 2 * area(r) - 1,
{
    let ghost s0 = rect_stack@;
    let (x1, y1, x2, y2, depth) = r;
    let mid_x = x1 + (x2 - x1) / 2;
    let mid_y = y1 + (y2 - y1) / 2;
    let next_depth = depth + 1;
    rect_stack.push((x1, y1, mid_x, mid_y, next_depth));
    if mid_x < x2 {
        rect_stack.push((mid_x + 1, y1, x2, mid_y, next_depth));
    }
    if mid_y < y2 {
        rect_stack.push((x1, mid_y + 1, mid_x, y2, next_depth));
    }
    if mid_x < x2 && mid_y < y2 {
        rect_stack.push((mid_x + 1, mid_y + 1, x2, y2, next_depth));
    }
    proof {
        let ch = children(r);
        assert(rect_stack@ =~= s0 + ch);
        lemma_children(r, width, height);
        lemma_weight_concat(s0, ch);
        assert forall|x: int, y: int| #[trigger] in_r(r, x, y) implies covered(rect_stack@, x, y) by {
            let j = choose|j: int| 0 <= j < ch.len() && #[trigger] in_r(ch[j], x, y);
            assert(in_r(rect_stack@[s0.len() + j], x, y));
        }
        assert forall|i: int| s0.len() <= i < rect_stack@.len() implies rect_ok(#[trigger] rect_stack@[i], width, height) by {
            assert(rect_stack@[i] == ch[i - s0.len()]);
        }
    }
}

/// The count a one-valued `eval` gives for pixel `(x, y)`.
pub open spec fn count_of<F: Fn(u32, u32) -> u32>(eval: F, x: u32, y: u32) -> u32 {
    choose|v: u32| eval.ensures((x, y), v)
}

/// The color of count `v` under a one-valued `shade`: black at or past the limit.
pub open spec fn color_of<S: Fn(u32) -> [u8; 3]>(shade: S, v: u32, max_iterations: u32) -> [u8; 3] {
    if v >= max_iterations {
        [0u8, 0u8, 0u8]
    } else {
        choose|c: [u8; 3]| shade.ensures((v,), c)
    }
}

/// Every rectangle of `s` is one of the image.
pub open spec fn stack_ok(s: Seq<Rect>, width: u32, height: u32) -> bool {
    forall|i: int| 0 <= i < s.len() ==> rect_ok(#[trigger] s[i], width, height)
}

/// The image that working through `stack` (last rectangle first) makes of `img`,
/// with counts from `eval` and colors from `shade`.
pub open spec fn finish<F: Fn(u32, u32) -> u32, S: Fn(u32) -> [u8; 3]>(
    stack: Seq<Rect>,
    img: Seq<u8>,
    width: u32,
    height: u32,
    max_iterations: u32,
    policy: FillPolicy,
    eval: F,
    shade: S,
) -> Seq<u8>
    decreases weight(stack),
    when stack_ok(stack, width, height)
    via finish_decreases::<F, S>
{
    if stack.len() == 0 {
        img
    } else {
        let r = stack.last();
        let rest = stack.drop_last();
        let c1 = count_of(eval, r.0, r.1);
        let c2 = count_of(eval, r.2, r.1);
        let c3 = count_of(eval, r.0, r.3);
        let c4 = count_of(eval, r.2, r.3);
        match spec_fill_value(c1, c2, c3, c4, r.4, max_iterations, policy) {
            Some(avg) => finish(
                rest,
                paint(img, width as int, r.0 as int, r.1 as int, r.2 as int, r.3 as int, color_of(shade, avg, max_iterations)),
                width,
                height,
                max_iterations,
                policy,
                eval,
                shade,
            ),
            None => if r.0 < r.2 || r.1 < r.3 {
                finish(rest + children(r), img, width, height, max_iterations, policy, eval, shade)
            } else {
                finish(
                    rest,
                    paint(img, width as int, r.0 as int, r.1 as int, r.2 as int, r.3 as int, color_of(shade, c1, max_iterations)),
                    width,
                    height,
                    max_iterations,
                    policy,
                    eval,
                    shade,
                )
            },
        }
    }
}

#[via_fn]
proof fn finish_decreases<F: Fn(u32, u32) -> u32, S: Fn(u32) -> [u8; 3]>(
    stack: Seq<Rect>,
    img: Seq<u8>,
    width: u32,
    height: u32,
    max_iterations: u32,
    policy: FillPolicy,
    eval: F,
    shade: S,
) {
    if stack.len() > 0 {
        let r = stack.last();
        let rest = stack.drop_last();
        assert(rect_ok(stack[stack.len() - 1], width, height));
        assert forall|i: int| 0 <= i < rest.len() implies rect_ok(#[trigger] rest[i], width, height) by {
            assert(rect_ok(stack[i], width, height));
        }
        lemma_weight_nonneg(rest, width, height);
        assert(area(r) >= 1) by (nonlinear_arith)
            requires
                r.0 <= r.2,
                r.1 <= r.3,
                area(r) == (r.2 - r.0 + 1) * (r.3 - r.1 + 1),
        ;
        if r.0 < r.2 || r.1 < r.3 {
            lemma_children(r, width, height);
            lemma_weight_nonneg(children(r), width, height);
            lemma_weight_concat(rest, children(r));
        }
    }
}

/// The image an adaptive pass draws on a zeroed `width` by `height` buffer.
pub open spec fn traced<F: Fn(u32, u32) -> u32, S: Fn(u32) -> [u8; 3]>(
    width: u32,
    height: u32,
    max_iterations: u32,
    policy: FillPolicy,
    eval: F,
    shade: S,
) -> Seq<u8> {
    finish(
        seq![(0u32, 0u32, (width - 1) as u32, (height - 1) as u32, 0u64)],
        Seq::new((width * height * 4) as nat, |i: int| 0u8),
        width,
        height,
        max_iterations,
        policy,
        eval,
        shade,
    )
}

proof fn lemma_count_is<F: Fn(u32, u32) -> u32>(eval: F, x: u32, y: u32, v: u32)
    requires
        eval.ensures((x, y), v),
        eval_deterministic(eval),
    ensures
        count_of(eval, x, y) == v,
{
}

proof fn lemma_color_is<S: Fn(u32) -> [u8; 3]>(shade: S, v: u32, max_iterations: u32, c: [u8; 3])
    requires
        colors(c, v, max_iterations, shade),
        shade_deterministic(shade),
    ensures
        color_of(shade, v, max_iterations) == c,
{
}

/// One rendering pass: the image, the iteration limit, the fill policy and the
/// per-pass memo of pixel counts.
pub struct BoundaryTracer {
    width: u32,
    height: u32,
    max_iterations: u32,
    policy: FillPolicy,
    pixels: PixelBuffer,
    color_cache: Vec<Option<u32>>,
}

impl BoundaryTracer {
    /// Width of the image in pixels.
    pub closed spec fn spec_width(&self) -> u32 {
        self.width
    }

    /// Height of the image in pixels.
    pub closed spec fn spec_height(&self) -> u32 {
        self.height
    }

    /// The iteration limit; counts at or past it are drawn black.
    pub closed spec fn spec_max_iterations(&self) -> u32 {
        self.max_iterations
    }

    /// When approximate fills are allowed.
    pub closed spec fn spec_policy(&self) -> FillPolicy {
        self.policy
    }

    /// The image as drawn so far.
    pub closed spec fn spec_pixels(&self) -> PixelBuffer {
        self.pixels
    }

    /// The memoised count of pixel `(x, y)`, if it was evaluated.
    pub closed spec fn cached(&self, x: int, y: int) -> Option<u32> {
        self.color_cache@[y * self.width + x]
    }

    /// The image and the memo both cover `width` by `height` pixels.
    pub closed spec fn wf(&self) -> bool {
        &&& self.pixels.wf()
        &&& self.pixels.spec_width() == self.width
        &&& self.pixels.spec_height() == self.height
        &&& self.color_cache@.len() == self.width * self.height
    }

    /// Every memoised count is one that `eval` gives for its pixel.
    pub open spec fn cache_agrees<F: Fn(u32, u32) -> u32>(&self, eval: F) -> bool {
        forall|x: u32, y: u32|
            x < self.spec_width() && y < self.spec_height() ==> match #[trigger] self.cached(
                x as int,
                y as int,
            ) {
                Some(v) => eval.ensures((x, y), v),
                None => true,
            }
    }

    /// A pass over a `width` by `height` image; an empty side is refused.
    pub fn new(width: u32, height: u32, max_iterations: u32, policy: FillPolicy) -> (r: Result<
        BoundaryTracer,
        RenderError,
    >)
        requires
            width * height * 4 <= usize::MAX,
        ensures
            width == 0 || height == 0 <==> r is Err,
            r is Err ==> r == Err::<BoundaryTracer, RenderError>(RenderError::DegenerateViewport),
            r matches Ok(t) ==> {
                &&& t.wf()
                &&& t.spec_width() == width
                &&& t.spec_height() == height
                &&& t.spec_max_iterations() == max_iterations
                &&& t.spec_policy() == policy
                &&& t.spec_pixels()@ == Seq::new((width * height * 4) as nat, |i: int| 0u8)
                &&& forall|x: int, y: int|
                    0 <= x < width && 0 <= y < height ==> #[trigger] t.cached(x, y) is None
            },
    {
        let pixels = match PixelBuffer::new(width, height) {
            Ok(p) => p,
            Err(e) => {
                return Err(e);
            },
        };
        let n: usize = (width as usize) * (height as usize);
        let color_cache: Vec<Option<u32>> = vec![None; n];
        assert(pixels@ =~= Seq::new((width * height * 4) as nat, |i: int| 0u8));
        let r = BoundaryTracer { width, height, max_iterations, policy, pixels, color_cache };
        assert forall|x: int, y: int| 0 <= x < width && 0 <= y < height implies #[trigger] r.cached(x, y) is None by {
            crate::buffer::lemma_index_bound(width as int, height as int, x, y);
        }
        Ok(r)
    }

    /// The count of pixel `(x, y)`: the memoised one, else `eval`'s, which is then memoised.
    pub fn get_pixel_color<F: Fn(u32, u32) -> u32>(&mut self, x: u32, y: u32, eval: &F) -> (r: u32)
        requires
            old(self).wf(),
            x < old(self).spec_width(),
            y < old(self).spec_height(),
            eval.requires((x, y)),
            old(self).cache_agrees(*eval),
        ensures
            final(self).wf(),
            final(self).spec_width() == old(self).spec_width(),
            final(self).spec_height() == old(self).spec_height(),
            final(self).spec_max_iterations() == old(self).spec_max_iterations(),
            final(self).spec_policy() == old(self).spec_policy(),
            final(self).spec_pixels() == old(self).spec_pixels(),
            final(self).cache_agrees(*eval),
            eval.ensures((x, y), r),
            final(self).cached(x as int, y as int) == Some(r),
            old(self).cached(x as int, y as int) matches Some(v) ==> r == v,
            final(self).cache_extends(old(self)),
            forall|xx: int, yy: int|
                0 <= xx < old(self).spec_width() && 0 <= yy < old(self).spec_height() && (xx != x
                    || yy != y) ==> #[trigger] final(self).cached(xx, yy) == old(self).cached(xx, yy),
    {
        proof {
            crate::buffer::lemma_index_bound(self.width as int, self.height as int, x as int, y as int);
        }
        let len: usize = self.color_cache.len();
        assert(y * self.width + x < len);
        let i: usize = (y as usize) * (self.width as usize) + (x as usize);
        if let Some(v) = self.color_cache[i] {
            assert(self.cached(x as int, y as int) == Some(v));
            return v;
        }
        let v = eval(x, y);
        let ghost before = *self;
        self.color_cache[i] = Some(v);
        assert forall|xx: int, yy: int|
            0 <= xx < self.width && 0 <= yy < self.height && (xx != x || yy != y) implies #[trigger] self.cached(xx, yy) == before.cached(xx, yy) by {
            crate::buffer::lemma_index_distinct(self.width as int, x as int, y as int, xx, yy);
            crate::buffer::lemma_index_bound(self.width as int, self.height as int, xx, yy);
        }
        assert forall|xx: u32, yy: u32| xx < self.width && yy < self.height implies match #[trigger] self.cached(xx as int, yy as int) {
            Some(w) => eval.ensures((xx, yy), w),
            None => true,
        } by {
            if xx != x || yy != y {
                assert(self.cached(xx as int, yy as int) == before.cached(xx as int, yy as int));
            }
        }
        v
    }

    /// Every count memoised in `before` is still memoised, unchanged.
    pub open spec fn cache_extends(&self, before: &BoundaryTracer) -> bool {
        forall|x: int, y: int|
            0 <= x < before.spec_width() && 0 <= y < before.spec_height() && (#[trigger] before.cached(
                x,
                y,
            )) is Some ==> self.cached(x, y) == before.cached(x, y)
    }

    /// Subdivision never reaches the depth of approximate fills: each pixel is
    /// drawn from its own count.
    pub open spec fn exhaustive(&self) -> bool {
        self.spec_policy().min_depth >= self.spec_width() + self.spec_height()
    }

    /// The fill count of `r` from its memoised corner counts, when all four are
    /// memoised and allow an approximate fill.
    pub closed spec fn corner_fill(&self, r: Rect) -> Option<u32> {
        match (
            self.cached(r.0 as int, r.1 as int),
            self.cached(r.2 as int, r.1 as int),
            self.cached(r.0 as int, r.3 as int),
            self.cached(r.2 as int, r.3 as int),
        ) {
            (Some(c1), Some(c2), Some(c3), Some(c4)) => spec_fill_value(
                c1,
                c2,
                c3,
                c4,
                r.4,
                self.max_iterations,
                self.policy,
            ),
            _ => None,
        }
    }

    /// Pixel `(x, y)` shows its own memoised count.
    pub open spec fn own_drawn<S: Fn(u32) -> [u8; 3]>(&self, x: int, y: int, shade: S) -> bool {
        self.cached(x, y) matches Some(v) && shows(
            self.spec_pixels().pixel(x, y),
            v,
            self.spec_max_iterations(),
            shade,
        )
    }

    /// Pixel `(x, y)` lies in `r` and shows the approximate fill count of `r`.
    pub open spec fn fill_drawn<S: Fn(u32) -> [u8; 3]>(&self, x: int, y: int, r: Rect, shade: S) -> bool {
        &&& r.0 <= r.2 < self.spec_width()
        &&& r.1 <= r.3 < self.spec_height()
        &&& in_r(r, x, y)
        &&& self.corner_fill(r) matches Some(v) && shows(
            self.spec_pixels().pixel(x, y),
            v,
            self.spec_max_iterations(),
            shade,
        )
    }

    /// Pixel `(x, y)` is drawn: with its own count, or (never in an exhaustive pass)
    /// with the fill count of a rectangle around it.
    pub open spec fn drawn<S: Fn(u32) -> [u8; 3]>(&self, x: int, y: int, shade: S) -> bool {
        ||| self.own_drawn(x, y, shade)
        ||| !self.exhaustive() && exists|r: Rect| #[trigger] self.fill_drawn(x, y, r, shade)
    }

    /// Growing the memo keeps every drawn pixel drawn.
    proof fn lemma_drawn_kept<S: Fn(u32) -> [u8; 3]>(&self, before: &BoundaryTracer, x: int, y: int, shade: S)
        requires
            self.cache_extends(before),
            self.pixels == before.pixels,
            self.width == before.width,
            self.height == before.height,
            self.max_iterations == before.max_iterations,
            self.policy == before.policy,
            0 <= x < self.width,
            0 <= y < self.height,
            before.drawn(x, y, shade),
        ensures
            self.drawn(x, y, shade),
    {
        if before.own_drawn(x, y, shade) {
            assert(before.cached(x, y) is Some);
            assert(self.own_drawn(x, y, shade));
        } else {
            let r = choose|r: Rect| #[trigger] before.fill_drawn(x, y, r, shade);
            assert(before.cached(r.0 as int, r.1 as int) is Some);
            assert(before.cached(r.2 as int, r.1 as int) is Some);
            assert(before.cached(r.0 as int, r.3 as int) is Some);
            assert(before.cached(r.2 as int, r.3 as int) is Some);
            assert(self.corner_fill(r) == before.corner_fill(r));
            assert(self.fill_drawn(x, y, r, shade));
        }
    }

    /// Redrawing other pixels keeps pixel `(x, y)` drawn when its bytes are kept.
    proof fn lemma_pixels_kept<S: Fn(u32) -> [u8; 3]>(&self, before: &BoundaryTracer, x: int, y: int, shade: S)
        requires
            self.color_cache == before.color_cache,
            self.pixels.pixel(x, y) == before.pixels.pixel(x, y),
            self.width == before.width,
            self.height == before.height,
            self.max_iterations == before.max_iterations,
            self.policy == before.policy,
            before.drawn(x, y, shade),
        ensures
            self.drawn(x, y, shade),
    {
        if before.own_drawn(x, y, shade) {
            assert(self.own_drawn(x, y, shade));
        } else {
            let r = choose|r: Rect| #[trigger] before.fill_drawn(x, y, r, shade);
            assert(self.corner_fill(r) == before.corner_fill(r));
            assert(self.fill_drawn(x, y, r, shade));
        }
    }

    /// A pass that differs from `other` in its pixels alone agrees with `eval` as it does.
    proof fn lemma_same_cache<F: Fn(u32, u32) -> u32>(&self, other: &BoundaryTracer, eval: F)
        requires
            other.cache_agrees(eval),
            self.color_cache == other.color_cache,
            self.width == other.width,
            self.height == other.height,
        ensures
            self.cache_agrees(eval),
    {
        assert forall|x: u32, y: u32| x < self.spec_width() && y < self.spec_height() implies match #[trigger] self.cached(x as int, y as int) {
            Some(v) => eval.ensures((x, y), v),
            None => true,
        } by {
            assert(self.cached(x as int, y as int) == other.cached(x as int, y as int));
        }
    }

    /// Draws every pixel, working through a stack of rectangles seeded with the
    /// whole image.
    fn trace<F: Fn(u32, u32) -> u32, S: Fn(u32) -> [u8; 3]>(&mut self, eval: &F, shade: &S)
        requires
            old(self).wf(),
            old(self).cache_agrees(*eval),
            forall|x: u32, y: u32|
                x < old(self).spec_width() && y < old(self).spec_height() ==> #[trigger] eval.requires((x, y)),
            forall|v: u32| #[trigger] shade.requires((v,)),
        ensures
            final(self).wf(),
            final(self).spec_width() == old(self).spec_width(),
            final(self).spec_height() == old(self).spec_height(),
            final(self).spec_max_iterations() == old(self).spec_max_iterations(),
            final(self).spec_policy() == old(self).spec_policy(),
            final(self).cache_agrees(*eval),
            forall|x: int, y: int|
                0 <= x < final(self).spec_width() && 0 <= y < final(self).spec_height() ==> #[trigger] final(self).drawn(x, y, *shade),
            eval_deterministic(*eval) && shade_deterministic(*shade) ==> final(self).spec_pixels()@ == finish(
                seq![(0u32, 0u32, (old(self).spec_width() - 1) as u32, (old(self).spec_height() - 1) as u32, 0u64)],
                old(self).spec_pixels()@,
                old(self).spec_width(),
                old(self).spec_height(),
                old(self).spec_max_iterations(),
                old(self).spec_policy(),
                *eval,
                *shade,
            ),
    {
        let ghost w = self.width;
        let ghost h = self.height;
        let ghost mi = self.max_iterations;
        let ghost pol = self.policy;
        let mut rect_stack: Vec<Rect> = Vec::new();
        rect_stack.push((0, 0, self.width - 1, self.height - 1, 0u64));
        proof {
            assert forall|x: int, y: int| 0 <= x < w && 0 <= y < h implies #[trigger] self.drawn(x, y, *shade) || covered(rect_stack@, x, y) by {
                assert(in_r(rect_stack@[0], x, y));
            }
            lemma_weight_nonneg(rect_stack@, w, h);
            assert(rect_stack@ =~= seq![(0u32, 0u32, (w - 1) as u32, (h - 1) as u32, 0u64)]);
        }
        let ghost det = eval_deterministic(*eval) && shade_deterministic(*shade);
        let ghost target = finish(rect_stack@, self.spec_pixels()@, w, h, mi, pol, *eval, *shade);
        while rect_stack.len() > 0
            invariant
                self.wf(),
                self.spec_width() == w,
                self.spec_height() == h,
                self.spec_max_iterations() == mi,
                self.spec_policy() == pol,
                self.cache_agrees(*eval),
                forall|x: u32, y: u32| x < w && y < h ==> #[trigger] eval.requires((x, y)),
                forall|v: u32| #[trigger] shade.requires((v,)),
                forall|i: int| 0 <= i < rect_stack@.len() ==> rect_ok(#[trigger] rect_stack@[i], w, h),
                forall|x: int, y: int|
                    0 <= x < w && 0 <= y < h ==> #[trigger] self.drawn(x, y, *shade) || covered(rect_stack@, x, y),
                det == (eval_deterministic(*eval) && shade_deterministic(*shade)),
                det ==> finish(rect_stack@, self.spec_pixels()@, w, h, mi, pol, *eval, *shade) == target,
            decreases weight(rect_stack@),
        {
            let ghost stack0 = rect_stack@;
            let r = rect_stack.pop().unwrap();
            let ghost stack1 = rect_stack@;
            assert(stack1 == stack0.drop_last() && r == stack0.last());
            assert(rect_ok(stack0[stack0.len() - 1], w, h));
            let (x1, y1, x2, y2, depth) = r;
            let ghost t0 = *self;
            let c1 = self.get_pixel_color(x1, y1, eval);
            let c2 = self.get_pixel_color(x2, y1, eval);
            let c3 = self.get_pixel_color(x1, y2, eval);
            let c4 = self.get_pixel_color(x2, y2, eval);
            let ghost t1 = *self;
            assert(t1.cache_extends(&t0));
            assert(stack_ok(stack0, w, h));
            proof {
                if det {
                    lemma_count_is(*eval, x1, y1, c1);
                    lemma_count_is(*eval, x2, y1, c2);
                    lemma_count_is(*eval, x1, y2, c3);
                    lemma_count_is(*eval, x2, y2, c4);
                }
            }
            assert forall|x: int, y: int| 0 <= x < w && 0 <= y < h && #[trigger] t0.drawn(x, y, *shade) implies t1.drawn(x, y, *shade) by {
                t1.lemma_drawn_kept(&t0, x, y, *shade);
            }
            assert forall|x: int, y: int| 0 <= x < w && 0 <= y < h && covered(stack0, x, y) && !in_r(r, x, y) implies covered(stack1, x, y) by {
                let i = choose|i: int| 0 <= i < stack0.len() && #[trigger] in_r(stack0[i], x, y);
                assert(in_r(stack1[i], x, y));
            }
            match fill_value(c1, c2, c3, c4, depth, self.max_iterations, self.policy) {
                Some(avg) => {
                    let color = self.get_color_components(avg, shade);
                    self.pixels.fill_rect(x1, y1, x2, y2, color);
                    proof {
                        self.lemma_same_cache(&t1, *eval);
                        if det {
                            lemma_color_is(*shade, avg, mi, color);
                        }
                    }
                    assert(self.corner_fill(r) == Some(avg));
                    assert(!self.exhaustive());
                    assert forall|x: int, y: int| 0 <= x < w && 0 <= y < h implies #[trigger] self.drawn(x, y, *shade) || covered(rect_stack@, x, y) by {
                        if in_r(r, x, y) {
                            assert(self.spec_pixels().pixel(x, y) == opaque(color));
                            assert(colors(color, avg, mi, *shade));
                            assert(self.fill_drawn(x, y, r, *shade));
                        } else {
                            if t1.drawn(x, y, *shade) {
                                self.lemma_pixels_kept(&t1, x, y, *shade);
                            } else {
                                assert(!t0.drawn(x, y, *shade));
                            }
                        }
                    }
                    proof { lemma_weight_push(stack1, r); }
                },
                None => {
                    if x2 > x1 || y2 > y1 {
                        split(&mut rect_stack, r, self.width, self.height);
                        assert forall|x: int, y: int| 0 <= x < w && 0 <= y < h implies #[trigger] self.drawn(x, y, *shade) || covered(rect_stack@, x, y) by {
                            if in_r(r, x, y) {
                            } else if covered(stack1, x, y) {
                                let i = choose|i: int| 0 <= i < stack1.len() && #[trigger] in_r(stack1[i], x, y);
                                assert(in_r(rect_stack@[i], x, y));
                            } else {
                                assert(t0.drawn(x, y, *shade));
                            }
                        }
                        proof { lemma_weight_push(stack1, r); }
                    } else {
                        let color = self.get_color_components(c1, shade);
                        self.pixels.fill_rect(x1, y1, x1, y1, color);
                        proof {
                            self.lemma_same_cache(&t1, *eval);
                            if det {
                                lemma_color_is(*shade, c1, mi, color);
                            }
                        }
                        assert forall|x: int, y: int| 0 <= x < w && 0 <= y < h implies #[trigger] self.drawn(x, y, *shade) || covered(rect_stack@, x, y) by {
                            if in_r(r, x, y) {
                                assert(x == x1 && y == y1);
                                assert(self.spec_pixels().pixel(x, y) == opaque(color));
                                assert(self.cached(x, y) == Some(c1));
                                assert(colors(color, c1, mi, *shade));
                            } else {
                                if t1.drawn(x, y, *shade) {
                                    self.lemma_pixels_kept(&t1, x, y, *shade);
                                } else {
                                    assert(!t0.drawn(x, y, *shade));
                                }
                            }
                        }
                        proof { lemma_weight_push(stack1, r); }
                    }
                },
            }
            proof {
                lemma_weight_nonneg(rect_stack@, w, h);
                assert(rect_ok(r, w, h));
                assert(area(r) >= 1) by (nonlinear_arith)
                    requires
                        r.0 <= r.2,
                        r.1 <= r.3,
                        area(r) == (r.2 - r.0 + 1) * (r.3 - r.1 + 1),
                ;
            }
        }
    }

    /// Draws the whole image and hands over its bytes. Every pixel is opaque and shows
    /// its own count or the fill count of a rectangle around it; in an exhaustive
    /// pass, its own count. With a one-valued `eval` and `shade` the bytes are
    /// exactly `finish` of the whole-image rectangle on the pass's starting image.
    pub fn render<F: Fn(u32, u32) -> u32, S: Fn(u32) -> [u8; 3]>(self, eval: &F, shade: &S) -> (r: Vec<u8>)
        requires
            self.wf(),
            self.cache_agrees(*eval),
            forall|x: u32, y: u32| x < self.spec_width() && y < self.spec_height() ==> #[trigger] eval.requires((x, y)),
            forall|v: u32| #[trigger] shade.requires((v,)),
        ensures
            r@.len() == self.spec_width() * self.spec_height() * 4,
            all_opaque(r@, self.spec_width() as int, self.spec_height() as int),
            forall|x: u32, y: u32|
                x < self.spec_width() && y < self.spec_height() ==> #[trigger] shows_count_or_fill(
                    r@,
                    self.spec_width(),
                    self.spec_height(),
                    x,
                    y,
                    self.spec_max_iterations(),
                    self.spec_policy(),
                    *eval,
                    *shade,
                ),
            self.exhaustive() ==> shows_evaluation(
                r@,
                self.spec_width(),
                self.spec_height(),
                self.spec_max_iterations(),
                *eval,
                *shade,
            ),
            eval_deterministic(*eval) && shade_deterministic(*shade) ==> r@ == finish(
                seq![(0u32, 0u32, (self.spec_width() - 1) as u32, (self.spec_height() - 1) as u32, 0u64)],
                self.spec_pixels()@,
                self.spec_width(),
                self.spec_height(),
                self.spec_max_iterations(),
                self.spec_policy(),
                *eval,
                *shade,
            ),
    {
        let mut me = self;
        me.trace(eval, shade);
        let ghost t = me;
        let r = me.pixels.into_bytes();
        let ghost w = t.width;
        let ghost h = t.height;
        assert forall|x: u32, y: u32| x < w && y < h implies #[trigger] shows_count_or_fill(r@, w, h, x, y, t.max_iterations, t.policy, *eval, *shade) by {
            assert(t.drawn(x as int, y as int, *shade));
            if t.own_drawn(x as int, y as int, *shade) {
                let v = t.cached(x as int, y as int).unwrap();
                assert(eval.ensures((x, y), v));
                assert(shows_own_count(r@, w, x, y, t.max_iterations, *eval, *shade));
            } else {
                let rr = choose|rr: Rect| #[trigger] t.fill_drawn(x as int, y as int, rr, *shade);
                let c1 = t.cached(rr.0 as int, rr.1 as int).unwrap();
                let c2 = t.cached(rr.2 as int, rr.1 as int).unwrap();
                let c3 = t.cached(rr.0 as int, rr.3 as int).unwrap();
                let c4 = t.cached(rr.2 as int, rr.3 as int).unwrap();
                assert(eval.ensures((rr.0, rr.1), c1));
                assert(eval.ensures((rr.2, rr.1), c2));
                assert(eval.ensures((rr.0, rr.3), c3));
                assert(eval.ensures((rr.2, rr.3), c4));
                assert(shows_fill(r@, w, h, x, y, rr, (c1, c2, c3, c4), t.max_iterations, t.policy, *eval, *shade));
            }
        }
        assert forall|x: int, y: int| 0 <= x < w && 0 <= y < h implies (#[trigger] pixel_of(r@, w as int, x, y)).3 == 255u8 by {
            assert(shows_count_or_fill(r@, w, h, x as u32, y as u32, t.max_iterations, t.policy, *eval, *shade));
        }
        proof {
            if t.exhaustive() {
                assert forall|x: u32, y: u32| x < w && y < h implies #[trigger] shows_own_count(r@, w, x, y, t.max_iterations, *eval, *shade) by {
                    assert(t.drawn(x as int, y as int, *shade));
                    let v = t.cached(x as int, y as int).unwrap();
                    assert(eval.ensures((x, y), v));
                }
            }
        }
        r
    }

    /// The color of count `iteration`: black at or past the limit, else `shade`'s.
    pub fn get_color_components<S: Fn(u32) -> [u8; 3]>(&self, iteration: u32, shade: &S) -> (r: [u8; 3])
        requires
            shade.requires((iteration,)),
        ensures
            colors(r, iteration, self.spec_max_iterations(), *shade),
    {
        if iteration >= self.max_iterations {
            return [0u8, 0u8, 0u8];
        }
        shade(iteration)
    }
}

/// Renders a `width` by `height` image by adaptive subdivision: corners of each
/// rectangle are evaluated with `eval` (memoised for the pass) and colored with
/// `shade` below `max_iterations`, black at it.
pub fn trace_image<F: Fn(u32, u32) -> u32, S: Fn(u32) -> [u8; 3]>(
    width: u32,
    height: u32,
    max_iterations: u32,
    policy: FillPolicy,
    eval: &F,
    shade: &S,
) -> (r: Result<Vec<u8>, RenderError>)
    requires
        width * height * 4 <= usize::MAX,
        forall|x: u32, y: u32| x < width && y < height ==> #[trigger] eval.requires((x, y)),
        forall|v: u32| #[trigger] shade.requires((v,)),
    ensures
        width == 0 || height == 0 <==> r is Err,
        r is Err ==> r == Err::<Vec<u8>, RenderError>(RenderError::DegenerateViewport),
        r matches Ok(b) ==> {
            &&& b@.len() == width * height * 4
            &&& all_opaque(b@, width as int, height as int)
            &&& forall|x: u32, y: u32|
                x < width && y < height ==> #[trigger] shows_count_or_fill(
                    b@,
                    width,
                    height,
                    x,
                    y,
                    max_iterations,
                    policy,
                    *eval,
                    *shade,
                )
            &&& policy.min_depth >= width + height ==> shows_evaluation(
                b@,
                width,
                height,
                max_iterations,
                *eval,
                *shade,
            )
            &&& eval_deterministic(*eval) && shade_deterministic(*shade) ==> b@ == traced(
                width,
                height,
                max_iterations,
                policy,
                *eval,
                *shade,
            )
        },
{
    let tracer = match BoundaryTracer::new(width, height, max_iterations, policy) {
        Ok(t) => t,
        Err(e) => {
            return Err(e);
        },
    };
    assert forall|x: u32, y: u32| x < width && y < height implies match #[trigger] tracer.cached(x as int, y as int) {
        Some(v) => eval.ensures((x, y), v),
        None => true,
    } by {
        assert(tracer.cached(x as int, y as int) is None);
    }
    Ok(tracer.render(eval, shade))
}

/// Renders a `width` by `height` image by evaluating every pixel with `eval` and
/// coloring it with `shade` below `max_iterations`, black at it.
pub fn render_per_pixel<F: Fn(u32, u32) -> u32, S: Fn(u32) -> [u8; 3]>(
    width: u32,
    height: u32,
    max_iterations: u32,
    eval: &F,
    shade: &S,
) -> (r: Result<Vec<u8>, RenderError>)
    requires
        width * height * 4 <= usize::MAX,
        forall|x: u32, y: u32| x < width && y < height ==> #[trigger] eval.requires((x, y)),
        forall|v: u32| #[trigger] shade.requires((v,)),
    ensures
        width == 0 || height == 0 <==> r is Err,
        r is Err ==> r == Err::<Vec<u8>, RenderError>(RenderError::DegenerateViewport),
        r matches Ok(b) ==> {
            &&& all_opaque(b@, width as int, height as int)
            &&& shows_evaluation(b@, width, height, max_iterations, *eval, *shade)
        },
{
    let mut pixels = match PixelBuffer::new(width, height) {
        Ok(p) => p,
        Err(e) => {
            return Err(e);
        },
    };
    let mut y: u32 = 0;
    while y < height
        invariant
            pixels.wf(),
            pixels.spec_width() == width,
            pixels.spec_height() == height,
            y <= height,
            forall|x: u32, y: u32| x < width && y < height ==> #[trigger] eval.requires((x, y)),
            forall|v: u32| #[trigger] shade.requires((v,)),
            forall|px: u32, py: u32|
                px < width && py < y ==> #[trigger] shows_own_count(pixels@, width, px, py, max_iterations, *eval, *shade),
        decreases height - y,
    {
        let mut x: u32 = 0;
        while x < width
            invariant
                pixels.wf(),
                pixels.spec_width() == width,
                pixels.spec_height() == height,
                x <= width,
                y < height,
                forall|x: u32, y: u32| x < width && y < height ==> #[trigger] eval.requires((x, y)),
                forall|v: u32| #[trigger] shade.requires((v,)),
                forall|px: u32, py: u32|
                    (px < width && py < y) || (py == y && px < x) ==> #[trigger] shows_own_count(pixels@, width, px, py, max_iterations, *eval, *shade),
            decreases width - x,
        {
            let v = eval(x, y);
            let color: [u8; 3] = if v >= max_iterations { [0u8, 0u8, 0u8] } else { shade(v) };
            let ghost before = pixels;
            pixels.put_pixel(x, y, color);
            assert forall|px: u32, py: u32|
                (px < width && py < y) || (py == y && px < x + 1) implies #[trigger] shows_own_count(pixels@, width, px, py, max_iterations, *eval, *shade) by {
                if px == x && py == y {
                    assert(colors(color, v, max_iterations, *shade));
                    assert(shows(pixel_of(pixels@, width as int, px as int, py as int), v, max_iterations, *shade));
                } else {
                    assert(shows_own_count(before@, width, px, py, max_iterations, *eval, *shade));
                    assert(pixels.pixel(px as int, py as int) == before.pixel(px as int, py as int));
                }
            }
            x = x + 1;
        }
        y = y + 1;
    }
    let r = pixels.into_bytes();
    assert forall|x: int, y: int| 0 <= x < width && 0 <= y < height implies (#[trigger] pixel_of(r@, width as int, x, y)).3 == 255u8 by {
        assert(shows_own_count(r@, width, x as u32, y as u32, max_iterations, *eval, *shade));
    }
    Ok(r)
}

/// Two images that both show, at every pixel, the count a one-valued `eval` gives
/// for it, colored by a one-valued `shade`, are the same bytes: an exhaustive
/// adaptive pass draws exactly what per-pixel rendering draws.
pub proof fn lemma_exhaustive_trace_matches_per_pixel<F: Fn(u32, u32) -> u32, S: Fn(u32) -> [u8; 3]>(
    a: Seq<u8>,
    b: Seq<u8>,
    width: u32,
    height: u32,
    max_iterations: u32,
    eval: F,
    shade: S,
)
    requires
        shows_evaluation(a, width, height, max_iterations, eval, shade),
        shows_evaluation(b, width, height, max_iterations, eval, shade),
        eval_deterministic(eval),
        shade_deterministic(shade),
    ensures
        a == b,
{
    assert forall|i: int| 0 <= i < a.len() implies a[i] == b[i] by {
        let w = width as int;
        assert(w > 0 && height > 0) by (nonlinear_arith)
            requires
                a.len() == width * height * 4,
                0 <= i < a.len(),
                w == width,
        ;
        lemma_byte_pixel(i, w, height as int);
        let x = (i / 4) % w;
        let y = (i / 4) / w;
        assert(shows_own_count(a, width, x as u32, y as u32, max_iterations, eval, shade));
        assert(shows_own_count(b, width, x as u32, y as u32, max_iterations, eval, shade));
        let va = choose|v: u32| eval.ensures((x as u32, y as u32), v) && shows(pixel_of(a, w, x, y), v, max_iterations, shade);
        let vb = choose|v: u32| eval.ensures((x as u32, y as u32), v) && shows(pixel_of(b, w, x, y), v, max_iterations, shade);
        assert(va == vb);
        let ca = choose|c: [u8; 3]| colors(c, va, max_iterations, shade) && pixel_of(a, w, x, y) == opaque(c);
        let cb = choose|c: [u8; 3]| colors(c, vb, max_iterations, shade) && pixel_of(b, w, x, y) == opaque(c);
        if va < max_iterations {
            assert(ca == cb);
        }
        assert(pixel_of(a, w, x, y) == pixel_of(b, w, x, y));
    }
    assert(a =~= b);
}

} // verus!
