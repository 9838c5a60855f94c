//! The dihedral group of a rectangle: the eight images of a row-major cell
//! sequence under rotation and mirroring, their composition, and their
//! inverses.
//!
//! A transform index is an `int` in `{1, 2, 3, 4, -1, -2, -3, -4}`:
//! `1..4` are rotations by 0, 90, 180, 270 degrees clockwise, and `-1..-4`
//! are the same rotations applied after a horizontal mirror.
use vstd::prelude::*;

verus! {

/// The transform indices that name one of the eight dihedral images.
pub open spec fn rot_valid(r: int) -> bool {
    1 <= r <= 4 || -4 <= r <= -1
}

/// Whether the image of transform `r` has its width and height swapped.
pub open spec fn rot_swaps(r: int) -> bool {
    r == 2 || r == 4 || r == -2 || r == -4
}

/// Whether the source column is read right-to-left by transform `r`.
pub open spec fn rot_flip_x(r: int) -> bool {
    r == 3 || r == 4 || r == -1 || r == -2
}

/// Whether the source row is read bottom-to-top by transform `r`.
pub open spec fn rot_flip_y(r: int) -> bool {
    r == 2 || r == 3 || r == -2 || r == -3
}

/// Width of the image of a `w` by `h` rectangle under transform `r`.
pub open spec fn rot_w(w: nat, h: nat, r: int) -> nat {
    if rot_swaps(r) {
        h
    } else {
        w
    }
}

/// Height of the image of a `w` by `h` rectangle under transform `r`.
pub open spec fn rot_h(w: nat, h: nat, r: int) -> nat {
    if rot_swaps(r) {
        w
    } else {
        h
    }
}

/// Source column read for destination cell `(x, y)` of the image under `r`,
/// where `w` and `h` are the dimensions of the source rectangle.
pub open spec fn src_x(r: int, w: nat, h: nat, x: int, y: int) -> int {
    let a = if rot_swaps(r) {
        y
    } else {
        x
    };
    if rot_flip_x(r) {
        w - 1 - a
    } else {
        a
    }
}

/// Source row read for destination cell `(x, y)` of the image under `r`.
pub open spec fn src_y(r: int, w: nat, h: nat, x: int, y: int) -> int {
    let b = if rot_swaps(r) {
        x
    } else {
        y
    };
    if rot_flip_y(r) {
        h - 1 - b
    } else {
        b
    }
}

/// The image of the row-major cell sequence `data` (a `w` by `h` rectangle)
/// under transform `r`.  Cell `(x, y)` of the image holds the source cell
/// `(src_x(r, w, h, x, y), src_y(r, w, h, x, y))`.
pub open spec fn spec_image(data: Seq<char>, w: nat, h: nat, r: int) -> Seq<char> {
    Seq::new(
        w * h,
        |j: int|
            {
                let wd = rot_w(w, h, r) as int;
                let x = j % wd;
                let y = j / wd;
                data[src_y(r, w, h, x, y) * (w as int) + src_x(r, w, h, x, y)]
            },
    )
}

/// Composition of transform indices: `rot_mul(a, b)` is the transform whose
/// image is obtained by applying `b` first and `a` to the result.
pub open spec fn rot_mul(a: int, b: int) -> int {
    let i = if a > 0 {
        a - 1
    } else {
        -a - 1
    };
    let j = if b > 0 {
        b - 1
    } else {
        -b - 1
    };
    let e = if a < 0 && b < 0 {
        i - j
    } else if a < 0 || b < 0 {
        if a < 0 {
            i - j
        } else {
            i + j
        }
    } else {
        i + j
    };
    let k = ((e % 4) + 4) % 4 + 1;
    if (a < 0) == (b < 0) {
        k
    } else {
        -k
    }
}

/// The inverse transform index: applying `r` and then `rot_inv(r)` restores
/// the original rectangle.
pub open spec fn rot_inv(r: int) -> int {
    if r == 2 {
        4
    } else if r == 4 {
        2
    } else {
        r
    }
}

/// A well-formed rectangle: positive dimensions whose product is the length
/// of the cell sequence.
pub open spec fn rect_wf(data: Seq<char>, w: nat, h: nat) -> bool {
    w >= 1 && h >= 1 && data.len() == w * h
}

/// Cell `(x, y)` of the image under `r` is the source cell the coordinate
/// maps point at.
pub proof fn lemma_image_index(data: Seq<char>, w: nat, h: nat, r: int, x: int, y: int)
    requires
        rect_wf(data, w, h),
        rot_valid(r),
        0 <= x < rot_w(w, h, r),
        0 <= y < rot_h(w, h, r),
    ensures
        0 <= src_y(r, w, h, x, y) * w + src_x(r, w, h, x, y) < data.len(),
        0 <= y * rot_w(w, h, r) + x < data.len(),
        spec_image(data, w, h, r)[y * rot_w(w, h, r) + x] == data[src_y(r, w, h, x, y) * w
            + src_x(r, w, h, x, y)],
{
    let wd = rot_w(w, h, r) as int;
    let hd = rot_h(w, h, r) as int;
    let j = y * wd + x;
    assert(wd * hd == w * h) by (nonlinear_arith)
        requires
            wd == rot_w(w, h, r) && hd == rot_h(w, h, r) && (rot_swaps(r) ==> wd == h && hd == w)
                && (!rot_swaps(r) ==> wd == w && hd == h),
    ;
    assert(0 <= j < wd * hd) by (nonlinear_arith)
        requires
            0 <= x < wd && 0 <= y < hd && j == y * wd + x,
    ;
    vstd::arithmetic::div_mod::lemma_fundamental_div_mod_converse(j, wd, y, x);
    assert(j % wd == x && j / wd == y);
    let sx = src_x(r, w, h, x, y);
    let sy = src_y(r, w, h, x, y);
    assert(0 <= sx < w && 0 <= sy < h);
    assert(0 <= sy * w + sx < w * h) by (nonlinear_arith)
        requires
            0 <= sx < w && 0 <= sy < h,
    ;
}

/// Applying transform `b` and then transform `a` gives the image of the
/// composite transform `rot_mul(a, b)`.
pub proof fn lemma_image_compose(data: Seq<char>, w: nat, h: nat, a: int, b: int)
    requires
        rect_wf(data, w, h),
        rot_valid(a),
        rot_valid(b),
    ensures
        rot_valid(rot_mul(a, b)),
        rot_w(rot_w(w, h, b), rot_h(w, h, b), a) == rot_w(w, h, rot_mul(a, b)),
        rot_h(rot_w(w, h, b), rot_h(w, h, b), a) == rot_h(w, h, rot_mul(a, b)),
        spec_image(spec_image(data, w, h, b), rot_w(w, h, b), rot_h(w, h, b), a) == spec_image(
            data,
            w,
            h,
            rot_mul(a, b),
        ),
{
    let wb = rot_w(w, h, b);
    let hb = rot_h(w, h, b);
    let c = rot_mul(a, b);
    assert(rot_valid(c));
    assert(rot_swaps(c) == (rot_swaps(a) != rot_swaps(b)));
    let inner = spec_image(data, w, h, b);
    let lhs = spec_image(inner, wb, hb, a);
    let rhs = spec_image(data, w, h, c);
    assert(wb * hb == w * h) by (nonlinear_arith)
        requires
            (rot_swaps(b) ==> wb == h && hb == w) && (!rot_swaps(b) ==> wb == w && hb == h),
    ;
    assert(rect_wf(inner, wb, hb));
    assert forall|j: int| 0 <= j < w * h implies lhs[j] == rhs[j] by {
        let wc = rot_w(w, h, c) as int;
        let x = j % wc;
        let y = j / wc;
        vstd::arithmetic::div_mod::lemma_fundamental_div_mod(j, wc);
        vstd::arithmetic::div_mod::lemma_mod_division_less_than_divisor(j, wc);
        assert(0 <= y < rot_h(w, h, c)) by (nonlinear_arith)
            requires
                j == wc * y + x && 0 <= x < wc && 0 <= j < wc * rot_h(w, h, c),
        ;
        lemma_image_index(data, w, h, c, x, y);
        assert(rhs[j] == data[src_y(c, w, h, x, y) * w + src_x(c, w, h, x, y)]);
        // The same destination cell through the two-step path.
        lemma_image_index(inner, wb, hb, a, x, y);
        let mx = src_x(a, wb, hb, x, y);
        let my = src_y(a, wb, hb, x, y);
        assert(lhs[j] == inner[my * wb + mx]);
        lemma_image_index(data, w, h, b, mx, my);
        assert(inner[my * wb + mx] == data[src_y(b, w, h, mx, my) * w + src_x(b, w, h, mx, my)]);
        assert(src_x(b, w, h, mx, my) == src_x(c, w, h, x, y) && src_y(b, w, h, mx, my) == src_y(
            c,
            w,
            h,
            x,
            y,
        ));
    }
    assert(lhs =~= rhs);
}

/// Transform `1` is the identity.
pub proof fn lemma_image_identity(data: Seq<char>, w: nat, h: nat)
    requires
        rect_wf(data, w, h),
    ensures
        spec_image(data, w, h, 1) == data,
{
    assert forall|j: int| 0 <= j < w * h implies spec_image(data, w, h, 1)[j] == data[j] by {
        let x = j % (w as int);
        let y = j / (w as int);
        vstd::arithmetic::div_mod::lemma_fundamental_div_mod(j, w as int);
        vstd::arithmetic::div_mod::lemma_mod_division_less_than_divisor(j, w as int);
        assert(0 <= y < h) by (nonlinear_arith)
            requires
                j == (w as int) * y + x && 0 <= x < w && 0 <= j < w * h,
        ;
        lemma_image_index(data, w, h, 1, x, y);
        assert(y * w + x == j);
    }
    assert(spec_image(data, w, h, 1) =~= data);
}

/// `rot_inv` composes with its argument to the identity, on both sides.
pub proof fn lemma_rot_inv(r: int)
    requires
        rot_valid(r),
    ensures
        rot_valid(rot_inv(r)),
        rot_mul(rot_inv(r), r) == 1,
        rot_mul(r, rot_inv(r)) == 1,
{
}

/// Applying transform `r` and then its inverse restores the rectangle.
pub proof fn lemma_image_roundtrip(data: Seq<char>, w: nat, h: nat, r: int)
    requires
        rect_wf(data, w, h),
        rot_valid(r),
    ensures
        spec_image(spec_image(data, w, h, r), rot_w(w, h, r), rot_h(w, h, r), rot_inv(r)) == data,
{
    lemma_rot_inv(r);
    lemma_image_compose(data, w, h, rot_inv(r), r);
    lemma_image_identity(data, w, h);
}

} // verus!
