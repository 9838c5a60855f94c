//! Patterns: rectangular stencils of symbols, their eight dihedral images,
//! and the canonical (lexicographically smallest) image used as a fast
//! equality key when matching square, wildcard-free templates.
use vstd::prelude::*;

use crate::transform::{
    lemma_image_identity, lemma_image_index, lemma_image_roundtrip, rect_wf, rot_h, rot_inv,
    rot_mul, rot_valid, rot_w, spec_image, src_x, src_y,
};
use crate::ANYTHING;
use crate::PATTERN_DELIMITER;
use vstd::string::StrSliceExecFns;

verus! {

broadcast use vstd::utf8::char_is_scalar, vstd::utf8::char_u32_cast;

/// One dihedral image of a pattern: its cells in row-major order, its
/// dimensions, and the transform index that produced it.
#[derive(Clone, PartialEq, Eq, Hash, Debug)]
pub struct RotatedSeq {
    pub data: Vec<char>,
    pub width: usize,
    pub height: usize,
    pub rotation: isize,
}

impl RotatedSeq {
    /// This record holds exactly the image of the `w` by `h` rectangle
    /// `data` under transform `r`.
    pub open spec fn is_image_of(self, data: Seq<char>, w: nat, h: nat, r: int) -> bool {
        &&& self.data@ == spec_image(data, w, h, r)
        &&& self.width as nat == rot_w(w, h, r)
        &&& self.height as nat == rot_h(w, h, r)
        &&& self.rotation as int == r
    }

    /// Two images show the same rectangle of cells.
    pub open spec fn same_cells(self, other: RotatedSeq) -> bool {
        self.data@ == other.data@ && self.width == other.width && self.height == other.height
    }
}

/// The order in which the eight dihedral images of a pattern are listed.
pub open spec fn rot_order(k: int) -> int {
    if k < 4 {
        k + 1
    } else {
        -(k - 3)
    }
}

/// `rot_order` enumerates each valid transform index exactly once.
pub proof fn lemma_rot_order_covers(r: int)
    requires
        rot_valid(r),
    ensures
        exists|k: int| 0 <= k < 8 && rot_order(k) == r,
{
    if r > 0 {
        assert(rot_order(r - 1) == r);
    } else {
        assert(rot_order(3 - r) == r);
    }
}

/// Computes one dihedral image of a rectangle of cells.
fn apply_transform(data: &[char], width: usize, height: usize, r: isize) -> (out: Vec<char>)
    requires
        rect_wf(data@, width as nat, height as nat),
        rot_valid(r as int),
    ensures
        out@ == spec_image(data@, width as nat, height as nat, r as int),
{
    let w = width;
    let h = height;
    let swaps = r == 2 || r == 4 || r == -2 || r == -4;
    let flip_x = r == 3 || r == 4 || r == -1 || r == -2;
    let flip_y = r == 2 || r == 3 || r == -2 || r == -3;
    let wd = if swaps {
        h
    } else {
        w
    };
    let hd = if swaps {
        w
    } else {
        h
    };
    let ghost target = spec_image(data@, w as nat, h as nat, r as int);
    let mut out: Vec<char> = Vec::new();
    let n = data.len();
    assert(wd * hd == n) by (nonlinear_arith)
        requires
            n == w * h && (swaps ==> wd == h && hd == w) && (!swaps ==> wd == w && hd == h),
    ;
    for j in 0..n
        invariant
            out@.len() == j,
            n == data@.len(),
            n == w * h,
            n == wd * hd,
            w >= 1,
            h >= 1,
            wd as nat == rot_w(w as nat, h as nat, r as int),
            hd as nat == rot_h(w as nat, h as nat, r as int),
            swaps == crate::transform::rot_swaps(r as int),
            flip_x == crate::transform::rot_flip_x(r as int),
            flip_y == crate::transform::rot_flip_y(r as int),
            rot_valid(r as int),
            target == spec_image(data@, w as nat, h as nat, r as int),
            forall|k: int| 0 <= k < j ==> out@[k] == target[k],
    {
        let x = j % wd;
        let y = j / wd;
        proof {
            vstd::arithmetic::div_mod::lemma_fundamental_div_mod(j as int, wd as int);
            vstd::arithmetic::div_mod::lemma_mod_division_less_than_divisor(j as int, wd as int);
            assert(y < hd) by (nonlinear_arith)
                requires
                    j == wd * y + x && 0 <= x < wd && j < wd * hd && wd >= 1,
            ;
        }
        let a = if swaps {
            y
        } else {
            x
        };
        let b = if swaps {
            x
        } else {
            y
        };
        let sx = if flip_x {
            w - 1 - a
        } else {
            a
        };
        let sy = if flip_y {
            h - 1 - b
        } else {
            b
        };
        proof {
            assert(sx as int == src_x(r as int, w as nat, h as nat, x as int, y as int));
            assert(sy as int == src_y(r as int, w as nat, h as nat, x as int, y as int));
            assert(sy * w + sx < n) by (nonlinear_arith)
                requires
                    sx < w && sy < h && n == w * h,
            ;
        }
        out.push(data[sy * w + sx]);
        proof {
            assert(target[j as int] == data@[sy as int * (w as int) + sx as int]);
        }
    }
    proof {
        assert(out@ =~= target);
    }
    out
}

/// The row-major reversal of a cell sequence, which is its 180 degree
/// rotation whatever the rectangle's dimensions.
pub open spec fn seq_reversed(s: Seq<char>) -> Seq<char> {
    Seq::new(s.len(), |j: int| s[s.len() - 1 - j])
}

/// Reversal equals the image under transform `3` (the 180 degree rotation).
pub proof fn lemma_reversed_is_image_180(data: Seq<char>, w: nat, h: nat)
    requires
        rect_wf(data, w, h),
    ensures
        seq_reversed(data) == spec_image(data, w, h, 3),
{
    let img = spec_image(data, w, h, 3);
    assert forall|j: int| 0 <= j < w * h implies seq_reversed(data)[j] == img[j] by {
        let x = j % (w as int);
        let y = j / (w as int);
        vstd::arithmetic::div_mod::lemma_fundamental_div_mod(j, w as int);
        vstd::arithmetic::div_mod::lemma_mod_division_less_than_divisor(j, w as int);
        assert(0 <= y < h) by (nonlinear_arith)
            requires
                j == (w as int) * y + x && 0 <= x < w && 0 <= j < w * h,
        ;
        lemma_image_index(data, w, h, 3, x, y);
        assert(y * w + x == j);
        assert((h - 1 - y) * w + (w - 1 - x) == w * h - 1 - j) by (nonlinear_arith)
            requires
                j == y * (w as int) + x && 0 <= x < w && 0 <= y < h,
        ;
    }
    assert(seq_reversed(data) =~= img);
}

/// Two characters with the same code point are the same character.
pub proof fn lemma_char_u32_eq(a: char, b: char)
    requires
        a as u32 == b as u32,
    ensures
        a == b,
{
    vstd::utf8::char_u32_cast(a, a as u32);
    vstd::utf8::char_u32_cast(b, b as u32);
}

/// Strict lexicographic order on two cell sequences of equal length:
/// there is a first position where they differ, and the left one holds the
/// smaller code point there.
pub open spec fn lex_wit(a: Seq<char>, b: Seq<char>, i: int) -> bool {
    &&& 0 <= i < a.len()
    &&& i < b.len()
    &&& (a[i] as u32) < (b[i] as u32)
    &&& forall|k: int| 0 <= k < i ==> a[k] == b[k]
}

/// `a` sorts strictly before `b` as a string of cells.
pub open spec fn lex_lt(a: Seq<char>, b: Seq<char>) -> bool {
    exists|i: int| lex_wit(a, b, i)
}

/// Two cell sequences of equal length are equal or one sorts strictly
/// before the other.
pub proof fn lemma_lex_connex(a: Seq<char>, b: Seq<char>)
    requires
        a.len() == b.len(),
    ensures
        a =~= b || lex_lt(a, b) || lex_lt(b, a),
    decreases a.len(),
{
    if a.len() == 0 {
    } else if a[0] != b[0] {
        if (a[0] as u32) < (b[0] as u32) {
            assert(lex_wit(a, b, 0));
        } else {
            if a[0] as u32 == b[0] as u32 {
                lemma_char_u32_eq(a[0], b[0]);
            }
            assert((b[0] as u32) < (a[0] as u32));
            assert(lex_wit(b, a, 0));
        }
    } else {
        let a1 = a.skip(1);
        let b1 = b.skip(1);
        lemma_lex_connex(a1, b1);
        if a1 =~= b1 {
            assert forall|i: int| 0 <= i < a.len() implies a[i] == b[i] by {
                if i > 0 {
                    assert(a1[i - 1] == b1[i - 1]);
                }
            }
            assert(a =~= b);
        } else if lex_lt(a1, b1) {
            let i = choose|i: int| lex_wit(a1, b1, i);
            assert(a1[i] == a[i + 1] && b1[i] == b[i + 1]);
            assert forall|k: int| 0 <= k < i + 1 implies a[k] == b[k] by {
                if k > 0 {
                    assert(a1[k - 1] == b1[k - 1]);
                }
            }
            assert(lex_wit(a, b, i + 1));
        } else {
            let i = choose|i: int| lex_wit(b1, a1, i);
            assert(b1[i] == b[i + 1] && a1[i] == a[i + 1]);
            assert forall|k: int| 0 <= k < i + 1 implies b[k] == a[k] by {
                if k > 0 {
                    assert(b1[k - 1] == a1[k - 1]);
                }
            }
            assert(lex_wit(b, a, i + 1));
        }
    }
}

/// `lex_lt` is irreflexive and asymmetric.
pub proof fn lemma_lex_asymmetric(a: Seq<char>, b: Seq<char>)
    requires
        lex_lt(a, b),
    ensures
        !lex_lt(b, a),
        a != b,
{
    let i = choose|i: int| lex_wit(a, b, i);
    assert(a[i] != b[i]);
    if lex_lt(b, a) {
        let j = choose|j: int| lex_wit(b, a, j);
        if i < j {
            assert(b[i] == a[i]);
        } else if j < i {
            assert(a[j] == b[j]);
        }
    }
}

/// Compares two equally long cell sequences lexicographically.
fn lex_less(a: &[char], b: &[char]) -> (r: bool)
    requires
        a@.len() == b@.len(),
    ensures
        r == lex_lt(a@, b@),
{
    let n = a.len();
    for i in 0..n
        invariant
            n == a@.len() == b@.len(),
            forall|k: int| 0 <= k < i ==> a@[k] == b@[k],
    {
        let ca = a[i] as u32;
        let cb = b[i] as u32;
        if ca < cb {
            proof {
                assert(lex_wit(a@, b@, i as int));
            }
            return true;
        }
        if ca > cb {
            proof {
                if lex_lt(a@, b@) {
                    let j = choose|j: int| lex_wit(a@, b@, j);
                    if j < i {
                        assert(a@[j] == b@[j]);
                    } else {
                        assert(a@[i as int] == b@[i as int]);
                    }
                }
            }
            return false;
        }
        proof {
            assert(a@[i as int] as u32 == b@[i as int] as u32);
            lemma_char_u32_eq(a@[i as int], b@[i as int]);
        }
    }
    proof {
        if lex_lt(a@, b@) {
            let j = choose|j: int| lex_wit(a@, b@, j);
            assert(a@[j] == b@[j]);
        }
    }
    false
}

/// Tie-break between two transform indices whose images hold the same
/// cells: a non-mirrored image beats a mirrored one, then the smaller
/// rotation amount wins.
pub open spec fn rot_pref_lt(r1: int, r2: int) -> bool {
    if r1 > 0 && r2 < 0 {
        true
    } else if r1 < 0 && r2 > 0 {
        false
    } else {
        (if r1 < 0 {
            -r1
        } else {
            r1
        }) < (if r2 < 0 {
            -r2
        } else {
            r2
        })
    }
}

/// The strict order that picks a canonical image: smaller cells first,
/// ties broken by `rot_pref_lt`.
pub open spec fn canon_better(d1: Seq<char>, r1: int, d2: Seq<char>, r2: int) -> bool {
    lex_lt(d1, d2) || (d1 == d2 && rot_pref_lt(r1, r2))
}

/// The best (cells, transform) pair among the first `k` of the eight
/// dihedral images, scanning in `rot_order` and keeping the earlier image
/// unless a strictly better one appears.
pub open spec fn spec_canon_upto(data: Seq<char>, w: nat, h: nat, k: int) -> (Seq<char>, int)
    decreases k,
{
    if k <= 1 {
        (spec_image(data, w, h, 1), 1)
    } else {
        let prev = spec_canon_upto(data, w, h, k - 1);
        let r = rot_order(k - 1);
        let cd = spec_image(data, w, h, r);
        if canon_better(cd, r, prev.0, prev.1) {
            (cd, r)
        } else {
            prev
        }
    }
}

/// The canonical form of a rectangle of cells: the lexicographically
/// smallest of its eight dihedral images, paired with the transform index
/// that produces it.
pub open spec fn spec_canonical(data: Seq<char>, w: nat, h: nat) -> (Seq<char>, int) {
    spec_canon_upto(data, w, h, 8)
}

/// The canonical form is one of the eight images and no image beats it.
pub proof fn lemma_canonical_min(data: Seq<char>, w: nat, h: nat)
    requires
        rect_wf(data, w, h),
    ensures
        exists|k: int|
            0 <= k < 8 && #[trigger] rot_order(k) == spec_canonical(data, w, h).1 && spec_image(
                data,
                w,
                h,
                rot_order(k),
            ) == spec_canonical(data, w, h).0,
        forall|k: int|
            0 <= k < 8 ==> !canon_better(
                spec_image(data, w, h, #[trigger] rot_order(k)),
                rot_order(k),
                spec_canonical(data, w, h).0,
                spec_canonical(data, w, h).1,
            ),
{
    lemma_canon_upto_min(data, w, h, 8);
}

/// Induction step for `lemma_canonical_min`.
proof fn lemma_canon_upto_min(data: Seq<char>, w: nat, h: nat, n: int)
    requires
        rect_wf(data, w, h),
        1 <= n <= 8,
    ensures
        exists|k: int|
            0 <= k < n && #[trigger] rot_order(k) == spec_canon_upto(data, w, h, n).1 && spec_image(
                data,
                w,
                h,
                rot_order(k),
            ) == spec_canon_upto(data, w, h, n).0,
        forall|k: int|
            0 <= k < n ==> !canon_better(
                spec_image(data, w, h, #[trigger] rot_order(k)),
                rot_order(k),
                spec_canon_upto(data, w, h, n).0,
                spec_canon_upto(data, w, h, n).1,
            ),
    decreases n,
{
    let cur = spec_canon_upto(data, w, h, n);
    if n == 1 {
        assert(rot_order(0) == 1);
        assert(!canon_better(spec_image(data, w, h, 1), 1, cur.0, cur.1)) by {
            if lex_lt(cur.0, cur.0) {
                lemma_lex_asymmetric(cur.0, cur.0);
            }
        }
    } else {
        let prev = spec_canon_upto(data, w, h, n - 1);
        lemma_canon_upto_min(data, w, h, n - 1);
        let r = rot_order(n - 1);
        let cd = spec_image(data, w, h, r);
        if canon_better(cd, r, prev.0, prev.1) {
            assert(cur == (cd, r));
            assert forall|k: int| 0 <= k < n implies !canon_better(
                spec_image(data, w, h, #[trigger] rot_order(k)),
                rot_order(k),
                cur.0,
                cur.1,
            ) by {
                if k < n - 1 {
                    let kd = spec_image(data, w, h, rot_order(k));
                    if canon_better(kd, rot_order(k), cd, r) {
                        // Transitivity against the previous best.
                        lemma_canon_better_trans(
                            kd,
                            rot_order(k),
                            cd,
                            r,
                            prev.0,
                            prev.1,
                        );
                    }
                } else {
                    if lex_lt(cd, cd) {
                        lemma_lex_asymmetric(cd, cd);
                    }
                }
            }
        } else {
            assert(cur == prev);
            assert forall|k: int| 0 <= k < n implies !canon_better(
                spec_image(data, w, h, #[trigger] rot_order(k)),
                rot_order(k),
                cur.0,
                cur.1,
            ) by {}
        }
    }
}

/// `canon_better` is transitive.
pub proof fn lemma_canon_better_trans(
    d1: Seq<char>,
    r1: int,
    d2: Seq<char>,
    r2: int,
    d3: Seq<char>,
    r3: int,
)
    requires
        canon_better(d1, r1, d2, r2),
        canon_better(d2, r2, d3, r3),
    ensures
        canon_better(d1, r1, d3, r3),
{
    if lex_lt(d1, d2) && lex_lt(d2, d3) {
        let i = choose|i: int| lex_wit(d1, d2, i);
        let j = choose|j: int| lex_wit(d2, d3, j);
        if i <= j {
            assert forall|k: int| 0 <= k < i implies d1[k] == d3[k] by {}
            if i < j {
                assert(d2[i] == d3[i]);
            }
            assert(lex_wit(d1, d3, i));
        } else {
            assert forall|k: int| 0 <= k < j implies d1[k] == d3[k] by {}
            assert(d1[j] == d2[j]);
            assert(lex_wit(d1, d3, j));
        }
    }
}

/// Whether two equally long cell vectors hold the same cells.
pub(crate) fn cells_equal(a: &[char], b: &[char]) -> (r: bool)
    requires
        a@.len() == b@.len(),
    ensures
        r == (a@ =~= b@),
{
    let n = a.len();
    for i in 0..n
        invariant
            n == a@.len() == b@.len(),
            forall|k: int| 0 <= k < i ==> a@[k] == b@[k],
    {
        if a[i] as u32 != b[i] as u32 {
            proof {
                if a@[i as int] == b@[i as int] {
                    assert(a@[i as int] as u32 == b@[i as int] as u32);
                }
                assert(!(a@ =~= b@));
            }
            return false;
        }
        proof {
            lemma_char_u32_eq(a@[i as int], b@[i as int]);
        }
    }
    true
}

/// `rs` is one of the dihedral images of the `w` by `h` rectangle `data`.
pub open spec fn some_image_of(rs: RotatedSeq, data: Seq<char>, w: nat, h: nat) -> bool {
    exists|r: int| rot_valid(r) && #[trigger] rs.is_image_of(data, w, h, r)
}

/// `u` repeats one entry of the image list, field for field.
pub open spec fn echoes_entry(u: RotatedSeq, rotations: Seq<RotatedSeq>) -> bool {
    exists|k: int|
        0 <= k < rotations.len() && u.data@ == (#[trigger] rotations[k]).data@ && u.width
            == rotations[k].width && u.height == rotations[k].height && u.rotation == rotations[
        k].rotation
}

/// Some entry of `unique` shows the same cells as `rs`.
pub open spec fn covered_by(rs: RotatedSeq, unique: Seq<RotatedSeq>) -> bool {
    exists|t: int| 0 <= t < unique.len() && #[trigger] unique[t].same_cells(rs)
}

/// The properties of the list of unique images kept by a pattern: every
/// entry is a dihedral image of the pattern, every image is represented,
/// and no two entries show the same cells.
pub open spec fn unique_rotations_wf(
    unique: Seq<RotatedSeq>,
    rotations: Seq<RotatedSeq>,
    data: Seq<char>,
    w: nat,
    h: nat,
) -> bool {
    &&& forall|i: int|
        0 <= i < unique.len() ==> #[trigger] echoes_entry(unique[i], rotations)
    &&& forall|k: int|
        0 <= k < rotations.len() ==> #[trigger] covered_by(rotations[k], unique)
    &&& forall|i: int, j: int|
        0 <= i < j < unique.len() ==> !unique[i].same_cells(unique[j])
    &&& unique.len() >= 1
}

impl RotatedSeq {
    /// A fresh copy of this image.
    fn duplicate(&self) -> (out: RotatedSeq)
        ensures
            out.data@ == self.data@,
            out.width == self.width,
            out.height == self.height,
            out.rotation == self.rotation,
    {
        RotatedSeq {
            data: vstd::slice::slice_to_vec(self.data.as_slice()),
            width: self.width,
            height: self.height,
            rotation: self.rotation,
        }
    }
}

/// Compares two images by the canonical order: smaller cells first, then
/// the preferred transform index.
fn canon_less(a: &RotatedSeq, b: &RotatedSeq) -> (r: bool)
    requires
        a.data@.len() == b.data@.len(),
        rot_valid(a.rotation as int),
        rot_valid(b.rotation as int),
    ensures
        r == canon_better(a.data@, a.rotation as int, b.data@, b.rotation as int),
{
    if lex_less(a.data.as_slice(), b.data.as_slice()) {
        return true;
    }
    if !cells_equal(a.data.as_slice(), b.data.as_slice()) {
        return false;
    }
    proof {
        assert(a.data@ == b.data@);
    }
    let r1 = a.rotation;
    let r2 = b.rotation;
    if r1 > 0 && r2 < 0 {
        return true;
    }
    if r1 < 0 && r2 > 0 {
        return false;
    }
    let a1 = if r1 < 0 {
        -r1
    } else {
        r1
    };
    let a2 = if r2 < 0 {
        -r2
    } else {
        r2
    };
    a1 < a2
}

/// The full list of dihedral images kept by a pattern: a single identity
/// image for a 1 by 1 pattern, else the eight images in `rot_order`.
pub open spec fn rotations_list_wf(rots: Seq<RotatedSeq>, data: Seq<char>, w: nat, h: nat) -> bool {
    if w == 1 && h == 1 {
        rots.len() == 1 && rots[0].is_image_of(data, 1, 1, 1)
    } else {
        rots.len() == 8 && forall|k: int|
            0 <= k < 8 ==> #[trigger] rots[k].is_image_of(data, w, h, rot_order(k))
    }
}

/// Whether a pattern of this shape carries a canonical form: square,
/// larger than a single cell, and free of wildcards.
pub open spec fn has_canonical(w: nat, h: nat, wild: bool) -> bool {
    w == h && !(w == 1 && h == 1) && !wild
}

/// What the canonical-form slot of a pattern must hold.
pub open spec fn canonical_opt_wf(
    c: Option<RotatedSeq>,
    data: Seq<char>,
    w: nat,
    h: nat,
    wild: bool,
) -> bool {
    if has_canonical(w, h, wild) {
        &&& c is Some
        &&& c->Some_0.is_image_of(data, w, h, spec_canonical(data, w, h).1)
        &&& c->Some_0.data@ == spec_canonical(data, w, h).0
    } else {
        c is None
    }
}

/// Index of the first row delimiter in a template at or after `i`, or the
/// template's length where none follows.
pub open spec fn first_delim_from(s: Seq<char>, i: int) -> int
    decreases s.len() - i,
{
    if i < 0 || i >= s.len() {
        s.len() as int
    } else if s[i] == PATTERN_DELIMITER {
        i
    } else {
        first_delim_from(s, i + 1)
    }
}

/// Row width of a template: the cells before the first row delimiter.
pub open spec fn tpl_w(s: Seq<char>) -> nat {
    first_delim_from(s, 0) as nat
}

/// Row count of a template.
pub open spec fn tpl_h(s: Seq<char>) -> nat {
    ((s.len() + 1) / (tpl_w(s) + 1)) as nat
}

/// A well-formed template: at least one row of at least one cell, rows of
/// equal length separated by single delimiters, and every cell either the
/// wildcard or a symbol a grid byte can hold.
pub open spec fn template_wf(s: Seq<char>) -> bool {
    let w = tpl_w(s) as int;
    &&& s.len() >= 1
    &&& w >= 1
    &&& (s.len() + 1) as int % (w + 1) == 0
    &&& forall|i: int|
        0 <= i < s.len() ==> ((#[trigger] s[i] == PATTERN_DELIMITER) <==> (i % (w + 1) == w))
    &&& forall|i: int|
        0 <= i < s.len() ==> (#[trigger] s[i] == PATTERN_DELIMITER || s[i] == ANYTHING || (
        s[i] as u32) < 256)
}

/// The cells of a well-formed template, row-major, delimiters dropped.
pub open spec fn spec_template_data(s: Seq<char>) -> Seq<char> {
    let w = tpl_w(s) as int;
    Seq::new(tpl_w(s) * tpl_h(s), |j: int| s[(j / w) * (w + 1) + (j % w)])
}

/// A rectangular stencil of symbols: the template cells, the dimensions,
/// all eight dihedral images, the distinct images among them, and — for
/// square wildcard-free shapes — the canonical image.
#[derive(Clone, Debug)]
pub struct Pattern {
    pub line: String,
    pub data: Vec<char>,
    pub width: usize,
    pub height: usize,
    pub rotations: Vec<RotatedSeq>,
    pub unique_rotations: Vec<RotatedSeq>,
    pub canonical_form: Option<RotatedSeq>,
    pub has_wildcards: bool,
}

impl Pattern {
    /// The internal consistency every pattern keeps: the cells form a
    /// rectangle of storable symbols, the image lists are exactly the
    /// dihedral images of the cells, and the canonical slot is filled
    /// exactly for square, multi-cell, wildcard-free shapes.
    pub open spec fn wf(self) -> bool {
        let d = self.data@;
        let w = self.width as nat;
        let h = self.height as nat;
        &&& rect_wf(d, w, h)
        &&& forall|j: int|
            0 <= j < d.len() ==> (#[trigger] d[j] == ANYTHING || (d[j] as u32) < 256)
        &&& self.has_wildcards == (exists|j: int| 0 <= j < d.len() && #[trigger] d[j] == ANYTHING)
        &&& rotations_list_wf(self.rotations@, d, w, h)
        &&& unique_rotations_wf(self.unique_rotations@, self.rotations@, d, w, h)
        &&& canonical_opt_wf(self.canonical_form, d, w, h, self.has_wildcards)
    }
}

impl Pattern {
    /// Computes a pattern's dihedral images, the unique images among them,
    /// and — for square, wildcard-free, multi-cell shapes — the canonical
    /// image: the one whose cells sort lowest, ties going to the preferred
    /// transform index.
    #[verifier::loop_isolation(false)]
    pub fn compute_canonical_form_and_rotations(
        data: &[char],
        width: usize,
        height: usize,
        has_wildcards: bool,
    ) -> (out: (Option<RotatedSeq>, Vec<RotatedSeq>, Vec<RotatedSeq>))
        requires
            rect_wf(data@, width as nat, height as nat),
        ensures
            rotations_list_wf(out.1@, data@, width as nat, height as nat),
            unique_rotations_wf(out.2@, out.1@, data@, width as nat, height as nat),
            canonical_opt_wf(out.0, data@, width as nat, height as nat, has_wildcards),
    {
        let ghost w = width as nat;
        let ghost h = height as nat;
        if width == 1 && height == 1 {
            proof {
                lemma_image_identity(data@, 1, 1);
            }
            let first = RotatedSeq {
                data: vstd::slice::slice_to_vec(data),
                width: 1,
                height: 1,
                rotation: 1,
            };
            let second = first.duplicate();
            let rotations = vec![first];
            let unique = vec![second];
            proof {
                assert(rotations@[0].is_image_of(data@, 1, 1, 1));
                assert(unique@[0].is_image_of(data@, 1, 1, 1));
                assert(unique@[0].same_cells(rotations@[0]));
                assert(unique@[0].data@ == rotations@[0].data@ && unique@[0].width == rotations@[
                0].width && unique@[0].height == rotations@[0].height && unique@[0].rotation
                    == rotations@[0].rotation);
                assert(echoes_entry(unique@[0], rotations@));
            }
            return (None, rotations, unique);
        }
        // The eight images, in the fixed listing order.
        let mut rotations: Vec<RotatedSeq> = Vec::new();
        for k in 0..8usize
            invariant
                rect_wf(data@, w, h),
                w == width as nat && h == height as nat,
                !(width == 1 && height == 1),
                rotations@.len() == k,
                forall|t: int|
                    0 <= t < k ==> #[trigger] rotations@[t].is_image_of(data@, w, h, rot_order(t)),
        {
            let r: isize = if k < 4 {
                k as isize + 1
            } else {
                -(k as isize - 3)
            };
            proof {
                assert(r as int == rot_order(k as int));
            }
            let img = apply_transform(data, width, height, r);
            let swaps = r == 2 || r == 4 || r == -2 || r == -4;
            let wd = if swaps {
                height
            } else {
                width
            };
            let hd = if swaps {
                width
            } else {
                height
            };
            rotations.push(RotatedSeq { data: img, width: wd, height: hd, rotation: r });
        }
        // The unique images, keeping the first occurrence of each.
        let mut unique: Vec<RotatedSeq> = Vec::new();
        let rot_count = rotations.len();
        for i in 0..rot_count
            invariant
                rect_wf(data@, w, h),
                w == width as nat && h == height as nat,
                !(width == 1 && height == 1),
                rot_count == rotations@.len() == 8,
                forall|t: int|
                    0 <= t < 8 ==> #[trigger] rotations@[t].is_image_of(data@, w, h, rot_order(t)),
                forall|t: int|
                    0 <= t < unique@.len() ==> #[trigger] echoes_entry(unique@[t], rotations@),
                forall|k: int| 0 <= k < i ==> #[trigger] covered_by(rotations@[k], unique@),
                forall|t: int, u: int|
                    0 <= t < u < unique@.len() ==> !unique@[t].same_cells(unique@[u]),
                i >= 1 ==> unique@.len() >= 1,
                forall|t: int|
                    0 <= t < unique@.len() ==> #[trigger] unique@[t].data@.len() == w * h,
        {
            let cur = &rotations[i];
            proof {
                assert(rotations@[i as int].is_image_of(data@, w, h, rot_order(i as int)));
                assert(cur.data@.len() == w * h);
            }
            let mut found = false;
            let unique_count = unique.len();
            for j in 0..unique_count
                invariant
                    unique_count == unique@.len(),
                    cur == rotations@[i as int],
                    cur.data@.len() == w * h,
                    forall|t: int|
                        0 <= t < unique@.len() ==> #[trigger] unique@[t].data@.len() == w * h,
                    found == exists|t: int|
                        0 <= t < j && #[trigger] unique@[t].same_cells(rotations@[i as int]),
            {
                if !found && unique[j].width == cur.width && unique[j].height == cur.height
                    && cells_equal(unique[j].data.as_slice(), cur.data.as_slice()) {
                    found = true;
                    proof {
                        assert(unique@[j as int].same_cells(rotations@[i as int]));
                    }
                }
            }
            if !found {
                let ghost old_unique = unique@;
                unique.push(cur.duplicate());
                proof {
                    let last = unique@.len() - 1;
                    assert forall|t: int| 0 <= t < unique@.len() implies #[trigger] echoes_entry(
                        unique@[t],
                        rotations@,
                    ) by {
                        if t < last {
                            assert(unique@[t] == old_unique[t]);
                            assert(echoes_entry(old_unique[t], rotations@));
                        } else {
                            assert(unique@[last].data@ == rotations@[i as int].data@
                                && unique@[last].width == rotations@[i as int].width
                                && unique@[last].height == rotations@[i as int].height
                                && unique@[last].rotation == rotations@[i as int].rotation);
                        }
                    }
                    assert(unique@[last].same_cells(rotations@[i as int]));
                    assert forall|t: int| 0 <= t < last implies !unique@[t].same_cells(
                        unique@[last],
                    ) by {
                        assert(unique@[t] == old_unique[t]);
                        if unique@[t].same_cells(unique@[last]) {
                            assert(unique@[t].same_cells(rotations@[i as int]));
                        }
                    }
                    assert forall|k: int| 0 <= k < i + 1 implies #[trigger] covered_by(
                        rotations@[k],
                        unique@,
                    ) by {
                        if k < i {
                            assert(covered_by(rotations@[k], old_unique));
                            let t = choose|t: int|
                                0 <= t < old_unique.len() && #[trigger] old_unique[t].same_cells(
                                    rotations@[k],
                                );
                            assert(unique@[t] == old_unique[t]);
                            assert(unique@[t].same_cells(rotations@[k]));
                        } else {
                            assert(unique@[last].same_cells(rotations@[k]));
                        }
                    }
                }
            } else {
                proof {
                    assert(covered_by(rotations@[i as int], unique@));
                }
            }
        }
        // The canonical image, where the shape admits one.
        if !has_wildcards && width == height {
            let mut best: usize = 0;
            proof {
                assert(rotations@[0].is_image_of(data@, w, h, rot_order(0)));
            }
            for k in 1..8usize
                invariant
                    rect_wf(data@, w, h),
                    w == width as nat && h == height as nat,
                    rotations@.len() == 8,
                    forall|t: int|
                        0 <= t < 8 ==> #[trigger] rotations@[t].is_image_of(
                            data@,
                            w,
                            h,
                            rot_order(t),
                        ),
                    0 <= best < k,
                    rotations@[best as int].data@ == spec_canon_upto(data@, w, h, k as int).0,
                    rotations@[best as int].rotation as int == spec_canon_upto(
                        data@,
                        w,
                        h,
                        k as int,
                    ).1,
            {
                proof {
                    assert(rotations@[k as int].is_image_of(data@, w, h, rot_order(k as int)));
                    assert(rotations@[best as int].is_image_of(
                        data@,
                        w,
                        h,
                        rot_order(best as int),
                    ));
                    assert(rotations@[k as int].data@.len() == w * h);
                    assert(rotations@[best as int].data@.len() == w * h);
                    assert(rot_valid(rot_order(k as int)) && rot_valid(rot_order(best as int)));
                }
                if canon_less(&rotations[k], &rotations[best]) {
                    best = k;
                }
            }
            let canonical = rotations[best].duplicate();
            proof {
                assert(rotations@[best as int].is_image_of(data@, w, h, rot_order(best as int)));
                assert(canonical.is_image_of(data@, w, h, spec_canonical(data@, w, h).1));
            }
            (Some(canonical), rotations, unique)
        } else {
            (None, rotations, unique)
        }
    }
}

impl Pattern {
    /// Mirrors a rectangle of cells horizontally (each row reversed).
    pub fn mirror(data: &[char], width: usize) -> (out: Vec<char>)
        requires
            width >= 1,
            data@.len() >= 1,
            data@.len() as int % (width as int) == 0,
        ensures
            out@ == spec_image(data@, width as nat, (data@.len() / width as nat) as nat, -1),
    {
        let height = data.len() / width;
        proof {
            vstd::arithmetic::div_mod::lemma_fundamental_div_mod(data@.len() as int, width as int);
            assert(height >= 1) by (nonlinear_arith)
                requires
                    data@.len() == (width as int) * (height as int) && data@.len() >= 1 && width
                        >= 1,
            ;
        }
        apply_transform(data, width, height, -1)
    }

    /// Rotates a rectangle of cells 90 degrees clockwise.
    pub fn rotate_90(data: &[char], width: usize, height: usize) -> (out: Vec<char>)
        requires
            rect_wf(data@, width as nat, height as nat),
        ensures
            out@ == spec_image(data@, width as nat, height as nat, 2),
    {
        apply_transform(data, width, height, 2)
    }

    /// Rotates a rectangle of cells 180 degrees: the row-major reversal.
    pub fn rotate_180(data: &[char]) -> (out: Vec<char>)
        ensures
            out@ == seq_reversed(data@),
    {
        let n = data.len();
        let mut out: Vec<char> = Vec::new();
        for j in 0..n
            invariant
                n == data@.len(),
                out@.len() == j,
                forall|k: int| 0 <= k < j ==> out@[k] == data@[n - 1 - k],
        {
            out.push(data[n - 1 - j]);
        }
        proof {
            assert(out@ =~= seq_reversed(data@));
        }
        out
    }

    /// Rotates a rectangle of cells 270 degrees clockwise.
    pub fn rotate_270(data: &[char], width: usize, height: usize) -> (out: Vec<char>)
        requires
            rect_wf(data@, width as nat, height as nat),
        ensures
            out@ == spec_image(data@, width as nat, height as nat, 4),
    {
        apply_transform(data, width, height, 4)
    }

    /// Applies the inverse of transform `rotation` to `data`, a rectangle of
    /// `width` by `height` cells: handed the image of a pattern under that
    /// transform, it restores the pattern's original cells.
    pub fn rollback_rotation(data: &[char], width: usize, height: usize, rotation: isize) -> (out:
        Vec<char>)
        requires
            rect_wf(data@, width as nat, height as nat),
            rot_valid(rotation as int),
        ensures
            out@ == spec_image(data@, width as nat, height as nat, rot_inv(rotation as int)),
    {
        let inv: isize = if rotation == 2 {
            4
        } else if rotation == 4 {
            2
        } else {
            rotation
        };
        apply_transform(data, width, height, inv)
    }

    /// The transform to apply to a pattern's canonical cells so that they
    /// land on the grid in the orientation the grid shows: the composition
    /// of the inverse of the grid neighborhood's canonical transform with
    /// the pattern's canonical transform.
    #[verifier::rlimit(50)]
    pub fn calculate_relative_rotation(grid_rotation: isize, pattern_rotation: isize) -> (r: isize)
        requires
            rot_valid(grid_rotation as int),
            rot_valid(pattern_rotation as int),
        ensures
            r as int == rot_mul(rot_inv(grid_rotation as int), pattern_rotation as int),
            rot_valid(r as int),
    {
        let g: isize = if grid_rotation == 2 {
            4
        } else if grid_rotation == 4 {
            2
        } else {
            grid_rotation
        };
        let p = pattern_rotation;
        let i: isize = if g > 0 {
            g - 1
        } else {
            -g - 1
        };
        let j: isize = if p > 0 {
            p - 1
        } else {
            -p - 1
        };
        let e: isize = if g < 0 {
            i + 4 - j
        } else {
            i + j
        };
        let k: isize = e % 4 + 1;
        if (g < 0) == (p < 0) {
            k
        } else {
            -k
        }
    }

    /// Builds a pattern from a well-formed template: rows separated by the
    /// delimiter, all rows equally long, each cell a symbol or the
    /// wildcard.
    #[verifier::loop_isolation(false)]
    pub fn new(line: &str) -> (out: Pattern)
        requires
            template_wf(line@),
        ensures
            out.wf(),
            out.line@ == line@,
            out.width as nat == tpl_w(line@),
            out.height as nat == tpl_h(line@),
            out.data@ == spec_template_data(line@),
    {
        let ghost s = line@;
        let n = line.unicode_len();
        let width = Self::find_width(line);
        proof {
            assert(width as nat == tpl_w(s));
            assert(width >= 1);
            let m = (width as int) + 1;
            let q = tpl_h(s) as int;
            assert((s.len() + 1) as int % m == 0);
            vstd::arithmetic::div_mod::lemma_fundamental_div_mod((s.len() + 1) as int, m);
            assert((s.len() + 1) as int == m * q);
            assert((n + 1) as int == q * m) by (nonlinear_arith)
                requires
                    (s.len() + 1) as int == m * q && n == s.len(),
            ;
            if width < n {
                vstd::arithmetic::div_mod::lemma_fundamental_div_mod(n as int, m);
                assert(n as int / m < n as int) by (nonlinear_arith)
                    requires
                        n as int == m * (n as int / m) + (n as int % m) && 0 <= n as int % m && m
                            >= 2 && n >= 1,
                ;
            }
        }
        let height = if width == n {
            1
        } else {
            n / (width + 1) + 1
        };
        proof {
            let m = (width as int) + 1;
            let q = tpl_h(s) as int;
            assert((n + 1) as int == q * m) by (nonlinear_arith)
                requires
                    (s.len() + 1) as int == m * q && n == s.len(),
            ;
            if width < n {
                assert(n as int == (q - 1) * m + (width as int)) by (nonlinear_arith)
                    requires
                        (n + 1) as int == q * m && m == (width as int) + 1,
                ;
                vstd::arithmetic::div_mod::lemma_fundamental_div_mod_converse(
                    n as int,
                    m,
                    q - 1,
                    width as int,
                );
            } else {
                vstd::arithmetic::div_mod::lemma_div_by_self(m);
            }
            assert(height as nat == tpl_h(s));
            assert(n + 1 == (height as int) * ((width as int) + 1));
            assert(height >= 1);
        }
        let w = width;
        let h = height;
        let ghost target = spec_template_data(s);
        proof {
            assert(target.len() == w * h);
        }
        let mut data: Vec<char> = Vec::new();
        let mut y: usize = 0;
        while y < h
            invariant
                0 <= y <= h,
                data@.len() == y * w,
                forall|j: int| 0 <= j < y * w ==> data@[j] == target[j],
            decreases h - y,
        {
            proof {
                assert(y * w + w <= h * w) by (nonlinear_arith)
                    requires
                        0 <= y < h,
                ;
            }
            for x in 0..w
                invariant
                    data@.len() == y * w + x,
                    forall|j: int| 0 <= j < y * w + x ==> data@[j] == target[j],
            {
                let ghost j = y * w + x;
                proof {
                    assert(y * ((w as int) + 1) + x < n && y * ((w as int) + 1) + x <= n) by (
                    nonlinear_arith)
                        requires
                            0 <= y < h && 0 <= x < w && n + 1 == (height as int) * ((width as int)
                                + 1) && h == height && w == width,
                    ;
                }
                proof {
                    assert(y * (w as int) + y + x == y * ((w as int) + 1) + x) by (
                    nonlinear_arith);
                }
                let pos = y * w + y + x;
                let c = line.get_char(pos);
                data.push(c);
                proof {
                    vstd::arithmetic::div_mod::lemma_fundamental_div_mod_converse(
                        j,
                        w as int,
                        y as int,
                        x as int,
                    );
                    assert(target[j] == s[(j / (w as int)) * ((w as int) + 1) + (j % (w as int))]);
                    assert(data@[j] == target[j]);
                    assert(y * w + (x + 1) == j + 1);
                }
            }
            proof {
                assert((y + 1) * w == y * w + w) by (nonlinear_arith);
            }
            y += 1;
        }
        proof {
            assert(data@.len() == h * w);
            assert(h * w == w * h) by (nonlinear_arith);
            assert forall|j: int| 0 <= j < target.len() implies data@[j] == target[j] by {
                assert(0 <= j < h * w);
            }
            assert(data@ =~= target);
        }
        let mut has_wildcards = false;
        let cell_count = data.len();
        for i in 0..cell_count
            invariant
                has_wildcards == (exists|k: int| 0 <= k < i && #[trigger] data@[k] == ANYTHING),
        {
            if data[i] == ANYTHING {
                has_wildcards = true;
            }
        }
        proof {
            assert((s.len() + 1) as int == (h as int) * ((w as int) + 1)) by (nonlinear_arith)
                requires
                    (n + 1) as int == (tpl_h(s) as int) * ((width as int) + 1) && n == s.len() && h
                        as nat == tpl_h(s) && w == width,
            ;
            assert forall|j: int| 0 <= j < data@.len() implies (#[trigger] data@[j] == ANYTHING || (
            data@[j] as u32) < 256) by {
                let wi = w as int;
                let hi = h as int;
                vstd::arithmetic::div_mod::lemma_fundamental_div_mod(j, wi);
                vstd::arithmetic::div_mod::lemma_mod_division_less_than_divisor(j, wi);
                let xx = j % wi;
                let yy = j / wi;
                assert(0 <= j < wi * hi) by (nonlinear_arith)
                    requires
                        0 <= j < data@.len() && data@.len() == (h as int) * (w as int) && wi == w
                            as int && hi == h as int,
                ;
                assert(yy < hi) by (nonlinear_arith)
                    requires
                        j == wi * yy + xx && 0 <= xx < wi && j < wi * hi && wi >= 1,
                ;
                let p = yy * (wi + 1) + xx;
                assert(0 <= p < s.len()) by (nonlinear_arith)
                    requires
                        p == yy * (wi + 1) + xx && 0 <= xx < wi && 0 <= yy < hi && (s.len()
                            + 1) as int == hi * (wi + 1),
                ;
                assert(data@[j] == s[p]);
                assert(p % (wi + 1) == xx) by {
                    assert(p == yy * (wi + 1) + xx);
                    vstd::arithmetic::div_mod::lemma_fundamental_div_mod_converse(
                        p,
                        wi + 1,
                        yy,
                        xx,
                    );
                }
                assert(s[p] != PATTERN_DELIMITER);
            }
        }
        let (canonical_form, rotations, unique_rotations) =
            Self::compute_canonical_form_and_rotations(
            data.as_slice(),
            width,
            height,
            has_wildcards,
        );
        let out = Pattern {
            line: line.to_owned(),
            data,
            width,
            height,
            rotations,
            unique_rotations,
            canonical_form,
            has_wildcards,
        };
        proof {
            assert(rect_wf(out.data@, out.width as nat, out.height as nat));
            assert(forall|j: int|
                0 <= j < out.data@.len() ==> (#[trigger] out.data@[j] == ANYTHING || (
                out.data@[j] as u32) < 256));
            assert(out.has_wildcards == (exists|j: int|
                0 <= j < out.data@.len() && #[trigger] out.data@[j] == ANYTHING));
            assert(rotations_list_wf(out.rotations@, out.data@, out.width as nat, out.height as nat));
            assert(unique_rotations_wf(
                out.unique_rotations@,
                out.rotations@,
                out.data@,
                out.width as nat,
                out.height as nat,
            ));
            assert(canonical_opt_wf(
                out.canonical_form,
                out.data@,
                out.width as nat,
                out.height as nat,
                out.has_wildcards,
            ));
            assert(out.wf());
        }
        out
    }

    /// Scans a template for its row width: the cells before the first
    /// delimiter.
    fn find_width(line: &str) -> (w: usize)
        ensures
            w as int == first_delim_from(line@, 0),
            w <= line@.len(),
            forall|k: int| 0 <= k < w ==> line@[k] != PATTERN_DELIMITER,
            w < line@.len() ==> line@[w as int] == PATTERN_DELIMITER,
    {
        let n = line.unicode_len();
        let mut i: usize = 0;
        while i < n
            invariant
                0 <= i <= n,
                n == line@.len(),
                first_delim_from(line@, 0) == first_delim_from(line@, i as int),
                forall|k: int| 0 <= k < i ==> line@[k] != PATTERN_DELIMITER,
            decreases n - i,
        {
            if line.get_char(i) == PATTERN_DELIMITER {
                proof {
                    assert(first_delim_from(line@, i as int) == i);
                }
                return i;
            }
            proof {
                assert(first_delim_from(line@, i as int) == first_delim_from(line@, i + 1));
            }
            i += 1;
        }
        proof {
            assert(first_delim_from(line@, i as int) == line@.len());
        }
        n
    }

    /// Builds a pattern after checking the template, returning the pattern
    /// exactly when the template is well-formed.
    #[verifier::loop_isolation(false)]
    pub fn try_new(line: &str) -> (out: Option<Pattern>)
        ensures
            out is Some <==> template_wf(line@),
            out is Some ==> {
                let p = out->Some_0;
                &&& p.wf()
                &&& p.line@ == line@
                &&& p.width as nat == tpl_w(line@)
                &&& p.height as nat == tpl_h(line@)
                &&& p.data@ == spec_template_data(line@)
            },
    {
        let ghost s = line@;
        let n = line.unicode_len();
        if n == 0 {
            return None;
        }
        let width = Self::find_width(line);
        if width == 0 {
            return None;
        }
        let w = width;
        if w < n {
            let m = w + 1;
            if n % m != w {
                proof {
                    vstd::arithmetic::div_mod::lemma_fundamental_div_mod(n as int, m as int);
                    if (s.len() + 1) as int % (m as int) == 0 {
                        let q = (s.len() + 1) as int / (m as int);
                        vstd::arithmetic::div_mod::lemma_fundamental_div_mod(
                            (n + 1) as int,
                            m as int,
                        );
                        assert(n as int == (q - 1) * (m as int) + (m as int) - 1)
                            by (nonlinear_arith)
                            requires
                                (n + 1) as int == q * (m as int),
                        ;
                        vstd::arithmetic::div_mod::lemma_fundamental_div_mod_converse(
                            n as int,
                            m as int,
                            q - 1,
                            (m as int) - 1,
                        );
                    }
                }
                return None;
            }
            proof {
                vstd::arithmetic::div_mod::lemma_fundamental_div_mod(n as int, m as int);
                let q = n as int / (m as int);
                assert(n as int == (m as int) * q + (n as int) % (m as int));
                assert((n + 1) as int == (q + 1) * (m as int)) by (nonlinear_arith)
                    requires
                        n as int == (m as int) * q + (w as int) && m == w + 1,
                ;
                vstd::arithmetic::div_mod::lemma_fundamental_div_mod_converse(
                    (n + 1) as int,
                    m as int,
                    q + 1,
                    0,
                );
            }
        }
        for i in 0..n
            invariant
                forall|k: int|
                    0 <= k < i ==> ((#[trigger] s[k] == PATTERN_DELIMITER) <==> (k % ((w as int)
                        + 1) == w)),
                forall|k: int|
                    0 <= k < i ==> (#[trigger] s[k] == PATTERN_DELIMITER || s[k] == ANYTHING || (
                    s[k] as u32) < 256),
        {
            let c = line.get_char(i);
            let is_delim = c == PATTERN_DELIMITER;
            let at_delim_pos = if w < n {
                i % (w + 1) == w
            } else {
                false
            };
            proof {
                if w == n {
                    vstd::arithmetic::div_mod::lemma_small_mod(i as nat, (w + 1) as nat);
                    assert((i as int) % ((w as int) + 1) != w as int);
                }
            }
            if is_delim != at_delim_pos {
                proof {
                    if is_delim {
                        assert(s[i as int] == PATTERN_DELIMITER);
                    }
                }
                return None;
            }
            if !is_delim && c != ANYTHING && c as u32 >= 256 {
                return None;
            }
        }
        proof {
            if w == n {
                vstd::arithmetic::div_mod::lemma_mod_self_0((w as int) + 1);
                assert((s.len() + 1) as int % ((w as int) + 1) == 0);
            }
            assert(tpl_w(s) == w as nat);
            assert(template_wf(s));
        }
        Some(Self::new(line))
    }
}

/// A rewrite: an input pattern to match, an output pattern of the same
/// shape to write, an optional application probability (in
/// `PROB_SCALE`-ths), and — where the input is square and larger than one
/// cell — the key of the canonical-form index the match test uses.
#[derive(Clone, Debug)]
pub struct PatternRule {
    pub input: Pattern,
    pub output: Pattern,
    pub probability: Option<u32>,
    pub canonical_key: Option<(usize, usize)>,
}

impl PatternRule {
    /// The consistency every rewrite keeps: both patterns are well formed,
    /// they share a shape, and the canonical key is determined by that
    /// shape.
    pub open spec fn wf(self) -> bool {
        &&& self.input.wf()
        &&& self.output.wf()
        &&& self.input.width == self.output.width
        &&& self.input.height == self.output.height
        &&& self.canonical_key == spec_canonical_key(
            self.input.width as int,
            self.input.height as int,
        )
    }

    /// Pairs an input pattern with an output pattern of the same shape.
    pub fn new(input: Pattern, output: Pattern, maybe_probability: Option<u32>) -> (out:
        PatternRule)
        requires
            input.wf(),
            output.wf(),
            input.width == output.width,
            input.height == output.height,
        ensures
            out.wf(),
            out.input == input,
            out.output == output,
            out.probability == maybe_probability,
    {
        let canonical_key = Self::calculate_canonical_key(input.width, input.height);
        PatternRule { input, output, probability: maybe_probability, canonical_key }
    }

    /// The canonical-form index key for a template shape: only square
    /// shapes larger than one cell have one.
    pub fn calculate_canonical_key(width: usize, height: usize) -> (out: Option<(usize, usize)>)
        ensures
            out == spec_canonical_key(width as int, height as int),
    {
        if (width == 1 && height == 1) || (width != height) {
            None
        } else {
            Some((width, height))
        }
    }
}

/// The canonical-form index key determined by a template shape.
pub open spec fn spec_canonical_key(width: int, height: int) -> Option<(usize, usize)> {
    if (width == 1 && height == 1) || (width != height) {
        None
    } else {
        Some((width as usize, height as usize))
    }
}

/// One place a pattern currently matches: the anchor cell, the rewrite's
/// index within its rule, the transform that maps the output onto the
/// grid, and the probability used for selection.
#[derive(Clone, Copy, PartialEq, Eq, Debug)]
pub struct PatternMatch {
    pub x: usize,
    pub y: usize,
    pub probability: Option<u32>,
    pub pattern_index: usize,
    pub rotation: isize,
}

/// Composing with the inverse of `t` and then with `t` again gives back
/// the original transform index.
pub proof fn lemma_rot_mul_cancel(a: int, t: int)
    requires
        rot_valid(a),
        rot_valid(t),
    ensures
        rot_valid(rot_mul(a, t)),
        rot_valid(rot_mul(a, rot_inv(t))),
        rot_mul(rot_mul(a, rot_inv(t)), t) == a,
{
}

/// Round-trip law: every dihedral image a pattern keeps, rolled back by
/// the inverse of its own transform index, restores the pattern's cells.
/// This covers wildcard-bearing and non-square patterns, whose whole image
/// list is kept.
pub proof fn lemma_rotation_roundtrip(p: Pattern, k: int)
    requires
        p.wf(),
        0 <= k < p.rotations@.len(),
    ensures
        spec_image(
            p.rotations@[k].data@,
            p.rotations@[k].width as nat,
            p.rotations@[k].height as nat,
            rot_inv(p.rotations@[k].rotation as int),
        ) == p.data@,
{
    let d = p.data@;
    let w = p.width as nat;
    let h = p.height as nat;
    if w == 1 && h == 1 {
        assert(p.rotations@[k].is_image_of(d, 1, 1, 1));
        lemma_image_roundtrip(d, 1, 1, 1);
    } else {
        assert(p.rotations@[k].is_image_of(d, w, h, rot_order(k)));
        lemma_image_roundtrip(d, w, h, rot_order(k));
    }
}

/// Round-trip law for the canonical form: rolling the canonical cells back
/// by the inverse of the canonical transform restores the pattern's cells.
pub proof fn lemma_canonical_roundtrip(p: Pattern)
    requires
        p.wf(),
        p.canonical_form is Some,
    ensures
        spec_image(
            p.canonical_form->Some_0.data@,
            p.canonical_form->Some_0.width as nat,
            p.canonical_form->Some_0.height as nat,
            rot_inv(p.canonical_form->Some_0.rotation as int),
        ) == p.data@,
{
    let d = p.data@;
    let w = p.width as nat;
    let h = p.height as nat;
    let r = spec_canonical(d, w, h).1;
    lemma_canonical_min(d, w, h);
    assert(p.canonical_form->Some_0.is_image_of(d, w, h, r));
    assert(rot_valid(r)) by {
        let k = choose|k: int|
            0 <= k < 8 && #[trigger] rot_order(k) == spec_canonical(d, w, h).1 && spec_image(
                d,
                w,
                h,
                rot_order(k),
            ) == spec_canonical(d, w, h).0;
        assert(rot_valid(rot_order(k)));
    }
    lemma_image_roundtrip(d, w, h, r);
}

/// Closure law: the eight dihedral images of a square rectangle of cells
/// all canonicalize to the same cells — canonicalizing any image of a
/// pattern gives the pattern's own canonical cells.
pub proof fn lemma_canonical_closure(data: Seq<char>, s: nat, t: int)
    requires
        rect_wf(data, s, s),
        rot_valid(t),
    ensures
        spec_canonical(spec_image(data, s, s, t), s, s).0 == spec_canonical(data, s, s).0,
{
    let img = spec_image(data, s, s, t);
    crate::transform::lemma_image_compose(data, s, s, t, 1);
    assert(rect_wf(img, s, s));
    let c1 = spec_canonical(data, s, s);
    let c2 = spec_canonical(img, s, s);
    lemma_canonical_min(data, s, s);
    lemma_canonical_min(img, s, s);
    let k1 = choose|k: int|
        0 <= k < 8 && #[trigger] rot_order(k) == c1.1 && spec_image(data, s, s, rot_order(k))
            == c1.0;
    let k2 = choose|k: int|
        0 <= k < 8 && #[trigger] rot_order(k) == c2.1 && spec_image(img, s, s, rot_order(k))
            == c2.0;
    let r1 = rot_order(k1);
    let r2 = rot_order(k2);
    // c2's cells are an image of `data` itself.
    crate::transform::lemma_image_compose(data, s, s, r2, t);
    let m2 = rot_mul(r2, t);
    assert(c2.0 == spec_image(data, s, s, m2));
    lemma_rot_order_covers(m2);
    let km2 = choose|k: int| 0 <= k < 8 && #[trigger] rot_order(k) == m2;
    assert(!canon_better(spec_image(data, s, s, rot_order(km2)), rot_order(km2), c1.0, c1.1));
    assert(!lex_lt(c2.0, c1.0));
    // c1's cells are an image of `img`.
    lemma_rot_mul_cancel(r1, t);
    let m1 = rot_mul(r1, rot_inv(t));
    crate::transform::lemma_image_compose(data, s, s, m1, t);
    assert(spec_image(img, s, s, m1) == spec_image(data, s, s, rot_mul(m1, t)));
    assert(rot_mul(m1, t) == r1);
    assert(c1.0 == spec_image(img, s, s, m1));
    lemma_rot_order_covers(m1);
    let km1 = choose|k: int| 0 <= k < 8 && #[trigger] rot_order(k) == m1;
    assert(!canon_better(spec_image(img, s, s, rot_order(km1)), rot_order(km1), c2.0, c2.1));
    assert(!lex_lt(c1.0, c2.0));
    assert(c1.0.len() == s * s && c2.0.len() == s * s);
    lemma_lex_connex(c1.0, c2.0);
}

/// Every unique image a well-formed pattern keeps is the dihedral image
/// of the pattern's cells under its own recorded transform index.
pub proof fn lemma_unique_is_image(p: Pattern, i: int)
    requires
        p.wf(),
        0 <= i < p.unique_rotations@.len(),
    ensures
        rot_valid(p.unique_rotations@[i].rotation as int),
        p.unique_rotations@[i].is_image_of(
            p.data@,
            p.width as nat,
            p.height as nat,
            p.unique_rotations@[i].rotation as int,
        ),
        p.width == 1 && p.height == 1 ==> p.unique_rotations@[i].rotation == 1,
{
    let u = p.unique_rotations@[i];
    assert(echoes_entry(u, p.rotations@));
    let k = choose|k: int|
        0 <= k < p.rotations@.len() && u.data@ == (#[trigger] p.rotations@[k]).data@ && u.width
            == p.rotations@[k].width && u.height == p.rotations@[k].height && u.rotation
            == p.rotations@[k].rotation;
    if p.width == 1 && p.height == 1 {
        assert(p.rotations@[k].is_image_of(p.data@, 1, 1, 1));
    } else {
        assert(p.rotations@[k].is_image_of(
            p.data@,
            p.width as nat,
            p.height as nat,
            rot_order(k),
        ));
    }
}

} // verus!
