//! The grid-rewriting engine: a mutable byte grid, an incrementally
//! maintained index of canonical neighborhood forms, and the machinery
//! that matches rule patterns against the grid and applies them.
use vstd::prelude::*;
use vstd::string::StrSliceExecFns;

use crate::pattern::{
    canonical_opt_wf, has_canonical, spec_canonical, spec_canonical_key, Pattern, PatternMatch,
    PatternRule, RotatedSeq,
};
use crate::rng::{chacha_draw, chacha_stream, random_seed};
use crate::rule_sequence::{Rule, RuleKind, RuleOrSequence, Sequence};
use crate::transform::{
    lemma_image_compose, lemma_image_identity, lemma_rot_inv, rect_wf, rot_inv, rot_mul, rot_valid,
    spec_image,
};
use crate::pattern::{lemma_canonical_min, lemma_rot_order_covers, rot_order};
use crate::ANYTHING;
use crate::NOTHING;

verus! {

/// The canonical neighborhood forms for one template size: entry
/// `y * width + x` holds the canonical form of the `size` by `size`
/// neighborhood anchored at `(x, y)` of the current grid.
#[derive(Debug)]
pub struct CanonicalForms {
    pub size: usize,
    pub forms: Vec<RotatedSeq>,
}

/// The grid-rewriting engine.
#[derive(Debug)]
pub struct MarkovJunior {
    pub grid: Vec<u8>,
    pub width: usize,
    pub height: usize,
    pub canonical_forms: Vec<CanonicalForms>,
    pub changes: usize,
    pub seed: u64,
    pub rng_count: u64,
}

/// The engine's observable state: everything a run's outcome depends on.
pub ghost struct EngineState {
    pub grid: Seq<u8>,
    pub width: nat,
    pub height: nat,
    pub changes: nat,
    pub seed: u64,
    pub count: u64,
    pub sizes: Seq<usize>,
}

/// The symbol a match test sees at grid coordinates `(x, y)`: the grid
/// byte in bounds, and the impossible `NOTHING` symbol outside.
pub open spec fn cell_char(grid: Seq<u8>, gw: nat, gh: nat, x: int, y: int) -> char {
    if 0 <= x < gw && 0 <= y < gh {
        grid[y * gw + x] as char
    } else {
        NOTHING
    }
}

/// The `s` by `s` neighborhood anchored at `(x, y)`, as pattern cells,
/// with out-of-bounds cells read as `NOTHING`.
pub open spec fn spec_neighborhood(
    grid: Seq<u8>,
    gw: nat,
    gh: nat,
    x: int,
    y: int,
    s: nat,
) -> Seq<char> {
    Seq::new(s * s, |j: int| cell_char(grid, gw, gh, x + j % (s as int), y + j / (s as int)))
}

/// `rs` is the canonical form of the `s` by `s` neighborhood anchored at
/// `(x, y)`.
pub open spec fn form_ok(
    rs: RotatedSeq,
    grid: Seq<u8>,
    gw: nat,
    gh: nat,
    x: int,
    y: int,
    s: nat,
) -> bool {
    let nb = spec_neighborhood(grid, gw, gh, x, y, s);
    &&& rs.data@ == spec_canonical(nb, s, s).0
    &&& rs.rotation as int == spec_canonical(nb, s, s).1
    &&& rs.width == s
    &&& rs.height == s
}

/// The form an index entry holds for the cell `(x, y)`.
pub open spec fn form_at(e: CanonicalForms, gw: nat, x: int, y: int) -> RotatedSeq {
    e.forms@[y * gw + x]
}

/// One canonical-form index entry is consistent with the grid: a form for
/// every cell, each the canonical form of that cell's neighborhood.
pub open spec fn entry_wf(e: CanonicalForms, grid: Seq<u8>, gw: nat, gh: nat) -> bool {
    &&& e.size >= 2
    &&& e.size * e.size <= usize::MAX
    &&& e.forms@.len() == grid.len()
    &&& forall|x: int, y: int|
        0 <= x < gw && 0 <= y < gh ==> form_ok(
            #[trigger] form_at(e, gw, x, y),
            grid,
            gw,
            gh,
            x,
            y,
            e.size as nat,
        )
}

/// One dihedral image fits the grid at anchor `(x, y)`: its footprint
/// stays inside the grid and every non-wildcard cell equals the grid
/// symbol under it.
pub open spec fn rs_fits(rs: RotatedSeq, grid: Seq<u8>, gw: nat, gh: nat, x: int, y: int) -> bool {
    let w = rs.width as int;
    &&& x + rs.width <= gw
    &&& y + rs.height <= gh
    &&& forall|j: int|
        0 <= j < rs.data@.len() ==> (#[trigger] rs.data@[j] == ANYTHING || rs.data@[j] == cell_char(
            grid,
            gw,
            gh,
            x + j % w,
            y + j / w,
        ))
}

/// The first image in `urs`, scanning from `i`, that fits the grid at
/// `(x, y)`; yields its transform index.
pub open spec fn first_fit(
    urs: Seq<RotatedSeq>,
    grid: Seq<u8>,
    gw: nat,
    gh: nat,
    x: int,
    y: int,
    i: int,
) -> Option<int>
    decreases urs.len() - i,
{
    if i < 0 || i >= urs.len() {
        None
    } else if rs_fits(urs[i], grid, gw, gh, x, y) {
        Some(urs[i].rotation as int)
    } else {
        first_fit(urs, grid, gw, gh, x, y, i + 1)
    }
}

/// The canonical match test: where the pattern's footprint fits, compare
/// the canonical form of the neighborhood with the pattern's canonical
/// form; on equality the match's transform is the composition of the
/// inverse of the neighborhood's canonical transform with the pattern's.
pub open spec fn canonical_fit(
    p: Pattern,
    grid: Seq<u8>,
    gw: nat,
    gh: nat,
    x: int,
    y: int,
) -> Option<int> {
    let s = p.width as nat;
    if x + p.width > gw || y + p.height > gh {
        None
    } else {
        let cn = spec_canonical(spec_neighborhood(grid, gw, gh, x, y, s), s, s);
        let pc = p.canonical_form->Some_0;
        if cn.0 == pc.data@ {
            Some(rot_mul(rot_inv(cn.1), pc.rotation as int))
        } else {
            None
        }
    }
}

/// How one rewrite's input is tested at `(x, y)`: canonically where the
/// input carries a canonical form, by scanning its unique images
/// otherwise.
pub open spec fn spec_fit(
    pr: PatternRule,
    grid: Seq<u8>,
    gw: nat,
    gh: nat,
    x: int,
    y: int,
) -> Option<int> {
    if pr.input.canonical_form is Some {
        canonical_fit(pr.input, grid, gw, gh, x, y)
    } else {
        first_fit(pr.input.unique_rotations@, grid, gw, gh, x, y, 0)
    }
}

/// A successful canonical match is sound: the pattern's cells, transformed
/// by the reported index, are exactly the neighborhood the grid shows.
pub proof fn lemma_canonical_fit_sound(
    p: Pattern,
    grid: Seq<u8>,
    gw: nat,
    gh: nat,
    x: int,
    y: int,
)
    requires
        p.wf(),
        p.canonical_form is Some,
        canonical_fit(p, grid, gw, gh, x, y) is Some,
    ensures
        rot_valid(canonical_fit(p, grid, gw, gh, x, y)->Some_0),
        spec_image(
            p.data@,
            p.width as nat,
            p.height as nat,
            canonical_fit(p, grid, gw, gh, x, y)->Some_0,
        ) == spec_neighborhood(grid, gw, gh, x, y, p.width as nat),
{
    let s = p.width as nat;
    let pd = p.data@;
    let nb = spec_neighborhood(grid, gw, gh, x, y, s);
    let cn = spec_canonical(nb, s, s);
    let pc = p.canonical_form->Some_0;
    let pr = pc.rotation as int;
    assert(has_canonical(p.width as nat, p.height as nat, p.has_wildcards));
    assert(p.height == p.width);
    assert(rect_wf(pd, s, s));
    assert(rect_wf(nb, s, s)) by {
        assert(nb.len() == s * s);
    }
    lemma_canonical_min(nb, s, s);
    lemma_canonical_min(pd, s, s);
    let g = cn.1;
    assert(rot_valid(g) && spec_image(nb, s, s, g) == cn.0) by {
        let k = choose|k: int|
            0 <= k < 8 && #[trigger] rot_order(k) == cn.1 && spec_image(nb, s, s, rot_order(k))
                == cn.0;
        assert(rot_valid(rot_order(k)));
    }
    assert(pc.is_image_of(pd, s, s, spec_canonical(pd, s, s).1));
    assert(rot_valid(pr) && spec_image(pd, s, s, pr) == pc.data@) by {
        let k = choose|k: int|
            0 <= k < 8 && #[trigger] rot_order(k) == spec_canonical(pd, s, s).1 && spec_image(
                pd,
                s,
                s,
                rot_order(k),
            ) == spec_canonical(pd, s, s).0;
        assert(rot_valid(rot_order(k)));
        assert(pc.data@ == spec_image(pd, s, s, pr));
    }
    let rel = rot_mul(rot_inv(g), pr);
    lemma_rot_inv(g);
    lemma_image_compose(pd, s, s, rot_inv(g), pr);
    assert(spec_image(pd, s, s, rel) == spec_image(pc.data@, s, s, rot_inv(g)));
    assert(pc.data@ == spec_image(nb, s, s, g));
    lemma_image_compose(nb, s, s, rot_inv(g), g);
    assert(spec_image(pc.data@, s, s, rot_inv(g)) == spec_image(nb, s, s, 1));
    lemma_image_identity(nb, s, s);
}

impl MarkovJunior {
    /// The grid buffer matches the engine's dimensions.
    pub open spec fn grid_wf(self) -> bool {
        self.grid@.len() == self.width * self.height
    }

    /// Every canonical-form index entry is consistent with the current
    /// grid, and entries have distinct sizes.
    pub open spec fn cf_wf(self) -> bool {
        &&& forall|i: int|
            0 <= i < self.canonical_forms@.len() ==> entry_wf(
                #[trigger] self.canonical_forms@[i],
                self.grid@,
                self.width as nat,
                self.height as nat,
            )
        &&& forall|i: int, j: int|
            0 <= i < j < self.canonical_forms@.len()
                ==> self.canonical_forms@[i].size != self.canonical_forms@[j].size
    }

    /// The engine's full invariant.
    pub open spec fn wf(self) -> bool {
        self.grid_wf() && self.cf_wf()
    }

    /// The sizes for which a canonical-form index entry exists.
    pub open spec fn sizes(self) -> Seq<usize> {
        Seq::new(self.canonical_forms@.len(), |i: int| self.canonical_forms@[i].size)
    }

    /// An index entry exists for size `s`.
    pub open spec fn has_size(self, s: usize) -> bool {
        exists|i: int|
            0 <= i < self.canonical_forms@.len() && (#[trigger] self.canonical_forms@[i]).size == s
    }

    /// The engine's observable state.
    pub open spec fn st(self) -> EngineState {
        EngineState {
            grid: self.grid@,
            width: self.width as nat,
            height: self.height as nat,
            changes: self.changes as nat,
            seed: self.seed,
            count: self.rng_count,
            sizes: self.sizes(),
        }
    }

    /// Creates an engine over a fresh grid filled with `default`, seeded
    /// with `seed` or, absent one, with an arbitrary value.
    pub fn new(default: char, width: usize, height: usize, seed: Option<u64>) -> (out:
        MarkovJunior)
        requires
            width * height <= usize::MAX,
            (default as u32) < 256,
        ensures
            out.wf(),
            out.width == width,
            out.height == height,
            out.grid@ == Seq::new((width * height) as nat, |i: int| default as u8),
            out.changes == 0,
            out.rng_count == 0,
            out.canonical_forms@.len() == 0,
            seed is Some ==> out.seed == seed->Some_0,
    {
        let seed_value = match seed {
            Some(s) => s,
            None => random_seed(),
        };
        let n = width * height;
        let fill = default as u8;
        let mut grid: Vec<u8> = Vec::new();
        for i in 0..n
            invariant
                grid@.len() == i,
                forall|k: int| 0 <= k < i ==> grid@[k] == fill,
        {
            grid.push(fill);
        }
        let out = MarkovJunior {
            grid,
            width,
            height,
            canonical_forms: Vec::new(),
            changes: 0,
            seed: seed_value,
            rng_count: 0,
        };
        proof {
            assert(out.grid@ =~= Seq::new((width * height) as nat, |i: int| default as u8));
        }
        out
    }

    /// Creates an engine whose grid holds the bytes of `data`, row-major,
    /// seeded with `seed` or, absent one, with an arbitrary value.
    pub fn new_grid(data: &str, width: usize, height: usize, seed: Option<u64>) -> (out:
        MarkovJunior)
        requires
            data@.len() == width * height,
            forall|i: int| 0 <= i < data@.len() ==> (#[trigger] data@[i] as u32) < 256,
        ensures
            out.wf(),
            out.width == width,
            out.height == height,
            out.grid@ == Seq::new((width * height) as nat, |i: int| data@[i] as u8),
            out.changes == 0,
            out.rng_count == 0,
            out.canonical_forms@.len() == 0,
            seed is Some ==> out.seed == seed->Some_0,
    {
        let seed_value = match seed {
            Some(s) => s,
            None => random_seed(),
        };
        let n = data.unicode_len();
        let mut grid: Vec<u8> = Vec::new();
        for i in 0..n
            invariant
                n == data@.len(),
                grid@.len() == i,
                forall|k: int| 0 <= k < i ==> grid@[k] == data@[k] as u8,
        {
            let c = data.get_char(i);
            grid.push(c as u8);
        }
        let out = MarkovJunior {
            grid,
            width,
            height,
            canonical_forms: Vec::new(),
            changes: 0,
            seed: seed_value,
            rng_count: 0,
        };
        proof {
            assert(out.grid@ =~= Seq::new((width * height) as nat, |i: int| data@[i] as u8));
        }
        out
    }
}

/// The match list one rewrite contributes at a cell.
pub open spec fn pat_matches_at(
    pr: PatternRule,
    idx: int,
    grid: Seq<u8>,
    gw: nat,
    gh: nat,
    ux: usize,
    uy: usize,
) -> Seq<PatternMatch> {
    match spec_fit(pr, grid, gw, gh, ux as int, uy as int) {
        Some(r) => seq![
            PatternMatch {
                x: ux,
                y: uy,
                probability: pr.probability,
                pattern_index: idx as usize,
                rotation: r as isize,
            },
        ],
        None => Seq::empty(),
    }
}

/// The matches the first `upto` rewrites of a rule contribute at a cell,
/// in rewrite order.
pub open spec fn cell_matches_upto(
    rule: Rule,
    grid: Seq<u8>,
    gw: nat,
    gh: nat,
    ux: usize,
    uy: usize,
    upto: int,
) -> Seq<PatternMatch>
    decreases upto,
{
    if upto <= 0 {
        Seq::empty()
    } else {
        cell_matches_upto(rule, grid, gw, gh, ux, uy, upto - 1) + pat_matches_at(
            rule.patterns@[upto - 1],
            upto - 1,
            grid,
            gw,
            gh,
            ux,
            uy,
        )
    }
}

/// The matches a rule has at one cell, in rewrite order.
pub open spec fn cell_matches(
    rule: Rule,
    grid: Seq<u8>,
    gw: nat,
    gh: nat,
    ux: usize,
    uy: usize,
) -> Seq<PatternMatch> {
    cell_matches_upto(rule, grid, gw, gh, ux, uy, rule.patterns@.len() as int)
}

/// The matches a rule has across the first `cell` grid cells, row-major.
pub open spec fn all_matches_upto(
    rule: Rule,
    grid: Seq<u8>,
    gw: nat,
    gh: nat,
    cell: int,
) -> Seq<PatternMatch>
    decreases cell,
{
    if cell <= 0 || gw == 0 {
        Seq::empty()
    } else {
        all_matches_upto(rule, grid, gw, gh, cell - 1) + cell_matches(
            rule,
            grid,
            gw,
            gh,
            (((cell - 1) % (gw as int)) as usize),
            (((cell - 1) / (gw as int)) as usize),
        )
    }
}

/// Every match a rule currently has on the grid, scanned cell by cell in
/// row-major order, and per cell in rewrite order.
pub open spec fn all_matches(rule: Rule, grid: Seq<u8>, gw: nat, gh: nat) -> Seq<PatternMatch> {
    all_matches_upto(rule, grid, gw, gh, (gw * gh) as int)
}

/// The match list a cache holds for the cell `(x, y)`.
pub open spec fn cache_at(cache: Seq<Vec<PatternMatch>>, gw: nat, x: int, y: int) -> Seq<
    PatternMatch,
> {
    cache[y * gw + x]@
}

/// A match cache is consistent with the grid: one slot per cell, each
/// holding exactly the rule's matches at that cell.
pub open spec fn cache_ok(
    cache: Seq<Vec<PatternMatch>>,
    rule: Rule,
    grid: Seq<u8>,
    gw: nat,
    gh: nat,
) -> bool {
    &&& cache.len() == gw * gh
    &&& forall|x: int, y: int|
        0 <= x < gw && 0 <= y < gh ==> #[trigger] cache_at(cache, gw, x, y) == cell_matches(
            rule,
            grid,
            gw,
            gh,
            x as usize,
            y as usize,
        )
}

/// The first index in `rots` holding the image for transform `r`, or the
/// length where none does.
pub open spec fn find_rot_index(rots: Seq<RotatedSeq>, r: isize, i: int) -> int
    decreases rots.len() - i,
{
    if i < 0 || i >= rots.len() {
        rots.len() as int
    } else if rots[i].rotation == r {
        i
    } else {
        find_rot_index(rots, r, i + 1)
    }
}

/// Whether grid index `i` lies under the footprint of an image anchored
/// at `(x, y)`.
pub open spec fn in_footprint(i: int, gw: nat, x: int, y: int, rs: RotatedSeq) -> bool {
    let ix = i % (gw as int);
    let iy = i / (gw as int);
    x <= ix < x + rs.width && y <= iy < y + rs.height
}

/// The image cell that grid index `i` falls under.
pub open spec fn foot_index(i: int, gw: nat, x: int, y: int, rs: RotatedSeq) -> int {
    let ix = i % (gw as int);
    let iy = i / (gw as int);
    (iy - y) * (rs.width as int) + (ix - x)
}

/// Where some image in `rots` carries index `r`, the scan finds one.
pub proof fn lemma_find_rot_finds(rots: Seq<RotatedSeq>, r: isize, i: int)
    requires
        0 <= i <= rots.len(),
        exists|k: int| i <= k < rots.len() && (#[trigger] rots[k]).rotation == r,
    ensures
        i <= find_rot_index(rots, r, i) < rots.len(),
        rots[find_rot_index(rots, r, i)].rotation == r,
    decreases rots.len() - i,
{
    if rots[i].rotation == r {
    } else {
        let k = choose|k: int| i <= k < rots.len() && (#[trigger] rots[k]).rotation == r;
        assert(i + 1 <= k);
        lemma_find_rot_finds(rots, r, i + 1);
    }
}

/// The grid after writing the image `rs` at anchor `(x, y)`: non-wildcard
/// cells of the image replace the grid bytes under them, every other cell
/// keeps its value.
pub open spec fn spec_write(grid: Seq<u8>, gw: nat, x: int, y: int, rs: RotatedSeq) -> Seq<u8> {
    Seq::new(
        grid.len(),
        |i: int|
            {
                let ix = i % (gw as int);
                let iy = i / (gw as int);
                if x <= ix < x + rs.width && y <= iy < y + rs.height && rs.data@[(iy - y)
                    * (rs.width as int) + (ix - x)] != ANYTHING {
                    rs.data@[(iy - y) * (rs.width as int) + (ix - x)] as u8
                } else {
                    grid[i]
                }
            },
    )
}

/// A saturating increment of the change counter.
pub open spec fn sat_inc(c: nat) -> nat {
    if c + 1 <= usize::MAX {
        c + 1
    } else {
        c
    }
}

/// The largest template extent a rule's inputs reach: the radius within
/// which an edit can create or destroy matches.
pub open spec fn rule_radius_upto(patterns: Seq<PatternRule>, upto: int) -> int
    decreases upto,
{
    if upto <= 0 {
        1
    } else {
        let prev = rule_radius_upto(patterns, upto - 1);
        let p = patterns[upto - 1];
        let m = if p.input.width >= p.input.height {
            p.input.width as int
        } else {
            p.input.height as int
        };
        if m > prev {
            m
        } else {
            prev
        }
    }
}

/// The match radius of a whole rule.
pub open spec fn rule_radius(rule: Rule) -> int {
    rule_radius_upto(rule.patterns@, rule.patterns@.len() as int)
}

impl MarkovJunior {
    /// Tests a pattern at `(x, y)` by scanning its unique dihedral images
    /// in listing order, returning the transform index of the first image
    /// whose footprint fits and whose non-wildcard cells all equal the
    /// grid.
    #[verifier::loop_isolation(false)]
    pub fn pattern_fits(&self, x: usize, y: usize, pattern: &Pattern) -> (out: Option<isize>)
        requires
            self.grid_wf(),
            pattern.wf(),
        ensures
            out is Some ==> first_fit(
                pattern.unique_rotations@,
                self.grid@,
                self.width as nat,
                self.height as nat,
                x as int,
                y as int,
                0,
            ) == Some(out->Some_0 as int),
            out is None ==> first_fit(
                pattern.unique_rotations@,
                self.grid@,
                self.width as nat,
                self.height as nat,
                x as int,
                y as int,
                0,
            ) is None,
            out is None ==> forall|i: int|
                0 <= i < pattern.unique_rotations@.len() ==> !rs_fits(
                    #[trigger] pattern.unique_rotations@[i],
                    self.grid@,
                    self.width as nat,
                    self.height as nat,
                    x as int,
                    y as int,
                ),
            out is Some ==> exists|i: int|
                0 <= i < pattern.unique_rotations@.len() && rs_fits(
                    #[trigger] pattern.unique_rotations@[i],
                    self.grid@,
                    self.width as nat,
                    self.height as nat,
                    x as int,
                    y as int,
                ) && pattern.unique_rotations@[i].rotation == out->Some_0,
    {
        let ghost grid = self.grid@;
        let ghost gw = self.width as nat;
        let ghost gh = self.height as nat;
        let count = pattern.unique_rotations.len();
        for i in 0..count
            invariant
                count == pattern.unique_rotations@.len(),
                first_fit(pattern.unique_rotations@, grid, gw, gh, x as int, y as int, 0)
                    == first_fit(pattern.unique_rotations@, grid, gw, gh, x as int, y as int, i as int),
                forall|k: int|
                    0 <= k < i ==> !rs_fits(
                        #[trigger] pattern.unique_rotations@[k],
                        grid,
                        gw,
                        gh,
                        x as int,
                        y as int,
                    ),
        {
            let rs = &pattern.unique_rotations[i];
            proof {
                crate::pattern::lemma_unique_is_image(*pattern, i as int);
                assert(rs.data@.len() == (pattern.width as nat) * (pattern.height as nat));
                assert((rs.width == pattern.width && rs.height == pattern.height) || (rs.width
                    == pattern.height && rs.height == pattern.width));
                assert(rs.data@.len() == rs.width * rs.height) by (nonlinear_arith)
                    requires
                        rs.data@.len() == (pattern.width as nat) * (pattern.height as nat) && ((
                        rs.width == pattern.width && rs.height == pattern.height) || (rs.width
                            == pattern.height && rs.height == pattern.width)),
                ;
            }
            if self.rs_fits_here(x, y, rs) {
                return Some(rs.rotation);
            }
        }
        None
    }

    /// Whether one dihedral image fits the grid at `(x, y)`.
    #[verifier::loop_isolation(false)]
    fn rs_fits_here(&self, x: usize, y: usize, rs: &RotatedSeq) -> (out: bool)
        requires
            self.grid_wf(),
            rs.width >= 1,
            rs.data@.len() == rs.width * rs.height,
        ensures
            out == rs_fits(*rs, self.grid@, self.width as nat, self.height as nat, x as int, y as int),
    {
        let ghost grid = self.grid@;
        let ghost gw = self.width as nat;
        let ghost gh = self.height as nat;
        if x > self.width || rs.width > self.width - x || y > self.height || rs.height
            > self.height - y {
            return false;
        }
        let w = rs.width;
        let n = rs.data.len();
        for j in 0..n
            invariant
                n == rs.data@.len(),
                forall|k: int|
                    0 <= k < j ==> (#[trigger] rs.data@[k] == ANYTHING || rs.data@[k] == cell_char(
                        grid,
                        gw,
                        gh,
                        x + k % (w as int),
                        y + k / (w as int),
                    )),
        {
            let c = rs.data[j];
            if c != ANYTHING {
                let px = j % w;
                let py = j / w;
                proof {
                    vstd::arithmetic::div_mod::lemma_fundamental_div_mod(j as int, w as int);
                    vstd::arithmetic::div_mod::lemma_mod_division_less_than_divisor(
                        j as int,
                        w as int,
                    );
                    assert(py < rs.height) by (nonlinear_arith)
                        requires
                            j == w * py + px && 0 <= px < w && j < w * rs.height && w >= 1,
                    ;
                    assert((y + py) * gw + (x + px) < gw * gh) by (nonlinear_arith)
                        requires
                            x + px < gw && y + py < gh && gw >= 1,
                    ;
                    assert(self.grid@.len() == gw * gh) by (nonlinear_arith)
                        requires
                            self.grid@.len() == self.width * self.height && gw == self.width as nat
                                && gh == self.height as nat,
                    ;
                }
                let glen = self.grid.len();
                proof {
                    assert((y + py) * (self.width as int) + (x + px) < glen) by (nonlinear_arith)
                        requires
                            x + px < self.width as int && y + py < self.height as int && glen == (
                            self.width as int) * (self.height as int) && self.width >= 1,
                    ;
                }
                let g = self.grid[(y + py) * self.width + (x + px)];
                if c as u32 != g as u32 {
                    proof {
                        assert(cell_char(grid, gw, gh, x + px, y + py) == g as char);
                        assert((g as char) as u32 == g as u32);
                        assert(c != cell_char(grid, gw, gh, x + px, y + py));
                        assert(!rs_fits(*rs, grid, gw, gh, x as int, y as int));
                    }
                    return false;
                }
                proof {
                    assert(c as u32 == g as u32 && (g as char) as u32 == g as u32);
                    crate::pattern::lemma_char_u32_eq(c, g as char);
                    assert(rs.data@[j as int] == cell_char(grid, gw, gh, x + px, y + py));
                }
            }
        }
        true
    }

    /// Tests a square, wildcard-free pattern at `(x, y)` through the
    /// precomputed canonical-form index: where the footprint fits, the
    /// pattern matches exactly when the neighborhood's canonical form
    /// holds the same cells as the pattern's, and the reported transform
    /// maps the pattern's cells onto the neighborhood the grid shows.
    pub fn pattern_fits_canonical(&self, x: usize, y: usize, pattern: &Pattern) -> (out: Option<
        isize,
    >)
        requires
            self.wf(),
            pattern.wf(),
            pattern.canonical_form is Some,
            self.has_size(pattern.width),
        ensures
            out is Some ==> canonical_fit(
                *pattern,
                self.grid@,
                self.width as nat,
                self.height as nat,
                x as int,
                y as int,
            ) == Some(out->Some_0 as int),
            out is None ==> canonical_fit(
                *pattern,
                self.grid@,
                self.width as nat,
                self.height as nat,
                x as int,
                y as int,
            ) is None,
            out is Some ==> rot_valid(out->Some_0 as int) && spec_image(
                pattern.data@,
                pattern.width as nat,
                pattern.height as nat,
                out->Some_0 as int,
            ) == spec_neighborhood(
                self.grid@,
                self.width as nat,
                self.height as nat,
                x as int,
                y as int,
                pattern.width as nat,
            ),
    {
        let ghost grid = self.grid@;
        let ghost gw = self.width as nat;
        let ghost gh = self.height as nat;
        proof {
            assert(has_canonical(pattern.width as nat, pattern.height as nat, pattern.has_wildcards));
        }
        if x > self.width || pattern.width > self.width - x || y > self.height || pattern.height
            > self.height - y {
            return None;
        }
        let s = pattern.width;
        let entry_index = self.find_size(s);
        let entry = &self.canonical_forms[entry_index];
        proof {
            assert(entry_wf(*entry, grid, gw, gh));
            assert(x < gw && y < gh);
            assert(form_ok(form_at(*entry, gw, x as int, y as int), grid, gw, gh, x as int, y as int, s as nat));
            assert((y as int) * gw + x < grid.len()) by (nonlinear_arith)
                requires
                    x < gw && y < gh && grid.len() == gw * gh,
            ;
        }
        let flen = entry.forms.len();
        proof {
            assert((y as int) * (self.width as int) + x < flen) by (nonlinear_arith)
                requires
                    x < self.width as int && y < self.height as int && flen >= (
                    self.width as int) * (self.height as int) && self.width >= 1,
            ;
        }
        let grid_form = &entry.forms[y * self.width + x];
        proof {
            assert(*grid_form == form_at(*entry, gw, x as int, y as int));
        }
        let pattern_form = pattern.canonical_form.as_ref().unwrap();
        proof {
            // Both canonical forms hold one cell per neighborhood position.
            let nb = spec_neighborhood(grid, gw, gh, x as int, y as int, s as nat);
            assert(spec_canonical(nb, s as nat, s as nat).0.len() == (s as nat) * (s as nat)) by {
                lemma_canonical_min(nb, s as nat, s as nat);
                let k = choose|k: int|
                    0 <= k < 8 && #[trigger] rot_order(k) == spec_canonical(nb, s as nat, s as nat).1
                        && spec_image(nb, s as nat, s as nat, rot_order(k)) == spec_canonical(
                        nb,
                        s as nat,
                        s as nat,
                    ).0;
            }
            assert(pattern_form.data@.len() == (s as nat) * (s as nat)) by {
                let pd = pattern.data@;
                lemma_canonical_min(pd, s as nat, s as nat);
                let k = choose|k: int|
                    0 <= k < 8 && #[trigger] rot_order(k) == spec_canonical(pd, s as nat, s as nat).1
                        && spec_image(pd, s as nat, s as nat, rot_order(k)) == spec_canonical(
                        pd,
                        s as nat,
                        s as nat,
                    ).0;
            }
        }
        if crate::pattern::cells_equal(grid_form.data.as_slice(), pattern_form.data.as_slice()) {
            proof {
                let nb = spec_neighborhood(grid, gw, gh, x as int, y as int, s as nat);
                assert(rect_wf(nb, s as nat, s as nat)) by {
                    assert(nb.len() == (s as nat) * (s as nat));
                }
                lemma_canonical_min(nb, s as nat, s as nat);
                let k = choose|k: int|
                    0 <= k < 8 && #[trigger] rot_order(k) == spec_canonical(nb, s as nat, s as nat).1
                        && spec_image(nb, s as nat, s as nat, rot_order(k)) == spec_canonical(
                        nb,
                        s as nat,
                        s as nat,
                    ).0;
                assert(rot_valid(spec_canonical(nb, s as nat, s as nat).1));
                assert(rot_valid(grid_form.rotation as int));
                assert(rot_valid(pattern_form.rotation as int)) by {
                    let pd = pattern.data@;
                    assert(rect_wf(pd, s as nat, s as nat));
                    lemma_canonical_min(pd, s as nat, s as nat);
                    let k2 = choose|k2: int|
                        0 <= k2 < 8 && #[trigger] rot_order(k2) == spec_canonical(
                            pd,
                            s as nat,
                            s as nat,
                        ).1 && spec_image(pd, s as nat, s as nat, rot_order(k2)) == spec_canonical(
                            pd,
                            s as nat,
                            s as nat,
                        ).0;
                    assert(pattern_form.is_image_of(
                        pd,
                        s as nat,
                        s as nat,
                        spec_canonical(pd, s as nat, s as nat).1,
                    ));
                }
            }
            let rel = Pattern::calculate_relative_rotation(
                grid_form.rotation,
                pattern_form.rotation,
            );
            proof {
                assert(canonical_fit(*pattern, grid, gw, gh, x as int, y as int) == Some(
                    rel as int,
                ));
                lemma_canonical_fit_sound(*pattern, grid, gw, gh, x as int, y as int);
            }
            Some(rel)
        } else {
            proof {
                assert(grid_form.data@ != pattern_form.data@);
            }
            None
        }
    }

    /// Index of the canonical-form entry for size `s`.
    fn find_size(&self, s: usize) -> (out: usize)
        requires
            self.has_size(s),
        ensures
            out < self.canonical_forms@.len(),
            self.canonical_forms@[out as int].size == s,
    {
        let count = self.canonical_forms.len();
        for i in 0..count
            invariant
                count == self.canonical_forms@.len(),
                forall|k: int| 0 <= k < i ==> (#[trigger] self.canonical_forms@[k]).size != s,
                self.has_size(s),
        {
            if self.canonical_forms[i].size == s {
                return i;
            }
        }
        proof {
            let k = choose|k: int|
                0 <= k < self.canonical_forms@.len() && (#[trigger] self.canonical_forms@[k]).size
                    == s;
            assert(false);
        }
        0
    }
}

/// Some image in `rots` carries transform index `r`.
pub open spec fn has_rotation(rots: Seq<RotatedSeq>, r: isize) -> bool {
    exists|k: int| 0 <= k < rots.len() && (#[trigger] rots[k]).rotation == r
}

/// The image a pattern writes for transform index `r`: the first entry of
/// its image list carrying that index.
pub open spec fn rot_entry(p: Pattern, r: isize) -> RotatedSeq {
    p.rotations@[find_rot_index(p.rotations@, r, 0)]
}

/// Whether the coordinates `(cx, cy)` lie in the rectangle of width `ww`
/// and height `wh` anchored at `(wx, wy)`.
pub open spec fn in_rect(cx: int, cy: int, wx: int, wy: int, ww: int, wh: int) -> bool {
    wx <= cx < wx + ww && wy <= cy < wy + wh
}

/// Two grids of the same size agree everywhere outside the given
/// rectangle.
pub open spec fn grids_agree_outside(
    g1: Seq<u8>,
    g2: Seq<u8>,
    gw: nat,
    wx: int,
    wy: int,
    ww: int,
    wh: int,
) -> bool {
    &&& g1.len() == g2.len()
    &&& forall|i: int|
        0 <= i < g1.len() && !in_rect(i % (gw as int), i / (gw as int), wx, wy, ww, wh)
            ==> g1[i] == g2[i]
}

/// The rectangles `[x, x + s) x [y, y + s2)` and the write rectangle are
/// disjoint.
pub open spec fn reads_clear(
    x: int,
    y: int,
    s: int,
    s2: int,
    wx: int,
    wy: int,
    ww: int,
    wh: int,
) -> bool {
    x + s <= wx || wx + ww <= x || y + s2 <= wy || wy + wh <= y
}

/// A cell outside the write rectangle reads the same symbol in both
/// grids.
pub proof fn lemma_cell_char_stable(
    g1: Seq<u8>,
    g2: Seq<u8>,
    gw: nat,
    gh: nat,
    wx: int,
    wy: int,
    ww: int,
    wh: int,
    cx: int,
    cy: int,
)
    requires
        grids_agree_outside(g1, g2, gw, wx, wy, ww, wh),
        g1.len() == gw * gh,
        !in_rect(cx, cy, wx, wy, ww, wh),
    ensures
        cell_char(g1, gw, gh, cx, cy) == cell_char(g2, gw, gh, cx, cy),
{
    if 0 <= cx < gw && 0 <= cy < gh {
        let i = cy * gw + cx;
        assert(0 <= i < gw * gh) by (nonlinear_arith)
            requires
                i == cy * gw + cx && 0 <= cx < gw && 0 <= cy < gh,
        ;
        vstd::arithmetic::div_mod::lemma_fundamental_div_mod_converse(i, gw as int, cy, cx);
        assert(i % (gw as int) == cx && i / (gw as int) == cy);
    }
}

/// A neighborhood whose cells lie clear of the write rectangle is the
/// same in both grids.
pub proof fn lemma_neighborhood_stable(
    g1: Seq<u8>,
    g2: Seq<u8>,
    gw: nat,
    gh: nat,
    wx: int,
    wy: int,
    ww: int,
    wh: int,
    x: int,
    y: int,
    s: nat,
)
    requires
        grids_agree_outside(g1, g2, gw, wx, wy, ww, wh),
        g1.len() == gw * gh,
        x >= 0,
        y >= 0,
        s >= 1,
        reads_clear(x, y, s as int, s as int, wx, wy, ww, wh),
    ensures
        spec_neighborhood(g1, gw, gh, x, y, s) == spec_neighborhood(g2, gw, gh, x, y, s),
{
    let n1 = spec_neighborhood(g1, gw, gh, x, y, s);
    let n2 = spec_neighborhood(g2, gw, gh, x, y, s);
    assert forall|j: int| 0 <= j < s * s implies n1[j] == n2[j] by {
        vstd::arithmetic::div_mod::lemma_fundamental_div_mod(j, s as int);
        vstd::arithmetic::div_mod::lemma_mod_division_less_than_divisor(j, s as int);
        let dx = j % (s as int);
        let dy = j / (s as int);
        assert(dy < s) by (nonlinear_arith)
            requires
                j == (s as int) * dy + dx && 0 <= dx < s && 0 <= j < s * s,
        ;
        assert(!in_rect(x + dx, y + dy, wx, wy, ww, wh));
        lemma_cell_char_stable(g1, g2, gw, gh, wx, wy, ww, wh, x + dx, y + dy);
    }
    assert(n1 =~= n2);
}

/// An image fit whose reads lie clear of the write rectangle is the same
/// in both grids.
pub proof fn lemma_rs_fits_stable(
    rs: RotatedSeq,
    g1: Seq<u8>,
    g2: Seq<u8>,
    gw: nat,
    gh: nat,
    wx: int,
    wy: int,
    ww: int,
    wh: int,
    x: int,
    y: int,
)
    requires
        grids_agree_outside(g1, g2, gw, wx, wy, ww, wh),
        g1.len() == gw * gh,
        x >= 0,
        y >= 0,
        rs.width >= 1,
        rs.data@.len() == rs.width * rs.height,
        reads_clear(x, y, rs.width as int, rs.height as int, wx, wy, ww, wh),
    ensures
        rs_fits(rs, g1, gw, gh, x, y) == rs_fits(rs, g2, gw, gh, x, y),
{
    let w = rs.width as int;
    if rs_fits(rs, g1, gw, gh, x, y) {
        assert forall|j: int| 0 <= j < rs.data@.len() implies (#[trigger] rs.data@[j] == ANYTHING
            || rs.data@[j] == cell_char(g2, gw, gh, x + j % w, y + j / w)) by {
            lemma_rs_read_stable(rs, g1, g2, gw, gh, wx, wy, ww, wh, x, y, j);
        }
    }
    if rs_fits(rs, g2, gw, gh, x, y) {
        assert forall|j: int| 0 <= j < rs.data@.len() implies (#[trigger] rs.data@[j] == ANYTHING
            || rs.data@[j] == cell_char(g1, gw, gh, x + j % w, y + j / w)) by {
            lemma_rs_read_stable(rs, g1, g2, gw, gh, wx, wy, ww, wh, x, y, j);
        }
    }
}

/// One cell an image fit reads lies clear of the write rectangle, so both
/// grids show it the same symbol.
proof fn lemma_rs_read_stable(
    rs: RotatedSeq,
    g1: Seq<u8>,
    g2: Seq<u8>,
    gw: nat,
    gh: nat,
    wx: int,
    wy: int,
    ww: int,
    wh: int,
    x: int,
    y: int,
    j: int,
)
    requires
        grids_agree_outside(g1, g2, gw, wx, wy, ww, wh),
        g1.len() == gw * gh,
        x >= 0,
        y >= 0,
        rs.width >= 1,
        rs.data@.len() == rs.width * rs.height,
        reads_clear(x, y, rs.width as int, rs.height as int, wx, wy, ww, wh),
        0 <= j < rs.data@.len(),
    ensures
        cell_char(g1, gw, gh, x + j % (rs.width as int), y + j / (rs.width as int)) == cell_char(
            g2,
            gw,
            gh,
            x + j % (rs.width as int),
            y + j / (rs.width as int),
        ),
{
    let w = rs.width as int;
    vstd::arithmetic::div_mod::lemma_fundamental_div_mod(j, w);
    vstd::arithmetic::div_mod::lemma_mod_division_less_than_divisor(j, w);
    assert(j / w < rs.height) by (nonlinear_arith)
        requires
            j == w * (j / w) + j % w && 0 <= j % w < w && 0 <= j < w * rs.height && w >= 1,
    ;
    assert(!in_rect(x + j % w, y + j / w, wx, wy, ww, wh));
    lemma_cell_char_stable(g1, g2, gw, gh, wx, wy, ww, wh, x + j % w, y + j / w);
}

/// A sliding-scan fit whose reads lie clear of the write rectangle is the
/// same in both grids.
pub proof fn lemma_first_fit_stable(
    urs: Seq<RotatedSeq>,
    data: Seq<char>,
    pw: nat,
    ph: nat,
    g1: Seq<u8>,
    g2: Seq<u8>,
    gw: nat,
    gh: nat,
    wx: int,
    wy: int,
    ww: int,
    wh: int,
    x: int,
    y: int,
    i: int,
)
    requires
        grids_agree_outside(g1, g2, gw, wx, wy, ww, wh),
        g1.len() == gw * gh,
        x >= 0,
        y >= 0,
        pw >= 1,
        ph >= 1,
        forall|k: int|
            0 <= k < urs.len() ==> crate::pattern::some_image_of(#[trigger] urs[k], data, pw, ph),
        data.len() == pw * ph,
        reads_clear(x, y, if pw >= ph {
            pw as int
        } else {
            ph as int
        }, if pw >= ph {
            pw as int
        } else {
            ph as int
        }, wx, wy, ww, wh),
    ensures
        first_fit(urs, g1, gw, gh, x, y, i) == first_fit(urs, g2, gw, gh, x, y, i),
    decreases urs.len() - i,
{
    if 0 <= i < urs.len() {
        let rs = urs[i];
        assert(crate::pattern::some_image_of(rs, data, pw, ph));
        let r = choose|r: int|
            crate::transform::rot_valid(r) && #[trigger] rs.is_image_of(data, pw, ph, r);
        assert(rs.data@.len() == pw * ph);
        assert((rs.width == pw && rs.height == ph) || (rs.width == ph && rs.height == pw));
        assert(rs.data@.len() == rs.width * rs.height) by (nonlinear_arith)
            requires
                rs.data@.len() == pw * ph && ((rs.width == pw && rs.height == ph) || (rs.width
                    == ph && rs.height == pw)),
        ;
        lemma_rs_fits_stable(rs, g1, g2, gw, gh, wx, wy, ww, wh, x, y);
        lemma_first_fit_stable(urs, data, pw, ph, g1, g2, gw, gh, wx, wy, ww, wh, x, y, i + 1);
    }
}

/// A rewrite's fit at a cell whose reads lie clear of the write rectangle
/// is the same in both grids.
pub proof fn lemma_fit_stable(
    pr: PatternRule,
    g1: Seq<u8>,
    g2: Seq<u8>,
    gw: nat,
    gh: nat,
    wx: int,
    wy: int,
    ww: int,
    wh: int,
    ux: usize,
    uy: usize,
    radius: int,
)
    requires
        pr.wf(),
        grids_agree_outside(g1, g2, gw, wx, wy, ww, wh),
        g1.len() == gw * gh,
        pr.input.width <= radius,
        pr.input.height <= radius,
        reads_clear(ux as int, uy as int, radius, radius, wx, wy, ww, wh),
    ensures
        spec_fit(pr, g1, gw, gh, ux as int, uy as int) == spec_fit(
            pr,
            g2,
            gw,
            gh,
            ux as int,
            uy as int,
        ),
{
    let x = ux as int;
    let y = uy as int;
    if pr.input.canonical_form is Some {
        let s = pr.input.width as nat;
        assert(has_canonical(
            pr.input.width as nat,
            pr.input.height as nat,
            pr.input.has_wildcards,
        ));
        if x + pr.input.width <= gw && y + pr.input.height <= gh {
            assert(reads_clear(x, y, s as int, s as int, wx, wy, ww, wh));
            lemma_neighborhood_stable(g1, g2, gw, gh, wx, wy, ww, wh, x, y, s);
        }
    } else {
        assert(reads_clear(x, y, if pr.input.width >= pr.input.height {
            pr.input.width as int
        } else {
            pr.input.height as int
        }, if pr.input.width >= pr.input.height {
            pr.input.width as int
        } else {
            pr.input.height as int
        }, wx, wy, ww, wh));
        assert forall|k: int| 0 <= k < pr.input.unique_rotations@.len() implies
            crate::pattern::some_image_of(
            #[trigger] pr.input.unique_rotations@[k],
            pr.input.data@,
            pr.input.width as nat,
            pr.input.height as nat,
        ) by {
            crate::pattern::lemma_unique_is_image(pr.input, k);
        }
        lemma_first_fit_stable(
            pr.input.unique_rotations@,
            pr.input.data@,
            pr.input.width as nat,
            pr.input.height as nat,
            g1,
            g2,
            gw,
            gh,
            wx,
            wy,
            ww,
            wh,
            x,
            y,
            0,
        );
    }
}

/// The rule radius is positive.
pub proof fn lemma_radius_pos(patterns: Seq<PatternRule>, upto: int)
    ensures
        rule_radius_upto(patterns, upto) >= 1,
    decreases upto,
{
    if upto > 0 {
        lemma_radius_pos(patterns, upto - 1);
    }
}

/// Every rewrite's template extent stays within the rule's radius.
pub proof fn lemma_radius_bound(patterns: Seq<PatternRule>, i: int, upto: int)
    requires
        0 <= i < upto <= patterns.len(),
    ensures
        patterns[i].input.width <= rule_radius_upto(patterns, upto),
        patterns[i].input.height <= rule_radius_upto(patterns, upto),
        rule_radius_upto(patterns, upto) >= 1,
    decreases upto,
{
    lemma_radius_pos(patterns, upto);
    if i < upto - 1 {
        lemma_radius_bound(patterns, i, upto - 1);
    }
}

/// The rule's matches at a cell whose reads lie clear of the write
/// rectangle are the same in both grids.
pub proof fn lemma_cell_matches_stable(
    rule: Rule,
    g1: Seq<u8>,
    g2: Seq<u8>,
    gw: nat,
    gh: nat,
    wx: int,
    wy: int,
    ww: int,
    wh: int,
    ux: usize,
    uy: usize,
    upto: int,
)
    requires
        rule.wf(),
        grids_agree_outside(g1, g2, gw, wx, wy, ww, wh),
        g1.len() == gw * gh,
        0 <= upto <= rule.patterns@.len(),
        reads_clear(ux as int, uy as int, rule_radius(rule), rule_radius(rule), wx, wy, ww, wh),
    ensures
        cell_matches_upto(rule, g1, gw, gh, ux, uy, upto) == cell_matches_upto(
            rule,
            g2,
            gw,
            gh,
            ux,
            uy,
            upto,
        ),
    decreases upto,
{
    if upto > 0 {
        lemma_cell_matches_stable(rule, g1, g2, gw, gh, wx, wy, ww, wh, ux, uy, upto - 1);
        let pr = rule.patterns@[upto - 1];
        assert(pr.wf());
        lemma_radius_bound(rule.patterns@, upto - 1, rule.patterns@.len() as int);
        lemma_fit_stable(pr, g1, g2, gw, gh, wx, wy, ww, wh, ux, uy, rule_radius(rule));
    }
}

/// A canonical-form index entry is consistent with the grid at every cell
/// whose neighborhood lies clear of the write rectangle; cells nearer the
/// write may be stale.
pub open spec fn entry_ok_outside(
    e: CanonicalForms,
    grid: Seq<u8>,
    gw: nat,
    gh: nat,
    wx: int,
    wy: int,
    ww: int,
    wh: int,
) -> bool {
    &&& e.size >= 2
    &&& e.size * e.size <= usize::MAX
    &&& e.forms@.len() == grid.len()
    &&& forall|cx: int, cy: int|
        0 <= cx < gw && 0 <= cy < gh && reads_clear(
            cx,
            cy,
            e.size as int,
            e.size as int,
            wx,
            wy,
            ww,
            wh,
        ) ==> form_ok(#[trigger] form_at(e, gw, cx, cy), grid, gw, gh, cx, cy, e.size as nat)
}

/// The weight a match contributes to weighted selection: its explicit
/// probability, or the scale (a weight of one) where none is set.
pub open spec fn weight_of(m: PatternMatch) -> int {
    match m.probability {
        Some(p) => p as int,
        None => crate::PROB_SCALE as int,
    }
}

/// The 64-bit saturating sum of the weights of the first `upto` matches.
pub open spec fn total_weight(ms: Seq<PatternMatch>, upto: int) -> int
    decreases upto,
{
    if upto <= 0 {
        0
    } else {
        let prev = total_weight(ms, upto - 1);
        if prev + weight_of(ms[upto - 1]) <= u64::MAX {
            prev + weight_of(ms[upto - 1])
        } else {
            u64::MAX as int
        }
    }
}

/// The exact sum of the weights of the matches from `i` on.
pub open spec fn rest_weight(ms: Seq<PatternMatch>, i: int) -> int
    decreases ms.len() - i,
{
    if i < 0 || i >= ms.len() {
        0
    } else {
        weight_of(ms[i]) + rest_weight(ms, i + 1)
    }
}

/// The exact sum of the weights of the first `upto` matches.
pub open spec fn exact_weight(ms: Seq<PatternMatch>, upto: int) -> int
    decreases upto,
{
    if upto <= 0 {
        0
    } else {
        exact_weight(ms, upto - 1) + weight_of(ms[upto - 1])
    }
}

/// Weighted selection: walk the matches subtracting weights from `choice`
/// and pick the first match whose weight exceeds what is left.
pub open spec fn pick_index(ms: Seq<PatternMatch>, choice: int, i: int) -> int
    decreases ms.len() - i,
{
    if i < 0 || i >= ms.len() {
        ms.len() as int
    } else if choice < weight_of(ms[i]) {
        i
    } else {
        pick_index(ms, choice - weight_of(ms[i]), i + 1)
    }
}

/// The pick never points before its scan start.
pub proof fn lemma_pick_ge(ms: Seq<PatternMatch>, choice: int, i: int)
    requires
        0 <= i <= ms.len(),
    ensures
        pick_index(ms, choice, i) >= i,
    decreases ms.len() - i,
{
    if i < ms.len() && choice >= weight_of(ms[i]) {
        lemma_pick_ge(ms, choice - weight_of(ms[i]), i + 1);
    }
}

/// A draw below the exact remaining weight always lands on a match.
pub proof fn lemma_pick_in_range(ms: Seq<PatternMatch>, choice: int, i: int)
    requires
        0 <= i <= ms.len(),
        0 <= choice < rest_weight(ms, i),
    ensures
        i <= pick_index(ms, choice, i) < ms.len(),
    decreases ms.len() - i,
{
    if i < ms.len() && choice >= weight_of(ms[i]) {
        lemma_pick_in_range(ms, choice - weight_of(ms[i]), i + 1);
    }
}

/// The saturating prefix total never exceeds the exact prefix total.
pub proof fn lemma_total_le_exact(ms: Seq<PatternMatch>, upto: int)
    requires
        0 <= upto <= ms.len(),
    ensures
        total_weight(ms, upto) <= exact_weight(ms, upto),
        0 <= total_weight(ms, upto),
    decreases upto,
{
    if upto > 0 {
        lemma_total_le_exact(ms, upto - 1);
    }
}

/// The exact prefix total plus the rest is the exact whole.
pub proof fn lemma_prefix_rest(ms: Seq<PatternMatch>, k: int)
    requires
        0 <= k <= ms.len(),
    ensures
        exact_weight(ms, k) + rest_weight(ms, k) == rest_weight(ms, 0),
    decreases k,
{
    if k > 0 {
        lemma_prefix_rest(ms, k - 1);
    }
}

/// The counter after one draw.
pub open spec fn inc64(c: u64) -> u64 {
    if c == u64::MAX {
        0
    } else {
        (c + 1) as u64
    }
}

/// The grid after one match is applied: the matched rewrite's output,
/// transformed by the match's index, lands at the match's anchor.
pub open spec fn write_match(grid: Seq<u8>, gw: nat, rule: Rule, m: PatternMatch) -> Seq<u8> {
    spec_write(
        grid,
        gw,
        m.x as int,
        m.y as int,
        rot_entry(rule.patterns@[m.pattern_index as int].output, m.rotation),
    )
}

/// A match the engine can apply: its rewrite exists, the output carries an
/// image for the match's transform, and that image's footprint stays in
/// the grid.
pub open spec fn match_valid(rule: Rule, gw: nat, gh: nat, m: PatternMatch) -> bool {
    &&& m.pattern_index < rule.patterns@.len()
    &&& has_rotation(rule.patterns@[m.pattern_index as int].output.rotations@, m.rotation)
    &&& m.x + rot_entry(rule.patterns@[m.pattern_index as int].output, m.rotation).width <= gw
    &&& m.y + rot_entry(rule.patterns@[m.pattern_index as int].output, m.rotation).height <= gh
    &&& m.probability == rule.patterns@[m.pattern_index as int].probability
}

/// A fit reported by `spec_fit` yields a valid match: the output carries
/// an image for the reported transform and its footprint stays inside the
/// grid.
pub proof fn lemma_fit_match_valid(
    rule: Rule,
    idx: int,
    grid: Seq<u8>,
    gw: nat,
    gh: nat,
    ux: usize,
    uy: usize,
)
    requires
        rule.wf(),
        rule.patterns@.len() <= usize::MAX,
        0 <= idx < rule.patterns@.len(),
        spec_fit(rule.patterns@[idx], grid, gw, gh, ux as int, uy as int) is Some,
    ensures
        ({
            let r = spec_fit(rule.patterns@[idx], grid, gw, gh, ux as int, uy as int)->Some_0;
            match_valid(
                rule,
                gw,
                gh,
                PatternMatch {
                    x: ux,
                    y: uy,
                    probability: rule.patterns@[idx].probability,
                    pattern_index: idx as usize,
                    rotation: r as isize,
                },
            )
        }),
{
    let pr = rule.patterns@[idx];
    assert(pr.wf());
    let out = pr.output;
    let ow = out.width as nat;
    let oh = out.height as nat;
    let r = spec_fit(pr, grid, gw, gh, ux as int, uy as int)->Some_0;
    if pr.input.canonical_form is Some {
        let s = pr.input.width as nat;
        assert(has_canonical(pr.input.width as nat, pr.input.height as nat, pr.input.has_wildcards));
        let pd = pr.input.data@;
        let nb = spec_neighborhood(grid, gw, gh, ux as int, uy as int, s);
        let cn = spec_canonical(nb, s, s);
        let pc = pr.input.canonical_form->Some_0;
        assert(rect_wf(nb, s, s)) by {
            assert(nb.len() == s * s);
        }
        assert(rect_wf(pd, s, s));
        lemma_canonical_min(nb, s, s);
        lemma_canonical_min(pd, s, s);
        assert(rot_valid(cn.1)) by {
            let k = choose|k: int|
                0 <= k < 8 && #[trigger] crate::pattern::rot_order(k) == cn.1 && spec_image(
                    nb,
                    s,
                    s,
                    crate::pattern::rot_order(k),
                ) == cn.0;
        }
        assert(rot_valid(pc.rotation as int)) by {
            let k = choose|k: int|
                0 <= k < 8 && #[trigger] crate::pattern::rot_order(k) == spec_canonical(pd, s, s).1
                    && spec_image(pd, s, s, crate::pattern::rot_order(k)) == spec_canonical(
                    pd,
                    s,
                    s,
                ).0;
            assert(pc.is_image_of(pd, s, s, spec_canonical(pd, s, s).1));
        }
        lemma_rot_inv(cn.1);
        crate::pattern::lemma_rot_mul_cancel(pc.rotation as int, rot_inv(cn.1));
        assert(rot_valid(rot_mul(rot_inv(cn.1), pc.rotation as int))) by {
            assert(rot_valid(rot_inv(cn.1)) && rot_valid(pc.rotation as int));
        }
        assert(rot_valid(r));
        assert(pr.input.width >= 2);
        lemma_output_rotation(rule, idx, r);
        assert(rot_entry(out, r as isize).width as nat == s);
        assert(rot_entry(out, r as isize).height as nat == s);
    } else {
        let urs = pr.input.unique_rotations@;
        lemma_first_fit_found(pr, grid, gw, gh, ux as int, uy as int, 0);
        let i = choose|i: int|
            0 <= i < urs.len() && rs_fits(#[trigger] urs[i], grid, gw, gh, ux as int, uy as int)
                && urs[i].rotation as int == r;
        crate::pattern::lemma_unique_is_image(pr.input, i);
        assert(rot_valid(r));
        assert(pr.input.width == 1 && pr.input.height == 1 ==> r == 1);
        lemma_output_rotation(rule, idx, r);
        // The fitted image and the output's image for `r` share dimensions.
        let iw = pr.input.width as nat;
        let ih = pr.input.height as nat;
        let oe = rot_entry(out, r as isize);
        if pr.input.width == 1 && pr.input.height == 1 {
            assert(urs[i].is_image_of(pr.input.data@, iw, ih, r));
        } else {
            assert(urs[i].is_image_of(pr.input.data@, iw, ih, r));
        }
        assert(oe.width == urs[i].width && oe.height == urs[i].height);
    }
    let m = PatternMatch {
        x: ux,
        y: uy,
        probability: pr.probability,
        pattern_index: idx as usize,
        rotation: r as isize,
    };
    assert(m.pattern_index as int == idx);
    assert(m.pattern_index < rule.patterns@.len());
    assert(has_rotation(rule.patterns@[m.pattern_index as int].output.rotations@, m.rotation));
    assert(m.x + rot_entry(rule.patterns@[m.pattern_index as int].output, m.rotation).width <= gw);
    assert(m.y + rot_entry(rule.patterns@[m.pattern_index as int].output, m.rotation).height <= gh);
    assert(m.probability == rule.patterns@[m.pattern_index as int].probability);
}

/// A well-formed rewrite's output holds an image for every valid
/// transform index its input can report, with the input's own rotated
/// dimensions.
pub proof fn lemma_output_rotation(rule: Rule, idx: int, r: int)
    requires
        rule.wf(),
        0 <= idx < rule.patterns@.len(),
        rot_valid(r),
        rule.patterns@[idx].input.width >= 2 || rule.patterns@[idx].input.height >= 2 || r == 1,
    ensures
        has_rotation(rule.patterns@[idx].output.rotations@, r as isize),
        rot_entry(rule.patterns@[idx].output, r as isize).width as nat == crate::transform::rot_w(
            rule.patterns@[idx].input.width as nat,
            rule.patterns@[idx].input.height as nat,
            r,
        ),
        rot_entry(rule.patterns@[idx].output, r as isize).height as nat
            == crate::transform::rot_h(
            rule.patterns@[idx].input.width as nat,
            rule.patterns@[idx].input.height as nat,
            r,
        ),
{
    let pr = rule.patterns@[idx];
    assert(pr.wf());
    let out = pr.output;
    let ow = out.width as nat;
    let oh = out.height as nat;
    if out.width == 1 && out.height == 1 {
        assert(out.rotations@[0].is_image_of(out.data@, 1, 1, 1));
        assert(out.rotations@[0].rotation == 1isize);
        assert(has_rotation(out.rotations@, r as isize));
        lemma_find_rot_finds(out.rotations@, r as isize, 0);
        assert(rot_entry(out, r as isize).is_image_of(out.data@, 1, 1, 1));
    } else {
        crate::pattern::lemma_rot_order_covers(r);
        let k = choose|k: int| 0 <= k < 8 && #[trigger] crate::pattern::rot_order(k) == r;
        assert(out.rotations@[k].is_image_of(out.data@, ow, oh, r));
        assert(out.rotations@[k].rotation == r as isize);
        assert(has_rotation(out.rotations@, r as isize));
        lemma_find_rot_finds(out.rotations@, r as isize, 0);
        let f = find_rot_index(out.rotations@, r as isize, 0);
        if out.rotations@[f].rotation as int == crate::pattern::rot_order(f) {
        }
        assert(out.rotations@[f].is_image_of(out.data@, ow, oh, crate::pattern::rot_order(f)));
        assert(crate::pattern::rot_order(f) == r);
    }
}

/// `first_fit` reports the transform of a fitting unique image.
pub proof fn lemma_first_fit_found(
    pr: PatternRule,
    grid: Seq<u8>,
    gw: nat,
    gh: nat,
    x: int,
    y: int,
    i: int,
)
    requires
        0 <= i <= pr.input.unique_rotations@.len(),
        first_fit(pr.input.unique_rotations@, grid, gw, gh, x, y, i) is Some,
    ensures
        exists|k: int|
            i <= k < pr.input.unique_rotations@.len() && rs_fits(
                #[trigger] pr.input.unique_rotations@[k],
                grid,
                gw,
                gh,
                x,
                y,
            ) && pr.input.unique_rotations@[k].rotation as int == first_fit(
                pr.input.unique_rotations@,
                grid,
                gw,
                gh,
                x,
                y,
                i,
            )->Some_0,
    decreases pr.input.unique_rotations@.len() - i,
{
    let urs = pr.input.unique_rotations@;
    if rs_fits(urs[i], grid, gw, gh, x, y) {
    } else {
        lemma_first_fit_found(pr, grid, gw, gh, x, y, i + 1);
    }
}

/// Every match in a rule's per-cell match list is valid.
pub proof fn lemma_cell_matches_valid(
    rule: Rule,
    grid: Seq<u8>,
    gw: nat,
    gh: nat,
    ux: usize,
    uy: usize,
    upto: int,
    t: int,
)
    requires
        rule.wf(),
        rule.patterns@.len() <= usize::MAX,
        0 <= upto <= rule.patterns@.len(),
        0 <= t < cell_matches_upto(rule, grid, gw, gh, ux, uy, upto).len(),
    ensures
        match_valid(rule, gw, gh, cell_matches_upto(rule, grid, gw, gh, ux, uy, upto)[t]),
    decreases upto,
{
    if upto > 0 {
        let prev = cell_matches_upto(rule, grid, gw, gh, ux, uy, upto - 1);
        if t < prev.len() {
            lemma_cell_matches_valid(rule, grid, gw, gh, ux, uy, upto - 1, t);
        } else {
            lemma_fit_match_valid(rule, upto - 1, grid, gw, gh, ux, uy);
        }
    }
}

/// Every match in a rule's whole match list is valid.
pub proof fn lemma_all_matches_valid(
    rule: Rule,
    grid: Seq<u8>,
    gw: nat,
    gh: nat,
    cell: int,
    t: int,
)
    requires
        rule.wf(),
        rule.patterns@.len() <= usize::MAX,
        0 <= t < all_matches_upto(rule, grid, gw, gh, cell).len(),
    ensures
        match_valid(rule, gw, gh, all_matches_upto(rule, grid, gw, gh, cell)[t]),
    decreases cell,
{
    if cell > 0 && gw != 0 {
        let prev = all_matches_upto(rule, grid, gw, gh, cell - 1);
        if t < prev.len() {
            lemma_all_matches_valid(rule, grid, gw, gh, cell - 1, t);
        } else {
            lemma_cell_matches_valid(
                rule,
                grid,
                gw,
                gh,
                (((cell - 1) % (gw as int)) as usize),
                (((cell - 1) / (gw as int)) as usize),
                rule.patterns@.len() as int,
                t - prev.len(),
            );
        }
    }
}

/// Writing an image changes nothing outside its footprint rectangle.
pub proof fn lemma_write_agrees(grid: Seq<u8>, gw: nat, x: int, y: int, rs: RotatedSeq)
    ensures
        grids_agree_outside(
            grid,
            spec_write(grid, gw, x, y, rs),
            gw,
            x,
            y,
            rs.width as int,
            rs.height as int,
        ),
{
}

/// One step of a `One` rule: draw once, pick a weighted match, apply it.
/// Where every weight is zero the first match is taken; with no match the
/// step changes nothing and consumes no draw.
pub open spec fn spec_step_one(st: EngineState, rule: Rule) -> (EngineState, bool) {
    let ms = all_matches(rule, st.grid, st.width, st.height);
    if ms.len() == 0 {
        (st, false)
    } else {
        let total = total_weight(ms, ms.len() as int);
        let draw = chacha_stream(st.seed, st.count);
        let choice = if total == 0 {
            0
        } else {
            (draw as int) % total
        };
        let k = if total == 0 {
            0
        } else {
            pick_index(ms, choice, 0)
        };
        let m = ms[k];
        (
            EngineState {
                grid: write_match(st.grid, st.width, rule, m),
                changes: sat_inc(st.changes),
                count: inc64(st.count),
                ..st
            },
            true,
        )
    }
}

/// Which matches a batch step takes, and the counter afterwards: a match
/// with an explicit probability is gated by an independent draw; without
/// one it is always taken under `All` and gated at one half under
/// `Parallel`.
pub open spec fn spec_select(
    ms: Seq<PatternMatch>,
    seed: u64,
    count: u64,
    parallel: bool,
    i: int,
) -> (Seq<PatternMatch>, u64)
    decreases ms.len() - i,
{
    if i < 0 || i >= ms.len() {
        (Seq::empty(), count)
    } else {
        let m = ms[i];
        if m.probability is None && !parallel {
            let rest = spec_select(ms, seed, count, parallel, i + 1);
            (seq![m] + rest.0, rest.1)
        } else {
            let p = if m.probability is Some {
                m.probability->0 as int
            } else {
                crate::PROB_SCALE as int / 2
            };
            let draw = chacha_stream(seed, count);
            let take = (draw as int) % (crate::PROB_SCALE as int) < p;
            let rest = spec_select(ms, seed, inc64(count), parallel, i + 1);
            if take {
                (seq![m] + rest.0, rest.1)
            } else {
                rest
            }
        }
    }
}

/// The grid and change counter after applying a batch of matches in
/// order; every output was resolved against the pre-step grid, so later
/// writes do not feed earlier ones.
pub open spec fn spec_apply_batch(
    grid: Seq<u8>,
    gw: nat,
    rule: Rule,
    sel: Seq<PatternMatch>,
    changes: nat,
    i: int,
) -> (Seq<u8>, nat)
    decreases sel.len() - i,
{
    if i < 0 || i >= sel.len() {
        (grid, changes)
    } else {
        spec_apply_batch(
            write_match(grid, gw, rule, sel[i]),
            gw,
            rule,
            sel,
            sat_inc(changes),
            i + 1,
        )
    }
}

/// One step of an `All` or `Parallel` rule: select a batch from the
/// current matches, then write every selected output.
pub open spec fn spec_step_batch(st: EngineState, rule: Rule, parallel: bool) -> (
    EngineState,
    bool,
) {
    let ms = all_matches(rule, st.grid, st.width, st.height);
    let sel = spec_select(ms, st.seed, st.count, parallel, 0);
    let applied = spec_apply_batch(st.grid, st.width, rule, sel.0, st.changes, 0);
    (
        EngineState { grid: applied.0, changes: applied.1, count: sel.1, ..st },
        sel.0.len() > 0,
    )
}

/// One step of a rule, by its application mode.
pub open spec fn spec_step(st: EngineState, rule: Rule) -> (EngineState, bool) {
    match rule.kind {
        RuleKind::One => spec_step_one(st, rule),
        RuleKind::All => spec_step_batch(st, rule, false),
        RuleKind::Parallel => spec_step_batch(st, rule, true),
    }
}

/// A rule's step loop: up to `steps` steps, stopping at the first step
/// that changes nothing; the flag says whether any step changed anything.
pub open spec fn spec_run_steps(st: EngineState, rule: Rule, steps: int) -> (EngineState, bool)
    decreases steps,
{
    if steps <= 0 {
        (st, false)
    } else {
        let stepped = spec_step(st, rule);
        if !stepped.1 {
            (stepped.0, false)
        } else {
            (spec_run_steps(stepped.0, rule, steps - 1).0, true)
        }
    }
}

/// The default step budget: sixteen steps per grid cell, capped at the
/// machine's limit.
pub open spec fn default_steps(w: nat, h: nat) -> int {
    if w * h < usize::MAX / 16 {
        16 * (w * h) as int
    } else {
        usize::MAX as int
    }
}

/// What applying one rule does to the engine: register the rule's
/// canonical keys, then run its step loop on the grid.
pub open spec fn spec_apply_rule(st: EngineState, rule: Rule) -> (EngineState, bool) {
    let st0 = EngineState { sizes: add_sizes(st.sizes, rule.patterns@), ..st };
    let steps = match rule.steps {
        Some(s) => s as int,
        None => default_steps(st.width, st.height),
    };
    spec_run_steps(st0, rule, steps)
}

/// The step cap of a sequence node: its explicit cap, or the default
/// budget.
pub open spec fn spec_seq_steps(s: Sequence, w: nat, h: nat) -> int {
    match s.steps {
        Some(v) => v as int,
        None => default_steps(w, h),
    }
}

/// What running a whole sequence node does to the engine.
pub open spec fn spec_apply_sequence(st: EngineState, s: Sequence) -> (EngineState, bool)
    decreases crate::rule_sequence::seq_height(s), spec_seq_steps(s, st.width, st.height) + 1, 0int,
{
    spec_run_seq(st, s, spec_seq_steps(s, st.width, st.height))
}

/// A sequence node's iteration loop: up to `steps` passes over the
/// children, stopping at the first pass in which no child changes
/// anything.
pub open spec fn spec_run_seq(st: EngineState, s: Sequence, steps: int) -> (EngineState, bool)
    decreases crate::rule_sequence::seq_height(s), steps, 0int,
{
    if steps <= 0 {
        (st, false)
    } else {
        let pass = spec_seq_pass(st, s.vec@, 0);
        if !pass.1 {
            (pass.0, false)
        } else {
            (spec_run_seq(pass.0, s, steps - 1).0, true)
        }
    }
}

/// One pass over a sequence's children: each child runs in order, and the
/// pass ends at the first child that registers a change.
pub open spec fn spec_seq_pass(st: EngineState, v: Seq<RuleOrSequence>, i: int) -> (
    EngineState,
    bool,
)
    decreases crate::rule_sequence::vec_height(v), 0int, v.len() - i,
    via spec_seq_pass_decreases
{
    if i < 0 || i >= v.len() {
        (st, false)
    } else {
        let stepped = match v[i] {
            RuleOrSequence::Rule(r) => spec_apply_rule(st, r),
            RuleOrSequence::Sequence(child) => spec_apply_sequence(st, child),
        };
        if stepped.1 {
            stepped
        } else {
            spec_seq_pass(stepped.0, v, i + 1)
        }
    }
}

#[via_fn]
proof fn spec_seq_pass_decreases(st: EngineState, v: Seq<RuleOrSequence>, i: int) {
    if 0 <= i < v.len() {
        crate::rule_sequence::lemma_vec_height_bound(v, i);
    }
}

/// Membership of a size in a size list.
pub open spec fn contains_size(sizes: Seq<usize>, s: usize) -> bool {
    exists|i: int| 0 <= i < sizes.len() && sizes[i] == s
}

/// The size list after registering the canonical keys of the first `upto`
/// rewrites of a rule, each size added once, in rewrite order.
pub open spec fn add_sizes_upto(sizes: Seq<usize>, patterns: Seq<PatternRule>, upto: int) -> Seq<
    usize,
>
    decreases upto,
{
    if upto <= 0 {
        sizes
    } else {
        let s1 = add_sizes_upto(sizes, patterns, upto - 1);
        match patterns[upto - 1].canonical_key {
            Some(k) => if contains_size(s1, k.0) {
                s1
            } else {
                s1.push(k.0)
            },
            None => s1,
        }
    }
}

/// The size list after registering a whole rule.
pub open spec fn add_sizes(sizes: Seq<usize>, patterns: Seq<PatternRule>) -> Seq<usize> {
    add_sizes_upto(sizes, patterns, patterns.len() as int)
}

impl MarkovJunior {
    /// The canonical-form index holds an entry for every size that a
    /// rewrite of this rule matches through.
    pub open spec fn has_rule_sizes(self, rule: Rule) -> bool {
        forall|i: int|
            0 <= i < rule.patterns@.len() && (#[trigger] rule.patterns@[i]).input.canonical_form
                is Some ==> self.has_size(rule.patterns@[i].input.width)
    }

    /// Computes the canonical form of the `pattern_width` square
    /// neighborhood anchored at `(x, y)`, reading out-of-bounds cells as
    /// `NOTHING`.
    #[verifier::loop_isolation(false)]
    fn compute_cell_canonical_form(
        grid: &Vec<u8>,
        width: usize,
        height: usize,
        x: usize,
        y: usize,
        pattern_width: usize,
        pattern_height: usize,
    ) -> (out: RotatedSeq)
        requires
            pattern_width == pattern_height,
            pattern_width >= 2,
            pattern_width * pattern_height <= usize::MAX,
            grid@.len() == width * height,
            x < width,
            y < height,
        ensures
            form_ok(out, grid@, width as nat, height as nat, x as int, y as int, pattern_width as nat),
    {
        let s = pattern_width;
        let ghost nb = spec_neighborhood(
            grid@,
            width as nat,
            height as nat,
            x as int,
            y as int,
            s as nat,
        );
        let n = s * s;
        let mut data: Vec<char> = Vec::new();
        for j in 0..n
            invariant
                n == s * s,
                data@.len() == j,
                forall|k: int| 0 <= k < j ==> data@[k] == nb[k],
        {
            let px = j % s;
            let py = j / s;
            proof {
                vstd::arithmetic::div_mod::lemma_fundamental_div_mod(j as int, s as int);
                vstd::arithmetic::div_mod::lemma_mod_division_less_than_divisor(j as int, s as int);
            }
            if px < width - x && py < height - y {
                let gx = x + px;
                let gy = y + py;
                let glen = grid.len();
                proof {
                    assert(gy * (width as int) + gx < glen) by (nonlinear_arith)
                        requires
                            gx < width && gy < height && glen == (width as int) * (height as int),
                    ;
                }
                data.push(grid[gy * width + gx] as char);
            } else {
                data.push(NOTHING);
            }
            proof {
                assert(data@[j as int] == nb[j as int]);
            }
        }
        proof {
            assert(data@ =~= nb);
            assert(rect_wf(data@, s as nat, s as nat));
        }
        let (maybe_canonical, _rotations, _unique) = Pattern::compute_canonical_form_and_rotations(
            data.as_slice(),
            s,
            s,
            false,
        );
        proof {
            assert(has_canonical(s as nat, s as nat, false));
        }
        let out = maybe_canonical.unwrap();
        proof {
            assert(out.is_image_of(nb, s as nat, s as nat, spec_canonical(nb, s as nat, s as nat).1));
        }
        out
    }

    /// Builds the canonical-form index entry for every canonical key the
    /// rule's rewrites carry that the index does not hold yet; existing
    /// entries and everything else about the engine stay as they are.
    #[verifier::loop_isolation(false)]
    pub fn precompute_canonical_forms(&mut self, rule: &Rule)
        requires
            old(self).wf(),
            rule.wf(),
        ensures
            final(self).wf(),
            final(self).grid == old(self).grid,
            final(self).width == old(self).width,
            final(self).height == old(self).height,
            final(self).changes == old(self).changes,
            final(self).seed == old(self).seed,
            final(self).rng_count == old(self).rng_count,
            final(self).sizes() == add_sizes(old(self).sizes(), rule.patterns@),
            final(self).has_rule_sizes(*rule),
            forall|s: usize| old(self).has_size(s) ==> final(self).has_size(s),
    {
        let count = rule.patterns.len();
        for i in 0..count
            invariant
                count == rule.patterns@.len(),
                self.wf(),
                rule.wf(),
                self.grid == old(self).grid,
                self.width == old(self).width,
                self.height == old(self).height,
                self.changes == old(self).changes,
                self.seed == old(self).seed,
                self.rng_count == old(self).rng_count,
                self.sizes() == add_sizes_upto(old(self).sizes(), rule.patterns@, i as int),
                forall|k: int|
                    0 <= k < i && (#[trigger] rule.patterns@[k]).input.canonical_form is Some
                        ==> self.has_size(rule.patterns@[k].input.width),
                forall|s: usize| old(self).has_size(s) ==> self.has_size(s),
        {
            let ghost prev = *self;
            let pr = &rule.patterns[i];
            proof {
                assert(rule.patterns@[i as int].wf());
            }
            match pr.canonical_key {
                None => {
                    proof {
                        assert(add_sizes_upto(old(self).sizes(), rule.patterns@, i + 1)
                            == add_sizes_upto(old(self).sizes(), rule.patterns@, i as int));
                        assert(rule.patterns@[i as int].input.canonical_form is Some
                            ==> has_canonical(
                            pr.input.width as nat,
                            pr.input.height as nat,
                            pr.input.has_wildcards,
                        ));
                    }
                },
                Some(key) => {
                    let size = key.0;
                    proof {
                        assert(spec_canonical_key(pr.input.width as int, pr.input.height as int)
                            is Some);
                        assert(size == pr.input.width && size >= 2);
                    }
                    if self.contains_size_exec(size) {
                        proof {
                            assert(contains_size(self.sizes(), size));
                            assert(add_sizes_upto(old(self).sizes(), rule.patterns@, i + 1)
                                == add_sizes_upto(old(self).sizes(), rule.patterns@, i as int));
                        }
                    } else {
                        proof {
                            assert(!contains_size(self.sizes(), size)) by {
                                if contains_size(self.sizes(), size) {
                                    let t = choose|t: int|
                                        0 <= t < self.sizes().len() && self.sizes()[t] == size;
                                    assert(self.canonical_forms@[t].size == size);
                                }
                            }
                        }
                        let in_len = pr.input.data.len();
                        proof {
                            assert(in_len == (size as nat) * (size as nat));
                        }
                        let gw = self.width;
                        let gh = self.height;
                        let mut forms: Vec<RotatedSeq> = Vec::new();
                        let mut cy: usize = 0;
                        while cy < gh
                            invariant
                                0 <= cy <= gh,
                                forms@.len() == cy * gw,
                                gw == self.width && gh == self.height,
                                size == pr.input.width && size >= 2,
                                (size as int) * (size as int) <= usize::MAX,
                                forall|fx: int, fy: int|
                                    0 <= fx < gw && 0 <= fy < gh && fy * gw + fx < cy * gw
                                        ==> form_ok(
                                        #[trigger] forms@[fy * gw + fx],
                                        self.grid@,
                                        gw as nat,
                                        gh as nat,
                                        fx,
                                        fy,
                                        size as nat,
                                    ),
                            decreases gh - cy,
                        {
                            let mut cx: usize = 0;
                            while cx < gw
                                invariant
                                    0 <= cy < gh,
                                    0 <= cx <= gw,
                                    forms@.len() == cy * gw + cx,
                                    gw == self.width && gh == self.height,
                                    size == pr.input.width && size >= 2,
                                    (size as int) * (size as int) <= usize::MAX,
                                    forall|fx: int, fy: int|
                                        0 <= fx < gw && 0 <= fy < gh && fy * gw + fx < cy * gw + cx
                                            ==> form_ok(
                                            #[trigger] forms@[fy * gw + fx],
                                            self.grid@,
                                            gw as nat,
                                            gh as nat,
                                            fx,
                                            fy,
                                            size as nat,
                                        ),
                                decreases gw - cx,
                            {
                                let f = Self::compute_cell_canonical_form(
                                    &self.grid,
                                    gw,
                                    gh,
                                    cx,
                                    cy,
                                    size,
                                    size,
                                );
                                forms.push(f);
                                proof {
                                    assert forall|fx: int, fy: int|
                                        0 <= fx < gw && 0 <= fy < gh && fy * gw + fx < cy * gw + cx
                                            + 1 implies form_ok(
                                        #[trigger] forms@[fy * gw + fx],
                                        self.grid@,
                                        gw as nat,
                                        gh as nat,
                                        fx,
                                        fy,
                                        size as nat,
                                    ) by {
                                        if fy * gw + fx < cy * gw + cx {
                                            assert(forms@[fy * gw + fx] == forms@.drop_last()[fy
                                                * gw + fx]);
                                        } else {
                                            assert(fy * gw + fx == cy * gw + cx);
                                            assert(fy == cy && fx == cx) by (nonlinear_arith)
                                                requires
                                                    fy * gw + fx == cy * gw + cx && 0 <= fx < gw
                                                        && 0 <= cx < gw && 0 <= fy && 0 <= cy,
                                            ;
                                        }
                                    }
                                }
                                cx += 1;
                            }
                            proof {
                                assert((cy + 1) * gw == cy * gw + gw) by (nonlinear_arith);
                            }
                            cy += 1;
                        }
                        proof {
                            assert(forms@.len() == gh * gw);
                            assert(gh * gw == self.grid@.len()) by (nonlinear_arith)
                                requires
                                    self.grid@.len() == (gw as int) * (gh as int),
                            ;
                        }
                        let entry = CanonicalForms { size, forms };
                        proof {
                            assert forall|fx: int, fy: int| 0 <= fx < gw && 0 <= fy < gh implies
                                form_ok(
                                #[trigger] form_at(entry, gw as nat, fx, fy),
                                self.grid@,
                                gw as nat,
                                gh as nat,
                                fx,
                                fy,
                                size as nat,
                            ) by {
                                assert(fy * gw + fx < gh * gw) by (nonlinear_arith)
                                    requires
                                        0 <= fx < gw && 0 <= fy < gh,
                                ;
                                assert(form_at(entry, gw as nat, fx, fy) == forms@[fy * gw + fx]);
                                assert(fy * gw + fx < cy * gw);
                            }
                            assert(entry_wf(entry, self.grid@, gw as nat, gh as nat));
                        }
                        let ghost before = *self;
                        self.canonical_forms.push(entry);
                        proof {
                            assert forall|t: int|
                                0 <= t < self.canonical_forms@.len() implies entry_wf(
                                #[trigger] self.canonical_forms@[t],
                                self.grid@,
                                self.width as nat,
                                self.height as nat,
                            ) by {
                                if t < self.canonical_forms@.len() - 1 {
                                    assert(self.canonical_forms@[t]
                                        == before.canonical_forms@[t]);
                                }
                            }
                            assert forall|t: int, u: int|
                                0 <= t < u < self.canonical_forms@.len() implies self
                                .canonical_forms@[t].size != self.canonical_forms@[u].size by {
                                if u < self.canonical_forms@.len() - 1 {
                                    assert(self.canonical_forms@[t]
                                        == before.canonical_forms@[t]);
                                    assert(self.canonical_forms@[u]
                                        == before.canonical_forms@[u]);
                                } else {
                                    assert(self.canonical_forms@[t]
                                        == before.canonical_forms@[t]);
                                    if self.canonical_forms@[t].size == size {
                                        assert(before.sizes()[t] == size);
                                        assert(contains_size(before.sizes(), size));
                                    }
                                }
                            }
                            assert(self.sizes() =~= before.sizes().push(size));
                            assert(self.sizes() == add_sizes_upto(
                                old(self).sizes(),
                                rule.patterns@,
                                i + 1,
                            ));
                            assert(self.has_size(size)) by {
                                assert(self.canonical_forms@[self.canonical_forms@.len() - 1].size
                                    == size);
                            }
                            assert forall|sz: usize| before.has_size(sz) implies self.has_size(
                                sz,
                            ) by {
                                let t = choose|t: int|
                                    0 <= t < before.canonical_forms@.len() && (
                                    #[trigger] before.canonical_forms@[t]).size == sz;
                                assert(self.canonical_forms@[t].size == sz);
                            }
                        }
                    }
                    proof {
                        assert(self.has_size(size));
                        assert forall|k: int|
                            0 <= k < i + 1 && (#[trigger] rule.patterns@[k]).input.canonical_form
                                is Some implies self.has_size(rule.patterns@[k].input.width) by {
                            if k < i {
                                let sz = rule.patterns@[k].input.width;
                                assert(prev.has_size(sz));
                                let t = choose|t: int|
                                    0 <= t < prev.canonical_forms@.len() && (
                                    #[trigger] prev.canonical_forms@[t]).size == sz;
                                assert(self.canonical_forms@[t].size == sz);
                            }
                        }
                    }
                },
            }
        }
    }

    /// Writes the image of `pattern` under transform `rotation` onto the
    /// grid at anchor `(x, y)`: non-wildcard cells of the image replace
    /// the grid bytes under them, wildcard cells leave the grid untouched,
    /// and the change counter advances by one.
    #[verifier::loop_isolation(false)]
    pub fn apply_pattern(&mut self, x: usize, y: usize, pattern: &Pattern, rotation: isize)
        requires
            old(self).grid_wf(),
            pattern.wf(),
            has_rotation(pattern.rotations@, rotation),
            x + rot_entry(*pattern, rotation).width <= old(self).width,
            y + rot_entry(*pattern, rotation).height <= old(self).height,
        ensures
            final(self).grid_wf(),
            final(self).grid@ == spec_write(
                old(self).grid@,
                old(self).width as nat,
                x as int,
                y as int,
                rot_entry(*pattern, rotation),
            ),
            final(self).changes as nat == sat_inc(old(self).changes as nat),
            final(self).width == old(self).width,
            final(self).height == old(self).height,
            final(self).seed == old(self).seed,
            final(self).rng_count == old(self).rng_count,
            final(self).canonical_forms == old(self).canonical_forms,
    {
        let ghost old_grid = self.grid@;
        let gw = self.width;
        let gh = self.height;
        if self.changes < usize::MAX {
            self.changes = self.changes + 1;
        }
        let rot_count = pattern.rotations.len();
        let mut k: usize = 0;
        while k < rot_count && pattern.rotations[k].rotation != rotation
            invariant
                0 <= k <= rot_count,
                rot_count == pattern.rotations@.len(),
                find_rot_index(pattern.rotations@, rotation, 0) == find_rot_index(
                    pattern.rotations@,
                    rotation,
                    k as int,
                ),
            decreases rot_count - k,
        {
            k += 1;
        }
        proof {
            if k == rot_count {
                let t = choose|t: int|
                    0 <= t < pattern.rotations@.len() && (#[trigger] pattern.rotations@[t]).rotation
                        == rotation;
                assert(false) by {
                    lemma_find_rot_finds(pattern.rotations@, rotation, 0);
                }
            }
            assert(find_rot_index(pattern.rotations@, rotation, k as int) == k);
        }
        let rs = &pattern.rotations[k];
        proof {
            assert(*rs == rot_entry(*pattern, rotation));
            if pattern.width == 1 && pattern.height == 1 {
                assert(rs.is_image_of(pattern.data@, 1, 1, 1));
            } else {
                assert(rs.is_image_of(
                    pattern.data@,
                    pattern.width as nat,
                    pattern.height as nat,
                    crate::pattern::rot_order(k as int),
                ));
            }
            assert(rs.data@.len() == (pattern.width as nat) * (pattern.height as nat));
            assert(rs.data@.len() == rs.width * rs.height) by (nonlinear_arith)
                requires
                    rs.data@.len() == (pattern.width as nat) * (pattern.height as nat) && ((
                    rs.width == pattern.width && rs.height == pattern.height) || (rs.width
                        == pattern.height && rs.height == pattern.width)),
            ;
        }
        let ghost target = spec_write(old_grid, gw as nat, x as int, y as int, *rs);
        let ghost changes_now = self.changes;
        let w = rs.width;
        let n = rs.data.len();
        let mut j: usize = 0;
        while j < n
            invariant
                0 <= j <= n,
                n == rs.data@.len(),
                n == rs.width * rs.height,
                w == rs.width,
                w >= 1,
                x + rs.width <= gw,
                y + rs.height <= gh,
                gw == self.width,
                gh == self.height,
                self.changes == changes_now,
                self.seed == old(self).seed,
                self.rng_count == old(self).rng_count,
                self.canonical_forms == old(self).canonical_forms,
                self.grid@.len() == old_grid.len(),
                self.grid@.len() == gw * gh,
                target == spec_write(old_grid, gw as nat, x as int, y as int, *rs),
                forall|i: int|
                    0 <= i < self.grid@.len() ==> #[trigger] self.grid@[i] == (if in_footprint(
                        i,
                        gw as nat,
                        x as int,
                        y as int,
                        *rs,
                    ) && foot_index(i, gw as nat, x as int, y as int, *rs) < j && rs.data@[
                    foot_index(i, gw as nat, x as int, y as int, *rs)] != ANYTHING {
                        rs.data@[foot_index(i, gw as nat, x as int, y as int, *rs)] as u8
                    } else {
                        old_grid[i]
                    }),
            decreases n - j,
        {
            let ghost prev_grid = self.grid@;
            let px = j % w;
            let py = j / w;
            proof {
                vstd::arithmetic::div_mod::lemma_fundamental_div_mod(j as int, w as int);
                vstd::arithmetic::div_mod::lemma_mod_division_less_than_divisor(j as int, w as int);
                assert(py < rs.height) by (nonlinear_arith)
                    requires
                        j == w * py + px && 0 <= px < w && j < w * rs.height && w >= 1,
                ;
            }
            let c = rs.data[j];
            if c != ANYTHING {
                let glen = self.grid.len();
                proof {
                    assert((y + py) * (gw as int) + (x + px) < glen) by (nonlinear_arith)
                        requires
                            x + px < gw && y + py < gh && glen == (gw as int) * (gh as int) && gw
                                >= 1,
                    ;
                }
                let gi = (y + py) * gw + (x + px);
                self.grid[gi] = c as u8;
                proof {
                    vstd::arithmetic::div_mod::lemma_fundamental_div_mod_converse(
                        gi as int,
                        gw as int,
                        (y + py) as int,
                        (x + px) as int,
                    );
                    assert(in_footprint(gi as int, gw as nat, x as int, y as int, *rs));
                    assert(foot_index(gi as int, gw as nat, x as int, y as int, *rs) == j) by (
                    nonlinear_arith)
                        requires
                            foot_index(gi as int, gw as nat, x as int, y as int, *rs) == (((
                            y + py) as int) - y) * (rs.width as int) + (((x + px) as int) - x) && j
                                == w * py + px && w == rs.width,
                    ;
                }
            }
            proof {
                assert forall|i: int| 0 <= i < self.grid@.len() implies #[trigger] self.grid@[i]
                    == (if in_footprint(i, gw as nat, x as int, y as int, *rs) && foot_index(
                    i,
                    gw as nat,
                    x as int,
                    y as int,
                    *rs,
                ) < j + 1 && rs.data@[foot_index(i, gw as nat, x as int, y as int, *rs)]
                    != ANYTHING {
                    rs.data@[foot_index(i, gw as nat, x as int, y as int, *rs)] as u8
                } else {
                    old_grid[i]
                }) by {
                    let ix = i % (gw as int);
                    let iy = i / (gw as int);
                    vstd::arithmetic::div_mod::lemma_fundamental_div_mod(i, gw as int);
                    vstd::arithmetic::div_mod::lemma_mod_division_less_than_divisor(i, gw as int);
                    if in_footprint(i, gw as nat, x as int, y as int, *rs) {
                        let fj = foot_index(i, gw as nat, x as int, y as int, *rs);
                        let dx = ix - x;
                        let dy = iy - y;
                        assert(0 <= fj < n) by (nonlinear_arith)
                            requires
                                fj == dy * (rs.width as int) + dx && 0 <= dx < rs.width && 0 <= dy
                                    < rs.height && n == rs.width * rs.height,
                        ;
                        if fj == j {
                            vstd::arithmetic::div_mod::lemma_fundamental_div_mod_converse(
                                j as int,
                                w as int,
                                dy,
                                dx,
                            );
                            assert(dx == px && dy == py);
                            assert(ix == x + px && iy == y + py);
                            assert(i == (gw as int) * iy + ix);
                            assert(i == ((y + py) as int) * (gw as int) + ((x + px) as int)) by (
                            nonlinear_arith)
                                requires
                                    i == (gw as int) * iy + ix && ix == x + px && iy == y + py,
                            ;
                        }
                    }
                }
            }
            j += 1;
        }
        proof {
            assert forall|i: int| 0 <= i < self.grid@.len() implies self.grid@[i] == target[i] by {
                let ix = i % (gw as int);
                let iy = i / (gw as int);
                vstd::arithmetic::div_mod::lemma_fundamental_div_mod(i, gw as int);
                vstd::arithmetic::div_mod::lemma_mod_division_less_than_divisor(i, gw as int);
                if in_footprint(i, gw as nat, x as int, y as int, *rs) {
                    let fj = foot_index(i, gw as nat, x as int, y as int, *rs);
                    assert(0 <= fj < n) by (nonlinear_arith)
                        requires
                            fj == (iy - y) * (rs.width as int) + (ix - x) && x <= ix < x + rs.width
                                && y <= iy < y + rs.height && n == rs.width * rs.height,
                    ;
                }
            }
            assert(self.grid@ =~= target);
        }
    }

    /// Computes the rule's match list at one cell, in rewrite order.
    #[verifier::loop_isolation(false)]
    fn matches_for_cell(&self, rule: &Rule, x: usize, y: usize) -> (out: Vec<PatternMatch>)
        requires
            self.wf(),
            rule.wf(),
            self.has_rule_sizes(*rule),
        ensures
            out@ == cell_matches(*rule, self.grid@, self.width as nat, self.height as nat, x, y),
    {
        let ghost grid = self.grid@;
        let ghost gw = self.width as nat;
        let ghost gh = self.height as nat;
        let mut out: Vec<PatternMatch> = Vec::new();
        let count = rule.patterns.len();
        for i in 0..count
            invariant
                count == rule.patterns@.len(),
                out@ == cell_matches_upto(*rule, grid, gw, gh, x, y, i as int),
        {
            let pr = &rule.patterns[i];
            proof {
                assert(rule.patterns@[i as int].wf());
            }
            let fit: Option<isize> = if pr.input.canonical_form.is_some() {
                proof {
                    assert(self.has_size(pr.input.width));
                }
                self.pattern_fits_canonical(x, y, &pr.input)
            } else {
                self.pattern_fits(x, y, &pr.input)
            };
            match fit {
                Some(r) => {
                    proof {
                        assert(spec_fit(rule.patterns@[i as int], grid, gw, gh, x as int, y as int)
                            == Some(r as int));
                    }
                    out.push(
                        PatternMatch {
                            x,
                            y,
                            probability: pr.probability,
                            pattern_index: i,
                            rotation: r,
                        },
                    );
                    proof {
                        assert(out@ =~= cell_matches_upto(*rule, grid, gw, gh, x, y, i + 1));
                    }
                },
                None => {
                    proof {
                        assert(spec_fit(rule.patterns@[i as int], grid, gw, gh, x as int, y as int)
                            is None);
                        assert(out@ =~= cell_matches_upto(*rule, grid, gw, gh, x, y, i + 1));
                    }
                },
            }
        }
        out
    }

    /// Recomputes the match cache for every cell of the window
    /// `[x0, x1) x [y0, y1)` from the current grid; every other slot keeps
    /// its list.
    #[verifier::loop_isolation(false)]
    pub fn compute_cache(
        &self,
        rule: &Rule,
        cache: &mut Vec<Vec<PatternMatch>>,
        x0: usize,
        x1: usize,
        y0: usize,
        y1: usize,
    )
        requires
            self.wf(),
            rule.wf(),
            self.has_rule_sizes(*rule),
            old(cache)@.len() == self.width * self.height,
            x1 <= self.width,
            y1 <= self.height,
        ensures
            final(cache)@.len() == old(cache)@.len(),
            forall|cx: int, cy: int|
                0 <= cx < self.width && 0 <= cy < self.height && !(x0 <= cx < x1 && y0 <= cy < y1)
                    ==> #[trigger] cache_at(final(cache)@, self.width as nat, cx, cy) == cache_at(
                    old(cache)@,
                    self.width as nat,
                    cx,
                    cy,
                ),
            forall|cx: int, cy: int|
                x0 <= cx < x1 && y0 <= cy < y1 ==> #[trigger] cache_at(
                    final(cache)@,
                    self.width as nat,
                    cx,
                    cy,
                ) == cell_matches(
                    *rule,
                    self.grid@,
                    self.width as nat,
                    self.height as nat,
                    cx as usize,
                    cy as usize,
                ),
    {
        let gw = self.width;
        let mut cy = y0;
        while cy < y1
            invariant
                y0 <= cy <= y1 || cy == y0,
                cache@.len() == old(cache)@.len(),
                forall|ax: int, ay: int|
                    0 <= ax < self.width && 0 <= ay < self.height && !(x0 <= ax < x1 && y0 <= ay
                        < cy) ==> #[trigger] cache_at(cache@, self.width as nat, ax, ay)
                        == cache_at(old(cache)@, self.width as nat, ax, ay),
                forall|ax: int, ay: int|
                    x0 <= ax < x1 && y0 <= ay < cy ==> #[trigger] cache_at(
                        cache@,
                        self.width as nat,
                        ax,
                        ay,
                    ) == cell_matches(
                        *rule,
                        self.grid@,
                        self.width as nat,
                        self.height as nat,
                        ax as usize,
                        ay as usize,
                    ),
            decreases y1 - cy,
        {
            let mut cx = x0;
            while cx < x1
                invariant
                    x0 <= cx <= x1 || cx == x0,
                    y0 <= cy < y1,
                    cache@.len() == old(cache)@.len(),
                    forall|ax: int, ay: int|
                        0 <= ax < self.width && 0 <= ay < self.height && !(x0 <= ax < x1 && y0 <= ay
                            <= cy && (ay < cy || ax < cx)) ==> #[trigger] cache_at(
                            cache@,
                            self.width as nat,
                            ax,
                            ay,
                        ) == cache_at(old(cache)@, self.width as nat, ax, ay),
                    forall|ax: int, ay: int|
                        x0 <= ax < x1 && y0 <= ay <= cy && (ay < cy || ax < cx)
                            ==> #[trigger] cache_at(cache@, self.width as nat, ax, ay)
                            == cell_matches(
                            *rule,
                            self.grid@,
                            self.width as nat,
                            self.height as nat,
                            ax as usize,
                            ay as usize,
                        ),
                decreases x1 - cx,
            {
                let ghost before = cache@;
                let clen = cache.len();
                proof {
                    assert((cy as int) * (gw as int) + cx < clen) by (nonlinear_arith)
                        requires
                            cx < gw && cy < self.height as int && clen == (gw as int) * (
                            self.height as int) && gw == self.width,
                    ;
                }
                let fresh = self.matches_for_cell(rule, cx, cy);
                let idx = cy * gw + cx;
                cache[idx] = fresh;
                proof {
                    let wi = self.width as int;
                    assert forall|ax: int, ay: int|
                        x0 <= ax < x1 && y0 <= ay <= cy && (ay < cy || ax < cx + 1) implies
                        #[trigger] cache_at(cache@, self.width as nat, ax, ay) == cell_matches(
                        *rule,
                        self.grid@,
                        self.width as nat,
                        self.height as nat,
                        ax as usize,
                        ay as usize,
                    ) by {
                        assert(0 <= ay * wi + ax < cache@.len()) by (nonlinear_arith)
                            requires
                                0 <= ax < wi && 0 <= ay < self.height as int && cache@.len() == wi
                                    * (self.height as int),
                        ;
                        if ay == cy && ax == cx {
                            assert(cache_at(cache@, self.width as nat, ax, ay) == fresh@);
                        } else {
                            assert(ay * wi + ax != idx) by (nonlinear_arith)
                                requires
                                    0 <= ax < wi && 0 <= ay && 0 <= cx < wi && 0 <= cy && idx == (
                                    cy as int) * wi + cx && !(ax == cx && ay == cy) && gw as int
                                        == wi,
                            ;
                            assert(cache@[ay * wi + ax] == before[ay * wi + ax]);
                            assert(cache_at(before, self.width as nat, ax, ay) == cell_matches(
                                *rule,
                                self.grid@,
                                self.width as nat,
                                self.height as nat,
                                ax as usize,
                                ay as usize,
                            ));
                        }
                    }
                    assert forall|ax: int, ay: int|
                        0 <= ax < self.width && 0 <= ay < self.height && !(x0 <= ax < x1 && y0 <= ay
                            <= cy && (ay < cy || ax < cx + 1)) implies #[trigger] cache_at(
                        cache@,
                        self.width as nat,
                        ax,
                        ay,
                    ) == cache_at(old(cache)@, self.width as nat, ax, ay) by {
                        assert(0 <= ay * wi + ax < cache@.len()) by (nonlinear_arith)
                            requires
                                0 <= ax < wi && 0 <= ay < self.height as int && cache@.len() == wi
                                    * (self.height as int),
                        ;
                        assert(ay * wi + ax != idx) by (nonlinear_arith)
                            requires
                                0 <= ax < wi && 0 <= ay && 0 <= cx < wi && 0 <= cy && idx == (
                                cy as int) * wi + cx && !(ax == cx && ay == cy) && gw as int == wi,
                        ;
                        assert(cache@[ay * wi + ax] == before[ay * wi + ax]);
                        assert(cache_at(before, self.width as nat, ax, ay) == cache_at(
                            old(cache)@,
                            self.width as nat,
                            ax,
                            ay,
                        ));
                    }
                }
                cx += 1;
            }
            cy += 1;
        }
    }

    /// Recomputes, for every canonical-form index entry, the forms of all
    /// cells whose neighborhoods could overlap the rectangle of width `ww`
    /// and height `wh` just written at `(wx, wy)`, restoring the whole
    /// index's consistency with the grid.
    #[verifier::loop_isolation(false)]
    pub fn update_canonical_forms(&mut self, wx: usize, wy: usize, ww: usize, wh: usize)
        requires
            old(self).grid_wf(),
            wx + ww <= old(self).width,
            wy + wh <= old(self).height,
            forall|i: int|
                0 <= i < old(self).canonical_forms@.len() ==> entry_ok_outside(
                    #[trigger] old(self).canonical_forms@[i],
                    old(self).grid@,
                    old(self).width as nat,
                    old(self).height as nat,
                    wx as int,
                    wy as int,
                    ww as int,
                    wh as int,
                ),
            forall|i: int, j: int|
                0 <= i < j < old(self).canonical_forms@.len() ==> old(self).canonical_forms@[i].size
                    != old(self).canonical_forms@[j].size,
        ensures
            final(self).wf(),
            final(self).grid == old(self).grid,
            final(self).width == old(self).width,
            final(self).height == old(self).height,
            final(self).changes == old(self).changes,
            final(self).seed == old(self).seed,
            final(self).rng_count == old(self).rng_count,
            final(self).sizes() == old(self).sizes(),
            final(self).canonical_forms@.len() == old(self).canonical_forms@.len(),
    {
        let gw = self.width;
        let gh = self.height;
        let entry_count = self.canonical_forms.len();
        let mut ei: usize = 0;
        while ei < entry_count
            invariant
                0 <= ei <= entry_count,
                entry_count == self.canonical_forms@.len(),
                entry_count == old(self).canonical_forms@.len(),
                gw == self.width,
                gh == self.height,
                self.grid == old(self).grid,
                self.width == old(self).width,
                self.height == old(self).height,
                self.changes == old(self).changes,
                self.seed == old(self).seed,
                self.rng_count == old(self).rng_count,
                forall|t: int|
                    0 <= t < ei ==> entry_wf(
                        #[trigger] self.canonical_forms@[t],
                        self.grid@,
                        self.width as nat,
                        self.height as nat,
                    ),
                forall|t: int|
                    ei <= t < entry_count ==> self.canonical_forms@[t] == old(
                        self,
                    ).canonical_forms@[t],
                forall|t: int|
                    0 <= t < ei ==> (#[trigger] self.canonical_forms@[t]).size == old(
                        self,
                    ).canonical_forms@[t].size,
            decreases entry_count - ei,
        {
            let ghost entry_start = *self;
            let s = self.canonical_forms[ei].size;
            proof {
                assert(old(self).canonical_forms@[ei as int] == self.canonical_forms@[ei as int]);
                assert(entry_ok_outside(
                    self.canonical_forms@[ei as int],
                    self.grid@,
                    gw as nat,
                    gh as nat,
                    wx as int,
                    wy as int,
                    ww as int,
                    wh as int,
                ));
            }
            let x_lo = if wx >= s - 1 {
                wx - (s - 1)
            } else {
                0
            };
            let y_lo = if wy >= s - 1 {
                wy - (s - 1)
            } else {
                0
            };
            let x_hi = wx + ww;
            let y_hi = wy + wh;
            let mut cy = y_lo;
            while cy < y_hi
                invariant
                    y_lo <= cy <= y_hi || cy == y_lo,
                    0 <= ei < entry_count,
                    entry_count == self.canonical_forms@.len(),
                    gw == self.width,
                    gh == self.height,
                    x_lo <= wx,
                    y_lo <= wy,
                    (wx as int) - (x_lo as int) <= s - 1,
                    (wy as int) - (y_lo as int) <= s - 1,
                    x_hi == wx + ww && x_hi <= gw,
                    y_hi == wy + wh && y_hi <= gh,
                    s == self.canonical_forms@[ei as int].size,
                    s >= 2,
                    (s as int) * (s as int) <= usize::MAX,
                    self.grid == entry_start.grid,
                    self.width == entry_start.width,
                    self.height == entry_start.height,
                    self.changes == entry_start.changes,
                    self.seed == entry_start.seed,
                    self.rng_count == entry_start.rng_count,
                    forall|t: int|
                        0 <= t < entry_count && t != ei ==> self.canonical_forms@[t]
                            == entry_start.canonical_forms@[t],
                    self.canonical_forms@[ei as int].size
                        == entry_start.canonical_forms@[ei as int].size,
                    self.canonical_forms@[ei as int].forms@.len()
                        == entry_start.canonical_forms@[ei as int].forms@.len(),
                    forall|ax: int, ay: int|
                        0 <= ax < gw && 0 <= ay < gh && (x_lo <= ax < x_hi && y_lo <= ay < cy)
                            ==> form_ok(
                            #[trigger] form_at(self.canonical_forms@[ei as int], gw as nat, ax, ay),
                            self.grid@,
                            gw as nat,
                            gh as nat,
                            ax,
                            ay,
                            s as nat,
                        ),
                    forall|ax: int, ay: int|
                        0 <= ax < gw && 0 <= ay < gh && !(x_lo <= ax < x_hi && y_lo <= ay < cy)
                            ==> #[trigger] form_at(self.canonical_forms@[ei as int], gw as nat, ax, ay)
                            == form_at(entry_start.canonical_forms@[ei as int], gw as nat, ax, ay),
                decreases y_hi - cy,
            {
                let mut cx = x_lo;
                while cx < x_hi
                    invariant
                        x_lo <= cx <= x_hi || cx == x_lo,
                        y_lo <= cy < y_hi,
                        0 <= ei < entry_count,
                        entry_count == self.canonical_forms@.len(),
                        gw == self.width,
                        gh == self.height,
                        x_hi == wx + ww && x_hi <= gw,
                        y_hi == wy + wh && y_hi <= gh,
                        s == self.canonical_forms@[ei as int].size,
                        s >= 2,
                        (s as int) * (s as int) <= usize::MAX,
                        self.grid == entry_start.grid,
                        self.width == entry_start.width,
                        self.height == entry_start.height,
                        self.changes == entry_start.changes,
                        self.seed == entry_start.seed,
                        self.rng_count == entry_start.rng_count,
                        forall|t: int|
                            0 <= t < entry_count && t != ei ==> self.canonical_forms@[t]
                                == entry_start.canonical_forms@[t],
                        self.canonical_forms@[ei as int].size
                            == entry_start.canonical_forms@[ei as int].size,
                        self.canonical_forms@[ei as int].forms@.len()
                            == entry_start.canonical_forms@[ei as int].forms@.len(),
                        forall|ax: int, ay: int|
                            0 <= ax < gw && 0 <= ay < gh && ((x_lo <= ax < x_hi && y_lo <= ay < cy)
                                || (x_lo <= ax < cx && ay == cy)) ==> form_ok(
                                #[trigger] form_at(
                                    self.canonical_forms@[ei as int],
                                    gw as nat,
                                    ax,
                                    ay,
                                ),
                                self.grid@,
                                gw as nat,
                                gh as nat,
                                ax,
                                ay,
                                s as nat,
                            ),
                        forall|ax: int, ay: int|
                            0 <= ax < gw && 0 <= ay < gh && !((x_lo <= ax < x_hi && y_lo <= ay < cy)
                                || (x_lo <= ax < cx && ay == cy)) ==> #[trigger] form_at(
                                self.canonical_forms@[ei as int],
                                gw as nat,
                                ax,
                                ay,
                            ) == form_at(
                                entry_start.canonical_forms@[ei as int],
                                gw as nat,
                                ax,
                                ay,
                            ),
                    decreases x_hi - cx,
                {
                    let ghost before = *self;
                    let f = Self::compute_cell_canonical_form(&self.grid, gw, gh, cx, cy, s, s);
                    let flen = self.canonical_forms[ei].forms.len();
                    proof {
                        assert(flen == self.grid@.len());
                        assert((cy as int) * (gw as int) + cx < flen) by (nonlinear_arith)
                            requires
                                cx < gw && cy < gh && flen == (gw as int) * (gh as int),
                        ;
                    }
                    let idx = cy * gw + cx;
                    self.canonical_forms[ei].forms[idx] = f;
                    proof {
                        let wi = gw as int;
                        assert forall|ax: int, ay: int|
                            0 <= ax < gw && 0 <= ay < gh implies (#[trigger] form_at(
                            self.canonical_forms@[ei as int],
                            gw as nat,
                            ax,
                            ay,
                        ) == if ax == cx && ay == cy {
                            f
                        } else {
                            form_at(before.canonical_forms@[ei as int], gw as nat, ax, ay)
                        }) by {
                            assert(0 <= ay * wi + ax < flen) by (nonlinear_arith)
                                requires
                                    0 <= ax < wi && 0 <= ay < gh as int && flen == wi * (gh as int),
                            ;
                            if ax == cx && ay == cy {
                            } else {
                                assert(ay * wi + ax != idx) by (nonlinear_arith)
                                    requires
                                        0 <= ax < wi && 0 <= ay && 0 <= cx < wi && 0 <= cy && idx
                                            == (cy as int) * wi + cx && !(ax == cx && ay == cy),
                                ;
                            }
                        }
                    }
                    cx += 1;
                }
                cy += 1;
            }
            proof {
                // Every cell of this entry is now consistent: rebuilt cells by
                // the loop, and the rest because their neighborhoods lie clear
                // of the write rectangle.
                assert forall|ax: int, ay: int| 0 <= ax < gw && 0 <= ay < gh implies form_ok(
                    #[trigger] form_at(self.canonical_forms@[ei as int], gw as nat, ax, ay),
                    self.grid@,
                    gw as nat,
                    gh as nat,
                    ax,
                    ay,
                    s as nat,
                ) by {
                    if !(x_lo <= ax < x_hi && y_lo <= ay < y_hi) {
                        assert(form_at(self.canonical_forms@[ei as int], gw as nat, ax, ay)
                            == form_at(entry_start.canonical_forms@[ei as int], gw as nat, ax, ay));
                        assert(reads_clear(
                            ax,
                            ay,
                            s as int,
                            s as int,
                            wx as int,
                            wy as int,
                            ww as int,
                            wh as int,
                        ));
                        assert(form_ok(
                            form_at(entry_start.canonical_forms@[ei as int], gw as nat, ax, ay),
                            self.grid@,
                            gw as nat,
                            gh as nat,
                            ax,
                            ay,
                            s as nat,
                        ));
                    }
                }
                assert(entry_wf(
                    self.canonical_forms@[ei as int],
                    self.grid@,
                    gw as nat,
                    gh as nat,
                ));
                assert forall|t: int| 0 <= t < ei + 1 implies entry_wf(
                    #[trigger] self.canonical_forms@[t],
                    self.grid@,
                    self.width as nat,
                    self.height as nat,
                ) by {
                    if t < ei {
                        assert(self.canonical_forms@[t] == entry_start.canonical_forms@[t]);
                        assert(entry_wf(
                            entry_start.canonical_forms@[t],
                            entry_start.grid@,
                            entry_start.width as nat,
                            entry_start.height as nat,
                        ));
                    }
                }
                assert forall|t: int| 0 <= t < ei + 1 implies (#[trigger] self.canonical_forms@[
                t]).size == old(self).canonical_forms@[t].size by {
                    if t < ei {
                        assert(self.canonical_forms@[t] == entry_start.canonical_forms@[t]);
                        assert(entry_start.canonical_forms@[t].size == old(
                            self,
                        ).canonical_forms@[t].size);
                    } else {
                        assert(entry_start.canonical_forms@[t] == old(self).canonical_forms@[t]);
                    }
                }
                assert forall|t: int| ei + 1 <= t < entry_count implies self.canonical_forms@[t]
                    == old(self).canonical_forms@[t] by {
                    assert(self.canonical_forms@[t] == entry_start.canonical_forms@[t]);
                }
            }
            ei += 1;
        }
        proof {
            assert(self.sizes() =~= old(self).sizes());
        }
    }

    /// The largest template extent among a rule's inputs.
    fn rule_radius_exec(rule: &Rule) -> (out: usize)
        ensures
            out as int == rule_radius(*rule),
            out >= 1,
    {
        let mut r: usize = 1;
        let count = rule.patterns.len();
        for i in 0..count
            invariant
                count == rule.patterns@.len(),
                r as int == rule_radius_upto(rule.patterns@, i as int),
                r >= 1,
        {
            let pr = &rule.patterns[i];
            let m = if pr.input.width >= pr.input.height {
                pr.input.width
            } else {
                pr.input.height
            };
            if m > r {
                r = m;
            }
        }
        r
    }

    /// The dimensions of the image a pattern writes for a transform index.
    fn output_extent(p: &Pattern, rotation: isize) -> (out: (usize, usize))
        requires
            has_rotation(p.rotations@, rotation),
        ensures
            out.0 == rot_entry(*p, rotation).width,
            out.1 == rot_entry(*p, rotation).height,
    {
        let rot_count = p.rotations.len();
        let mut k: usize = 0;
        while k < rot_count && p.rotations[k].rotation != rotation
            invariant
                0 <= k <= rot_count,
                rot_count == p.rotations@.len(),
                find_rot_index(p.rotations@, rotation, 0) == find_rot_index(
                    p.rotations@,
                    rotation,
                    k as int,
                ),
            decreases rot_count - k,
        {
            k += 1;
        }
        proof {
            if k == rot_count {
                lemma_find_rot_finds(p.rotations@, rotation, 0);
                assert(false);
            }
            assert(find_rot_index(p.rotations@, rotation, k as int) == k);
        }
        (p.rotations[k].width, p.rotations[k].height)
    }

    /// Applies one match and restores the canonical-form index and the
    /// match cache in the window its write could have affected.
    fn apply_match_refresh(
        &mut self,
        rule: &Rule,
        cache: &mut Vec<Vec<PatternMatch>>,
        m: PatternMatch,
    )
        requires
            old(self).wf(),
            rule.wf(),
            old(self).has_rule_sizes(*rule),
            cache_ok(
                old(cache)@,
                *rule,
                old(self).grid@,
                old(self).width as nat,
                old(self).height as nat,
            ),
            match_valid(*rule, old(self).width as nat, old(self).height as nat, m),
        ensures
            final(self).wf(),
            final(self).has_rule_sizes(*rule),
            cache_ok(
                final(cache)@,
                *rule,
                final(self).grid@,
                final(self).width as nat,
                final(self).height as nat,
            ),
            final(self).grid@ == write_match(
                old(self).grid@,
                old(self).width as nat,
                *rule,
                m,
            ),
            final(self).changes as nat == sat_inc(old(self).changes as nat),
            final(self).width == old(self).width,
            final(self).height == old(self).height,
            final(self).seed == old(self).seed,
            final(self).rng_count == old(self).rng_count,
            final(self).sizes() == old(self).sizes(),
    {
        let ghost grid0 = self.grid@;
        let gw = self.width;
        let gh = self.height;
        let output = &rule.patterns[m.pattern_index].output;
        let extent = Self::output_extent(output, m.rotation);
        let ew = extent.0;
        let eh = extent.1;
        let ghost we = rot_entry(rule.patterns@[m.pattern_index as int].output, m.rotation);
        self.apply_pattern(m.x, m.y, output, m.rotation);
        let ghost grid1 = self.grid@;
        proof {
            lemma_write_agrees(grid0, gw as nat, m.x as int, m.y as int, we);
            assert(grids_agree_outside(
                grid0,
                grid1,
                gw as nat,
                m.x as int,
                m.y as int,
                ew as int,
                eh as int,
            ));
            assert forall|i: int| 0 <= i < self.canonical_forms@.len() implies entry_ok_outside(
                #[trigger] self.canonical_forms@[i],
                grid1,
                gw as nat,
                gh as nat,
                m.x as int,
                m.y as int,
                ew as int,
                eh as int,
            ) by {
                let e = self.canonical_forms@[i];
                assert(entry_wf(e, grid0, gw as nat, gh as nat));
                assert forall|cx: int, cy: int|
                    0 <= cx < gw && 0 <= cy < gh && reads_clear(
                        cx,
                        cy,
                        e.size as int,
                        e.size as int,
                        m.x as int,
                        m.y as int,
                        ew as int,
                        eh as int,
                    ) implies form_ok(
                    #[trigger] form_at(e, gw as nat, cx, cy),
                    grid1,
                    gw as nat,
                    gh as nat,
                    cx,
                    cy,
                    e.size as nat,
                ) by {
                    lemma_neighborhood_stable(
                        grid0,
                        grid1,
                        gw as nat,
                        gh as nat,
                        m.x as int,
                        m.y as int,
                        ew as int,
                        eh as int,
                        cx,
                        cy,
                        e.size as nat,
                    );
                    assert(form_ok(form_at(e, gw as nat, cx, cy), grid0, gw as nat, gh as nat, cx, cy, e.size as nat));
                }
            }
        }
        self.update_canonical_forms(m.x, m.y, ew, eh);
        proof {
            assert forall|t: int|
                0 <= t < rule.patterns@.len() && (#[trigger] rule.patterns@[t]).input.canonical_form
                    is Some implies self.has_size(rule.patterns@[t].input.width) by {
                let sz = rule.patterns@[t].input.width;
                let k = choose|k: int|
                    0 <= k < old(self).canonical_forms@.len() && (#[trigger] old(
                        self,
                    ).canonical_forms@[k]).size == sz;
                assert(self.sizes()[k] == old(self).sizes()[k]);
                assert(self.canonical_forms@[k].size == sz);
            }
        }
        let radius = Self::rule_radius_exec(rule);
        let x_lo = if m.x >= radius - 1 {
            m.x - (radius - 1)
        } else {
            0
        };
        let y_lo = if m.y >= radius - 1 {
            m.y - (radius - 1)
        } else {
            0
        };
        let x_hi = m.x + ew;
        let y_hi = m.y + eh;
        self.compute_cache(rule, cache, x_lo, x_hi, y_lo, y_hi);
        proof {
            assert forall|cx: int, cy: int| 0 <= cx < gw && 0 <= cy < gh implies #[trigger] cache_at(
                cache@,
                gw as nat,
                cx,
                cy,
            ) == cell_matches(*rule, grid1, gw as nat, gh as nat, cx as usize, cy as usize) by {
                if x_lo <= cx < x_hi && y_lo <= cy < y_hi {
                } else {
                    assert(cache_at(cache@, gw as nat, cx, cy) == cache_at(
                        old(cache)@,
                        gw as nat,
                        cx,
                        cy,
                    ));
                    assert(cache_at(old(cache)@, gw as nat, cx, cy) == cell_matches(
                        *rule,
                        grid0,
                        gw as nat,
                        gh as nat,
                        cx as usize,
                        cy as usize,
                    ));
                    assert(reads_clear(
                        cx,
                        cy,
                        rule_radius(*rule),
                        rule_radius(*rule),
                        m.x as int,
                        m.y as int,
                        ew as int,
                        eh as int,
                    ));
                    lemma_cell_matches_stable(
                        *rule,
                        grid0,
                        grid1,
                        gw as nat,
                        gh as nat,
                        m.x as int,
                        m.y as int,
                        ew as int,
                        eh as int,
                        cx as usize,
                        cy as usize,
                        rule.patterns@.len() as int,
                    );
                }
            }
        }
    }

    /// Flattens the match cache into one list: every match the rule has,
    /// cell by cell in row-major order.
    #[verifier::loop_isolation(false)]
    fn cached_patterns(&self, rule: &Rule, cache: &Vec<Vec<PatternMatch>>) -> (out: Vec<
        PatternMatch,
    >)
        requires
            self.grid_wf(),
            cache_ok(cache@, *rule, self.grid@, self.width as nat, self.height as nat),
        ensures
            out@ == all_matches(*rule, self.grid@, self.width as nat, self.height as nat),
    {
        let ghost grid = self.grid@;
        let ghost gw = self.width as nat;
        let ghost gh = self.height as nat;
        let mut out: Vec<PatternMatch> = Vec::new();
        let n = self.grid.len();
        proof {
            assert(n == gw * gh);
        }
        for ci in 0..n
            invariant
                out@ == all_matches_upto(*rule, grid, gw, gh, ci as int),
        {
            proof {
                assert(gw >= 1) by (nonlinear_arith)
                    requires
                        (ci as int) < (gw as int) * (gh as int) && 0 <= ci,
                ;
            }
            let x = ci % self.width;
            let y = ci / self.width;
            proof {
                vstd::arithmetic::div_mod::lemma_fundamental_div_mod(ci as int, gw as int);
                vstd::arithmetic::div_mod::lemma_mod_division_less_than_divisor(ci as int, gw as int);
                assert((y as int) < gh) by (nonlinear_arith)
                    requires
                        ci == (gw as int) * (y as int) + (x as int) && 0 <= (x as int) < gw && (
                        ci as int) < gw * gh && gw >= 1,
                ;
                assert(cache_at(cache@, gw, x as int, y as int) == cell_matches(
                    *rule,
                    grid,
                    gw,
                    gh,
                    x,
                    y,
                ));
                assert((y as int) * (gw as int) + (x as int) == ci);
            }
            let cell = &cache[ci];
            let cell_len = cell.len();
            let ghost base = out@;
            for k in 0..cell_len
                invariant
                    cell_len == cell@.len(),
                    cell == cache@[ci as int],
                    out@ == base + cell@.subrange(0, k as int),
            {
                out.push(cell[k]);
                proof {
                    assert(out@ =~= base + cell@.subrange(0, k + 1));
                }
            }
            proof {
                assert(cell@.subrange(0, cell_len as int) =~= cell@);
                assert(out@ == all_matches_upto(*rule, grid, gw, gh, ci + 1));
            }
        }
        out
    }

    /// One step of a `One` rule: if any match exists, draw once, pick one
    /// match by weight, and apply it.
    #[verifier::loop_isolation(false)]
    fn apply_one_rule(&mut self, rule: &Rule, cache: &mut Vec<Vec<PatternMatch>>) -> (changed:
        bool)
        requires
            old(self).wf(),
            rule.wf(),
            old(self).has_rule_sizes(*rule),
            cache_ok(
                old(cache)@,
                *rule,
                old(self).grid@,
                old(self).width as nat,
                old(self).height as nat,
            ),
        ensures
            final(self).wf(),
            final(self).has_rule_sizes(*rule),
            cache_ok(
                final(cache)@,
                *rule,
                final(self).grid@,
                final(self).width as nat,
                final(self).height as nat,
            ),
            final(self).st() == spec_step_one(old(self).st(), *rule).0,
            changed == spec_step_one(old(self).st(), *rule).1,
    {
        let ghost st0 = self.st();
        let ghost grid0 = self.grid@;
        let ghost gw = self.width as nat;
        let ghost gh = self.height as nat;
        let matches = self.cached_patterns(rule, cache);
        let ghost ms = matches@;
        let n = matches.len();
        if n == 0 {
            return false;
        }
        let mut total: u64 = 0;
        for i in 0..n
            invariant
                n == ms.len(),
                total as int == total_weight(ms, i as int),
        {
            let w: u64 = match matches[i].probability {
                Some(p) => p as u64,
                None => crate::PROB_SCALE as u64,
            };
            total = if total <= u64::MAX - w {
                total + w
            } else {
                u64::MAX
            };
        }
        let draw = chacha_draw(self.seed, self.rng_count);
        self.rng_count = if self.rng_count == u64::MAX {
            0
        } else {
            self.rng_count + 1
        };
        let sel: usize;
        if total == 0 {
            sel = 0;
        } else {
            let choice = draw % total;
            proof {
                lemma_total_le_exact(ms, ms.len() as int);
                lemma_prefix_rest(ms, ms.len() as int);
                lemma_pick_in_range(ms, choice as int, 0);
            }
            let mut c = choice;
            let mut i: usize = 0;
            let mut found = false;
            let mut sel_i: usize = 0;
            while i < n && !found
                invariant
                    0 <= i <= n,
                    n == ms.len(),
                    !found ==> pick_index(ms, choice as int, 0) == pick_index(
                        ms,
                        c as int,
                        i as int,
                    ),
                    !found ==> i <= pick_index(ms, choice as int, 0) < n,
                    !found ==> c >= 0,
                    found ==> sel_i as int == pick_index(ms, choice as int, 0),
                    found ==> sel_i < n,
                decreases n - i, (if found { 0int } else { 1int }),
            {
                let w: u64 = match matches[i].probability {
                    Some(p) => p as u64,
                    None => crate::PROB_SCALE as u64,
                };
                if c < w {
                    sel_i = i;
                    found = true;
                } else {
                    proof {
                        lemma_pick_ge(ms, c as int - w, i + 1);
                    }
                    c = c - w;
                    i += 1;
                }
            }
            proof {
                assert(found);
            }
            sel = sel_i;
        }
        let pattern_count = rule.patterns.len();
        proof {
            assert(pattern_count == rule.patterns@.len());
            assert(sel as int == (if total_weight(ms, ms.len() as int) == 0 {
                0int
            } else {
                pick_index(ms, (draw as int) % total_weight(ms, ms.len() as int), 0)
            }));
            lemma_all_matches_valid(*rule, grid0, gw, gh, (gw * gh) as int, sel as int);
            assert(self.has_rule_sizes(*rule)) by {
                assert forall|t: int|
                    0 <= t < rule.patterns@.len() && (#[trigger] rule.patterns@[t]).input.canonical_form
                        is Some implies self.has_size(rule.patterns@[t].input.width) by {
                    let sz = rule.patterns@[t].input.width;
                    let k = choose|k: int|
                        0 <= k < old(self).canonical_forms@.len() && (#[trigger] old(
                            self,
                        ).canonical_forms@[k]).size == sz;
                    assert(self.canonical_forms@[k].size == sz);
                }
            }
        }
        let m = matches[sel];
        self.apply_match_refresh(rule, cache, m);
        proof {
            assert(self.st() == spec_step_one(st0, *rule).0);
        }
        true
    }

    /// One step of an `All` or `Parallel` rule: select a batch from the
    /// current matches — gating by each match's probability, or, under
    /// `Parallel`, at one half where none is set — and apply every
    /// selected match, all outputs having been resolved against the
    /// pre-step grid.
    #[verifier::loop_isolation(false)]
    fn apply_batch_rule(
        &mut self,
        rule: &Rule,
        cache: &mut Vec<Vec<PatternMatch>>,
        parallel: bool,
    ) -> (changed: bool)
        requires
            old(self).wf(),
            rule.wf(),
            old(self).has_rule_sizes(*rule),
            cache_ok(
                old(cache)@,
                *rule,
                old(self).grid@,
                old(self).width as nat,
                old(self).height as nat,
            ),
        ensures
            final(self).wf(),
            final(self).has_rule_sizes(*rule),
            cache_ok(
                final(cache)@,
                *rule,
                final(self).grid@,
                final(self).width as nat,
                final(self).height as nat,
            ),
            final(self).st() == spec_step_batch(old(self).st(), *rule, parallel).0,
            changed == spec_step_batch(old(self).st(), *rule, parallel).1,
    {
        let ghost st0 = self.st();
        let ghost grid0 = self.grid@;
        let ghost gw = self.width as nat;
        let ghost gh = self.height as nat;
        let ghost count0 = self.rng_count;
        let matches = self.cached_patterns(rule, cache);
        let ghost ms = matches@;
        let pattern_count = rule.patterns.len();
        let n = matches.len();
        let mut selected: Vec<PatternMatch> = Vec::new();
        for i in 0..n
            invariant
                n == ms.len(),
                self.grid@ == grid0,
                self.grid == old(self).grid,
                self.width == old(self).width,
                self.height == old(self).height,
                self.changes == old(self).changes,
                self.seed == old(self).seed,
                self.canonical_forms == old(self).canonical_forms,
                pattern_count == rule.patterns@.len(),
                spec_select(ms, self.seed, count0, parallel, 0) == (
                    selected@ + spec_select(ms, self.seed, self.rng_count, parallel, i as int).0,
                    spec_select(ms, self.seed, self.rng_count, parallel, i as int).1,
                ),
                forall|t: int|
                    0 <= t < selected@.len() ==> match_valid(*rule, gw, gh, #[trigger] selected@[t]),
        {
            let m = matches[i];
            proof {
                lemma_all_matches_valid(*rule, grid0, gw, gh, (gw * gh) as int, i as int);
            }
            let ghost mid_count = self.rng_count;
            let ghost sel_before = selected@;
            if m.probability.is_none() && !parallel {
                selected.push(m);
                proof {
                    assert(selected@ =~= sel_before.push(m));
                    assert(sel_before + spec_select(ms, self.seed, mid_count, parallel, i as int).0
                        =~= selected@ + spec_select(
                        ms,
                        self.seed,
                        mid_count,
                        parallel,
                        i + 1,
                    ).0);
                }
            } else {
                let p: u32 = match m.probability {
                    Some(p) => p,
                    None => crate::PROB_SCALE / 2,
                };
                let draw = chacha_draw(self.seed, self.rng_count);
                self.rng_count = if self.rng_count == u64::MAX {
                    0
                } else {
                    self.rng_count + 1
                };
                if draw % (crate::PROB_SCALE as u64) < p as u64 {
                    selected.push(m);
                    proof {
                        assert(selected@ =~= sel_before.push(m));
                        assert(sel_before + spec_select(
                            ms,
                            self.seed,
                            mid_count,
                            parallel,
                            i as int,
                        ).0 =~= selected@ + spec_select(
                            ms,
                            self.seed,
                            self.rng_count,
                            parallel,
                            i + 1,
                        ).0);
                    }
                }
            }
        }
        proof {
            assert(spec_select(ms, self.seed, self.rng_count, parallel, n as int).0
                =~= Seq::<PatternMatch>::empty());
            assert(selected@ + Seq::<PatternMatch>::empty() =~= selected@);
            assert(spec_select(ms, st0.seed, count0, parallel, 0).0 == selected@);
            assert(spec_select(ms, st0.seed, count0, parallel, 0).1 == self.rng_count);
        }
        let ghost count1 = self.rng_count;
        let ghost changes0 = self.changes as nat;
        let sel_count = selected.len();
        for k in 0..sel_count
            invariant
                sel_count == selected@.len(),
                self.wf(),
                self.has_rule_sizes(*rule),
                cache_ok(cache@, *rule, self.grid@, gw, gh),
                self.width == old(self).width,
                self.height == old(self).height,
                self.seed == old(self).seed,
                self.rng_count == count1,
                self.sizes() == st0.sizes,
                forall|t: int|
                    0 <= t < selected@.len() ==> match_valid(*rule, gw, gh, #[trigger] selected@[t]),
                spec_apply_batch(grid0, gw, *rule, selected@, changes0, 0) == spec_apply_batch(
                    self.grid@,
                    gw,
                    *rule,
                    selected@,
                    self.changes as nat,
                    k as int,
                ),
        {
            let m = selected[k];
            self.apply_match_refresh(rule, cache, m);
        }
        proof {
            assert(spec_apply_batch(self.grid@, gw, *rule, selected@, self.changes as nat, sel_count as int)
                == (self.grid@, self.changes as nat));
            assert(self.st() == spec_step_batch(st0, *rule, parallel).0);
        }
        sel_count > 0
    }

    /// Applies one rule: registers its canonical keys, builds the match
    /// cache over the whole grid, then performs steps by the rule's mode —
    /// re-seeding only the window around each write — until a step changes
    /// nothing or the step budget runs out. Reports whether any step
    /// changed anything.
    #[verifier::loop_isolation(false)]
    pub fn apply_rule(&mut self, rule: &Rule) -> (changed: bool)
        requires
            old(self).wf(),
            rule.wf(),
        ensures
            final(self).wf(),
            final(self).st() == spec_apply_rule(old(self).st(), *rule).0,
            changed == spec_apply_rule(old(self).st(), *rule).1,
    {
        let ghost st_pre = self.st();
        self.precompute_canonical_forms(rule);
        let ghost st0 = self.st();
        proof {
            assert(st0 == EngineState { sizes: add_sizes(st_pre.sizes, rule.patterns@), ..st_pre });
        }
        let base = self.grid.len();
        let steps: usize = match rule.steps {
            Some(s) => s,
            None => if base < usize::MAX / 16 {
                base * 16
            } else {
                usize::MAX
            },
        };
        proof {
            assert(steps as int == (match rule.steps {
                Some(s) => s as int,
                None => default_steps(st0.width, st0.height),
            }));
        }
        let n = self.grid.len();
        let mut cache: Vec<Vec<PatternMatch>> = Vec::new();
        for i in 0..n
            invariant
                cache@.len() == i,
        {
            cache.push(Vec::new());
        }
        self.compute_cache(rule, &mut cache, 0, self.width, 0, self.height);
        proof {
            assert(cache_ok(cache@, *rule, self.grid@, self.width as nat, self.height as nat));
        }
        let ghost total_steps = steps as int;
        let mut t: usize = 0;
        let mut any = false;
        let mut go = true;
        while go && t < steps
            invariant
                0 <= t <= steps,
                self.wf(),
                self.has_rule_sizes(*rule),
                cache_ok(cache@, *rule, self.grid@, self.width as nat, self.height as nat),
                self.width == old(self).width,
                self.height == old(self).height,
                self.seed == old(self).seed,
                go ==> any == (t > 0),
                go ==> spec_run_steps(st0, *rule, total_steps).0 == spec_run_steps(
                    self.st(),
                    *rule,
                    total_steps - t,
                ).0,
                go ==> spec_run_steps(st0, *rule, total_steps).1 == ((t > 0) || spec_run_steps(
                    self.st(),
                    *rule,
                    total_steps - t,
                ).1),
                !go ==> spec_run_steps(st0, *rule, total_steps) == (self.st(), any),
            decreases steps - t,
        {
            let ghost before = self.st();
            let step_change = match rule.kind {
                RuleKind::One => self.apply_one_rule(rule, &mut cache),
                RuleKind::All => self.apply_batch_rule(rule, &mut cache, false),
                RuleKind::Parallel => self.apply_batch_rule(rule, &mut cache, true),
            };
            proof {
                assert(self.st() == spec_step(before, *rule).0);
                assert(step_change == spec_step(before, *rule).1);
            }
            any = any || step_change;
            t += 1;
            if !step_change {
                go = false;
            }
        }
        any
    }

    /// Runs a sequence node: in each iteration the children run in order
    /// until one of them registers a change, which ends the iteration;
    /// an iteration in which no child changes anything ends the node, as
    /// does the iteration budget. Reports whether anything changed.
    #[verifier::loop_isolation(false)]
    pub fn apply_sequence(&mut self, sequence: &Sequence) -> (changed: bool)
        requires
            old(self).wf(),
            crate::rule_sequence::seq_wf(*sequence),
        ensures
            final(self).wf(),
            final(self).st() == spec_apply_sequence(old(self).st(), *sequence).0,
            changed == spec_apply_sequence(old(self).st(), *sequence).1,
        decreases crate::rule_sequence::seq_height(*sequence),
    {
        let ghost st0 = self.st();
        let base = self.grid.len();
        let steps: usize = match sequence.steps {
            Some(s) => s,
            None => if base < usize::MAX / 16 {
                base * 16
            } else {
                usize::MAX
            },
        };
        proof {
            assert(steps as int == spec_seq_steps(*sequence, st0.width, st0.height));
        }
        let ghost total_steps = steps as int;
        let mut t: usize = 0;
        let mut any = false;
        let mut go = true;
        while go && t < steps
            invariant
                0 <= t <= steps,
                self.wf(),
                go ==> any == (t > 0),
                go ==> spec_run_seq(st0, *sequence, total_steps).0 == spec_run_seq(
                    self.st(),
                    *sequence,
                    total_steps - t,
                ).0,
                go ==> spec_run_seq(st0, *sequence, total_steps).1 == ((t > 0) || spec_run_seq(
                    self.st(),
                    *sequence,
                    total_steps - t,
                ).1),
                !go ==> spec_run_seq(st0, *sequence, total_steps) == (self.st(), any),
            decreases steps - t,
        {
            let ghost pass_st0 = self.st();
            let child_count = sequence.vec.len();
            let mut step_change = false;
            let mut ci: usize = 0;
            while ci < child_count && !step_change
                invariant
                    0 <= ci <= child_count,
                    child_count == sequence.vec@.len(),
                    self.wf(),
                    !step_change ==> spec_seq_pass(pass_st0, sequence.vec@, 0) == spec_seq_pass(
                        self.st(),
                        sequence.vec@,
                        ci as int,
                    ),
                    step_change ==> spec_seq_pass(pass_st0, sequence.vec@, 0) == (self.st(), true),
                decreases child_count - ci,
            {
                proof {
                    crate::rule_sequence::lemma_vec_wf_index(sequence.vec@, ci as int);
                    crate::rule_sequence::lemma_vec_height_bound(sequence.vec@, ci as int);
                }
                let ghost child_st0 = self.st();
                let child_change: bool;
                match &sequence.vec[ci] {
                    RuleOrSequence::Rule(r) => {
                        child_change = self.apply_rule(r);
                        proof {
                            assert(self.st() == spec_apply_rule(child_st0, *r).0);
                        }
                    },
                    RuleOrSequence::Sequence(child) => {
                        child_change = self.apply_sequence(child);
                        proof {
                            assert(self.st() == spec_apply_sequence(child_st0, *child).0);
                        }
                    },
                }
                step_change = child_change;
                ci += 1;
            }
            proof {
                if !step_change {
                    assert(spec_seq_pass(self.st(), sequence.vec@, child_count as int) == (
                        self.st(),
                        false,
                    ));
                    assert(spec_seq_pass(pass_st0, sequence.vec@, 0) == (self.st(), false));
                }
            }
            any = any || step_change;
            t += 1;
            if !step_change {
                go = false;
            }
        }
        any
    }

    /// Whether the canonical-form index holds an entry of this size.
    fn contains_size_exec(&self, s: usize) -> (out: bool)
        ensures
            out == self.has_size(s),
            out == contains_size(self.sizes(), s),
    {
        let count = self.canonical_forms.len();
        for i in 0..count
            invariant
                count == self.canonical_forms@.len(),
                forall|k: int| 0 <= k < i ==> (#[trigger] self.canonical_forms@[k]).size != s,
        {
            if self.canonical_forms[i].size == s {
                proof {
                    assert(self.sizes()[i as int] == s);
                }
                return true;
            }
        }
        proof {
            if contains_size(self.sizes(), s) {
                let t = choose|t: int| 0 <= t < self.sizes().len() && self.sizes()[t] == s;
                assert(self.canonical_forms@[t].size == s);
            }
        }
        false
    }
}

/// Keys already registered stay registered when more are added.
proof fn lemma_add_sizes_monotone(sizes: Seq<usize>, ps: Seq<PatternRule>, upto: int, sz: usize)
    requires
        contains_size(sizes, sz),
    ensures
        contains_size(add_sizes_upto(sizes, ps, upto), sz),
    decreases upto,
{
    if upto > 0 {
        lemma_add_sizes_monotone(sizes, ps, upto - 1, sz);
        let s1 = add_sizes_upto(sizes, ps, upto - 1);
        let k = choose|k: int| 0 <= k < s1.len() && s1[k] == sz;
        match ps[upto - 1].canonical_key {
            Some(key) => {
                if !contains_size(s1, key.0) {
                    assert(s1.push(key.0)[k] == sz);
                }
            },
            None => {},
        }
    }
}

/// After a rule's keys are registered, every key the rule carries is
/// present.
proof fn lemma_add_sizes_covers(sizes: Seq<usize>, ps: Seq<PatternRule>, upto: int, j: int)
    requires
        0 <= j < upto <= ps.len(),
        ps[j].canonical_key is Some,
    ensures
        contains_size(add_sizes_upto(sizes, ps, upto), ps[j].canonical_key->Some_0.0),
    decreases upto,
{
    let key = ps[j].canonical_key->Some_0;
    if j == upto - 1 {
        let s1 = add_sizes_upto(sizes, ps, upto - 1);
        if contains_size(s1, key.0) {
            let k = choose|k: int| 0 <= k < s1.len() && s1[k] == key.0;
            match ps[upto - 1].canonical_key {
                Some(kk) => {
                    if !contains_size(s1, kk.0) {
                        assert(s1.push(kk.0)[k] == key.0);
                    }
                },
                None => {},
            }
        } else {
            let s2 = s1.push(key.0);
            assert(s2[s2.len() - 1] == key.0);
        }
    } else {
        lemma_add_sizes_covers(sizes, ps, upto - 1, j);
        let s1 = add_sizes_upto(sizes, ps, upto - 1);
        let k = choose|k: int| 0 <= k < s1.len() && s1[k] == key.0;
        match ps[upto - 1].canonical_key {
            Some(kk) => {
                if !contains_size(s1, kk.0) {
                    assert(s1.push(kk.0)[k] == key.0);
                }
            },
            None => {},
        }
    }
}

/// Registering a rule's keys a second time changes nothing.
proof fn lemma_add_sizes_idempotent(sizes: Seq<usize>, ps: Seq<PatternRule>, upto: int)
    requires
        0 <= upto <= ps.len(),
    ensures
        add_sizes_upto(add_sizes(sizes, ps), ps, upto) == add_sizes(sizes, ps),
    decreases upto,
{
    if upto > 0 {
        lemma_add_sizes_idempotent(sizes, ps, upto - 1);
        match ps[upto - 1].canonical_key {
            Some(key) => {
                lemma_add_sizes_covers(sizes, ps, ps.len() as int, upto - 1);
            },
            None => {},
        }
    }
}

/// Under `All` with no explicit probabilities, selection takes every
/// match and draws nothing.
proof fn lemma_select_all_plain(ms: Seq<PatternMatch>, seed: u64, count: u64, i: int)
    requires
        0 <= i <= ms.len(),
        forall|t: int| 0 <= t < ms.len() ==> (#[trigger] ms[t]).probability is None,
    ensures
        spec_select(ms, seed, count, false, i) == (ms.skip(i), count),
    decreases ms.len() - i,
{
    if i < ms.len() {
        lemma_select_all_plain(ms, seed, count, i + 1);
        assert(seq![ms[i]] + ms.skip(i + 1) =~= ms.skip(i));
    } else {
        assert(ms.skip(i) =~= Seq::<PatternMatch>::empty());
    }
}

/// Under `Parallel` with every probability zero, selection takes nothing.
proof fn lemma_select_none(ms: Seq<PatternMatch>, seed: u64, count: u64, parallel: bool, i: int)
    requires
        0 <= i <= ms.len(),
        forall|t: int| 0 <= t < ms.len() ==> (#[trigger] ms[t]).probability == Some(0u32),
    ensures
        spec_select(ms, seed, count, parallel, i).0 == Seq::<PatternMatch>::empty(),
    decreases ms.len() - i,
{
    if i < ms.len() {
        let draw = chacha_stream(seed, count);
        vstd::arithmetic::div_mod::lemma_mod_division_less_than_divisor(
            draw as int,
            crate::PROB_SCALE as int,
        );
        vstd::arithmetic::div_mod::lemma_mod_bound(draw as int, crate::PROB_SCALE as int);
        lemma_select_none(ms, seed, inc64(count), parallel, i + 1);
    }
}

/// Determinism law: a rule's outcome is a function of the engine's
/// observable state alone, so two engines constructed with the same seed,
/// grid and rule sequence produce identical grids and identical change
/// counts — `apply_rule` and `apply_sequence` pin the engine's next state
/// to these functions of its current state.
pub proof fn lemma_determinism(st1: EngineState, st2: EngineState, rule: Rule, s: Sequence)
    requires
        st1 == st2,
    ensures
        spec_apply_rule(st1, rule) == spec_apply_rule(st2, rule),
        spec_apply_sequence(st1, s) == spec_apply_sequence(st2, s),
{
}

/// Idempotence of a converged rule: once a `One` rule — or an `All` rule
/// none of whose rewrites carries an explicit probability — reports no
/// change, its grid did not move, and running the rule again on that
/// grid reports no change again. (A probabilistic gate may newly fire on
/// a second run, so gated rules are excluded.)
pub proof fn lemma_converged_rule_idempotent(st: EngineState, rule: Rule)
    requires
        rule.wf(),
        rule.patterns@.len() <= usize::MAX,
        rule.kind == RuleKind::One || (rule.kind == RuleKind::All && forall|i: int|
            0 <= i < rule.patterns@.len() ==> (#[trigger] rule.patterns@[i]).probability is None),
        !spec_apply_rule(st, rule).1,
    ensures
        spec_apply_rule(st, rule).0.grid == st.grid,
        spec_apply_rule(st, rule).0.count == st.count,
        !spec_apply_rule(spec_apply_rule(st, rule).0, rule).1,
{
    let st0 = EngineState { sizes: add_sizes(st.sizes, rule.patterns@), ..st };
    let steps = (match rule.steps {
        Some(s) => s as int,
        None => default_steps(st.width, st.height),
    });
    let ms = all_matches(rule, st0.grid, st0.width, st0.height);
    lemma_no_match_step_stills(st0, rule);
    if steps > 0 {
        let stepped = spec_step(st0, rule);
        assert(!stepped.1);
        assert(stepped.0 == st0);
    }
    assert(spec_apply_rule(st, rule).0 == st0);
    // The second run starts from the same grid and the same registered
    // keys, so it finds the same (empty) match set.
    let st1 = spec_apply_rule(st, rule).0;
    lemma_add_sizes_idempotent(st.sizes, rule.patterns@, rule.patterns@.len() as int);
    let st2 = EngineState { sizes: add_sizes(st1.sizes, rule.patterns@), ..st1 };
    assert(st2 == st0);
    lemma_no_match_step_stills(st0, rule);
    if (match rule.steps {
        Some(s) => s as int,
        None => default_steps(st1.width, st1.height),
    }) > 0 {
        assert(!spec_step(st0, rule).1);
    }
}

/// A `One` step, or a plain `All` step, that reports no change leaves the
/// state exactly as it was; and whether it reports a change is a function
/// of the grid alone.
proof fn lemma_no_match_step_stills(st0: EngineState, rule: Rule)
    requires
        rule.wf(),
        rule.patterns@.len() <= usize::MAX,
        rule.kind == RuleKind::One || (rule.kind == RuleKind::All && forall|i: int|
            0 <= i < rule.patterns@.len() ==> (#[trigger] rule.patterns@[i]).probability is None),
    ensures
        !spec_step(st0, rule).1 ==> spec_step(st0, rule).0 == st0,
{
    let ms = all_matches(rule, st0.grid, st0.width, st0.height);
    match rule.kind {
        RuleKind::One => {},
        RuleKind::All => {
            assert forall|t: int| 0 <= t < ms.len() implies (#[trigger] ms[t]).probability
                is None by {
                lemma_all_matches_valid(
                    rule,
                    st0.grid,
                    st0.width,
                    st0.height,
                    (st0.width * st0.height) as int,
                    t,
                );
            }
            lemma_select_all_plain(ms, st0.seed, st0.count, 0);
            assert(ms.skip(0) =~= ms);
            if ms.len() == 0 {
                assert(spec_select(ms, st0.seed, st0.count, false, 0).0 =~= ms);
            }
        },
        RuleKind::Parallel => {},
    }
}

/// A `Parallel` rule whose every rewrite carries an explicit probability
/// of zero never mutates the grid, however many steps it is allowed.
pub proof fn lemma_parallel_zero_never_writes(st: EngineState, rule: Rule)
    requires
        rule.wf(),
        rule.patterns@.len() <= usize::MAX,
        rule.kind == RuleKind::Parallel,
        forall|i: int|
            0 <= i < rule.patterns@.len() ==> (#[trigger] rule.patterns@[i]).probability == Some(
                0u32,
            ),
    ensures
        spec_apply_rule(st, rule).0.grid == st.grid,
        spec_apply_rule(st, rule).0.changes == st.changes,
        !spec_apply_rule(st, rule).1,
{
    let st0 = EngineState { sizes: add_sizes(st.sizes, rule.patterns@), ..st };
    let steps = (match rule.steps {
        Some(s) => s as int,
        None => default_steps(st.width, st.height),
    });
    if steps > 0 {
        let ms = all_matches(rule, st0.grid, st0.width, st0.height);
        assert forall|t: int| 0 <= t < ms.len() implies (#[trigger] ms[t]).probability == Some(
            0u32,
        ) by {
            lemma_all_matches_valid(
                rule,
                st0.grid,
                st0.width,
                st0.height,
                (st0.width * st0.height) as int,
                t,
            );
        }
        lemma_select_none(ms, st0.seed, st0.count, true, 0);
        assert(!spec_step(st0, rule).1);
    }
}

/// Boundary law: a reported match never lets the written footprint cross
/// the grid edge — for every transform the match test can report, the
/// image's footprint lies inside the grid.
pub proof fn lemma_boundary(rule: Rule, grid: Seq<u8>, gw: nat, gh: nat, ux: usize, uy: usize, idx: int)
    requires
        rule.wf(),
        rule.patterns@.len() <= usize::MAX,
        0 <= idx < rule.patterns@.len(),
        spec_fit(rule.patterns@[idx], grid, gw, gh, ux as int, uy as int) is Some,
    ensures
        ({
            let r = spec_fit(rule.patterns@[idx], grid, gw, gh, ux as int, uy as int)->Some_0;
            let entry = rot_entry(rule.patterns@[idx].output, r as isize);
            ux + entry.width <= gw && uy + entry.height <= gh
        }),
{
    lemma_fit_match_valid(rule, idx, grid, gw, gh, ux, uy);
}

} // verus!
