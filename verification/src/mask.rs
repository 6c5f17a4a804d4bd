use vstd::prelude::*;
use vstd::arithmetic::div_mod::{lemma_fundamental_div_mod, lemma_mod_division_less_than_divisor};
use crate::image::lemma_row_major;

verus! {

/// Number of foreground pixels in a binary grid.
pub open spec fn count_ones(g: Seq<bool>) -> nat
    decreases g.len(),
{
    if g.len() == 0 {
        0
    } else {
        count_ones(g.drop_last()) + (if g.last() {
            1nat
        } else {
            0nat
        })
    }
}

/// Reads a pixel of a `width * height` grid, treating everything outside
/// the sensor area as background.
pub open spec fn sp_get(g: Seq<bool>, w: int, h: int, x: int, y: int) -> bool {
    0 <= x < w && 0 <= y < h && g[y * w + x]
}

/// Erosion by the 3x3 cross element: a pixel survives when it and its four
/// edge neighbours are all foreground.
pub open spec fn sp_erode_at(g: Seq<bool>, w: int, h: int, x: int, y: int) -> bool {
    &&& sp_get(g, w, h, x, y)
    &&& sp_get(g, w, h, x - 1, y)
    &&& sp_get(g, w, h, x + 1, y)
    &&& sp_get(g, w, h, x, y - 1)
    &&& sp_get(g, w, h, x, y + 1)
}

/// Dilation by the 3x3 cross element.
pub open spec fn sp_dilate_at(g: Seq<bool>, w: int, h: int, x: int, y: int) -> bool {
    ||| sp_get(g, w, h, x, y)
    ||| sp_get(g, w, h, x - 1, y)
    ||| sp_get(g, w, h, x + 1, y)
    ||| sp_get(g, w, h, x, y - 1)
    ||| sp_get(g, w, h, x, y + 1)
}

pub open spec fn sp_erode(g: Seq<bool>, w: int, h: int) -> Seq<bool> {
    Seq::new((w * h) as nat, |i: int| sp_erode_at(g, w, h, i % w, i / w))
}

pub open spec fn sp_dilate(g: Seq<bool>, w: int, h: int) -> Seq<bool> {
    Seq::new((w * h) as nat, |i: int| sp_dilate_at(g, w, h, i % w, i / w))
}

/// Morphological opening: erosion followed by dilation.
pub open spec fn sp_open(g: Seq<bool>, w: int, h: int) -> Seq<bool> {
    sp_dilate(sp_erode(g, w, h), w, h)
}

pub open spec fn sp_minus(a: Seq<bool>, b: Seq<bool>) -> Seq<bool> {
    Seq::new(a.len(), |i: int| a[i] && !b[i])
}

pub open spec fn sp_or(a: Seq<bool>, b: Seq<bool>) -> Seq<bool> {
    Seq::new(a.len(), |i: int| a[i] || b[i])
}

/// Iterative thinning: each round keeps the eroded-minus-opened skeleton
/// pixels and recurses on the eroded grid until no foreground remains.
pub open spec fn sp_thin(g: Seq<bool>, w: int, h: int) -> Seq<bool>
    decreases count_ones(g),
        when g.len() == w * h && 0 <= w && 0 <= h
        via lemma_thin_decreases
{
    if count_ones(g) == 0 {
        Seq::new(g.len(), |i: int| false)
    } else {
        let e = sp_erode(g, w, h);
        sp_or(sp_minus(e, sp_open(e, w, h)), sp_thin(e, w, h))
    }
}

pub proof fn lemma_count_zero_all_false(g: Seq<bool>)
    requires
        count_ones(g) == 0,
    ensures
        forall|i: int| 0 <= i < g.len() ==> !g[i],
    decreases g.len(),
{
    if g.len() > 0 {
        lemma_count_zero_all_false(g.drop_last());
        assert forall|i: int| 0 <= i < g.len() implies !g[i] by {
            if i < g.len() - 1 {
                assert(!g.drop_last()[i]);
            } else {
                assert(!g.last());
            }
        }
    }
}

pub proof fn lemma_count_le_len(g: Seq<bool>)
    ensures
        count_ones(g) <= g.len(),
    decreases g.len(),
{
    if g.len() > 0 {
        lemma_count_le_len(g.drop_last());
    }
}

/// A grid with foreground has an earliest foreground pixel.
pub proof fn lemma_first_one(g: Seq<bool>)
    requires
        count_ones(g) > 0,
    ensures
        exists|j: int|
            0 <= j < g.len() && g[j] && (forall|i: int| 0 <= i < j ==> !g[i]),
    decreases g.len(),
{
    if count_ones(g.drop_last()) > 0 {
        lemma_first_one(g.drop_last());
        let j = choose|j: int|
            0 <= j < g.drop_last().len() && g.drop_last()[j] && (forall|i: int|
                0 <= i < j ==> !g.drop_last()[i]);
        assert(g[j] == g.drop_last()[j]);
        assert forall|i: int| 0 <= i < j implies !g[i] by {
            assert(!g.drop_last()[i]);
        }
        assert(0 <= j < g.len() && g[j] && (forall|i: int| 0 <= i < j ==> !g[i]));
    } else {
        lemma_count_zero_all_false(g.drop_last());
        let j = g.len() - 1;
        assert(g.last() == g[j]);
        assert(g[j]);
        assert forall|i: int| 0 <= i < j implies !g[i] by {
            assert(!g.drop_last()[i]);
        }
        assert(0 <= j < g.len() && g[j] && (forall|i: int| 0 <= i < j ==> !g[i]));
    }
}

/// Counting is monotone under pointwise implication, and strictly so when
/// some pixel is dropped.
pub proof fn lemma_count_pointwise(a: Seq<bool>, b: Seq<bool>)
    requires
        a.len() == b.len(),
        forall|i: int| 0 <= i < a.len() ==> (a[i] ==> b[i]),
    ensures
        count_ones(a) <= count_ones(b),
        (exists|j: int| 0 <= j < a.len() && !a[j] && b[j]) ==> count_ones(a) < count_ones(b),
    decreases a.len(),
{
    if a.len() > 0 {
        let j0 = choose|j: int| 0 <= j < a.len() && !a[j] && b[j];
        lemma_count_pointwise(a.drop_last(), b.drop_last());
        if exists|j: int| 0 <= j < a.len() && !a[j] && b[j] {
            if j0 == a.len() - 1 {
                assert(count_ones(a) < count_ones(b));
            } else {
                assert(!a.drop_last()[j0] && b.drop_last()[j0]);
            }
        }
    }
}

/// Erosion shrinks a non-empty grid strictly: its earliest foreground pixel
/// has no foreground neighbour above (or sits on the top row) and erodes away.
pub proof fn lemma_erode_strict(g: Seq<bool>, w: int, h: int)
    requires
        g.len() == w * h,
        0 <= w,
        0 <= h,
        count_ones(g) > 0,
    ensures
        count_ones(sp_erode(g, w, h)) < count_ones(g),
{
    let e = sp_erode(g, w, h);
    assert forall|i: int| 0 <= i < e.len() && e[i] implies g[i] by {
        lemma_flat_coords(i, w, h);
    }
    lemma_first_one(g);
    let j = choose|j: int|
        0 <= j < g.len() && g[j] && (forall|i: int| 0 <= i < j ==> !g[i]);
    lemma_flat_coords(j, w, h);
    let x = j % w;
    let y = j / w;
    if y == 0 {
        assert(!sp_get(g, w, h, x, y - 1));
    } else {
        lemma_row_major(x, y - 1, w, h);
        assert((y - 1) * w + x == j - w) by (nonlinear_arith)
            requires
                j == y * w + x,
        ;
        assert(!g[j - w]);
        assert(!sp_get(g, w, h, x, y - 1));
    }
    assert(!e[j]);
    lemma_count_pointwise(e, g);
}

/// Flat index `i` of a `w * h` grid decomposes as `i == (i / w) * w + i % w`
/// with coordinates in range.
pub proof fn lemma_flat_coords(i: int, w: int, h: int)
    requires
        0 <= i < w * h,
        0 <= w,
        0 <= h,
    ensures
        0 < w,
        0 < h,
        0 <= i % w < w,
        0 <= i / w < h,
        i == (i / w) * w + i % w,
{
    assert(0 < w && 0 < h) by (nonlinear_arith)
        requires
            0 <= i < w * h,
            0 <= w,
            0 <= h,
    ;
    lemma_fundamental_div_mod(i, w);
    lemma_mod_division_less_than_divisor(i, w);
    assert(0 <= i / w < h) by (nonlinear_arith)
        requires
            0 <= i < w * h,
            0 < w,
            i == w * (i / w) + i % w,
            0 <= i % w < w,
    ;
    assert(i == (i / w) * w + i % w) by (nonlinear_arith)
        requires
            i == w * (i / w) + i % w,
    ;
}

/// The thinned grid keeps the sensor dimensions.
pub proof fn lemma_thin_len(g: Seq<bool>, w: int, h: int)
    requires
        g.len() == w * h,
        0 <= w,
        0 <= h,
    ensures
        sp_thin(g, w, h).len() == w * h,
    decreases count_ones(g),
{
    if count_ones(g) != 0 {
        lemma_erode_strict(g, w, h);
        lemma_thin_len(sp_erode(g, w, h), w, h);
    }
}

#[via_fn]
proof fn lemma_thin_decreases(g: Seq<bool>, w: int, h: int) {
    if count_ones(g) != 0 {
        lemma_erode_strict(g, w, h);
    }
}

/// A binary pixel mask with the sensor dimensions.
pub struct Mask {
    width: usize,
    height: usize,
    data: Vec<bool>,
}

impl Mask {
    pub closed spec fn spec_width(self) -> int {
        self.width as int
    }

    pub closed spec fn spec_height(self) -> int {
        self.height as int
    }

    pub closed spec fn grid(self) -> Seq<bool> {
        self.data@
    }

    pub open spec fn wf(self) -> bool {
        self.grid().len() == self.spec_width() * self.spec_height()
    }

    pub open spec fn same_shape(self, other: Mask) -> bool {
        self.spec_width() == other.spec_width() && self.spec_height() == other.spec_height()
    }

    pub open spec fn px(self, x: int, y: int) -> bool {
        sp_get(self.grid(), self.spec_width(), self.spec_height(), x, y)
    }

    pub fn width(&self) -> (w: usize)
        ensures
            w == self.spec_width(),
    {
        self.width
    }

    pub fn height(&self) -> (h: usize)
        ensures
            h == self.spec_height(),
    {
        self.height
    }

    pub fn zeros(width: usize, height: usize) -> (r: Mask)
        requires
            width * height <= usize::MAX,
        ensures
            r.wf(),
            r.spec_width() == width,
            r.spec_height() == height,
            forall|i: int| 0 <= i < r.grid().len() ==> !r.grid()[i],
    {
        let n = width * height;
        let mut data: Vec<bool> = Vec::new();
        for k in 0..n
            invariant
                data@.len() == k,
                forall|i: int| 0 <= i < k ==> !data@[i],
        {
            data.push(false);
        }
        Mask { width, height, data }
    }

    pub fn get(&self, x: usize, y: usize) -> (v: bool)
        requires
            self.wf(),
            x < self.spec_width(),
            y < self.spec_height(),
        ensures
            v == self.px(x as int, y as int),
    {
        let n = self.data.len();
        proof {
            lemma_row_major(x as int, y as int, self.spec_width(), self.spec_height());
        }
        self.data[y * self.width + x]
    }

    pub fn set(&mut self, x: usize, y: usize, v: bool)
        requires
            old(self).wf(),
            x < old(self).spec_width(),
            y < old(self).spec_height(),
        ensures
            final(self).wf(),
            final(self).same_shape(*old(self)),
            final(self).grid() == old(self).grid().update(
                y * old(self).spec_width() + x,
                v,
            ),
    {
        let n = self.data.len();
        proof {
            lemma_row_major(x as int, y as int, self.spec_width(), self.spec_height());
        }
        let idx = y * self.width + x;
        self.data[idx] = v;
    }

    pub fn duplicate(&self) -> (r: Mask)
        ensures
            r.spec_width() == self.spec_width(),
            r.spec_height() == self.spec_height(),
            r.grid() == self.grid(),
    {
        let n = self.data.len();
        let mut data: Vec<bool> = Vec::new();
        for k in 0..n
            invariant
                n == self.data@.len(),
                data@.len() == k,
                forall|i: int| 0 <= i < k ==> data@[i] == self.data@[i],
        {
            data.push(self.data[k]);
        }
        proof {
            assert(data@ =~= self.data@);
        }
        Mask { width: self.width, height: self.height, data }
    }

    pub fn count_foreground(&self) -> (n: usize)
        requires
            self.wf(),
        ensures
            n == count_ones(self.grid()),
    {
        let len = self.data.len();
        let mut n: usize = 0;
        for k in 0..len
            invariant
                len == self.data@.len(),
                n == count_ones(self.data@.take(k as int)),
                n <= k,
        {
            proof {
                assert(self.data@.take(k + 1).drop_last() =~= self.data@.take(k as int));
                assert(self.data@.take(k + 1).last() == self.data@[k as int]);
            }
            if self.data[k] {
                n = n + 1;
            }
        }
        proof {
            assert(self.data@.take(len as int) =~= self.data@);
        }
        n
    }

    /// Erosion by the cross element; pixels beyond the sensor border count
    /// as background, so a non-empty mask always loses at least one pixel.
    pub fn erode(&self) -> (r: Mask)
        requires
            self.wf(),
        ensures
            r.wf(),
            r.same_shape(*self),
            r.grid() == sp_erode(self.grid(), self.spec_width(), self.spec_height()),
    {
        let w = self.width;
        let h = self.height;
        let n = self.data.len();
        let ghost g = self.grid();
        let mut data: Vec<bool> = Vec::new();
        for k in 0..n
            invariant
                self.wf(),
                w == self.spec_width(),
                h == self.spec_height(),
                n == self.data@.len(),
                g == self.grid(),
                data@.len() == k,
                forall|i: int|
                    0 <= i < k ==> data@[i] == sp_erode_at(
                        g,
                        w as int,
                        h as int,
                        i % (w as int),
                        i / (w as int),
                    ),
        {
            proof {
                lemma_flat_coords(k as int, w as int, h as int);
            }
            let x = k % w;
            let y = k / w;
            let v = self.cross_all(x, y);
            data.push(v);
        }
        proof {
            assert(data@ =~= sp_erode(g, w as int, h as int));
        }
        Mask { width: w, height: h, data }
    }

    /// Dilation by the cross element.
    pub fn dilate(&self) -> (r: Mask)
        requires
            self.wf(),
        ensures
            r.wf(),
            r.same_shape(*self),
            r.grid() == sp_dilate(self.grid(), self.spec_width(), self.spec_height()),
    {
        let w = self.width;
        let h = self.height;
        let n = self.data.len();
        let ghost g = self.grid();
        let mut data: Vec<bool> = Vec::new();
        for k in 0..n
            invariant
                self.wf(),
                w == self.spec_width(),
                h == self.spec_height(),
                n == self.data@.len(),
                g == self.grid(),
                data@.len() == k,
                forall|i: int|
                    0 <= i < k ==> data@[i] == sp_dilate_at(
                        g,
                        w as int,
                        h as int,
                        i % (w as int),
                        i / (w as int),
                    ),
        {
            proof {
                lemma_flat_coords(k as int, w as int, h as int);
            }
            let x = k % w;
            let y = k / w;
            let v = self.cross_any(x, y);
            data.push(v);
        }
        proof {
            assert(data@ =~= sp_dilate(g, w as int, h as int));
        }
        Mask { width: w, height: h, data }
    }

    fn cross_all(&self, x: usize, y: usize) -> (v: bool)
        requires
            self.wf(),
            x < self.spec_width(),
            y < self.spec_height(),
        ensures
            v == sp_erode_at(
                self.grid(),
                self.spec_width(),
                self.spec_height(),
                x as int,
                y as int,
            ),
    {
        let mut v = self.get(x, y);
        if x == 0 {
            v = false;
        } else {
            v = v && self.get(x - 1, y);
        }
        if x + 1 >= self.width {
            v = false;
        } else {
            v = v && self.get(x + 1, y);
        }
        if y == 0 {
            v = false;
        } else {
            v = v && self.get(x, y - 1);
        }
        if y + 1 >= self.height {
            v = false;
        } else {
            v = v && self.get(x, y + 1);
        }
        v
    }

    fn cross_any(&self, x: usize, y: usize) -> (v: bool)
        requires
            self.wf(),
            x < self.spec_width(),
            y < self.spec_height(),
        ensures
            v == sp_dilate_at(
                self.grid(),
                self.spec_width(),
                self.spec_height(),
                x as int,
                y as int,
            ),
    {
        let mut v = self.get(x, y);
        if x > 0 {
            v = v || self.get(x - 1, y);
        }
        if x + 1 < self.width {
            v = v || self.get(x + 1, y);
        }
        if y > 0 {
            v = v || self.get(x, y - 1);
        }
        if y + 1 < self.height {
            v = v || self.get(x, y + 1);
        }
        v
    }

    /// Pointwise `self && !other`.
    pub fn minus(&self, other: &Mask) -> (r: Mask)
        requires
            self.wf(),
            other.wf(),
            self.same_shape(*other),
        ensures
            r.wf(),
            r.same_shape(*self),
            r.grid() == sp_minus(self.grid(), other.grid()),
    {
        let n = self.data.len();
        let mut data: Vec<bool> = Vec::new();
        for k in 0..n
            invariant
                n == self.data@.len(),
                n == other.data@.len(),
                data@.len() == k,
                forall|i: int| 0 <= i < k ==> data@[i] == (self.data@[i] && !other.data@[i]),
        {
            data.push(self.data[k] && !other.data[k]);
        }
        proof {
            assert(data@ =~= sp_minus(self.grid(), other.grid()));
        }
        Mask { width: self.width, height: self.height, data }
    }

    /// Pointwise `self || other`.
    pub fn union(&self, other: &Mask) -> (r: Mask)
        requires
            self.wf(),
            other.wf(),
            self.same_shape(*other),
        ensures
            r.wf(),
            r.same_shape(*self),
            r.grid() == sp_or(self.grid(), other.grid()),
    {
        let n = self.data.len();
        let mut data: Vec<bool> = Vec::new();
        for k in 0..n
            invariant
                n == self.data@.len(),
                n == other.data@.len(),
                data@.len() == k,
                forall|i: int| 0 <= i < k ==> data@[i] == (self.data@[i] || other.data@[i]),
        {
            data.push(self.data[k] || other.data[k]);
        }
        proof {
            assert(data@ =~= sp_or(self.grid(), other.grid()));
        }
        Mask { width: self.width, height: self.height, data }
    }

    /// Number of pixels that are foreground in both masks.
    pub fn overlap(&self, other: &Mask) -> (n: usize)
        requires
            self.wf(),
            other.wf(),
            self.same_shape(*other),
        ensures
            n == count_ones(sp_and(self.grid(), other.grid())),
    {
        let len = self.data.len();
        let ghost a = sp_and(self.grid(), other.grid());
        let mut n: usize = 0;
        for k in 0..len
            invariant
                len == self.data@.len(),
                len == other.data@.len(),
                a == sp_and(self.data@, other.data@),
                a.len() == len,
                n == count_ones(a.take(k as int)),
                n <= k,
        {
            proof {
                assert(a.take(k + 1).drop_last() =~= a.take(k as int));
                assert(a.take(k + 1).last() == a[k as int]);
            }
            if self.data[k] && other.data[k] {
                n = n + 1;
            }
        }
        proof {
            assert(a.take(len as int) =~= a);
        }
        n
    }

    /// Iterative thinning, per round keeping the eroded-minus-opened
    /// skeleton and continuing on the eroded mask until it is empty.
    pub fn thin(&self) -> (r: Mask)
        requires
            self.wf(),
        ensures
            r.wf(),
            r.same_shape(*self),
            r.grid() == sp_thin(self.grid(), self.spec_width(), self.spec_height()),
    {
        let w = self.width;
        let h = self.height;
        let n = self.data.len();
        proof {
            assert(w * h <= usize::MAX) by {
                assert(n == self.grid().len());
            }
        }
        let mut mat = self.duplicate();
        let mut thinned = Mask::zeros(w, h);
        let mut cnt = mat.count_foreground();
        proof {
            lemma_thin_len(mat.grid(), w as int, h as int);
            lemma_or_zero(thinned.grid(), sp_thin(mat.grid(), w as int, h as int));
            assert(sp_or(thinned.grid(), sp_thin(mat.grid(), w as int, h as int)) == sp_thin(
                self.grid(),
                w as int,
                h as int,
            ));
        }
        while cnt != 0
            invariant
                mat.wf(),
                thinned.wf(),
                mat.spec_width() == w,
                mat.spec_height() == h,
                thinned.spec_width() == w,
                thinned.spec_height() == h,
                self.wf(),
                w == self.spec_width(),
                h == self.spec_height(),
                cnt == count_ones(mat.grid()),
                sp_or(thinned.grid(), sp_thin(mat.grid(), w as int, h as int)) == sp_thin(
                    self.grid(),
                    w as int,
                    h as int,
                ),
            decreases cnt,
        {
            let eroded = mat.erode();
            let opened = eroded.erode().dilate();
            let subset = eroded.minus(&opened);
            let next_thinned = thinned.union(&subset);
            proof {
                lemma_erode_strict(mat.grid(), w as int, h as int);
                lemma_thin_len(eroded.grid(), w as int, h as int);
                lemma_or_shift(
                    thinned.grid(),
                    subset.grid(),
                    sp_thin(eroded.grid(), w as int, h as int),
                );
                assert(sp_or(subset.grid(), sp_thin(eroded.grid(), w as int, h as int)) =~=
                    sp_thin(mat.grid(), w as int, h as int));
            }
            thinned = next_thinned;
            mat = eroded;
            cnt = mat.count_foreground();
        }
        proof {
            lemma_count_zero_all_false(mat.grid());
            assert(sp_or(thinned.grid(), sp_thin(mat.grid(), w as int, h as int)) =~=
                thinned.grid());
        }
        thinned
    }
}

pub open spec fn sp_and(a: Seq<bool>, b: Seq<bool>) -> Seq<bool> {
    Seq::new(a.len(), |i: int| a[i] && b[i])
}

proof fn lemma_or_zero(z: Seq<bool>, b: Seq<bool>)
    requires
        z.len() == b.len(),
        forall|i: int| 0 <= i < z.len() ==> !z[i],
    ensures
        sp_or(z, b) =~= b,
{
}

/// `a || (b || c) == (a || b) || c`, pointwise.
proof fn lemma_or_shift(a: Seq<bool>, b: Seq<bool>, c: Seq<bool>)
    requires
        a.len() == b.len(),
        b.len() == c.len(),
    ensures
        sp_or(sp_or(a, b), c) =~= sp_or(a, sp_or(b, c)),
{
}

} // verus!
