use vstd::prelude::*;
use crate::polarity_value;

verus! {

/// Proves that a row-major index stays inside a `width * height` grid.
pub proof fn lemma_row_major(x: int, y: int, w: int, h: int)
    requires
        0 <= x < w,
        0 <= y < h,
    ensures
        0 <= y * w + x < w * h,
{
    assert(0 <= y * w + x < w * h) by (nonlinear_arith)
        requires
            0 <= x < w,
            0 <= y < h,
    ;
}

/// Multiplying a value of magnitude at most `b` by a factor `0 <= c`
/// keeps the magnitude below `c * b`.
pub proof fn lemma_scaled_magnitude(v: int, b: int, c: int)
    requires
        -b <= v <= b,
        0 <= c,
    ensures
        -(c * b) <= c * v <= c * b,
{
    assert(-(c * b) <= c * v <= c * b) by (nonlinear_arith)
        requires
            -b <= v <= b,
            0 <= c,
    ;
}

/// A dense field of signed event counts with one cell per sensor pixel,
/// stored row-major. `bound` tracks, in ghost state, a magnitude bound on
/// every cell, which is what makes all cell arithmetic provably free of
/// overflow.
pub struct CountImage {
    width: usize,
    height: usize,
    data: Vec<i64>,
    bound: Ghost<int>,
}

impl CountImage {
    pub closed spec fn spec_width(self) -> int {
        self.width as int
    }

    pub closed spec fn spec_height(self) -> int {
        self.height as int
    }

    /// The cells, row-major.
    pub closed spec fn grid(self) -> Seq<i64> {
        self.data@
    }

    /// Ghost magnitude bound on every cell.
    pub closed spec fn bound(self) -> int {
        self.bound@
    }

    pub open spec fn wf(self) -> bool {
        &&& self.grid().len() == self.spec_width() * self.spec_height()
        &&& 0 <= self.bound()
        &&& forall|i: int|
            0 <= i < self.grid().len() ==> -self.bound() <= #[trigger] self.grid()[i]
                <= self.bound()
    }

    pub open spec fn same_shape(self, other: CountImage) -> bool {
        self.spec_width() == other.spec_width() && self.spec_height() == other.spec_height()
    }

    /// The count at pixel `(x, y)`.
    pub open spec fn cell(self, x: int, y: int) -> int {
        self.grid()[y * self.spec_width() + x] as int
    }

    pub fn width(&self) -> (w: usize)
        ensures
            w == self.spec_width(),
    {
        self.width
    }

    pub fn height(&self) -> (h: usize)
        ensures
            h == self.spec_height(),
    {
        self.height
    }

    pub fn zeros(width: usize, height: usize) -> (r: CountImage)
        requires
            width * height <= usize::MAX,
        ensures
            r.wf(),
            r.spec_width() == width,
            r.spec_height() == height,
            r.bound() == 0,
            forall|i: int| 0 <= i < r.grid().len() ==> r.grid()[i] == 0,
    {
        let n = width * height;
        let mut data: Vec<i64> = Vec::new();
        for k in 0..n
            invariant
                data@.len() == k,
                forall|i: int| 0 <= i < k ==> data@[i] == 0,
        {
            data.push(0);
        }
        CountImage { width, height, data, bound: Ghost(0) }
    }

    pub fn at(&self, x: usize, y: usize) -> (v: i64)
        requires
            self.wf(),
            x < self.spec_width(),
            y < self.spec_height(),
        ensures
            v == self.cell(x as int, y as int),
    {
        let n = self.data.len();
        proof {
            lemma_row_major(x as int, y as int, self.spec_width(), self.spec_height());
        }
        self.data[y * self.width + x]
    }

    /// Adds one event of the given polarity at pixel `(x, y)`.
    pub fn bump(&mut self, x: usize, y: usize, on: bool)
        requires
            old(self).wf(),
            x < old(self).spec_width(),
            y < old(self).spec_height(),
            old(self).bound() < i64::MAX,
        ensures
            final(self).wf(),
            final(self).same_shape(*old(self)),
            final(self).bound() == old(self).bound() + 1,
            final(self).grid() == old(self).grid().update(
                y * old(self).spec_width() + x,
                (old(self).cell(x as int, y as int) + polarity_value(on)) as i64,
            ),
    {
        let n = self.data.len();
        proof {
            lemma_row_major(x as int, y as int, self.spec_width(), self.spec_height());
        }
        let idx = y * self.width + x;
        let v = self.data[idx];
        if on {
            self.data[idx] = v + 1;
        } else {
            self.data[idx] = v - 1;
        }
        self.bound = Ghost(self.bound@ + 1);
    }

    /// Pointwise `self += c * other`, used to advance a latent accumulator
    /// by a coefficient-scaled interval accumulator.
    pub fn add_scaled(&mut self, other: &CountImage, c: i64)
        requires
            old(self).wf(),
            other.wf(),
            old(self).same_shape(*other),
            0 <= c,
            old(self).bound() + c * other.bound() <= i64::MAX,
        ensures
            final(self).wf(),
            final(self).same_shape(*old(self)),
            final(self).bound() == old(self).bound() + c * other.bound(),
            final(self).grid().len() == old(self).grid().len(),
            forall|i: int|
                0 <= i < final(self).grid().len() ==> final(self).grid()[i] == old(self).grid()[i]
                    + c * other.grid()[i],
    {
        let n = self.data.len();
        let ghost b = self.bound@ + c * other.bound();
        for k in 0..n
            invariant
                self.data@.len() == n,
                old(self).grid().len() == n,
                other.wf(),
                n == other.grid().len(),
                0 <= c,
                old(self).bound() + c * other.bound() <= i64::MAX,
                old(self).wf(),
                self.width == old(self).width,
                self.height == old(self).height,
                self.bound == old(self).bound,
                forall|i: int| k <= i < n ==> self.data@[i] == old(self).grid()[i],
                forall|i: int|
                    0 <= i < k ==> self.data@[i] == old(self).grid()[i] + c * other.grid()[i],
        {
            proof {
                lemma_scaled_magnitude(other.grid()[k as int] as int, other.bound(), c as int);
                assert(self.data@[k as int] == old(self).grid()[k as int]);
                assert(-old(self).bound() <= self.data@[k as int] <= old(self).bound());
            }
            self.data[k] = self.data[k] + c * other.data[k];
        }
        self.bound = Ghost(b);
        proof {
            assert forall|i: int| 0 <= i < self.grid().len() implies -self.bound()
                <= #[trigger] self.grid()[i] <= self.bound() by {
                lemma_scaled_magnitude(other.grid()[i] as int, other.bound(), c as int);
            }
        }
    }

    /// Pointwise `self -= c * other`, the reverse-direction rule of the
    /// backward integration pass.
    pub fn sub_scaled(&mut self, other: &CountImage, c: i64)
        requires
            old(self).wf(),
            other.wf(),
            old(self).same_shape(*other),
            0 <= c,
            old(self).bound() + c * other.bound() <= i64::MAX,
        ensures
            final(self).wf(),
            final(self).same_shape(*old(self)),
            final(self).bound() == old(self).bound() + c * other.bound(),
            final(self).grid().len() == old(self).grid().len(),
            forall|i: int|
                0 <= i < final(self).grid().len() ==> final(self).grid()[i] == old(self).grid()[i]
                    - c * other.grid()[i],
    {
        let n = self.data.len();
        let ghost b = self.bound@ + c * other.bound();
        for k in 0..n
            invariant
                self.data@.len() == n,
                old(self).grid().len() == n,
                other.wf(),
                n == other.grid().len(),
                0 <= c,
                old(self).bound() + c * other.bound() <= i64::MAX,
                old(self).wf(),
                self.width == old(self).width,
                self.height == old(self).height,
                self.bound == old(self).bound,
                forall|i: int| k <= i < n ==> self.data@[i] == old(self).grid()[i],
                forall|i: int|
                    0 <= i < k ==> self.data@[i] == old(self).grid()[i] - c * other.grid()[i],
        {
            proof {
                lemma_scaled_magnitude(other.grid()[k as int] as int, other.bound(), c as int);
                assert(self.data@[k as int] == old(self).grid()[k as int]);
                assert(-old(self).bound() <= self.data@[k as int] <= old(self).bound());
            }
            self.data[k] = self.data[k] - c * other.data[k];
        }
        self.bound = Ghost(b);
        proof {
            assert forall|i: int| 0 <= i < self.grid().len() implies -self.bound()
                <= #[trigger] self.grid()[i] <= self.bound() by {
                lemma_scaled_magnitude(other.grid()[i] as int, other.bound(), c as int);
            }
        }
    }

    /// An independent copy with the same cells.
    pub fn duplicate(&self) -> (r: CountImage)
        ensures
            r.spec_width() == self.spec_width(),
            r.spec_height() == self.spec_height(),
            r.grid() == self.grid(),
            r.bound() == self.bound(),
    {
        let n = self.data.len();
        let mut data: Vec<i64> = Vec::new();
        for k in 0..n
            invariant
                n == self.data@.len(),
                data@.len() == k,
                forall|i: int| 0 <= i < k ==> data@[i] == self.data@[i],
        {
            data.push(self.data[k]);
        }
        proof {
            assert(data@ =~= self.data@);
        }
        CountImage { width: self.width, height: self.height, data, bound: self.bound }
    }
}

} // verus!
