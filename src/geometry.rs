//! Axis-aligned boxes over integer positions. A box is open below and closed
//! above on every axis, `min < p <= max`, so that its bisection partitions it.
use vstd::prelude::*;
use crate::bits::{bit, bits_value, lemma_bits_determine, lemma_bits_value, two_pow};

verus! {

/// Lowest bound a box may have: one below every coordinate, so the root box
/// holds every position.
pub const BOUND_LOW: i64 = -2147483649;

/// Highest bound a box may have.
pub const BOUND_HIGH: i64 = 2147483647;

/// The dimensionalities the geometry supports: up to sixteen axes, so that a
/// node's `2^D` children can be counted.
pub open spec fn dims_ok(d: nat) -> bool {
    1 <= d <= 16
}

/// A position in `D` dimensions.
pub struct Vector<const D: usize> {
    coords: Vec<i32>,
}

impl<const D: usize> View for Vector<D> {
    type V = Seq<i32>;

    closed spec fn view(&self) -> Seq<i32> {
        self.coords@
    }
}

impl<const D: usize> Vector<D> {
    /// A position has one coordinate per axis.
    pub open spec fn wf(&self) -> bool {
        self@.len() == D
    }

    /// The position with every coordinate equal to `value`.
    pub fn from_element(value: i32) -> (r: Self)
        ensures
            r@ == Seq::new(D as nat, |i: int| value),
    {
        let mut coords: Vec<i32> = Vec::new();
        let mut i: usize = 0;
        while i < D
            invariant
                i <= D,
                coords@ == Seq::new(i as nat, |k: int| value),
            decreases D - i,
        {
            coords.push(value);
            proof {
                assert(coords@ =~= Seq::new((i + 1) as nat, |k: int| value));
            }
            i = i + 1;
        }
        Vector { coords }
    }

    /// The position with the given coordinates; `None` where their number is not `D`.
    pub fn from_coords(coords: Vec<i32>) -> (r: Option<Self>)
        ensures
            match r {
                Some(v) => coords@.len() == D && v@ == coords@,
                None => coords@.len() != D,
            },
    {
        if coords.len() == D {
            Some(Vector { coords })
        } else {
            None
        }
    }

    /// Coordinate on axis `i`.
    pub fn coord(&self, i: usize) -> (r: i32)
        requires
            i < self@.len(),
        ensures
            r == self@[i as int],
    {
        self.coords[i]
    }

    /// A copy of the coordinates.
    pub fn to_vec(&self) -> (r: Vec<i32>)
        ensures
            r@ == self@,
    {
        let mut r: Vec<i32> = Vec::new();
        let mut i: usize = 0;
        while i < self.coords.len()
            invariant
                i <= self@.len(),
                r@ == self@.take(i as int),
            decreases self@.len() - i,
        {
            r.push(self.coords[i]);
            proof {
                assert(r@ =~= self@.take(i as int + 1));
            }
            i = i + 1;
        }
        proof {
            assert(r@ =~= self@);
        }
        r
    }

    /// An equal copy.
    pub fn duplicate(&self) -> (r: Self)
        ensures
            r@ == self@,
    {
        Vector { coords: self.to_vec() }
    }

    /// Whether two positions are the same point.
    pub fn same(&self, other: &Self) -> (r: bool)
        ensures
            r == (self@ == other@),
    {
        if self.coords.len() != other.coords.len() {
            return false;
        }
        let mut i: usize = 0;
        while i < self.coords.len()
            invariant
                self@.len() == other@.len(),
                i <= self@.len(),
                forall|k: int| 0 <= k < i ==> self@[k] == other@[k],
            decreases self@.len() - i,
        {
            if self.coords[i] != other.coords[i] {
                return false;
            }
            i = i + 1;
        }
        proof {
            assert(self@ =~= other@);
        }
        true
    }
}

/// An axis-aligned box: on each axis `i`, the points `p` with `min[i] < p[i] <= max[i]`.
pub struct Bounds<const D: usize> {
    min: Vec<i64>,
    max: Vec<i64>,
}

/// The lower bound on axis `i` of child `c` of a box with edges `lo`, `hi`.
pub open spec fn child_low(lo: Seq<i64>, hi: Seq<i64>, c: nat, i: int) -> int {
    if bit(c, i as nat) {
        mid_of(lo[i] as int, hi[i] as int)
    } else {
        lo[i] as int
    }
}

/// The upper bound on axis `i` of child `c` of a box with edges `lo`, `hi`.
pub open spec fn child_high(lo: Seq<i64>, hi: Seq<i64>, c: nat, i: int) -> int {
    if bit(c, i as nat) {
        hi[i] as int
    } else {
        mid_of(lo[i] as int, hi[i] as int)
    }
}

/// Edges that form a box of `d` axes: one pair per axis, each inside the
/// representable range, low not above high.
pub open spec fn edges_ok(d: nat, lo: Seq<i64>, hi: Seq<i64>) -> bool {
    &&& lo.len() == d
    &&& hi.len() == d
    &&& forall|i: int| 0 <= i < d ==> BOUND_LOW <= #[trigger] lo[i] <= hi[i] <= BOUND_HIGH
}

/// The point where an axis is cut in two.
pub open spec fn mid_of(lo: int, hi: int) -> int {
    lo + (hi - lo) / 2
}

impl<const D: usize> Bounds<D> {
    pub closed spec fn low(&self) -> Seq<i64> {
        self.min@
    }

    pub closed spec fn high(&self) -> Seq<i64> {
        self.max@
    }

    /// One edge pair per axis, each inside the representable range, low below high.
    pub open spec fn wf(&self) -> bool {
        edges_ok(D as nat, self.low(), self.high())
    }

    /// Whether the box holds `p`.
    pub open spec fn holds(&self, p: Seq<i32>) -> bool {
        &&& p.len() == D
        &&& forall|i: int|
            #![trigger self.low()[i]] 0 <= i < D ==> self.low()[i] < p[i] as int && p[i] as int <= self.high()[i]
    }

    /// The cut point of axis `i`.
    pub open spec fn mid(&self, i: int) -> int {
        mid_of(self.low()[i] as int, self.high()[i] as int)
    }

    /// `ch` is child `c` of this box: on axis `i` it is the upper half where bit
    /// `i` of `c` is set, else the lower half.
    pub open spec fn is_child(&self, c: nat, ch: Bounds<D>) -> bool {
        &&& ch.low().len() == D
        &&& ch.high().len() == D
        &&& forall|i: int|
            0 <= i < D ==> #[trigger] ch.low()[i] == child_low(self.low(), self.high(), c, i)
                && ch.high()[i] == child_high(self.low(), self.high(), c, i)
    }

    /// The sides of the cut on which `p` lies, last axis first.
    pub open spec fn sides(&self, p: Seq<i32>) -> Seq<bool> {
        Seq::new(D as nat, |r: int| p[D - 1 - r] as int > self.mid(D - 1 - r))
    }

    /// The index of the child whose box holds `p`.
    pub open spec fn child_index(&self, p: Seq<i32>) -> nat {
        bits_value(self.sides(p))
    }

    /// Whether the boxes overlap.
    pub open spec fn meets(&self, other: Bounds<D>) -> bool {
        forall|i: int|
            #![trigger self.low()[i]] 0 <= i < D ==> self.low()[i] < other.high()[i] && other.low()[i]
                < self.high()[i]
    }

    /// Width of axis `i`.
    pub open spec fn width(&self, i: int) -> int {
        self.high()[i] - self.low()[i]
    }

    /// Sum of the widths of axes `k..`.
    pub open spec fn spread_from(&self, k: int) -> nat
        decreases D - k,
    {
        if k < 0 || k >= D {
            0
        } else {
            (if self.width(k) >= 0 {
                self.width(k) as nat
            } else {
                0nat
            }) + self.spread_from(k + 1)
        }
    }

    /// Sum of the widths of all axes; bisection lowers it.
    pub open spec fn spread(&self) -> nat {
        self.spread_from(0)
    }

    /// Some axis is wide enough to be cut into two non-empty halves.
    pub open spec fn splittable(&self) -> bool {
        exists|i: int| 0 <= i < D && #[trigger] self.width(i) >= 2
    }

    /// The box that holds every position.
    pub fn new() -> (r: Self)
        ensures
            r.wf(),
            forall|i: int| 0 <= i < D ==> #[trigger] r.low()[i] == BOUND_LOW && r.high()[i] == BOUND_HIGH,
            forall|p: Seq<i32>| p.len() == D ==> r.holds(p),
    {
        let mut min: Vec<i64> = Vec::new();
        let mut max: Vec<i64> = Vec::new();
        let mut i: usize = 0;
        while i < D
            invariant
                i <= D,
                min@.len() == i,
                max@.len() == i,
                forall|k: int| 0 <= k < i ==> #[trigger] min@[k] == BOUND_LOW && max@[k] == BOUND_HIGH,
            decreases D - i,
        {
            min.push(BOUND_LOW);
            max.push(BOUND_HIGH);
            i = i + 1;
        }
        Bounds { min, max }
    }

    /// The box with the given edges; `None` where they do not form one.
    pub fn from_edges(min: Vec<i64>, max: Vec<i64>) -> (r: Option<Self>)
        ensures
            match r {
                Some(b) => b.wf() && b.low() == min@ && b.high() == max@,
                None => !edges_ok(D as nat, min@, max@),
            },
    {
        if min.len() != D || max.len() != D {
            return None;
        }
        let mut i: usize = 0;
        while i < D
            invariant
                min@.len() == D,
                max@.len() == D,
                i <= D,
                forall|k: int|
                    0 <= k < i ==> BOUND_LOW <= #[trigger] min@[k] <= max@[k] <= BOUND_HIGH,
            decreases D - i,
        {
            if !(BOUND_LOW <= min[i] && min[i] <= max[i] && max[i] <= BOUND_HIGH) {
                return None;
            }
            i = i + 1;
        }
        Some(Bounds { min, max })
    }

    /// Lower edge on axis `i`.
    pub fn low_at(&self, i: usize) -> (r: i64)
        requires
            i < self.low().len(),
        ensures
            r == self.low()[i as int],
    {
        self.min[i]
    }

    /// Upper edge on axis `i`.
    pub fn high_at(&self, i: usize) -> (r: i64)
        requires
            i < self.high().len(),
        ensures
            r == self.high()[i as int],
    {
        self.max[i]
    }

    /// Whether the box holds `position`.
    pub fn contains(&self, position: &Vector<D>) -> (r: bool)
        requires
            self.wf(),
            position.wf(),
        ensures
            r == self.holds(position@),
    {
        let mut i: usize = 0;
        while i < D
            invariant
                self.wf(),
                position.wf(),
                i <= D,
                forall|k: int|
                    #![trigger self.low()[k]] 0 <= k < i ==> self.low()[k] < position@[k] as int && position@[k] as int
                        <= self.high()[k],
            decreases D - i,
        {
            let p = position.coord(i) as i64;
            if !(p > self.min[i] && p <= self.max[i]) {
                return false;
            }
            assert(self.low()[i as int] < position@[i as int] as int);
            assert(position@[i as int] as int <= self.high()[i as int]);
            i = i + 1;
        }
        true
    }

    /// Whether this box overlaps `other`.
    pub fn intersects(&self, other: &Bounds<D>) -> (r: bool)
        requires
            self.wf(),
            other.wf(),
        ensures
            r == self.meets(*other),
    {
        let mut i: usize = 0;
        while i < D
            invariant
                self.wf(),
                other.wf(),
                i <= D,
                forall|k: int|
                    #![trigger self.low()[k]] 0 <= k < i ==> self.low()[k] < other.high()[k] && other.low()[k]
                        < self.high()[k],
            decreases D - i,
        {
            if !(self.min[i] < other.max[i] && other.min[i] < self.max[i]) {
                return false;
            }
            i = i + 1;
        }
        true
    }

    fn mid_at(&self, i: usize) -> (r: i64)
        requires
            self.wf(),
            i < D,
        ensures
            r == self.mid(i as int),
            self.low()[i as int] <= r <= self.high()[i as int],
    {
        let lo = self.min[i];
        let hi = self.max[i];
        lo + (hi - lo) / 2
    }

    /// The index of the child whose box holds `position`.
    pub fn child_of(&self, position: &Vector<D>) -> (r: usize)
        requires
            self.wf(),
            position.wf(),
            dims_ok(D as nat),
        ensures
            r == self.child_index(position@),
            r < two_pow(D as nat),
    {
        let ghost s = self.sides(position@);
        let mut idx: usize = 0;
        let mut r: usize = 0;
        proof {
            assert(s.take(0) =~= Seq::<bool>::empty());
        }
        while r < D
            invariant
                self.wf(),
                position.wf(),
                dims_ok(D as nat),
                s == self.sides(position@),
                r <= D,
                idx == bits_value(s.take(r as int)),
            decreases D - r,
        {
            proof {
                lemma_bits_value(s.take(r as int));
                crate::bits::lemma_two_pow_monotone(r as nat, 16);
                assert(two_pow(16) == 65536) by {
                    reveal_with_fuel(two_pow, 17);
                }
                assert(s.take(r as int + 1).drop_last() =~= s.take(r as int));
            }
            let axis = D - 1 - r;
            let upper = position.coord(axis) as i64 > self.mid_at(axis);
            idx = 2 * idx + if upper {
                1
            } else {
                0
            };
            r = r + 1;
        }
        proof {
            assert(s.take(D as int) =~= s);
            lemma_bits_value(s);
        }
        idx
    }

    /// Bisects the box into its `2^D` children, child `c` taking the upper half
    /// of axis `i` exactly where bit `i` of `c` is set.
    pub fn split(&self) -> (r: Vec<Bounds<D>>)
        requires
            self.wf(),
            dims_ok(D as nat),
        ensures
            r@.len() == two_pow(D as nat),
            forall|c: int| #![trigger r@[c]] 0 <= c < r@.len() ==> r@[c].wf() && self.is_child(c as nat, r@[c]),
    {
        let count: usize = 1usize << (D as u32);
        proof {
            assert(count == two_pow(D as nat)) by {
                lemma_shl_two_pow(D as nat);
            }
        }
        let mut out: Vec<Bounds<D>> = Vec::new();
        let mut mask: usize = 0;
        while mask < count
            invariant
                self.wf(),
                dims_ok(D as nat),
                count == two_pow(D as nat),
                mask <= count,
                out@.len() == mask,
                forall|c: int| #![trigger out@[c]] 0 <= c < mask ==> out@[c].wf() && self.is_child(c as nat, out@[c]),
            decreases count - mask,
        {
            let mut min: Vec<i64> = Vec::new();
            let mut max: Vec<i64> = Vec::new();
            let mut m: usize = mask;
            let mut i: usize = 0;
            while i < D
                invariant
                    self.wf(),
                    dims_ok(D as nat),
                    count == two_pow(D as nat),
                    mask < count,
                    out@.len() == mask,
                    forall|c: int| #![trigger out@[c]] 0 <= c < mask ==> out@[c].wf() && self.is_child(c as nat, out@[c]),
                    i <= D,
                    min@.len() == i,
                    max@.len() == i,
                    forall|u: nat| #[trigger] bit(m as nat, u) == bit(mask as nat, (u + i) as nat),
                    forall|k: int|
                        0 <= k < i ==> #[trigger] min@[k] == child_low(self.low(), self.high(), mask as nat, k)
                            && max@[k] == child_high(self.low(), self.high(), mask as nat, k),
                    forall|k: int| 0 <= k < i ==> BOUND_LOW <= #[trigger] min@[k] <= max@[k] <= BOUND_HIGH,
                decreases D - i,
            {
                let mid = self.mid_at(i);
                proof {
                    assert(bit(m as nat, 0) == bit(mask as nat, i as nat));
                    assert forall|u: nat| #[trigger] bit((m / 2) as nat, u) == bit(mask as nat, (u + i + 1) as nat) by {
                        assert(bit(m as nat, u + 1) == bit((m as nat) / 2, u));
                    }
                }
                if m % 2 == 1 {
                    min.push(mid);
                    max.push(self.max[i]);
                } else {
                    min.push(self.min[i]);
                    max.push(mid);
                }
                m = m / 2;
                i = i + 1;
            }
            let b = Bounds { min, max };
            out.push(b);
            mask = mask + 1;
        }
        out
    }
}

pub proof fn lemma_shl_two_pow(d: nat)
    requires
        1 <= d <= 16,
    ensures
        (1usize << (d as u32)) == two_pow(d),
{
    reveal_with_fuel(two_pow, 17);
    assert((1usize << 1u32) == 2usize) by (bit_vector);
    assert((1usize << 2u32) == 4usize) by (bit_vector);
    assert((1usize << 3u32) == 8usize) by (bit_vector);
    assert((1usize << 4u32) == 16usize) by (bit_vector);
    assert((1usize << 5u32) == 32usize) by (bit_vector);
    assert((1usize << 6u32) == 64usize) by (bit_vector);
    assert((1usize << 7u32) == 128usize) by (bit_vector);
    assert((1usize << 8u32) == 256usize) by (bit_vector);
    assert((1usize << 9u32) == 512usize) by (bit_vector);
    assert((1usize << 10u32) == 1024usize) by (bit_vector);
    assert((1usize << 11u32) == 2048usize) by (bit_vector);
    assert((1usize << 12u32) == 4096usize) by (bit_vector);
    assert((1usize << 13u32) == 8192usize) by (bit_vector);
    assert((1usize << 14u32) == 16384usize) by (bit_vector);
    assert((1usize << 15u32) == 32768usize) by (bit_vector);
    assert((1usize << 16u32) == 65536usize) by (bit_vector);
}

/// Bisection partitions a box: every point of the box lies in exactly one of
/// its children, the one that `child_index` names.
pub proof fn lemma_split_partitions<const D: usize>(b: Bounds<D>, children: Seq<Bounds<D>>, p: Seq<i32>)
    requires
        b.wf(),
        dims_ok(D as nat),
        children.len() == two_pow(D as nat),
        forall|c: int| 0 <= c < children.len() ==> b.is_child(c as nat, #[trigger] children[c]),
        b.holds(p),
    ensures
        b.child_index(p) < two_pow(D as nat),
        forall|c: int|
            0 <= c < children.len() ==> (#[trigger] children[c].holds(p) <==> c == b.child_index(p)),
{
    let s = b.sides(p);
    let ci = b.child_index(p);
    lemma_bits_value(s);
    assert forall|i: int| 0 <= i < D implies #[trigger] bit(ci, i as nat) == (p[i] as int > b.mid(i)) by {
        let r = D - 1 - i;
        assert(bit(bits_value(s), (s.len() - 1 - r) as nat) == s[r]);
    }
    assert forall|c: int| 0 <= c < children.len() implies (#[trigger] children[c].holds(p) <==> c == ci) by {
        let ch = children[c];
        if c == ci {
            assert forall|i: int| #![trigger ch.low()[i]] 0 <= i < D implies ch.low()[i] < p[i] as int && p[i] as int
                <= ch.high()[i] by {
                assert(b.low()[i] < p[i] as int);
                assert(p[i] as int <= b.high()[i]);
                assert(bit(ci, i as nat) == (p[i] as int > b.mid(i)));
            }
        }
        if ch.holds(p) {
            assert forall|k: nat| k < D implies #[trigger] bit(c as nat, k) == bit(ci, k) by {
                let i = k as int;
                assert(0 <= i < D);
                assert(ch.holds(p));
                assert(ch.low()[i] < p[i] as int);
                assert(p[i] as int <= ch.high()[i]);
                assert(bit(ci, k) == (p[i] as int > b.mid(i)));
            }
            lemma_bits_determine(c as nat, ci, D as nat);
        }
    }
}

/// A box that holds two distinct points has an axis at least two wide.
pub proof fn lemma_two_points_splittable<const D: usize>(b: Bounds<D>, p: Seq<i32>, q: Seq<i32>)
    requires
        b.holds(p),
        b.holds(q),
        p != q,
    ensures
        b.splittable(),
{
    assert(exists|i: int| 0 <= i < D && p[i] != q[i]) by {
        if forall|i: int| 0 <= i < D ==> p[i] == q[i] {
            assert(p =~= q);
        }
    }
    let i = choose|i: int| 0 <= i < D && p[i] != q[i];
    assert(b.low()[i] < p[i] as int && p[i] as int <= b.high()[i]);
    assert(b.low()[i] < q[i] as int && q[i] as int <= b.high()[i]);
    assert(b.width(i) >= 2);
}

proof fn lemma_child_spread_from<const D: usize>(b: Bounds<D>, c: nat, ch: Bounds<D>, k: int)
    requires
        b.wf(),
        b.is_child(c, ch),
        0 <= k <= D,
    ensures
        ch.spread_from(k) <= b.spread_from(k),
        (exists|i: int| k <= i < D && #[trigger] b.width(i) >= 2) ==> ch.spread_from(k) < b.spread_from(k),
    decreases D - k,
{
    if k < D {
        lemma_child_spread_from(b, c, ch, k + 1);
        assert(ch.low()[k] == child_low(b.low(), b.high(), c, k));
        assert(ch.high()[k] == child_high(b.low(), b.high(), c, k));
        assert(BOUND_LOW <= b.low()[k] <= b.high()[k] <= BOUND_HIGH);
        assert(0 <= ch.width(k) <= b.width(k));
        assert(b.width(k) >= 2 ==> ch.width(k) < b.width(k));
        if exists|i: int| k <= i < D && #[trigger] b.width(i) >= 2 {
            let i = choose|i: int| k <= i < D && #[trigger] b.width(i) >= 2;
            if i > k {
                assert(exists|j: int| k + 1 <= j < D && #[trigger] b.width(j) >= 2);
            }
        }
    }
}

/// A child of a box that can be cut has a smaller spread.
pub proof fn lemma_child_spread<const D: usize>(b: Bounds<D>, c: nat, ch: Bounds<D>)
    requires
        b.wf(),
        b.is_child(c, ch),
        b.splittable(),
    ensures
        ch.spread() < b.spread(),
{
    lemma_child_spread_from(b, c, ch, 0);
}

} // verus!
