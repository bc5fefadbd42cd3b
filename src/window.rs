//! The window cache: what a windowed load of the store does with the keys it
//! scanned. A window is a centre and a radius; the scan covers the Morton keys
//! between the window's corners, which is a superset of the window, so every
//! scanned key is decoded and checked against the true window before it
//! enters a fresh partition tree.
use vstd::prelude::*;
use crate::bits::two_pow;
use crate::error::SpatialError;
use crate::morton::{codec_dims, decode, encode, lemma_morton_monotone, morton};
use crate::spacetree::{QEntity, SpaceTree};

verus! {

broadcast use vstd::array::group_array_axioms;

/// Largest coordinate.
pub const COORD_MAX: u16 = 65535;

/// The window's lower corner: the centre less the radius, stopped at zero.
pub open spec fn low_corner(center: Seq<u16>, radius: nat) -> Seq<u16> {
    Seq::new(
        center.len(),
        |i: int|
            if center[i] >= radius {
                (center[i] - radius) as u16
            } else {
                0u16
            },
    )
}

/// The window's upper corner: the centre plus the radius, stopped at the
/// largest coordinate.
pub open spec fn high_corner(center: Seq<u16>, radius: nat) -> Seq<u16> {
    Seq::new(
        center.len(),
        |i: int|
            if center[i] + radius <= 65535 {
                (center[i] + radius) as u16
            } else {
                65535u16
            },
    )
}

/// `q` lies within `radius` of `center` on every axis.
pub open spec fn in_window(center: Seq<u16>, radius: nat, q: Seq<u16>) -> bool {
    &&& q.len() == center.len()
    &&& forall|i: int|
        0 <= i < q.len() ==> center[i] - radius <= #[trigger] q[i] <= center[i] + radius
}

/// The coordinate with the Morton key `key`.
pub open spec fn point_of(key: u64, d: nat) -> Seq<u16> {
    choose|c: Seq<u16>| c.len() == d && morton(c) == key
}

/// A codec coordinate as a tree position.
pub open spec fn tree_point(c: Seq<u16>) -> Seq<i32> {
    Seq::new(c.len(), |i: int| c[i] as i32)
}

/// A key that encodes some coordinate of `d` axes.
pub open spec fn key_in_domain(key: u64, d: nat) -> bool {
    key < two_pow(16 * d)
}

/// What a window load of the scanned records `s` holds: each record whose key
/// decodes to a point inside the window, at that point; where a key repeats,
/// its first record wins.
pub open spec fn window_map<T>(center: Seq<u16>, radius: nat, s: Seq<(u64, T)>) -> Map<Seq<i32>, T>
    decreases s.len(),
{
    if s.len() == 0 {
        Map::empty()
    } else {
        let m = window_map(center, radius, s.drop_first());
        let k = s[0].0;
        let c = point_of(k, center.len());
        if key_in_domain(k, center.len()) && in_window(center, radius, c) {
            m.insert(tree_point(c), s[0].1)
        } else {
            m
        }
    }
}

/// The coordinates of an array, as a vector.
fn coords_of<const D: usize>(position: &[u16; D]) -> (r: Vec<u16>)
    ensures
        r@ == position@,
{
    let mut r: Vec<u16> = Vec::new();
    let mut i: usize = 0;
    while i < D
        invariant
            i <= D,
            position@.len() == D,
            r@ == position@.take(i as int),
        decreases D - i,
    {
        r.push(position[i]);
        proof {
            assert(r@ =~= position@.take(i as int + 1));
        }
        i = i + 1;
    }
    proof {
        assert(r@ =~= position@);
    }
    r
}

/// The Morton key under which the record at `position` is stored.
pub fn storage_key<const D: usize>(position: &[u16; D]) -> (key: u64)
    requires
        codec_dims(D as nat),
    ensures
        key == morton(position@),
        forall|c: Seq<u16>| c.len() == D && morton(c) == key ==> c == position@,
{
    let key = encode(&coords_of(position));
    proof {
        assert forall|c: Seq<u16>| c.len() == D && morton(c) == key implies c == position@ by {
            crate::morton::lemma_morton_injective(c, position@);
        }
    }
    key
}

/// A coordinate the codec can represent.
pub open spec fn in_codec_domain(x: i32) -> bool {
    0 <= x <= 65535
}

/// The codec coordinate of a tree position. A position with other than `D`
/// coordinates is a dimension mismatch; one with a coordinate outside
/// `0..=65535` lies out of the codec's domain.
pub fn codec_point<const D: usize>(position: &Vec<i32>) -> (r: Result<Vec<u16>, SpatialError>)
    ensures
        position@.len() != D ==> r == Err::<Vec<u16>, SpatialError>(SpatialError::DimensionMismatch),
        position@.len() == D && (exists|i: int| 0 <= i < D && !in_codec_domain(#[trigger] position@[i]))
            ==> r == Err::<Vec<u16>, SpatialError>(SpatialError::OutOfDomain),
        r is Ok <==> position@.len() == D && forall|i: int| 0 <= i < D ==> in_codec_domain(#[trigger] position@[i]),
        r matches Ok(c) ==> c@.len() == D && tree_point(c@) == position@,
{
    if position.len() != D {
        return Err(SpatialError::DimensionMismatch);
    }
    let mut c: Vec<u16> = Vec::new();
    let mut i: usize = 0;
    while i < D
        invariant
            i <= D,
            position@.len() == D,
            c@.len() == i,
            forall|k: int| 0 <= k < i ==> in_codec_domain(#[trigger] position@[k]),
            forall|k: int| 0 <= k < i ==> #[trigger] c@[k] as i32 == position@[k],
        decreases D - i,
    {
        let x = position[i];
        if x < 0 || x > COORD_MAX as i32 {
            return Err(SpatialError::OutOfDomain);
        }
        c.push(x as u16);
        i = i + 1;
    }
    proof {
        assert(tree_point(c@) =~= position@);
    }
    Ok(c)
}

/// The corners of the window of `radius` around `center`.
pub fn window_corners<const D: usize>(center: &[u16; D], radius: usize) -> (r: (Vec<u16>, Vec<u16>))
    ensures
        r.0@ == low_corner(center@, radius as nat),
        r.1@ == high_corner(center@, radius as nat),
{
    let mut lo: Vec<u16> = Vec::new();
    let mut hi: Vec<u16> = Vec::new();
    let mut i: usize = 0;
    while i < D
        invariant
            i <= D,
            center@.len() == D,
            lo@ == low_corner(center@, radius as nat).take(i as int),
            hi@ == high_corner(center@, radius as nat).take(i as int),
        decreases D - i,
    {
        let c = center[i];
        let l: u16 = if c as usize >= radius {
            (c as usize - radius) as u16
        } else {
            0
        };
        let h: u16 = if radius <= (COORD_MAX - c) as usize {
            (c as usize + radius) as u16
        } else {
            COORD_MAX
        };
        lo.push(l);
        hi.push(h);
        proof {
            assert(lo@ =~= low_corner(center@, radius as nat).take(i as int + 1));
            assert(hi@ =~= high_corner(center@, radius as nat).take(i as int + 1));
        }
        i = i + 1;
    }
    proof {
        assert(lo@ =~= low_corner(center@, radius as nat));
        assert(hi@ =~= high_corner(center@, radius as nat));
    }
    (lo, hi)
}

/// The range of keys that a window load scans: the keys of the window's corners.
pub fn key_range<const D: usize>(center: &[u16; D], radius: usize) -> (r: (u64, u64))
    requires
        codec_dims(D as nat),
    ensures
        r.0 == morton(low_corner(center@, radius as nat)),
        r.1 == morton(high_corner(center@, radius as nat)),
{
    let (lo, hi) = window_corners(center, radius);
    (encode(&lo), encode(&hi))
}

/// Every point of the window has its key inside the scanned range, so the
/// scan misses nothing.
pub proof fn lemma_window_in_key_range(center: Seq<u16>, radius: nat, q: Seq<u16>)
    requires
        codec_dims(center.len()),
        in_window(center, radius, q),
    ensures
        morton(low_corner(center, radius)) <= morton(q) <= morton(high_corner(center, radius)),
{
    lemma_morton_monotone(low_corner(center, radius), q);
    lemma_morton_monotone(q, high_corner(center, radius));
}

/// Distinct coordinates give distinct tree positions.
proof fn lemma_tree_point_injective(a: Seq<u16>, b: Seq<u16>)
    requires
        a.len() == b.len(),
        tree_point(a) == tree_point(b),
    ensures
        a == b,
{
    assert forall|i: int| 0 <= i < a.len() implies a[i] == b[i] by {
        assert(tree_point(a)[i] == tree_point(b)[i]);
        assert(tree_point(a)[i] == a[i] as i32);
        assert(tree_point(b)[i] == b[i] as i32);
    }
    assert(a =~= b);
}

/// Decoding the key of a coordinate gives the coordinate back; the key fits
/// in 64 bits and lies in the codec's key domain.
pub proof fn lemma_codec_round_trip(q: Seq<u16>)
    requires
        codec_dims(q.len()),
    ensures
        key_in_domain(morton(q) as u64, q.len()),
        morton(q) < 0x1_0000_0000_0000_0000nat,
        (morton(q) as u64) as nat == morton(q),
        point_of(morton(q) as u64, q.len()) == q,
{
    crate::morton::lemma_morton_bound(q);
    crate::morton::lemma_two_pow_64();
    crate::bits::lemma_two_pow_monotone(16 * q.len(), 64);
    let k = morton(q) as u64;
    assert(k as nat == morton(q));
    let c = point_of(k, q.len());
    assert(q.len() == q.len() && morton(q) == k);
    crate::morton::lemma_morton_injective(c, q);
}

/// Every point a window load holds came from a record of the store whose key
/// encodes that point, which lies in the window.
proof fn lemma_window_map_sound<T>(center: Seq<u16>, radius: nat, store: Map<u64, T>, s: Seq<(u64, T)>)
    requires
        codec_dims(center.len()),
        forall|i: int| #![trigger s[i]] 0 <= i < s.len() ==> store.contains_key(s[i].0) && store[s[i].0] == s[i].1,
        forall|k: u64| #[trigger] store.contains_key(k) ==> exists|q: Seq<u16>| q.len() == center.len() && morton(q) == k,
    ensures
        forall|p: Seq<i32>| #[trigger] window_map(center, radius, s).contains_key(p) ==> exists|q: Seq<u16>|
            q.len() == center.len() && in_window(center, radius, q) && p == tree_point(q)
                && store.contains_key(morton(q) as u64) && window_map(center, radius, s)[p] == store[morton(q) as u64],
    decreases s.len(),
{
    if s.len() > 0 {
        let rest = s.drop_first();
        assert forall|i: int| #![trigger rest[i]] 0 <= i < rest.len() implies store.contains_key(rest[i].0) && store[rest[i].0] == rest[i].1 by {
            assert(rest[i] == s[i + 1]);
        }
        lemma_window_map_sound(center, radius, store, rest);
        let k = s[0].0;
        let c = point_of(k, center.len());
        let m = window_map(center, radius, s);
        assert forall|p: Seq<i32>| #[trigger] m.contains_key(p) implies exists|q: Seq<u16>|
            q.len() == center.len() && in_window(center, radius, q) && p == tree_point(q)
                && store.contains_key(morton(q) as u64) && m[p] == store[morton(q) as u64] by {
            if key_in_domain(k, center.len()) && in_window(center, radius, c) && p == tree_point(c) {
                assert(store.contains_key(s[0].0));
                let q0 = choose|q: Seq<u16>| q.len() == center.len() && morton(q) == k;
                lemma_codec_round_trip(q0);
                assert(c == q0);
                assert(m[p] == s[0].1);
            } else {
                assert(window_map(center, radius, rest).contains_key(p));
            }
        }
    }
}

/// A point of the window whose key some record carries is held by a window
/// load, with that record's payload.
proof fn lemma_window_map_complete<T>(center: Seq<u16>, radius: nat, s: Seq<(u64, T)>, q: Seq<u16>, v: T)
    requires
        codec_dims(center.len()),
        q.len() == center.len(),
        in_window(center, radius, q),
        exists|i: int| 0 <= i < s.len() && #[trigger] s[i].0 == morton(q) as u64,
        forall|i: int| #![trigger s[i]] 0 <= i < s.len() && s[i].0 == morton(q) as u64 ==> s[i].1 == v,
        forall|i: int|
            #![trigger s[i]]
            0 <= i < s.len() ==> exists|c: Seq<u16>| c.len() == center.len() && morton(c) == s[i].0,
    ensures
        window_map(center, radius, s).contains_key(tree_point(q)),
        window_map(center, radius, s)[tree_point(q)] == v,
    decreases s.len(),
{
    lemma_codec_round_trip(q);
    let k = s[0].0;
    let rest = s.drop_first();
    if k == morton(q) as u64 {
        assert(s[0].1 == v);
    } else {
        let i = choose|i: int| 0 <= i < s.len() && #[trigger] s[i].0 == morton(q) as u64;
        assert(rest[i - 1] == s[i]);
        assert forall|j: int| #![trigger rest[j]] 0 <= j < rest.len() && rest[j].0 == morton(q) as u64 implies rest[j].1 == v by {
            assert(rest[j] == s[j + 1]);
        }
        assert forall|j: int| #![trigger rest[j]] 0 <= j < rest.len() implies exists|c: Seq<u16>| c.len() == center.len() && morton(c) == rest[j].0 by {
            assert(rest[j] == s[j + 1]);
        }
        lemma_window_map_complete(center, radius, rest, q, v);
        let c = point_of(k, center.len());
        assert(exists|c2: Seq<u16>| c2.len() == center.len() && morton(c2) == s[0].0);
        if key_in_domain(k, center.len()) && in_window(center, radius, c) && tree_point(c) == tree_point(q) {
            lemma_tree_point_injective(c, q);
            assert(morton(c) == k);
        }
    }
}

/// A window load is exact. Given a store whose keys are Morton keys of
/// coordinates, and a scan that returns each of its records whose key lies in
/// the window's key range, the cache holds a point exactly when the point is
/// in the window and the store holds its key, with the stored payload.
pub proof fn lemma_window_load_exact<T>(center: Seq<u16>, radius: nat, store: Map<u64, T>, scanned: Seq<(u64, T)>)
    requires
        codec_dims(center.len()),
        forall|k: u64| #[trigger] store.contains_key(k) ==> exists|q: Seq<u16>| q.len() == center.len() && morton(q) == k,
        forall|i: int|
            #![trigger scanned[i]]
            0 <= i < scanned.len() ==> store.contains_key(scanned[i].0) && store[scanned[i].0] == scanned[i].1
                && morton(low_corner(center, radius)) <= scanned[i].0 <= morton(high_corner(center, radius)),
        forall|k: u64|
            #[trigger] store.contains_key(k) && morton(low_corner(center, radius)) <= k <= morton(
                high_corner(center, radius),
            ) ==> exists|i: int| 0 <= i < scanned.len() && #[trigger] scanned[i].0 == k,
    ensures
        forall|q: Seq<u16>|
            q.len() == center.len() ==> (#[trigger] window_map(center, radius, scanned).contains_key(tree_point(q))
                <==> in_window(center, radius, q) && store.contains_key(morton(q) as u64)),
        forall|q: Seq<u16>|
            q.len() == center.len() && in_window(center, radius, q) && store.contains_key(morton(q) as u64)
                ==> #[trigger] window_map(center, radius, scanned)[tree_point(q)] == store[morton(q) as u64],
        forall|p: Seq<i32>| #[trigger] window_map(center, radius, scanned).contains_key(p) ==> exists|q: Seq<u16>|
            q.len() == center.len() && p == tree_point(q) && in_window(center, radius, q),
{
    let m = window_map(center, radius, scanned);
    lemma_window_map_sound(center, radius, store, scanned);
    assert forall|q: Seq<u16>|
        q.len() == center.len() && in_window(center, radius, q) && store.contains_key(morton(q) as u64)
            implies m.contains_key(tree_point(q)) && m[tree_point(q)] == store[morton(q) as u64] by {
        lemma_codec_round_trip(q);
        lemma_window_in_key_range(center, radius, q);
        let k = morton(q) as u64;
        assert(store.contains_key(k));
        let i = choose|i: int| 0 <= i < scanned.len() && #[trigger] scanned[i].0 == k;
        assert forall|j: int| #![trigger scanned[j]] 0 <= j < scanned.len() implies exists|c: Seq<u16>| c.len() == center.len() && morton(c) == scanned[j].0 by {
            assert(store.contains_key(scanned[j].0));
        }
        lemma_window_map_complete(center, radius, scanned, q, store[k]);
    }
    assert forall|q: Seq<u16>| q.len() == center.len() && #[trigger] m.contains_key(tree_point(q))
        implies in_window(center, radius, q) && store.contains_key(morton(q) as u64) by {
        let q2 = choose|q2: Seq<u16>|
            q2.len() == center.len() && in_window(center, radius, q2) && tree_point(q) == tree_point(q2)
                && store.contains_key(morton(q2) as u64) && m[tree_point(q)] == store[morton(q2) as u64];
        lemma_tree_point_injective(q, q2);
    }
}

/// Whether `q` lies inside the window of `radius` around `center`.
pub fn within<const D: usize>(center: &[u16; D], radius: usize, q: &Vec<u16>) -> (r: bool)
    ensures
        r == in_window(center@, radius as nat, q@),
{
    if q.len() != D {
        return false;
    }
    let mut i: usize = 0;
    while i < D
        invariant
            i <= D,
            q@.len() == D,
            center@.len() == D,
            forall|k: int| 0 <= k < i ==> center@[k] - radius <= #[trigger] q@[k] <= center@[k] + radius,
        decreases D - i,
    {
        let c = center[i] as usize;
        let p = q[i] as usize;
        if c > p && c - p > radius {
            return false;
        }
        if p > c && p - c > radius {
            return false;
        }
        i = i + 1;
    }
    true
}

proof fn lemma_key_widths()
    ensures
        two_pow(16) == 0x1_0000nat,
        two_pow(32) == 0x1_0000_0000nat,
        two_pow(48) == 0x1_0000_0000_0000nat,
        two_pow(64) == 0x1_0000_0000_0000_0000nat,
{
    assert(two_pow(16) == 0x1_0000nat) by {
        reveal_with_fuel(two_pow, 17);
    }
    assert(two_pow(32) == 0x1_0000_0000nat) by {
        reveal_with_fuel(two_pow, 33);
    }
    assert(two_pow(48) == 0x1_0000_0000_0000nat) by {
        reveal_with_fuel(two_pow, 49);
    }
    crate::morton::lemma_two_pow_64();
}

/// Whether `key` encodes a coordinate of `dims` axes.
fn key_fits(key: u64, dims: usize) -> (r: bool)
    requires
        codec_dims(dims as nat),
    ensures
        r == key_in_domain(key, dims as nat),
{
    proof {
        lemma_key_widths();
    }
    if dims == 4 {
        true
    } else if dims == 3 {
        key < 0x1_0000_0000_0000
    } else if dims == 2 {
        key < 0x1_0000_0000
    } else {
        key < 0x1_0000
    }
}

/// A codec coordinate as a tree position.
fn to_tree_point(c: &Vec<u16>) -> (r: Vec<i32>)
    ensures
        r@ == tree_point(c@),
{
    let mut r: Vec<i32> = Vec::new();
    let mut i: usize = 0;
    while i < c.len()
        invariant
            i <= c@.len(),
            r@ == tree_point(c@).take(i as int),
        decreases c@.len() - i,
    {
        r.push(c[i] as i32);
        proof {
            assert(r@ =~= tree_point(c@).take(i as int + 1));
        }
        i = i + 1;
    }
    proof {
        assert(r@ =~= tree_point(c@));
    }
    r
}

/// The in-memory side of the index: the partition tree that the last window
/// load built.
pub struct WindowCache<const D: usize, T: QEntity> {
    pub octree: SpaceTree<D, T>,
}

impl<const D: usize, T: QEntity> WindowCache<D, T> {
    pub open spec fn wf(&self) -> bool {
        &&& codec_dims(D as nat)
        &&& self.octree.wf()
    }

    /// An empty cache.
    pub fn new() -> (r: Self)
        requires
            codec_dims(D as nat),
        ensures
            r.wf(),
            r.octree@ == Map::<Seq<i32>, T>::empty(),
    {
        WindowCache { octree: SpaceTree::new() }
    }

    /// Discards the tree and builds a fresh one from the records a scan of
    /// the window's key range returned: each record whose key decodes to a
    /// point inside the window goes in at that point.
    pub fn refresh(&mut self, center: &[u16; D], radius: usize, scanned: Vec<(u64, T)>)
        requires
            old(self).wf(),
        ensures
            final(self).wf(),
            final(self).octree@ == window_map(center@, radius as nat, scanned@),
    {
        let ghost s = scanned@;
        let ghost n = s.len();
        self.octree = SpaceTree::new();
        let mut scanned = scanned;
        let total = scanned.len();
        proof {
            assert(n == total);
            assert(s.subrange(n as int, n as int).len() == 0);
        }
        while scanned.len() > 0
            invariant
                codec_dims(D as nat),
                self.octree.wf(),
                center@.len() == D,
                scanned@ == s.take(scanned@.len() as int),
                scanned@.len() <= n,
                n == s.len(),
                n <= usize::MAX,
                self.octree@ == window_map(center@, radius as nat, s.subrange(scanned@.len() as int, n as int)),
                self.octree@.dom().len() <= n - scanned@.len(),
            decreases scanned@.len(),
        {
            let ghost k0 = scanned@.len() - 1;
            let (key, value) = scanned.pop().unwrap();
            proof {
                assert(s[k0] == (key, value));
                let sub = s.subrange(k0, n as int);
                assert(sub[0] == s[k0]);
                assert(sub.drop_first() =~= s.subrange(k0 + 1, n as int));
                assert(scanned@ =~= s.take(k0));
            }
            if key_fits(key, D) {
                let c = decode(key, D);
                proof {
                    assert(point_of(key, D as nat) == c@);
                }
                if within(center, radius, &c) {
                    let p = to_tree_point(&c);
                    let _ = self.octree.insert(value, p);
                }
            }
        }
        proof {
            assert(s.subrange(0, n as int) =~= s);
        }
    }

    /// The payload the cache holds at `position`.
    pub fn get(&self, position: &[u16; D]) -> (r: Option<&T>)
        requires
            self.wf(),
        ensures
            match r {
                Some(v) => self.octree@.contains_key(tree_point(position@)) && self.octree@[tree_point(position@)] == *v,
                None => !self.octree@.contains_key(tree_point(position@)),
            },
    {
        let p = to_tree_point(&coords_of(position));
        match self.octree.get(&p) {
            Ok(r) => r,
            Err(_) => None,
        }
    }
}

} // verus!
