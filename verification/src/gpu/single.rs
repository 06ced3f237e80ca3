//! Single-precision numbers by their bits: their order, and boxes of them.
use vstd::prelude::*;

verus! {

use vstd::arithmetic::power2::pow2;

/// An IEEE 754 single-precision number, by its bits.
#[derive(Clone, Copy, Debug, PartialEq, Eq, Structural)]
pub struct Single {
    pub bits: u32,
}

impl Single {
    /// Where the number stands among all numbers; nothing for one that is not a number. Both zeros
    /// stand at zero, and a larger magnitude has larger bits.
    pub open spec fn order(self) -> Option<int> {
        let negative = self.bits >= 0x8000_0000;
        let magnitude = if negative {
            self.bits - 0x8000_0000
        } else {
            self.bits as int
        };
        if magnitude > 0x7f80_0000 {
            None
        } else if negative {
            Some(-magnitude)
        } else {
            Some(magnitude)
        }
    }

    /// `self <= other`; false if either is not a number.
    pub open spec fn at_most(self, other: Single) -> bool {
        match (self.order(), other.order()) {
            (Some(a), Some(b)) => a <= b,
            _ => false,
        }
    }

    /// Zero.
    pub fn zero() -> (n: Single)
        ensures
            n.bits == 0,
            n.order() == Some(0int),
    {
        Single { bits: 0 }
    }

    /// One.
    pub fn one() -> (n: Single)
        ensures
            n.bits == 0x3f80_0000,
            n.order() == Some(0x3f80_0000int),
    {
        Single { bits: 0x3f80_0000 }
    }

    fn place(self) -> (place: Option<i64>)
        ensures
            match place {
                Some(p) => self.order() == Some(p as int),
                None => self.order() is None,
            },
    {
        let negative: bool = self.bits >= 0x8000_0000;
        let magnitude: u32 = if negative {
            self.bits - 0x8000_0000
        } else {
            self.bits
        };
        if magnitude > 0x7f80_0000 {
            None
        } else if negative {
            Some(-(magnitude as i64))
        } else {
            Some(magnitude as i64)
        }
    }

    /// `self <= other`; false if either is not a number.
    pub fn le(self, other: Single) -> (r: bool)
        ensures
            r == self.at_most(other),
    {
        match (self.place(), other.place()) {
            (Some(a), Some(b)) => a <= b,
            _ => false,
        }
    }

    /// The lesser of two numbers; the other one if one is not a number.
    pub fn lesser(self, other: Single) -> (r: Single)
        ensures
            r == if self.at_most(other) || other.order() is None {
                self
            } else {
                other
            },
    {
        match (self.place(), other.place()) {
            (Some(a), Some(b)) => if a <= b {
                self
            } else {
                other
            },
            (_, None) => self,
            _ => other,
        }
    }

    /// The greater of two numbers; the other one if one is not a number.
    pub fn greater(self, other: Single) -> (r: Single)
        ensures
            r == if other.at_most(self) || other.order() is None {
                self
            } else {
                other
            },
    {
        match (self.place(), other.place()) {
            (Some(a), Some(b)) => if b <= a {
                self
            } else {
                other
            },
            (_, None) => self,
            _ => other,
        }
    }
}

/// A box with faces along the axes.
#[derive(Clone, Copy, Debug)]
pub struct Aabb {
    pub min: [Single; 3],
    pub max: [Single; 3],
}

/// The extents along axis `i` touch.
pub open spec fn overlaps(a: Aabb, b: Aabb, i: int) -> bool {
    a.min@[i].at_most(b.max@[i]) && b.min@[i].at_most(a.max@[i])
}

/// The boxes touch, faces included.
pub open spec fn intersects(a: Aabb, b: Aabb) -> bool {
    forall|i: int| 0 <= i < 3 ==> #[trigger] overlaps(a, b, i)
}

/// Some observer touches the box.
pub open spec fn any_intersects(region: Aabb, observers: Seq<Aabb>) -> bool {
    exists|k: int| 0 <= k < observers.len() && intersects(region, #[trigger] observers[k])
}

/// Closed-interval box intersection: touching faces count.
pub fn aabb_intersect(a: &Aabb, b: &Aabb) -> (r: bool)
    ensures
        r == intersects(*a, *b),
{
    let mut i: usize = 0;
    while i < 3
        invariant
            i <= 3,
            forall|k: int| 0 <= k < i ==> #[trigger] overlaps(*a, *b, k),
        decreases 3 - i,
    {
        if !a.min[i].le(b.max[i]) || !b.min[i].le(a.max[i]) {
            assert(!overlaps(*a, *b, i as int));
            return false;
        }
        i = i + 1;
    }
    true
}

/// Whether some observer touches the box.
pub fn any_intersect(region: &Aabb, observers: &Vec<Aabb>) -> (r: bool)
    ensures
        r == any_intersects(*region, observers@),
{
    let mut k: usize = 0;
    while k < observers.len()
        invariant
            k <= observers@.len(),
            forall|j: int| 0 <= j < k ==> !intersects(*region, #[trigger] observers@[j]),
        decreases observers@.len() - k,
    {
        if aabb_intersect(region, &observers[k]) {
            assert(intersects(*region, observers@[k as int]));
            return true;
        }
        k = k + 1;
    }
    false
}

/// The extent of `outer` along axis `i` holds that of `inner`.
pub open spec fn holds_axis(outer: Aabb, inner: Aabb, i: int) -> bool {
    outer.min@[i].at_most(inner.min@[i]) && inner.max@[i].at_most(outer.max@[i])
}

/// `outer` holds all of `inner`.
pub open spec fn contains_box(outer: Aabb, inner: Aabb) -> bool {
    forall|i: int| 0 <= i < 3 ==> #[trigger] holds_axis(outer, inner, i)
}

/// Whatever touches a box touches every box that holds it.
pub proof fn law_larger_box_is_touched_too(outer: Aabb, inner: Aabb, observers: Seq<Aabb>)
    requires
        contains_box(outer, inner),
        any_intersects(inner, observers),
    ensures
        any_intersects(outer, observers),
{
    let k = choose|k: int| 0 <= k < observers.len() && intersects(inner, #[trigger] observers[k]);
    let o = observers[k];
    assert forall|i: int| 0 <= i < 3 implies #[trigger] overlaps(outer, o, i) by {
        assert(overlaps(inner, o, i));
        assert(holds_axis(outer, inner, i));
    }
    assert(intersects(outer, o));
}

/// 2^149 times the magnitude that a finite number's bits without the sign spell: 23 bits of fraction
/// below 8 bits of exponent.
pub open spec fn scaled_magnitude(magnitude: int) -> int {
    let exponent = magnitude / 0x80_0000;
    let fraction = magnitude % 0x80_0000;
    if exponent == 0 {
        fraction
    } else {
        (fraction + 0x80_0000) * pow2((exponent - 1) as nat)
    }
}

/// 2^149 times a finite number.
pub open spec fn scaled(n: Single) -> int {
    if n.bits >= 0x8000_0000 {
        -scaled_magnitude(n.bits - 0x8000_0000)
    } else {
        scaled_magnitude(n.bits as int)
    }
}

/// Neither infinite nor other than a number: the exponent is not all ones.
pub open spec fn is_finite(n: Single) -> bool {
    n.bits / 0x80_0000 % 256 != 255
}

proof fn lemma_scaled_range(magnitude: int)
    requires
        0 <= magnitude,
    ensures
        ({
            let exponent = magnitude / 0x80_0000;
            &&& 0 <= scaled_magnitude(magnitude) < 0x80_0000 * pow2(exponent as nat)
            &&& exponent > 0 ==> 0x80_0000 * pow2((exponent - 1) as nat) <= scaled_magnitude(
                magnitude,
            )
        }),
{
    let exponent = magnitude / 0x80_0000;
    let fraction = magnitude % 0x80_0000;
    vstd::arithmetic::power2::lemma_pow2_pos(exponent as nat);
    if exponent > 0 {
        let p = pow2((exponent - 1) as nat);
        vstd::arithmetic::power2::lemma_pow2_pos((exponent - 1) as nat);
        vstd::arithmetic::power2::lemma_pow2_unfold(exponent as nat);
        assert(0x80_0000 * p <= (fraction + 0x80_0000) * p < 0x80_0000 * (2 * p)) by (nonlinear_arith)
            requires
                0 <= fraction < 0x80_0000,
                p > 0,
        ;
    } else {
        vstd::arithmetic::power2::lemma2_to64();
    }
}

proof fn lemma_scaled_increases(a: int, b: int)
    requires
        0 <= a < b,
    ensures
        scaled_magnitude(a) < scaled_magnitude(b),
{
    let ea = a / 0x80_0000;
    let eb = b / 0x80_0000;
    lemma_scaled_range(a);
    lemma_scaled_range(b);
    if ea < eb {
        if ea < eb - 1 {
            vstd::arithmetic::power2::lemma_pow2_strictly_increases(ea as nat, (eb - 1) as nat);
        }
    } else if ea > 0 {
        let p = pow2((ea - 1) as nat);
        let fa = a % 0x80_0000;
        let fb = b % 0x80_0000;
        vstd::arithmetic::power2::lemma_pow2_pos((ea - 1) as nat);
        assert(fa < fb);
        assert((fa + 0x80_0000) * p < (fb + 0x80_0000) * p) by (nonlinear_arith)
            requires
                fa < fb,
                p > 0,
        ;
    }
}

/// Finite numbers are compared by what they are worth. An infinite one lies beyond all finite ones,
/// on the side of its sign, and what is not a number is at most nothing and nothing is at most it.
pub proof fn law_order_is_numeric(a: Single, b: Single)
    ensures
        is_finite(a) && is_finite(b) ==> (a.at_most(b) <==> scaled(a) <= scaled(b)),
        is_finite(a) && b.bits == 0x7f80_0000 ==> a.at_most(b) && !b.at_most(a),
        is_finite(a) && b.bits == 0xff80_0000 ==> b.at_most(a) && !a.at_most(b),
        a.bits == 0xff80_0000 && b.bits == 0x7f80_0000 ==> a.at_most(b) && !b.at_most(a),
        !is_finite(a) && a.bits == b.bits ==> (a.at_most(b) <==> a.bits % 0x80_0000 == 0),
        !is_finite(a) && a.bits % 0x80_0000 != 0 ==> !a.at_most(b) && !b.at_most(a),
        a.order() is Some <==> is_finite(a) || a.bits % 0x80_0000 == 0,
        a.order() is Some && b.order() is Some ==> (a.at_most(b) <==> a.order()->0 <= b.order()->0),
{
    let ma = if a.bits >= 0x8000_0000 {
        a.bits - 0x8000_0000
    } else {
        a.bits as int
    };
    let mb = if b.bits >= 0x8000_0000 {
        b.bits - 0x8000_0000
    } else {
        b.bits as int
    };
    lemma_scaled_range(ma);
    lemma_scaled_range(mb);
    lemma_scaled_range(0);
    if ma < mb {
        lemma_scaled_increases(ma, mb);
    } else if mb < ma {
        lemma_scaled_increases(mb, ma);
    }
    if ma > 0 {
        lemma_scaled_increases(0, ma);
    }
    if mb > 0 {
        lemma_scaled_increases(0, mb);
    }
}

/// The point at `x`, `y` and `z`, each by its place among the numbers, lies in the box, faces
/// included.
pub open spec fn holds_point(region: Aabb, x: int, y: int, z: int) -> bool {
    let min = region.min@;
    let max = region.max@;
    &&& min[0].order() is Some && min[1].order() is Some && min[2].order() is Some
    &&& max[0].order() is Some && max[1].order() is Some && max[2].order() is Some
    &&& min[0].order()->0 <= x <= max[0].order()->0
    &&& min[1].order()->0 <= y <= max[1].order()->0
    &&& min[2].order()->0 <= z <= max[2].order()->0
}

/// Two boxes that have points touch if and only if some point lies in both.
pub proof fn law_touching_boxes_share_a_point(a: Aabb, b: Aabb)
    requires
        exists|x: int, y: int, z: int| holds_point(a, x, y, z),
        exists|x: int, y: int, z: int| holds_point(b, x, y, z),
    ensures
        intersects(a, b) <==> exists|x: int, y: int, z: int| #[trigger]
            holds_point(a, x, y, z) && holds_point(b, x, y, z),
        intersects(a, b) <==> intersects(b, a),
{
    let (ax, ay, az) = choose|x: int, y: int, z: int| holds_point(a, x, y, z);
    let (bx, by, bz) = choose|x: int, y: int, z: int| holds_point(b, x, y, z);
    assert(holds_point(a, ax, ay, az) && holds_point(b, bx, by, bz));
    let low = |i: int|
        if a.min@[i].order()->0 <= b.min@[i].order()->0 {
            b.min@[i].order()->0
        } else {
            a.min@[i].order()->0
        };
    if intersects(a, b) {
        assert(overlaps(a, b, 0) && overlaps(a, b, 1) && overlaps(a, b, 2));
        assert(holds_point(a, low(0), low(1), low(2)) && holds_point(b, low(0), low(1), low(2)));
        assert forall|i: int| 0 <= i < 3 implies #[trigger] overlaps(b, a, i) by {
            assert(overlaps(a, b, i));
        }
    }
    if intersects(b, a) {
        assert forall|i: int| 0 <= i < 3 implies #[trigger] overlaps(a, b, i) by {
            assert(overlaps(b, a, i));
        }
    }
    if exists|x: int, y: int, z: int| #[trigger]
        holds_point(a, x, y, z) && holds_point(b, x, y, z) {
        let (x, y, z) = choose|x: int, y: int, z: int| #[trigger]
            holds_point(a, x, y, z) && holds_point(b, x, y, z);
        assert forall|i: int| 0 <= i < 3 implies #[trigger] overlaps(a, b, i) by {
            if i == 0 {
            } else if i == 1 {
            } else {
                assert(i == 2);
            }
        }
    }
}

/// A box with a corner that is not a number touches nothing.
pub proof fn law_boxes_without_numbers_touch_nothing(a: Aabb, b: Aabb, i: int)
    requires
        0 <= i < 3,
        a.min@[i].order() is None || a.max@[i].order() is None,
    ensures
        !intersects(a, b),
        !intersects(b, a),
{
    assert(!overlaps(a, b, i));
    assert(!overlaps(b, a, i));
}

/// The box is touched by the observers of two lists together if and only if those of one touch it;
/// by one observer, if and only if the two boxes touch; by none, not at all.
pub proof fn law_observers_are_tested_one_by_one(
    region: Aabb,
    a: Seq<Aabb>,
    b: Seq<Aabb>,
    observer: Aabb,
)
    ensures
        any_intersects(region, a + b) <==> any_intersects(region, a) || any_intersects(region, b),
        any_intersects(region, seq![observer]) <==> intersects(region, observer),
        !any_intersects(region, seq![]),
{
    let all = a + b;
    if any_intersects(region, all) {
        let k = choose|k: int| 0 <= k < all.len() && intersects(region, #[trigger] all[k]);
        if k < a.len() {
            assert(intersects(region, a[k]));
        } else {
            assert(intersects(region, b[k - a.len()]));
        }
    }
    if any_intersects(region, a) {
        let k = choose|k: int| 0 <= k < a.len() && intersects(region, #[trigger] a[k]);
        assert(intersects(region, all[k]));
    }
    if any_intersects(region, b) {
        let k = choose|k: int| 0 <= k < b.len() && intersects(region, #[trigger] b[k]);
        assert(intersects(region, all[k + a.len()]));
    }
    if intersects(region, observer) {
        assert(intersects(region, seq![observer][0]));
    }
}

} // verus!
