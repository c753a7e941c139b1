//! A centroid node: a location, the data points assigned to it in one round,
//! and the sum of their distances to the location.
use vstd::prelude::*;
use vstd::arithmetic::div_mod::{lemma_div_by_multiple, lemma_div_is_ordered, lemma_hoist_over_denominator};
use vstd::arithmetic::mul::lemma_mul_inequality;
use crate::location::{valid_coord, UserDataType, MAX_LAT, MAX_LNG};

verus! {

/// The sum of the latitudes of `s`.
pub open spec fn lat_sum<D: UserDataType>(s: Seq<D>) -> int
    decreases s.len(),
{
    if s.len() == 0 {
        0
    } else {
        lat_sum(s.drop_last()) + s.last().coords().0
    }
}

/// The sum of the longitudes of `s`.
pub open spec fn lng_sum<D: UserDataType>(s: Seq<D>) -> int
    decreases s.len(),
{
    if s.len() == 0 {
        0
    } else {
        lng_sum(s.drop_last()) + s.last().coords().1
    }
}

/// The arithmetic mean of the coordinates of a non-empty `s`, each axis
/// rounded down to a whole micro-degree.
pub open spec fn centroid_of<D: UserDataType>(s: Seq<D>) -> (i64, i64) {
    ((lat_sum(s) / s.len() as int) as i64, (lng_sum(s) / s.len() as int) as i64)
}

/// Every point of `s` has a coordinate on the globe.
pub open spec fn all_valid<D: UserDataType>(s: Seq<D>) -> bool {
    forall|i: int| 0 <= i < s.len() ==> valid_coord(#[trigger] s[i].coords())
}

/// The sums of valid coordinates stay within `n` times the largest magnitude.
pub proof fn lemma_sum_bounds<D: UserDataType>(s: Seq<D>)
    requires
        all_valid(s),
    ensures
        -(MAX_LAT * s.len()) <= lat_sum(s) <= MAX_LAT * s.len(),
        -(MAX_LNG * s.len()) <= lng_sum(s) <= MAX_LNG * s.len(),
    decreases s.len(),
{
    if s.len() > 0 {
        let t = s.drop_last();
        assert(valid_coord(s[s.len() - 1].coords()));
        assert forall|i: int| 0 <= i < t.len() implies valid_coord(#[trigger] t[i].coords()) by {
            assert(t[i] == s[i]);
        }
        lemma_sum_bounds(t);
    }
}

/// A mean of values within `[-m, m]` is within `[-m, m]`.
pub proof fn lemma_mean_bounds(total: int, n: int, m: int)
    requires
        n > 0,
        m >= 0,
        -(m * n) <= total <= m * n,
    ensures
        -m <= total / n <= m,
{
    lemma_div_is_ordered(total, m * n, n);
    lemma_div_by_multiple(m, n);
    assert(-m * n == -(m * n)) by (nonlinear_arith);
    lemma_div_is_ordered(-m * n, total, n);
    lemma_hoist_over_denominator(0, -m, n as nat);
    assert(0 + (-m) * n == -m * n);
}

/// `n` times the largest longitude magnitude fits comfortably in an `i128`.
proof fn lemma_scaled_fits(n: int)
    requires
        0 <= n <= usize::MAX,
    ensures
        0 <= MAX_LAT * n <= MAX_LNG * n <= MAX_LNG * usize::MAX,
        MAX_LNG * usize::MAX < 0x1_0000_0000_0000_0000_0000_0000_0000,
{
    lemma_mul_inequality(n, usize::MAX as int, MAX_LNG as int);
    lemma_mul_inequality(MAX_LAT as int, MAX_LNG as int, n);
    lemma_mul_inequality(0, MAX_LAT as int, n);
}

/// Rounds `total / n` down, for a `total` within `n` times `MAX_LNG`.
fn floor_mean(total: i128, n: usize) -> (r: i64)
    requires
        n > 0,
        -(MAX_LNG * n) <= total <= MAX_LNG * n,
    ensures
        r == total as int / n as int,
        -MAX_LNG <= r <= MAX_LNG,
{
    proof {
        lemma_mean_bounds(total as int, n as int, MAX_LNG as int);
        lemma_hoist_over_denominator(total as int, MAX_LNG as int, n as nat);
        lemma_scaled_fits(n as int);
        assert(MAX_LNG * n == n * MAX_LNG) by (nonlinear_arith);
    }
    let offset: i128 = (n as i128) * (MAX_LNG as i128);
    assert(offset == MAX_LNG * n);
    let shifted: u128 = (total + offset) as u128;
    assert(shifted == total + MAX_LNG * n);
    let q: u128 = shifted / (n as u128);
    assert(q == total as int / n as int + MAX_LNG);
    (q as i128 - MAX_LNG as i128) as i64
}

/// A location, the data points assigned to it, and the sum of their
/// distances to it, in thousandths of a mile.
#[derive(Debug)]
pub struct Node<D> {
    pub location: (i64, i64),
    pub children: Vec<D>,
    pub total_distance: u128,
}

impl<D: UserDataType + Copy> Node<D> {
    /// A node at (`lat`, `lng`) holding `children`, with no distance yet.
    pub fn new(lat: i64, lng: i64, children: Vec<D>) -> (r: Self)
        ensures
            r.location == (lat, lng),
            r.children@ == children@,
            r.total_distance == 0,
    {
        Node { location: (lat, lng), children, total_distance: 0 }
    }

    /// Appends a copy of `data_point` to the children; the location stays.
    pub fn push_child(&mut self, data_point: &D)
        ensures
            final(self).children@ == old(self).children@.push(*data_point),
            final(self).location == old(self).location,
            final(self).total_distance == old(self).total_distance,
    {
        self.children.push(*data_point);
    }

    /// Adds `d` to the accumulated distance.
    pub fn accumulate_distance(&mut self, d: u64)
        requires
            old(self).total_distance + d <= u128::MAX,
        ensures
            final(self).total_distance == old(self).total_distance + d,
            final(self).children@ == old(self).children@,
            final(self).location == old(self).location,
    {
        self.total_distance = self.total_distance + d as u128;
    }

    /// The mean of the children's coordinates, or `None` for a node without
    /// children (which then has no centroid to move to).
    pub fn calculate_new_centroid(&self) -> (r: Option<(i64, i64)>)
        requires
            all_valid(self.children@),
        ensures
            self.children@.len() == 0 ==> r.is_none(),
            self.children@.len() > 0 ==> r == Some(centroid_of(self.children@)),
            r matches Some(c) ==> valid_coord(c),
    {
        let n = self.children.len();
        if n == 0 {
            return None;
        }
        let mut sum_lat: i128 = 0;
        let mut sum_lng: i128 = 0;
        let mut i: usize = 0;
        while i < n
            invariant
                n == self.children@.len(),
                all_valid(self.children@),
                i <= n,
                sum_lat == lat_sum(self.children@.take(i as int)),
                sum_lng == lng_sum(self.children@.take(i as int)),
                -(MAX_LAT * i) <= sum_lat <= MAX_LAT * i,
                -(MAX_LNG * i) <= sum_lng <= MAX_LNG * i,
            decreases n - i,
        {
            let c = self.children[i].get_coords();
            proof {
                assert(valid_coord(self.children@[i as int].coords()));
                assert(self.children@.take(i + 1).drop_last() =~= self.children@.take(i as int));
                lemma_scaled_fits(i + 1);
                assert(MAX_LAT * (i + 1) == MAX_LAT * i + MAX_LAT) by (nonlinear_arith);
                assert(MAX_LNG * (i + 1) == MAX_LNG * i + MAX_LNG) by (nonlinear_arith);
            }
            sum_lat = sum_lat + c.0 as i128;
            sum_lng = sum_lng + c.1 as i128;
            i = i + 1;
        }
        proof {
            assert(self.children@.take(n as int) =~= self.children@);
            lemma_sum_bounds(self.children@);
            lemma_mean_bounds(sum_lat as int, n as int, MAX_LAT as int);
        }
        Some((floor_mean(sum_lat, n), floor_mean(sum_lng, n)))
    }

    /// Whether all children sit at one and the same coordinate.
    pub fn has_only_unique_pairs(&self) -> (r: bool)
        ensures
            r == (forall|i: int, j: int|
                0 <= i < self.children@.len() && 0 <= j < self.children@.len()
                    ==> #[trigger] self.children@[i].coords() == #[trigger] self.children@[j].coords()),
    {
        let n = self.children.len();
        if n == 0 {
            return true;
        }
        let first = self.children[0].get_coords();
        let mut i: usize = 1;
        while i < n
            invariant
                n == self.children@.len(),
                1 <= i <= n,
                first == self.children@[0].coords(),
                forall|k: int| 0 <= k < i ==> #[trigger] self.children@[k].coords() == first,
            decreases n - i,
        {
            let c = self.children[i].get_coords();
            if c.0 != first.0 || c.1 != first.1 {
                return false;
            }
            i = i + 1;
        }
        true
    }
}

} // verus!
