//! The partition of one round: a node per centroid, every data point
//! assigned to its nearest node.
use vstd::prelude::*;
use crate::distance::{haversine, haversine_spec, Units, MAX_DISTANCE};
use crate::location::{valid_coord, UserDataType, MAX_LAT, MAX_LNG};
use crate::random::rand_between;
use crate::{is_bounding_box, min_max};
use crate::nodes::{all_valid, centroid_of, Node};

verus! {

/// The distance used for assignment, in thousandths of a mile.
pub open spec fn dist(a: (i64, i64), b: (i64, i64)) -> int {
    haversine_spec(a, b, Units::Miles)
}

/// Every location of `locs` lies on the globe.
pub open spec fn all_valid_locs(locs: Seq<(i64, i64)>) -> bool {
    forall|i: int| 0 <= i < locs.len() ==> valid_coord(#[trigger] locs[i])
}

/// The index, among the first `n` of `locs`, nearest to `p`; on a tie the
/// lowest index wins.
pub open spec fn nearest_upto(locs: Seq<(i64, i64)>, p: (i64, i64), n: int) -> int
    decreases n,
{
    if n <= 1 {
        0
    } else {
        let b = nearest_upto(locs, p, n - 1);
        if dist(locs[n - 1], p) < dist(locs[b], p) {
            n - 1
        } else {
            b
        }
    }
}

/// The index of the location of `locs` nearest to `p`, lowest on a tie.
pub open spec fn nearest(locs: Seq<(i64, i64)>, p: (i64, i64)) -> int {
    nearest_upto(locs, p, locs.len() as int)
}

/// The points of `points` whose nearest location is the one at index `j`,
/// in their order.
pub open spec fn members<D: UserDataType>(points: Seq<D>, locs: Seq<(i64, i64)>, j: int) -> Seq<D>
    decreases points.len(),
{
    if points.len() == 0 {
        Seq::empty()
    } else {
        let rest = members(points.drop_last(), locs, j);
        if nearest(locs, points.last().coords()) == j {
            rest.push(points.last())
        } else {
            rest
        }
    }
}

/// The sum of the distances from the location at index `j` to its members.
pub open spec fn member_distance<D: UserDataType>(
    points: Seq<D>,
    locs: Seq<(i64, i64)>,
    j: int,
) -> int
    decreases points.len(),
{
    if points.len() == 0 {
        0
    } else {
        let rest = member_distance(points.drop_last(), locs, j);
        if nearest(locs, points.last().coords()) == j {
            rest + dist(locs[j], points.last().coords())
        } else {
            rest
        }
    }
}

/// The locations of a sequence of nodes.
pub open spec fn locations<D>(nodes: Seq<Node<D>>) -> Seq<(i64, i64)> {
    nodes.map_values(|n: Node<D>| n.location)
}

/// `nodes` is the partition of `points` over the locations `locs`: a node
/// per location, in order, holding exactly the points nearest to it and the
/// sum of their distances.
pub open spec fn is_partition<D: UserDataType>(
    nodes: Seq<Node<D>>,
    locs: Seq<(i64, i64)>,
    points: Seq<D>,
) -> bool {
    &&& nodes.len() == locs.len()
    &&& forall|j: int|
        0 <= j < nodes.len() ==> {
            &&& (#[trigger] nodes[j]).location == locs[j]
            &&& nodes[j].children@ == members(points, locs, j)
            &&& nodes[j].total_distance == member_distance(points, locs, j)
        }
}

/// The distance of each member to its node is at most `MAX_DISTANCE`.
pub proof fn lemma_member_distance_bound<D: UserDataType>(
    points: Seq<D>,
    locs: Seq<(i64, i64)>,
    j: int,
)
    requires
        all_valid(points),
        all_valid_locs(locs),
        0 <= j < locs.len(),
    ensures
        0 <= member_distance(points, locs, j) <= points.len() * MAX_DISTANCE,
    decreases points.len(),
{
    if points.len() > 0 {
        let t = points.drop_last();
        assert forall|i: int| 0 <= i < t.len() implies valid_coord(#[trigger] t[i].coords()) by {
            assert(t[i] == points[i]);
        }
        lemma_member_distance_bound(t, locs, j);
        assert(valid_coord(points[points.len() - 1].coords()));
        crate::distance::lemma_haversine_bound(locs[j], points.last().coords(), Units::Miles);
        assert((t.len() + 1) * MAX_DISTANCE == t.len() * MAX_DISTANCE + MAX_DISTANCE)
            by (nonlinear_arith);
    }
}

/// The nearest index lies among the locations.
pub proof fn lemma_nearest_in_range(locs: Seq<(i64, i64)>, p: (i64, i64), n: int)
    requires
        1 <= n,
    ensures
        0 <= nearest_upto(locs, p, n) < n,
    decreases n,
{
    if n > 1 {
        lemma_nearest_in_range(locs, p, n - 1);
    }
}

/// The number of members of the first `m` locations.
pub open spec fn partition_count<D: UserDataType>(
    points: Seq<D>,
    locs: Seq<(i64, i64)>,
    m: int,
) -> int
    decreases m,
{
    if m <= 0 {
        0
    } else {
        partition_count(points, locs, m - 1) + members(points, locs, m - 1).len()
    }
}

/// The summed member distances of the first `m` locations.
pub open spec fn partition_distance<D: UserDataType>(
    points: Seq<D>,
    locs: Seq<(i64, i64)>,
    m: int,
) -> int
    decreases m,
{
    if m <= 0 {
        0
    } else {
        partition_distance(points, locs, m - 1) + member_distance(points, locs, m - 1)
    }
}

/// The sum, over all points, of the distance to the nearest location.
pub open spec fn nearest_total<D: UserDataType>(points: Seq<D>, locs: Seq<(i64, i64)>) -> int
    decreases points.len(),
{
    if points.len() == 0 {
        0
    } else {
        let p = points.last().coords();
        nearest_total(points.drop_last(), locs) + dist(locs[nearest(locs, p)], p)
    }
}

proof fn lemma_partition_step<D: UserDataType>(points: Seq<D>, locs: Seq<(i64, i64)>, m: int)
    requires
        points.len() > 0,
        0 <= m,
    ensures
        ({
            let t = points.drop_last();
            let p = points.last().coords();
            let hit = 0 <= nearest(locs, p) < m;
            &&& partition_count(points, locs, m) == partition_count(t, locs, m) + if hit {
                1int
            } else {
                0int
            }
            &&& partition_distance(points, locs, m) == partition_distance(t, locs, m) + if hit {
                dist(locs[nearest(locs, p)], p)
            } else {
                0int
            }
        }),
    decreases m,
{
    if m > 0 {
        lemma_partition_step(points, locs, m - 1);
    }
}

proof fn lemma_partition_empty<D: UserDataType>(points: Seq<D>, locs: Seq<(i64, i64)>, m: int)
    requires
        points.len() == 0,
    ensures
        partition_count(points, locs, m) == 0,
        partition_distance(points, locs, m) == 0,
    decreases m,
{
    if m > 0 {
        lemma_partition_empty(points, locs, m - 1);
    }
}

/// Every point is assigned to exactly one node: the member counts of all
/// nodes add up to the number of points, and the member distances of all
/// nodes add up to the distance of each point to its nearest location.
pub proof fn lemma_partition_complete<D: UserDataType>(points: Seq<D>, locs: Seq<(i64, i64)>)
    requires
        locs.len() > 0,
    ensures
        partition_count(points, locs, locs.len() as int) == points.len(),
        partition_distance(points, locs, locs.len() as int) == nearest_total(points, locs),
    decreases points.len(),
{
    if points.len() == 0 {
        lemma_partition_empty(points, locs, locs.len() as int);
    } else {
        lemma_partition_complete(points.drop_last(), locs);
        lemma_partition_step(points, locs, locs.len() as int);
        lemma_nearest_in_range(locs, points.last().coords(), locs.len() as int);
    }
}

/// Each point's distance to its nearest location is at most `MAX_DISTANCE`.
pub proof fn lemma_nearest_total_bound<D: UserDataType>(points: Seq<D>, locs: Seq<(i64, i64)>)
    ensures
        0 <= nearest_total(points, locs) <= points.len() * MAX_DISTANCE,
    decreases points.len(),
{
    if points.len() > 0 {
        let t = points.drop_last();
        let p = points.last().coords();
        lemma_nearest_total_bound(t, locs);
        crate::distance::lemma_haversine_bound(locs[nearest(locs, p)], p, Units::Miles);
        assert((t.len() + 1) * MAX_DISTANCE == t.len() * MAX_DISTANCE + MAX_DISTANCE)
            by (nonlinear_arith);
    }
}

/// The members of a node are among the points, so they are valid too.
pub proof fn lemma_members_valid<D: UserDataType>(points: Seq<D>, locs: Seq<(i64, i64)>, j: int)
    requires
        all_valid(points),
    ensures
        all_valid(members(points, locs, j)),
    decreases points.len(),
{
    if points.len() > 0 {
        let t = points.drop_last();
        assert forall|i: int| 0 <= i < t.len() implies valid_coord(#[trigger] t[i].coords()) by {
            assert(t[i] == points[i]);
        }
        lemma_members_valid(t, locs, j);
        assert(valid_coord(points[points.len() - 1].coords()));
    }
}

/// The sum of the nodes' accumulated distances.
pub open spec fn total_of<D>(nodes: Seq<Node<D>>) -> int
    decreases nodes.len(),
{
    if nodes.len() == 0 {
        0
    } else {
        total_of(nodes.drop_last()) + nodes.last().total_distance
    }
}

/// The number of children of all nodes together.
pub open spec fn children_count<D>(nodes: Seq<Node<D>>) -> int
    decreases nodes.len(),
{
    if nodes.len() == 0 {
        0
    } else {
        children_count(nodes.drop_last()) + nodes.last().children@.len()
    }
}

proof fn lemma_partition_sums<D: UserDataType>(
    nodes: Seq<Node<D>>,
    locs: Seq<(i64, i64)>,
    points: Seq<D>,
    m: int,
)
    requires
        is_partition(nodes, locs, points),
        0 <= m <= nodes.len(),
    ensures
        total_of(nodes.take(m)) == partition_distance(points, locs, m),
        children_count(nodes.take(m)) == partition_count(points, locs, m),
    decreases m,
{
    if m > 0 {
        lemma_partition_sums(nodes, locs, points, m - 1);
        assert(nodes.take(m).drop_last() =~= nodes.take(m - 1));
        assert(nodes.take(m).last() == nodes[m - 1]);
    } else {
        assert(nodes.take(0) =~= Seq::<Node<D>>::empty());
    }
}

/// Partial sums of the accumulated distances never exceed the whole sum.
proof fn lemma_total_prefix<D>(nodes: Seq<Node<D>>, j: int, m: int)
    requires
        0 <= j <= m <= nodes.len(),
    ensures
        0 <= total_of(nodes.take(j)) <= total_of(nodes.take(m)),
    decreases m,
{
    if m > 0 {
        assert(nodes.take(m).drop_last() =~= nodes.take(m - 1));
        if j < m {
            lemma_total_prefix(nodes, j, m - 1);
        } else {
            lemma_total_prefix(nodes, m - 1, m - 1);
        }
    } else {
        assert(nodes.take(0) =~= Seq::<Node<D>>::empty());
    }
}

/// In a partition of `points` every point is a child of exactly one node:
/// the children of all nodes number as many as the points, and their
/// accumulated distances add up to each point's distance to its nearest
/// location.
pub proof fn lemma_cluster_complete<D: UserDataType>(
    nodes: Seq<Node<D>>,
    locs: Seq<(i64, i64)>,
    points: Seq<D>,
)
    requires
        locs.len() > 0,
        is_partition(nodes, locs, points),
    ensures
        children_count(nodes) == points.len(),
        total_of(nodes) == nearest_total(points, locs),
{
    lemma_partition_sums(nodes, locs, points, nodes.len() as int);
    assert(nodes.take(nodes.len() as int) =~= nodes);
    lemma_partition_complete(points, locs);
}

/// The centroids of the nodes that have children, in node order.
pub open spec fn recomputed<D: UserDataType>(nodes: Seq<Node<D>>) -> Seq<(i64, i64)>
    decreases nodes.len(),
{
    if nodes.len() == 0 {
        Seq::empty()
    } else {
        let rest = recomputed(nodes.drop_last());
        let members = nodes.last().children@;
        if members.len() > 0 {
            rest.push(centroid_of(members))
        } else {
            rest
        }
    }
}

/// The centroids of the non-empty nodes among the first `m` of the partition
/// of `points` over `locs`, in node order.
pub open spec fn next_locs_upto<D: UserDataType>(
    points: Seq<D>,
    locs: Seq<(i64, i64)>,
    m: int,
) -> Seq<(i64, i64)>
    decreases m,
{
    if m <= 0 {
        Seq::empty()
    } else {
        let rest = next_locs_upto(points, locs, m - 1);
        let mem = members(points, locs, m - 1);
        if mem.len() > 0 {
            rest.push(centroid_of(mem))
        } else {
            rest
        }
    }
}

/// One Lloyd step: the centroids of the non-empty nodes of the partition of
/// `points` over `locs`.
pub open spec fn next_locs<D: UserDataType>(points: Seq<D>, locs: Seq<(i64, i64)>) -> Seq<(i64, i64)> {
    next_locs_upto(points, locs, locs.len() as int)
}

/// `n` Lloyd steps from `locs`.
pub open spec fn lloyd<D: UserDataType>(points: Seq<D>, locs: Seq<(i64, i64)>, n: nat) -> Seq<(i64, i64)>
    decreases n,
{
    if n == 0 {
        locs
    } else {
        lloyd(points, next_locs(points, locs), (n - 1) as nat)
    }
}

/// None of the first `n` Lloyd steps from `locs` leaves a node empty.
pub open spec fn no_empty_rounds<D: UserDataType>(points: Seq<D>, locs: Seq<(i64, i64)>, n: nat) -> bool
    decreases n,
{
    n == 0 || (next_locs(points, locs).len() == locs.len() && no_empty_rounds(
        points,
        next_locs(points, locs),
        (n - 1) as nat,
    ))
}

/// A step more of Lloyd's iteration is a step from where `n` steps led.
pub proof fn lemma_lloyd_step<D: UserDataType>(points: Seq<D>, locs: Seq<(i64, i64)>, n: nat)
    ensures
        lloyd(points, locs, n + 1) == next_locs(points, lloyd(points, locs, n)),
        no_empty_rounds(points, locs, n + 1) ==> no_empty_rounds(points, locs, n) && next_locs(
            points,
            lloyd(points, locs, n),
        ).len() == lloyd(points, locs, n).len(),
    decreases n,
{
    let next = next_locs(points, locs);
    assert(lloyd(points, locs, n + 1) == lloyd(points, next, n));
    if n > 0 {
        lemma_lloyd_step(points, next, (n - 1) as nat);
        assert(((n - 1) as nat + 1) as nat == n);
        assert(lloyd(points, locs, n) == lloyd(points, next, (n - 1) as nat));
    }
}

pub(crate) proof fn lemma_recomputed_is_next<D: UserDataType>(
    nodes: Seq<Node<D>>,
    locs: Seq<(i64, i64)>,
    points: Seq<D>,
    m: int,
)
    requires
        is_partition(nodes, locs, points),
        0 <= m <= nodes.len(),
    ensures
        recomputed(nodes.take(m)) == next_locs_upto(points, locs, m),
    decreases m,
{
    if m > 0 {
        lemma_recomputed_is_next(nodes, locs, points, m - 1);
        assert(nodes.take(m).drop_last() =~= nodes.take(m - 1));
        assert(nodes.take(m).last() == nodes[m - 1]);
    } else {
        assert(nodes.take(0) =~= Seq::<Node<D>>::empty());
    }
}

/// `c` lies within the bounding box of the non-empty `s`.
pub open spec fn within_box_of(s: Seq<(i64, i64)>, c: (i64, i64)) -> bool {
    &&& exists|a: int| 0 <= a < s.len() && (#[trigger] s[a]).0 <= c.0
    &&& exists|a: int| 0 <= a < s.len() && c.0 <= (#[trigger] s[a]).0
    &&& exists|a: int| 0 <= a < s.len() && (#[trigger] s[a]).1 <= c.1
    &&& exists|a: int| 0 <= a < s.len() && c.1 <= (#[trigger] s[a]).1
}

/// Appends random coordinates to `out` until it holds `k`: within the box
/// `b` where one is given, else anywhere on the globe.
fn fill_random(
    out: &mut Vec<(i64, i64)>,
    k: usize,
    b: Option<((i64, i64), (i64, i64))>,
    rng: &mut fastrand::Rng,
)
    requires
        old(out)@.len() <= k,
        b matches Some(bb) ==> bb.0.0 <= bb.0.1 && bb.1.0 <= bb.1.1,
    ensures
        final(out)@.len() == k,
        final(out)@.take(old(out)@.len() as int) == old(out)@,
        forall|i: int|
            old(out)@.len() <= i < k ==> match b {
                Some(bb) => bb.0.0 <= (#[trigger] final(out)@[i]).0 <= bb.0.1 && bb.1.0
                    <= final(out)@[i].1 <= bb.1.1,
                None => valid_coord(final(out)@[i]),
            },
{
    let ghost start = out@;
    while out.len() < k
        invariant
            start.len() <= out@.len() <= k,
            out@.take(start.len() as int) == start,
            b matches Some(bb) ==> bb.0.0 <= bb.0.1 && bb.1.0 <= bb.1.1,
            forall|i: int|
                start.len() <= i < out@.len() ==> match b {
                    Some(bb) => bb.0.0 <= (#[trigger] out@[i]).0 <= bb.0.1 && bb.1.0 <= out@[i].1
                        <= bb.1.1,
                    None => valid_coord(out@[i]),
                },
        decreases k - out@.len(),
    {
        let c = match b {
            Some(((lat_min, lat_max), (lng_min, lng_max))) => (
                rand_between(rng, lat_min, lat_max),
                rand_between(rng, lng_min, lng_max),
            ),
            None => (rand_between(rng, -MAX_LAT, MAX_LAT), rand_between(rng, -MAX_LNG, MAX_LNG)),
        };
        let ghost before = out@;
        out.push(c);
        proof {
            assert(out@.take(start.len() as int) =~= before.take(start.len() as int));
        }
    }
}

/// A box reached by coordinates of `s` that lie on the globe lies on the
/// globe, and so does every coordinate inside it.
proof fn lemma_box_valid(s: Seq<(i64, i64)>, b: ((i64, i64), (i64, i64)), c: (i64, i64))
    requires
        all_valid_locs(s),
        is_bounding_box(s, b),
        b.0.0 <= c.0 <= b.0.1,
        b.1.0 <= c.1 <= b.1.1,
    ensures
        valid_coord(c),
        within_box_of(s, c),
{
    let a0 = choose|i: int| 0 <= i < s.len() && (#[trigger] s[i]).0 == b.0.0;
    let a1 = choose|i: int| 0 <= i < s.len() && (#[trigger] s[i]).0 == b.0.1;
    let a2 = choose|i: int| 0 <= i < s.len() && (#[trigger] s[i]).1 == b.1.0;
    let a3 = choose|i: int| 0 <= i < s.len() && (#[trigger] s[i]).1 == b.1.1;
    assert(valid_coord(s[a0]) && valid_coord(s[a1]) && valid_coord(s[a2]) && valid_coord(s[a3]));
}

/// The index of the node nearest to `p` and its distance; on a tie the lowest
/// index wins.
fn closest_node<D: UserDataType + Copy>(nodes: &Vec<Node<D>>, p: (i64, i64)) -> (r: (usize, u64))
    requires
        nodes@.len() > 0,
        all_valid_locs(locations(nodes@)),
        valid_coord(p),
    ensures
        r.0 == nearest(locations(nodes@), p),
        r.0 < nodes@.len(),
        r.1 == dist(nodes@[r.0 as int].location, p),
{
    let ghost locs = locations(nodes@);
    let mut min_loc: (usize, u64) = (0, u64::MAX);
    let mut k: usize = 0;
    while k < nodes.len()
        invariant
            locs == locations(nodes@),
            all_valid_locs(locs),
            valid_coord(p),
            0 <= k <= nodes@.len(),
            k == 0 ==> min_loc.1 == u64::MAX,
            k > 0 ==> min_loc.0 == nearest_upto(locs, p, k as int) && min_loc.0 < k
                && min_loc.1 == dist(locs[min_loc.0 as int], p),
        decreases nodes@.len() - k,
    {
        assert(valid_coord(locs[k as int]));
        let d = haversine(&nodes[k].location, &p, Units::Miles);
        if d < min_loc.1 {
            min_loc = (k, d);
        }
        k = k + 1;
    }
    min_loc
}

/// A partition: one node per centroid.
#[derive(Debug)]
pub struct Cluster<D> {
    pub nodes: Vec<Node<D>>,
}

impl<D: UserDataType + Copy> Cluster<D> {
    /// The locations of the nodes, in order.
    pub open spec fn locs(&self) -> Seq<(i64, i64)> {
        locations(self.nodes@)
    }

    /// The nodes are the partition of `points` over their own locations.
    pub open spec fn partitions(&self, points: Seq<D>) -> bool {
        is_partition(self.nodes@, self.locs(), points)
    }

    /// Places a node at each centroid, in order, then assigns every data point
    /// to its nearest node, adding the distance to that node's total.
    pub fn with_centroids(data_points: &[D], centroids: &[(i64, i64)]) -> (r: Self)
        requires
            centroids@.len() > 0,
            all_valid_locs(centroids@),
            all_valid(data_points@),
        ensures
            r.locs() == centroids@,
            r.partitions(data_points@),
    {
        let mut nodes: Vec<Node<D>> = Vec::new();
        let mut c: usize = 0;
        while c < centroids.len()
            invariant
                0 <= c <= centroids@.len(),
                nodes@.len() == c,
                forall|j: int|
                    0 <= j < c ==> {
                        &&& (#[trigger] nodes@[j]).location == centroids@[j]
                        &&& nodes@[j].children@ == Seq::<D>::empty()
                        &&& nodes@[j].total_distance == 0
                    },
            decreases centroids@.len() - c,
        {
            nodes.push(Node::new(centroids[c].0, centroids[c].1, Vec::new()));
            c = c + 1;
        }
        let ghost locs = centroids@;
        assert(locations(nodes@) =~= locs);
        let ghost points = data_points@;
        let mut i: usize = 0;
        while i < data_points.len()
            invariant
                points == data_points@,
                all_valid(points),
                all_valid_locs(locs),
                locs.len() > 0,
                0 <= i <= points.len(),
                locations(nodes@) == locs,
                is_partition(nodes@, locs, points.take(i as int)),
            decreases points.len() - i,
        {
            let data_point = &data_points[i];
            let coords = data_point.get_coords();
            assert(valid_coord(points[i as int].coords()));
            let (j, d) = closest_node(&nodes, coords);
            let ghost before = nodes@;
            let ghost prefix = points.take(i as int);
            let ghost next = points.take(i + 1);
            proof {
                assert(next.drop_last() =~= prefix);
                assert(next.last() == points[i as int]);
                assert forall|q: int| 0 <= q < prefix.len() implies valid_coord(
                    #[trigger] prefix[q].coords(),
                ) by {
                    assert(prefix[q] == points[q]);
                }
                lemma_member_distance_bound(prefix, locs, j as int);
                crate::distance::lemma_haversine_bound(locs[j as int], coords, Units::Miles);
                assert(prefix.len() * MAX_DISTANCE <= usize::MAX * MAX_DISTANCE) by (nonlinear_arith)
                    requires
                        prefix.len() <= usize::MAX,
                ;
            }
            nodes[j].push_child(data_point);
            nodes[j].accumulate_distance(d);
            proof {
                assert forall|q: int| 0 <= q < nodes@.len() implies {
                    &&& (#[trigger] nodes@[q]).location == locs[q]
                    &&& nodes@[q].children@ == members(next, locs, q)
                    &&& nodes@[q].total_distance == member_distance(next, locs, q)
                } by {
                    if q != j as int {
                        assert(nodes@[q] == before[q]);
                    }
                }
                assert(locations(nodes@) =~= locs);
            }
            i = i + 1;
        }
        assert(points.take(points.len() as int) =~= points);
        Cluster { nodes }
    }

    /// The index of the node nearest to `data_point`, and the distance to it
    /// in thousandths of a mile; on a tie the lowest index wins.
    pub fn assign_data_point_to_closest_node(&self, data_point: &D) -> (r: (usize, u64))
        requires
            self.nodes@.len() > 0,
            all_valid_locs(self.locs()),
            valid_coord(data_point.coords()),
        ensures
            r.0 == nearest(self.locs(), data_point.coords()),
            r.0 < self.nodes@.len(),
            r.1 == dist(self.locs()[r.0 as int], data_point.coords()),
    {
        closest_node(&self.nodes, data_point.get_coords())
    }
}

/// The coordinates of a sequence of data points.
pub open spec fn coords_of<D: UserDataType>(points: Seq<D>) -> Seq<(i64, i64)> {
    points.map_values(|p: D| p.coords())
}

/// `k` random coordinates within the bounding box of the data points, or
/// anywhere on the globe when there are no data points.
pub fn initial_centroids<D: UserDataType + Copy>(
    k: usize,
    data_points: &[D],
    rng: &mut fastrand::Rng,
) -> (r: Vec<(i64, i64)>)
    requires
        all_valid(data_points@),
    ensures
        r@.len() == k,
        all_valid_locs(r@),
        data_points@.len() > 0 ==> forall|i: int|
            0 <= i < k ==> within_box_of(coords_of(data_points@), #[trigger] r@[i]),
{
    let ghost cs = coords_of(data_points@);
    let mut coords: Vec<(i64, i64)> = Vec::new();
    let mut i: usize = 0;
    while i < data_points.len()
        invariant
            0 <= i <= data_points@.len(),
            cs == coords_of(data_points@),
            coords@ == cs.take(i as int),
        decreases data_points@.len() - i,
    {
        coords.push(data_points[i].get_coords());
        proof {
            assert(coords@ =~= cs.take(i + 1));
        }
        i = i + 1;
    }
    assert(coords@ =~= cs);
    assert(all_valid_locs(cs)) by {
        assert forall|j: int| 0 <= j < cs.len() implies valid_coord(#[trigger] cs[j]) by {
            assert(valid_coord(data_points@[j].coords()));
        }
    }
    let b = min_max(coords.as_slice());
    let mut out: Vec<(i64, i64)> = Vec::new();
    fill_random(&mut out, k, b, rng);
    proof {
        assert forall|j: int| 0 <= j < k implies valid_coord(#[trigger] out@[j]) && (
        data_points@.len() > 0 ==> within_box_of(cs, out@[j])) by {
            if let Some(bb) = b {
                lemma_box_valid(cs, bb, out@[j]);
            }
        }
    }
    out
}

impl<D: UserDataType + Copy> Cluster<D> {
    /// A partition of `data_points`: over `centroids` where any are given,
    /// else over `k` random coordinates within the points' bounding box.
    pub fn new(k: usize, data_points: &[D], centroids: &[(i64, i64)], rng: &mut fastrand::Rng) -> (r: Self)
        requires
            centroids@.len() > 0 || k > 0,
            all_valid_locs(centroids@),
            all_valid(data_points@),
        ensures
            r.partitions(data_points@),
            all_valid_locs(r.locs()),
            centroids@.len() > 0 ==> r.locs() == centroids@,
            centroids@.len() == 0 ==> r.locs().len() == k,
            centroids@.len() == 0 && data_points@.len() > 0 ==> forall|i: int|
                0 <= i < k ==> within_box_of(coords_of(data_points@), #[trigger] r.locs()[i]),
    {
        if centroids.len() > 0 {
            Self::with_centroids(data_points, centroids)
        } else {
            let seeds = initial_centroids(k, data_points, rng);
            Self::with_centroids(data_points, seeds.as_slice())
        }
    }

    /// The sum of the nodes' accumulated distances.
    pub fn total_distance(&self) -> (r: u128)
        requires
            total_of(self.nodes@) <= u128::MAX,
        ensures
            r == total_of(self.nodes@),
    {
        let mut total: u128 = 0;
        let mut j: usize = 0;
        while j < self.nodes.len()
            invariant
                0 <= j <= self.nodes@.len(),
                total == total_of(self.nodes@.take(j as int)),
                total_of(self.nodes@) <= u128::MAX,
            decreases self.nodes@.len() - j,
        {
            proof {
                lemma_total_prefix(self.nodes@, j + 1, self.nodes@.len() as int);
                assert(self.nodes@.take(self.nodes@.len() as int) =~= self.nodes@);
                assert(self.nodes@.take(j + 1).drop_last() =~= self.nodes@.take(j as int));
            }
            total = total + self.nodes[j].total_distance;
            j = j + 1;
        }
        assert(self.nodes@.take(self.nodes@.len() as int) =~= self.nodes@);
        total
    }

    /// The locations for the next round: the centroid of every node that has
    /// children, in node order, followed by random coordinates for the empty
    /// nodes, drawn within the bounding box of those centroids (anywhere on
    /// the globe when every node is empty).
    pub fn next_centroids(&self, rng: &mut fastrand::Rng) -> (r: Vec<(i64, i64)>)
        requires
            forall|j: int| 0 <= j < self.nodes@.len() ==> all_valid(#[trigger] self.nodes@[j].children@),
        ensures
            r@.len() == self.nodes@.len(),
            r@.take(recomputed(self.nodes@).len() as int) == recomputed(self.nodes@),
            all_valid_locs(r@),
            recomputed(self.nodes@).len() > 0 ==> forall|i: int|
                recomputed(self.nodes@).len() <= i < r@.len() ==> within_box_of(
                    recomputed(self.nodes@),
                    #[trigger] r@[i],
                ),
    {
        let ghost nodes = self.nodes@;
        let mut out: Vec<(i64, i64)> = Vec::new();
        let mut j: usize = 0;
        while j < self.nodes.len()
            invariant
                nodes == self.nodes@,
                0 <= j <= nodes.len(),
                forall|q: int| 0 <= q < nodes.len() ==> all_valid(#[trigger] nodes[q].children@),
                out@ == recomputed(nodes.take(j as int)),
                out@.len() <= j,
                all_valid_locs(out@),
            decreases nodes.len() - j,
        {
            proof {
                assert(nodes.take(j + 1).drop_last() =~= nodes.take(j as int));
                assert(nodes.take(j + 1).last() == nodes[j as int]);
            }
            match self.nodes[j].calculate_new_centroid() {
                Some(c) => {
                    out.push(c);
                },
                None => {},
            }
            j = j + 1;
        }
        assert(nodes.take(nodes.len() as int) =~= nodes);
        let ghost rc = out@;
        let b = min_max(out.as_slice());
        fill_random(&mut out, self.nodes.len(), b, rng);
        proof {
            assert forall|i: int| 0 <= i < out@.len() implies valid_coord(#[trigger] out@[i]) && (
            rc.len() > 0 && rc.len() <= i ==> within_box_of(rc, out@[i])) by {
                if i < rc.len() {
                    assert(out@.take(rc.len() as int)[i] == out@[i]);
                } else if let Some(bb) = b {
                    lemma_box_valid(rc, bb, out@[i]);
                }
            }
        }
        out
    }
}

} // verus!
