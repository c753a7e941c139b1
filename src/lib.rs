//! K-means clustering of geographic points under the haversine distance,
//! on fixed-point coordinates in micro-degrees.
use vstd::prelude::*;
use crate::cluster::{
    all_valid_locs,
    coords_of,
    initial_centroids,
    is_partition,
    lemma_cluster_complete,
    lemma_lloyd_step,
    lemma_members_valid,
    lemma_nearest_total_bound,
    lemma_recomputed_is_next,
    lloyd,
    no_empty_rounds,
    recomputed,
    total_of,
    within_box_of,
    Cluster,
};
use crate::distance::MAX_DISTANCE;
use crate::location::UserDataType;
use crate::nodes::{all_valid, Node};

pub mod cluster;
pub mod distance;
pub mod loader;
pub mod location;
pub mod nodes;
pub mod random;
pub mod trig;

verus! {

/// `b = ((lat_min, lat_max), (lng_min, lng_max))` is the bounding box of
/// `s`: every coordinate of `s` lies within it, and each bound is reached.
pub open spec fn is_bounding_box(s: Seq<(i64, i64)>, b: ((i64, i64), (i64, i64))) -> bool {
    &&& forall|i: int|
        0 <= i < s.len() ==> b.0.0 <= (#[trigger] s[i]).0 <= b.0.1 && b.1.0 <= s[i].1 <= b.1.1
    &&& exists|i: int| 0 <= i < s.len() && (#[trigger] s[i]).0 == b.0.0
    &&& exists|i: int| 0 <= i < s.len() && (#[trigger] s[i]).0 == b.0.1
    &&& exists|i: int| 0 <= i < s.len() && (#[trigger] s[i]).1 == b.1.0
    &&& exists|i: int| 0 <= i < s.len() && (#[trigger] s[i]).1 == b.1.1
}

/// The bounding box `((lat_min, lat_max), (lng_min, lng_max))` of the
/// coordinates, or `None` when there are none.
pub fn min_max(centroids: &[(i64, i64)]) -> (r: Option<((i64, i64), (i64, i64))>)
    ensures
        r.is_none() <==> centroids@.len() == 0,
        r matches Some(b) ==> is_bounding_box(centroids@, b),
{
    let n = centroids.len();
    if n == 0 {
        return None;
    }
    let first = centroids[0];
    let mut lat_min = first.0;
    let mut lat_max = first.0;
    let mut lng_min = first.1;
    let mut lng_max = first.1;
    let ghost mut w: (int, int, int, int) = (0, 0, 0, 0);
    let mut i: usize = 1;
    while i < n
        invariant
            n == centroids@.len(),
            1 <= i <= n,
            forall|j: int|
                0 <= j < i ==> lat_min <= (#[trigger] centroids@[j]).0 <= lat_max && lng_min
                    <= centroids@[j].1 <= lng_max,
            0 <= w.0 < n && centroids@[w.0].0 == lat_min,
            0 <= w.1 < n && centroids@[w.1].0 == lat_max,
            0 <= w.2 < n && centroids@[w.2].1 == lng_min,
            0 <= w.3 < n && centroids@[w.3].1 == lng_max,
        decreases n - i,
    {
        let c = centroids[i];
        if c.0 < lat_min {
            lat_min = c.0;
            proof { w.0 = i as int; }
        }
        if c.0 > lat_max {
            lat_max = c.0;
            proof { w.1 = i as int; }
        }
        if c.1 < lng_min {
            lng_min = c.1;
            proof { w.2 = i as int; }
        }
        if c.1 > lng_max {
            lng_max = c.1;
            proof { w.3 = i as int; }
        }
        i = i + 1;
    }
    Some(((lat_min, lat_max), (lng_min, lng_max)))
}

/// Why a configuration is refused before any round runs.
#[derive(Clone, Copy, Debug, PartialEq, Eq, Structural)]
pub enum KMeansError {
    /// No cluster was asked for (`k == 0`, or no seed coordinates).
    NoClusters,
    /// No round was asked for.
    NoRounds,
    /// More clusters than data points, with no seed coordinates given.
    TooFewPoints,
}

/// The result of a run over `points` with `k` nodes: the partition of the
/// points over the final locations, which lie on the globe, and the sum of the
/// nodes' accumulated distances.
pub open spec fn is_outcome<D: UserDataType + Copy>(
    c: Cluster<D>,
    total: u128,
    points: Seq<D>,
    k: int,
) -> bool {
    &&& c.partitions(points)
    &&& c.locs().len() == k
    &&& all_valid_locs(c.locs())
    &&& total == total_of(c.nodes@)
}

/// Runs `rounds` rounds from the locations `initial`. Each round partitions
/// the points; every round but the last then moves each node to the
/// centroid of its children and reseeds the empty ones. The last round's
/// partition is returned with its total distance.
fn run_rounds<D: UserDataType + Copy>(
    data_points: &[D],
    initial: Vec<(i64, i64)>,
    rounds: usize,
    rng: &mut fastrand::Rng,
) -> (r: (Cluster<D>, u128))
    requires
        rounds >= 1,
        initial@.len() > 0,
        all_valid_locs(initial@),
        all_valid(data_points@),
    ensures
        is_outcome(r.0, r.1, data_points@, initial@.len() as int),
        no_empty_rounds(data_points@, initial@, (rounds - 1) as nat) ==> r.0.locs() == lloyd(
            data_points@,
            initial@,
            (rounds - 1) as nat,
        ),
{
    let ghost points = data_points@;
    let ghost start = initial@;
    let k = initial.len();
    let mut centroids = initial;
    let mut round: usize = 0;
    while round + 1 < rounds
        invariant
            points == data_points@,
            all_valid(points),
            0 <= round < rounds,
            centroids@.len() == k,
            k == start.len(),
            k > 0,
            all_valid_locs(centroids@),
            no_empty_rounds(points, start, round as nat) ==> centroids@ == lloyd(
                points,
                start,
                round as nat,
            ),
        decreases rounds - round,
    {
        let cluster = Cluster::with_centroids(data_points, centroids.as_slice());
        proof {
            assert forall|j: int| 0 <= j < cluster.nodes@.len() implies all_valid(
                #[trigger] cluster.nodes@[j].children@,
            ) by {
                lemma_members_valid(points, centroids@, j);
            }
        }
        let next = cluster.next_centroids(rng);
        proof {
            let nodes = cluster.nodes@;
            lemma_lloyd_step(points, start, round as nat);
            lemma_recomputed_is_next(nodes, centroids@, points, k as int);
            assert(nodes.take(k as int) =~= nodes);
            if no_empty_rounds(points, start, (round + 1) as nat) {
                assert(recomputed(nodes).len() == k);
                assert(next@ =~= next@.take(k as int));
            }
        }
        centroids = next;
        round = round + 1;
    }
    let cluster = Cluster::with_centroids(data_points, centroids.as_slice());
    let n_points = data_points.len();
    proof {
        lemma_cluster_complete(cluster.nodes@, centroids@, points);
        lemma_nearest_total_bound(points, centroids@);
        assert(points.len() * MAX_DISTANCE <= usize::MAX * MAX_DISTANCE) by (nonlinear_arith)
            requires
                points.len() <= usize::MAX,
        ;
    }
    let total = cluster.total_distance();
    (cluster, total)
}

/// Clusters `data_points` into `k` groups over `r` rounds, starting from `k`
/// random locations within the points' bounding box. Returns the last
/// round's partition and its total distance, in thousandths of a mile.
/// While no round leaves a node empty, the final locations are those of
/// Lloyd's iteration from the random start.
pub fn calc<D: UserDataType + Copy>(
    k: usize,
    r: usize,
    data_points: &[D],
    rng: &mut fastrand::Rng,
) -> (res: Result<(Cluster<D>, u128), KMeansError>)
    requires
        all_valid(data_points@),
    ensures
        k == 0 ==> res == Err::<(Cluster<D>, u128), KMeansError>(KMeansError::NoClusters),
        k > 0 && r == 0 ==> res == Err::<(Cluster<D>, u128), KMeansError>(KMeansError::NoRounds),
        k > 0 && r > 0 && k > data_points@.len() ==> res == Err::<(Cluster<D>, u128), KMeansError>(
            KMeansError::TooFewPoints,
        ),
        k > 0 && r > 0 && k <= data_points@.len() ==> (res matches Ok((c, total)) && is_outcome(
            c,
            total,
            data_points@,
            k as int,
        )),
        r == 1 ==> (res matches Ok((c, _)) ==> forall|i: int|
            0 <= i < k ==> within_box_of(coords_of(data_points@), #[trigger] c.locs()[i])),
        res matches Ok((c, _)) ==> exists|start: Seq<(i64, i64)>|
            #[trigger] start.len() == k && (forall|i: int|
                0 <= i < k ==> within_box_of(coords_of(data_points@), #[trigger] start[i])) && (
            no_empty_rounds(data_points@, start, (r - 1) as nat) ==> c.locs() == lloyd(
                data_points@,
                start,
                (r - 1) as nat,
            )),
{
    if k == 0 {
        return Err(KMeansError::NoClusters);
    }
    if r == 0 {
        return Err(KMeansError::NoRounds);
    }
    if k > data_points.len() {
        return Err(KMeansError::TooFewPoints);
    }
    let initial = initial_centroids(k, data_points, rng);
    let ghost start = initial@;
    let out = run_rounds(data_points, initial, r, rng);
    proof {
        if r == 1 {
            assert(no_empty_rounds(data_points@, start, 0));
        }
        assert(start.len() == k);
    }
    Ok(out)
}

/// Clusters `data_points` over `r` rounds, starting from the given seed
/// locations, one node per seed in their order. Returns the last round's
/// partition and its total distance, in thousandths of a mile. While no
/// round leaves a node empty, nothing is drawn at random: the final
/// locations are those of Lloyd's iteration from the seeds.
pub fn calc_with_seeds<D: UserDataType + Copy>(
    seeds: &[(i64, i64)],
    r: usize,
    data_points: &[D],
    rng: &mut fastrand::Rng,
) -> (res: Result<(Cluster<D>, u128), KMeansError>)
    requires
        all_valid_locs(seeds@),
        all_valid(data_points@),
    ensures
        seeds@.len() == 0 ==> res == Err::<(Cluster<D>, u128), KMeansError>(KMeansError::NoClusters),
        seeds@.len() > 0 && r == 0 ==> res == Err::<(Cluster<D>, u128), KMeansError>(
            KMeansError::NoRounds,
        ),
        seeds@.len() > 0 && r > 0 ==> (res matches Ok((c, total)) && is_outcome(
            c,
            total,
            data_points@,
            seeds@.len() as int,
        ) && (no_empty_rounds(data_points@, seeds@, (r - 1) as nat) ==> c.locs() == lloyd(
            data_points@,
            seeds@,
            (r - 1) as nat,
        ))),
{
    if seeds.len() == 0 {
        return Err(KMeansError::NoClusters);
    }
    if r == 0 {
        return Err(KMeansError::NoRounds);
    }
    let mut initial: Vec<(i64, i64)> = Vec::new();
    let mut i: usize = 0;
    while i < seeds.len()
        invariant
            0 <= i <= seeds@.len(),
            initial@ == seeds@.take(i as int),
        decreases seeds@.len() - i,
    {
        initial.push(seeds[i]);
        proof {
            assert(initial@ =~= seeds@.take(i + 1));
        }
        i = i + 1;
    }
    assert(initial@ =~= seeds@);
    Ok(run_rounds(data_points, initial, r, rng))
}

impl<D: UserDataType + Copy> Cluster<D> {
    /// Runs [`calc`] and returns the total distance of the last round with
    /// the centroids of that round's non-empty nodes, in node order.
    pub fn calc(
        k: usize,
        r: usize,
        values: &[D],
        rng: &mut fastrand::Rng,
    ) -> (res: Result<(u128, Vec<(i64, i64)>), KMeansError>)
        requires
            all_valid(values@),
        ensures
            k == 0 ==> res == Err::<(u128, Vec<(i64, i64)>), KMeansError>(KMeansError::NoClusters),
            k > 0 && r == 0 ==> res == Err::<(u128, Vec<(i64, i64)>), KMeansError>(
                KMeansError::NoRounds,
            ),
            k > 0 && r > 0 && k > values@.len() ==> res == Err::<
                (u128, Vec<(i64, i64)>),
                KMeansError,
            >(KMeansError::TooFewPoints),
            k > 0 && r > 0 && k <= values@.len() ==> (res matches Ok((total, centroids))
                && exists|c: Cluster<D>|
                is_outcome(c, total, values@, k as int) && #[trigger] recomputed(c.nodes@)
                    == centroids@),
    {
        match calc(k, r, values, rng) {
            Ok((cluster, total)) => {
                let mut centroids: Vec<(i64, i64)> = Vec::new();
                let ghost nodes = cluster.nodes@;
                let mut j: usize = 0;
                while j < cluster.nodes.len()
                    invariant
                        nodes == cluster.nodes@,
                        cluster.partitions(values@),
                        all_valid(values@),
                        0 <= j <= nodes.len(),
                        centroids@ == recomputed(nodes.take(j as int)),
                    decreases nodes.len() - j,
                {
                    proof {
                        lemma_members_valid(values@, cluster.locs(), j as int);
                        assert(nodes.take(j + 1).drop_last() =~= nodes.take(j as int));
                        assert(nodes.take(j + 1).last() == nodes[j as int]);
                    }
                    match cluster.nodes[j].calculate_new_centroid() {
                        Some(c) => {
                            centroids.push(c);
                        },
                        None => {},
                    }
                    j = j + 1;
                }
                assert(nodes.take(nodes.len() as int) =~= nodes);
                Ok((total, centroids))
            },
            Err(e) => Err(e),
        }
    }
}

/// Seeded runs are reproducible: any two partitions of the same points over
/// the locations that the same number of Lloyd steps reach from the same
/// seeds are identical, node by node.
pub proof fn lemma_seeded_reproducible<D: UserDataType>(
    points: Seq<D>,
    seeds: Seq<(i64, i64)>,
    n: nat,
    a: Seq<Node<D>>,
    b: Seq<Node<D>>,
)
    requires
        is_partition(a, lloyd(points, seeds, n), points),
        is_partition(b, lloyd(points, seeds, n), points),
    ensures
        a.len() == b.len(),
        forall|j: int|
            0 <= j < a.len() ==> (#[trigger] a[j]).location == b[j].location && a[j].children@
                == b[j].children@ && a[j].total_distance == b[j].total_distance,
{
}

} // verus!
