use geo_kmeans::cluster::Cluster;
use geo_kmeans::distance::{haversine, haversine_km, haversine_miles, Units};
use geo_kmeans::loader::Val;
use geo_kmeans::nodes::Node;
use geo_kmeans::random::rand_between;
use geo_kmeans::{calc_with_seeds, min_max, KMeansError};

fn city(lat: i64, lng: i64, region_id: i32) -> Val<(i32, u8)> {
    Val::new(lat, lng, (region_id, 1))
}

fn nyc() -> Val<(i32, u8)> {
    city(40_712_800, -74_006_000, 1)
}
fn london() -> Val<(i32, u8)> {
    city(51_507_400, -127_800, 2)
}
fn tokyo() -> Val<(i32, u8)> {
    city(35_676_200, 139_650_300, 3)
}
fn sydney() -> Val<(i32, u8)> {
    city(-33_868_800, 151_209_300, 4)
}
fn rio() -> Val<(i32, u8)> {
    city(-22_906_800, -43_172_900, 5)
}
fn cairo() -> Val<(i32, u8)> {
    city(30_044_400, 31_235_700, 6)
}
fn moscow() -> Val<(i32, u8)> {
    city(55_755_800, 37_617_300, 7)
}
fn cape_town() -> Val<(i32, u8)> {
    city(-33_924_900, 18_424_100, 8)
}
fn mumbai() -> Val<(i32, u8)> {
    city(19_076_000, 72_877_700, 9)
}
fn north_pole() -> Val<(i32, u8)> {
    city(90_000_000, 0, 10)
}

fn dataset() -> Vec<Val<(i32, u8)>> {
    vec![
        rio(),
        nyc(),
        london(),
        tokyo(),
        sydney(),
        rio(),
        nyc(),
        london(),
        london(),
        tokyo(),
        tokyo(),
        sydney(),
        rio(),
        nyc(),
        london(),
        tokyo(),
        sydney(),
        rio(),
        nyc(),
        london(),
        tokyo(),
        sydney(),
        rio(),
        nyc(),
        london(),
        tokyo(),
        sydney(),
        sydney(),
        rio(),
        nyc(),
        london(),
        tokyo(),
        sydney(),
        rio(),
        nyc(),
        london(),
        tokyo(),
        sydney(),
        rio(),
        nyc(),
        london(),
        tokyo(),
        sydney(),
        rio(),
        cairo(),
        moscow(),
        cape_town(),
        mumbai(),
        north_pole(),
        london(),
        tokyo(),
        sydney(),
    ]
}

/// Three points close to each of four distant places, triplet by triplet.
fn four_groups() -> Vec<Val<u32>> {
    let centres: [(i64, i64); 4] = [
        (30_000_000, -90_000_000),
        (45_000_000, 80_000_000),
        (-32_000_000, 42_000_000),
        (62_000_000, -122_000_000),
    ];
    let mut points = Vec::new();
    let mut id: u32 = 0;
    for (lat, lng) in centres.iter() {
        for (dlat, dlng) in [(0, 0), (150_000, -100_000), (-120_000, 200_000)] {
            points.push(Val::new(lat + dlat, lng + dlng, id));
            id += 1;
        }
    }
    points
}

fn total_of(cluster: &Cluster<Val<(i32, u8)>>) -> u128 {
    cluster.nodes.iter().fold(0, |acc, node| acc + node.total_distance)
}

#[test]
fn test_f64_data() {
    let data = dataset();
    let mut rng = fastrand::Rng::with_seed(64);
    let (cluster1, _) = geo_kmeans::calc(5, 1, &data, &mut rng).unwrap();
    let (cluster2, _) = geo_kmeans::calc(10, 10, &data, &mut rng).unwrap();
    let total_distance1 = cluster1.nodes.iter().fold(0, |_acc, node| node.total_distance);
    let total_distance2 = cluster2.nodes.iter().fold(0, |_acc, node| node.total_distance);
    assert!(total_distance1 >= total_distance2);
}

#[test]
fn test_f32_data() {
    let data = dataset();
    let mut rng = fastrand::Rng::with_seed(32);
    for _ in 0..10 {
        let (cluster1, _) = geo_kmeans::calc(5, 5, &data, &mut rng).unwrap();
        let (cluster2, _) = geo_kmeans::calc(10, 10, &data, &mut rng).unwrap();
        let total_distance1 = total_of(&cluster1);
        let total_distance2 = total_of(&cluster2);
        assert!(total_distance1 >= total_distance2);
    }
}

#[test]
fn haversine_new_york_london() {
    let a = nyc().get_coords();
    let b = london().get_coords();
    assert_eq!(haversine(&a, &b, Units::Miles), 3_462_263);
    assert_eq!(haversine(&a, &b, Units::Kilometers), 5_570_222);
    assert_eq!(haversine_miles(&a, &b), 3_462_263);
    assert_eq!(haversine_km(&a, &b), 5_570_222);
}

#[test]
fn haversine_pole_to_pole() {
    assert_eq!(haversine_miles(&(90_000_000, 0), &(-90_000_000, 0)), 12_440_699);
    assert_eq!(haversine_km(&(0, 0), &(0, 180_000_000)), 20_010_806);
}

#[test]
fn haversine_symmetric_and_zero_on_self() {
    let places = [nyc(), london(), tokyo(), sydney(), rio(), north_pole()];
    for p in places.iter() {
        let a = p.get_coords();
        assert_eq!(haversine_miles(&a, &a), 0);
        assert_eq!(haversine_km(&a, &a), 0);
        for q in places.iter() {
            let b = q.get_coords();
            assert_eq!(haversine_miles(&a, &b), haversine_miles(&b, &a));
            assert_eq!(haversine_km(&a, &b), haversine_km(&b, &a));
        }
    }
    // The same meridian seen from either side of the date line.
    assert_eq!(haversine_miles(&(0, -180_000_000), &(0, 180_000_000)), 0);
}

#[test]
fn val_keeps_coordinates_and_identifier() {
    let v = Val::new(12_500_000, -7_250_000, "depot");
    assert_eq!(v.get_coords(), (12_500_000, -7_250_000));
    assert_eq!(v.unique_identifier, "depot");
    assert_eq!(v.latitude, 12_500_000);
    assert_eq!(v.longitude, -7_250_000);
}

#[test]
fn centroid_is_the_mean_of_the_children() {
    let node = Node::new(0, 0, vec![Val::new(1, 2, 0u8), Val::new(3, 5, 1u8)]);
    assert_eq!(node.calculate_new_centroid(), Some((2, 3)));
    let node = Node::new(0, 0, vec![Val::new(10_000_000, -20_000_000, 0u8), Val::new(20_000_000, -40_000_000, 1u8), Val::new(60_000_000, 0, 2u8)]);
    assert_eq!(node.calculate_new_centroid(), Some((30_000_000, -20_000_000)));
}

#[test]
fn centroid_rounds_down() {
    let node = Node::new(0, 0, vec![Val::new(-1, -2, 0u8), Val::new(0, 0, 1u8)]);
    assert_eq!(node.calculate_new_centroid(), Some((-1, -1)));
    let node = Node::new(0, 0, vec![Val::new(1, 1, 0u8), Val::new(0, 2, 1u8)]);
    assert_eq!(node.calculate_new_centroid(), Some((0, 1)));
}

#[test]
fn centroid_of_empty_node_is_none() {
    let node: Node<Val<u8>> = Node::new(5, 6, Vec::new());
    assert_eq!(node.calculate_new_centroid(), None);
    assert_eq!(node.location, (5, 6));
    assert_eq!(node.total_distance, 0);
}

#[test]
fn node_push_and_accumulate() {
    let mut node: Node<Val<u8>> = Node::new(5, 6, Vec::new());
    node.push_child(&Val::new(7, 8, 3u8));
    node.accumulate_distance(40);
    node.accumulate_distance(2);
    assert_eq!(node.children.len(), 1);
    assert_eq!(node.children[0].unique_identifier, 3);
    assert_eq!(node.total_distance, 42);
    assert_eq!(node.location, (5, 6));
}

#[test]
fn unique_pairs_means_one_shared_coordinate() {
    let empty: Node<Val<u8>> = Node::new(0, 0, Vec::new());
    assert!(empty.has_only_unique_pairs());
    let same = Node::new(0, 0, vec![Val::new(4, 4, 0u8), Val::new(4, 4, 1u8), Val::new(4, 4, 2u8)]);
    assert!(same.has_only_unique_pairs());
    let mixed = Node::new(0, 0, vec![Val::new(4, 4, 0u8), Val::new(4, 5, 1u8)]);
    assert!(!mixed.has_only_unique_pairs());
}

#[test]
fn min_max_of_coordinates() {
    assert_eq!(min_max(&[]), None);
    assert_eq!(min_max(&[(3, -4)]), Some(((3, 3), (-4, -4))));
    assert_eq!(
        min_max(&[(3, -4), (-10, 7), (8, 0), (1, -20)]),
        Some(((-10, 8), (-20, 7)))
    );
}

#[test]
fn seeded_cluster_assigns_nearest_node() {
    let points = four_groups();
    let seeds = [(29_000_000, -91_000_000), (44_000_000, 81_000_000), (-31_000_000, 41_000_000), (61_000_000, -121_000_000)];
    let mut rng = fastrand::Rng::with_seed(1);
    let cluster = Cluster::new(4, &points, &seeds, &mut rng);
    assert_eq!(cluster.nodes.len(), 4);
    for (j, node) in cluster.nodes.iter().enumerate() {
        assert_eq!(node.location, seeds[j]);
        let ids: Vec<u32> = node.children.iter().map(|p| p.unique_identifier).collect();
        let first = 3 * j as u32;
        assert_eq!(ids, vec![first, first + 1, first + 2]);
        assert!(node.total_distance > 0);
        let expected: u128 = node
            .children
            .iter()
            .map(|p| haversine_miles(&node.location, &p.get_coords()) as u128)
            .sum();
        assert_eq!(node.total_distance, expected);
    }
}

#[test]
fn closest_node_tie_goes_to_lowest_index() {
    let points = vec![Val::new(0, 0, 0u8)];
    let seeds = [(10_000_000, 0), (-10_000_000, 0), (0, 10_000_000)];
    let cluster = Cluster::with_centroids(&points, &seeds);
    assert_eq!(cluster.assign_data_point_to_closest_node(&points[0]).0, 0);
    assert_eq!(cluster.nodes[0].children.len(), 1);
    assert_eq!(cluster.nodes[1].children.len(), 0);
    assert_eq!(cluster.nodes[2].children.len(), 0);
    let (index, d) = cluster.assign_data_point_to_closest_node(&Val::new(0, 9_000_000, 1u8));
    assert_eq!(index, 2);
    assert_eq!(d, haversine_miles(&(0, 10_000_000), &(0, 9_000_000)));
}

#[test]
fn random_cluster_uses_k_nodes_inside_the_bounding_box() {
    let points = four_groups();
    let mut rng = fastrand::Rng::with_seed(5);
    let cluster = Cluster::new(6, &points, &[], &mut rng);
    assert_eq!(cluster.nodes.len(), 6);
    for node in cluster.nodes.iter() {
        let (lat, lng) = node.location;
        assert!((-32_120_000..=62_150_000).contains(&lat));
        assert!((-122_100_000..=80_200_000).contains(&lng));
    }
}

#[test]
fn every_point_lands_in_exactly_one_node() {
    let data = dataset();
    let mut rng = fastrand::Rng::with_seed(11);
    for (k, r) in [(1, 1), (3, 2), (5, 4), (10, 3)] {
        let (cluster, total) = geo_kmeans::calc(k, r, &data, &mut rng).unwrap();
        assert_eq!(cluster.nodes.len(), k);
        let count: usize = cluster.nodes.iter().map(|n| n.children.len()).sum();
        assert_eq!(count, data.len());
        assert_eq!(total, total_of(&cluster));
    }
}

#[test]
fn seeded_runs_are_reproducible() {
    let points = four_groups();
    let seeds = [(20_000_000, -80_000_000), (40_000_000, 70_000_000), (-20_000_000, 30_000_000), (70_000_000, -110_000_000)];
    let mut rng_a = fastrand::Rng::with_seed(100);
    let mut rng_b = fastrand::Rng::with_seed(200);
    let (a, total_a) = calc_with_seeds(&seeds, 4, &points, &mut rng_a).unwrap();
    let (b, total_b) = calc_with_seeds(&seeds, 4, &points, &mut rng_b).unwrap();
    assert_eq!(total_a, total_b);
    assert_eq!(a.nodes.len(), b.nodes.len());
    for (x, y) in a.nodes.iter().zip(b.nodes.iter()) {
        assert_eq!(x.location, y.location);
        assert_eq!(x.children, y.children);
        assert_eq!(x.total_distance, y.total_distance);
    }
}

#[test]
fn single_seeded_round_keeps_the_seeds() {
    let points = four_groups();
    let seeds = [(0, 0), (10_000_000, 10_000_000)];
    let mut rng = fastrand::Rng::with_seed(3);
    let (cluster, _) = calc_with_seeds(&seeds, 1, &points, &mut rng).unwrap();
    assert_eq!(cluster.nodes[0].location, seeds[0]);
    assert_eq!(cluster.nodes[1].location, seeds[1]);
}

#[test]
fn seeded_rounds_move_to_the_means() {
    let points = vec![Val::new(0, 0, 0u8), Val::new(2_000_000, 0, 1u8), Val::new(40_000_000, 40_000_000, 2u8), Val::new(40_000_000, 42_000_000, 3u8)];
    let seeds = [(5_000_000, 5_000_000), (30_000_000, 30_000_000)];
    let mut rng = fastrand::Rng::with_seed(3);
    let (cluster, _) = calc_with_seeds(&seeds, 2, &points, &mut rng).unwrap();
    assert_eq!(cluster.nodes[0].location, (1_000_000, 0));
    assert_eq!(cluster.nodes[1].location, (40_000_000, 41_000_000));
}

#[test]
fn configuration_errors() {
    let points = four_groups();
    let mut rng = fastrand::Rng::with_seed(9);
    assert_eq!(geo_kmeans::calc(0, 3, &points, &mut rng).err(), Some(KMeansError::NoClusters));
    assert_eq!(geo_kmeans::calc(0, 0, &points, &mut rng).err(), Some(KMeansError::NoClusters));
    assert_eq!(geo_kmeans::calc(2, 0, &points, &mut rng).err(), Some(KMeansError::NoRounds));
    assert_eq!(geo_kmeans::calc(13, 2, &points, &mut rng).err(), Some(KMeansError::TooFewPoints));
    assert!(geo_kmeans::calc(12, 2, &points, &mut rng).is_ok());
    assert_eq!(calc_with_seeds(&[], 2, &points, &mut rng).err(), Some(KMeansError::NoClusters));
    assert_eq!(calc_with_seeds(&[(0, 0)], 0, &points, &mut rng).err(), Some(KMeansError::NoRounds));
    let seeds: Vec<(i64, i64)> = (0..20).map(|i| (i * 1_000_000, 0)).collect();
    assert!(calc_with_seeds(&seeds, 2, &points, &mut rng).is_ok());
}

#[test]
fn empty_nodes_stay_empty_on_the_last_round() {
    let points = vec![Val::new(1_000_000, 1_000_000, 0u8)];
    let seeds = [(0, 0), (50_000_000, 50_000_000)];
    let mut rng = fastrand::Rng::with_seed(4);
    let (cluster, total) = calc_with_seeds(&seeds, 1, &points, &mut rng).unwrap();
    assert_eq!(cluster.nodes[1].children.len(), 0);
    assert_eq!(cluster.nodes[1].total_distance, 0);
    assert_eq!(cluster.nodes[1].location, (50_000_000, 50_000_000));
    assert_eq!(total, cluster.nodes[0].total_distance);
}

#[test]
fn four_groups_are_found() {
    let points = four_groups();
    let mut correct = 0;
    for trial in 0..100u64 {
        let mut rng = fastrand::Rng::with_seed(trial);
        let (cluster, _) = geo_kmeans::calc(4, 3, &points, &mut rng).unwrap();
        let mut node_of = [usize::MAX; 12];
        for (j, node) in cluster.nodes.iter().enumerate() {
            for p in node.children.iter() {
                node_of[p.unique_identifier as usize] = j;
            }
        }
        let groups_intact = (0..4).all(|g| node_of[3 * g] == node_of[3 * g + 1] && node_of[3 * g] == node_of[3 * g + 2]);
        let mut group_nodes: Vec<usize> = (0..4).map(|g| node_of[3 * g]).collect();
        group_nodes.sort();
        group_nodes.dedup();
        if groups_intact && group_nodes.len() >= 3 {
            correct += 1;
        }
    }
    assert!(correct > 60, "only {} of 100 trials found the four groups", correct);
}

#[test]
fn more_rounds_do_not_worsen_the_total() {
    let data = dataset();
    let mut one_round: u128 = 0;
    let mut many_rounds: u128 = 0;
    for trial in 0..20u64 {
        let mut rng = fastrand::Rng::with_seed(trial);
        one_round += geo_kmeans::calc(4, 1, &data, &mut rng).unwrap().1;
        let mut rng = fastrand::Rng::with_seed(trial);
        many_rounds += geo_kmeans::calc(4, 8, &data, &mut rng).unwrap().1;
    }
    assert!(many_rounds <= one_round);
}

#[test]
fn more_clusters_reduce_the_total() {
    let data = dataset();
    let mut two: u128 = 0;
    let mut four: u128 = 0;
    for trial in 0..20u64 {
        let mut rng = fastrand::Rng::with_seed(1000 + trial);
        two += geo_kmeans::calc(2, 5, &data, &mut rng).unwrap().1;
        four += geo_kmeans::calc(4, 5, &data, &mut rng).unwrap().1;
    }
    assert!(four <= two);
}

#[test]
fn rand_between_stays_in_range_and_varies() {
    let mut rng = fastrand::Rng::with_seed(77);
    let mut seen_other = false;
    for _ in 0..200 {
        let v = rand_between(&mut rng, -5, 5);
        assert!((-5..5).contains(&v));
        if v != -5 {
            seen_other = true;
        }
    }
    assert!(seen_other);
    assert_eq!(rand_between(&mut rng, 7, 7), 7);
}

#[test]
fn cluster_calc_reports_total_and_centroids() {
    let points = four_groups();
    let mut rng = fastrand::Rng::with_seed(21);
    let (cluster, total) = geo_kmeans::calc(4, 3, &points, &mut rng).unwrap();
    let mut rng = fastrand::Rng::with_seed(21);
    let (same_total, centroids) = Cluster::calc(4, 3, &points, &mut rng).unwrap();
    assert_eq!(same_total, total);
    let expected: Vec<(i64, i64)> = cluster.nodes.iter().filter_map(|n| n.calculate_new_centroid()).collect();
    assert_eq!(centroids, expected);
    assert!(!centroids.is_empty() && centroids.len() <= 4);
    let mut rng = fastrand::Rng::with_seed(22);
    assert_eq!(Cluster::calc(0, 3, &points, &mut rng).err(), Some(KMeansError::NoClusters));
    assert_eq!(Cluster::calc(4, 0, &points, &mut rng).err(), Some(KMeansError::NoRounds));
    assert_eq!(Cluster::calc(40, 3, &points, &mut rng).err(), Some(KMeansError::TooFewPoints));
}
