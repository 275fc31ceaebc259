use topic_taxonomy::agglomerative::{cluster_distance, hierarchical_clustering, parse_linkage, relevance_weights, Linkage};
use topic_taxonomy::dbscan::dbscan;
use topic_taxonomy::density::{count_clusters, dbscan_auto_eps, find_elbow, hdbscan};
use topic_taxonomy::hierarchy::{build_cluster_tree, extract_flat_clusters, integer_sqrt, select_clusters};
use topic_taxonomy::spanning::{build_mst, compute_core_distances, mutual_reachability_distance, DIST_SCALE};
use topic_taxonomy::postprocess::merge_small_clusters;
use topic_taxonomy::ward::ward_distance;
use topic_taxonomy::taxonomy::{cluster_members, count_noise, order_by_relevance, sorted_unique};
use topic_taxonomy::union_find::UnionFind;

const S: u64 = DIST_SCALE;

fn cosine_distance_matrix(vs: &[Vec<f64>]) -> Vec<Vec<u64>> {
    let n = vs.len();
    let mut d = vec![vec![0u64; n]; n];
    for i in 0..n {
        for j in 0..n {
            if i == j {
                continue;
            }
            let dot: f64 = vs[i].iter().zip(&vs[j]).map(|(a, b)| a * b).sum();
            let na: f64 = vs[i].iter().map(|x| x * x).sum::<f64>().sqrt();
            let nb: f64 = vs[j].iter().map(|x| x * x).sum::<f64>().sqrt();
            let sim = if na > 0.0 && nb > 0.0 { dot / (na * nb) } else { 0.0 };
            let dist = (1.0 - sim).clamp(0.0, 2.0);
            d[i][j] = (dist * S as f64).round() as u64;
        }
    }
    d
}

fn next_rand(state: &mut u64) -> f64 {
    *state = state.wrapping_mul(6364136223846793005).wrapping_add(1442695040888963407);
    ((*state >> 11) as f64 / (1u64 << 53) as f64) * 2.0 - 1.0
}

/// Three tight pairs far apart from one another.
fn three_pairs() -> Vec<Vec<u64>> {
    let groups = [0usize, 0, 1, 1, 2, 2];
    let mut d = vec![vec![0u64; 6]; 6];
    for i in 0..6 {
        for j in 0..6 {
            d[i][j] = if groups[i] == groups[j] { 0 } else { S };
        }
    }
    d
}

/// One axis per pair, at full scale.
fn three_pair_embeddings() -> Vec<Vec<i32>> {
    let groups = [0usize, 0, 1, 1, 2, 2];
    groups.iter().map(|&g| (0..3).map(|k| if k == g { 32768 } else { 0 }).collect()).collect()
}

#[test]
fn union_find_joins_sets() {
    let mut uf = UnionFind::new(5);
    assert!(uf.union(0, 1));
    assert!(uf.union(3, 4));
    assert!(!uf.union(1, 0));
    assert_eq!(uf.find(0), uf.find(1));
    assert_ne!(uf.find(0), uf.find(3));
    assert!(uf.union(1, 4));
    assert_eq!(uf.find(0), uf.find(3));
    assert_ne!(uf.find(2), uf.find(0));
}

#[test]
fn core_distance_is_kth_smallest_in_row() {
    let d = vec![vec![0, 5, 3, 9], vec![5, 0, 4, 1], vec![3, 4, 0, 7], vec![9, 1, 7, 0]];
    assert_eq!(compute_core_distances(&d, 1), vec![3, 1, 3, 1]);
    assert_eq!(compute_core_distances(&d, 2), vec![5, 4, 4, 7]);
    // Past the end of a row: the largest entry.
    assert_eq!(compute_core_distances(&d, 10), vec![9, 5, 7, 9]);
}

#[test]
fn mutual_reachability_takes_the_largest() {
    let d = vec![vec![0, 2], vec![2, 0]];
    assert_eq!(mutual_reachability_distance(0, 1, &d, &vec![5, 1]), 5);
    assert_eq!(mutual_reachability_distance(0, 1, &d, &vec![1, 1]), 2);
}

#[test]
fn mst_has_n_minus_one_edges_and_spans() {
    let d = vec![vec![0, 1, 4, 5], vec![1, 0, 2, 6], vec![4, 2, 0, 3], vec![5, 6, 3, 0]];
    let core = vec![0, 0, 0, 0];
    let mst = build_mst(&d, &core);
    assert_eq!(mst.len(), 3);
    let total: u64 = mst.iter().map(|e| e.weight).sum();
    assert_eq!(total, 6);
    let mut seen = vec![false; 4];
    seen[0] = true;
    for e in &mst {
        assert!(seen[e.from]);
        assert!(!seen[e.to]);
        seen[e.to] = true;
    }
    assert!(seen.iter().all(|&s| s));
}

#[test]
fn mst_of_single_point_is_empty() {
    let mst = build_mst(&vec![vec![0]], &vec![0]);
    assert!(mst.is_empty());
}

#[test]
fn cluster_tree_children_precede_parents() {
    let d = vec![vec![0, 1, 4, 5], vec![1, 0, 2, 6], vec![4, 2, 0, 3], vec![5, 6, 3, 0]];
    let core = vec![0, 0, 0, 0];
    let mst = build_mst(&d, &core);
    let nodes = build_cluster_tree(&mst, 4);
    assert_eq!(nodes.len(), 7);
    for (k, node) in nodes.iter().enumerate() {
        if k < 4 {
            assert!(node.children.is_empty());
            assert_eq!(node.points, vec![k]);
        } else {
            assert_eq!(node.children.len(), 2);
            assert!(node.children.iter().all(|&c| c < k));
            assert_eq!(nodes[node.children[0]].lambda_death, node.lambda_birth);
        }
    }
    // The last node is the root: it holds every point and never dies.
    let mut root_points = nodes[6].points.clone();
    root_points.sort();
    assert_eq!(root_points, vec![0, 1, 2, 3]);
    assert_eq!(nodes[6].lambda_death, 0);
    // The first merge joins 0 and 1 at distance 1: lambda 10^18.
    assert_eq!(nodes[4].lambda_birth, 1_000_000_000_000_000_000);
}

#[test]
fn cluster_tree_takes_edges_by_ascending_weight() {
    // Prim's order from point 0 is (0,1) at 5, then (1,2) at 1.
    let d = vec![vec![0, 5, 9], vec![5, 0, 1], vec![9, 1, 0]];
    let mst = build_mst(&d, &vec![0, 0, 0]);
    assert_eq!(mst[0].weight, 5);
    assert_eq!(mst[1].weight, 1);
    let nodes = build_cluster_tree(&mst, 3);
    let mut first = nodes[3].points.clone();
    first.sort();
    assert_eq!(first, vec![1, 2]);
    assert_eq!(nodes[3].lambda_birth, 1_000_000_000_000_000_000);
    assert_eq!(nodes[4].lambda_birth, 200_000_000_000_000_000);
    // Leaves are born at 0; each dies when its parent is born.
    assert_eq!(nodes[1].lambda_birth, 0);
    assert_eq!(nodes[1].lambda_death, 1_000_000_000_000_000_000);
    assert_eq!(nodes[0].lambda_death, 200_000_000_000_000_000);
}

#[test]
fn integer_square_root_is_floor() {
    assert_eq!(integer_sqrt(0), 0);
    assert_eq!(integer_sqrt(15), 3);
    assert_eq!(integer_sqrt(16), 4);
    assert_eq!(integer_sqrt(4_000_000), 2000);
}

#[test]
fn selection_is_disjoint_and_extraction_labels_selected_nodes() {
    // Two tight groups {0,1,2} and {3,4,5}, far apart.
    let groups = [0usize, 0, 0, 1, 1, 1];
    let mut d = vec![vec![0u64; 6]; 6];
    for i in 0..6 {
        for j in 0..6 {
            if i != j {
                d[i][j] = if groups[i] == groups[j] { S / 100 } else { S };
            }
        }
    }
    let core = compute_core_distances(&d, 1);
    let mst = build_mst(&d, &core);
    let nodes = build_cluster_tree(&mst, 6);
    let (stability, selected) = select_clusters(&nodes, 2);
    assert_eq!(stability.len(), nodes.len());
    assert_eq!(selected.len(), nodes.len());
    let labels = extract_flat_clusters(&nodes, &selected, 6, 2);
    assert_eq!(labels.len(), 6);
    assert!(labels.iter().all(|&l| l >= -1));
    // Selected nodes never overlap.
    for a in 0..nodes.len() {
        for b in 0..nodes.len() {
            if a != b && selected[a] && selected[b] {
                assert!(nodes[a].points.iter().all(|p| !nodes[b].points.contains(p)));
            }
        }
    }
    assert_eq!(labels[0], labels[1]);
    assert_eq!(labels[1], labels[2]);
    assert_eq!(labels[3], labels[4]);
    assert_eq!(labels[4], labels[5]);
    assert_ne!(labels[0], labels[3]);
}

#[test]
fn extraction_leaves_unselected_points_as_noise() {
    let d = vec![vec![0, 1, 9], vec![1, 0, 9], vec![9, 9, 0]];
    let mst = build_mst(&d, &vec![0, 0, 0]);
    let nodes = build_cluster_tree(&mst, 3);
    let mut selected = vec![false; nodes.len()];
    selected[3] = true;
    let labels = extract_flat_clusters(&nodes, &selected, 3, 2);
    assert_eq!(labels, vec![0, 0, -1]);
    // Too small to count.
    let labels = extract_flat_clusters(&nodes, &selected, 3, 3);
    assert_eq!(labels, vec![-1, -1, -1]);
}

#[test]
fn dbscan_finds_dense_groups_and_noise() {
    let mut d = vec![vec![S; 7]; 7];
    for i in 0..7 {
        d[i][i] = 0;
    }
    for &(a, b) in &[(0, 1), (0, 2), (1, 2), (3, 4), (3, 5), (4, 5)] {
        d[a][b] = S / 10;
        d[b][a] = S / 10;
    }
    let labels = dbscan(&d, S / 5, 3);
    assert_eq!(labels, vec![0, 0, 0, 1, 1, 1, -1]);
}

#[test]
fn elbow_picks_largest_curvature() {
    let s: Vec<u64> = vec![1, 2, 3, 4, 5, 6, 7, 20, 21, 22];
    // Curvature peaks at index 6 (7 -> 20) and 7; the first maximum wins.
    assert_eq!(find_elbow(&s), 6);
    let flat: Vec<u64> = vec![5; 10];
    assert_eq!(find_elbow(&flat), 5);
}

#[test]
fn auto_epsilon_is_three_quarters_of_the_elbow() {
    let d = three_pairs();
    let (labels, eps) = dbscan_auto_eps(&d, 1);
    assert_eq!(labels.len(), 6);
    // Every k-distance is 0 here, so the elbow is 0.
    assert_eq!(eps, 0);
}

#[test]
fn hdbscan_on_random_unit_vectors() {
    let mut state = 42u64;
    let mut vs: Vec<Vec<f64>> = Vec::new();
    for _ in 0..50 {
        let v: Vec<f64> = (0..8).map(|_| next_rand(&mut state)).collect();
        let norm = v.iter().map(|x| x * x).sum::<f64>().sqrt();
        vs.push(v.iter().map(|x| x / norm).collect());
    }
    let d = cosine_distance_matrix(&vs);
    let labels = hdbscan(&d, 5, 3);
    assert_eq!(labels.len(), 50);
    assert!(labels.iter().all(|&l| l >= -1));
    let clusters = count_clusters(&labels);
    for c in 0..clusters {
        assert!(labels.iter().any(|&l| l as i64 == c));
    }
}

#[test]
fn count_clusters_is_one_past_the_largest_label() {
    assert_eq!(count_clusters(&vec![-1, 0, 2, 1]), 3);
    assert_eq!(count_clusters(&vec![-1, -1]), 0);
    assert_eq!(count_clusters(&vec![]), 0);
}

#[test]
fn linkage_rules() {
    let d = vec![vec![0, 2, 6], vec![2, 0, 4], vec![6, 4, 0]];
    let w = vec![1, 3, 1];
    let a = vec![0, 1];
    let b = vec![2];
    assert_eq!(cluster_distance(&a, &b, &d, &w, Linkage::Single), 4);
    assert_eq!(cluster_distance(&a, &b, &d, &w, Linkage::Complete), 6);
    assert_eq!(cluster_distance(&a, &b, &d, &w, Linkage::Average), 5);
    // (6 * 1 + 4 * 3) / (1 + 3) = 4.5, rounded down.
    assert_eq!(cluster_distance(&a, &b, &d, &w, Linkage::Weighted), 4);
}

#[test]
fn agglomerative_three_tight_pairs() {
    let d = three_pairs();
    let w = relevance_weights(&vec![1; 6], false);
    let clusters = hierarchical_clustering(&d, &w, &three_pair_embeddings(), 3, S * 9 / 10, Linkage::Single);
    assert_eq!(clusters.len(), 3);
    for c in &clusters {
        assert_eq!(c.items.len(), 2);
        assert!(!c.is_outlier);
        assert_eq!(c.total_weight, 2);
    }
    let mut all: Vec<usize> = clusters.iter().flat_map(|c| c.items.clone()).collect();
    all.sort();
    assert_eq!(all, vec![0, 1, 2, 3, 4, 5]);
    // Unit weights: the centroid sum is the plain sum of the members.
    let first = clusters.iter().find(|c| c.items.contains(&0)).unwrap();
    assert_eq!(first.centroid, vec![2 * 32768, 0, 0]);
}

#[test]
fn agglomerative_marks_far_merges_as_outliers() {
    let d = three_pairs();
    let w = relevance_weights(&vec![2, 1, 1, 1, 1, 3], true);
    assert_eq!(w, vec![2, 1, 1, 1, 1, 3]);
    let clusters = hierarchical_clustering(&d, &w, &three_pair_embeddings(), 1, S * 9 / 10, Linkage::Average);
    assert_eq!(clusters.len(), 1);
    assert_eq!(clusters[0].items.len(), 6);
    assert!(clusters[0].is_outlier);
    assert_eq!(clusters[0].max_merge_distance, S);
    assert_eq!(clusters[0].total_weight, 9);
}

#[test]
fn agglomerative_with_fewer_topics_than_target() {
    let d = vec![vec![0, 3], vec![3, 0]];
    let w = relevance_weights(&vec![4, 4], false);
    assert_eq!(w, vec![1, 1]);
    let clusters = hierarchical_clustering(&d, &w, &vec![vec![1, 0], vec![0, 1]], 5, S, Linkage::Complete);
    assert_eq!(clusters.len(), 2);
}

#[test]
fn merge_small_clusters_folds_and_renumbers() {
    // Clusters 0 (three points), 1 (one point), 2 (three points); one noise point.
    let labels = vec![0, 0, 0, 1, 2, 2, 2, -1];
    let s = 1_000_000_000i64;
    let cluster_sim = vec![vec![s, s / 10, 0], vec![s / 10, s, s / 2], vec![0, s / 2, s]];
    let mut point_sim = vec![vec![0i64; 3]; 8];
    point_sim[7] = vec![s / 5, 0, s * 8 / 10];
    let r = merge_small_clusters(&labels, &cluster_sim, &point_sim, 2, s * 7 / 10);
    assert_eq!(r, vec![0, 0, 0, 1, 1, 1, 1, 1]);
    // A higher threshold leaves the noise point alone.
    let r = merge_small_clusters(&labels, &cluster_sim, &point_sim, 2, s * 9 / 10);
    assert_eq!(r, vec![0, 0, 0, 1, 1, 1, 1, -1]);
    for l in 0..2 {
        assert!(r.iter().filter(|&&x| x == l).count() >= 2);
    }
}

#[test]
fn merge_without_large_clusters_changes_nothing() {
    let labels = vec![0, 1, -1];
    let cluster_sim = vec![vec![1, 0], vec![0, 1]];
    let point_sim = vec![vec![0, 0]; 3];
    assert_eq!(merge_small_clusters(&labels, &cluster_sim, &point_sim, 5, 0), labels);
}

#[test]
fn merge_without_large_clusters_still_renumbers() {
    let labels = vec![1, 1, -1, 3];
    let cluster_sim = vec![vec![0; 4]; 4];
    let point_sim = vec![vec![0; 4]; 4];
    assert_eq!(merge_small_clusters(&labels, &cluster_sim, &point_sim, 5, 0), vec![0, 0, -1, 1]);
}


#[test]
fn grouping_and_counting_labels() {
    let labels = vec![1, 0, -1, 1, 0, -1, -1];
    assert_eq!(count_noise(&labels), 3);
    assert_eq!(cluster_members(&labels, 2), vec![vec![1, 4], vec![0, 3]]);
}

#[test]
fn episode_lists_are_sorted_and_unique() {
    assert_eq!(sorted_unique(vec![5, 3, 5, 1, 3]), vec![1, 3, 5]);
    assert_eq!(sorted_unique(vec![]), Vec::<u32>::new());
}

#[test]
fn relevance_order_is_descending_and_stable() {
    assert_eq!(order_by_relevance(&vec![5, 9, 5, 1, 9]), vec![1, 4, 0, 2, 3]);
    assert_eq!(order_by_relevance(&vec![]), Vec::<usize>::new());
}

#[test]
fn linkage_names_fall_back_to_average() {
    assert_eq!(parse_linkage("single"), Linkage::Single);
    assert_eq!(parse_linkage("complete"), Linkage::Complete);
    assert_eq!(parse_linkage("weighted"), Linkage::Weighted);
    assert_eq!(parse_linkage("average"), Linkage::Average);
    assert_eq!(parse_linkage("ward"), Linkage::Ward);
    assert_eq!(parse_linkage("Single"), Linkage::Average);
    assert_eq!(parse_linkage(""), Linkage::Average);
}

#[test]
fn ward_distance_of_orthogonal_and_equal_centroids() {
    let a: Vec<i128> = vec![32768, 0];
    let b: Vec<i128> = vec![0, 32768];
    // Factor sqrt(2 * 1 * 1 / 2) = 1; cosine distance 1.
    assert_eq!(ward_distance(&a, 1, &b, 1), S);
    assert_eq!(ward_distance(&a, 1, &a, 1), 0);
    // Weights 2 and 2: factor sqrt(2).
    assert_eq!(ward_distance(&a, 2, &b, 2), 1_414_062_500);
    // A zero centroid is at distance 1 from everything.
    assert_eq!(ward_distance(&vec![0, 0], 1, &a, 1), S);
}

#[test]
fn agglomerative_ward_keeps_centroid_sums() {
    let d = three_pairs();
    let w = relevance_weights(&vec![1, 3, 1, 1, 1, 1], true);
    let clusters = hierarchical_clustering(&d, &w, &three_pair_embeddings(), 3, S * 9 / 10, Linkage::Ward);
    assert_eq!(clusters.len(), 3);
    for c in &clusters {
        assert_eq!(c.items.len(), 2);
        assert!(!c.is_outlier);
    }
    let first = clusters.iter().find(|c| c.items.contains(&0)).unwrap();
    assert_eq!(first.centroid, vec![4 * 32768, 0, 0]);
    assert_eq!(first.total_weight, 4);
}

#[test]
fn dbscan_labels_border_points_and_joins_close_core_points() {
    // 0, 1, 2 are mutually close (core with min_samples 3); 3 is near 0 only
    // (a border point); 4 is far from everything.
    let mut d = vec![vec![S; 5]; 5];
    for i in 0..5 {
        d[i][i] = 0;
    }
    for &(a, b, w) in &[(0, 1, S / 10), (0, 2, S / 10), (1, 2, S / 10), (0, 3, S / 7)] {
        d[a][b] = w;
        d[b][a] = w;
    }
    let labels = dbscan(&d, S / 5, 3);
    assert_eq!(labels, vec![0, 0, 0, 0, -1]);
}

#[test]
fn dbscan_border_point_takes_lowest_cluster() {
    // Two core groups {0,1,2} and {4,5,6}; point 3 is within eps of 2 and 4.
    let mut d = vec![vec![S; 7]; 7];
    for i in 0..7 {
        d[i][i] = 0;
    }
    for &(a, b) in &[(0, 1), (0, 2), (1, 2), (4, 5), (4, 6), (5, 6), (2, 3), (3, 4)] {
        d[a][b] = S / 10;
        d[b][a] = S / 10;
    }
    // With min_samples 4 only 2 and 4 are core; 3 is a border point of both
    // clusters and joins the lower one.
    let labels = dbscan(&d, S / 5, 4);
    assert_eq!(labels, vec![0, 0, 0, 0, 1, 1, 1]);
    // With min_samples 3 point 3 is core too and joins the two groups.
    let labels = dbscan(&d, S / 5, 3);
    assert_eq!(labels, vec![0, 0, 0, 0, 0, 0, 0]);
}
