use peer_graph::analysis::{
    analyze_behavior_by_degree, compute_degree_distribution, compute_distance_2_neighbors,
};
use peer_graph::graph::create_graph;
use peer_graph::record::{should_connect, Person};

fn person(peer: i32, age: &str, ses: &str, smoking: i64, drug: i64) -> Person {
    Person {
        peer_influence: peer,
        age_group: age.to_string(),
        socioeconomic_status: ses.to_string(),
        smoking_prevalence: smoking,
        drug_experimentation: drug,
    }
}

#[test]
fn test_should_connect() {
    let person1 = person(7, "10-14", "Low", 2500, 3000);
    let person2 = person(8, "10-14", "Low", 3000, 3500);
    assert!(should_connect(&person1, &person2));
}

#[test]
fn test_degree_distribution() {
    let data = vec![person(7, "10-14", "Low", 2500, 3000), person(8, "10-14", "Low", 3000, 3500)];
    let (graph, _) = create_graph(&data);
    let degree_distribution = compute_degree_distribution(&graph);

    assert_eq!(degree_distribution.get(&1), Some(&2)); // Two nodes with degree 1
}

#[test]
fn test_behavior_by_degree() {
    let data = vec![person(7, "10-14", "Low", 2500, 3000), person(7, "10-14", "Low", 3000, 3500)];
    let (graph, node_map) = create_graph(&data);
    let behavior_by_degree = analyze_behavior_by_degree(&graph, &data, &node_map);

    let totals = behavior_by_degree.get(&1).unwrap();
    assert_eq!(totals.count, 2);
    let smoking_mean = totals.smoking_sum as f32 / totals.count as f32 / 100.0;
    let drug_mean = totals.drug_sum as f32 / totals.count as f32 / 100.0;
    assert_eq!((smoking_mean, drug_mean), (27.5, 32.5));
}

#[test]
fn connect_is_symmetric() {
    let a = person(3, "15-19", "High", 100, 200);
    let b = person(5, "15-19", "High", 300, 400);
    let c = person(9, "15-19", "High", 300, 400);
    let d = person(5, "15-19", "Low", 300, 400);
    assert_eq!(should_connect(&a, &b), should_connect(&b, &a));
    assert_eq!(should_connect(&a, &c), should_connect(&c, &a));
    assert_eq!(should_connect(&a, &d), should_connect(&d, &a));
}

#[test]
fn connect_rejects_far_scores_and_label_mismatch() {
    let a = person(3, "15-19", "High", 0, 0);
    assert!(!should_connect(&a, &person(6, "15-19", "High", 0, 0)));
    assert!(!should_connect(&a, &person(3, "10-14", "High", 0, 0)));
    assert!(!should_connect(&a, &person(3, "15-19", "Middle", 0, 0)));
    assert!(should_connect(&a, &person(1, "15-19", "High", 0, 0)));
}

#[test]
fn empty_input_gives_empty_results() {
    let data: Vec<Person> = Vec::new();
    let (graph, node_map) = create_graph(&data);
    assert!(node_map.is_empty());
    assert!(compute_degree_distribution(&graph).is_empty());
    assert!(compute_distance_2_neighbors(&graph).is_empty());
    assert!(analyze_behavior_by_degree(&graph, &data, &node_map).is_empty());
}

#[test]
fn isolated_node_counts_under_degree_zero() {
    // two similar records and one that matches nobody
    let data = vec![
        person(7, "10-14", "Low", 1000, 1000),
        person(8, "10-14", "Low", 1000, 1000),
        person(50, "20-24", "High", 1000, 1000),
    ];
    let (graph, _) = create_graph(&data);
    let dist = compute_degree_distribution(&graph);
    assert_eq!(dist.get(&1), Some(&2));
    assert_eq!(dist.get(&0), Some(&1));
    assert_eq!(dist.get(&2), None);
}

#[test]
fn distribution_counts_cover_all_nodes() {
    let data = vec![
        person(1, "10-14", "Low", 0, 0),
        person(2, "10-14", "Low", 0, 0),
        person(3, "10-14", "Low", 0, 0),
        person(99, "10-14", "Low", 0, 0),
    ];
    let (graph, _) = create_graph(&data);
    let dist = compute_degree_distribution(&graph);
    let total: usize = dist.values().sum();
    assert_eq!(total, data.len());
}

#[test]
fn degree_sum_is_twice_edge_count() {
    // a path 0-1-2 plus an isolated node: 2 edges
    let data = vec![
        person(0, "10-14", "Low", 0, 0),
        person(2, "10-14", "Low", 0, 0),
        person(4, "10-14", "Low", 0, 0),
        person(42, "20-24", "High", 0, 0),
    ];
    let (graph, _) = create_graph(&data);
    let dist = compute_degree_distribution(&graph);
    let degree_total: usize = dist.iter().map(|(d, c)| d * c).sum();
    assert_eq!(degree_total, 2 * 2);
}

#[test]
fn distance_2_on_a_pair_is_empty() {
    let data = vec![person(7, "10-14", "Low", 0, 0), person(8, "10-14", "Low", 0, 0)];
    let (graph, _) = create_graph(&data);
    let d2 = compute_distance_2_neighbors(&graph);
    // the only two-hop walk returns to the origin, which is excluded
    assert_eq!(d2.get(&0), Some(&0));
    assert_eq!(d2.get(&1), Some(&0));
}

#[test]
fn distance_2_on_a_path_reaches_the_far_end() {
    // path 0-1-2: peer scores 0, 2, 4
    let data = vec![
        person(0, "10-14", "Low", 0, 0),
        person(2, "10-14", "Low", 0, 0),
        person(4, "10-14", "Low", 0, 0),
    ];
    let (graph, _) = create_graph(&data);
    let d2 = compute_distance_2_neighbors(&graph);
    assert_eq!(d2.get(&0), Some(&1));
    assert_eq!(d2.get(&1), Some(&0));
    assert_eq!(d2.get(&2), Some(&1));
}

#[test]
fn distance_2_on_a_triangle_includes_direct_neighbors() {
    // three mutually similar records; every two-hop walk from a corner ends
    // at the other two corners, which are direct neighbors but still counted
    let data = vec![
        person(7, "10-14", "Low", 0, 0),
        person(7, "10-14", "Low", 0, 0),
        person(7, "10-14", "Low", 0, 0),
    ];
    let (graph, _) = create_graph(&data);
    let dist = compute_degree_distribution(&graph);
    assert_eq!(dist.get(&2), Some(&3));
    let d2 = compute_distance_2_neighbors(&graph);
    assert_eq!(d2.get(&0), Some(&2));
    assert_eq!(d2.get(&1), Some(&2));
    assert_eq!(d2.get(&2), Some(&2));
}

#[test]
fn behavior_means_stay_within_contributing_extremes() {
    let data = vec![
        person(7, "10-14", "Low", 2500, 3000),
        person(8, "10-14", "Low", 3000, 3500),
        person(9, "10-14", "Low", 1000, 9000),
    ];
    let (graph, node_map) = create_graph(&data);
    let behavior = analyze_behavior_by_degree(&graph, &data, &node_map);
    for (_, totals) in behavior.iter() {
        let c = totals.count as i128;
        assert!(c * 1000 <= totals.smoking_sum && totals.smoking_sum <= c * 3000);
        assert!(c * 3000 <= totals.drug_sum && totals.drug_sum <= c * 9000);
    }
}

#[test]
fn repeated_runs_agree() {
    let data = vec![
        person(1, "10-14", "Low", 100, 200),
        person(2, "10-14", "Low", 300, 400),
        person(8, "10-14", "High", 500, 600),
        person(9, "10-14", "High", 700, 800),
        person(3, "15-19", "Low", 900, 1000),
    ];
    let (graph1, node_map1) = create_graph(&data);
    let (graph2, node_map2) = create_graph(&data);
    assert_eq!(
        compute_degree_distribution(&graph1),
        compute_degree_distribution(&graph2)
    );
    assert_eq!(
        compute_distance_2_neighbors(&graph1),
        compute_distance_2_neighbors(&graph2)
    );
    assert_eq!(
        analyze_behavior_by_degree(&graph1, &data, &node_map1),
        analyze_behavior_by_degree(&graph2, &data, &node_map2)
    );
}

#[test]
fn node_map_follows_record_order() {
    let data = vec![
        person(1, "10-14", "Low", 0, 0),
        person(2, "10-14", "Low", 0, 0),
        person(3, "10-14", "Low", 0, 0),
    ];
    let (_, node_map) = create_graph(&data);
    assert_eq!(node_map.len(), 3);
    for i in 0..3usize {
        assert_eq!(node_map.get(&i).unwrap().index(), i);
    }
}

#[test]
fn run_pipeline_matches_the_individual_passes() {
    let data = vec![
        person(1, "10-14", "Low", 100, 200),
        person(2, "10-14", "Low", 300, 400),
        person(3, "10-14", "Low", 500, 600),
        person(42, "20-24", "High", 700, 800),
    ];
    let (dist, d2, behavior) = peer_graph::analysis::run_pipeline(&data);
    let (graph, node_map) = create_graph(&data);
    assert_eq!(dist, compute_degree_distribution(&graph));
    assert_eq!(d2, compute_distance_2_neighbors(&graph));
    assert_eq!(behavior, analyze_behavior_by_degree(&graph, &data, &node_map));
}
