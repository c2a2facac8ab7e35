use circuit_lab::dbscan::{dbscan, get_max_index, get_min_index, try_dbscan, DbscanPt};

fn points(indices: &[usize]) -> Vec<DbscanPt> {
    indices.iter().map(|&index| DbscanPt { index, class: -1 }).collect()
}

fn classes(pts: &[DbscanPt]) -> Vec<i8> {
    pts.iter().map(|p| p.class).collect()
}

#[test]
fn two_groups_and_a_noise_point() {
    let mut pts = points(&[0, 1, 2, 3, 4, 20, 21, 22, 23, 50]);
    let n = dbscan(&mut pts, 2, 2);
    assert_eq!(n, 2);
    assert_eq!(classes(&pts), vec![1, 1, 1, 1, 1, 2, 2, 2, 2, 0]);
    assert_eq!(get_min_index(&pts, 1), 0);
    assert_eq!(get_max_index(&pts, 1), 4);
    assert_eq!(get_min_index(&pts, 2), 20);
    assert_eq!(get_max_index(&pts, 2), 23);
    assert_eq!(get_min_index(&pts, 3), usize::MAX);
    assert_eq!(get_max_index(&pts, 3), 0);
}

#[test]
fn border_point_joins_the_cluster_of_its_core_neighbour() {
    let mut pts = points(&[0, 1, 2, 4, 10]);
    let n = dbscan(&mut pts, 2, 2);
    assert_eq!(n, 1);
    assert_eq!(classes(&pts), vec![1, 1, 1, 1, 0]);
}

#[test]
fn noise_seen_first_is_taken_in_later() {
    // Point 4 is visited first; it has a single neighbour and becomes noise, then joins
    // the cluster grown from the core points behind it.
    let mut pts = points(&[4, 0, 1, 2]);
    let n = dbscan(&mut pts, 2, 2);
    assert_eq!(n, 1);
    assert_eq!(classes(&pts), vec![1, 1, 1, 1]);
}

#[test]
fn classes_already_set_are_kept() {
    let mut pts = vec![
        DbscanPt { index: 0, class: 5 },
        DbscanPt { index: 1, class: -1 },
        DbscanPt { index: 2, class: -1 },
        DbscanPt { index: 3, class: -1 },
    ];
    let n = dbscan(&mut pts, 1, 2);
    assert_eq!(n, 1);
    assert_eq!(classes(&pts), vec![5, 1, 1, 1]);
}

#[test]
fn running_twice_changes_nothing() {
    let mut pts = points(&[0, 1, 2, 3, 9, 30, 31, 32]);
    let n = dbscan(&mut pts, 1, 2);
    assert_eq!(n, 2);
    let first = classes(&pts);
    assert_eq!(first, vec![1, 1, 1, 1, 0, 2, 2, 2]);
    let again = dbscan(&mut pts, 1, 2);
    assert_eq!(again, 0);
    assert_eq!(classes(&pts), first);
}

#[test]
fn duplicate_indices_are_not_neighbours() {
    let mut pts = points(&[5, 5, 5]);
    let n = dbscan(&mut pts, 3, 1);
    assert_eq!(n, 0);
    assert_eq!(classes(&pts), vec![0, 0, 0]);
}

#[test]
fn neighbours_count_both_ways() {
    // Each of the two points is the other's only neighbour, so with one neighbour enough
    // both are core points of the same cluster.
    let mut pts = points(&[0, 2]);
    let n = dbscan(&mut pts, 2, 1);
    assert_eq!(n, 1);
    assert_eq!(classes(&pts), vec![1, 1]);
}

fn pairs(n: usize) -> Vec<DbscanPt> {
    let mut idx = Vec::new();
    for k in 0..n {
        idx.push(10 * k);
        idx.push(10 * k + 1);
    }
    points(&idx)
}

#[test]
fn try_dbscan_runs_up_to_127_clusters() {
    let mut pts = pairs(127);
    assert_eq!(try_dbscan(&mut pts, 1, 1), Some(127));
    assert_eq!(pts[0].class, 1);
    assert_eq!(pts[253].class, 127);
}

#[test]
fn try_dbscan_refuses_a_128th_cluster() {
    let mut pts = pairs(128);
    assert_eq!(try_dbscan(&mut pts, 1, 1), None);
    assert!(pts.iter().all(|p| p.class == -1));
}
