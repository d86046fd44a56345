use ndarray::Array2;
use petal_clustering::{Fit, Optics};
use petal_neighbors::distance::Euclidean;
use similarity_metrics::cluster::{compute_bubbles, expand_clusters, nonempty_bubbles};

// Two well-separated dense groups of fifty distinct points each. Every point
// carries its group's eight core bits plus one bit of its own, so points of
// one group differ pairwise in two positions and points of different groups
// in at least eighteen.
fn two_groups() -> (Vec<Vec<u8>>, Vec<Vec<u8>>) {
    let d = 116;
    let mut a = Vec::new();
    for i in 0..50 {
        let mut p = vec![0u8; d];
        for c in 0..8 {
            p[c] = 1;
        }
        p[8 + i] = 1;
        a.push(p);
    }
    let mut b = Vec::new();
    for i in 0..50 {
        let mut p = vec![0u8; d];
        for c in 58..66 {
            p[c] = 1;
        }
        p[66 + i] = 1;
        b.push(p);
    }
    (a, b)
}

#[test]
fn pipeline_recovers_two_well_separated_groups() {
    let (ga, gb) = two_groups();
    let mut x: Vec<Vec<u8>> = Vec::new();
    x.extend(ga.iter().cloned());
    x.extend(gb.iter().cloned());

    let k = 30;
    let tolerance = 2.0;
    let min_pts = 3;

    let bubbles = nonempty_bubbles(compute_bubbles(&x, k));
    assert!(!bubbles.is_empty());

    // representative matrix: one row per surviving bubble, its mean vector
    let d = bubbles[0].d();
    let mut rows: Vec<f64> = Vec::new();
    for b in &bubbles {
        let n = b.n() as f64;
        for s in b.rep_sums() {
            rows.push(s as f64 / n);
        }
    }
    let rep = Array2::from_shape_vec((bubbles.len(), d), rows).unwrap();

    let clustering = Optics::new(tolerance, min_pts, Euclidean::default()).fit(&rep, None);
    let clusters: Vec<Vec<usize>> = clustering.0.values().cloned().collect();
    assert_eq!(clusters.len(), 2);

    let groups = expand_clusters(&bubbles, &clusters);

    // the union of the two clusters recovers both groups fully
    let mut recovered: Vec<Vec<u8>> = groups.into_iter().flatten().collect();
    recovered.sort();
    let mut expected = x.clone();
    expected.sort();
    assert_eq!(recovered, expected);

    // and each cluster holds exactly one group
    let groups2 = expand_clusters(&bubbles, &clusters);
    for g in &groups2 {
        let in_a = g.iter().filter(|p| p[0] == 1).count();
        assert!(in_a == 0 || in_a == g.len());
    }
}
