use similarity_metrics::cluster::{compute_bubbles, expand_clusters, nonempty_bubbles, Bubble};
use similarity_metrics::ratio::Ratio;

fn distinct_points(n: usize, d: usize) -> Vec<Vec<u8>> {
    // n distinct binary points of dimension d >= n: point i sets bit i
    let mut pts = Vec::new();
    for i in 0..n {
        let mut p = vec![0u8; d];
        p[i] = 1;
        pts.push(p);
    }
    pts
}

#[test]
fn single_bubble_holds_everything_in_order() {
    let x = vec![vec![1u8, 0, 1], vec![0u8, 1, 1], vec![1u8, 1, 1]];
    let bubbles = compute_bubbles(&x, 1);
    assert_eq!(bubbles.len(), 1);
    assert_eq!(bubbles[0].objects, x);
}

#[test]
fn single_bubble_representative_is_whole_set_mean() {
    let x = vec![vec![1u8, 0, 1], vec![0u8, 1, 1], vec![1u8, 1, 1]];
    let bubbles = compute_bubbles(&x, 1);
    let b = &bubbles[0];
    let sums = b.rep_sums();
    assert_eq!(sums, vec![2, 2, 3]);
    let n = b.n() as f64;
    let rep: Vec<f64> = sums.iter().map(|&s| s as f64 / n).collect();
    // coordinate-wise mean of the whole set
    let expected = vec![2.0 / 3.0, 2.0 / 3.0, 1.0];
    for (r, e) in rep.iter().zip(expected.iter()) {
        assert!((r - e).abs() < 1e-12);
    }
}

#[test]
fn every_point_lands_in_exactly_one_bubble() {
    let x = distinct_points(12, 12);
    let bubbles = nonempty_bubbles(compute_bubbles(&x, 5));
    let mut collected: Vec<Vec<u8>> = Vec::new();
    let mut total = 0;
    for b in &bubbles {
        assert!(b.n() > 0);
        total += b.n();
        collected.extend(b.objects.iter().cloned());
    }
    assert_eq!(total, x.len());
    let mut sorted_in = x.clone();
    sorted_in.sort();
    collected.sort();
    assert_eq!(collected, sorted_in);
}

#[test]
fn all_seeds_anchor_their_own_bubble() {
    // with k == n and pairwise-distinct points every seed is its own unique
    // nearest seed, so no bubble may come out empty; a faulty index sample
    // (repeated or out-of-range indices) would break this
    let n = 10;
    let x = distinct_points(n, n);
    let bubbles = compute_bubbles(&x, n);
    assert_eq!(bubbles.len(), n);
    for b in &bubbles {
        assert_eq!(b.n(), 1);
    }
}

#[test]
fn bubble_accessors_and_extent() {
    let b = Bubble { objects: vec![vec![0u8, 0], vec![1u8, 1]] };
    assert_eq!(b.n(), 2);
    assert_eq!(b.d(), 2);
    // ordered pairs (0,1) and (1,0), each with squared distance 2; mean over
    // n * (n - 1) = 2 ordered non-self pairs
    assert_eq!(b.extent_sq(), Some(Ratio { num: 4, den: 2 }));

    let single = Bubble { objects: vec![vec![1u8, 0]] };
    assert_eq!(single.extent_sq(), None);
}

#[test]
fn expand_clusters_concatenates_member_bubbles() {
    let b0 = Bubble { objects: vec![vec![1u8, 0]] };
    let b1 = Bubble { objects: vec![vec![0u8, 1], vec![1u8, 1]] };
    let b2 = Bubble { objects: vec![vec![0u8, 0]] };
    let bubbles = vec![b0, b1, b2];
    let clusters = vec![vec![0usize, 2], vec![1usize]];
    let groups = expand_clusters(&bubbles, &clusters);
    assert_eq!(groups.len(), 2);
    assert_eq!(groups[0], vec![vec![1u8, 0], vec![0u8, 0]]);
    assert_eq!(groups[1], vec![vec![0u8, 1], vec![1u8, 1]]);
}
