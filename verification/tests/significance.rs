use raster_core::{BinaryImage, ClusterStat, Tally};

fn stat(size: u64, mean: u64, count: u64, boundary_len: u64) -> ClusterStat {
    ClusterStat { size, mean, count, boundary_len }
}

#[test]
fn score_of_a_single_cluster() {
    let image = BinaryImage::new_w_h(4, 4);
    // 65536 * 3 * 2 * 5 / 7 = 280868, by 2 * 4 = 35108
    let clusters = vec![stat(3, 2, 5, 7)];
    assert_eq!(image.try_significance(&clusters, 2, 1_000_000), Some(35108));
    assert_eq!(image.significance(&clusters, 2, 1_000_000), 35108);
}

#[test]
fn the_sum_stops_at_the_first_cluster_that_reaches_the_limit() {
    let image = BinaryImage::new_w_h(16, 1);
    // weights 65536, 131072, 65536; area * width = 65536
    let clusters = vec![stat(1, 1, 1, 1), stat(2, 1, 1, 1), stat(1, 1, 1, 1)];
    assert_eq!(image.significance(&clusters, 4096, 0), 1);
    assert_eq!(image.significance(&clusters, 4096, 1), 1);
    assert_eq!(image.significance(&clusters, 4096, 2), 3);
    assert_eq!(image.significance(&clusters, 4096, 3), 3);
    assert_eq!(image.significance(&clusters, 4096, 4), 4);
    assert_eq!(image.significance(&clusters, 4096, 100), 4);
}

#[test]
fn the_score_does_not_fall_when_the_threshold_is_relaxed() {
    let image = BinaryImage::new_w_h(10, 3);
    let clusters =
        vec![stat(4, 3, 9, 11), stat(1, 1, 2, 5), stat(20, 2, 30, 41), stat(2, 2, 2, 3)];
    let mut last = 0;
    for threshold in 0..200 {
        let score = image.significance(&clusters, 7, threshold);
        assert!(score >= last);
        last = score;
    }
}

#[test]
fn a_heavy_cluster_carries_the_score_over_the_threshold() {
    let image = BinaryImage::new_w_h(1, 1);
    // one cluster of weight 5 * 65536 against area * width = 65536
    let image_wide = BinaryImage::new_w_h(256, 1);
    let clusters = vec![stat(5, 1, 1, 1)];
    assert_eq!(image_wide.significance(&clusters, 256, 1), 5);
    assert_eq!(image.significance(&clusters, 65536, 1), 5);
}

#[test]
fn light_clusters_keep_the_score_within_the_threshold() {
    let image = BinaryImage::new_w_h(1024, 1);
    // each weighs 65536, below area * width = 1024 * 1024
    let clusters: Vec<ClusterStat> = (0..100).map(|_| stat(1, 1, 1, 1)).collect();
    for threshold in 0..10 {
        assert!(image.significance(&clusters, 1024, threshold) <= threshold);
    }
    assert_eq!(image.significance(&clusters, 1024, 3), 3);
    assert_eq!(image.significance(&clusters, 1024, 1000), 6);
}

#[test]
fn without_clusters_the_score_is_zero() {
    let image = BinaryImage::new_w_h(3, 3);
    assert_eq!(image.try_significance(&vec![], 5, 10), Some(0));
}

#[test]
fn the_score_is_undefined_without_a_divisor_or_a_boundary() {
    let image = BinaryImage::new_w_h(3, 3);
    let clusters = vec![stat(1, 1, 1, 1)];
    assert_eq!(image.try_significance(&clusters, 0, 10), None);
    assert_eq!(BinaryImage::new_w_h(0, 3).try_significance(&clusters, 4, 10), None);
    assert_eq!(image.try_significance(&vec![stat(1, 1, 1, 0)], 4, 10), None);
    // a cluster behind the stop is not looked at
    assert_eq!(image.try_significance(&vec![stat(1, 1, 1, 1), stat(1, 1, 1, 0)], 4, 1), Some(5461));
}

#[test]
fn the_score_is_undefined_where_an_intermediate_value_overflows() {
    let image = BinaryImage::new_w_h(3, 3);
    assert_eq!(image.try_significance(&vec![stat(u64::MAX, 1, 1, 1)], 4, 10), None);
    // the product is taken factor by factor, so a later zero does not help
    assert_eq!(image.try_significance(&vec![stat(u64::MAX, 0, 1, 1)], 4, 10), None);
    assert_eq!(image.try_significance(&vec![stat(1 << 40, 1 << 10, 1, 1)], 4, 10), None);
    // two weights of 2^63 against a limit of 3 * 2^62: the second sum overflows
    let half = stat(1 << 47, 1, 1, 1);
    assert_eq!(image.try_significance(&vec![half, half], 1 << 31, 1 << 31), None);
    assert_eq!(image.try_significance(&vec![half], 1 << 31, 1 << 31), Some(1431655765));
    // with a lower limit the first weight ends the sum
    assert_eq!(image.try_significance(&vec![half, half], 4, u32::MAX), Some(2863311530));
    assert_eq!(image.try_significance(&vec![stat(1, 1, 1, 1)], u64::MAX, 10), None);
    assert_eq!(image.try_significance(&vec![stat(1, 1, 1, 1)], 1 << 40, u32::MAX), None);
}

#[test]
fn of_a_large_quotient_the_low_bits_are_returned() {
    let image = BinaryImage::new_w_h(1, 1);
    // weight 2^16 * 2^20 = 2^36, by area * width = 1
    let clusters = vec![stat(1 << 20, 1, 1, 1), stat(3, 1, 1, 65536)];
    assert_eq!(image.try_significance(&clusters, 1, u32::MAX), Some(0));
    assert_eq!(image.try_significance(&clusters, 1, 1), Some(0));
    let clusters = vec![stat(3, 1, 1, 65536), stat(1 << 20, 1, 1, 1)];
    assert_eq!(image.try_significance(&clusters, 1, u32::MAX), Some(3));
}

#[test]
fn clustered_diff_scores_against_the_area_of_the_first_image() {
    let mut a = BinaryImage::new_w_h(4, 2);
    a.set_pixel(0, 0, true);
    a.set_pixel(1, 0, true);
    a.set_pixel(2, 1, true);
    let mut b = BinaryImage::new_w_h(4, 2);
    b.set_pixel(1, 0, true);
    let diff = a.diff(&b);
    assert_eq!(diff.area(), 2);
    // two clusters of one pixel each, as a clustering stage would report them
    let clusters = vec![stat(1, 1, 1, 1), stat(1, 1, 1, 1)];
    // 2 * 65536 by area 3 * width 4
    assert_eq!(a.clustered_diff(&b, &clusters), 10922);
    assert_eq!(a.clustered_diff(&b, &clusters), diff.significance(&clusters, a.area(), u32::MAX));
}

#[test]
fn a_tally_adds_cluster_by_cluster() {
    // area * width = 65536, limit 2 * 65536
    let mut tally = Tally::start(16, 4096, 2).unwrap();
    assert_eq!(tally.score(), 0);
    assert_eq!(tally.add(stat(1, 1, 1, 1)), Some(false));
    assert_eq!(tally.score(), 1);
    assert_eq!(tally.add(stat(2, 1, 1, 1)), Some(true));
    assert_eq!(tally.score(), 3);
}

#[test]
fn a_tally_stays_as_it_is_where_a_weight_is_undefined() {
    let mut tally = Tally::start(1, 1, 100).unwrap();
    assert_eq!(tally.add(stat(1, 1, 3, 65536)), Some(false));
    assert_eq!(tally.score(), 3);
    assert_eq!(tally.add(stat(1, 1, 1, 0)), None);
    assert_eq!(tally.add(stat(u64::MAX, 1, 1, 1)), None);
    assert_eq!(tally.score(), 3);
    assert_eq!(tally.add(stat(1, 1, 200, 65536)), Some(true));
    assert_eq!(tally.score(), 203);
}

#[test]
fn a_tally_does_not_start_without_a_divisor() {
    assert!(Tally::start(0, 5, 1).is_none());
    assert!(Tally::start(5, 0, 1).is_none());
    assert!(Tally::start(2, u64::MAX, 1).is_none());
    assert!(Tally::start(1 << 20, 1 << 20, u32::MAX).is_none());
    assert!(Tally::start(1, 1, 0).is_some());
}

#[test]
fn the_tally_and_the_whole_score_agree() {
    let image = BinaryImage::new_w_h(10, 3);
    let clusters =
        vec![stat(4, 3, 9, 11), stat(1, 1, 2, 5), stat(20, 2, 30, 41), stat(2, 2, 2, 3)];
    for threshold in [0, 1, 5, 40, 1000] {
        let mut tally = Tally::start(10, 7, threshold).unwrap();
        for c in &clusters {
            if tally.add(*c).unwrap() {
                break;
            }
        }
        assert_eq!(tally.score(), image.significance(&clusters, 7, threshold));
    }
}
