use cull::measure::Timings;

#[test]
fn timings_come_down_to_a_few_figures() {
    let t = Timings::new(&vec![50, 10, 40, 20, 30, 20]);
    assert_eq!(t.len(), 6);
    // 10 20 20 30 40 50: the later of the two in the middle.
    assert_eq!(t.median(), Some(30));
    assert_eq!(t.worst(), Some(50));
    assert_eq!(t.over(20), 3);
    assert_eq!(t.over(50), 0);
}

#[test]
fn percentiles_round_down_to_a_measured_time() {
    let t = Timings::new(&(0..101).rev().collect());
    assert_eq!(t.at_percent(0), Some(0));
    assert_eq!(t.at_percent(50), Some(50));
    assert_eq!(t.at_percent(90), Some(90));
    assert_eq!(t.at_percent(99), Some(99));
    assert_eq!(t.at_percent(100), Some(100));
    let t = Timings::new(&vec![3, 1, 2]);
    assert_eq!(t.at_percent(50), Some(2));
    assert_eq!(t.at_percent(99), Some(2));
}

#[test]
fn percentiles_stand_where_a_quantile_of_the_list_does() {
    for n in 1..400usize {
        let t = Timings::new(&(0..n as u64).collect());
        for (percent, q) in [(50, 0.50), (90, 0.90), (99, 0.99), (100, 1.0)] {
            let at = ((n as f64 - 1.0) * q) as u64;
            assert_eq!(t.at_percent(percent), Some(at), "{percent} percent of {n}");
        }
    }
}

#[test]
fn no_times_give_no_figures() {
    let t = Timings::new(&Vec::new());
    assert!(t.is_empty());
    assert_eq!(t.median(), None);
    assert_eq!(t.worst(), None);
    assert_eq!(t.at_percent(50), None);
    assert_eq!(t.over(0), 0);
}
