use hft_channel::report::{skipped, ReaderLog, WriterLog};
use hft_channel::trials::{csv_header, csv_line};
use hft_channel::Trials;

fn position(n: usize, p: f64) -> usize {
    ((n - 1) as f64 * p).round() as usize
}

#[test]
fn trials_push_len_min_max_quantile() {
    let mut trials = Trials::with_capacity(10);
    assert_eq!(trials.len(), 0);

    trials.push(5);
    trials.push(1);
    trials.push(9);
    trials.push(3);
    trials.push(7);

    assert_eq!(trials.len(), 5);

    // Sort before using min/max/quantile
    trials.sort();

    // After sort, trials should be [1, 3, 5, 7, 9]
    assert_eq!(*trials.min(), 1);
    assert_eq!(*trials.max(), 9);

    // Check a few quantiles with known positions:
    // n = 5, indices are round((n-1) * p)
    // p = 0.0  -> idx = 0  -> 1
    // p = 0.5  -> idx = 2  -> 5
    // p = 1.0  -> idx = 4  -> 9
    assert_eq!(*trials.at(position(trials.len(), 0.0)), 1);
    assert_eq!(*trials.at(position(trials.len(), 0.5)), 5);
    assert_eq!(*trials.at(position(trials.len(), 1.0)), 9);
}

#[test]
fn trials_print_csv_smoke_test() {
    let mut trials = Trials::with_capacity(5);
    trials.push(10);
    trials.push(20);
    trials.push(30);
    trials.sort();

    let quantiles = [0.1, 0.5, 0.75, 0.9, 0.95, 0.99, 0.999, 0.9999, 0.99999];
    let positions: Vec<usize> = quantiles.iter().map(|p| position(3, *p)).collect();
    let line = csv_line(&trials.csv_fields("test_trials", &positions));
    assert_eq!(line, "test_trials,3,10,30,10,20,30,30,30,30,30,30,30");
    assert_eq!(
        csv_header(),
        "name,n,min,max,0.1,0.5,0.75,0.9,0.95,0.99,0.999,0.9999,0.99999"
    );
    assert_eq!(csv_header().split(',').count(), line.split(',').count());
}

#[test]
fn lines_of_few_fields() {
    assert_eq!(csv_line(&vec![]), "");
    assert_eq!(csv_line(&vec!["a".to_string()]), "a");
    assert_eq!(csv_line(&vec!["a".to_string(), "".to_string(), "c".to_string()]), "a,,c");
}

#[test]
fn trials_know_whether_they_are_empty() {
    let mut trials: Trials<u64> = Trials::with_capacity(0);
    assert!(trials.is_empty());
    trials.sort();
    assert!(trials.is_empty());
    trials.push(1);
    assert!(!trials.is_empty());
    trials.sort();
    assert_eq!((*trials.min(), *trials.max()), (1, 1));
}

#[test]
fn sorting_keeps_every_measurement() {
    let values = [5u64, 3, 5, 0, 9, 3, 3, 12, 1, 7, 7, 2, u64::MAX, 4];
    let mut trials = Trials::with_capacity(values.len());
    for v in values {
        trials.push(v);
    }
    trials.sort();
    let mut expected = values;
    expected.sort();
    assert_eq!(trials.len(), expected.len());
    for i in 0..expected.len() {
        assert_eq!(*trials.at(i), expected[i]);
    }
}

#[test]
fn sorting_is_stable() {
    #[derive(Debug)]
    struct Pair(u32, u32);
    impl PartialEq for Pair {
        fn eq(&self, other: &Pair) -> bool {
            self.0 == other.0
        }
    }
    impl Eq for Pair {}
    impl PartialOrd for Pair {
        fn partial_cmp(&self, other: &Pair) -> Option<std::cmp::Ordering> {
            Some(self.cmp(other))
        }
    }
    impl Ord for Pair {
        fn cmp(&self, other: &Pair) -> std::cmp::Ordering {
            self.0.cmp(&other.0)
        }
    }
    let mut trials = Trials::with_capacity(0);
    for (i, key) in [2, 1, 2, 0, 1, 2, 0, 1].iter().enumerate() {
        trials.push(Pair(*key, i as u32));
    }
    trials.sort();
    let order: Vec<u32> = (0..trials.len()).map(|i| trials.at(i).1).collect();
    assert_eq!(order, vec![3, 6, 1, 4, 7, 0, 2, 5]);
}

#[test]
fn a_gap_in_the_numbers_is_reported() {
    assert_eq!(skipped(0, 17), None);
    assert_eq!(skipped(17, 18), None);
    assert_eq!(skipped(17, 19), Some(2));
    assert_eq!(skipped(17, 17), Some(0));
    assert_eq!(skipped(0, 0), None);
}

#[test]
fn a_writer_notes_down_times() {
    let mut log = WriterLog::new(2);
    assert!(!log.note(100, 130, 135));
    assert!(log.note(200, 210, 220));
    let (sending, clock) = log.finish();
    assert_eq!((*sending.min(), *sending.max(), sending.len()), (10, 30, 2));
    assert_eq!((*clock.min(), *clock.max(), clock.len()), (5, 10, 2));
}

#[test]
fn a_reader_notes_down_times_and_gaps() {
    let mut log = ReaderLog::new(3);
    assert_eq!(log.previous(), 0);
    assert_eq!(log.note(100, 110, 130, 5), (None, false));
    assert_eq!(log.previous(), 5);
    assert_eq!(log.note(140, 120, 145, 6), (None, false));
    assert_eq!(log.note(150, 155, 156, 14), (Some(8), true));
    let (transit, waiting) = log.finish();
    assert_eq!((*transit.min(), *transit.at(1), *transit.max()), (1, 20, 25));
    assert_eq!((*waiting.min(), *waiting.at(1), *waiting.max()), (5, 6, 30));
}
