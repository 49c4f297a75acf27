use random_sampling::{ReservoirSampler, Sampler, SortedSampler};

#[test]
fn test_reservoir_sampling() {
    let data: Vec<i32> = (1..=100).collect();
    let mut sampler = ReservoirSampler::new();
    let sample = sampler.sample(&data, 10);
    assert_eq!(sample.len(), 10);
}

#[test]
fn test_empty_input() {
    let data: Vec<i32> = vec![];
    let mut sampler = ReservoirSampler::new();
    let sample = sampler.sample(&data, 5);
    assert!(sample.is_empty());
}

#[test]
fn test_sorted_sampling() {
    let mut data: Vec<i32> = (1..=100).collect();
    data.sort();
    let mut sampler = SortedSampler::new();
    let sample = sampler.sample(&data, 10);
    assert_eq!(sample.len(), 10);
}

#[test]
fn test_maintains_order() {
    let data = vec![1, 2, 3, 4, 5];
    let mut sampler = SortedSampler::new();
    let sample = sampler.sample(&data, 3);
    assert!(sample.windows(2).all(|w| w[0] <= w[1]));
}

#[test]
fn test_both_samplers() {
    let data = vec![1, 2, 3, 4, 5];
    let mut reservoir = ReservoirSampler::new();
    let mut sorted = SortedSampler::new();

    assert_eq!(reservoir.sample(&data, 2).len(), 2);
    assert_eq!(sorted.sample(&data, 2).len(), 2);
}

#[test]
fn length_is_min_of_k_and_n() {
    let data: Vec<i32> = (0..17).collect();
    let mut reservoir = ReservoirSampler::new();
    let mut sorted = SortedSampler::new();
    for k in [0usize, 1, 8, 16, 17, 18, 100] {
        let expected = k.min(data.len());
        assert_eq!(reservoir.sample(&data, k).len(), expected);
        assert_eq!(sorted.sample(&data, k).len(), expected);
    }
    let empty: Vec<i32> = vec![];
    for k in [0usize, 1, 5] {
        assert_eq!(reservoir.sample(&empty, k).len(), 0);
        assert_eq!(sorted.sample(&empty, k).len(), 0);
    }
}

fn counts(values: &[i32]) -> std::collections::BTreeMap<i32, usize> {
    let mut m = std::collections::BTreeMap::new();
    for &v in values {
        *m.entry(v).or_insert(0) += 1;
    }
    m
}

#[test]
fn result_is_submultiset_of_input() {
    // duplicates on purpose: no value may appear more often than in the input
    let data = vec![3, 1, 4, 1, 5, 9, 2, 6, 5, 3, 5];
    let input_counts = counts(&data);
    let mut reservoir = ReservoirSampler::new();
    let mut sorted = SortedSampler::new();
    for _ in 0..200 {
        for k in [1usize, 4, 7, 11] {
            for sample in [reservoir.sample(&data, k), sorted.sample(&data, k)] {
                for (value, count) in counts(&sample) {
                    assert!(input_counts.contains_key(&value));
                    assert!(count <= input_counts[&value]);
                }
            }
        }
    }
}

#[test]
fn reservoir_inclusion_frequency_converges() {
    let data: Vec<i32> = (1..=100).collect();
    let trials = 5000usize;
    let k = 10usize;
    let mut hits = vec![0usize; data.len()];
    let mut sampler = ReservoirSampler::new();
    for _ in 0..trials {
        for v in sampler.sample(&data, k) {
            hits[(v - 1) as usize] += 1;
        }
    }
    // expected inclusion count is trials * k / n = 500 per element
    for (i, &h) in hits.iter().enumerate() {
        assert!(
            (350..=650).contains(&h),
            "element {} was included {} times out of {}",
            i + 1,
            h,
            trials
        );
    }
}

#[test]
fn sorted_inclusion_frequency_converges() {
    let data: Vec<i32> = (1..=100).collect();
    let trials = 5000usize;
    let k = 10usize;
    let mut hits = vec![0usize; data.len()];
    let mut sampler = SortedSampler::new();
    for _ in 0..trials {
        for v in sampler.sample(&data, k) {
            hits[(v - 1) as usize] += 1;
        }
    }
    for (i, &h) in hits.iter().enumerate() {
        assert!(
            (350..=650).contains(&h),
            "element {} was included {} times out of {}",
            i + 1,
            h,
            trials
        );
    }
}

#[test]
fn sorted_indices_strictly_increase() {
    // tag each element with its position, then check the tags
    let data: Vec<(usize, i32)> = (0..100).map(|i| (i, 1000 - i as i32)).collect();
    let mut sampler = SortedSampler::new();
    for _ in 0..100 {
        let sample = sampler.sample(&data, 20);
        assert_eq!(sample.len(), 20);
        for w in sample.windows(2) {
            assert!(w[0].0 < w[1].0);
        }
    }
}

#[test]
fn scenario_five_elements_k_two() {
    let data = vec![1, 2, 3, 4, 5];
    let mut reservoir = ReservoirSampler::new();
    let mut sorted = SortedSampler::new();

    let r = reservoir.sample(&data, 2);
    assert_eq!(r.len(), 2);
    assert!(r.iter().all(|v| data.contains(v)));

    let s = sorted.sample(&data, 2);
    assert_eq!(s.len(), 2);
    assert!(s[0] < s[1]);
    assert!(s.iter().all(|v| data.contains(v)));
}

#[test]
fn scenario_empty_input_k_five() {
    let data: Vec<i32> = vec![];
    let mut reservoir = ReservoirSampler::new();
    let mut sorted = SortedSampler::new();
    assert_eq!(reservoir.sample(&data, 5), Vec::<i32>::new());
    assert_eq!(sorted.sample(&data, 5), Vec::<i32>::new());
}

#[test]
fn scenario_fresh_instances_keep_length() {
    let data: Vec<i32> = (1..=100).collect();
    for _ in 0..20 {
        let mut reservoir = ReservoirSampler::new();
        let mut sorted = SortedSampler::new();
        assert_eq!(reservoir.sample(&data, 10).len(), 10);
        assert_eq!(sorted.sample(&data, 10).len(), 10);
    }
}

#[test]
fn scenario_oversized_k_copies_input() {
    let data = vec![1, 2, 3];
    let mut reservoir = ReservoirSampler::new();
    let mut sorted = SortedSampler::new();
    assert_eq!(reservoir.sample(&data, 10), vec![1, 2, 3]);
    assert_eq!(sorted.sample(&data, 10), vec![1, 2, 3]);
}

#[test]
fn scenario_rng_state_advances_between_calls() {
    let data: Vec<i32> = (1..=1000).collect();
    let mut reservoir = ReservoirSampler::new();
    let first = reservoir.sample(&data, 10);
    let second = reservoir.sample(&data, 10);
    assert_ne!(first, second);

    let mut sorted = SortedSampler::new();
    let first = sorted.sample(&data, 10);
    let second = sorted.sample(&data, 10);
    assert_ne!(first, second);
}
