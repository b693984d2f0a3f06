use lib::FrequencyModel;

#[test]
fn new_model_counts_one_per_symbol() {
    let model = FrequencyModel::new(5);
    assert_eq!(model.alphabet_size(), 5);
    assert_eq!(model.total(), 5);
    for s in 0..5 {
        assert_eq!(model.freq(s), 1);
    }
}

#[test]
fn uniform_model_matches_new() {
    let a = FrequencyModel::new(7);
    let b = FrequencyModel::new_uniform(7);
    assert_eq!(a.alphabet_size(), b.alphabet_size());
    assert_eq!(a.total(), b.total());
    for s in 0..7 {
        assert_eq!(a.freq(s), b.freq(s));
    }
}

#[test]
fn empty_model() {
    let model = FrequencyModel::new(0);
    assert_eq!(model.alphabet_size(), 0);
    assert_eq!(model.total(), 0);
    assert_eq!(model.cumulative(0), 0);
}

#[test]
fn update_raises_one_count_and_the_total() {
    let mut model = FrequencyModel::new(3);
    model.update(0);
    model.update(0);
    model.update(1);
    // Counts [3, 2, 1], total 6.
    assert_eq!(model.freq(0), 3);
    assert_eq!(model.freq(1), 2);
    assert_eq!(model.freq(2), 1);
    assert_eq!(model.total(), 6);
}

#[test]
fn cumulative_counts() {
    let mut model = FrequencyModel::new(4);
    model.update(1);
    model.update(1);
    model.update(3);
    // Counts [1, 3, 1, 2].
    assert_eq!(model.cumulative(0), 0);
    assert_eq!(model.cumulative(1), 1);
    assert_eq!(model.cumulative(2), 4);
    assert_eq!(model.cumulative(3), 5);
    assert_eq!(model.cumulative(4), 7);
    assert_eq!(model.cumulative(4), model.total());
}

#[test]
fn cloned_model_is_independent() {
    let mut model = FrequencyModel::new(2);
    let copy = model.clone();
    model.update(1);
    assert_eq!(copy.freq(1), 1);
    assert_eq!(model.freq(1), 2);
}

#[test]
fn counts_are_one_plus_occurrences() {
    let updates = [2usize, 0, 2, 4, 2, 0];
    let mut model = FrequencyModel::new(5);
    for &u in &updates {
        model.update(u);
    }
    for s in 0..5 {
        let occ = updates.iter().filter(|&&u| u == s).count() as u64;
        assert_eq!(model.freq(s), 1 + occ);
    }
    assert_eq!(model.total(), 5 + updates.len() as u64);
}
