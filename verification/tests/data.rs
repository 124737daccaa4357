use sorting_tutor::data::{
    sequential_values, shape_values, uniform_values, DataGenerationOption, DataShapeOption,
};

fn sorted_copy(x: &[usize]) -> Vec<usize> {
    let mut v = x.to_vec();
    v.sort();
    v
}

#[test]
fn sequential_counts_from_one() {
    assert_eq!(sequential_values(5), vec![1, 2, 3, 4, 5]);
    assert!(sequential_values(0).is_empty());
}

#[test]
fn uniform_values_stay_in_range() {
    let mut rng = rand::rng();
    let v = uniform_values(&mut rng, 200);
    assert_eq!(v.len(), 200);
    assert!(v.iter().all(|&x| (10..99).contains(&x)));
    // 200 draws from 89 values are all equal with negligible probability
    assert!(v.iter().any(|&x| x != v[0]));
}

#[test]
fn shuffled_keeps_the_values() {
    let mut rng = rand::rng();
    let v = shape_values(&mut rng, sequential_values(30), DataShapeOption::Shuffled);
    assert_eq!(sorted_copy(&v), sequential_values(30));
    // a shuffle of 30 values keeps their order with negligible probability
    assert_ne!(v, sequential_values(30));
}

#[test]
fn ascending_and_descending() {
    let mut rng = rand::rng();
    let x = vec![5, 1, 4, 1, 3];
    assert_eq!(shape_values(&mut rng, x.clone(), DataShapeOption::Ascending), vec![1, 1, 3, 4, 5]);
    assert_eq!(shape_values(&mut rng, x, DataShapeOption::Descending), vec![5, 4, 3, 1, 1]);
}

#[test]
fn mountain_rises_then_falls() {
    let mut rng = rand::rng();
    let v = shape_values(&mut rng, vec![8, 3, 1, 6, 2, 7, 5, 4], DataShapeOption::Mountain);
    assert_eq!(v, vec![1, 3, 5, 7, 8, 6, 4, 2]);
}

#[test]
fn valley_falls_then_rises() {
    let mut rng = rand::rng();
    let v = shape_values(&mut rng, sequential_values(8), DataShapeOption::Valley);
    assert_eq!(v, vec![7, 5, 3, 1, 2, 4, 6, 8]);
}

#[test]
fn mountain_of_odd_length() {
    let mut rng = rand::rng();
    let v = shape_values(&mut rng, sequential_values(7), DataShapeOption::Mountain);
    assert_eq!(v, vec![1, 3, 5, 7, 6, 4, 2]);
}

#[test]
fn option_names_round_trip() {
    for g in [
        DataGenerationOption::Sequential,
        DataGenerationOption::RandomUniform,
        DataGenerationOption::RandomGaussian,
    ] {
        assert_eq!(DataGenerationOption::from_name(g.name()), g);
    }
    for s in [
        DataShapeOption::Shuffled,
        DataShapeOption::Ascending,
        DataShapeOption::Descending,
        DataShapeOption::Mountain,
        DataShapeOption::Valley,
    ] {
        assert_eq!(DataShapeOption::from_name(s.name()), s);
    }
    assert_eq!(DataGenerationOption::from_name("nope"), DataGenerationOption::Sequential);
    assert_eq!(DataShapeOption::from_name(""), DataShapeOption::Shuffled);
    assert_eq!(DataGenerationOption::RandomUniform.name(), "rng: uniform");
    assert_eq!(DataShapeOption::default(), DataShapeOption::Shuffled);
    assert_eq!(DataGenerationOption::default(), DataGenerationOption::Sequential);
}
