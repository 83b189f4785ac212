use proof_of_sql::composite_polynomial_builder::{
    CompositePolynomialBuilder, EvaluationVector,
};
use proof_of_sql::scalar::Scalar;

fn ev(id: u64, values: Vec<u64>) -> EvaluationVector {
    EvaluationVector {
        id,
        values: values.into_iter().map(Scalar).collect(),
    }
}

#[test]
fn we_materialize_a_shared_evaluation_vector_once() {
    let mut builder = CompositePolynomialBuilder::new(2, &[Scalar(5), Scalar(6)]);
    builder.produce_fr_multiplicand(&Scalar(7), &[ev(1, vec![1, 2]), ev(2, vec![3])]);
    assert_eq!(builder.mles.len(), 2);
    // The same vector identity in a second product reuses its slot.
    builder.produce_fr_multiplicand(&Scalar(8), &[ev(1, vec![1, 2]), ev(3, vec![4])]);
    assert_eq!(builder.mles.len(), 3);
    builder.produce_zerosum_multiplicand(&Scalar(9), &[ev(1, vec![1, 2]), ev(3, vec![4])]);
    assert_eq!(builder.mles.len(), 3);
}

#[test]
fn equal_values_under_distinct_identities_stay_distinct() {
    let mut builder = CompositePolynomialBuilder::new(1, &[Scalar(5)]);
    builder.produce_fr_multiplicand(&Scalar(7), &[ev(1, vec![9]), ev(2, vec![9])]);
    assert_eq!(builder.mles.len(), 2);
}

#[test]
fn empty_fr_term_matches_a_constant_one_vector_term() {
    let fr = [Scalar(3), Scalar(4), Scalar(5)];
    let mut broadcast_builder = CompositePolynomialBuilder::new(2, &fr);
    let mut fold_builder = CompositePolynomialBuilder::new(2, &fr);

    broadcast_builder.produce_fr_multiplicand(&Scalar(7), &[]);
    fold_builder.produce_fr_multiplicand(&Scalar(7), &[ev(1, vec![1, 1, 1])]);

    assert_eq!(
        broadcast_builder.fr_multiplicands_degree1,
        fold_builder.fr_multiplicands_degree1
    );
    let broadcast_poly = broadcast_builder.make_composite_polynomial();
    let fold_poly = fold_builder.make_composite_polynomial();
    assert_eq!(broadcast_poly.multiplicands[1], fold_poly.multiplicands[1]);
}

#[test]
fn single_term_products_fold_into_the_degree_one_accumulator() {
    let fr = [Scalar(0), Scalar(0), Scalar(0)];
    let mut builder = CompositePolynomialBuilder::new(2, &fr);
    builder.produce_fr_multiplicand(&Scalar(10), &[ev(1, vec![2, 3])]);
    assert_eq!(
        builder.fr_multiplicands_degree1,
        vec![Scalar(20), Scalar(30), Scalar(0)]
    );
    // No product list and no materialization for the single-term case.
    assert_eq!(builder.fr_multiplicands_rest.len(), 0);
    assert_eq!(builder.mles.len(), 0);
}

#[test]
fn make_composite_polynomial_assembles_all_products() {
    let fr = [Scalar(3), Scalar(4)];
    let mut builder = CompositePolynomialBuilder::new(2, &fr);
    builder.produce_fr_multiplicand(&Scalar(7), &[ev(1, vec![1, 2]), ev(2, vec![3])]);
    builder.produce_zerosum_multiplicand(&Scalar(9), &[ev(1, vec![1, 2])]);
    let poly = builder.make_composite_polynomial();

    assert_eq!(poly.num_variables, 2);
    // fr, the padded accumulator, and the two materialized vectors.
    assert_eq!(poly.multiplicands.len(), 4);
    assert_eq!(
        poly.multiplicands[0],
        vec![Scalar(3), Scalar(4), Scalar(0), Scalar(0)]
    );
    assert_eq!(
        poly.multiplicands[1],
        vec![Scalar(0), Scalar(0), Scalar(0), Scalar(0)]
    );
    assert_eq!(
        poly.multiplicands[2],
        vec![Scalar(1), Scalar(2), Scalar(0), Scalar(0)]
    );
    assert_eq!(
        poly.multiplicands[3],
        vec![Scalar(3), Scalar(0), Scalar(0), Scalar(0)]
    );

    assert_eq!(poly.products.len(), 3);
    assert_eq!(poly.products[0], (Scalar(1), vec![0, 1]));
    assert_eq!(poly.products[1], (Scalar(7), vec![0, 2, 3]));
    assert_eq!(poly.products[2], (Scalar(9), vec![2]));
}

#[test]
fn every_materialized_vector_has_the_hypercube_length() {
    let mut builder = CompositePolynomialBuilder::new(3, &[Scalar(1)]);
    builder.produce_fr_multiplicand(&Scalar(2), &[ev(1, vec![5]), ev(2, vec![6, 7, 8])]);
    for mle in &builder.mles {
        assert_eq!(mle.len(), 8);
    }
    assert_eq!(builder.fr.len(), 8);
}

#[test]
fn scalar_arithmetic_wraps() {
    assert_eq!(Scalar(u64::MAX).add(Scalar(1)), Scalar(0));
    assert_eq!(Scalar(u64::MAX).add(Scalar(0)), Scalar(u64::MAX));
    assert_eq!(Scalar(1 << 63).mul(Scalar(2)), Scalar(0));
    assert_eq!(Scalar(7).mul(Scalar(6)), Scalar(42));
    assert_eq!(Scalar::zero(), Scalar(0));
    assert_eq!(Scalar::one(), Scalar(1));
}

#[test]
fn broadcasts_accumulate_across_calls() {
    let fr = [Scalar(0), Scalar(0)];
    let mut builder = CompositePolynomialBuilder::new(1, &fr);
    builder.produce_fr_multiplicand(&Scalar(5), &[]);
    builder.produce_fr_multiplicand(&Scalar(6), &[]);
    assert_eq!(
        builder.fr_multiplicands_degree1,
        vec![Scalar(11), Scalar(11)]
    );
}
