//! Building a composite multivariate polynomial from evaluation vectors.
//!
//! The builder accumulates scalar-weighted products of evaluation vectors
//! over a boolean hypercube of `num_sumcheck_variables` dimensions.  Every
//! vector entering a product is zero-padded to the hypercube length
//! `2^num_sumcheck_variables` and materialized once: a registration arena
//! assigns each distinct vector identity a stable index at insertion, and
//! repeated references share the slot.  Products of a single vector are
//! folded into a shared degree-1 accumulator instead, which the final
//! assembly step pairs with the random-combination vector `fr`.

use crate::scalar::{spec_scalar_add, spec_scalar_mul, spec_scalar_one, spec_scalar_zero, Scalar};
use vstd::prelude::*;

verus! {

/// Two to the power `n`: the hypercube length for `n` variables.
pub open spec fn spec_pow2(n: nat) -> nat
    decreases n,
{
    if n == 0 {
        1
    } else {
        2 * spec_pow2((n - 1) as nat)
    }
}

/// `values`, zero-padded at the end to length `n`.
pub open spec fn spec_padded(values: Seq<Scalar>, n: nat) -> Seq<Scalar> {
    values + Seq::new((n - values.len()) as nat, |t: int| spec_scalar_zero())
}

/// The views of a sequence of scalar vectors.
pub open spec fn spec_vecs_view(vs: Seq<Vec<Scalar>>) -> Seq<Seq<Scalar>> {
    vs.map_values(|v: Vec<Scalar>| v@)
}

/// The identity and contents of each evaluation vector in a slice.
pub open spec fn spec_terms_view(terms: Seq<EvaluationVector>) -> Seq<(u64, Seq<Scalar>)> {
    terms.map_values(|t: EvaluationVector| (t.id, t.values@))
}

/// The degree-1 accumulator after a broadcast: `mult` added into every slot.
pub open spec fn spec_broadcast_add(d: Seq<Scalar>, mult: Scalar) -> Seq<Scalar> {
    Seq::new(d.len(), |t: int| spec_scalar_add(d[t], mult))
}

/// The degree-1 accumulator after a fold: `mult * term[t]` added into slot
/// `t` for every slot the term covers; later slots unchanged.
pub open spec fn spec_mul_add_fold(d: Seq<Scalar>, mult: Scalar, term: Seq<Scalar>) -> Seq<
    Scalar,
> {
    Seq::new(
        d.len(),
        |t: int|
            if t < term.len() {
                spec_scalar_add(d[t], spec_scalar_mul(mult, term[t]))
            } else {
                d[t]
            },
    )
}

/// The first arena slot holding `id`, or the arena length when no slot does.
pub open spec fn spec_find_index(ids: Seq<u64>, id: u64) -> int
    decreases ids.len(),
{
    if ids.len() == 0 {
        0
    } else if ids[0] == id {
        0
    } else {
        1 + spec_find_index(ids.drop_first(), id)
    }
}

pub proof fn lemma_find_index_props(ids: Seq<u64>, id: u64)
    ensures
        0 <= spec_find_index(ids, id) <= ids.len(),
        spec_find_index(ids, id) < ids.len() ==> ids[spec_find_index(ids, id)] == id,
        forall|j: int| 0 <= j < spec_find_index(ids, id) ==> ids[j] != id,
    decreases ids.len(),
{
    if ids.len() > 0 && ids[0] != id {
        lemma_find_index_props(ids.drop_first(), id);
        assert forall|j: int| 0 <= j < spec_find_index(ids, id) implies ids[j] != id by {
            if j > 0 {
                assert(ids.drop_first()[j - 1] == ids[j]);
            }
        }
    }
}

/// The arena and the chosen indices after registering `terms` in order:
/// a term whose id the arena holds reuses that slot; a fresh id appends its
/// values, padded to the hypercube length `n`.
pub open spec fn spec_register_terms(
    ids: Seq<u64>,
    vals: Seq<Seq<Scalar>>,
    terms: Seq<(u64, Seq<Scalar>)>,
    n: nat,
) -> (Seq<u64>, Seq<Seq<Scalar>>, Seq<usize>)
    decreases terms.len(),
{
    if terms.len() == 0 {
        (ids, vals, Seq::empty())
    } else {
        let idx = spec_find_index(ids, terms[0].0);
        let ids1 = if idx < ids.len() {
            ids
        } else {
            ids.push(terms[0].0)
        };
        let vals1 = if idx < ids.len() {
            vals
        } else {
            vals.push(spec_padded(terms[0].1, n))
        };
        let rest = spec_register_terms(ids1, vals1, terms.drop_first(), n);
        (rest.0, rest.1, seq![idx as usize] + rest.2)
    }
}

/// A named sequence of scalar values: a column's or expression's evaluation
/// at every row.  The identity is distinct from the contents: the builder
/// deduplicates by identity, never by value, so two logical columns holding
/// equal values stay distinct terms.
pub struct EvaluationVector {
    pub id: u64,
    pub values: Vec<Scalar>,
}

/// A sum of scalar-weighted products of shared multiplicands over the
/// boolean hypercube: each product is a coefficient and the indices of its
/// multiplicands, and each distinct multiplicand is stored once, padded to
/// the hypercube length.
pub struct CompositePolynomial {
    pub num_variables: usize,
    pub multiplicands: Vec<Vec<Scalar>>,
    pub products: Vec<(Scalar, Vec<usize>)>,
}

impl CompositePolynomial {
    /// Every multiplicand has the hypercube length and every product's
    /// indices point at stored multiplicands.
    pub open spec fn well_formed(&self) -> bool {
        &&& forall|t: int|
            0 <= t < self.multiplicands@.len() ==> (#[trigger] self.multiplicands@[t])@.len()
                == spec_pow2(self.num_variables as nat)
        &&& forall|j: int, u: int|
            0 <= j < self.products@.len() && 0 <= u < self.products@[j].1@.len()
                ==> #[trigger] self.products@[j].1@[u] < self.multiplicands@.len()
    }
}

/// Builds up a composite polynomial from individual evaluation-vector
/// expressions.
pub struct CompositePolynomialBuilder {
    pub num_sumcheck_variables: usize,
    pub fr_multiplicands_degree1: Vec<Scalar>,
    pub fr_multiplicands_rest: Vec<(Scalar, Vec<usize>)>,
    pub zerosum_multiplicands: Vec<(Scalar, Vec<usize>)>,
    pub fr: Vec<Scalar>,
    pub mle_ids: Vec<u64>,
    pub mles: Vec<Vec<Scalar>>,
}

impl CompositePolynomialBuilder {
    /// The builder's invariant: `fr` is padded to the hypercube length, the
    /// degree-1 accumulator fits in it, the arena's ids are distinct and
    /// parallel to its one-per-id padded materializations, and every
    /// recorded product references the arena.
    pub open spec fn well_formed(&self) -> bool {
        &&& spec_pow2(self.num_sumcheck_variables as nat) <= usize::MAX
        &&& self.fr@.len() == spec_pow2(self.num_sumcheck_variables as nat)
        &&& self.fr_multiplicands_degree1@.len() <= spec_pow2(self.num_sumcheck_variables as nat)
        &&& self.mle_ids@.len() == self.mles@.len()
        &&& forall|t: int|
            0 <= t < self.mles@.len() ==> (#[trigger] self.mles@[t])@.len() == spec_pow2(
                self.num_sumcheck_variables as nat,
            )
        &&& forall|t1: int, t2: int|
            0 <= t1 < t2 < self.mle_ids@.len() ==> self.mle_ids@[t1] != self.mle_ids@[t2]
        &&& forall|j: int, u: int|
            0 <= j < self.fr_multiplicands_rest@.len() && 0 <= u
                < self.fr_multiplicands_rest@[j].1@.len()
                ==> #[trigger] self.fr_multiplicands_rest@[j].1@[u] < self.mles@.len()
        &&& forall|j: int, u: int|
            0 <= j < self.zerosum_multiplicands@.len() && 0 <= u
                < self.zerosum_multiplicands@[j].1@.len()
                ==> #[trigger] self.zerosum_multiplicands@[j].1@[u] < self.mles@.len()
    }

    /// A fresh builder: a zeroed degree-1 accumulator of the
    /// random-combination vector's length, `fr` padded to the hypercube, no
    /// products and an empty arena.
    pub fn new(num_sumcheck_variables: usize, fr: &[Scalar]) -> (r: CompositePolynomialBuilder)
        requires
            spec_pow2(num_sumcheck_variables as nat) <= usize::MAX,
            fr@.len() <= spec_pow2(num_sumcheck_variables as nat),
        ensures
            r.well_formed(),
            r.num_sumcheck_variables == num_sumcheck_variables,
            r.fr@ == spec_padded(fr@, spec_pow2(num_sumcheck_variables as nat)),
            r.fr_multiplicands_degree1@ == Seq::new(fr@.len(), |t: int| spec_scalar_zero()),
            r.fr_multiplicands_rest@.len() == 0,
            r.zerosum_multiplicands@.len() == 0,
            r.mle_ids@.len() == 0,
            r.mles@.len() == 0,
    {
        let mut degree1: Vec<Scalar> = Vec::new();
        let mut t: usize = 0;
        let fr_len = fr.len();
        while t < fr_len
            invariant
                t <= fr_len,
                degree1@.len() == t,
                forall|u: int| 0 <= u < t ==> #[trigger] degree1@[u] == spec_scalar_zero(),
            decreases fr_len - t,
        {
            degree1.push(Scalar(0));
            t = t + 1;
        }
        proof {
            assert(degree1@ =~= Seq::new(fr@.len(), |u: int| spec_scalar_zero()));
        }
        let padded_fr = to_sumcheck_term(num_sumcheck_variables, fr);
        CompositePolynomialBuilder {
            num_sumcheck_variables,
            fr_multiplicands_degree1: degree1,
            fr_multiplicands_rest: Vec::new(),
            zerosum_multiplicands: Vec::new(),
            fr: padded_fr,
            mle_ids: Vec::new(),
            mles: Vec::new(),
        }
    }

    /// Materializes each term with deduplication: a term whose id is already
    /// registered reuses its arena slot, a fresh term is zero-padded to the
    /// hypercube length and appended.  Returns each term's arena index, in
    /// order.
    fn create_multiplicand_with_deduplicated_mles(
        &mut self,
        terms: &[EvaluationVector],
    ) -> (r: Vec<usize>)
        requires
            old(self).well_formed(),
            forall|t: int|
                0 <= t < terms@.len() ==> (#[trigger] terms@[t].values)@.len() <= spec_pow2(
                    old(self).num_sumcheck_variables as nat,
                ),
        ensures
            final(self).well_formed(),
            final(self).num_sumcheck_variables == old(self).num_sumcheck_variables,
            final(self).fr == old(self).fr,
            final(self).fr_multiplicands_degree1 == old(self).fr_multiplicands_degree1,
            final(self).fr_multiplicands_rest == old(self).fr_multiplicands_rest,
            final(self).zerosum_multiplicands == old(self).zerosum_multiplicands,
            ({
                let reg = spec_register_terms(
                    old(self).mle_ids@,
                    spec_vecs_view(old(self).mles@),
                    spec_terms_view(terms@),
                    spec_pow2(old(self).num_sumcheck_variables as nat),
                );
                &&& final(self).mle_ids@ == reg.0
                &&& spec_vecs_view(final(self).mles@) == reg.1
                &&& r@ == reg.2
            }),
            r@.len() == terms@.len(),
            forall|u: int| 0 <= u < r@.len() ==> #[trigger] r@[u] < final(self).mles@.len(),
    {
        let ghost n = spec_pow2(self.num_sumcheck_variables as nat);
        let ghost orig_ids = self.mle_ids@;
        let ghost orig_vals = spec_vecs_view(self.mles@);
        let ghost all_terms = spec_terms_view(terms@);
        let mut terms_p: Vec<usize> = Vec::new();
        let mut t: usize = 0;
        let terms_len = terms.len();
        proof {
            assert(all_terms.skip(0) =~= all_terms);
            let full = spec_register_terms(orig_ids, orig_vals, all_terms, n);
            assert(full.2 =~= Seq::<usize>::empty() + full.2);
        }
        while t < terms_len
            invariant
                t <= terms_len,
                terms_len == terms@.len(),
                self.well_formed(),
                self.num_sumcheck_variables == old(self).num_sumcheck_variables,
                self.fr == old(self).fr,
                self.fr_multiplicands_degree1 == old(self).fr_multiplicands_degree1,
                self.fr_multiplicands_rest == old(self).fr_multiplicands_rest,
                self.zerosum_multiplicands == old(self).zerosum_multiplicands,
                n == spec_pow2(self.num_sumcheck_variables as nat),
                orig_ids == old(self).mle_ids@,
                orig_vals == spec_vecs_view(old(self).mles@),
                all_terms == spec_terms_view(terms@),
                all_terms.len() == terms@.len(),
                orig_ids.len() <= self.mle_ids@.len(),
                terms_p@.len() == t,
                forall|u: int| 0 <= u < t ==> #[trigger] terms_p@[u] < self.mles@.len(),
                forall|u: int|
                    0 <= u < terms@.len() ==> (#[trigger] terms@[u].values)@.len() <= n,
                ({
                    let full = spec_register_terms(orig_ids, orig_vals, all_terms, n);
                    let part = spec_register_terms(
                        self.mle_ids@,
                        spec_vecs_view(self.mles@),
                        all_terms.skip(t as int),
                        n,
                    );
                    &&& full.0 == part.0
                    &&& full.1 == part.1
                    &&& full.2 == terms_p@ + part.2
                }),
            decreases terms_len - t,
        {
            let ghost pre_ids = self.mle_ids@;
            let ghost pre_vals = spec_vecs_view(self.mles@);
            let ghost pre_terms_p = terms_p@;
            proof {
                assert(all_terms.skip(t as int)[0] == all_terms[t as int]);
                assert(all_terms[t as int] == (terms@[t as int].id, terms@[t as int].values@));
                assert(all_terms.skip(t as int).drop_first() =~= all_terms.skip(t + 1));
            }
            let term = &terms[t];
            let idx = find_mle_index(&self.mle_ids, term.id);
            if idx < self.mle_ids.len() {
                terms_p.push(idx);
            } else {
                let padded = to_sumcheck_term(self.num_sumcheck_variables, term.values.as_slice());
                self.mle_ids.push(term.id);
                self.mles.push(padded);
                terms_p.push(idx);
                proof {
                    lemma_find_index_props(pre_ids, term.id);
                    assert(spec_vecs_view(self.mles@) =~= pre_vals.push(
                        spec_padded(term.values@, n),
                    ));
                    assert forall|t1: int, t2: int|
                        0 <= t1 < t2 < self.mle_ids@.len() implies self.mle_ids@[t1]
                        != self.mle_ids@[t2] by {
                        if t2 == pre_ids.len() {
                            assert(self.mle_ids@[t1] == pre_ids[t1]);
                        }
                    }
                }
            }
            proof {
                let part_rest = spec_register_terms(
                    self.mle_ids@,
                    spec_vecs_view(self.mles@),
                    all_terms.skip(t + 1),
                    n,
                );
                assert(terms_p@ =~= pre_terms_p + seq![idx]);
                assert((pre_terms_p + seq![idx]) + part_rest.2 =~= pre_terms_p + (seq![idx]
                    + part_rest.2));
            }
            t = t + 1;
        }
        proof {
            assert(all_terms.skip(terms_len as int) =~= Seq::<(u64, Seq<Scalar>)>::empty());
            let full = spec_register_terms(orig_ids, orig_vals, all_terms, n);
            assert(full.2 =~= terms_p@);
        }
        terms_p
    }

    /// Records a polynomial term of the form
    /// `mult * fr(X) * term1(X) * ... * termK(X)`.
    ///
    /// With no terms, `mult` is broadcast into every slot of the degree-1
    /// accumulator.  With exactly one term, `mult * term[t]` is folded into
    /// accumulator slot `t` for every row the term covers — the degree-1
    /// split that avoids a one-element product list.  With more terms, each
    /// is materialized with deduplication and the product is recorded, to be
    /// multiplied by `fr` at assembly.
    pub fn produce_fr_multiplicand(&mut self, mult: &Scalar, terms: &[EvaluationVector])
        requires
            old(self).well_formed(),
            forall|t: int|
                0 <= t < terms@.len() ==> (#[trigger] terms@[t].values)@.len() <= spec_pow2(
                    old(self).num_sumcheck_variables as nat,
                ),
            terms@.len() == 1 ==> terms@[0].values@.len() <= old(
                self,
            ).fr_multiplicands_degree1@.len(),
        ensures
            final(self).well_formed(),
            final(self).num_sumcheck_variables == old(self).num_sumcheck_variables,
            final(self).fr == old(self).fr,
            final(self).zerosum_multiplicands == old(self).zerosum_multiplicands,
            terms@.len() == 0 ==> {
                &&& final(self).fr_multiplicands_degree1@ == spec_broadcast_add(
                    old(self).fr_multiplicands_degree1@,
                    *mult,
                )
                &&& final(self).fr_multiplicands_rest == old(self).fr_multiplicands_rest
                &&& final(self).mle_ids == old(self).mle_ids
                &&& final(self).mles == old(self).mles
            },
            terms@.len() == 1 ==> {
                &&& final(self).fr_multiplicands_degree1@ == spec_mul_add_fold(
                    old(self).fr_multiplicands_degree1@,
                    *mult,
                    terms@[0].values@,
                )
                &&& final(self).fr_multiplicands_rest == old(self).fr_multiplicands_rest
                &&& final(self).mle_ids == old(self).mle_ids
                &&& final(self).mles == old(self).mles
            },
            terms@.len() >= 2 ==> ({
                let reg = spec_register_terms(
                    old(self).mle_ids@,
                    spec_vecs_view(old(self).mles@),
                    spec_terms_view(terms@),
                    spec_pow2(old(self).num_sumcheck_variables as nat),
                );
                &&& final(self).fr_multiplicands_degree1 == old(self).fr_multiplicands_degree1
                &&& final(self).mle_ids@ == reg.0
                &&& spec_vecs_view(final(self).mles@) == reg.1
                &&& final(self).fr_multiplicands_rest@.len() == old(
                    self,
                ).fr_multiplicands_rest@.len() + 1
                &&& final(self).fr_multiplicands_rest@.drop_last() == old(
                    self,
                ).fr_multiplicands_rest@
                &&& final(self).fr_multiplicands_rest@.last().0 == *mult
                &&& final(self).fr_multiplicands_rest@.last().1@ == reg.2
            }),
    {
        if terms.is_empty() {
            let len = self.fr_multiplicands_degree1.len();
            let mut t: usize = 0;
            while t < len
                invariant
                    t <= len,
                    len == self.fr_multiplicands_degree1@.len(),
                    self.fr_multiplicands_degree1@.len() == old(
                        self,
                    ).fr_multiplicands_degree1@.len(),
                    forall|u: int|
                        0 <= u < t ==> #[trigger] self.fr_multiplicands_degree1@[u]
                            == spec_scalar_add(old(self).fr_multiplicands_degree1@[u], *mult),
                    forall|u: int|
                        t <= u < len ==> #[trigger] self.fr_multiplicands_degree1@[u] == old(
                            self,
                        ).fr_multiplicands_degree1@[u],
                    self.num_sumcheck_variables == old(self).num_sumcheck_variables,
                    self.fr == old(self).fr,
                    self.fr_multiplicands_rest == old(self).fr_multiplicands_rest,
                    self.zerosum_multiplicands == old(self).zerosum_multiplicands,
                    self.mle_ids == old(self).mle_ids,
                    self.mles == old(self).mles,
                decreases len - t,
            {
                let v = self.fr_multiplicands_degree1[t];
                self.fr_multiplicands_degree1[t] = v.add(*mult);
                t = t + 1;
            }
            proof {
                assert(self.fr_multiplicands_degree1@ =~= spec_broadcast_add(
                    old(self).fr_multiplicands_degree1@,
                    *mult,
                ));
            }
        } else if terms.len() == 1 {
            let term_values = &terms[0].values;
            let len = term_values.len();
            let mut t: usize = 0;
            while t < len
                invariant
                    t <= len,
                    len == term_values@.len(),
                    term_values@ == terms@[0].values@,
                    len <= self.fr_multiplicands_degree1@.len(),
                    self.fr_multiplicands_degree1@.len() == old(
                        self,
                    ).fr_multiplicands_degree1@.len(),
                    forall|u: int|
                        0 <= u < t ==> #[trigger] self.fr_multiplicands_degree1@[u]
                            == spec_scalar_add(
                            old(self).fr_multiplicands_degree1@[u],
                            spec_scalar_mul(*mult, terms@[0].values@[u]),
                        ),
                    forall|u: int|
                        t <= u < self.fr_multiplicands_degree1@.len()
                            ==> #[trigger] self.fr_multiplicands_degree1@[u] == old(
                            self,
                        ).fr_multiplicands_degree1@[u],
                    self.num_sumcheck_variables == old(self).num_sumcheck_variables,
                    self.fr == old(self).fr,
                    self.fr_multiplicands_rest == old(self).fr_multiplicands_rest,
                    self.zerosum_multiplicands == old(self).zerosum_multiplicands,
                    self.mle_ids == old(self).mle_ids,
                    self.mles == old(self).mles,
                decreases len - t,
            {
                let v = self.fr_multiplicands_degree1[t];
                self.fr_multiplicands_degree1[t] = v.add(mult.mul(term_values[t]));
                t = t + 1;
            }
            proof {
                assert(self.fr_multiplicands_degree1@ =~= spec_mul_add_fold(
                    old(self).fr_multiplicands_degree1@,
                    *mult,
                    terms@[0].values@,
                ));
            }
        } else {
            let ghost pre_rest = self.fr_multiplicands_rest@;
            let multiplicand = self.create_multiplicand_with_deduplicated_mles(terms);
            self.fr_multiplicands_rest.push((*mult, multiplicand));
            proof {
                assert(self.fr_multiplicands_rest@.drop_last() =~= pre_rest);
            }
        }
    }

    /// Records a polynomial term of the form
    /// `mult * term1(X) * ... * termK(X)`, never multiplied by `fr`.
    ///
    /// The term list must not be empty: an empty zero-sum term cannot be
    /// attributed to a concrete column for deduplication, and its sum is a
    /// constant best expressed through the `fr` path, so the contract rules
    /// it out and a caller violation fails at verification time.
    pub fn produce_zerosum_multiplicand(&mut self, mult: &Scalar, terms: &[EvaluationVector])
        requires
            old(self).well_formed(),
            terms@.len() > 0,
            forall|t: int|
                0 <= t < terms@.len() ==> (#[trigger] terms@[t].values)@.len() <= spec_pow2(
                    old(self).num_sumcheck_variables as nat,
                ),
        ensures
            final(self).well_formed(),
            final(self).num_sumcheck_variables == old(self).num_sumcheck_variables,
            final(self).fr == old(self).fr,
            final(self).fr_multiplicands_degree1 == old(self).fr_multiplicands_degree1,
            final(self).fr_multiplicands_rest == old(self).fr_multiplicands_rest,
            ({
                let reg = spec_register_terms(
                    old(self).mle_ids@,
                    spec_vecs_view(old(self).mles@),
                    spec_terms_view(terms@),
                    spec_pow2(old(self).num_sumcheck_variables as nat),
                );
                &&& final(self).mle_ids@ == reg.0
                &&& spec_vecs_view(final(self).mles@) == reg.1
                &&& final(self).zerosum_multiplicands@.len() == old(
                    self,
                ).zerosum_multiplicands@.len() + 1
                &&& final(self).zerosum_multiplicands@.drop_last() == old(
                    self,
                ).zerosum_multiplicands@
                &&& final(self).zerosum_multiplicands@.last().0 == *mult
                &&& final(self).zerosum_multiplicands@.last().1@ == reg.2
            }),
    {
        let ghost pre_zs = self.zerosum_multiplicands@;
        let multiplicand = self.create_multiplicand_with_deduplicated_mles(terms);
        self.zerosum_multiplicands.push((*mult, multiplicand));
        proof {
            assert(self.zerosum_multiplicands@.drop_last() =~= pre_zs);
        }
    }

    /// Assembles the composite polynomial that is the sum of all produced
    /// expressions: one product `fr * degree1_accumulator` with coefficient
    /// one, then every recorded `fr`-weighted product with `fr` prepended,
    /// then every zero-sum product as recorded.  `fr` sits at multiplicand
    /// slot 0, the padded accumulator at slot 1, and the arena's shared
    /// materializations follow in order, so every index of a recorded
    /// product shifts up by two.
    pub fn make_composite_polynomial(&self) -> (r: CompositePolynomial)
        requires
            self.well_formed(),
        ensures
            r.well_formed(),
            r.num_variables == self.num_sumcheck_variables,
            r.multiplicands@.len() == 2 + self.mles@.len(),
            r.multiplicands@[0]@ == self.fr@,
            r.multiplicands@[1]@ == spec_padded(
                self.fr_multiplicands_degree1@,
                spec_pow2(self.num_sumcheck_variables as nat),
            ),
            forall|t: int|
                0 <= t < self.mles@.len() ==> (#[trigger] r.multiplicands@[t + 2])@
                    == self.mles@[t]@,
            r.products@.len() == 1 + self.fr_multiplicands_rest@.len()
                + self.zerosum_multiplicands@.len(),
            r.products@[0].0 == spec_scalar_one(),
            r.products@[0].1@ == seq![0usize, 1usize],
            forall|j: int|
                0 <= j < self.fr_multiplicands_rest@.len() ==> {
                    &&& (#[trigger] r.products@[1 + j]).0 == self.fr_multiplicands_rest@[j].0
                    &&& r.products@[1 + j].1@.len() == 1 + self.fr_multiplicands_rest@[j].1@.len()
                    &&& r.products@[1 + j].1@[0] == 0usize
                    &&& forall|u: int|
                        0 <= u < self.fr_multiplicands_rest@[j].1@.len()
                            ==> #[trigger] r.products@[1 + j].1@[u + 1]
                            == self.fr_multiplicands_rest@[j].1@[u] + 2
                },
            forall|j: int|
                0 <= j < self.zerosum_multiplicands@.len() ==> {
                    &&& (#[trigger] r.products@[1 + self.fr_multiplicands_rest@.len() + j]).0
                        == self.zerosum_multiplicands@[j].0
                    &&& r.products@[1 + self.fr_multiplicands_rest@.len() + j].1@.len()
                        == self.zerosum_multiplicands@[j].1@.len()
                    &&& forall|u: int|
                        0 <= u < self.zerosum_multiplicands@[j].1@.len()
                            ==> #[trigger] r.products@[1 + self.fr_multiplicands_rest@.len()
                            + j].1@[u] == self.zerosum_multiplicands@[j].1@[u] + 2
                },
    {
        let mut multiplicands: Vec<Vec<Scalar>> = Vec::new();
        multiplicands.push(copy_scalars(&self.fr));
        multiplicands.push(
            to_sumcheck_term(
                self.num_sumcheck_variables,
                self.fr_multiplicands_degree1.as_slice(),
            ),
        );
        let n_mles = self.mles.len();
        let mut t: usize = 0;
        while t < n_mles
            invariant
                t <= n_mles,
                n_mles == self.mles@.len(),
                self.well_formed(),
                multiplicands@.len() == 2 + t,
                multiplicands@[0]@ == self.fr@,
                multiplicands@[1]@ == spec_padded(
                    self.fr_multiplicands_degree1@,
                    spec_pow2(self.num_sumcheck_variables as nat),
                ),
                forall|u: int|
                    0 <= u < t ==> (#[trigger] multiplicands@[u + 2])@ == self.mles@[u]@,
            decreases n_mles - t,
        {
            multiplicands.push(copy_scalars(&self.mles[t]));
            t = t + 1;
        }
        let total_multiplicands = multiplicands.len();
        let mut products: Vec<(Scalar, Vec<usize>)> = Vec::new();
        let mut first: Vec<usize> = Vec::new();
        first.push(0);
        first.push(1);
        proof {
            assert(first@ =~= seq![0usize, 1usize]);
        }
        products.push((Scalar(1), first));
        let n_rest = self.fr_multiplicands_rest.len();
        let mut j: usize = 0;
        while j < n_rest
            invariant
                j <= n_rest,
                n_rest == self.fr_multiplicands_rest@.len(),
                self.well_formed(),
                total_multiplicands == 2 + self.mles@.len(),
                products@.len() == 1 + j,
                products@[0].0 == spec_scalar_one(),
                products@[0].1@ == seq![0usize, 1usize],
                forall|j2: int, u: int|
                    0 <= j2 < products@.len() && 0 <= u < products@[j2].1@.len()
                        ==> #[trigger] products@[j2].1@[u] < total_multiplicands,
                forall|j2: int|
                    0 <= j2 < j ==> {
                        &&& (#[trigger] products@[1 + j2]).0
                            == self.fr_multiplicands_rest@[j2].0
                        &&& products@[1 + j2].1@.len() == 1
                            + self.fr_multiplicands_rest@[j2].1@.len()
                        &&& products@[1 + j2].1@[0] == 0usize
                        &&& forall|u: int|
                            0 <= u < self.fr_multiplicands_rest@[j2].1@.len()
                                ==> #[trigger] products@[1 + j2].1@[u + 1]
                                == self.fr_multiplicands_rest@[j2].1@[u] + 2
                    },
            decreases n_rest - j,
        {
            let entry = &self.fr_multiplicands_rest[j];
            let mut shifted: Vec<usize> = Vec::new();
            shifted.push(0);
            let ilen = entry.1.len();
            let mut u: usize = 0;
            while u < ilen
                invariant
                    u <= ilen,
                    j < self.fr_multiplicands_rest@.len(),
                    entry == self.fr_multiplicands_rest@[j as int],
                    ilen == entry.1@.len(),
                    self.well_formed(),
                    total_multiplicands == 2 + self.mles@.len(),
                    shifted@.len() == 1 + u,
                    shifted@[0] == 0usize,
                    forall|w: int|
                        0 <= w < u ==> #[trigger] shifted@[w + 1] == entry.1@[w] + 2,
                    forall|w: int|
                        0 <= w < shifted@.len() ==> #[trigger] shifted@[w] < total_multiplicands,
                decreases ilen - u,
            {
                let idx = entry.1[u];
                shifted.push(idx + 2);
                u = u + 1;
            }
            products.push((entry.0, shifted));
            j = j + 1;
        }
        let n_zs = self.zerosum_multiplicands.len();
        let mut j2: usize = 0;
        while j2 < n_zs
            invariant
                j2 <= n_zs,
                n_zs == self.zerosum_multiplicands@.len(),
                n_rest == self.fr_multiplicands_rest@.len(),
                self.well_formed(),
                total_multiplicands == 2 + self.mles@.len(),
                products@.len() == 1 + n_rest + j2,
                products@[0].0 == spec_scalar_one(),
                products@[0].1@ == seq![0usize, 1usize],
                forall|j3: int, u: int|
                    0 <= j3 < products@.len() && 0 <= u < products@[j3].1@.len()
                        ==> #[trigger] products@[j3].1@[u] < total_multiplicands,
                forall|j3: int|
                    0 <= j3 < n_rest ==> {
                        &&& (#[trigger] products@[1 + j3]).0
                            == self.fr_multiplicands_rest@[j3].0
                        &&& products@[1 + j3].1@.len() == 1
                            + self.fr_multiplicands_rest@[j3].1@.len()
                        &&& products@[1 + j3].1@[0] == 0usize
                        &&& forall|u: int|
                            0 <= u < self.fr_multiplicands_rest@[j3].1@.len()
                                ==> #[trigger] products@[1 + j3].1@[u + 1]
                                == self.fr_multiplicands_rest@[j3].1@[u] + 2
                    },
                forall|j3: int|
                    0 <= j3 < j2 ==> {
                        &&& (#[trigger] products@[1 + n_rest + j3]).0
                            == self.zerosum_multiplicands@[j3].0
                        &&& products@[1 + n_rest + j3].1@.len()
                            == self.zerosum_multiplicands@[j3].1@.len()
                        &&& forall|u: int|
                            0 <= u < self.zerosum_multiplicands@[j3].1@.len()
                                ==> #[trigger] products@[1 + n_rest + j3].1@[u]
                                == self.zerosum_multiplicands@[j3].1@[u] + 2
                    },
            decreases n_zs - j2,
        {
            let entry = &self.zerosum_multiplicands[j2];
            let mut shifted: Vec<usize> = Vec::new();
            let ilen = entry.1.len();
            let mut u: usize = 0;
            while u < ilen
                invariant
                    u <= ilen,
                    j2 < self.zerosum_multiplicands@.len(),
                    entry == self.zerosum_multiplicands@[j2 as int],
                    ilen == entry.1@.len(),
                    self.well_formed(),
                    total_multiplicands == 2 + self.mles@.len(),
                    shifted@.len() == u,
                    forall|w: int| 0 <= w < u ==> #[trigger] shifted@[w] == entry.1@[w] + 2,
                    forall|w: int|
                        0 <= w < shifted@.len() ==> #[trigger] shifted@[w] < total_multiplicands,
                decreases ilen - u,
            {
                let idx = entry.1[u];
                shifted.push(idx + 2);
                u = u + 1;
            }
            products.push((entry.0, shifted));
            j2 = j2 + 1;
        }
        proof {
            assert forall|t: int|
                0 <= t < multiplicands@.len() implies (#[trigger] multiplicands@[t])@.len()
                == spec_pow2(self.num_sumcheck_variables as nat) by {
                if t >= 2 {
                    assert(multiplicands@[(t - 2) + 2]@ == self.mles@[t - 2]@);
                }
            }
        }
        CompositePolynomial { num_variables: self.num_sumcheck_variables, multiplicands, products }
    }
}

/// A copy of a scalar vector.
fn copy_scalars(values: &Vec<Scalar>) -> (r: Vec<Scalar>)
    ensures
        r@ == values@,
{
    let mut r: Vec<Scalar> = Vec::new();
    let mut t: usize = 0;
    let len = values.len();
    while t < len
        invariant
            t <= len,
            len == values@.len(),
            r@.len() == t,
            forall|u: int| 0 <= u < t ==> #[trigger] r@[u] == values@[u],
        decreases len - t,
    {
        r.push(values[t]);
        t = t + 1;
    }
    proof {
        assert(r@ =~= values@);
    }
    r
}

/// Folding a constant-one vector of the accumulator's full length is the
/// broadcast: `add_fr_term(mult, [])` and `add_fr_term(mult, [ones])` change
/// the degree-1 accumulator identically.
pub proof fn lemma_broadcast_equals_ones_fold(d: Seq<Scalar>, mult: Scalar, ones: Seq<Scalar>)
    requires
        ones.len() == d.len(),
        forall|t: int| 0 <= t < ones.len() ==> ones[t] == spec_scalar_one(),
    ensures
        spec_mul_add_fold(d, mult, ones) == spec_broadcast_add(d, mult),
{
    assert forall|t: int| 0 <= t < d.len() implies spec_mul_add_fold(d, mult, ones)[t]
        == spec_broadcast_add(d, mult)[t] by {
        crate::scalar::lemma_scalar_mul_one(mult);
    }
    assert(spec_mul_add_fold(d, mult, ones) =~= spec_broadcast_add(d, mult));
}

proof fn lemma_find_index_agrees(ids: Seq<u64>, id: u64, i: int)
    requires
        0 <= i <= ids.len(),
        forall|j: int| 0 <= j < i ==> ids[j] != id,
        i < ids.len() ==> ids[i] == id,
    ensures
        spec_find_index(ids, id) == i,
    decreases ids.len(),
{
    if ids.len() == 0 {
    } else if ids[0] == id {
    } else {
        assert(ids[0] != id);
        assert(i >= 1);
        assert forall|j: int| 0 <= j < i - 1 implies ids.drop_first()[j] != id by {
            assert(ids.drop_first()[j] == ids[j + 1]);
        }
        if i < ids.len() {
            assert(ids.drop_first()[i - 1] == ids[i]);
        }
        lemma_find_index_agrees(ids.drop_first(), id, i - 1);
    }
}

/// The arena slot holding `id`, or the arena length when the id is new.
fn find_mle_index(mle_ids: &Vec<u64>, id: u64) -> (r: usize)
    ensures
        r == spec_find_index(mle_ids@, id),
{
    let mut t: usize = 0;
    let len = mle_ids.len();
    while t < len
        invariant
            t <= len,
            len == mle_ids@.len(),
            forall|j: int| 0 <= j < t ==> mle_ids@[j] != id,
        decreases len - t,
    {
        if mle_ids[t] == id {
            proof {
                lemma_find_index_agrees(mle_ids@, id, t as int);
            }
            return t;
        }
        t = t + 1;
    }
    proof {
        lemma_find_index_agrees(mle_ids@, id, len as int);
    }
    len
}

/// Registration deduplicates: the arena's ids stay distinct, everything
/// already registered stays where it was (the old arena is a prefix), every
/// fresh slot has the hypercube length, each term's index points at the one
/// slot holding its id, and the arena grows by at most one slot per term.
/// In particular a vector referenced by any number of products is
/// materialized exactly once.
pub proof fn lemma_register_terms_dedups(
    ids: Seq<u64>,
    vals: Seq<Seq<Scalar>>,
    terms: Seq<(u64, Seq<Scalar>)>,
    n: nat,
)
    requires
        ids.len() == vals.len(),
        forall|t1: int, t2: int| 0 <= t1 < t2 < ids.len() ==> ids[t1] != ids[t2],
        ids.len() + terms.len() <= usize::MAX,
        forall|t: int| 0 <= t < terms.len() ==> (#[trigger] terms[t]).1.len() <= n,
    ensures
        ({
            let reg = spec_register_terms(ids, vals, terms, n);
            &&& reg.0.len() == reg.1.len()
            &&& ids.len() <= reg.0.len() <= ids.len() + terms.len()
            &&& reg.0.take(ids.len() as int) == ids
            &&& reg.1.take(vals.len() as int) == vals
            &&& forall|t1: int, t2: int| 0 <= t1 < t2 < reg.0.len() ==> reg.0[t1] != reg.0[t2]
            &&& forall|t: int|
                ids.len() <= t < reg.1.len() ==> (#[trigger] reg.1[t]).len() == n
            &&& reg.2.len() == terms.len()
            &&& forall|t: int|
                0 <= t < terms.len() ==> 0 <= #[trigger] reg.2[t] < reg.0.len()
                    && reg.0[reg.2[t] as int] == terms[t].0
        }),
    decreases terms.len(),
{
    if terms.len() == 0 {
        let reg = spec_register_terms(ids, vals, terms, n);
        assert(reg.0.take(ids.len() as int) =~= ids);
        assert(reg.1.take(vals.len() as int) =~= vals);
    } else {
        let id0 = terms[0].0;
        let idx = spec_find_index(ids, id0);
        lemma_find_index_props(ids, id0);
        let fresh = !(idx < ids.len());
        let ids1 = if fresh {
            ids.push(id0)
        } else {
            ids
        };
        let vals1 = if fresh {
            vals.push(spec_padded(terms[0].1, n))
        } else {
            vals
        };
        if fresh {
            assert(spec_padded(terms[0].1, n).len() == n);
            assert forall|t1: int, t2: int| 0 <= t1 < t2 < ids1.len() implies ids1[t1]
                != ids1[t2] by {
                if t2 == ids.len() {
                    assert(ids1[t2] == id0);
                    assert(ids1[t1] == ids[t1]);
                }
            }
        }
        assert forall|t: int| 0 <= t < terms.drop_first().len() implies (#[trigger] terms.drop_first()[t]).1.len()
            <= n by {
            assert(terms.drop_first()[t] == terms[t + 1]);
        }
        lemma_register_terms_dedups(ids1, vals1, terms.drop_first(), n);
        let rest = spec_register_terms(ids1, vals1, terms.drop_first(), n);
        let reg = spec_register_terms(ids, vals, terms, n);
        assert(reg.0 == rest.0 && reg.1 == rest.1);
        assert(reg.2 =~= seq![idx as usize] + rest.2);
        // The old arena is a prefix of the new one.
        assert(reg.0.take(ids.len() as int) =~= rest.0.take(ids1.len() as int).take(
            ids.len() as int,
        ));
        assert(reg.1.take(vals.len() as int) =~= rest.1.take(vals1.len() as int).take(
            vals.len() as int,
        ));
        // Fresh slots all have the hypercube length.
        assert forall|t: int| ids.len() <= t < reg.1.len() implies (#[trigger] reg.1[t]).len()
            == n by {
            if t < vals1.len() {
                assert(rest.1.take(vals1.len() as int)[t] == reg.1[t]);
            }
        }
        // Every term's index points at the slot holding its id.
        assert forall|t: int|
            0 <= t < terms.len() implies 0 <= #[trigger] reg.2[t] < reg.0.len() && reg.0[reg.2[t]
            as int] == terms[t].0 by {
            if t == 0 {
                assert(reg.2[0] == idx as usize);
                assert(idx < ids1.len());
                assert(rest.0.take(ids1.len() as int)[idx] == ids1[idx]);
                assert(ids1[idx] == id0);
            } else {
                assert(reg.2[t] == rest.2[t - 1]);
                assert(terms.drop_first()[t - 1] == terms[t]);
            }
        }
    }
}

/// Two to the power `n`, executably.
fn pow2_exec(n: usize) -> (r: usize)
    requires
        spec_pow2(n as nat) <= usize::MAX,
    ensures
        r == spec_pow2(n as nat),
{
    let mut r: usize = 1;
    let mut t: usize = 0;
    while t < n
        invariant
            t <= n,
            r == spec_pow2(t as nat),
            spec_pow2(n as nat) <= usize::MAX,
        decreases n - t,
    {
        proof {
            lemma_pow2_monotonic((t + 1) as nat, n as nat);
        }
        r = r * 2;
        t = t + 1;
    }
    r
}

proof fn lemma_pow2_monotonic(a: nat, b: nat)
    requires
        a <= b,
    ensures
        spec_pow2(a) <= spec_pow2(b),
    decreases b,
{
    if a < b {
        lemma_pow2_monotonic(a, (b - 1) as nat);
        lemma_pow2_pos((b - 1) as nat);
    }
}

proof fn lemma_pow2_pos(n: nat)
    ensures
        spec_pow2(n) >= 1,
    decreases n,
{
    if n > 0 {
        lemma_pow2_pos((n - 1) as nat);
    }
}

/// `values`, zero-padded to the hypercube length for `num_sumcheck_variables`
/// variables.
pub fn to_sumcheck_term(num_sumcheck_variables: usize, values: &[Scalar]) -> (r: Vec<Scalar>)
    requires
        spec_pow2(num_sumcheck_variables as nat) <= usize::MAX,
        values@.len() <= spec_pow2(num_sumcheck_variables as nat),
    ensures
        r@ == spec_padded(values@, spec_pow2(num_sumcheck_variables as nat)),
        r@.len() == spec_pow2(num_sumcheck_variables as nat),
{
    let target = pow2_exec(num_sumcheck_variables);
    let mut r: Vec<Scalar> = Vec::new();
    let mut t: usize = 0;
    let len = values.len();
    while t < len
        invariant
            t <= len,
            len == values@.len(),
            r@.len() == t,
            forall|u: int| 0 <= u < t ==> #[trigger] r@[u] == values@[u],
        decreases len - t,
    {
        r.push(values[t]);
        t = t + 1;
    }
    while t < target
        invariant
            values@.len() <= t <= target,
            r@.len() == t,
            forall|u: int| 0 <= u < values@.len() ==> #[trigger] r@[u] == values@[u],
            forall|u: int| values@.len() <= u < t ==> #[trigger] r@[u] == spec_scalar_zero(),
        decreases target - t,
    {
        r.push(Scalar(0));
        t = t + 1;
    }
    proof {
        assert(r@ =~= spec_padded(values@, spec_pow2(num_sumcheck_variables as nat)));
    }
    r
}

} // verus!
