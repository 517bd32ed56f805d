//! Exact certificate verifier.
//!
//! A certificate `hypIdx -> c` refutes `hyps` iff
//!   1. every referenced index is in range and every coefficient is > 0,
//!   2. the weighted sum of the hypotheses' linear forms is identically zero
//!      over all atom indices, including the constant atom 0, and
//!   3. at least one weighted hypothesis is strict (`lt`).
//! The weighted sum is then the contradiction `0 < 0`.
use crate::bignum::BigNum;
use crate::types::{coeff_of, form_model, hyps_model, Hyp, Ineq};
use std::collections::HashMap;
use vstd::prelude::*;

verus! {

/// Weighted sum of the certificate's hypotheses at atom `v`.
pub open spec fn weighted_sum(hyps: Seq<Hyp>, cert: Seq<(usize, BigNum)>, v: usize) -> int
    decreases cert.len(),
{
    if cert.len() == 0 {
        0
    } else {
        weighted_sum(hyps, cert.drop_last(), v) + cert.last().1@ * coeff_of(
            hyps[cert.last().0 as int].coeffs@,
            v,
        )
    }
}

/// Some weighted hypothesis is strict.
pub open spec fn has_strict(hyps: Seq<Hyp>, cert: Seq<(usize, BigNum)>) -> bool {
    exists|k: int| 0 <= k < cert.len() && #[trigger] hyps[cert[k].0 as int].ineq == Ineq::Lt
}

/// Indices in range and positive coefficients.
pub open spec fn entries_ok(hyps: Seq<Hyp>, cert: Seq<(usize, BigNum)>) -> bool {
    forall|k: int| 0 <= k < cert.len() ==> (#[trigger] cert[k]).0 < hyps.len() && cert[k].1@ > 0
}

/// `cert` is a Farkas certificate refuting `hyps`.
pub open spec fn valid_certificate(hyps: Seq<Hyp>, cert: Seq<(usize, BigNum)>) -> bool {
    &&& cert.len() > 0
    &&& entries_ok(hyps, cert)
    &&& has_strict(hyps, cert)
    &&& forall|v: usize| #[trigger] weighted_sum(hyps, cert, v) == 0
}

proof fn lemma_coeff_step(cs: Seq<(usize, BigNum)>, j: int, v: usize)
    requires
        0 <= j < cs.len(),
    ensures
        coeff_of(cs.take(j + 1), v) == coeff_of(cs.take(j), v) + if cs[j].0 == v {
            cs[j].1@
        } else {
            0
        },
{
    assert(cs.take(j + 1).drop_last() =~= cs.take(j));
}

proof fn lemma_weighted_step(hyps: Seq<Hyp>, cert: Seq<(usize, BigNum)>, k: int, v: usize)
    requires
        0 <= k < cert.len(),
    ensures
        weighted_sum(hyps, cert.take(k + 1), v) == weighted_sum(hyps, cert.take(k), v)
            + cert[k].1@ * coeff_of(hyps[cert[k].0 as int].coeffs@, v),
{
    assert(cert.take(k + 1).drop_last() =~= cert.take(k));
}

/// True exactly when `cert` is a valid certificate for `hyps`.
pub fn verify_cert(hyps: &[Hyp], cert: &[(usize, BigNum)]) -> (r: bool)
    ensures
        r == valid_certificate(hyps@, cert@),
{
    broadcast use vstd::std_specs::hash::group_hash_axioms;

    if cert.len() == 0 {
        return false;
    }
    let mut sum: HashMap<usize, BigNum> = HashMap::new();
    let mut keys: Vec<usize> = Vec::new();
    let mut strict = false;
    let mut k: usize = 0;
    while k < cert.len()
        invariant
            k <= cert@.len(),
            entries_ok(hyps@, cert@.take(k as int)),
            strict == has_strict(hyps@, cert@.take(k as int)),
            forall|v: usize| #[trigger]
                sum@.contains_key(v) ==> sum@[v]@ == weighted_sum(hyps@, cert@.take(k as int), v),
            forall|v: usize|
                !sum@.contains_key(v) ==> #[trigger] weighted_sum(hyps@, cert@.take(k as int), v)
                    == 0,
            forall|v: usize| #[trigger] sum@.contains_key(v) <==> keys@.contains(v),
        decreases cert@.len() - k,
    {
        let (idx, c) = &cert[k];
        if *idx >= hyps.len() || !c.is_positive() {
            assert(!entries_ok(hyps@, cert@)) by {
                assert(cert@[k as int] == (*idx, *c));
            }
            return false;
        }
        let h = &hyps[*idx];
        let ghost old_sum = sum@;
        let mut j: usize = 0;
        while j < h.coeffs.len()
            invariant
                k < cert@.len(),
                cert@[k as int] == (*idx, *c),
                *h == hyps@[*idx as int],
                j <= h.coeffs@.len(),
                forall|v: usize| #[trigger]
                    sum@.contains_key(v) ==> sum@[v]@ == weighted_sum(hyps@, cert@.take(k as int), v)
                        + c@ * coeff_of(h.coeffs@.take(j as int), v),
                forall|v: usize|
                    !sum@.contains_key(v) ==> #[trigger] weighted_sum(hyps@, cert@.take(k as int), v)
                        + c@ * coeff_of(h.coeffs@.take(j as int), v) == 0,
                forall|v: usize| #[trigger] sum@.contains_key(v) <==> keys@.contains(v),
            decreases h.coeffs@.len() - j,
        {
            let (var, a) = &h.coeffs[j];
            let prod = c.mul(a);
            let ghost old_keys = keys@;
            let cur = match sum.get(var) {
                Some(e) => e.clone(),
                None => {
                    keys.push(*var);
                    BigNum::zero()
                },
            };
            let ghost before = sum@;
            sum.insert(*var, cur.add(&prod));
            proof {
                assert forall|v: usize| #[trigger] sum@.contains_key(v) implies sum@[v]@
                    == weighted_sum(hyps@, cert@.take(k as int), v) + c@ * coeff_of(
                    h.coeffs@.take(j + 1),
                    v,
                ) by {
                    lemma_coeff_step(h.coeffs@, j as int, v);
                    let x = coeff_of(h.coeffs@.take(j as int), v);
                    if v == *var {
                        assert(c@ * (x + a@) == c@ * x + c@ * a@) by (nonlinear_arith);
                    } else {
                        assert(before.contains_key(v));
                    }
                }
                assert forall|v: usize| !sum@.contains_key(v) implies #[trigger] weighted_sum(
                    hyps@,
                    cert@.take(k as int),
                    v,
                ) + c@ * coeff_of(h.coeffs@.take(j + 1), v) == 0 by {
                    lemma_coeff_step(h.coeffs@, j as int, v);
                    assert(v != *var);
                    assert(!before.contains_key(v));
                }
                assert(keys@ == old_keys || keys@ == old_keys.push(*var));
                assert(before.contains_key(*var) ==> keys@ == old_keys);
                assert forall|v: usize| #[trigger] sum@.contains_key(v) <==> keys@.contains(v) by {
                    if v == *var {
                        if keys@ == old_keys.push(*var) {
                            assert(keys@[keys@.len() - 1] == v);
                        }
                    } else {
                        if keys@ == old_keys.push(*var) {
                            if old_keys.contains(v) {
                                let t = choose|t: int| 0 <= t < old_keys.len() && old_keys[t] == v;
                                assert(keys@[t] == v);
                            }
                            if keys@.contains(v) {
                                let t = choose|t: int| 0 <= t < keys@.len() && keys@[t] == v;
                                assert(old_keys[t] == v);
                            }
                        }
                    }
                }
            }
            j = j + 1;
        }
        proof {
            assert(h.coeffs@.take(j as int) =~= h.coeffs@);
            assert forall|v: usize| #[trigger]
                sum@.contains_key(v) implies sum@[v]@ == weighted_sum(
                hyps@,
                cert@.take(k + 1),
                v,
            ) by {
                lemma_weighted_step(hyps@, cert@, k as int, v);
            }
            assert forall|v: usize| !sum@.contains_key(v) implies #[trigger] weighted_sum(
                hyps@,
                cert@.take(k + 1),
                v,
            ) == 0 by {
                lemma_weighted_step(hyps@, cert@, k as int, v);
            }
            assert(cert@.take(k + 1)[k as int] == cert@[k as int]);
            assert forall|i: int| 0 <= i < k + 1 implies (#[trigger] cert@.take(k + 1)[i]).0
                < hyps@.len() && cert@.take(k + 1)[i].1@ > 0 by {
                if i < k {
                    assert(cert@.take(k + 1)[i] == cert@.take(k as int)[i]);
                }
            }
        }
        if h.ineq == Ineq::Lt {
            strict = true;
            assert(has_strict(hyps@, cert@.take(k + 1))) by {
                assert(hyps@[cert@.take(k + 1)[k as int].0 as int].ineq == Ineq::Lt);
            }
        } else {
            assert(strict == has_strict(hyps@, cert@.take(k + 1))) by {
                if has_strict(hyps@, cert@.take(k + 1)) {
                    let i = choose|i: int|
                        0 <= i < k + 1 && #[trigger] hyps@[cert@.take(k + 1)[i].0 as int].ineq
                            == Ineq::Lt;
                    assert(i != k);
                    assert(cert@.take(k + 1)[i] == cert@.take(k as int)[i]);
                    assert(hyps@[cert@.take(k as int)[i].0 as int].ineq == Ineq::Lt);
                }
                if strict {
                    let i = choose|i: int|
                        0 <= i < k && #[trigger] hyps@[cert@.take(k as int)[i].0 as int].ineq
                            == Ineq::Lt;
                    assert(cert@.take(k + 1)[i] == cert@.take(k as int)[i]);
                    assert(hyps@[cert@.take(k + 1)[i].0 as int].ineq == Ineq::Lt);
                }
            }
        }
        k = k + 1;
    }
    assert(cert@.take(k as int) =~= cert@);
    if !strict {
        return false;
    }
    let mut i: usize = 0;
    while i < keys.len()
        invariant
            i <= keys@.len(),
            forall|v: usize| #[trigger] sum@.contains_key(v) ==> sum@[v]@ == weighted_sum(hyps@, cert@, v),
            forall|v: usize| !sum@.contains_key(v) ==> #[trigger] weighted_sum(hyps@, cert@, v) == 0,
            forall|v: usize| #[trigger] sum@.contains_key(v) <==> keys@.contains(v),
            forall|t: int| 0 <= t < i ==> #[trigger] weighted_sum(hyps@, cert@, keys@[t]) == 0,
        decreases keys@.len() - i,
    {
        let key = keys[i];
        assert(keys@.contains(key));
        let zero = match sum.get(&key) {
            Some(e) => e.is_zero(),
            None => true,
        };
        if !zero {
            return false;
        }
        i = i + 1;
    }
    assert forall|v: usize| #[trigger] weighted_sum(hyps@, cert@, v) == 0 by {
        if sum@.contains_key(v) {
            assert(keys@.contains(v));
            let t = choose|t: int| 0 <= t < keys@.len() && keys@[t] == v;
            assert(weighted_sum(hyps@, cert@, keys@[t]) == 0);
        }
    }
    true
}

/// Total coefficient of atom `v` in a modelled linear form.
pub open spec fn form_coeff(cs: Seq<(usize, int)>, v: usize) -> int
    decreases cs.len(),
{
    if cs.len() == 0 {
        0
    } else {
        form_coeff(cs.drop_last(), v) + if cs.last().0 == v {
            cs.last().1
        } else {
            0
        }
    }
}

/// Weighted sum at atom `v` over modelled hypotheses.
pub open spec fn form_weighted_sum(
    hs: Seq<(Ineq, Seq<(usize, int)>)>,
    c: Seq<(usize, int)>,
    v: usize,
) -> int
    decreases c.len(),
{
    if c.len() == 0 {
        0
    } else {
        form_weighted_sum(hs, c.drop_last(), v) + c.last().1 * form_coeff(hs[c.last().0 as int].1, v)
    }
}

/// `c` refutes the modelled hypotheses `hs`: indices in range, positive
/// coefficients, a strict hypothesis among them, and a zero weighted sum.
pub open spec fn refutes(hs: Seq<(Ineq, Seq<(usize, int)>)>, c: Seq<(usize, int)>) -> bool {
    &&& c.len() > 0
    &&& forall|k: int| 0 <= k < c.len() ==> (#[trigger] c[k]).0 < hs.len() && c[k].1 > 0
    &&& exists|k: int| 0 <= k < c.len() && #[trigger] hs[c[k].0 as int].0 == Ineq::Lt
    &&& forall|v: usize| #[trigger] form_weighted_sum(hs, c, v) == 0
}

/// Taking out entry `i` takes its term out of the weighted sum.
proof fn lemma_weighted_sum_remove(hs: Seq<(Ineq, Seq<(usize, int)>)>, c: Seq<(usize, int)>, i: int, v: usize)
    requires
        0 <= i < c.len(),
    ensures
        form_weighted_sum(hs, c, v) == form_weighted_sum(hs, c.remove(i), v) + c[i].1 * form_coeff(
            hs[c[i].0 as int].1,
            v,
        ),
    decreases c.len(),
{
    if i == c.len() - 1 {
        assert(c.remove(i) =~= c.drop_last());
    } else {
        let d = c.drop_last();
        lemma_weighted_sum_remove(hs, d, i, v);
        assert(c.remove(i).drop_last() =~= d.remove(i));
        assert(c.remove(i).last() == c.last());
        assert(d[i] == c[i]);
    }
}

/// Whether a certificate refutes the hypotheses does not depend on the order
/// of its entries.
pub proof fn lemma_refutes_permutation(hs: Seq<(Ineq, Seq<(usize, int)>)>, c1: Seq<(usize, int)>, c2: Seq<(usize, int)>)
    requires
        c1.to_multiset() == c2.to_multiset(),
    ensures
        refutes(hs, c1) == refutes(hs, c2),
        forall|v: usize|
            #![trigger form_weighted_sum(hs, c1, v)]
            #![trigger form_weighted_sum(hs, c2, v)]
            form_weighted_sum(hs, c1, v) == form_weighted_sum(hs, c2, v),
    decreases c1.len(),
{
    vstd::seq_lib::to_multiset_len(c1);
    vstd::seq_lib::to_multiset_len(c2);
    assert(c1.len() == c2.len());
    if c1.len() == 0 {
        assert(c2.len() == 0);
        assert(c1 =~= c2);
    } else {
        let x = c1.last();
        assert(c1.contains(x)) by {
            assert(c1[c1.len() - 1] == x);
        }
        vstd::seq_lib::to_multiset_contains(c1, x);
        vstd::seq_lib::to_multiset_contains(c2, x);
        assert(c2.contains(x));
        let i = choose|i: int| 0 <= i < c2.len() && c2[i] == x;
        let d1 = c1.drop_last();
        let d2 = c2.remove(i);
        assert(c1 =~= d1.push(x));
        assert(d1.to_multiset() == d2.to_multiset()) by {
            vstd::seq_lib::to_multiset_build(d1, x);
            vstd::seq_lib::to_multiset_remove(c2, i);
            assert(d1.to_multiset() =~= c1.to_multiset().remove(x));
        }
        lemma_refutes_permutation(hs, d1, d2);
        assert forall|v: usize|
            #![trigger form_weighted_sum(hs, c1, v)]
            #![trigger form_weighted_sum(hs, c2, v)]
            form_weighted_sum(hs, c1, v) == form_weighted_sum(hs, c2, v) by {
            lemma_weighted_sum_remove(hs, c2, i, v);
            assert(form_weighted_sum(hs, d1, v) == form_weighted_sum(hs, d2, v));
        }
        assert forall|e: (usize, int)| c1.contains(e) <==> c2.contains(e) by {
            vstd::seq_lib::to_multiset_contains(c1, e);
            vstd::seq_lib::to_multiset_contains(c2, e);
        }
        if refutes(hs, c1) {
            assert forall|k: int| 0 <= k < c2.len() implies (#[trigger] c2[k]).0 < hs.len() && c2[k].1 > 0 by {
                assert(c2.contains(c2[k]));
                let w = choose|w: int| 0 <= w < c1.len() && c1[w] == c2[k];
                assert(c1[w] == c2[k]);
            }
            let k = choose|k: int| 0 <= k < c1.len() && #[trigger] hs[c1[k].0 as int].0 == Ineq::Lt;
            assert(c1.contains(c1[k]));
            let w = choose|w: int| 0 <= w < c2.len() && c2[w] == c1[k];
            assert(hs[c2[w].0 as int].0 == Ineq::Lt);
        }
        if refutes(hs, c2) {
            assert forall|k: int| 0 <= k < c1.len() implies (#[trigger] c1[k]).0 < hs.len() && c1[k].1 > 0 by {
                assert(c1.contains(c1[k]));
                let w = choose|w: int| 0 <= w < c2.len() && c2[w] == c1[k];
                assert(c2[w] == c1[k]);
            }
            let k = choose|k: int| 0 <= k < c2.len() && #[trigger] hs[c2[k].0 as int].0 == Ineq::Lt;
            assert(c2.contains(c2[k]));
            let w = choose|w: int| 0 <= w < c1.len() && c1[w] == c2[k];
            assert(hs[c1[w].0 as int].0 == Ineq::Lt);
        }
    }
}

proof fn lemma_coeff_model(cs: Seq<(usize, BigNum)>, v: usize)
    ensures
        coeff_of(cs, v) == form_coeff(form_model(cs), v),
    decreases cs.len(),
{
    if cs.len() > 0 {
        assert(form_model(cs).drop_last() =~= form_model(cs.drop_last()));
        lemma_coeff_model(cs.drop_last(), v);
    }
}

proof fn lemma_weighted_model(hyps: Seq<Hyp>, cert: Seq<(usize, BigNum)>, v: usize)
    requires
        forall|k: int| 0 <= k < cert.len() ==> (#[trigger] cert[k]).0 < hyps.len(),
    ensures
        weighted_sum(hyps, cert, v) == form_weighted_sum(hyps_model(hyps), form_model(cert), v),
    decreases cert.len(),
{
    if cert.len() > 0 {
        let last = cert.last();
        assert(cert[cert.len() - 1] == last);
        assert(form_model(cert).drop_last() =~= form_model(cert.drop_last()));
        assert(forall|k: int|
            0 <= k < cert.drop_last().len() ==> cert.drop_last()[k] == #[trigger] cert[k]);
        lemma_weighted_model(hyps, cert.drop_last(), v);
        lemma_coeff_model(hyps[last.0 as int].coeffs@, v);
    }
}

/// Every weight of `c` multiplied by `k`.
pub open spec fn scale_cert(c: Seq<(usize, int)>, k: int) -> Seq<(usize, int)> {
    c.map_values(|e: (usize, int)| (e.0, e.1 * k))
}

/// Scaling every weight by `k` scales the weighted sum by `k`.
proof fn lemma_weighted_sum_scale(hs: Seq<(Ineq, Seq<(usize, int)>)>, c: Seq<(usize, int)>, k: int, v: usize)
    ensures
        form_weighted_sum(hs, scale_cert(c, k), v) == k * form_weighted_sum(hs, c, v),
    decreases c.len(),
{
    if c.len() > 0 {
        let d = c.drop_last();
        lemma_weighted_sum_scale(hs, d, k, v);
        assert(scale_cert(c, k).drop_last() =~= scale_cert(d, k));
        let w = form_weighted_sum(hs, d, v);
        let x = c.last().1;
        let f = form_coeff(hs[c.last().0 as int].1, v);
        assert(scale_cert(c, k).last() == (c.last().0, x * k));
        assert(k * w + (x * k) * f == k * (w + x * f)) by (nonlinear_arith);
    }
}

/// Whether a certificate refutes the hypotheses does not change when every
/// weight is multiplied by the same positive number.
pub proof fn lemma_refutes_scale(hs: Seq<(Ineq, Seq<(usize, int)>)>, c: Seq<(usize, int)>, k: int)
    requires
        k > 0,
    ensures
        refutes(hs, scale_cert(c, k)) == refutes(hs, c),
{
    let sc = scale_cert(c, k);
    assert forall|i: int| 0 <= i < c.len() implies (#[trigger] sc[i]).0 == c[i].0 && (sc[i].1 > 0 <==> c[i].1 > 0) by {
        assert(sc[i] == (c[i].0, c[i].1 * k));
        assert(c[i].1 * k > 0 <==> c[i].1 > 0) by (nonlinear_arith)
            requires
                k > 0,
        ;
    }
    assert forall|v: usize|
        #![trigger form_weighted_sum(hs, sc, v)]
        #![trigger form_weighted_sum(hs, c, v)]
        (form_weighted_sum(hs, sc, v) == 0) == (form_weighted_sum(hs, c, v) == 0) by {
        lemma_weighted_sum_scale(hs, c, k, v);
        let w = form_weighted_sum(hs, c, v);
        assert((k * w == 0) == (w == 0)) by (nonlinear_arith)
            requires
                k > 0,
        ;
    }
    assert(sc.len() == c.len());
    if refutes(hs, c) {
        let q = choose|q: int| 0 <= q < c.len() && #[trigger] hs[c[q].0 as int].0 == Ineq::Lt;
        assert(hs[sc[q].0 as int].0 == Ineq::Lt);
        assert forall|i: int| 0 <= i < sc.len() implies (#[trigger] sc[i]).0 < hs.len() && sc[i].1 > 0 by {
            assert(c[i].0 < hs.len() && c[i].1 > 0);
        }
        assert forall|v: usize| #[trigger] form_weighted_sum(hs, sc, v) == 0 by {
            assert(form_weighted_sum(hs, c, v) == 0);
        }
        assert(refutes(hs, sc));
    }
    if refutes(hs, sc) {
        let q = choose|q: int| 0 <= q < sc.len() && #[trigger] hs[sc[q].0 as int].0 == Ineq::Lt;
        assert(hs[c[q].0 as int].0 == Ineq::Lt);
        assert forall|i: int| 0 <= i < c.len() implies (#[trigger] c[i]).0 < hs.len() && c[i].1 > 0 by {
            assert(sc[i].0 < hs.len() && sc[i].1 > 0);
        }
        assert forall|v: usize| #[trigger] form_weighted_sum(hs, c, v) == 0 by {
            assert(form_weighted_sum(hs, sc, v) == 0);
        }
        assert(refutes(hs, c));
    }
}

/// The verifier's verdict ignores the order of the entries and a common
/// positive factor on all weights: a certificate whose entries are those of
/// `c1`, reordered and with every weight multiplied by `k > 0`, is valid
/// exactly when `c1` is.
pub proof fn lemma_verdict_order_and_scale(
    hyps: Seq<Hyp>,
    c1: Seq<(usize, BigNum)>,
    c2: Seq<(usize, BigNum)>,
    k: int,
)
    requires
        k > 0,
        form_model(c2).to_multiset() == scale_cert(form_model(c1), k).to_multiset(),
    ensures
        valid_certificate(hyps, c2) == valid_certificate(hyps, c1),
{
    let hm = hyps_model(hyps);
    lemma_valid_iff_refutes(hyps, c1);
    lemma_valid_iff_refutes(hyps, c2);
    lemma_refutes_permutation(hm, form_model(c2), scale_cert(form_model(c1), k));
    lemma_refutes_scale(hm, form_model(c1), k);
}

/// A certificate is valid for hypotheses exactly when its model refutes
/// their models.
pub proof fn lemma_valid_iff_refutes(hyps: Seq<Hyp>, cert: Seq<(usize, BigNum)>)
    ensures
        valid_certificate(hyps, cert) == refutes(hyps_model(hyps), form_model(cert)),
{
    let hm = hyps_model(hyps);
    let cm = form_model(cert);
    assert(entries_ok(hyps, cert) == (forall|k: int|
        0 <= k < cm.len() ==> (#[trigger] cm[k]).0 < hm.len() && cm[k].1 > 0)) by {
        if !entries_ok(hyps, cert) {
            let k = choose|k: int| 0 <= k < cert.len() && !((#[trigger] cert[k]).0 < hyps.len() && cert[k].1@ > 0);
            assert(cm[k] == (cert[k].0, cert[k].1@));
        }
    }
    if entries_ok(hyps, cert) {
        assert(has_strict(hyps, cert) == (exists|k: int|
            0 <= k < cm.len() && #[trigger] hm[cm[k].0 as int].0 == Ineq::Lt)) by {
            if has_strict(hyps, cert) {
                let k = choose|k: int| 0 <= k < cert.len() && #[trigger] hyps[cert[k].0 as int].ineq == Ineq::Lt;
                assert(cert[k].0 < hyps.len());
                assert(hm[cm[k].0 as int].0 == Ineq::Lt);
            }
            if exists|k: int| 0 <= k < cm.len() && #[trigger] hm[cm[k].0 as int].0 == Ineq::Lt {
                let k = choose|k: int| 0 <= k < cm.len() && #[trigger] hm[cm[k].0 as int].0 == Ineq::Lt;
                assert(cert[k].0 < hyps.len());
                assert(hyps[cert[k].0 as int].ineq == Ineq::Lt);
            }
        }
        assert forall|v: usize|
            #![trigger weighted_sum(hyps, cert, v)]
            #![trigger form_weighted_sum(hm, cm, v)]
            weighted_sum(hyps, cert, v) == form_weighted_sum(hm, cm, v) by {
            lemma_weighted_model(hyps, cert, v);
        }
        assert((forall|v: usize| #[trigger] weighted_sum(hyps, cert, v) == 0) == (forall|v: usize|
            #[trigger] form_weighted_sum(hm, cm, v) == 0));
    }
}

} // verus!
