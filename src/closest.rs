use vstd::prelude::*;
use crate::distance::{Distance, NodeId, distance, dist_le, dist_lt, xor_distance, lemma_distance_injective};

verus! {

/// Some chosen position holds the identifier `x`.
pub open spec fn chosen(s: Seq<NodeId>, r: Seq<usize>, x: NodeId) -> bool {
    exists|k: int| 0 <= k < r.len() && s[r[k] as int] == x
}

/// `r` picks, by position in `s`, the at most `n` distinct identifiers of `s` closest to
/// `t`, in strictly increasing distance, with the first occurrence of each identifier.
pub open spec fn is_closest_selection(t: NodeId, s: Seq<NodeId>, n: nat, r: Seq<usize>) -> bool {
    &&& r.len() <= n
    &&& forall|k: int| 0 <= k < r.len() ==> (r[k] as int) < s.len()
    &&& forall|k: int, l: int|
        0 <= k < l < r.len() ==> dist_lt(
            xor_distance(t, s[r[k] as int]),
            xor_distance(t, s[r[l] as int]),
        )
    &&& forall|k: int, j: int|
        #![trigger r[k], s[j]]
        0 <= k < r.len() && 0 <= j < r[k] ==> s[j] != s[r[k] as int]
    &&& forall|j: int|
        0 <= j < s.len() ==> chosen(s, r, #[trigger] s[j]) || (r.len() == n && (n == 0 || dist_lt(
            xor_distance(t, s[r[r.len() - 1] as int]),
            xor_distance(t, s[j]),
        )))
}

proof fn lemma_dist_order(a: Distance, b: Distance, c: Distance)
    ensures
        dist_le(a, b) || dist_lt(b, a),
        dist_le(a, b) && dist_le(b, a) ==> a == b,
        dist_lt(a, b) && dist_le(b, c) ==> dist_lt(a, c),
        dist_le(a, b) && dist_lt(b, c) ==> dist_lt(a, c),
        dist_lt(a, b) ==> !dist_le(b, a),
{
}

/// Positions in `ids` of the at most `n` distinct identifiers closest to `target`,
/// closest first.
pub fn select_closest(target: &NodeId, ids: &Vec<NodeId>, n: usize) -> (r: Vec<usize>)
    ensures
        is_closest_selection(*target, ids@, n as nat, r@),
{
    let ghost t = *target;
    let ghost s = ids@;
    let mut r: Vec<usize> = Vec::new();
    let mut last: Distance = Distance { hi: 0, lo: 0 };
    loop
        invariant
            s == ids@,
            t == *target,
            r@.len() <= n,
            forall|k: int| 0 <= k < r@.len() ==> (r@[k] as int) < s.len(),
            forall|k: int, l: int|
                0 <= k < l < r@.len() ==> dist_lt(
                    xor_distance(t, s[r@[k] as int]),
                    xor_distance(t, s[r@[l] as int]),
                ),
            forall|k: int, j: int|
                #![trigger r@[k], s[j]]
                0 <= k < r@.len() && 0 <= j < r@[k] ==> s[j] != s[r@[k] as int],
            r@.len() > 0 ==> last == xor_distance(t, s[r@[r@.len() - 1] as int]),
            r@.len() > 0 ==> forall|j: int|
                0 <= j < s.len() && dist_le(xor_distance(t, s[j]), last) ==> chosen(s, r@, #[trigger] s[j]),
        decreases n - r@.len(),
    {
        if r.len() >= n {
            proof {
                assert forall|j: int| 0 <= j < s.len() implies chosen(s, r@, #[trigger] s[j]) || (r@.len() == n && (n == 0 || dist_lt(
                    xor_distance(t, s[r@[r@.len() - 1] as int]),
                    xor_distance(t, s[j]),
                ))) by {
                    if r@.len() > 0 {
                        lemma_dist_order(xor_distance(t, s[j]), last, last);
                    } else {
                        assert(n == 0);
                    }
                }
            }
            return r;
        }
        let mut best: Option<usize> = None;
        let mut best_d: Distance = Distance { hi: 0, lo: 0 };
        let mut j: usize = 0;
        while j < ids.len()
            invariant
                s == ids@,
                t == *target,
                j <= s.len(),
                best matches Some(b) ==> b < j && best_d == xor_distance(t, s[b as int])
                    && (r@.len() == 0 || dist_lt(last, best_d))
                    && forall|i: int| 0 <= i < b ==> s[i] != s[b as int],
                forall|i: int|
                    0 <= i < j && (r@.len() == 0 || dist_lt(last, xor_distance(t, s[i]))) ==>
                    (best matches Some(b) && dist_le(best_d, xor_distance(t, #[trigger] s[i]))),
            decreases s.len() - j,
        {
            let d = distance(target, &ids[j]);
            let eligible = r.len() == 0 || last.lt(&d);
            if eligible {
                let better = match best {
                    None => true,
                    Some(_) => d.lt(&best_d),
                };
                if better {
                    proof {
                        assert forall|i: int| 0 <= i < j implies s[i] != s[j as int] by {
                            if s[i] == s[j as int] {
                                lemma_dist_order(best_d, d, d);
                            }
                        }
                        assert forall|i: int|
                            0 <= i < j && (r@.len() == 0 || dist_lt(last, xor_distance(t, s[i]))) implies
                            dist_le(d, xor_distance(t, #[trigger] s[i])) by {
                            lemma_dist_order(d, best_d, xor_distance(t, s[i]));
                        }
                    }
                    best = Some(j);
                    best_d = d;
                } else {
                    proof {
                        lemma_dist_order(d, best_d, d);
                    }
                }
            }
            j = j + 1;
        }
        match best {
            None => {
                proof {
                    assert forall|j: int| 0 <= j < s.len() implies chosen(s, r@, #[trigger] s[j]) || (r@.len() == n && (n == 0 || dist_lt(
                        xor_distance(t, s[r@[r@.len() - 1] as int]),
                        xor_distance(t, s[j]),
                    ))) by {
                        lemma_dist_order(xor_distance(t, s[j]), last, last);
                    }
                }
                return r;
            },
            Some(b) => {
                let ghost prev = r@;
                r.push(b);
                proof {
                    assert(chosen(s, r@, s[b as int])) by {
                        assert(s[r@[prev.len() as int] as int] == s[b as int]);
                    }
                    assert forall|k: int, l: int|
                        0 <= k < l < r@.len() implies dist_lt(
                            xor_distance(t, s[r@[k] as int]),
                            xor_distance(t, s[r@[l] as int]),
                        ) by {
                        if l == prev.len() {
                            lemma_dist_order(xor_distance(t, s[r@[k] as int]), last, best_d);
                            assert(dist_le(xor_distance(t, s[r@[k] as int]), last)) by {
                                if k < prev.len() - 1 {
                                    lemma_dist_order(xor_distance(t, s[r@[k] as int]), last, last);
                                }
                            }
                        }
                    }
                    assert forall|i: int|
                        0 <= i < s.len() && dist_le(xor_distance(t, s[i]), best_d) implies chosen(s, r@, #[trigger] s[i]) by {
                        if prev.len() > 0 && dist_le(xor_distance(t, s[i]), last) {
                            let k = choose|k: int| 0 <= k < prev.len() && s[prev[k] as int] == s[i];
                            assert(s[r@[k] as int] == s[i]);
                        } else {
                            lemma_dist_order(xor_distance(t, s[i]), last, last);
                            lemma_dist_order(xor_distance(t, s[i]), best_d, best_d);
                            lemma_distance_injective(t, s[i], s[b as int]);
                        }
                    }
                }
                last = best_d;
            },
        }
    }
}

} // verus!
