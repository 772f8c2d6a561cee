//! Species: compatibility distance between genomes and the grouping of a
//! population into species, rebuilt from scratch every generation.

use vstd::prelude::*;

use crate::fixed::{in_range, BOUND, SCALE};
use crate::genes::Connection;
use crate::network::{Network, CAP_GENES};

verus! {

/// `p` appears in some species' member list.
pub open spec fn in_some_species(sp: Seq<Species>, p: int) -> bool {
    exists|s: int, t: int|
        0 <= s < sp.len() && 0 <= t < sp[s].members@.len() && (#[trigger] sp[s].members@[t]) == p
}

/// A cluster of genetically similar genomes: the sorted connection genes of
/// its representative, and the member indices into the current population.
pub struct Species {
    pub representative: Vec<Connection>,
    pub members: Vec<usize>,
}

/// A gene sequence the distance is defined on: nonempty, bounded, sorted by
/// innovation id, weights representable.
pub open spec fn distance_ready(genes: Seq<Connection>) -> bool {
    &&& 1 <= genes.len() <= CAP_GENES
    &&& forall|i: int, j: int|
        0 <= i < j < genes.len() ==> (#[trigger] genes[i]).innovation < (
        #[trigger] genes[j]).innovation
    &&& forall|i: int| 0 <= i < genes.len() ==> in_range((#[trigger] genes[i]).weight as int)
}

/// Number of genes at or after position `i` whose innovation id exceeds `x`.
pub open spec fn count_above(s: Seq<Connection>, x: int, i: int) -> int
    decreases s.len() - i,
{
    if i < 0 || i >= s.len() {
        0
    } else {
        (if s[i].innovation > x {
            1int
        } else {
            0int
        }) + count_above(s, x, i + 1)
    }
}

/// Matching statistics of the sorted tails `a[i..]` and `b[j..]`: the number
/// of genes present in both (same innovation id), and the summed absolute
/// weight difference over those matches.
pub open spec fn match_stats(a: Seq<Connection>, b: Seq<Connection>, i: int, j: int) -> (
    int,
    int,
)
    decreases a.len() + b.len() - i - j,
{
    if i < 0 || j < 0 || i >= a.len() || j >= b.len() {
        (0, 0)
    } else if a[i].innovation == b[j].innovation {
        let r = match_stats(a, b, i + 1, j + 1);
        let d = a[i].weight - b[j].weight;
        (1 + r.0, (if d < 0 {
            -d
        } else {
            d
        }) + r.1)
    } else if a[i].innovation < b[j].innovation {
        match_stats(a, b, i + 1, j)
    } else {
        match_stats(a, b, i, j + 1)
    }
}

/// The compatibility distance in fixed point:
/// `c1*excess/N + c2*disjoint/N + c3*meanWeightDiff`, with `N` the larger
/// gene count, computed with truncating integer division (the mean weight
/// difference over zero matches counts as zero).
pub open spec fn distance_spec(
    a: Seq<Connection>,
    b: Seq<Connection>,
    c1: int,
    c2: int,
    c3: int,
) -> int {
    let maxa = a.last().innovation as int;
    let maxb = b.last().innovation as int;
    let e = count_above(a, maxb, 0) + count_above(b, maxa, 0);
    let mw = match_stats(a, b, 0, 0);
    let d0 = a.len() + b.len() - 2 * mw.0 - e;
    let d = if d0 < 0 {
        0int
    } else {
        d0
    };
    let n: int = if a.len() >= b.len() {
        a.len() as int
    } else {
        b.len() as int
    };
    let mean: int = if mw.0 > 0 {
        mw.1 / mw.0
    } else {
        0
    };
    (c1 * e + c2 * d) / n + (c3 * mean) / (SCALE as int)
}

/// Bounds on the matching statistics, for overflow-freedom.
pub proof fn lemma_match_stats_bounds(a: Seq<Connection>, b: Seq<Connection>, i: int, j: int)
    requires
        forall|t: int| 0 <= t < a.len() ==> in_range((#[trigger] a[t]).weight as int),
        forall|t: int| 0 <= t < b.len() ==> in_range((#[trigger] b[t]).weight as int),
    ensures
        0 <= match_stats(a, b, i, j).0,
        i >= 0 && j >= 0 && i <= a.len() && j <= b.len() ==> match_stats(a, b, i, j).0 <= a.len()
            + b.len() - i - j,
        0 <= match_stats(a, b, i, j).1 <= match_stats(a, b, i, j).0 * (2 * BOUND as int),
    decreases a.len() + b.len() - i - j,
{
    if !(i < 0 || j < 0 || i >= a.len() || j >= b.len()) {
        if a[i].innovation == b[j].innovation {
            lemma_match_stats_bounds(a, b, i + 1, j + 1);
            let r = match_stats(a, b, i + 1, j + 1);
            assert((1 + r.0) * (2 * BOUND as int) == 2 * BOUND as int + r.0 * (2 * BOUND as int))
                by (nonlinear_arith);
        } else if a[i].innovation < b[j].innovation {
            lemma_match_stats_bounds(a, b, i + 1, j);
        } else {
            lemma_match_stats_bounds(a, b, i, j + 1);
        }
    }
}

/// Bounds on the excess count.
pub proof fn lemma_count_above_bounds(s: Seq<Connection>, x: int, i: int)
    ensures
        0 <= count_above(s, x, i),
        0 <= i <= s.len() ==> count_above(s, x, i) <= s.len() - i,
    decreases s.len() - i,
{
    if 0 <= i < s.len() {
        lemma_count_above_bounds(s, x, i + 1);
    }
}

/// The compatibility distance between two sorted gene sequences; exactly
/// [`distance_spec`].
#[verifier::loop_isolation(false)]
pub fn distance(a: &Vec<Connection>, b: &Vec<Connection>, c1: i64, c2: i64, c3: i64) -> (r: i64)
    requires
        distance_ready(a@),
        distance_ready(b@),
        0 <= c1 <= 1048576,
        0 <= c2 <= 1048576,
        0 <= c3 <= 1048576,
    ensures
        r == distance_spec(a@, b@, c1 as int, c2 as int, c3 as int),
{
    proof {
        lemma_match_stats_bounds(a@, b@, 0, 0);
        lemma_count_above_bounds(a@, b@[b@.len() - 1].innovation as int, 0);
        lemma_count_above_bounds(b@, a@[a@.len() - 1].innovation as int, 0);
    }
    let maxa: usize = a[a.len() - 1].innovation;
    let maxb: usize = b[b.len() - 1].innovation;

    let mut ea: i64 = 0;
    let mut i: usize = 0;
    while i < a.len()
        invariant
            i <= a@.len(),
            ea + count_above(a@, maxb as int, i as int) == count_above(a@, maxb as int, 0),
            0 <= ea <= i,
        decreases a@.len() - i,
    {
        if a[i].innovation > maxb {
            ea = ea + 1;
        }
        i = i + 1;
    }
    let mut eb: i64 = 0;
    let mut i: usize = 0;
    while i < b.len()
        invariant
            i <= b@.len(),
            eb + count_above(b@, maxa as int, i as int) == count_above(b@, maxa as int, 0),
            0 <= eb <= i,
        decreases b@.len() - i,
    {
        if b[i].innovation > maxa {
            eb = eb + 1;
        }
        i = i + 1;
    }

    let mut m: i64 = 0;
    let mut w: i64 = 0;
    let mut i: usize = 0;
    let mut j: usize = 0;
    while i < a.len() && j < b.len()
        invariant
            i <= a@.len(),
            j <= b@.len(),
            0 <= m <= i + j,
            0 <= w <= m * (2 * BOUND as int),
            ({
                let r = match_stats(a@, b@, i as int, j as int);
                m + r.0 == match_stats(a@, b@, 0, 0).0 && w + r.1 == match_stats(a@, b@, 0, 0).1
            }),
        decreases a@.len() + b@.len() - i - j,
    {
        proof {
            lemma_match_stats_bounds(a@, b@, i as int, j as int);
        }
        if a[i].innovation == b[j].innovation {
            let wa: i64 = a[i].weight;
            let wb: i64 = b[j].weight;
            let d: i64 = if wa >= wb {
                wa - wb
            } else {
                wb - wa
            };
            proof {
                assert((m + 1) * (2 * BOUND as int) == m * (2 * BOUND as int) + 2 * BOUND as int)
                    by (nonlinear_arith);
            }
            m = m + 1;
            w = w + d;
            i = i + 1;
            j = j + 1;
        } else if a[i].innovation < b[j].innovation {
            i = i + 1;
        } else {
            j = j + 1;
        }
    }

    let e: i64 = ea + eb;
    let len_a: i64 = a.len() as i64;
    let len_b: i64 = b.len() as i64;
    let d0: i64 = len_a + len_b - 2 * m - e;
    let d: i64 = if d0 < 0 {
        0
    } else {
        d0
    };
    let n: i64 = if a.len() >= b.len() {
        len_a
    } else {
        len_b
    };
    let mean: i64 = if m > 0 {
        proof {
            assert(w / m <= 2 * BOUND as int) by (nonlinear_arith)
                requires
                    m >= 1,
                    0 <= w <= m * (2 * BOUND as int),
            ;
        }
        w / m
    } else {
        0
    };
    proof {
        assert(c1 * e <= 1048576 * (len_a + len_b) && c1 * e >= 0) by (nonlinear_arith)
            requires
                0 <= c1 <= 1048576,
                0 <= e <= len_a + len_b,
                len_a + len_b <= 2 * CAP_GENES,
        ;
        assert(0 <= c2 * d <= 1048576 * (len_a + len_b)) by (nonlinear_arith)
            requires
                0 <= c2 <= 1048576,
                0 <= d <= len_a + len_b,
                len_a + len_b <= 2 * CAP_GENES,
        ;
        assert(0 <= c3 * mean <= 1048576 * 2 * BOUND as int) by (nonlinear_arith)
            requires
                0 <= c3 <= 1048576,
                0 <= mean <= 2 * BOUND as int,
        ;
    }
    (c1 * e + c2 * d) / n + (c3 * mean) / SCALE
}

/// The views of a species sequence: each species as its representative's
/// genes and its member list.
pub open spec fn species_views(sp: Seq<Species>) -> Seq<(Seq<Connection>, Seq<usize>)> {
    sp.map_values(|s: Species| (s.representative@, s.members@))
}

/// The first species at or after `s` whose representative lies closer than
/// `threshold` to `genes`, or -1.
pub open spec fn first_match(
    acc: Seq<(Seq<Connection>, Seq<usize>)>,
    genes: Seq<Connection>,
    c1: int,
    c2: int,
    c3: int,
    threshold: int,
    s: int,
) -> int
    decreases acc.len() - s,
{
    if s < 0 || s >= acc.len() {
        -1
    } else if distance_spec(genes, acc[s].0, c1, c2, c3) < threshold {
        s
    } else {
        first_match(acc, genes, c1, c2, c3, threshold, s + 1)
    }
}

/// One individual joining the grouping: it enters the first species within
/// the threshold, or founds a new one with itself as representative.
pub open spec fn speciate_step(
    acc: Seq<(Seq<Connection>, Seq<usize>)>,
    genes: Seq<Connection>,
    p: usize,
    c1: int,
    c2: int,
    c3: int,
    threshold: int,
) -> Seq<(Seq<Connection>, Seq<usize>)> {
    let m = first_match(acc, genes, c1, c2, c3, threshold, 0);
    if m >= 0 {
        acc.update(m, (acc[m].0, acc[m].1.push(p)))
    } else {
        acc.push((genes, seq![p]))
    }
}

/// The grouping of the individuals `pop[i..]`, folded onto `acc`: the whole
/// grouping is a function of the population alone.
pub open spec fn speciate_from(
    pop: Seq<Network>,
    c1: int,
    c2: int,
    c3: int,
    threshold: int,
    i: int,
    acc: Seq<(Seq<Connection>, Seq<usize>)>,
) -> Seq<(Seq<Connection>, Seq<usize>)>
    decreases pop.len() - i,
{
    if i < 0 || i >= pop.len() {
        acc
    } else {
        speciate_from(
            pop,
            c1,
            c2,
            c3,
            threshold,
            i + 1,
            speciate_step(acc, pop[i].connection_genes@, i as usize, c1, c2, c3, threshold),
        )
    }
}

/// Group the population into species: each individual joins the first
/// existing species whose representative is closer than `threshold`,
/// founding a new species (with itself as representative) when none is.
/// Every individual lands in exactly one species: the members lists are a
/// partition of the population indices.
#[verifier::loop_isolation(false)]
pub fn speciate(
    population: &Vec<Network>,
    c1: i64,
    c2: i64,
    c3: i64,
    threshold: i64,
) -> (sp: Vec<Species>)
    requires
        forall|p: int|
            0 <= p < population@.len() ==> distance_ready(
                (#[trigger] population@[p]).connection_genes@,
            ),
        0 <= c1 <= 1048576,
        0 <= c2 <= 1048576,
        0 <= c3 <= 1048576,
    ensures
        species_views(sp@) == speciate_from(
            population@,
            c1 as int,
            c2 as int,
            c3 as int,
            threshold as int,
            0,
            Seq::empty(),
        ),
        forall|s: int|
            0 <= s < sp@.len() ==> (#[trigger] sp@[s]).members@.len() >= 1 && distance_ready(
                sp@[s].representative@,
            ),
        forall|s: int, t: int|
            0 <= s < sp@.len() && 0 <= t < sp@[s].members@.len() ==> (#[trigger] sp@[s].members@[t])
                < population@.len(),
        forall|p: int| 0 <= p < population@.len() ==> in_some_species(sp@, p),
        forall|s1: int, t1: int, s2: int, t2: int|
            0 <= s1 < sp@.len() && 0 <= t1 < sp@[s1].members@.len() && 0 <= s2 < sp@.len() && 0
                <= t2 < sp@[s2].members@.len() && (s1 != s2 || t1 != t2)
                ==> (#[trigger] sp@[s1].members@[t1]) != (#[trigger] sp@[s2].members@[t2]),
{
    let mut sp: Vec<Species> = Vec::new();
    proof {
        assert(species_views(sp@) =~= Seq::<(Seq<Connection>, Seq<usize>)>::empty());
    }
    let mut p: usize = 0;
    while p < population.len()
        invariant
            p <= population@.len(),
            speciate_from(
                population@,
                c1 as int,
                c2 as int,
                c3 as int,
                threshold as int,
                0,
                Seq::empty(),
            ) == speciate_from(
                population@,
                c1 as int,
                c2 as int,
                c3 as int,
                threshold as int,
                p as int,
                species_views(sp@),
            ),
            forall|s: int|
                0 <= s < sp@.len() ==> (#[trigger] sp@[s]).members@.len() >= 1 && distance_ready(
                    sp@[s].representative@,
                ),
            forall|s: int, t: int|
                0 <= s < sp@.len() && 0 <= t < sp@[s].members@.len() ==> (
                #[trigger] sp@[s].members@[t]) < p,
            forall|q: int| 0 <= q < p ==> in_some_species(sp@, q),
            forall|s1: int, t1: int, s2: int, t2: int|
                0 <= s1 < sp@.len() && 0 <= t1 < sp@[s1].members@.len() && 0 <= s2 < sp@.len()
                    && 0 <= t2 < sp@[s2].members@.len() && (s1 != s2 || t1 != t2)
                    ==> (#[trigger] sp@[s1].members@[t1]) != (#[trigger] sp@[s2].members@[t2]),
        decreases population@.len() - p,
    {
        let ghost pre = sp@;
        let ghost genes_p = population@[p as int].connection_genes@;
        let mut target: Option<usize> = None;
        let mut s: usize = 0;
        while s < sp.len() && target.is_none()
            invariant
                s <= sp@.len(),
                sp@ == pre,
                p < population@.len(),
                match target {
                    Option::Some(ts) => ts < sp@.len() && first_match(
                        species_views(pre),
                        genes_p,
                        c1 as int,
                        c2 as int,
                        c3 as int,
                        threshold as int,
                        0,
                    ) == ts,
                    Option::None => first_match(
                        species_views(pre),
                        genes_p,
                        c1 as int,
                        c2 as int,
                        c3 as int,
                        threshold as int,
                        0,
                    ) == first_match(
                        species_views(pre),
                        genes_p,
                        c1 as int,
                        c2 as int,
                        c3 as int,
                        threshold as int,
                        s as int,
                    ),
                },
            decreases sp@.len() - s,
        {
            let d: i64 = distance(
                &population[p].connection_genes,
                &sp[s].representative,
                c1,
                c2,
                c3,
            );
            proof {
                assert(species_views(pre)[s as int].0 == pre[s as int].representative@);
            }
            if d < threshold {
                target = Some(s);
            }
            s = s + 1;
        }
        match target {
            Some(ts) => {
                sp[ts].members.push(p);
                proof {
                    assert(sp@[ts as int].members@ == pre[ts as int].members@.push(p));
                    assert(sp@[ts as int].members@[sp@[ts as int].members@.len() - 1] == p);
                    assert(species_views(sp@) =~= speciate_step(
                        species_views(pre),
                        genes_p,
                        p,
                        c1 as int,
                        c2 as int,
                        c3 as int,
                        threshold as int,
                    ));
                    assert forall|q: int| 0 <= q < p + 1 implies in_some_species(sp@, q) by {
                        if q < p {
                            assert(in_some_species(pre, q));
                            let (s0, t0): (int, int) = choose|s0: int, t0: int|
                                0 <= s0 < pre.len() && 0 <= t0 < pre[s0].members@.len() && (
                                #[trigger] pre[s0].members@[t0]) == q;
                            if s0 == ts {
                                assert(sp@[s0].members@[t0] == q);
                            } else {
                                assert(sp@[s0] == pre[s0]);
                                assert(sp@[s0].members@[t0] == q);
                            }
                        } else {
                            assert(sp@[ts as int].members@[sp@[ts as int].members@.len() - 1]
                                == q);
                        }
                    }
                }
            },
            None => {
                let mut rep: Vec<Connection> = Vec::new();
                let genes = &population[p].connection_genes;
                let mut t: usize = 0;
                while t < genes.len()
                    invariant
                        t <= genes@.len(),
                        rep@ == genes@.take(t as int),
                    decreases genes@.len() - t,
                {
                    rep.push(genes[t]);
                    proof {
                        assert(rep@ =~= genes@.take(t + 1));
                    }
                    t = t + 1;
                }
                proof {
                    assert(rep@ =~= genes@);
                }
                let mut members: Vec<usize> = Vec::new();
                members.push(p);
                sp.push(Species { representative: rep, members });
                proof {
                    assert(sp@[sp@.len() - 1].members@[0] == p);
                    assert(forall|ss: int| 0 <= ss < pre.len() ==> sp@[ss] == pre[ss]);
                    assert(sp@[sp@.len() - 1].members@ =~= seq![p]);
                    assert(species_views(sp@) =~= speciate_step(
                        species_views(pre),
                        genes_p,
                        p,
                        c1 as int,
                        c2 as int,
                        c3 as int,
                        threshold as int,
                    ));
                    assert forall|q: int| 0 <= q < p + 1 implies in_some_species(sp@, q) by {
                        if q < p {
                            assert(in_some_species(pre, q));
                            let (s0, t0): (int, int) = choose|s0: int, t0: int|
                                0 <= s0 < pre.len() && 0 <= t0 < pre[s0].members@.len() && (
                                #[trigger] pre[s0].members@[t0]) == q;
                            assert(sp@[s0] == pre[s0]);
                            assert(sp@[s0].members@[t0] == q);
                        } else {
                            assert(sp@[sp@.len() - 1].members@[0] == q);
                        }
                    }
                }
            },
        }
        p = p + 1;
    }
    sp
}

} // verus!
