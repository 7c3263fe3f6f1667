//! The cycle scanner: enumerates three-hop conversion cycles in the currency
//! graph, applies the exact fee and profit arithmetic, deduplicates
//! rotations, and ranks the surviving opportunities.
use crate::graph::{to_ix, CurrencyGraph, Edge};
use crate::models::TriangularResult;
use crate::text::lex_lt;
use vstd::pervasive::unreached;
use vstd::prelude::*;

verus! {

/// Hundredths of a percent in 100 %: fees and thresholds are exact integers
/// in this unit.
pub const FEE_UNIT: u32 = 10_000;

/// Cap on the exact gross and net numerators and denominators; a cycle
/// whose products pass it is treated as unrepresentable and discarded, the
/// analogue of discarding a non-finite float product.
///
/// Because the fee factor scales the net numerator, a cycle can sit under
/// the cap at one fee and over it at another, so rejection at this bound is
/// not monotone in the fee. The bound lies far beyond any cycle of sanely
/// quoted prices (it admits three maximal parsed numerators and the full
/// fee scaling), so the edge is unreachable in practice; `lemma_fee_monotonic`
/// is about the reported profit and is unaffected.
pub const NET_CAP: u128 = 10_000_000_000_000_000_000_000_000_000_000_000;

pub open spec fn gnum(g: CurrencyGraph, a: int, b: int, c: int) -> int {
    g.rate_num(a, b) * g.rate_num(b, c) * g.rate_num(c, a)
}

pub open spec fn gden(g: CurrencyGraph, a: int, b: int, c: int) -> int {
    g.rate_den(a, b) * g.rate_den(b, c) * g.rate_den(c, a)
}

/// The cube of the fraction of each leg kept after the fee, scaled by
/// `FEE_UNIT` cubed.
pub open spec fn fee_keep3(f: int) -> int {
    (10000 - f) * (10000 - f) * (10000 - f)
}

pub open spec fn net_num(g: CurrencyGraph, a: int, b: int, c: int, f: int) -> int {
    gnum(g, a, b, c) * fee_keep3(f)
}

pub open spec fn net_den(g: CurrencyGraph, a: int, b: int, c: int) -> int {
    gden(g, a, b, c) * 1_000_000_000_000
}

/// Division rounded to the nearest integer, halves away from zero;
/// `d` must be positive.
pub open spec fn round_div(n: int, d: int) -> int {
    if n >= 0 {
        (n + d / 2) / d
    } else {
        -(((-n) + d / 2) / d)
    }
}

/// Gross profit of the cycle in hundredths of a percent, exactly rounded.
pub open spec fn pb_centi(g: CurrencyGraph, a: int, b: int, c: int) -> int {
    round_div((gnum(g, a, b, c) - gden(g, a, b, c)) * 10000, gden(g, a, b, c))
}

/// Net profit after fees in hundredths of a percent, exactly rounded.
pub open spec fn pa_centi(g: CurrencyGraph, a: int, b: int, c: int, f: int) -> int {
    round_div((net_num(g, a, b, c, f) - net_den(g, a, b, c)) * 10000, net_den(g, a, b, c))
}

/// The bottleneck liquidity of the cycle: the smallest leg volume.
pub open spec fn liq3(g: CurrencyGraph, a: int, b: int, c: int) -> int {
    let v1 = g.vol(a, b);
    let v2 = g.vol(b, c);
    let v3 = g.vol(c, a);
    if v1 <= v2 && v1 <= v3 {
        v1
    } else if v2 <= v3 {
        v2
    } else {
        v3
    }
}

/// Whether the exact products of the cycle stay representable.
pub open spec fn fits(g: CurrencyGraph, a: int, b: int, c: int, f: int) -> bool {
    &&& gnum(g, a, b, c) <= NET_CAP
    &&& gden(g, a, b, c) <= NET_CAP
    &&& net_num(g, a, b, c, f) <= NET_CAP
    &&& net_den(g, a, b, c) <= NET_CAP
}

/// Whether the exact net profit reaches the threshold `min` (hundredths of
/// a percent).
pub open spec fn min_ok(g: CurrencyGraph, a: int, b: int, c: int, f: int, min: int) -> bool {
    (net_num(g, a, b, c, f) - net_den(g, a, b, c)) * 10000 >= min * net_den(g, a, b, c)
}

/// The arithmetic verdict on one cycle: profitable before fees, exactly
/// representable, and at or above the threshold after fees.
pub open spec fn math_ok(g: CurrencyGraph, a: int, b: int, c: int, f: int, min: int) -> bool {
    &&& gnum(g, a, b, c) > gden(g, a, b, c)
    &&& fits(g, a, b, c, f)
    &&& min_ok(g, a, b, c, f, min)
    &&& pb_centi(g, a, b, c) <= i64::MAX
    &&& -(i64::MAX as int) <= pa_centi(g, a, b, c, f) <= i64::MAX
}

/// Looks up the edge `x -> y`, which must exist.
fn edge_lookup(g: &CurrencyGraph, x: usize, y: usize) -> (e: Edge)
    requires
        g.wf(),
        x < g.n(),
        g.has_edge(x as int, y as int),
    ensures
        e == g.edge(x as int, y as int),
{
    let row: &Vec<Edge> = &g.adj[x];
    let mut k: usize = 0;
    while k < row.len()
        invariant
            k <= row@.len(),
            row@ == g.adj@[x as int]@,
            g.wf(),
            x < g.n(),
            g.has_edge(x as int, y as int),
            forall|k0: int| 0 <= k0 < k ==> row@[k0].to != y,
        decreases row@.len() - k,
    {
        if row[k].to == y {
            proof {
                let kk = to_ix(row@, y as int);
                assert(0 <= kk < row@.len() && row@[kk].to == y);
                if kk != k {
                    assert(crate::graph::row_ok(row@, x as int, g.n()));
                    assert(row@[kk].to == row@[k as int].to);
                    assert(false);
                }
            }
            return row[k];
        }
        k += 1;
    }
    proof {
        let kk = to_ix(row@, y as int);
        assert(0 <= kk < row@.len() && row@[kk].to == y);
        assert(false);
    }
    unreached()
}

/// Evaluates the exact fee and profit arithmetic of one cycle.
///
/// Returns the rounded gross profit, net profit and bottleneck liquidity
/// exactly when `math_ok` holds, and nothing otherwise.
pub fn eval_cycle(g: &CurrencyGraph, a: usize, b: usize, c: usize, fee_centi: u32, min_centi: i64)
    -> (r: Option<(i64, i64, u64)>)
    requires
        g.wf(),
        a < g.n(),
        b < g.n(),
        c < g.n(),
        g.has_edge(a as int, b as int),
        g.has_edge(b as int, c as int),
        g.has_edge(c as int, a as int),
        fee_centi <= FEE_UNIT,
    ensures
        r is Some <==> math_ok(*g, a as int, b as int, c as int, fee_centi as int, min_centi as int),
        r matches Some(v) ==> v.0 == pb_centi(*g, a as int, b as int, c as int) && v.1 == pa_centi(
            *g,
            a as int,
            b as int,
            c as int,
            fee_centi as int,
        ) && v.2 == liq3(*g, a as int, b as int, c as int),
{
    let e1 = edge_lookup(g, a, b);
    let e2 = edge_lookup(g, b, c);
    let e3 = edge_lookup(g, c, a);
    proof {
        assert(e1.num >= 1 && e1.den >= 1 && e2.num >= 1 && e2.den >= 1 && e3.num >= 1 && e3.den
            >= 1) by {
            assert(crate::graph::row_ok(g.adj@[a as int]@, a as int, g.n()));
            assert(crate::graph::row_ok(g.adj@[b as int]@, b as int, g.n()));
            assert(crate::graph::row_ok(g.adj@[c as int]@, c as int, g.n()));
            assert(g.adj@[a as int]@[to_ix(g.adj@[a as int]@, b as int)] == e1);
            assert(g.adj@[b as int]@[to_ix(g.adj@[b as int]@, c as int)] == e2);
            assert(g.adj@[c as int]@[to_ix(g.adj@[c as int]@, a as int)] == e3);
        }
    }
    proof {
        assert((e1.num as u128) * (e2.num as u128) <= u128::MAX) by (nonlinear_arith)
            requires
                e1.num <= u64::MAX && e2.num <= u64::MAX,
        ;
        assert((e1.den as u128) * (e2.den as u128) <= u128::MAX) by (nonlinear_arith)
            requires
                e1.den <= u64::MAX && e2.den <= u64::MAX,
        ;
    }
    let m12: u128 = (e1.num as u128) * (e2.num as u128);
    let d12: u128 = (e1.den as u128) * (e2.den as u128);
    let ghost gn = gnum(*g, a as int, b as int, c as int);
    let ghost gd = gden(*g, a as int, b as int, c as int);
    let ghost nni = net_num(*g, a as int, b as int, c as int, fee_centi as int);
    let ghost ndi = net_den(*g, a as int, b as int, c as int);
    let g_num: u128 = match m12.checked_mul(e3.num as u128) {
        Some(v) => v,
        None => {
            proof {
                assert(gn > NET_CAP);
            }
            return None;
        },
    };
    let g_den: u128 = match d12.checked_mul(e3.den as u128) {
        Some(v) => v,
        None => {
            proof {
                assert(gd > NET_CAP);
            }
            return None;
        },
    };
    proof {
        assert(gn == g_num && gd == g_den);
    }
    if g_num > NET_CAP || g_den > NET_CAP {
        return None;
    }
    if g_num <= g_den {
        return None;
    }
    let fk: u128 = (FEE_UNIT - fee_centi) as u128;
    proof {
        assert(fk * fk <= 100_000_000) by (nonlinear_arith)
            requires
                fk <= 10000,
        ;
        assert((fk * fk) * fk <= 1_000_000_000_000) by (nonlinear_arith)
            requires
                fk * fk <= 100_000_000 && fk <= 10000,
        ;
    }
    let fk3: u128 = fk * fk * fk;
    let nn: u128 = match g_num.checked_mul(fk3) {
        Some(v) => v,
        None => {
            proof {
                assert(nni > NET_CAP);
            }
            return None;
        },
    };
    let nd: u128 = match g_den.checked_mul(1_000_000_000_000u128) {
        Some(v) => v,
        None => {
            proof {
                assert(ndi > NET_CAP);
            }
            return None;
        },
    };
    if nn > NET_CAP || nd > NET_CAP {
        return None;
    }
    proof {
        assert(nni == nn && ndi == nd);
        assert(g_den >= 1) by (nonlinear_arith)
            requires
                g_den == (e1.den as int) * (e2.den as int) * (e3.den as int),
                e1.den >= 1,
                e2.den >= 1,
                e3.den >= 1,
        ;
        assert(nd >= 1) by (nonlinear_arith)
            requires
                nd == g_den * 1_000_000_000_000,
                g_den >= 1,
        ;
    }
    // threshold: (nn - nd) * 10000 >= min * nd, decided exactly
    let meets: bool;
    if min_centi <= 0 {
        if nn >= nd {
            meets = true;
            proof {
                assert((nni - ndi) * 10000 >= min_centi * ndi) by (nonlinear_arith)
                    requires
                        nni >= ndi,
                        min_centi <= 0,
                        ndi >= 1,
                ;
            }
        } else {
            let mabs: u128 = (-(min_centi as i128)) as u128;
            let lhs: u128 = (nd - nn) * 10000;
            match mabs.checked_mul(nd) {
                Some(rhs) => {
                    meets = lhs <= rhs;
                    proof {
                        assert(meets == ((nni - ndi) * 10000 >= min_centi * ndi))
                            by (nonlinear_arith)
                            requires
                                nni == nn && ndi == nd,
                                nn < nd,
                                mabs == -min_centi,
                                lhs == (nd - nn) * 10000,
                                rhs == mabs * nd,
                                meets == (lhs <= rhs),
                        ;
                    }
                },
                None => {
                    meets = true;
                    proof {
                        assert((nni - ndi) * 10000 >= min_centi * ndi) by (nonlinear_arith)
                            requires
                                nni == nn && ndi == nd,
                                nn < nd,
                                nd <= NET_CAP,
                                NET_CAP == 10_000_000_000_000_000_000_000_000_000_000_000,
                                (-(min_centi as i128)) * nd > u128::MAX,
                        ;
                    }
                },
            }
        }
    } else {
        let lhs: u128 = nn * 10000;
        match nd.checked_mul((min_centi as u128) + 10000) {
            Some(rhs) => {
                meets = lhs >= rhs;
                proof {
                    assert(meets == ((nni - ndi) * 10000 >= min_centi * ndi)) by (nonlinear_arith)
                        requires
                            nni == nn && ndi == nd,
                            min_centi > 0,
                            lhs == nn * 10000,
                            rhs == nd * (min_centi + 10000),
                            meets == (lhs >= rhs),
                    ;
                }
            },
            None => {
                meets = false;
                proof {
                    assert(!((nni - ndi) * 10000 >= min_centi * ndi)) by (nonlinear_arith)
                        requires
                            nni == nn && ndi == nd,
                            min_centi > 0,
                            nn <= NET_CAP,
                            NET_CAP == 10_000_000_000_000_000_000_000_000_000_000_000,
                            nd * ((min_centi as u128) + 10000) > u128::MAX,
                    ;
                }
            },
        }
    }
    if !meets {
        return None;
    }
    // rounded presentation values
    let pb128: u128 = ((g_num - g_den) * 10000 + g_den / 2) / g_den;
    if pb128 > 0x7fff_ffff_ffff_ffff {
        return None;
    }
    let pb: i64 = pb128 as i64;
    let pa: i64 = if nn >= nd {
        let v: u128 = ((nn - nd) * 10000 + nd / 2) / nd;
        if v > 0x7fff_ffff_ffff_ffff {
            return None;
        }
        v as i64
    } else {
        let v: u128 = ((nd - nn) * 10000 + nd / 2) / nd;
        if v > 0x7fff_ffff_ffff_ffff {
            return None;
        }
        -(v as i64)
    };
    let v1 = e1.vol;
    let v2 = e2.vol;
    let v3 = e3.vol;
    let lq: u64 = if v1 <= v2 && v1 <= v3 {
        v1
    } else if v2 <= v3 {
        v2
    } else {
        v3
    };
    proof {
        assert(pb == pb_centi(*g, a as int, b as int, c as int));
        assert(pa == pa_centi(*g, a as int, b as int, c as int, fee_centi as int));
        assert(lq == liq3(*g, a as int, b as int, c as int));
    }
    Some((pb, pa, lq))
}

/// A three-hop candidate: `b` is a ranked neighbour of `a`, `c` a ranked
/// neighbour of `b`, distinct from both, and the closing edge `c -> a`
/// exists.
pub open spec fn is_cand(g: CurrencyGraph, a: int, b: int, c: int) -> bool {
    &&& 0 <= a < g.n()
    &&& 0 <= b < g.n()
    &&& 0 <= c < g.n()
    &&& g.in_nbrs(a, b)
    &&& g.in_nbrs(b, c)
    &&& c != a
    &&& c != b
    &&& g.has_edge(c, a)
}

/// A cycle the scanner reports: a candidate whose exact arithmetic passes
/// every filter.
pub open spec fn emits(g: CurrencyGraph, f: int, min: int, a: int, b: int, c: int) -> bool {
    is_cand(g, a, b, c) && math_ok(g, a, b, c, f, min)
}

/// Node order by name, lexicographic.
pub open spec fn id_lt(g: CurrencyGraph, x: int, y: int) -> bool {
    lex_lt(g.names@[x]@, g.names@[y]@)
}

/// Lexicographic order on node triples, by node name.
pub open spec fn trip_lt(g: CurrencyGraph, t1: (int, int, int), t2: (int, int, int)) -> bool {
    if t1.0 != t2.0 {
        id_lt(g, t1.0, t2.0)
    } else if t1.1 != t2.1 {
        id_lt(g, t1.1, t2.1)
    } else if t1.2 != t2.2 {
        id_lt(g, t1.2, t2.2)
    } else {
        false
    }
}

/// The canonical representative of a cycle: the lexicographically smallest
/// of its three rotations.
pub open spec fn rot_min(g: CurrencyGraph, a: int, b: int, c: int) -> (int, int, int) {
    let r1 = (a, b, c);
    let r2 = (b, c, a);
    let r3 = (c, a, b);
    let m = if trip_lt(g, r2, r1) {
        r2
    } else {
        r1
    };
    if trip_lt(g, r3, m) {
        r3
    } else {
        m
    }
}

/// The three node names of an id triple.
pub open spec fn names_of(g: CurrencyGraph, t: (int, int, int)) -> (Seq<char>, Seq<char>, Seq<
    char,
>) {
    (g.names@[t.0]@, g.names@[t.1]@, g.names@[t.2]@)
}

pub open spec fn tri_of(rec: TriangularResult) -> (Seq<char>, Seq<char>, Seq<char>) {
    (rec.triangle_a@, rec.triangle_b@, rec.triangle_c@)
}

/// The exact content of one reported opportunity for the cycle `t`.
pub open spec fn rec_ok(g: CurrencyGraph, f: int, t: (int, int, int), rec: TriangularResult) -> bool {
    &&& rec.triangle_a@ == g.names@[t.0]@
    &&& rec.triangle_b@ == g.names@[t.1]@
    &&& rec.triangle_c@ == g.names@[t.2]@
    &&& rec.pairs@.len() == 3
    &&& rec.pairs@[0]@ == g.names@[t.0]@ + "/"@ + g.names@[t.1]@
    &&& rec.pairs@[1]@ == g.names@[t.1]@ + "/"@ + g.names@[t.2]@
    &&& rec.pairs@[2]@ == g.names@[t.2]@ + "/"@ + g.names@[t.0]@
    &&& rec.profit_before_centi == pb_centi(g, t.0, t.1, t.2)
    &&& rec.fees_centi == 3 * f
    &&& rec.profit_after_centi == pa_centi(g, t.0, t.1, t.2, f)
    &&& rec.score_liquidity == liq3(g, t.0, t.1, t.2)
}

/// The record is the canonical report of some emitted cycle.
pub open spec fn sound_rec(g: CurrencyGraph, f: int, min: int, rec: TriangularResult) -> bool {
    exists|a: int, b: int, c: int|
        #[trigger] emits(g, f, min, a, b, c) && rec_ok(g, f, rot_min(g, a, b, c), rec)
}

/// Some record in `rs` reports the triangle with these three names.
pub open spec fn has_tri(rs: Seq<TriangularResult>, u: (Seq<char>, Seq<char>, Seq<char>)) -> bool {
    exists|i: int| 0 <= i < rs.len() && tri_of(#[trigger] rs[i]) == u
}

/// Result order: net profit after fees first, bottleneck liquidity second,
/// both descending.
pub open spec fn rec_ge(x: TriangularResult, y: TriangularResult) -> bool {
    x.profit_after_centi > y.profit_after_centi || (x.profit_after_centi == y.profit_after_centi
        && x.score_liquidity >= y.score_liquidity)
}

/// Everything the scanner promises of its result.
pub open spec fn scan_post(
    g: CurrencyGraph,
    f: int,
    min: int,
    rs: Seq<TriangularResult>,
) -> bool {
    &&& forall|i: int, j: int| 0 <= i < j < rs.len() ==> rec_ge(#[trigger] rs[i], #[trigger] rs[j])
    &&& forall|i: int, j: int|
        0 <= i < j < rs.len() ==> tri_of(#[trigger] rs[i]) != tri_of(#[trigger] rs[j])
    &&& forall|i: int| 0 <= i < rs.len() ==> sound_rec(g, f, min, #[trigger] rs[i])
    &&& forall|a: int, b: int, c: int|
        #[trigger] emits(g, f, min, a, b, c) ==> has_tri(rs, names_of(g, rot_min(g, a, b, c)))
}

/// A ranked neighbour is a real edge target inside the graph.
proof fn lemma_in_nbrs_edge(g: CurrencyGraph, i: int, t: int)
    requires
        g.wf(),
        0 <= i < g.n(),
        g.in_nbrs(i, t),
    ensures
        g.has_edge(i, t),
        0 <= t < g.n(),
{
    let m = choose|m: int| 0 <= m < g.nbrs@[i]@.len() && g.nbrs@[i]@[m] == t;
    assert(g.nbrs_ok(i));
    assert(g.has_edge(i, g.nbrs@[i]@[m] as int));
    let k = to_ix(g.adj@[i]@, t);
    assert(crate::graph::row_ok(g.adj@[i]@, i, g.n()));
    assert(g.adj@[i]@[k].to < g.n());
}

/// The canonical rotation of a candidate carries the same three edges and
/// the same exact arithmetic.
proof fn lemma_rot(g: CurrencyGraph, a: int, b: int, c: int, f: int, min: int)
    requires
        g.wf(),
        is_cand(g, a, b, c),
    ensures
        ({
            let u = rot_min(g, a, b, c);
            &&& 0 <= u.0 < g.n()
            &&& 0 <= u.1 < g.n()
            &&& 0 <= u.2 < g.n()
            &&& g.has_edge(u.0, u.1)
            &&& g.has_edge(u.1, u.2)
            &&& g.has_edge(u.2, u.0)
            &&& gnum(g, u.0, u.1, u.2) == gnum(g, a, b, c)
            &&& gden(g, u.0, u.1, u.2) == gden(g, a, b, c)
            &&& liq3(g, u.0, u.1, u.2) == liq3(g, a, b, c)
            &&& pb_centi(g, u.0, u.1, u.2) == pb_centi(g, a, b, c)
            &&& pa_centi(g, u.0, u.1, u.2, f) == pa_centi(g, a, b, c, f)
            &&& (math_ok(g, u.0, u.1, u.2, f, min) <==> math_ok(g, a, b, c, f, min))
        }),
{
    lemma_in_nbrs_edge(g, a, b);
    lemma_in_nbrs_edge(g, b, c);
    let u = rot_min(g, a, b, c);
    assert((u == (a, b, c)) || (u == (b, c, a)) || (u == (c, a, b)));
    assert(gnum(g, b, c, a) == gnum(g, a, b, c) && gnum(g, c, a, b) == gnum(g, a, b, c))
        by (nonlinear_arith)
        requires
            gnum(g, a, b, c) == g.rate_num(a, b) * g.rate_num(b, c) * g.rate_num(c, a),
            gnum(g, b, c, a) == g.rate_num(b, c) * g.rate_num(c, a) * g.rate_num(a, b),
            gnum(g, c, a, b) == g.rate_num(c, a) * g.rate_num(a, b) * g.rate_num(b, c),
    ;
    assert(gden(g, b, c, a) == gden(g, a, b, c) && gden(g, c, a, b) == gden(g, a, b, c))
        by (nonlinear_arith)
        requires
            gden(g, a, b, c) == g.rate_den(a, b) * g.rate_den(b, c) * g.rate_den(c, a),
            gden(g, b, c, a) == g.rate_den(b, c) * g.rate_den(c, a) * g.rate_den(a, b),
            gden(g, c, a, b) == g.rate_den(c, a) * g.rate_den(a, b) * g.rate_den(b, c),
    ;
}

fn has_edge_exec(g: &CurrencyGraph, x: usize, y: usize) -> (r: bool)
    requires
        g.wf(),
        x < g.n(),
    ensures
        r == g.has_edge(x as int, y as int),
{
    let row: &Vec<Edge> = &g.adj[x];
    let mut k: usize = 0;
    while k < row.len()
        invariant
            k <= row@.len(),
            g.wf(),
            x < g.n(),
            row@ == g.adj@[x as int]@,
            forall|k0: int| 0 <= k0 < k ==> row@[k0].to != y,
        decreases row@.len() - k,
    {
        if row[k].to == y {
            return true;
        }
        k += 1;
    }
    proof {
        if g.has_edge(x as int, y as int) {
            let kk = to_ix(row@, y as int);
            assert(0 <= kk < row@.len() && row@[kk].to == y);
            assert(false);
        }
    }
    false
}

fn id_lt_exec(g: &CurrencyGraph, x: usize, y: usize) -> (r: bool)
    requires
        x < g.names@.len(),
        y < g.names@.len(),
    ensures
        r == id_lt(*g, x as int, y as int),
{
    let vx = crate::text::str_chars(g.names[x].as_str());
    let vy = crate::text::str_chars(g.names[y].as_str());
    crate::text::lex_lt_exec(&vx, &vy)
}

fn trip_lt_exec(g: &CurrencyGraph, t1: (usize, usize, usize), t2: (usize, usize, usize)) -> (r:
    bool)
    requires
        t1.0 < g.names@.len(),
        t1.1 < g.names@.len(),
        t1.2 < g.names@.len(),
        t2.0 < g.names@.len(),
        t2.1 < g.names@.len(),
        t2.2 < g.names@.len(),
    ensures
        r == trip_lt(
            *g,
            (t1.0 as int, t1.1 as int, t1.2 as int),
            (t2.0 as int, t2.1 as int, t2.2 as int),
        ),
{
    if t1.0 != t2.0 {
        id_lt_exec(g, t1.0, t2.0)
    } else if t1.1 != t2.1 {
        id_lt_exec(g, t1.1, t2.1)
    } else if t1.2 != t2.2 {
        id_lt_exec(g, t1.2, t2.2)
    } else {
        false
    }
}

fn rot_min_exec(g: &CurrencyGraph, a: usize, b: usize, c: usize) -> (u: (usize, usize, usize))
    requires
        a < g.names@.len(),
        b < g.names@.len(),
        c < g.names@.len(),
    ensures
        (u.0 as int, u.1 as int, u.2 as int) == rot_min(*g, a as int, b as int, c as int),
{
    let r1 = (a, b, c);
    let r2 = (b, c, a);
    let r3 = (c, a, b);
    let m = if trip_lt_exec(g, r2, r1) {
        r2
    } else {
        r1
    };
    if trip_lt_exec(g, r3, m) {
        r3
    } else {
        m
    }
}

fn seen_contains(seen: &Vec<(usize, usize, usize)>, u: (usize, usize, usize)) -> (r: bool)
    ensures
        r == seen@.contains(u),
{
    let mut i: usize = 0;
    while i < seen.len()
        invariant
            i <= seen@.len(),
            forall|k: int| 0 <= k < i ==> seen@[k] != u,
        decreases seen@.len() - i,
    {
        let s = seen[i];
        if s.0 == u.0 && s.1 == u.1 && s.2 == u.2 {
            return true;
        }
        i += 1;
    }
    false
}

/// Builds the report record of the canonical cycle `(ua, ub, uc)`.
fn make_rec(
    g: &CurrencyGraph,
    ua: usize,
    ub: usize,
    uc: usize,
    fee_centi: u32,
    pb: i64,
    pa: i64,
    lq: u64,
) -> (rec: TriangularResult)
    requires
        ua < g.names@.len(),
        ub < g.names@.len(),
        uc < g.names@.len(),
        fee_centi <= FEE_UNIT,
        pb == pb_centi(*g, ua as int, ub as int, uc as int),
        pa == pa_centi(*g, ua as int, ub as int, uc as int, fee_centi as int),
        lq == liq3(*g, ua as int, ub as int, uc as int),
    ensures
        rec_ok(*g, fee_centi as int, (ua as int, ub as int, uc as int), rec),
{
    let mut pairs: Vec<String> = Vec::new();
    pairs.push(g.names[ua].clone().concat("/").concat(g.names[ub].as_str()));
    pairs.push(g.names[ub].clone().concat("/").concat(g.names[uc].as_str()));
    pairs.push(g.names[uc].clone().concat("/").concat(g.names[ua].as_str()));
    TriangularResult {
        triangle_a: g.names[ua].clone(),
        triangle_b: g.names[ub].clone(),
        triangle_c: g.names[uc].clone(),
        pairs,
        profit_before_centi: pb,
        fees_centi: 3 * (fee_centi as i64),
        profit_after_centi: pa,
        score_liquidity: lq,
    }
}

/// The neighbour at rank `j1` of node `a1`.
pub open spec fn pos_b(g: CurrencyGraph, a1: int, j1: int) -> int {
    g.nbrs@[a1]@[j1] as int
}

/// The neighbour at rank `k1` of `pos_b(a1, j1)`.
pub open spec fn pos_c(g: CurrencyGraph, a1: int, j1: int, k1: int) -> int {
    g.nbrs@[pos_b(g, a1, j1)]@[k1] as int
}

pub open spec fn pos_valid(g: CurrencyGraph, a1: int, j1: int, k1: int) -> bool {
    &&& 0 <= a1 < g.n()
    &&& 0 <= j1 < g.nbrs@[a1]@.len()
    &&& 0 <= k1 < g.nbrs@[pos_b(g, a1, j1)]@.len()
}

pub open spec fn pos_lt(a1: int, j1: int, k1: int, a: int, j: int, k: int) -> bool {
    a1 < a || (a1 == a && (j1 < j || (j1 == j && k1 < k)))
}

/// Every emitted cycle whose enumeration position lies before `(a, j, k)`
/// is already reported in `out`.
pub open spec fn compl_upto(
    g: CurrencyGraph,
    f: int,
    min: int,
    out: Seq<TriangularResult>,
    a: int,
    j: int,
    k: int,
) -> bool {
    forall|a1: int, j1: int, k1: int|
        #![trigger g.nbrs@[pos_b(g, a1, j1)]@[k1]]
        pos_valid(g, a1, j1, k1) && pos_lt(a1, j1, k1, a, j, k) && emits(
            g,
            f,
            min,
            a1,
            pos_b(g, a1, j1),
            pos_c(g, a1, j1, k1),
        ) ==> has_tri(out, names_of(g, rot_min(g, a1, pos_b(g, a1, j1), pos_c(g, a1, j1, k1))))
}

pub open spec fn sound_all(
    g: CurrencyGraph,
    f: int,
    min: int,
    out: Seq<TriangularResult>,
) -> bool {
    forall|i: int| 0 <= i < out.len() ==> sound_rec(g, f, min, #[trigger] out[i])
}

pub open spec fn nodup_tri(out: Seq<TriangularResult>) -> bool {
    forall|i1: int, i2: int|
        0 <= i1 < i2 < out.len() ==> tri_of(#[trigger] out[i1]) != tri_of(#[trigger] out[i2])
}

/// The dedup ledger mirrors the output: entry `i` holds the node ids of
/// record `i`'s triangle, and no id triple repeats.
pub open spec fn seen_ok(
    g: CurrencyGraph,
    out: Seq<TriangularResult>,
    seen: Seq<(usize, usize, usize)>,
) -> bool {
    &&& seen.len() == out.len()
    &&& forall|i: int|
        0 <= i < seen.len() ==> 0 <= (#[trigger] seen[i]).0 < g.n() && 0 <= seen[i].1 < g.n() && 0
            <= seen[i].2 < g.n() && tri_of(out[i]) == names_of(
            g,
            (seen[i].0 as int, seen[i].1 as int, seen[i].2 as int),
        )
    &&& forall|i1: int, i2: int| 0 <= i1 < i2 < seen.len() ==> seen[i1] != seen[i2]
}

proof fn lemma_name_ne(g: CurrencyGraph, x: int, y: int)
    requires
        g.wf(),
        0 <= x < g.n(),
        0 <= y < g.n(),
        x != y,
    ensures
        g.names@[x]@ != g.names@[y]@,
{
    assert(crate::graph::names_distinct(g.names@));
}

/// Distinct id triples of a well-formed graph name distinct triangles.
proof fn lemma_names_inj(g: CurrencyGraph, t1: (int, int, int), t2: (int, int, int))
    requires
        g.wf(),
        0 <= t1.0 < g.n() && 0 <= t1.1 < g.n() && 0 <= t1.2 < g.n(),
        0 <= t2.0 < g.n() && 0 <= t2.1 < g.n() && 0 <= t2.2 < g.n(),
        t1 != t2,
    ensures
        names_of(g, t1) != names_of(g, t2),
{
    if t1.0 != t2.0 {
        lemma_name_ne(g, t1.0, t2.0);
    } else if t1.1 != t2.1 {
        lemma_name_ne(g, t1.1, t2.1);
    } else {
        lemma_name_ne(g, t1.2, t2.2);
    }
}

/// Enumerates the liquidity-ranked three-hop cycles of the graph, reporting
/// each emitted cycle exactly once, under its canonical rotation.
#[verifier::loop_isolation(false)]
#[verifier::rlimit(60)]
#[verifier::spinoff_prover]
fn scan_enum(g: &CurrencyGraph, min_centi: i64, fee_centi: u32) -> (out: Vec<TriangularResult>)
    requires
        g.wf(),
        fee_centi <= FEE_UNIT,
    ensures
        sound_all(*g, fee_centi as int, min_centi as int, out@),
        nodup_tri(out@),
        forall|a: int, b: int, c: int|
            #[trigger] emits(*g, fee_centi as int, min_centi as int, a, b, c) ==> has_tri(
                out@,
                names_of(*g, rot_min(*g, a, b, c)),
            ),
{
    let ghost f = fee_centi as int;
    let ghost mn = min_centi as int;
    let mut out: Vec<TriangularResult> = Vec::new();
    let mut seen: Vec<(usize, usize, usize)> = Vec::new();
    let n = g.names.len();
    let mut a: usize = 0;
    while a < n
        invariant
            a <= n,
            sound_all(*g, f, mn, out@),
            nodup_tri(out@),
            seen_ok(*g, out@, seen@),
            compl_upto(*g, f, mn, out@, a as int, 0, 0),
        decreases n - a,
    {
        let na = g.nbrs[a].len();
        let mut j: usize = 0;
        while j < na
            invariant
                a < n,
                j <= na,
                na == g.nbrs@[a as int]@.len(),
                sound_all(*g, f, mn, out@),
                nodup_tri(out@),
                seen_ok(*g, out@, seen@),
                compl_upto(*g, f, mn, out@, a as int, j as int, 0),
            decreases na - j,
        {
            let b = g.nbrs[a][j];
            proof {
                assert(g.in_nbrs(a as int, b as int));
                lemma_in_nbrs_edge(*g, a as int, b as int);
            }
            let nb = g.nbrs[b].len();
            let mut k: usize = 0;
            while k < nb
                invariant
                    a < n,
                    j < na,
                    na == g.nbrs@[a as int]@.len(),
                    b == g.nbrs@[a as int]@[j as int],
                    b < n,
                    k <= nb,
                    nb == g.nbrs@[b as int]@.len(),
                    sound_all(*g, f, mn, out@),
                    nodup_tri(out@),
                    seen_ok(*g, out@, seen@),
                    compl_upto(*g, f, mn, out@, a as int, j as int, k as int),
                decreases nb - k,
            {
                let c = g.nbrs[b][k];
                proof {
                    assert(g.in_nbrs(b as int, c as int));
                    lemma_in_nbrs_edge(*g, b as int, c as int);
                    assert(pos_b(*g, a as int, j as int) == b as int);
                    assert(pos_c(*g, a as int, j as int, k as int) == c as int);
                }
                let ghost out_pre = out@;
                let ghost seen_pre = seen@;
                if c != a && c != b && has_edge_exec(g, c, a) {
                    match eval_cycle(g, a, b, c, fee_centi, min_centi) {
                        Some((pb, pa, lq)) => {
                            proof {
                                assert(is_cand(*g, a as int, b as int, c as int));
                                assert(emits(*g, f, mn, a as int, b as int, c as int));
                                lemma_rot(*g, a as int, b as int, c as int, f, mn);
                            }
                            let u = rot_min_exec(g, a, b, c);
                            if !seen_contains(&seen, u) {
                                let rec = make_rec(g, u.0, u.1, u.2, fee_centi, pb, pa, lq);
                                proof {
                                    let ut = (u.0 as int, u.1 as int, u.2 as int);
                                    assert(rec_ok(*g, f, ut, rec));
                                    assert(sound_rec(*g, f, mn, rec)) by {
                                        assert(emits(*g, f, mn, a as int, b as int, c as int)
                                            && rec_ok(
                                            *g,
                                            f,
                                            rot_min(*g, a as int, b as int, c as int),
                                            rec,
                                        ));
                                    }
                                    // the new triangle differs from every old one
                                    assert forall|i: int| 0 <= i < out_pre.len() implies tri_of(
                                        out_pre[i],
                                    ) != tri_of(rec) by {
                                        assert(seen_pre[i] != u);
                                        lemma_names_inj(
                                            *g,
                                            (
                                                seen_pre[i].0 as int,
                                                seen_pre[i].1 as int,
                                                seen_pre[i].2 as int,
                                            ),
                                            ut,
                                        );
                                    }
                                }
                                seen.push(u);
                                out.push(rec);
                            }
                        },
                        None => {
                        },
                    }
                }
                proof {
                    // the invariant advances by exactly the position (a, j, k)
                    assert(forall|i: int|
                        0 <= i < out_pre.len() ==> out@[i] == out_pre[i]);
                    assert forall|a1: int, j1: int, k1: int|
                        #![trigger g.nbrs@[pos_b(*g, a1, j1)]@[k1]]
                        pos_valid(*g, a1, j1, k1) && pos_lt(
                            a1,
                            j1,
                            k1,
                            a as int,
                            j as int,
                            k + 1,
                        ) && emits(*g, f, mn, a1, pos_b(*g, a1, j1), pos_c(*g, a1, j1, k1)) implies
                        has_tri(
                        out@,
                        names_of(*g, rot_min(*g, a1, pos_b(*g, a1, j1), pos_c(*g, a1, j1, k1))),
                    ) by {
                        let b1 = pos_b(*g, a1, j1);
                        let c1 = pos_c(*g, a1, j1, k1);
                        if pos_lt(a1, j1, k1, a as int, j as int, k as int) {
                            assert(has_tri(out_pre, names_of(*g, rot_min(*g, a1, b1, c1))));
                            let i = choose|i: int|
                                0 <= i < out_pre.len() && tri_of(#[trigger] out_pre[i])
                                    == names_of(*g, rot_min(*g, a1, b1, c1));
                            assert(tri_of(out@[i]) == names_of(*g, rot_min(*g, a1, b1, c1)));
                        } else {
                            // the position just processed
                            assert(a1 == a as int && j1 == j as int && k1 == k as int);
                            assert(b1 == b as int && c1 == c as int);
                            assert(emits(*g, f, mn, a as int, b as int, c as int));
                            assert(c != a && c != b);
                            assert(math_ok(*g, a as int, b as int, c as int, f, mn));
                            let ut = rot_min(*g, a as int, b as int, c as int);
                            if seen_pre.contains((ut.0 as usize, ut.1 as usize, ut.2 as usize)) {
                                let i = choose|i: int|
                                    0 <= i < seen_pre.len() && #[trigger] seen_pre[i] == (
                                    ut.0 as usize,
                                    ut.1 as usize,
                                    ut.2 as usize,
                                    );
                                lemma_rot(*g, a as int, b as int, c as int, f, mn);
                                assert(0 <= ut.0 && 0 <= ut.1 && 0 <= ut.2);
                                assert(tri_of(out@[i]) == names_of(*g, ut));
                            } else {
                                assert(tri_of(out@[out@.len() - 1]) == names_of(*g, ut));
                            }
                        }
                    }
                }
                k += 1;
            }
            j += 1;
        }
        a += 1;
    }
    proof {
        assert forall|a1: int, b1: int, c1: int|
            #[trigger] emits(*g, f, mn, a1, b1, c1) implies has_tri(
            out@,
            names_of(*g, rot_min(*g, a1, b1, c1)),
        ) by {
            assert(g.in_nbrs(a1, b1));
            let j1 = choose|m: int| 0 <= m < g.nbrs@[a1]@.len() && g.nbrs@[a1]@[m] == b1;
            let k1 = choose|m: int| 0 <= m < g.nbrs@[b1]@.len() && g.nbrs@[b1]@[m] == c1;
            assert(pos_b(*g, a1, j1) == b1);
            assert(pos_c(*g, a1, j1, k1) == c1);
            assert(pos_valid(*g, a1, j1, k1));
            assert(pos_lt(a1, j1, k1, n as int, 0, 0));
            assert(g.nbrs@[pos_b(*g, a1, j1)]@[k1] == g.nbrs@[b1]@[k1]);
        }
    }
    out
}

fn rec_ge_exec(x: &TriangularResult, y: &TriangularResult) -> (r: bool)
    ensures
        r == rec_ge(*x, *y),
{
    x.profit_after_centi > y.profit_after_centi || (x.profit_after_centi == y.profit_after_centi
        && x.score_liquidity >= y.score_liquidity)
}

fn find_best(v: &Vec<TriangularResult>) -> (r: usize)
    requires
        v@.len() > 0,
    ensures
        r < v@.len(),
        forall|k: int| 0 <= k < v@.len() ==> rec_ge(v@[r as int], #[trigger] v@[k]),
{
    let mut best: usize = 0;
    let mut k: usize = 1;
    while k < v.len()
        invariant
            best < k <= v@.len(),
            forall|m: int| 0 <= m < k ==> rec_ge(v@[best as int], #[trigger] v@[m]),
        decreases v@.len() - k,
    {
        if !rec_ge_exec(&v[best], &v[k]) {
            best = k;
        }
        k += 1;
    }
    best
}

/// Sorts the reports by net profit, then liquidity, both descending; no
/// report is lost, invented or duplicated.
fn sort_recs(v0: Vec<TriangularResult>) -> (out: Vec<TriangularResult>)
    requires
        nodup_tri(v0@),
    ensures
        out@.len() == v0@.len(),
        forall|i: int, j: int|
            0 <= i < j < out@.len() ==> rec_ge(#[trigger] out@[i], #[trigger] out@[j]),
        nodup_tri(out@),
        forall|m: int| 0 <= m < out@.len() ==> v0@.contains(#[trigger] out@[m]),
        forall|k: int| 0 <= k < v0@.len() ==> out@.contains(#[trigger] v0@[k]),
{
    let mut v = v0;
    let mut out: Vec<TriangularResult> = Vec::new();
    while v.len() > 0
        invariant
            out@.len() + v@.len() == v0@.len(),
            forall|i: int, j: int|
                0 <= i < j < out@.len() ==> rec_ge(#[trigger] out@[i], #[trigger] out@[j]),
            forall|m: int, k: int|
                0 <= m < out@.len() && 0 <= k < v@.len() ==> rec_ge(
                    #[trigger] out@[m],
                    #[trigger] v@[k],
                ),
            nodup_tri(out@),
            forall|k1: int, k2: int|
                0 <= k1 < k2 < v@.len() ==> tri_of(#[trigger] v@[k1]) != tri_of(#[trigger] v@[k2]),
            forall|m: int, k: int|
                0 <= m < out@.len() && 0 <= k < v@.len() ==> tri_of(#[trigger] out@[m]) != tri_of(
                    #[trigger] v@[k],
                ),
            forall|m: int| 0 <= m < out@.len() ==> v0@.contains(#[trigger] out@[m]),
            forall|k: int| 0 <= k < v@.len() ==> v0@.contains(#[trigger] v@[k]),
            forall|k: int|
                0 <= k < v0@.len() ==> out@.contains(v0@[k]) || v@.contains(#[trigger] v0@[k]),
        decreases v@.len(),
    {
        let ghost vpre = v@;
        let ghost opre = out@;
        let mx = find_best(&v);
        let x = v.swap_remove(mx);
        out.push(x);
        proof {
            assert(forall|k: int|
                0 <= k < v@.len() ==> v@[k] == vpre[k] || v@[k] == vpre[vpre.len() - 1]);
            assert(forall|m: int| 0 <= m < out@.len() ==> out@[m] == opre[m] || out@[m] == x);
            assert forall|k: int| 0 <= k < v0@.len() implies out@.contains(v0@[k]) || v@.contains(
                #[trigger] v0@[k],
            ) by {
                if opre.contains(v0@[k]) {
                    let m = choose|m: int| 0 <= m < opre.len() && opre[m] == v0@[k];
                    assert(out@[m] == v0@[k]);
                } else if vpre.contains(v0@[k]) {
                    let j = choose|j: int| 0 <= j < vpre.len() && vpre[j] == v0@[k];
                    if j == mx {
                        assert(out@[out@.len() - 1] == v0@[k]);
                    } else if j == vpre.len() - 1 {
                        if mx == vpre.len() - 1 {
                            assert(out@[out@.len() - 1] == v0@[k]);
                        } else {
                            assert(v@[mx as int] == vpre[j]);
                        }
                    } else {
                        assert(v@[j] == vpre[j]);
                    }
                }
            }
        }
    }
    out
}

/// Scans the graph for profitable three-hop cycles.
///
/// The result lists each profitable cycle exactly once, under its
/// lexicographically smallest rotation, with exact fee and profit figures,
/// ranked by net profit and then by bottleneck liquidity.
pub fn scan(g: &CurrencyGraph, min_centi: i64, fee_centi: u32) -> (r: Vec<TriangularResult>)
    requires
        g.wf(),
        fee_centi <= FEE_UNIT,
    ensures
        scan_post(*g, fee_centi as int, min_centi as int, r@),
{
    let ghost f = fee_centi as int;
    let ghost mn = min_centi as int;
    let raw = scan_enum(g, min_centi, fee_centi);
    let ghost raw0 = raw@;
    let out = sort_recs(raw);
    proof {
        assert forall|i: int| 0 <= i < out@.len() implies sound_rec(*g, f, mn, #[trigger] out@[i]) by {
            assert(raw0.contains(out@[i]));
            let k = choose|k: int| 0 <= k < raw0.len() && raw0[k] == out@[i];
            assert(sound_rec(*g, f, mn, raw0[k]));
        }
        assert forall|a: int, b: int, c: int| #[trigger] emits(*g, f, mn, a, b, c) implies has_tri(
            out@,
            names_of(*g, rot_min(*g, a, b, c)),
        ) by {
            assert(has_tri(raw0, names_of(*g, rot_min(*g, a, b, c))));
            let i = choose|i: int|
                0 <= i < raw0.len() && tri_of(#[trigger] raw0[i]) == names_of(
                    *g,
                    rot_min(*g, a, b, c),
                );
            assert(out@.contains(raw0[i]));
            let m = choose|m: int| 0 <= m < out@.len() && out@[m] == raw0[i];
            assert(tri_of(out@[m]) == names_of(*g, rot_min(*g, a, b, c)));
        }
    }
    out
}

/// Division monotonicity of the presentational rounding: with the same
/// positive denominator, a smaller numerator never rounds higher.
proof fn lemma_round_div_mono(n1: int, n2: int, d: int)
    requires
        n1 <= n2,
        d >= 1,
    ensures
        round_div(n1, d) <= round_div(n2, d),
{
    if n1 >= 0 {
        vstd::arithmetic::div_mod::lemma_div_is_ordered(n1 + d / 2, n2 + d / 2, d);
    } else if n2 >= 0 {
        vstd::arithmetic::div_mod::lemma_div_is_ordered(0, n2 + d / 2, d);
        vstd::arithmetic::div_mod::lemma_div_is_ordered(0, (-n1) + d / 2, d);
    } else {
        vstd::arithmetic::div_mod::lemma_div_is_ordered((-n2) + d / 2, (-n1) + d / 2, d);
    }
}

/// Raising the per-leg fee never raises a cycle's exact net value or its
/// reported net profit.
pub proof fn lemma_fee_monotonic(g: CurrencyGraph, a: int, b: int, c: int, f1: int, f2: int)
    requires
        g.wf(),
        0 <= a < g.n(),
        0 <= b < g.n(),
        0 <= c < g.n(),
        g.has_edge(a, b),
        g.has_edge(b, c),
        g.has_edge(c, a),
        0 <= f1 <= f2 <= 10000,
    ensures
        net_num(g, a, b, c, f2) <= net_num(g, a, b, c, f1),
        pa_centi(g, a, b, c, f2) <= pa_centi(g, a, b, c, f1),
{
    assert(crate::graph::row_ok(g.adj@[a]@, a, g.n()));
    assert(crate::graph::row_ok(g.adj@[b]@, b, g.n()));
    assert(crate::graph::row_ok(g.adj@[c]@, c, g.n()));
    let k1 = to_ix(g.adj@[a]@, b);
    let k2 = to_ix(g.adj@[b]@, c);
    let k3 = to_ix(g.adj@[c]@, a);
    assert(0 <= k1 < g.adj@[a]@.len() && g.adj@[a]@[k1].to == b);
    assert(0 <= k2 < g.adj@[b]@.len() && g.adj@[b]@[k2].to == c);
    assert(0 <= k3 < g.adj@[c]@.len() && g.adj@[c]@[k3].to == a);
    assert(g.rate_num(a, b) >= 1 && g.rate_num(b, c) >= 1 && g.rate_num(c, a) >= 1);
    assert(g.rate_den(a, b) >= 1 && g.rate_den(b, c) >= 1 && g.rate_den(c, a) >= 1);
    assert(gnum(g, a, b, c) >= 1) by (nonlinear_arith)
        requires
            gnum(g, a, b, c) == g.rate_num(a, b) * g.rate_num(b, c) * g.rate_num(c, a),
            g.rate_num(a, b) >= 1 && g.rate_num(b, c) >= 1 && g.rate_num(c, a) >= 1,
    ;
    assert(gden(g, a, b, c) >= 1) by (nonlinear_arith)
        requires
            gden(g, a, b, c) == g.rate_den(a, b) * g.rate_den(b, c) * g.rate_den(c, a),
            g.rate_den(a, b) >= 1 && g.rate_den(b, c) >= 1 && g.rate_den(c, a) >= 1,
    ;
    assert(fee_keep3(f2) <= fee_keep3(f1) && fee_keep3(f2) >= 0) by (nonlinear_arith)
        requires
            0 <= f1 <= f2 <= 10000,
    ;
    assert(net_num(g, a, b, c, f2) <= net_num(g, a, b, c, f1)) by (nonlinear_arith)
        requires
            net_num(g, a, b, c, f1) == gnum(g, a, b, c) * fee_keep3(f1),
            net_num(g, a, b, c, f2) == gnum(g, a, b, c) * fee_keep3(f2),
            fee_keep3(f2) <= fee_keep3(f1),
            gnum(g, a, b, c) >= 1,
    ;
    assert(net_den(g, a, b, c) >= 1) by (nonlinear_arith)
        requires
            net_den(g, a, b, c) == gden(g, a, b, c) * 1_000_000_000_000,
            gden(g, a, b, c) >= 1,
    ;
    assert((net_num(g, a, b, c, f2) - net_den(g, a, b, c)) * 10000 <= (net_num(g, a, b, c, f1)
        - net_den(g, a, b, c)) * 10000) by (nonlinear_arith)
        requires
            net_num(g, a, b, c, f2) <= net_num(g, a, b, c, f1),
    ;
    lemma_round_div_mono(
        (net_num(g, a, b, c, f2) - net_den(g, a, b, c)) * 10000,
        (net_num(g, a, b, c, f1) - net_den(g, a, b, c)) * 10000,
        net_den(g, a, b, c),
    );
}

/// The triangles of a report list, in order.
pub open spec fn tri_seq(rs: Seq<TriangularResult>) -> Seq<(Seq<char>, Seq<char>, Seq<char>)> {
    Seq::new(rs.len(), |i: int| tri_of(rs[i]))
}

/// Scanning the same graph twice with the same parameters reports the same
/// canonical triangles, in the same number — whatever order either scan
/// visited the nodes in.
pub proof fn lemma_scan_deterministic(
    g: CurrencyGraph,
    f: int,
    min: int,
    r1: Seq<TriangularResult>,
    r2: Seq<TriangularResult>,
)
    requires
        g.wf(),
        scan_post(g, f, min, r1),
        scan_post(g, f, min, r2),
    ensures
        forall|u: (Seq<char>, Seq<char>, Seq<char>)|
            #![trigger has_tri(r1, u)]
            #![trigger has_tri(r2, u)]
            has_tri(r1, u) <==> has_tri(r2, u),
        r1.len() == r2.len(),
{
    assert forall|u: (Seq<char>, Seq<char>, Seq<char>)|
        #![trigger has_tri(r1, u)]
        #![trigger has_tri(r2, u)]
        has_tri(r1, u) <==> has_tri(r2, u) by {
        if has_tri(r1, u) {
            let i = choose|i: int| 0 <= i < r1.len() && tri_of(#[trigger] r1[i]) == u;
            assert(sound_rec(g, f, min, r1[i]));
            let (a, b, c) = choose|a: int, b: int, c: int|
                #[trigger] emits(g, f, min, a, b, c) && rec_ok(g, f, rot_min(g, a, b, c), r1[i]);
            assert(has_tri(r2, names_of(g, rot_min(g, a, b, c))));
            assert(names_of(g, rot_min(g, a, b, c)) == u);
        }
        if has_tri(r2, u) {
            let i = choose|i: int| 0 <= i < r2.len() && tri_of(#[trigger] r2[i]) == u;
            assert(sound_rec(g, f, min, r2[i]));
            let (a, b, c) = choose|a: int, b: int, c: int|
                #[trigger] emits(g, f, min, a, b, c) && rec_ok(g, f, rot_min(g, a, b, c), r2[i]);
            assert(has_tri(r1, names_of(g, rot_min(g, a, b, c))));
            assert(names_of(g, rot_min(g, a, b, c)) == u);
        }
    }
    let t1 = tri_seq(r1);
    let t2 = tri_seq(r2);
    assert(t1.no_duplicates());
    assert(t2.no_duplicates());
    t1.unique_seq_to_set();
    t2.unique_seq_to_set();
    assert forall|u: (Seq<char>, Seq<char>, Seq<char>)| t1.to_set().contains(u) implies t2.to_set().contains(
        u,
    ) by {
        let i = choose|i: int| 0 <= i < t1.len() && t1[i] == u;
        assert(tri_of(r1[i]) == u);
        assert(has_tri(r1, u));
        assert(has_tri(r2, u));
        let m = choose|m: int| 0 <= m < r2.len() && tri_of(#[trigger] r2[m]) == u;
        assert(t2[m] == u);
    }
    assert forall|u: (Seq<char>, Seq<char>, Seq<char>)| t2.to_set().contains(u) implies t1.to_set().contains(
        u,
    ) by {
        let i = choose|i: int| 0 <= i < t2.len() && t2[i] == u;
        assert(tri_of(r2[i]) == u);
        assert(has_tri(r2, u));
        assert(has_tri(r1, u));
        let m = choose|m: int| 0 <= m < r1.len() && tri_of(#[trigger] r1[m]) == u;
        assert(t1[m] == u);
    }
    assert(t1.to_set() =~= t2.to_set());
}

} // verus!
