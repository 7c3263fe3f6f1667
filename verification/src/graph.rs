//! The arbitrage graph builder: turns a merged price list into a directed
//! rate graph with synthetic inverse edges and liquidity-ranked,
//! bounded neighbour lists.
use crate::models::PairPrice;
use crate::text::{chars_to_string, str_chars, upper_seq, upper_vec};
use vstd::prelude::*;

verus! {

/// A directed conversion edge: `1 unit -> (num / den) units of `to``, with
/// the reported volume of the underlying market as liquidity proxy.
#[derive(Debug, Clone, Copy)]
pub struct Edge {
    pub to: usize,
    pub num: u64,
    pub den: u64,
    pub vol: u64,
}

/// The currency graph of one scan: node names, adjacency rows, and
/// liquidity-ranked neighbour lists.
#[derive(Debug)]
pub struct CurrencyGraph {
    pub names: Vec<String>,
    pub adj: Vec<Vec<Edge>>,
    pub nbrs: Vec<Vec<usize>>,
}

/// Whether a quote survives into the graph: spot, positive representable
/// price, non-empty codes, and no self-loop after uppercasing.
pub open spec fn keep(p: PairPrice) -> bool {
    &&& p.is_spot
    &&& p.price_num >= 1
    &&& p.price_den >= 1
    &&& p.base@.len() > 0
    &&& p.quote@.len() > 0
    &&& upper_seq(p.base@) != upper_seq(p.quote@)
}

pub open spec fn names_distinct(names: Seq<String>) -> bool {
    forall|i1: int, i2: int| 0 <= i1 < i2 < names.len() ==> names[i1]@ != names[i2]@
}

pub open spec fn has_name_s(names: Seq<String>, x: Seq<char>) -> bool {
    exists|i: int| 0 <= i < names.len() && names[i]@ == x
}

pub open spec fn id_of_s(names: Seq<String>, x: Seq<char>) -> int {
    choose|i: int| 0 <= i < names.len() && names[i]@ == x
}

pub open spec fn has_to(row: Seq<Edge>, t: int) -> bool {
    exists|k: int| 0 <= k < row.len() && row[k].to == t
}

pub open spec fn to_ix(row: Seq<Edge>, t: int) -> int {
    choose|k: int| 0 <= k < row.len() && row[k].to == t
}

/// The edge of `row` that points at `t`.
pub open spec fn at_to(row: Seq<Edge>, t: int) -> Edge {
    row[to_ix(row, t)]
}

pub open spec fn row_targets_distinct(row: Seq<Edge>) -> bool {
    forall|k1: int, k2: int| 0 <= k1 < k2 < row.len() ==> row[k1].to != row[k2].to
}

/// Every edge of the row points at a real node other than the owner and has
/// a positive rate.
pub open spec fn row_ok(row: Seq<Edge>, i: int, n: int) -> bool {
    &&& forall|k: int|
        0 <= k < row.len() ==> (#[trigger] row[k]).to < n && row[k].to != i && row[k].num >= 1
            && row[k].den >= 1
    &&& row_targets_distinct(row)
}

impl CurrencyGraph {
    pub open spec fn n(self) -> int {
        self.names@.len() as int
    }

    pub open spec fn has_name(self, x: Seq<char>) -> bool {
        has_name_s(self.names@, x)
    }

    pub open spec fn id_of(self, x: Seq<char>) -> int {
        id_of_s(self.names@, x)
    }

    pub open spec fn has_edge(self, a: int, b: int) -> bool {
        0 <= a < self.adj@.len() && has_to(self.adj@[a]@, b)
    }

    pub open spec fn edge(self, a: int, b: int) -> Edge {
        at_to(self.adj@[a]@, b)
    }

    pub open spec fn rate_num(self, a: int, b: int) -> int {
        self.edge(a, b).num as int
    }

    pub open spec fn rate_den(self, a: int, b: int) -> int {
        self.edge(a, b).den as int
    }

    pub open spec fn vol(self, a: int, b: int) -> int {
        self.edge(a, b).vol as int
    }

    /// Whether `t` stands in node `i`'s neighbour list.
    pub open spec fn in_nbrs(self, i: int, t: int) -> bool {
        exists|m: int| 0 <= m < self.nbrs@[i]@.len() && self.nbrs@[i]@[m] == t
    }

    pub open spec fn nbrs_ok(self, i: int) -> bool {
        &&& forall|m: int|
            0 <= m < self.nbrs@[i]@.len() ==> self.has_edge(i, #[trigger] self.nbrs@[i]@[m] as int)
        &&& forall|m1: int, m2: int|
            0 <= m1 < m2 < self.nbrs@[i]@.len() ==> self.nbrs@[i]@[m1] != self.nbrs@[i]@[m2]
                && self.vol(i, self.nbrs@[i]@[m1] as int) >= self.vol(
                i,
                self.nbrs@[i]@[m2] as int,
            )
    }

    /// Well-formedness: distinct node names, positive rates, no self-loops,
    /// distinct targets per row, and liquidity-ranked neighbour lists.
    pub open spec fn wf(self) -> bool {
        &&& self.adj@.len() == self.names@.len()
        &&& self.nbrs@.len() == self.names@.len()
        &&& names_distinct(self.names@)
        &&& forall|i: int| 0 <= i < self.n() ==> row_ok(#[trigger] self.adj@[i]@, i, self.n())
        &&& forall|i: int| 0 <= i < self.n() ==> self.nbrs_ok(i)
    }

    /// Whether the edge `a -> b` carries exactly the price of quote `p`, in
    /// the observed or the synthetic inverse direction.
    pub open spec fn edge_from_pair(self, p: PairPrice, a: int, b: int) -> bool {
        efp(self.names@, self.adj@, p, a, b)
    }

    /// Both directed edges of a surviving pair stand in the graph.
    pub open spec fn pair_covered(self, p: PairPrice) -> bool {
        covered(self.names@, self.adj@, p)
    }
}

/// Whether the edge `a -> b` of the rows carries exactly the price of quote
/// `p`, in the observed or the synthetic inverse direction.
pub open spec fn efp(
    names: Seq<String>,
    adj: Seq<Vec<Edge>>,
    p: PairPrice,
    a: int,
    b: int,
) -> bool {
    keep(p) && ((upper_seq(p.base@) == names[a]@ && upper_seq(p.quote@) == names[b]@ && at_to(
        adj[a]@,
        b,
    ).num == p.price_num && at_to(adj[a]@, b).den == p.price_den && at_to(adj[a]@, b).vol
        == p.volume) || (upper_seq(p.quote@) == names[a]@ && upper_seq(p.base@) == names[b]@
        && at_to(adj[a]@, b).num == p.price_den && at_to(adj[a]@, b).den == p.price_num && at_to(
        adj[a]@,
        b,
    ).vol == p.volume))
}

/// Both node names of `p` are interned and both directed edges exist.
pub open spec fn covered(names: Seq<String>, adj: Seq<Vec<Edge>>, p: PairPrice) -> bool {
    let bu = upper_seq(p.base@);
    let qu = upper_seq(p.quote@);
    &&& has_name_s(names, bu)
    &&& has_name_s(names, qu)
    &&& has_to(adj[id_of_s(names, bu)]@, id_of_s(names, qu))
    &&& has_to(adj[id_of_s(names, qu)]@, id_of_s(names, bu))
}

/// The uppercase form of a string.
pub fn upper_string(s: &str) -> (r: String)
    ensures
        r@ == upper_seq(s@),
{
    let v = upper_vec(&str_chars(s));
    chars_to_string(&v)
}

/// Finds `name` among the interned node names, appending it (with an empty
/// adjacency row) when it is new.
fn intern(names: &mut Vec<String>, adj: &mut Vec<Vec<Edge>>, name: String) -> (r: usize)
    requires
        old(names)@.len() == old(adj)@.len(),
        names_distinct(old(names)@),
    ensures
        final(names)@.len() == final(adj)@.len(),
        names_distinct(final(names)@),
        r < final(names)@.len(),
        final(names)@[r as int]@ == name@,
        old(names)@.len() <= final(names)@.len(),
        forall|i: int|
            0 <= i < old(names)@.len() ==> final(names)@[i] == old(names)@[i] && final(adj)@[i]
                == old(adj)@[i],
        has_name_s(old(names)@, name@) ==> final(names)@ == old(names)@ && final(adj)@ == old(
            adj,
        )@ && r == id_of_s(old(names)@, name@),
        !has_name_s(old(names)@, name@) ==> final(names)@.len() == old(names)@.len() + 1 && r
            == old(names)@.len() && final(adj)@[r as int]@.len() == 0,
{
    let mut i: usize = 0;
    while i < names.len()
        invariant
            i <= names@.len(),
            names@ == old(names)@,
            adj@ == old(adj)@,
            names@.len() == adj@.len(),
            names_distinct(names@),
            forall|j: int| 0 <= j < i ==> names@[j]@ != name@,
        decreases names@.len() - i,
    {
        if names[i] == name {
            proof {
                assert(has_name_s(names@, name@));
                let j = id_of_s(names@, name@);
                if j != i {
                    assert(names@[j]@ == names@[i as int]@);
                    assert(false);
                }
            }
            return i;
        }
        i += 1;
    }
    let r = names.len();
    names.push(name);
    adj.push(Vec::new());
    r
}

/// Inserts edge `e` into a row, overwriting the entry with the same target
/// if one exists.
fn upsert(row: &mut Vec<Edge>, e: Edge)
    requires
        row_targets_distinct(old(row)@),
    ensures
        has_to(old(row)@, e.to as int) ==> final(row)@ == old(row)@.update(
            to_ix(old(row)@, e.to as int),
            e,
        ),
        !has_to(old(row)@, e.to as int) ==> final(row)@ == old(row)@.push(e),
{
    let mut k: usize = 0;
    while k < row.len()
        invariant
            k <= row@.len(),
            row@ == old(row)@,
            row_targets_distinct(row@),
            forall|j: int| 0 <= j < k ==> row@[j].to != e.to,
        decreases row@.len() - k,
    {
        if row[k].to == e.to {
            proof {
                assert(has_to(row@, e.to as int));
                let j = to_ix(row@, e.to as int);
                if j != k {
                    assert(row@[j].to == row@[k as int].to);
                    assert(false);
                }
            }
            row.remove(k);
            row.insert(k, e);
            proof {
                assert(row@ =~= old(row)@.update(k as int, e));
            }
            return ;
        }
        k += 1;
    }
    row.push(e);
}

/// The effect of an upsert on row lookups: the upserted target now carries
/// `e`, and every other lookup is untouched.
proof fn lemma_upsert_effect(r0: Seq<Edge>, r1: Seq<Edge>, e: Edge)
    requires
        row_targets_distinct(r0),
        has_to(r0, e.to as int) ==> r1 == r0.update(to_ix(r0, e.to as int), e),
        !has_to(r0, e.to as int) ==> r1 == r0.push(e),
    ensures
        row_targets_distinct(r1),
        has_to(r1, e.to as int),
        at_to(r1, e.to as int) == e,
        forall|t: int| t != e.to ==> has_to(r1, t) == has_to(r0, t),
        forall|t: int| t != e.to && has_to(r0, t) ==> at_to(r1, t) == at_to(r0, t),
        forall|k: int|
            0 <= k < r1.len() ==> (#[trigger] r1[k]) == e || (exists|k0: int|
                0 <= k0 < r0.len() && r0[k0] == r1[k]),
{
    if has_to(r0, e.to as int) {
        let ix = to_ix(r0, e.to as int);
        assert(0 <= ix < r0.len() && r0[ix].to == e.to);
        assert(r1.len() == r0.len());
        assert forall|t: int| t != e.to implies has_to(r1, t) == has_to(r0, t) by {
            if has_to(r0, t) {
                let k = to_ix(r0, t);
                assert(k != ix);
                assert(r1[k].to == t);
            }
            if has_to(r1, t) {
                let k = choose|k: int| 0 <= k < r1.len() && r1[k].to == t;
                assert(k != ix);
                assert(r0[k].to == t);
            }
        }
        assert forall|t: int| t != e.to && has_to(r0, t) implies at_to(r1, t) == at_to(r0, t) by {
            let k0 = to_ix(r0, t);
            let k1 = to_ix(r1, t);
            assert(r1[k1].to == t && 0 <= k1 < r1.len());
            assert(k1 != ix);
            assert(r0[k1].to == t);
            assert(k0 == k1);
        }
        let jx = to_ix(r1, e.to as int);
        assert(r1[ix].to == e.to);
        if jx != ix {
            assert(r0[jx].to == r1[jx].to);
            assert(false);
        }
    } else {
        assert(r1.len() == r0.len() + 1);
        assert(r1[r0.len() as int] == e);
        assert forall|t: int| t != e.to implies has_to(r1, t) == has_to(r0, t) by {
            if has_to(r0, t) {
                let k = to_ix(r0, t);
                assert(r1[k].to == t);
            }
            if has_to(r1, t) {
                let k = choose|k: int| 0 <= k < r1.len() && r1[k].to == t;
                assert(k != r0.len());
                assert(r0[k].to == t);
            }
        }
        assert forall|t: int| t != e.to && has_to(r0, t) implies at_to(r1, t) == at_to(r0, t) by {
            let k0 = to_ix(r0, t);
            let k1 = to_ix(r1, t);
            assert(r1[k1].to == t && 0 <= k1 < r1.len());
            assert(k1 != r0.len());
            assert(r0[k1].to == t);
            assert(k0 == k1);
        }
        let jx = to_ix(r1, e.to as int);
        assert(r1[r0.len() as int].to == e.to);
        assert(has_to(r1, e.to as int));
        if jx != r0.len() {
            assert(r0[jx].to == r1[jx].to);
            assert(false);
        }
    }
}

/// Descending order on the volume component.
pub open spec fn pairs_sorted_desc(s: Seq<(usize, u64)>) -> bool {
    forall|m1: int, m2: int| 0 <= m1 < m2 < s.len() ==> s[m1].1 >= s[m2].1
}

fn find_max_ix(v: &Vec<(usize, u64)>) -> (r: usize)
    requires
        v@.len() > 0,
    ensures
        r < v@.len(),
        forall|k: int| 0 <= k < v@.len() ==> v@[r as int].1 >= v@[k].1,
{
    let mut best: usize = 0;
    let mut k: usize = 1;
    while k < v.len()
        invariant
            best < k <= v@.len(),
            forall|j: int| 0 <= j < k ==> v@[best as int].1 >= v@[j].1,
        decreases v@.len() - k,
    {
        if v[k].1 > v[best].1 {
            best = k;
        }
        k += 1;
    }
    best
}

/// Sorts `(target, volume)` entries by volume, largest first; the targets,
/// distinct on entry, stay distinct and no entry is lost or invented.
fn sort_desc(v0: Vec<(usize, u64)>) -> (out: Vec<(usize, u64)>)
    requires
        forall|m1: int, m2: int| 0 <= m1 < m2 < v0@.len() ==> v0@[m1].0 != v0@[m2].0,
    ensures
        out@.len() == v0@.len(),
        pairs_sorted_desc(out@),
        forall|m: int| 0 <= m < out@.len() ==> v0@.contains(#[trigger] out@[m]),
        forall|k: int| 0 <= k < v0@.len() ==> out@.contains(#[trigger] v0@[k]),
        forall|m1: int, m2: int| 0 <= m1 < m2 < out@.len() ==> out@[m1].0 != out@[m2].0,
{
    let mut v = v0;
    let mut out: Vec<(usize, u64)> = Vec::new();
    while v.len() > 0
        invariant
            out@.len() + v@.len() == v0@.len(),
            pairs_sorted_desc(out@),
            forall|m: int, k: int|
                0 <= m < out@.len() && 0 <= k < v@.len() ==> out@[m].1 >= v@[k].1,
            forall|m1: int, m2: int| 0 <= m1 < m2 < out@.len() ==> out@[m1].0 != out@[m2].0,
            forall|k1: int, k2: int| 0 <= k1 < k2 < v@.len() ==> v@[k1].0 != v@[k2].0,
            forall|m: int, k: int|
                0 <= m < out@.len() && 0 <= k < v@.len() ==> out@[m].0 != v@[k].0,
            forall|m: int| 0 <= m < out@.len() ==> v0@.contains(#[trigger] out@[m]),
            forall|k: int| 0 <= k < v@.len() ==> v0@.contains(#[trigger] v@[k]),
            forall|k: int|
                0 <= k < v0@.len() ==> out@.contains(v0@[k]) || v@.contains(#[trigger] v0@[k]),
        decreases v@.len(),
    {
        let ghost vpre = v@;
        let ghost opre = out@;
        let mx = find_max_ix(&v);
        let x = v.swap_remove(mx);
        out.push(x);
        proof {
            assert(forall|k: int|
                0 <= k < v@.len() ==> v@[k] == vpre[k] || v@[k] == vpre[vpre.len() - 1]);
            assert(forall|k: int|
                0 <= k < v@.len() ==> exists|j: int| 0 <= j < vpre.len() && vpre[j] == #[trigger] v@[k]);
            assert(forall|m: int| 0 <= m < out@.len() ==> out@[m] == opre[m] || out@[m] == x);
            assert forall|k: int| 0 <= k < v0@.len() implies out@.contains(v0@[k]) || v@.contains(
                #[trigger] v0@[k],
            ) by {
                if opre.contains(v0@[k]) {
                    let m = choose|m: int| 0 <= m < opre.len() && opre[m] == v0@[k];
                    assert(out@[m] == v0@[k]);
                } else if vpre.contains(v0@[k]) {
                    let j = choose|j: int| 0 <= j < vpre.len() && vpre[j] == v0@[k];
                    if j == mx {
                        assert(out@[out@.len() - 1] == v0@[k]);
                    } else if j == vpre.len() - 1 {
                        if mx == vpre.len() - 1 {
                            assert(out@[out@.len() - 1] == v0@[k]);
                        } else {
                            assert(v@[mx as int] == vpre[j]);
                        }
                    } else {
                        assert(v@[j] == vpre[j]);
                    }
                }
            }
        }
    }
    out
}

/// `id_of_s` is stable when the name table only grows.
proof fn lemma_id_stable(names0: Seq<String>, names1: Seq<String>, x: Seq<char>)
    requires
        names_distinct(names1),
        names0.len() <= names1.len(),
        forall|i: int| 0 <= i < names0.len() ==> names1[i] == names0[i],
        has_name_s(names0, x),
    ensures
        has_name_s(names1, x),
        id_of_s(names1, x) == id_of_s(names0, x),
{
    let i0 = id_of_s(names0, x);
    assert(0 <= i0 < names0.len() && names0[i0]@ == x);
    assert(names1[i0]@ == x);
    let i1 = id_of_s(names1, x);
    if i1 != i0 {
        assert(names1[i1]@ == names1[i0]@);
        assert(false);
    }
}

/// In a row with distinct targets, looking up an entry's own target finds
/// that entry.
proof fn lemma_to_ix_self(row: Seq<Edge>, k: int)
    requires
        row_targets_distinct(row),
        0 <= k < row.len(),
    ensures
        has_to(row, row[k].to as int),
        to_ix(row, row[k].to as int) == k,
        at_to(row, row[k].to as int) == row[k],
{
    let j = to_ix(row, row[k].to as int);
    if j != k {
        assert(row[j].to == row[k].to);
        assert(false);
    }
}

pub open spec fn min_spec(a: int, b: int) -> int {
    if a < b {
        a
    } else {
        b
    }
}

/// What a finished neighbour list promises about its adjacency row.
pub open spec fn nbrs_row_ok(row: Seq<Edge>, lst: Seq<usize>, limit: int) -> bool {
    &&& lst.len() == min_spec(limit, row.len() as int)
    &&& forall|m: int| 0 <= m < lst.len() ==> has_to(row, #[trigger] lst[m] as int)
    &&& forall|m1: int, m2: int|
        0 <= m1 < m2 < lst.len() ==> lst[m1] != lst[m2] && at_to(row, lst[m1] as int).vol >= at_to(
            row,
            lst[m2] as int,
        ).vol
    &&& forall|t: int, m: int|
        #![trigger at_to(row, t), lst[m]]
        has_to(row, t) && !lst.contains(t as usize) && 0 <= m < lst.len() ==> at_to(row, t).vol
            <= at_to(row, lst[m] as int).vol
}

/// Ranks one adjacency row's targets by volume, largest first, and keeps at
/// most `limit` of them.
fn rank_row(row: &Vec<Edge>, limit: usize) -> (lst: Vec<usize>)
    requires
        row_targets_distinct(row@),
    ensures
        nbrs_row_ok(row@, lst@, limit as int),
{
    let mut tv: Vec<(usize, u64)> = Vec::new();
    let mut k: usize = 0;
    while k < row.len()
        invariant
            k <= row@.len(),
            tv@.len() == k,
            row_targets_distinct(row@),
            forall|m: int| 0 <= m < k ==> #[trigger] tv@[m] == (row@[m].to, row@[m].vol),
        decreases row@.len() - k,
    {
        tv.push((row[k].to, row[k].vol));
        k += 1;
    }
    proof {
        assert forall|m1: int, m2: int| 0 <= m1 < m2 < tv@.len() implies tv@[m1].0 != tv@[m2].0 by {
            assert(row@[m1].to != row@[m2].to);
        }
    }
    let sorted = sort_desc(tv);
    let cap: usize = if limit < sorted.len() {
        limit
    } else {
        sorted.len()
    };
    let mut lst: Vec<usize> = Vec::new();
    let mut m: usize = 0;
    while m < cap
        invariant
            m <= cap <= sorted@.len(),
            lst@.len() == m,
            forall|j: int| 0 <= j < m ==> #[trigger] lst@[j] == sorted@[j].0,
        decreases cap - m,
    {
        lst.push(sorted[m].0);
        m += 1;
    }
    proof {
        let rowv = row@;
        let ghost tvv = tv@;
        // each sorted entry is a (target, volume) of the row
        assert forall|j: int| 0 <= j < sorted@.len() implies has_to(rowv, #[trigger] sorted@[j].0 as int)
            && at_to(rowv, sorted@[j].0 as int).vol == sorted@[j].1 by {
            assert(tvv.contains(sorted@[j]));
            let k0 = choose|k0: int| 0 <= k0 < tvv.len() && tvv[k0] == sorted@[j];
            assert(tvv[k0] == (rowv[k0].to, rowv[k0].vol));
            lemma_to_ix_self(rowv, k0);
        }
        assert forall|t: int, m2: int|
            #![trigger at_to(rowv, t), lst@[m2]]
            has_to(rowv, t) && !lst@.contains(t as usize) && 0 <= m2 < lst@.len() implies at_to(
            rowv,
            t,
        ).vol <= at_to(rowv, lst@[m2] as int).vol by {
            let k0 = to_ix(rowv, t);
            assert(rowv[k0].to == t as usize);
            lemma_to_ix_self(rowv, k0);
            assert(tvv[k0] == (rowv[k0].to, rowv[k0].vol));
            assert(sorted@.contains(tvv[k0]));
            let mm = choose|mm: int| 0 <= mm < sorted@.len() && sorted@[mm] == tvv[k0];
            if mm < cap {
                assert(lst@[mm] == sorted@[mm].0);
                assert(lst@.contains(t as usize));
                assert(false);
            }
            assert(sorted@[m2].1 >= sorted@[mm].1);
        }
        assert(lst@.len() == min_spec(limit as int, rowv.len() as int));
    }
    lst
}

/// Every adjacency row is well-formed against the name table.
#[verifier::opaque]
pub open spec fn inv_rows(names: Seq<String>, adj: Seq<Vec<Edge>>) -> bool {
    forall|i: int| 0 <= i < adj.len() ==> row_ok(#[trigger] adj[i]@, i, names.len() as int)
}

/// The first `pi` quotes that survive the filter have both their directed
/// edges in the rows.
#[verifier::opaque]
pub open spec fn inv_covered(
    names: Seq<String>,
    adj: Seq<Vec<Edge>>,
    pairs: Seq<PairPrice>,
    pi: int,
) -> bool {
    forall|j: int| 0 <= j < pi && keep(#[trigger] pairs[j]) ==> covered(names, adj, pairs[j])
}

/// Every edge of the rows carries the exact price of one of the first `pi`
/// quotes.
/// The edge `a -> b` carries the price of one of the first `pi` quotes.
pub open spec fn edge_origin(
    names: Seq<String>,
    adj: Seq<Vec<Edge>>,
    pairs: Seq<PairPrice>,
    pi: int,
    a: int,
    b: int,
) -> bool {
    exists|j: int| 0 <= j < pi && #[trigger] efp(names, adj, pairs[j], a, b)
}

#[verifier::opaque]
pub open spec fn inv_edges(
    names: Seq<String>,
    adj: Seq<Vec<Edge>>,
    pairs: Seq<PairPrice>,
    pi: int,
) -> bool {
    forall|a: int, b: int|
        0 <= a < adj.len() && #[trigger] has_to(adj[a]@, b) ==> edge_origin(
            names,
            adj,
            pairs,
            pi,
            a,
            b,
        )
}

/// Every interned name stems from one of the first `pi` surviving quotes.
/// Node name `x` stems from one of the first `pi` surviving quotes.
pub open spec fn name_origin(
    names: Seq<String>,
    pairs: Seq<PairPrice>,
    pi: int,
    x: int,
) -> bool {
    exists|j: int|
        0 <= j < pi && keep(#[trigger] pairs[j]) && (upper_seq(pairs[j].base@) == names[x]@
            || upper_seq(pairs[j].quote@) == names[x]@)
}

#[verifier::opaque]
pub open spec fn inv_names(names: Seq<String>, pairs: Seq<PairPrice>, pi: int) -> bool {
    forall|x: int|
        0 <= x < names.len() ==> #[trigger] name_origin(names, pairs, pi, x)
}

/// The state of one builder step on quote `pi`: the entry invariants, the
/// effect of interning both names, and the effect of the two edge upserts.
pub open spec fn step_ctx(
    pairs: Seq<PairPrice>,
    pi: int,
    names0: Seq<String>,
    adj0: Seq<Vec<Edge>>,
    names: Seq<String>,
    adj2: Seq<Vec<Edge>>,
    adj3: Seq<Vec<Edge>>,
    adj4: Seq<Vec<Edge>>,
    a: int,
    b: int,
    e1: Edge,
    e2: Edge,
) -> bool {
    &&& 0 <= pi < pairs.len()
    &&& keep(pairs[pi])
    &&& names0.len() == adj0.len()
    &&& names_distinct(names0)
    &&& inv_rows(names0, adj0)
    &&& inv_covered(names0, adj0, pairs, pi)
    &&& inv_edges(names0, adj0, pairs, pi)
    &&& inv_names(names0, pairs, pi)
    &&& names.len() == adj2.len()
    &&& names.len() <= usize::MAX
    &&& names_distinct(names)
    &&& names0.len() <= names.len()
    &&& forall|i: int| 0 <= i < names0.len() ==> names[i] == names0[i] && adj2[i] == adj0[i]
    &&& forall|i: int|
        #![trigger names[i]]
        #![trigger adj2[i]]
        names0.len() <= i < names.len() ==> adj2[i]@.len() == 0 && (names[i]@ == upper_seq(
            pairs[pi].base@,
        ) || names[i]@ == upper_seq(pairs[pi].quote@))
    &&& 0 <= a < names.len()
    &&& 0 <= b < names.len()
    &&& a != b
    &&& names[a]@ == upper_seq(pairs[pi].base@)
    &&& names[b]@ == upper_seq(pairs[pi].quote@)
    &&& e1 == (Edge {
        to: b as usize,
        num: pairs[pi].price_num,
        den: pairs[pi].price_den,
        vol: pairs[pi].volume,
    })
    &&& e2 == (Edge {
        to: a as usize,
        num: pairs[pi].price_den,
        den: pairs[pi].price_num,
        vol: pairs[pi].volume,
    })
    &&& adj3.len() == adj2.len()
    &&& adj4.len() == adj3.len()
    &&& forall|i: int| 0 <= i < adj2.len() && i != a ==> adj3[i] == adj2[i]
    &&& forall|i: int| 0 <= i < adj3.len() && i != b ==> adj4[i] == adj3[i]
    &&& has_to(adj2[a]@, e1.to as int) ==> adj3[a]@ == adj2[a]@.update(
        to_ix(adj2[a]@, e1.to as int),
        e1,
    )
    &&& !has_to(adj2[a]@, e1.to as int) ==> adj3[a]@ == adj2[a]@.push(e1)
    &&& has_to(adj3[b]@, e2.to as int) ==> adj4[b]@ == adj3[b]@.update(
        to_ix(adj3[b]@, e2.to as int),
        e2,
    )
    &&& !has_to(adj3[b]@, e2.to as int) ==> adj4[b]@ == adj3[b]@.push(e2)
}


/// Pulls one row's well-formedness out of the opaque row invariant.
proof fn lemma_row_distinct(names: Seq<String>, adj: Seq<Vec<Edge>>, i: int)
    requires
        inv_rows(names, adj),
        0 <= i < adj.len(),
    ensures
        row_ok(adj[i]@, i, names.len() as int),
        row_targets_distinct(adj[i]@),
{
    reveal(inv_rows);
}

/// The invariants hold vacuously at the start, before any quote is
/// processed.
proof fn lemma_empty_invs(names: Seq<String>, adj: Seq<Vec<Edge>>, pairs: Seq<PairPrice>)
    requires
        names.len() == 0,
        adj.len() == 0,
    ensures
        inv_rows(names, adj),
        inv_covered(names, adj, pairs, 0),
        inv_edges(names, adj, pairs, 0),
        inv_names(names, pairs, 0),
{
    assert(inv_rows(names, adj)) by {
        reveal(inv_rows);
    }
    assert(inv_covered(names, adj, pairs, 0)) by {
        reveal(inv_covered);
    }
    assert(inv_edges(names, adj, pairs, 0)) by {
        reveal(inv_edges);
    }
    assert(inv_names(names, pairs, 0)) by {
        reveal(inv_names);
    }
}

/// A discarded quote leaves the coverage invariant untouched.
#[verifier::spinoff_prover]
proof fn lemma_skip_covered(
    names: Seq<String>,
    adj: Seq<Vec<Edge>>,
    pairs: Seq<PairPrice>,
    pi: int,
)
    requires
        0 <= pi < pairs.len(),
        !keep(pairs[pi]),
        inv_covered(names, adj, pairs, pi),
    ensures
        inv_covered(names, adj, pairs, pi + 1),
{
    reveal(inv_covered);
}

/// A discarded quote leaves the edge-origin invariant untouched.
#[verifier::spinoff_prover]
proof fn lemma_skip_edges(
    names: Seq<String>,
    adj: Seq<Vec<Edge>>,
    pairs: Seq<PairPrice>,
    pi: int,
)
    requires
        0 <= pi < pairs.len(),
        inv_edges(names, adj, pairs, pi),
    ensures
        inv_edges(names, adj, pairs, pi + 1),
{
    reveal(inv_edges);
    assert forall|a: int, b: int|
        0 <= a < adj.len() && #[trigger] has_to(adj[a]@, b) implies edge_origin(
        names,
        adj,
        pairs,
        pi + 1,
        a,
        b,
    ) by {
        let j = choose|j: int| 0 <= j < pi && #[trigger] efp(names, adj, pairs[j], a, b);
        assert(efp(names, adj, pairs[j], a, b));
    }
}

/// A discarded quote leaves the name-origin invariant untouched.
#[verifier::spinoff_prover]
proof fn lemma_skip_names(names: Seq<String>, pairs: Seq<PairPrice>, pi: int)
    requires
        0 <= pi < pairs.len(),
        inv_names(names, pairs, pi),
    ensures
        inv_names(names, pairs, pi + 1),
{
    reveal(inv_names);
    assert forall|x: int| 0 <= x < names.len() implies #[trigger] name_origin(
        names,
        pairs,
        pi + 1,
        x,
    ) by {
        assert(name_origin(names, pairs, pi, x));
        let j = choose|j: int|
            0 <= j < pi && keep(#[trigger] pairs[j]) && (upper_seq(pairs[j].base@) == names[x]@
                || upper_seq(pairs[j].quote@) == names[x]@);
        assert(0 <= j < pi + 1 && keep(pairs[j]) && (upper_seq(pairs[j].base@) == names[x]@
            || upper_seq(pairs[j].quote@) == names[x]@));
    }
}

/// Shared entry reasoning of the step lemmas: both upserts behave as
/// `lemma_upsert_effect` describes and the untouched rows keep their
/// distinct targets.
#[verifier::rlimit(30)]
#[verifier::spinoff_prover]
proof fn lemma_step_prelude(
    pairs: Seq<PairPrice>,
    pi: int,
    names0: Seq<String>,
    adj0: Seq<Vec<Edge>>,
    names: Seq<String>,
    adj2: Seq<Vec<Edge>>,
    adj3: Seq<Vec<Edge>>,
    adj4: Seq<Vec<Edge>>,
    a: int,
    b: int,
    e1: Edge,
    e2: Edge,
)
    requires
        step_ctx(pairs, pi, names0, adj0, names, adj2, adj3, adj4, a, b, e1, e2),
    ensures
        row_targets_distinct(adj2[a]@),
        row_targets_distinct(adj3[b]@),
        adj4[a]@ == adj3[a]@,
        adj3[b]@ == adj2[b]@,
        row_targets_distinct(adj4[a]@),
        row_targets_distinct(adj4[b]@),
        has_to(adj4[a]@, b) && at_to(adj4[a]@, b) == e1,
        has_to(adj4[b]@, a) && at_to(adj4[b]@, a) == e2,
        forall|t: int| t != b ==> has_to(adj4[a]@, t) == has_to(adj2[a]@, t),
        forall|t: int| t != b && has_to(adj2[a]@, t) ==> at_to(adj4[a]@, t) == at_to(adj2[a]@, t),
        forall|t: int| t != a ==> has_to(adj4[b]@, t) == has_to(adj2[b]@, t),
        forall|t: int| t != a && has_to(adj2[b]@, t) ==> at_to(adj4[b]@, t) == at_to(adj2[b]@, t),
        forall|k: int|
            0 <= k < adj4[a]@.len() ==> (#[trigger] adj4[a]@[k]) == e1 || (exists|k0: int|
                0 <= k0 < adj2[a]@.len() && adj2[a]@[k0] == adj4[a]@[k]),
        forall|k: int|
            0 <= k < adj4[b]@.len() ==> (#[trigger] adj4[b]@[k]) == e2 || (exists|k0: int|
                0 <= k0 < adj2[b]@.len() && adj2[b]@[k0] == adj4[b]@[k]),
{
    reveal(inv_rows);
    if a < names0.len() {
        assert(adj2[a] == adj0[a]);
        assert(row_ok(adj0[a]@, a, names0.len() as int));
    } else {
        assert(adj2[a]@.len() == 0);
    }
    assert(row_targets_distinct(adj2[a]@));
    lemma_upsert_effect(adj2[a]@, adj3[a]@, e1);
    assert(adj3[b]@ == adj2[b]@);
    if b < names0.len() {
        assert(adj2[b] == adj0[b]);
        assert(row_ok(adj0[b]@, b, names0.len() as int));
    } else {
        assert(adj2[b]@.len() == 0);
    }
    assert(row_targets_distinct(adj3[b]@));
    lemma_upsert_effect(adj3[b]@, adj4[b]@, e2);
    assert(adj4[a]@ == adj3[a]@);
}

#[verifier::rlimit(30)]
#[verifier::spinoff_prover]
proof fn lemma_step_rows(
    pairs: Seq<PairPrice>,
    pi: int,
    names0: Seq<String>,
    adj0: Seq<Vec<Edge>>,
    names: Seq<String>,
    adj2: Seq<Vec<Edge>>,
    adj3: Seq<Vec<Edge>>,
    adj4: Seq<Vec<Edge>>,
    a: int,
    b: int,
    e1: Edge,
    e2: Edge,
)
    requires
        step_ctx(pairs, pi, names0, adj0, names, adj2, adj3, adj4, a, b, e1, e2),
    ensures
        inv_rows(names, adj4),
{
    reveal(inv_rows);
    lemma_step_prelude(pairs, pi, names0, adj0, names, adj2, adj3, adj4, a, b, e1, e2);
    let n = names.len() as int;
    assert forall|i: int| 0 <= i < adj4.len() implies row_ok(#[trigger] adj4[i]@, i, n) by {
        if i != a && i != b {
            assert(adj4[i] == adj2[i]);
            if i < names0.len() {
                assert(adj2[i] == adj0[i]);
                assert(row_ok(adj0[i]@, i, names0.len() as int));
            } else {
                assert(adj2[i]@.len() == 0);
            }
        } else if i == a {
            assert(forall|k: int|
                0 <= k < adj2[a]@.len() ==> (#[trigger] adj2[a]@[k]).to < n && adj2[a]@[k].to != a
                    && adj2[a]@[k].num >= 1 && adj2[a]@[k].den >= 1) by {
                if a < names0.len() {
                    assert(adj2[a] == adj0[a]);
                    assert(row_ok(adj0[a]@, a, names0.len() as int));
                }
            }
            assert(forall|k: int|
                0 <= k < adj4[a]@.len() ==> (#[trigger] adj4[a]@[k]) == e1 || (exists|k0: int|
                    0 <= k0 < adj2[a]@.len() && adj2[a]@[k0] == adj4[a]@[k]));
        } else {
            assert(forall|k: int|
                0 <= k < adj2[b]@.len() ==> (#[trigger] adj2[b]@[k]).to < n && adj2[b]@[k].to != b
                    && adj2[b]@[k].num >= 1 && adj2[b]@[k].den >= 1) by {
                if b < names0.len() {
                    assert(adj2[b] == adj0[b]);
                    assert(row_ok(adj0[b]@, b, names0.len() as int));
                }
            }
            assert(forall|k: int|
                0 <= k < adj4[b]@.len() ==> (#[trigger] adj4[b]@[k]) == e2 || (exists|k0: int|
                    0 <= k0 < adj2[b]@.len() && adj2[b]@[k0] == adj4[b]@[k]));
        }
    }
}

#[verifier::rlimit(30)]
#[verifier::spinoff_prover]
proof fn lemma_step_covered(
    pairs: Seq<PairPrice>,
    pi: int,
    names0: Seq<String>,
    adj0: Seq<Vec<Edge>>,
    names: Seq<String>,
    adj2: Seq<Vec<Edge>>,
    adj3: Seq<Vec<Edge>>,
    adj4: Seq<Vec<Edge>>,
    a: int,
    b: int,
    e1: Edge,
    e2: Edge,
)
    requires
        step_ctx(pairs, pi, names0, adj0, names, adj2, adj3, adj4, a, b, e1, e2),
    ensures
        inv_covered(names, adj4, pairs, pi + 1),
{
    reveal(inv_covered);
    lemma_step_prelude(pairs, pi, names0, adj0, names, adj2, adj3, adj4, a, b, e1, e2);
    assert forall|j: int| 0 <= j < pi + 1 && keep(#[trigger] pairs[j]) implies covered(
        names,
        adj4,
        pairs[j],
    ) by {
        if j < pi {
            let bx = upper_seq(pairs[j].base@);
            let qx = upper_seq(pairs[j].quote@);
            assert(covered(names0, adj0, pairs[j]));
            lemma_id_stable(names0, names, bx);
            lemma_id_stable(names0, names, qx);
            let ib = id_of_s(names0, bx);
            let iq = id_of_s(names0, qx);
            assert(0 <= ib < names0.len() && 0 <= iq < names0.len());
            assert(adj2[ib] == adj0[ib] && adj2[iq] == adj0[iq]);
            assert(has_to(adj2[ib]@, iq) && has_to(adj2[iq]@, ib));
            if ib == a {
                assert(has_to(adj4[a]@, iq) == (iq == b || has_to(adj2[a]@, iq)));
            } else if ib == b {
                assert(has_to(adj4[b]@, iq) == (iq == a || has_to(adj2[b]@, iq)));
            } else {
                assert(adj4[ib] == adj2[ib]);
            }
            if iq == a {
                assert(has_to(adj4[a]@, ib) == (ib == b || has_to(adj2[a]@, ib)));
            } else if iq == b {
                assert(has_to(adj4[b]@, ib) == (ib == a || has_to(adj2[b]@, ib)));
            } else {
                assert(adj4[iq] == adj2[iq]);
            }
        } else {
            let bu = upper_seq(pairs[pi].base@);
            let qu = upper_seq(pairs[pi].quote@);
            assert(names[a]@ == bu && names[b]@ == qu);
            assert(has_name_s(names, bu) && has_name_s(names, qu));
            let ia = id_of_s(names, bu);
            if ia != a {
                assert(names[ia]@ == names[a]@);
                assert(false);
            }
            let ibq = id_of_s(names, qu);
            if ibq != b {
                assert(names[ibq]@ == names[b]@);
                assert(false);
            }
        }
    }
}

#[verifier::rlimit(30)]
#[verifier::spinoff_prover]
proof fn lemma_step_edges(
    pairs: Seq<PairPrice>,
    pi: int,
    names0: Seq<String>,
    adj0: Seq<Vec<Edge>>,
    names: Seq<String>,
    adj2: Seq<Vec<Edge>>,
    adj3: Seq<Vec<Edge>>,
    adj4: Seq<Vec<Edge>>,
    a: int,
    b: int,
    e1: Edge,
    e2: Edge,
)
    requires
        step_ctx(pairs, pi, names0, adj0, names, adj2, adj3, adj4, a, b, e1, e2),
    ensures
        inv_edges(names, adj4, pairs, pi + 1),
{
    reveal(inv_edges);
    lemma_step_prelude(pairs, pi, names0, adj0, names, adj2, adj3, adj4, a, b, e1, e2);
    assert forall|x: int, y: int|
        0 <= x < adj4.len() && #[trigger] has_to(adj4[x]@, y) implies edge_origin(
        names,
        adj4,
        pairs,
        pi + 1,
        x,
        y,
    ) by {
        if x == a && y == b {
            assert(at_to(adj4[a]@, b) == e1);
            assert(efp(names, adj4, pairs[pi], x, y));
        } else if x == b && y == a {
            assert(at_to(adj4[b]@, a) == e2);
            assert(efp(names, adj4, pairs[pi], x, y));
        } else {
            if x == a {
                assert(has_to(adj2[a]@, y));
            } else if x == b {
                assert(has_to(adj2[b]@, y));
            } else {
                assert(adj4[x] == adj2[x]);
                assert(has_to(adj2[x]@, y));
            }
            if x < names0.len() {
                assert(adj2[x] == adj0[x]);
                assert(has_to(adj0[x]@, y));
                lemma_row_distinct(names0, adj0, x);
                let ky = to_ix(adj0[x]@, y);
                assert(adj0[x]@[ky].to == y);
                assert(0 <= y < names0.len());
                assert(names[x] == names0[x] && names[y] == names0[y]);
                if x == a {
                    assert(at_to(adj4[x]@, y) == at_to(adj2[x]@, y));
                } else if x == b {
                    assert(at_to(adj4[x]@, y) == at_to(adj2[x]@, y));
                } else {
                    assert(at_to(adj4[x]@, y) == at_to(adj2[x]@, y));
                }
                assert(edge_origin(names0, adj0, pairs, pi, x, y));
                let j = choose|j: int| 0 <= j < pi && #[trigger] efp(names0, adj0, pairs[j], x, y);
                assert(efp(names0, adj0, pairs[j], x, y));
                assert(efp(names, adj4, pairs[j], x, y));
            } else {
                assert(adj2[x]@.len() == 0);
                assert(false);
            }
        }
    }
}

#[verifier::rlimit(30)]
#[verifier::spinoff_prover]
proof fn lemma_step_names(
    pairs: Seq<PairPrice>,
    pi: int,
    names0: Seq<String>,
    adj0: Seq<Vec<Edge>>,
    names: Seq<String>,
    adj2: Seq<Vec<Edge>>,
    adj3: Seq<Vec<Edge>>,
    adj4: Seq<Vec<Edge>>,
    a: int,
    b: int,
    e1: Edge,
    e2: Edge,
)
    requires
        step_ctx(pairs, pi, names0, adj0, names, adj2, adj3, adj4, a, b, e1, e2),
    ensures
        inv_names(names, pairs, pi + 1),
{
    reveal(inv_names);
    assert forall|x: int| 0 <= x < names.len() implies #[trigger] name_origin(
        names,
        pairs,
        pi + 1,
        x,
    ) by {
        if x < names0.len() {
            assert(names0[x] == names[x]);
            assert(name_origin(names0, pairs, pi, x));
            let j = choose|j: int|
                0 <= j < pi && keep(#[trigger] pairs[j]) && (upper_seq(pairs[j].base@)
                    == names0[x]@ || upper_seq(pairs[j].quote@) == names0[x]@);
            assert(0 <= j < pi + 1 && keep(pairs[j]) && (upper_seq(pairs[j].base@) == names[x]@
                || upper_seq(pairs[j].quote@) == names[x]@));
        } else {
            assert(0 <= pi < pi + 1 && keep(pairs[pi]) && (upper_seq(pairs[pi].base@)
                == names[x]@ || upper_seq(pairs[pi].quote@) == names[x]@));
        }
    }
}

/// Everything the builder promises: a well-formed graph whose edges are
/// exactly backed by the surviving quotes, with liquidity-ranked neighbour
/// lists capped at `limit`.
pub open spec fn build_post(g: CurrencyGraph, pairs: Seq<PairPrice>, limit: int) -> bool {
    &&& g.wf()
    &&& inv_covered(g.names@, g.adj@, pairs, pairs.len() as int)
    &&& inv_edges(g.names@, g.adj@, pairs, pairs.len() as int)
    &&& inv_names(g.names@, pairs, pairs.len() as int)
    &&& forall|i: int|
        0 <= i < g.n() ==> nbrs_row_ok(g.adj@[i]@, #[trigger] g.nbrs@[i]@, limit)
}

/// Builds the currency graph of one scan from a merged price list.
///
/// Quotes that are non-spot, non-positive or degenerate are discarded; each
/// surviving quote contributes its observed edge and the synthetic inverse
/// edge; each node's neighbour list keeps at most `neighbor_limit` targets,
/// ranked by liquidity.
#[verifier::loop_isolation(false)]
#[verifier::rlimit(30)]
#[verifier::spinoff_prover]
pub fn build(pairs: &Vec<PairPrice>, neighbor_limit: usize) -> (g: CurrencyGraph)
    ensures
        build_post(g, pairs@, neighbor_limit as int),
{
    let mut names: Vec<String> = Vec::new();
    let mut adj: Vec<Vec<Edge>> = Vec::new();
    proof {
        lemma_empty_invs(names@, adj@, pairs@);
    }
    let mut pi: usize = 0;
    while pi < pairs.len()
        invariant
            pi <= pairs@.len(),
            names@.len() == adj@.len(),
            names_distinct(names@),
            inv_rows(names@, adj@),
            inv_covered(names@, adj@, pairs@, pi as int),
            inv_edges(names@, adj@, pairs@, pi as int),
            inv_names(names@, pairs@, pi as int),
        decreases pairs@.len() - pi,
    {
        let p = &pairs[pi];
        let bu = upper_string(p.base.as_str());
        let qu = upper_string(p.quote.as_str());
        if p.is_spot && p.price_num >= 1 && p.price_den >= 1 && !p.base.as_str().is_empty()
            && !p.quote.as_str().is_empty() && !(bu == qu) {
            assert(keep(pairs@[pi as int]));
            let ghost names0 = names@;
            let ghost adj0 = adj@;
            let a = intern(&mut names, &mut adj, bu);
            let ghost names1 = names@;
            let ghost adj1 = adj@;
            let b = intern(&mut names, &mut adj, qu);
            let ghost names2 = names@;
            let ghost adj2 = adj@;
            proof {
                assert(names2[a as int]@ == upper_seq(p.base@));
                assert(names2[b as int]@ == upper_seq(p.quote@));
                if a == b {
                    assert(false);
                }
                assert forall|i: int|
                    #![trigger names2[i]]
                    #![trigger adj2[i]]
                    names0.len() <= i < names2.len() implies adj2[i]@.len() == 0 && (names2[i]@
                    == upper_seq(p.base@) || names2[i]@ == upper_seq(p.quote@)) by {
                    if i < names1.len() {
                        assert(i == names0.len());
                        assert(names1[i]@ == upper_seq(p.base@));
                        assert(adj1[i]@.len() == 0);
                        assert(names2[i] == names1[i] && adj2[i] == adj1[i]);
                    } else {
                        assert(i == names1.len());
                        assert(names2[i]@ == upper_seq(p.quote@));
                        assert(adj2[i]@.len() == 0);
                    }
                }
                assert(row_targets_distinct(adj2[a as int]@)) by {
                    if a < names0.len() {
                        assert(adj2[a as int] == adj0[a as int]);
                        lemma_row_distinct(names0, adj0, a as int);
                    } else {
                        assert(adj2[a as int]@.len() == 0);
                    }
                }
            }
            let e1 = Edge { to: b, num: p.price_num, den: p.price_den, vol: p.volume };
            upsert(&mut adj[a], e1);
            let ghost adj3 = adj@;
            proof {
                assert(row_targets_distinct(adj3[b as int]@)) by {
                    assert(adj3[b as int] == adj2[b as int]);
                    if b < names0.len() {
                        assert(adj2[b as int] == adj0[b as int]);
                        lemma_row_distinct(names0, adj0, b as int);
                    } else {
                        assert(adj2[b as int]@.len() == 0);
                    }
                }
            }
            let e2 = Edge { to: a, num: p.price_den, den: p.price_num, vol: p.volume };
            upsert(&mut adj[b], e2);
            proof {
                let ghost adj4 = adj@;
                vstd::std_specs::vec::axiom_spec_len(&names);
                assert(names2.len() <= usize::MAX);
                assert(step_ctx(
                    pairs@,
                    pi as int,
                    names0,
                    adj0,
                    names2,
                    adj2,
                    adj3,
                    adj4,
                    a as int,
                    b as int,
                    e1,
                    e2,
                ));
                lemma_step_rows(
                    pairs@,
                    pi as int,
                    names0,
                    adj0,
                    names2,
                    adj2,
                    adj3,
                    adj4,
                    a as int,
                    b as int,
                    e1,
                    e2,
                );
                lemma_step_covered(
                    pairs@,
                    pi as int,
                    names0,
                    adj0,
                    names2,
                    adj2,
                    adj3,
                    adj4,
                    a as int,
                    b as int,
                    e1,
                    e2,
                );
                lemma_step_edges(
                    pairs@,
                    pi as int,
                    names0,
                    adj0,
                    names2,
                    adj2,
                    adj3,
                    adj4,
                    a as int,
                    b as int,
                    e1,
                    e2,
                );
                lemma_step_names(
                    pairs@,
                    pi as int,
                    names0,
                    adj0,
                    names2,
                    adj2,
                    adj3,
                    adj4,
                    a as int,
                    b as int,
                    e1,
                    e2,
                );
            }
        } else {
            proof {
                assert(!keep(pairs@[pi as int]));
                lemma_skip_covered(names@, adj@, pairs@, pi as int);
                lemma_skip_edges(names@, adj@, pairs@, pi as int);
                lemma_skip_names(names@, pairs@, pi as int);
            }
        }
        pi += 1;
    }
    // rank each node's targets by liquidity
    let n = names.len();
    let mut nbrs: Vec<Vec<usize>> = Vec::new();
    let mut i: usize = 0;
    while i < n
        invariant
            i <= n,
            n == names@.len(),
            names@.len() == adj@.len(),
            nbrs@.len() == i,
            forall|ii: int|
                0 <= ii < i ==> nbrs_row_ok(adj@[ii]@, #[trigger] nbrs@[ii]@, neighbor_limit as int),
        decreases n - i,
    {
        proof {
            lemma_row_distinct(names@, adj@, i as int);
        }
        let lst = rank_row(&adj[i], neighbor_limit);
        nbrs.push(lst);
        i += 1;
    }
    let g = CurrencyGraph { names, adj, nbrs };
    proof {
        reveal(inv_rows);
        assert forall|i2: int| 0 <= i2 < g.n() implies g.nbrs_ok(i2) by {
            assert(nbrs_row_ok(g.adj@[i2]@, g.nbrs@[i2]@, neighbor_limit as int));
            assert forall|m: int| 0 <= m < g.nbrs@[i2]@.len() implies g.has_edge(
                i2,
                #[trigger] g.nbrs@[i2]@[m] as int,
            ) by {
                assert(has_to(g.adj@[i2]@, g.nbrs@[i2]@[m] as int));
            }
        }
    }
    g
}

} // verus!
