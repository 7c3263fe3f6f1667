//! The snapshot store: the latest price vector of each exchange, replaced
//! wholesale on every flush and read by concatenation.
use crate::models::{clone_pair, lemma_views_concat, pp_view, views_of, PairPrice};
use crate::text::{chars_to_string, lower_seq, lower_vec, str_chars};
use vstd::prelude::*;

verus! {

/// Maps each exchange identifier to its latest complete price vector.
#[derive(Debug)]
pub struct SnapshotStore {
    pub keys: Vec<String>,
    pub vals: Vec<Vec<PairPrice>>,
}

pub open spec fn keys_distinct(keys: Seq<String>) -> bool {
    forall|i1: int, i2: int| 0 <= i1 < i2 < keys.len() ==> keys[i1]@ != keys[i2]@
}

impl SnapshotStore {
    pub open spec fn wf(self) -> bool {
        &&& self.keys@.len() == self.vals@.len()
        &&& keys_distinct(self.keys@)
    }

    pub open spec fn has_ex(self, x: Seq<char>) -> bool {
        exists|i: int| 0 <= i < self.keys@.len() && self.keys@[i]@ == x
    }

    pub open spec fn ix_of(self, x: Seq<char>) -> int {
        choose|i: int| 0 <= i < self.keys@.len() && self.keys@[i]@ == x
    }

    /// The stored price vector of exchange `x` (undefined when absent).
    pub open spec fn val(self, x: Seq<char>) -> Seq<PairPrice> {
        self.vals@[self.ix_of(x)]@
    }

    /// What one requested exchange contributes: its lowercased identifier
    /// wins, the exact identifier is the fallback, an unknown one
    /// contributes nothing.
    pub open spec fn sel(self, x: Seq<char>) -> Seq<PairPrice> {
        if self.has_ex(lower_seq(x)) {
            self.val(lower_seq(x))
        } else if self.has_ex(x) {
            self.val(x)
        } else {
            Seq::empty()
        }
    }

    /// The concatenation a read returns, in request order.
    pub open spec fn read_spec(self, exs: Seq<String>) -> Seq<PairPrice>
        decreases exs.len(),
    {
        if exs.len() == 0 {
            Seq::empty()
        } else {
            self.read_spec(exs.drop_last()) + self.sel(exs.last()@)
        }
    }

    /// An empty store: no exchange has reported yet.
    pub fn new() -> (s: SnapshotStore)
        ensures
            s.wf(),
            s.keys@.len() == 0,
            forall|x: Seq<char>| !s.has_ex(x),
    {
        SnapshotStore { keys: Vec::new(), vals: Vec::new() }
    }

    /// Replaces exchange `ex`'s entire price vector atomically: after the
    /// call that exchange holds exactly `prices` and every other exchange
    /// is untouched.
    pub fn write(&mut self, ex: String, prices: Vec<PairPrice>)
        requires
            old(self).wf(),
        ensures
            final(self).wf(),
            final(self).has_ex(ex@),
            final(self).val(ex@) == prices@,
            old(self).has_ex(ex@) ==> final(self).keys@ == old(self).keys@ && final(self).vals@
                == old(self).vals@.update(old(self).ix_of(ex@), prices),
            !old(self).has_ex(ex@) ==> final(self).keys@ == old(self).keys@.push(ex)
                && final(self).vals@ == old(self).vals@.push(prices),
    {
        let mut i: usize = 0;
        while i < self.keys.len()
            invariant
                i <= self.keys@.len(),
                *self == *old(self),
                old(self).wf(),
                forall|j: int| 0 <= j < i ==> self.keys@[j]@ != ex@,
            decreases self.keys@.len() - i,
        {
            if self.keys[i] == ex {
                let ghost ii = i as int;
                self.vals.remove(i);
                self.vals.insert(i, prices);
                proof {
                    assert(self.keys@ == old(self).keys@);
                    assert(self.vals@ =~= old(self).vals@.update(ii, prices));
                    lemma_store_lookup(old(self).keys@, *self, ii, ex@);
                    assert(old(self).has_ex(ex@));
                    let jp = old(self).ix_of(ex@);
                    if jp != ii {
                        assert(old(self).keys@[jp]@ == old(self).keys@[ii]@);
                        assert(false);
                    }
                }
                return ;
            }
            i += 1;
        }
        self.keys.push(ex);
        self.vals.push(prices);
        proof {
            let n0 = old(self).keys@.len() as int;
            assert(self.keys@[n0]@ == ex@);
            assert(!old(self).has_ex(ex@)) by {
                if old(self).has_ex(ex@) {
                    let j = old(self).ix_of(ex@);
                    assert(old(self).keys@[j]@ == ex@);
                    assert(false);
                }
            }
            lemma_store_lookup(old(self).keys@, *self, n0, ex@);
        }
    }

    /// Appends exchange `x`'s stored vector to `out`, if it has one.
    fn append_sel(&self, x: &String, out: &mut Vec<PairPrice>)
        requires
            self.wf(),
        ensures
            views_of(final(out)@) == views_of(old(out)@ + self.sel(x@)),
    {
        let lx = chars_to_string(&lower_vec(&str_chars(x.as_str())));
        let mut i: usize = 0;
        while i < self.keys.len()
            invariant
                i <= self.keys@.len(),
                self.wf(),
                lx@ == lower_seq(x@),
                out@ == old(out)@,
                forall|j: int| 0 <= j < i ==> self.keys@[j]@ != lx@,
            decreases self.keys@.len() - i,
        {
            if self.keys[i] == lx {
                proof {
                    assert(self.has_ex(lower_seq(x@)));
                    let j = self.ix_of(lower_seq(x@));
                    if j != i {
                        assert(self.keys@[j]@ == self.keys@[i as int]@);
                        assert(false);
                    }
                }
                append_all(out, &self.vals[i]);
                return ;
            }
            i += 1;
        }
        proof {
            assert(!self.has_ex(lower_seq(x@))) by {
                if self.has_ex(lower_seq(x@)) {
                    let j = self.ix_of(lower_seq(x@));
                    assert(self.keys@[j]@ == lower_seq(x@));
                    assert(false);
                }
            }
        }
        let mut i2: usize = 0;
        while i2 < self.keys.len()
            invariant
                i2 <= self.keys@.len(),
                self.wf(),
                !self.has_ex(lower_seq(x@)),
                out@ == old(out)@,
                forall|j: int| 0 <= j < i2 ==> self.keys@[j]@ != x@,
            decreases self.keys@.len() - i2,
        {
            if self.keys[i2] == *x {
                proof {
                    assert(self.has_ex(x@));
                    let j = self.ix_of(x@);
                    if j != i2 {
                        assert(self.keys@[j]@ == self.keys@[i2 as int]@);
                        assert(false);
                    }
                }
                append_all(out, &self.vals[i2]);
                return ;
            }
            i2 += 1;
        }
        proof {
            assert(!self.has_ex(x@)) by {
                if self.has_ex(x@) {
                    let j = self.ix_of(x@);
                    assert(self.keys@[j]@ == x@);
                    assert(false);
                }
            }
            assert(out@ =~= old(out)@ + self.sel(x@));
        }
    }

    /// Concatenates the current vectors of the requested exchanges, in
    /// request order; an exchange with no data yet contributes nothing.
    pub fn read(&self, exchanges: &Vec<String>) -> (r: Vec<PairPrice>)
        requires
            self.wf(),
        ensures
            views_of(r@) == views_of(self.read_spec(exchanges@)),
    {
        let mut r: Vec<PairPrice> = Vec::new();
        let mut i: usize = 0;
        proof {
            assert(exchanges@.take(0) =~= Seq::<String>::empty());
        }
        while i < exchanges.len()
            invariant
                i <= exchanges@.len(),
                self.wf(),
                views_of(r@) == views_of(self.read_spec(exchanges@.take(i as int))),
            decreases exchanges@.len() - i,
        {
            let ghost rpre = r@;
            self.append_sel(&exchanges[i], &mut r);
            proof {
                assert(exchanges@.take(i + 1).drop_last() =~= exchanges@.take(i as int));
                assert(exchanges@.take(i + 1).last() == exchanges@[i as int]);
                lemma_views_concat(rpre, self.sel(exchanges@[i as int]@));
                lemma_views_concat(
                    self.read_spec(exchanges@.take(i as int)),
                    self.sel(exchanges@[i as int]@),
                );
                assert(views_of(r@) =~= views_of(self.read_spec(exchanges@.take(i + 1))));
            }
            i += 1;
        }
        proof {
            assert(exchanges@.take(exchanges@.len() as int) =~= exchanges@);
        }
        r
    }
}

/// In a store with distinct keys, key `x` at index `i` is found at `i`.
proof fn lemma_store_lookup(keys0: Seq<String>, s: SnapshotStore, i: int, x: Seq<char>)
    requires
        s.wf(),
        0 <= i < s.keys@.len(),
        s.keys@[i]@ == x,
    ensures
        s.has_ex(x),
        s.ix_of(x) == i,
{
    let j = s.ix_of(x);
    if j != i {
        assert(s.keys@[j]@ == s.keys@[i]@);
        assert(false);
    }
}

fn append_all(out: &mut Vec<PairPrice>, more: &Vec<PairPrice>)
    ensures
        views_of(final(out)@) == views_of(old(out)@ + more@),
{
    let mut k: usize = 0;
    while k < more.len()
        invariant
            k <= more@.len(),
            views_of(out@) == views_of(old(out)@ + more@.take(k as int)),
        decreases more@.len() - k,
    {
        let ghost opre = out@;
        let p = clone_pair(&more[k]);
        out.push(p);
        proof {
            let rhs = old(out)@ + more@.take(k + 1);
            assert(out@.len() == opre.len() + 1);
            assert(views_of(opre).len() == opre.len());
            assert(views_of(old(out)@ + more@.take(k as int)).len() == old(out)@.len() + k);
            assert(opre.len() == old(out)@.len() + k);
            assert(rhs.len() == out@.len());
            assert forall|ix: int| 0 <= ix < out@.len() implies views_of(out@)[ix] == views_of(
                rhs,
            )[ix] by {
                assert(views_of(out@)[ix] == pp_view(out@[ix]));
                assert(views_of(rhs)[ix] == pp_view(rhs[ix]));
                if ix < opre.len() {
                    assert(out@[ix] == opre[ix]);
                    assert(views_of(opre)[ix] == pp_view(opre[ix]));
                    let lhs0 = old(out)@ + more@.take(k as int);
                    assert(views_of(lhs0)[ix] == pp_view(lhs0[ix]));
                    assert(lhs0[ix] == rhs[ix]);
                } else {
                    assert(out@[ix] == p);
                    assert(rhs[ix] == more@[k as int]);
                    assert(pp_view(p) == pp_view(more@[k as int]));
                }
            }
            assert(views_of(out@) =~= views_of(rhs));
        }
        k += 1;
    }
    proof {
        assert(more@.take(more@.len() as int) =~= more@);
    }
}

/// Reads the stored prices of the requested exchanges, merged in request
/// order; exchanges without data contribute nothing, never an error.
pub fn gather_prices_for_exchanges(store: &SnapshotStore, exchanges: &Vec<String>) -> (r: Result<
    Vec<PairPrice>,
    String,
>)
    requires
        store.wf(),
    ensures
        r matches Ok(v) && views_of(v@) == views_of(store.read_spec(exchanges@)),
{
    Ok(store.read(exchanges))
}

} // verus!
