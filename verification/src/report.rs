//! The result aggregator. It collects one result per distinct fixed-output
//! derivation, keeps them ordered by derivation reference, and yields the
//! non-reproducible subset deterministically: the report depends only on
//! which results exist, not on the order the parallel tasks delivered them.

use vstd::prelude::*;

use crate::bytes::bytes_eq;
use crate::bytes::bytes_lt;
use crate::bytes::clone_bytes;
use crate::bytes::lemma_lex_lt_asymmetric;
use crate::bytes::lemma_lex_lt_connected;
use crate::bytes::lemma_lex_lt_irreflexive;
use crate::bytes::lemma_lex_lt_transitive;
use crate::bytes::lex_lt;

verus! {

/// One verified derivation: its owning attribute, its reference, and
/// whether its two realizations matched.
pub struct FodResult {
    pub attr: Vec<u8>,
    pub drv: Vec<u8>,
    pub reproducible: bool,
}

/// The mathematical value of one result.
pub struct FodView {
    pub attr: Seq<u8>,
    pub drv: Seq<u8>,
    pub reproducible: bool,
}

impl View for FodResult {
    type V = FodView;

    open spec fn view(&self) -> FodView {
        FodView { attr: self.attr@, drv: self.drv@, reproducible: self.reproducible }
    }
}

/// The mathematical values of a sequence of results.
pub open spec fn views_of(rs: Seq<FodResult>) -> Seq<FodView> {
    rs.map_values(|r: FodResult| r@)
}

/// The mapping a sequence of results denotes, keyed by derivation.
pub open spec fn rmap_of(rs: Seq<FodView>) -> Map<Seq<u8>, (Seq<u8>, bool)>
    decreases rs.len(),
{
    if rs.len() == 0 {
        Map::empty()
    } else {
        rmap_of(rs.drop_last()).insert(rs.last().drv, (rs.last().attr, rs.last().reproducible))
    }
}

pub proof fn lemma_rmap_of_contains(rs: Seq<FodView>, k: Seq<u8>)
    ensures
        rmap_of(rs).contains_key(k) <==> exists|i: int| 0 <= i < rs.len() && rs[i].drv == k,
    decreases rs.len(),
{
    if rs.len() > 0 {
        lemma_rmap_of_contains(rs.drop_last(), k);
        if rs.last().drv == k {
            assert(rs[rs.len() - 1].drv == k);
        } else if rmap_of(rs).contains_key(k) {
            let i = choose|i: int| 0 <= i < rs.drop_last().len() && rs.drop_last()[i].drv == k;
            assert(rs[i].drv == k);
        } else if exists|i: int| 0 <= i < rs.len() && rs[i].drv == k {
            let i = choose|i: int| 0 <= i < rs.len() && rs[i].drv == k;
            assert(rs.drop_last()[i].drv == k);
        }
    }
}

pub proof fn lemma_rmap_of_value(rs: Seq<FodView>, i: int)
    requires
        0 <= i < rs.len(),
        forall|a: int, b: int| 0 <= a < b < rs.len() ==> rs[a].drv != rs[b].drv,
    ensures
        rmap_of(rs).contains_key(rs[i].drv),
        rmap_of(rs)[rs[i].drv] == (rs[i].attr, rs[i].reproducible),
    decreases rs.len(),
{
    if i == rs.len() - 1 {
    } else {
        lemma_rmap_of_value(rs.drop_last(), i);
        assert(rs.drop_last()[i] == rs[i]);
    }
}

/// Inserting a result into the mapping in the sequence at position `i`
/// matches inserting it into the mapping, provided its key is new.
proof fn lemma_rmap_of_insert(rs: Seq<FodView>, i: int, e: FodView)
    requires
        0 <= i <= rs.len(),
        forall|j: int| 0 <= j < rs.len() ==> rs[j].drv != e.drv,
    ensures
        rmap_of(rs.insert(i, e)) == rmap_of(rs).insert(e.drv, (e.attr, e.reproducible)),
    decreases rs.len(),
{
    if i == rs.len() {
        assert(rs.insert(i, e) =~= rs.push(e));
        assert(rs.push(e).drop_last() =~= rs);
    } else {
        let s2 = rs.insert(i, e);
        assert(s2.last() == rs.last());
        assert(s2.drop_last() =~= rs.drop_last().insert(i, e));
        assert(forall|j: int|
            0 <= j < rs.drop_last().len() ==> rs.drop_last()[j].drv != e.drv) by {
            assert(forall|j: int|
                0 <= j < rs.drop_last().len() ==> rs.drop_last()[j] == rs[j]);
        }
        lemma_rmap_of_insert(rs.drop_last(), i, e);
        assert(rmap_of(s2) =~= rmap_of(rs).insert(e.drv, (e.attr, e.reproducible)));
    }
}

/// The non-reproducible subset, in the order the sequence holds it.
pub open spec fn bad_of(rs: Seq<FodView>) -> Seq<FodView>
    decreases rs.len(),
{
    if rs.len() == 0 {
        Seq::empty()
    } else {
        let rest = bad_of(rs.drop_last());
        if !rs.last().reproducible {
            rest.push(rs.last())
        } else {
            rest
        }
    }
}

/// The result aggregator, ordered by derivation reference.
pub struct Report {
    results: Vec<FodResult>,
}

impl Report {
    /// The collected results, ordered by derivation reference.
    pub closed spec fn entries(&self) -> Seq<FodView> {
        views_of(self.results@)
    }

    /// The mapping from derivation to (attribute, reproducible).
    pub open spec fn as_map(&self) -> Map<Seq<u8>, (Seq<u8>, bool)> {
        rmap_of(self.entries())
    }

    /// Well-formedness: strictly ascending by derivation reference, so each
    /// derivation has at most one result and the order is canonical.
    pub open spec fn wf(&self) -> bool {
        forall|i: int, j: int|
            0 <= i < j < self.entries().len() ==> lex_lt(
                self.entries()[i].drv,
                self.entries()[j].drv,
            )
    }

    pub fn new() -> (r: Self)
        ensures
            r.wf(),
            r.entries() == Seq::<FodView>::empty(),
            r.as_map() == Map::<Seq<u8>, (Seq<u8>, bool)>::empty(),
    {
        let r = Report { results: Vec::new() };
        proof {
            assert(r.entries() =~= Seq::<FodView>::empty());
        }
        r
    }

    /// The number of results collected.
    pub fn len(&self) -> (n: usize)
        ensures
            n == self.entries().len(),
    {
        self.results.len()
    }

    /// Inserts one result, only if no result for its derivation exists yet:
    /// consistent with the dedup store's uniqueness guarantee, a second
    /// result for the same derivation is dropped. Returns whether it was
    /// added.
    pub fn insert(&mut self, r: FodResult) -> (added: bool)
        requires
            old(self).wf(),
        ensures
            final(self).wf(),
            added == !old(self).as_map().contains_key(r.drv@),
            !added ==> final(self).entries() == old(self).entries(),
            added ==> (exists|i: int|
                0 <= i <= old(self).entries().len() && final(self).entries() == old(
                    self,
                ).entries().insert(i, r@)),
            final(self).as_map() == (if old(self).as_map().contains_key(r.drv@) {
                old(self).as_map()
            } else {
                old(self).as_map().insert(r.drv@, (r.attr@, r.reproducible))
            }),
    {
        let ghost before = self.entries();
        let n = self.results.len();
        let mut i: usize = 0;
        while i < n && bytes_lt(&self.results[i].drv, &r.drv)
            invariant
                n == self.results@.len(),
                i <= n,
                forall|j: int| 0 <= j < i ==> lex_lt(#[trigger] self.entries()[j].drv, r.drv@),
            decreases n - i,
        {
            i = i + 1;
        }
        if i < n && bytes_eq(&self.results[i].drv, &r.drv) {
            proof {
                assert(self.entries()[i as int].drv == r.drv@);
                lemma_rmap_of_contains(self.entries(), r.drv@);
            }
            return false;
        }
        proof {
            lemma_lex_lt_irreflexive(r.drv@);
            if i < n {
                lemma_lex_lt_connected(self.entries()[i as int].drv, r.drv@);
            }
            assert(forall|j: int| 0 <= j < self.entries().len() ==> #[trigger] self.entries()[j].drv
                != r.drv@) by {
                assert forall|j: int|
                    0 <= j < self.entries().len() implies #[trigger] self.entries()[j].drv
                    != r.drv@ by {
                    if j < i {
                        lemma_lex_lt_irreflexive(self.entries()[j].drv);
                    } else if j == i {
                    } else {
                        lemma_lex_lt_transitive(
                            r.drv@,
                            self.entries()[i as int].drv,
                            self.entries()[j].drv,
                        );
                        lemma_lex_lt_irreflexive(r.drv@);
                    }
                }
            }
            lemma_rmap_of_contains(self.entries(), r.drv@);
            lemma_rmap_of_insert(self.entries(), i as int, r@);
            assert(forall|j: int| 0 <= j < before.len() ==> #[trigger] before[j].drv != r.drv@);
            assert(forall|j: int| 0 <= j < i ==> lex_lt(#[trigger] before[j].drv, r.drv@));
        }
        let ghost e = r@;
        let ghost pos = i as int;
        self.results.insert(i, r);
        proof {
            before.insert_ensures(pos, e);
            assert(self.entries() =~= before.insert(pos, e));
            let ne = self.entries();
            assert forall|k: int| pos <= k < before.len() implies lex_lt(
                e.drv,
                #[trigger] before[k].drv,
            ) by {
                lemma_lex_lt_connected(before[pos].drv, e.drv);
                if k > pos {
                    lemma_lex_lt_transitive(e.drv, before[pos].drv, before[k].drv);
                }
            }
            assert forall|a: int, b: int| 0 <= a < b < ne.len() implies lex_lt(
                ne[a].drv,
                ne[b].drv,
            ) by {
                if b < pos {
                    assert(ne[a] == before[a]);
                    assert(ne[b] == before[b]);
                } else if b == pos {
                    assert(ne[a] == before[a]);
                    assert(ne[b] == e);
                } else if a < pos {
                    assert(ne[a] == before[a]);
                    assert(ne[b] == before[b - 1]);
                } else if a == pos {
                    assert(ne[a] == e);
                    assert(ne[b] == before[b - 1]);
                } else {
                    assert(ne[a] == before[a - 1]);
                    assert(ne[b] == before[b - 1]);
                }
            }
        }
        true
    }

    /// Yields the non-reproducible subset, in derivation order.
    pub fn non_reproducible(&self) -> (r: Vec<FodResult>)
        ensures
            views_of(r@) == bad_of(self.entries()),
    {
        let mut out: Vec<FodResult> = Vec::new();
        let n = self.results.len();
        let mut i: usize = 0;
        while i < n
            invariant
                n == self.results@.len(),
                i <= n,
                views_of(out@) == bad_of(self.entries().take(i as int)),
            decreases n - i,
        {
            proof {
                assert(self.entries().take(i + 1).drop_last() =~= self.entries().take(i as int));
                assert(self.entries().take(i + 1).last() == self.entries()[i as int]);
            }
            if !self.results[i].reproducible {
                let f = FodResult {
                    attr: clone_bytes(&self.results[i].attr),
                    drv: clone_bytes(&self.results[i].drv),
                    reproducible: self.results[i].reproducible,
                };
                proof {
                    assert(f@ == self.entries()[i as int]);
                }
                out.push(f);
                proof {
                    assert(views_of(out@) =~= bad_of(self.entries().take(i + 1)));
                }
            }
            i = i + 1;
        }
        proof {
            assert(self.entries().take(n as int) =~= self.entries());
        }
        out
    }

    /// All results in order, for printing progress or totals.
    pub fn results(&self) -> (r: &Vec<FodResult>)
        ensures
            views_of(r@) == self.entries(),
    {
        &self.results
    }
}

/// Two strictly ordered sequences denoting the same mapping are equal.
proof fn lemma_sorted_map_unique(x: Seq<FodView>, y: Seq<FodView>)
    requires
        forall|i: int, j: int| 0 <= i < j < x.len() ==> lex_lt(#[trigger] x[i].drv, #[trigger] x[j].drv),
        forall|i: int, j: int| 0 <= i < j < y.len() ==> lex_lt(#[trigger] y[i].drv, #[trigger] y[j].drv),
        rmap_of(x) == rmap_of(y),
    ensures
        x == y,
    decreases x.len(),
{
    if x.len() == 0 {
        if y.len() > 0 {
            lemma_rmap_of_contains(y, y.last().drv);
            lemma_rmap_of_contains(x, y.last().drv);
            assert(y[y.len() - 1].drv == y.last().drv);
            assert(false);
        }
        assert(x =~= y);
    } else if y.len() == 0 {
        lemma_rmap_of_contains(x, x.last().drv);
        lemma_rmap_of_contains(y, x.last().drv);
        assert(x[x.len() - 1].drv == x.last().drv);
        assert(false);
    } else {
        let kx = x.last().drv;
        let ky = y.last().drv;
        proof_distinct(x);
        proof_distinct(y);
        assert(x[x.len() - 1].drv == kx);
        assert(y[y.len() - 1].drv == ky);
        lemma_rmap_of_contains(x, ky);
        lemma_rmap_of_contains(y, kx);
        lemma_rmap_of_contains(x, kx);
        lemma_rmap_of_contains(y, ky);
        if kx != ky {
            let i = choose|i: int| 0 <= i < x.len() && x[i].drv == ky;
            let j = choose|j: int| 0 <= j < y.len() && y[j].drv == kx;
            if i < x.len() - 1 {
                assert(lex_lt(x[i].drv, kx));
            }
            if j < y.len() - 1 {
                assert(lex_lt(y[j].drv, ky));
            }
            lemma_lex_lt_asymmetric(kx, ky);
            assert(false);
        }
        lemma_rmap_of_value(x, x.len() - 1);
        lemma_rmap_of_value(y, y.len() - 1);
        assert(x.last().attr == y.last().attr);
        assert(x.last().reproducible == y.last().reproducible);
        assert(x.last() == y.last());
        assert(rmap_of(x.drop_last()) =~= rmap_of(x).remove(kx)) by {
            lemma_rmap_of_contains(x.drop_last(), kx);
            assert(forall|i: int|
                0 <= i < x.drop_last().len() ==> #[trigger] x.drop_last()[i].drv == x[i].drv);
            assert(!rmap_of(x.drop_last()).contains_key(kx));
            assert(rmap_of(x) == rmap_of(x.drop_last()).insert(kx, (x.last().attr, x.last().reproducible)));
        }
        assert(rmap_of(y.drop_last()) =~= rmap_of(y).remove(ky)) by {
            lemma_rmap_of_contains(y.drop_last(), ky);
            assert(forall|i: int|
                0 <= i < y.drop_last().len() ==> #[trigger] y.drop_last()[i].drv == y[i].drv);
            assert(!rmap_of(y.drop_last()).contains_key(ky));
            assert(rmap_of(y) == rmap_of(y.drop_last()).insert(ky, (y.last().attr, y.last().reproducible)));
        }
        assert(forall|i: int, j: int|
            0 <= i < j < x.drop_last().len() ==> lex_lt(
                #[trigger] x.drop_last()[i].drv,
                #[trigger] x.drop_last()[j].drv,
            ));
        assert(forall|i: int, j: int|
            0 <= i < j < y.drop_last().len() ==> lex_lt(
                #[trigger] y.drop_last()[i].drv,
                #[trigger] y.drop_last()[j].drv,
            ));
        lemma_sorted_map_unique(x.drop_last(), y.drop_last());
        assert(x.len() == y.len());
        assert forall|i: int| 0 <= i < x.len() implies x[i] == y[i] by {
            if i < x.len() - 1 {
                assert(x[i] == x.drop_last()[i]);
                assert(y[i] == y.drop_last()[i]);
            }
        }
        assert(x =~= y);
    }
}

/// Distinct keys follow from strict ordering.
proof fn proof_distinct(x: Seq<FodView>)
    requires
        forall|i: int, j: int| 0 <= i < j < x.len() ==> lex_lt(#[trigger] x[i].drv, #[trigger] x[j].drv),
    ensures
        forall|i: int, j: int| 0 <= i < j < x.len() ==> x[i].drv != x[j].drv,
{
    assert forall|i: int, j: int| 0 <= i < j < x.len() implies x[i].drv != x[j].drv by {
        lemma_lex_lt_irreflexive(x[i].drv);
    }
}

/// Law: the final non-reproducible report is a deterministic function of
/// the set of results alone. Two well-formed reports holding the same
/// mapping — however the concurrent execution interleaved their inserts —
/// hold the same ordered results and yield the same report.
pub proof fn lemma_report_deterministic(a: &Report, b: &Report)
    requires
        a.wf(),
        b.wf(),
        a.as_map() == b.as_map(),
    ensures
        a.entries() == b.entries(),
        bad_of(a.entries()) == bad_of(b.entries()),
{
    lemma_sorted_map_unique(a.entries(), b.entries());
}

} // verus!
