//! The dedup store: a mapping from derivation reference to the attribute
//! first observed to reference it. Each distinct derivation is recorded at
//! most once; a registration for a derivation already present is a no-op,
//! so the first writer stays the recorded owner.

use vstd::prelude::*;

use crate::bytes::bytes_eq;
use crate::bytes::clone_bytes;

verus! {

/// One discovery record: a derivation reference and its owning attribute.
pub struct Record {
    pub drv: Vec<u8>,
    pub attr: Vec<u8>,
}

/// The mapping a sequence of records denotes, later records inserted last.
pub open spec fn map_of(rs: Seq<Record>) -> Map<Seq<u8>, Seq<u8>>
    decreases rs.len(),
{
    if rs.len() == 0 {
        Map::empty()
    } else {
        map_of(rs.drop_last()).insert(rs.last().drv@, rs.last().attr@)
    }
}

/// Insert-if-absent on the mapping: the store's one write primitive.
pub open spec fn registered(
    m: Map<Seq<u8>, Seq<u8>>,
    drv: Seq<u8>,
    attr: Seq<u8>,
) -> Map<Seq<u8>, Seq<u8>> {
    if m.contains_key(drv) {
        m
    } else {
        m.insert(drv, attr)
    }
}

/// Registering a sequence of records in order, each only if absent.
pub open spec fn seeded(m: Map<Seq<u8>, Seq<u8>>, rs: Seq<Record>, i: int) -> Map<Seq<u8>, Seq<u8>>
    decreases rs.len() - i,
{
    if i < 0 || i >= rs.len() {
        m
    } else {
        seeded(registered(m, rs[i].drv@, rs[i].attr@), rs, i + 1)
    }
}

/// Registering a sequence of derivation keys in order under one attribute.
pub open spec fn merged(
    m: Map<Seq<u8>, Seq<u8>>,
    attr: Seq<u8>,
    ks: Seq<Seq<u8>>,
    i: int,
) -> Map<Seq<u8>, Seq<u8>>
    decreases ks.len() - i,
{
    if i < 0 || i >= ks.len() {
        m
    } else {
        merged(registered(m, ks[i], attr), attr, ks, i + 1)
    }
}

pub proof fn lemma_map_of_contains(rs: Seq<Record>, k: Seq<u8>)
    ensures
        map_of(rs).contains_key(k) <==> exists|i: int| 0 <= i < rs.len() && rs[i].drv@ == k,
    decreases rs.len(),
{
    if rs.len() > 0 {
        lemma_map_of_contains(rs.drop_last(), k);
        if rs.last().drv@ == k {
            assert(rs[rs.len() - 1].drv@ == k);
        } else if map_of(rs).contains_key(k) {
            let i = choose|i: int| 0 <= i < rs.drop_last().len() && rs.drop_last()[i].drv@ == k;
            assert(rs[i].drv@ == k);
        } else if exists|i: int| 0 <= i < rs.len() && rs[i].drv@ == k {
            let i = choose|i: int| 0 <= i < rs.len() && rs[i].drv@ == k;
            assert(rs.drop_last()[i].drv@ == k);
        }
    }
}

pub proof fn lemma_map_of_value(rs: Seq<Record>, i: int)
    requires
        0 <= i < rs.len(),
        forall|a: int, b: int| 0 <= a < b < rs.len() ==> rs[a].drv@ != rs[b].drv@,
    ensures
        map_of(rs).contains_key(rs[i].drv@),
        map_of(rs)[rs[i].drv@] == rs[i].attr@,
    decreases rs.len(),
{
    if i == rs.len() - 1 {
    } else {
        lemma_map_of_value(rs.drop_last(), i);
        assert(rs.drop_last()[i] == rs[i]);
    }
}

/// The deduplicating derivation store.
pub struct DedupStore {
    records: Vec<Record>,
}

impl DedupStore {
    /// The records in the order they were registered.
    pub closed spec fn entries(&self) -> Seq<Record> {
        self.records@
    }

    /// The derivation-to-attribute mapping the store holds.
    pub open spec fn as_map(&self) -> Map<Seq<u8>, Seq<u8>> {
        map_of(self.entries())
    }

    /// Well-formedness: no two records share a derivation reference.
    pub open spec fn wf(&self) -> bool {
        forall|a: int, b: int|
            0 <= a < b < self.entries().len() ==> self.entries()[a].drv@ != self.entries()[b].drv@
    }

    pub fn new() -> (s: Self)
        ensures
            s.wf(),
            s.entries() == Seq::<Record>::empty(),
            s.as_map() == Map::<Seq<u8>, Seq<u8>>::empty(),
    {
        DedupStore { records: Vec::new() }
    }

    /// The number of distinct derivations recorded so far.
    pub fn len(&self) -> (n: usize)
        ensures
            n == self.entries().len(),
    {
        self.records.len()
    }

    /// All records, for the verification phase and for flushing the cache.
    pub fn records(&self) -> (r: &Vec<Record>)
        ensures
            r@ == self.entries(),
    {
        &self.records
    }

    /// Whether the derivation is already recorded.
    pub fn contains(&self, drv: &Vec<u8>) -> (r: bool)
        ensures
            r == self.as_map().contains_key(drv@),
    {
        let n = self.records.len();
        let mut i: usize = 0;
        while i < n
            invariant
                n == self.records@.len(),
                i <= n,
                forall|j: int| 0 <= j < i ==> self.records@[j].drv@ != drv@,
            decreases n - i,
        {
            if bytes_eq(&self.records[i].drv, drv) {
                proof {
                    lemma_map_of_contains(self.entries(), drv@);
                }
                return true;
            }
            i = i + 1;
        }
        proof {
            lemma_map_of_contains(self.entries(), drv@);
        }
        false
    }

    /// The recorded owning attribute of a derivation, if any.
    pub fn owner_of(&self, drv: &Vec<u8>) -> (r: Option<&Vec<u8>>)
        requires
            self.wf(),
        ensures
            match r {
                Some(a) => self.as_map().contains_key(drv@) && a@ == self.as_map()[drv@],
                None => !self.as_map().contains_key(drv@),
            },
    {
        let n = self.records.len();
        let mut i: usize = 0;
        while i < n
            invariant
                self.wf(),
                n == self.records@.len(),
                i <= n,
                forall|j: int| 0 <= j < i ==> self.records@[j].drv@ != drv@,
            decreases n - i,
        {
            if bytes_eq(&self.records[i].drv, drv) {
                proof {
                    lemma_map_of_value(self.entries(), i as int);
                }
                return Some(&self.records[i].attr);
            }
            i = i + 1;
        }
        proof {
            lemma_map_of_contains(self.entries(), drv@);
        }
        None
    }

    /// Records the derivation under the attribute only if it is absent;
    /// otherwise leaves the store unchanged. Returns whether it was added.
    pub fn register_if_absent(&mut self, drv: &Vec<u8>, attr: &Vec<u8>) -> (added: bool)
        requires
            old(self).wf(),
        ensures
            final(self).wf(),
            added == !old(self).as_map().contains_key(drv@),
            final(self).as_map() == registered(old(self).as_map(), drv@, attr@),
            !added ==> final(self).entries() == old(self).entries(),
            added ==> final(self).entries().len() == old(self).entries().len() + 1
                && final(self).entries().drop_last() == old(self).entries()
                && final(self).entries().last().drv@ == drv@
                && final(self).entries().last().attr@ == attr@,
    {
        if self.contains(drv) {
            return false;
        }
        proof {
            lemma_map_of_contains(self.entries(), drv@);
        }
        let rec = Record { drv: clone_bytes(drv), attr: clone_bytes(attr) };
        self.records.push(rec);
        proof {
            assert(self.entries().drop_last() =~= old(self).entries());
        }
        true
    }

    /// Pre-seeds the store from cached records, in order, each only if absent.
    pub fn seed(&mut self, cached: &Vec<Record>)
        requires
            old(self).wf(),
        ensures
            final(self).wf(),
            final(self).as_map() == seeded(old(self).as_map(), cached@, 0),
    {
        let n = cached.len();
        let mut i: usize = 0;
        while i < n
            invariant
                self.wf(),
                n == cached@.len(),
                i <= n,
                seeded(old(self).as_map(), cached@, 0) == seeded(self.as_map(), cached@, i as int),
            decreases n - i,
        {
            let _ = self.register_if_absent(&cached[i].drv, &cached[i].attr);
            i = i + 1;
        }
    }

    /// Merges one attribute's requisite closure: each requisite derivation is
    /// recorded under the attribute only if no attribute owns it yet.
    pub fn merge_requisites(&mut self, attr: &Vec<u8>, reqs: &Vec<Vec<u8>>)
        requires
            old(self).wf(),
        ensures
            final(self).wf(),
            final(self).as_map() == merged(old(self).as_map(), attr@, reqs@.map_values(|v: Vec<u8>| v@), 0),
    {
        let ghost ks = reqs@.map_values(|v: Vec<u8>| v@);
        let n = reqs.len();
        let mut i: usize = 0;
        while i < n
            invariant
                self.wf(),
                n == reqs@.len(),
                ks == reqs@.map_values(|v: Vec<u8>| v@),
                i <= n,
                merged(old(self).as_map(), attr@, ks, 0) == merged(self.as_map(), attr@, ks, i as int),
            decreases n - i,
        {
            let _ = self.register_if_absent(&reqs[i], attr);
            proof {
                assert(ks[i as int] == reqs@[i as int]@);
            }
            i = i + 1;
        }
    }
}

/// Law: the store holds at most one record per distinct derivation, so for
/// attributes sharing common derivations exactly one record is emitted for
/// each shared derivation.
pub proof fn lemma_one_record_per_derivation(s: &DedupStore, i: int, j: int)
    requires
        s.wf(),
        0 <= i < s.entries().len(),
        0 <= j < s.entries().len(),
        s.entries()[i].drv@ == s.entries()[j].drv@,
    ensures
        i == j,
{
}

/// Law: registering a derivation that already has an owner changes nothing:
/// the first writer wins and every earlier record keeps its owner.
pub proof fn lemma_first_writer_wins(
    m: Map<Seq<u8>, Seq<u8>>,
    drv: Seq<u8>,
    attr: Seq<u8>,
    k: Seq<u8>,
)
    requires
        m.contains_key(k),
    ensures
        registered(m, drv, attr).contains_key(k),
        registered(m, drv, attr)[k] == m[k],
        m.contains_key(drv) ==> registered(m, drv, attr) == m,
{
}

/// Law: seeding only grows the mapping; every present record keeps its owner.
pub proof fn lemma_seeded_monotone(m: Map<Seq<u8>, Seq<u8>>, rs: Seq<Record>, i: int, k: Seq<u8>)
    requires
        m.contains_key(k),
    ensures
        seeded(m, rs, i).contains_key(k),
        seeded(m, rs, i)[k] == m[k],
    decreases rs.len() - i,
{
    if 0 <= i < rs.len() {
        lemma_first_writer_wins(m, rs[i].drv@, rs[i].attr@, k);
        lemma_seeded_monotone(registered(m, rs[i].drv@, rs[i].attr@), rs, i + 1, k);
    }
}

/// Law: merging a requisite closure only grows the mapping; every present
/// record keeps its owner.
pub proof fn lemma_merged_monotone(
    m: Map<Seq<u8>, Seq<u8>>,
    attr: Seq<u8>,
    ks: Seq<Seq<u8>>,
    i: int,
    k: Seq<u8>,
)
    requires
        m.contains_key(k),
    ensures
        merged(m, attr, ks, i).contains_key(k),
        merged(m, attr, ks, i)[k] == m[k],
    decreases ks.len() - i,
{
    if 0 <= i < ks.len() {
        lemma_first_writer_wins(m, ks[i], attr, k);
        lemma_merged_monotone(registered(m, ks[i], attr), attr, ks, i + 1, k);
    }
}

proof fn lemma_seeded_new_key(m: Map<Seq<u8>, Seq<u8>>, rs: Seq<Record>, i: int, j: int)
    requires
        0 <= i <= j < rs.len(),
        !m.contains_key(rs[j].drv@),
        forall|l: int| i <= l < j ==> rs[l].drv@ != rs[j].drv@,
    ensures
        seeded(m, rs, i).contains_key(rs[j].drv@),
        seeded(m, rs, i)[rs[j].drv@] == rs[j].attr@,
    decreases rs.len() - i,
{
    if i == j {
        let m2 = registered(m, rs[i].drv@, rs[i].attr@);
        lemma_seeded_monotone(m2, rs, i + 1, rs[j].drv@);
    } else {
        lemma_seeded_new_key(registered(m, rs[i].drv@, rs[i].attr@), rs, i + 1, j);
    }
}

/// Law: seeding an empty store from cached records with distinct keys
/// reproduces every cached record: the store holds the cache's mapping.
pub proof fn lemma_seed_reproduces_cache(rs: Seq<Record>)
    requires
        forall|a: int, b: int| 0 <= a < b < rs.len() ==> rs[a].drv@ != rs[b].drv@,
    ensures
        map_of(rs).submap_of(seeded(Map::<Seq<u8>, Seq<u8>>::empty(), rs, 0)),
{
    let m0 = Map::<Seq<u8>, Seq<u8>>::empty();
    assert forall|k: Seq<u8>| #[trigger] map_of(rs).dom().contains(k) implies seeded(
        m0,
        rs,
        0,
    ).dom().contains(k) && map_of(rs)[k] == seeded(m0, rs, 0)[k] by {
        lemma_map_of_contains(rs, k);
        let j = choose|j: int| 0 <= j < rs.len() && rs[j].drv@ == k;
        lemma_map_of_value(rs, j);
        lemma_seeded_new_key(m0, rs, 0, j);
    }
}

/// Law: whatever discovery merges later, every record the mapping already
/// holds stays as it is, so the cache written after discovery is a
/// superset of the pre-seeded one.
pub proof fn lemma_merge_keeps_cache(
    c: Map<Seq<u8>, Seq<u8>>,
    m: Map<Seq<u8>, Seq<u8>>,
    attr: Seq<u8>,
    ks: Seq<Seq<u8>>,
    i: int,
)
    requires
        c.submap_of(m),
    ensures
        c.submap_of(merged(m, attr, ks, i)),
{
    assert forall|k: Seq<u8>| #[trigger] c.dom().contains(k) implies merged(
        m,
        attr,
        ks,
        i,
    ).dom().contains(k) && c[k] == merged(m, attr, ks, i)[k] by {
        lemma_merged_monotone(m, attr, ks, i, k);
    }
}

/// Law: merging determines the mapping exactly. A derivation is present
/// afterwards iff it was present before or stands among the requisites;
/// present records keep their owner, and every newly recorded requisite is
/// owned by the merged attribute.
pub proof fn lemma_merged_keys(
    m: Map<Seq<u8>, Seq<u8>>,
    attr: Seq<u8>,
    ks: Seq<Seq<u8>>,
    i: int,
    k: Seq<u8>,
)
    requires
        0 <= i <= ks.len(),
    ensures
        merged(m, attr, ks, i).contains_key(k) <==> (m.contains_key(k) || exists|j: int|
            i <= j < ks.len() && ks[j] == k),
        m.contains_key(k) ==> merged(m, attr, ks, i)[k] == m[k],
        !m.contains_key(k) && merged(m, attr, ks, i).contains_key(k) ==> merged(
            m,
            attr,
            ks,
            i,
        )[k] == attr,
    decreases ks.len() - i,
{
    if i < ks.len() {
        let m2 = registered(m, ks[i], attr);
        lemma_merged_keys(m2, attr, ks, i + 1, k);
        if m.contains_key(k) {
            lemma_merged_monotone(m, attr, ks, i, k);
        } else if ks[i] == k {
            assert(m2.contains_key(k) && m2[k] == attr);
            lemma_merged_monotone(m2, attr, ks, i + 1, k);
        } else {
            if merged(m, attr, ks, i).contains_key(k) {
                let j = choose|j: int| i + 1 <= j < ks.len() && ks[j] == k;
                assert(i <= j < ks.len() && ks[j] == k);
            }
            if exists|j: int| i <= j < ks.len() && ks[j] == k {
                let j = choose|j: int| i <= j < ks.len() && ks[j] == k;
                assert(i + 1 <= j < ks.len() && ks[j] == k);
            }
        }
    }
}

/// Law: across a whole run — seeding an empty store from cached records
/// with distinct keys, then merging any requisite closures — the mapping
/// flushed back at the end holds every record the cache held, so the new
/// cache is a superset of the pre-seeded one.
pub proof fn lemma_cache_superset_across_run(
    rs: Seq<Record>,
    attr: Seq<u8>,
    ks: Seq<Seq<u8>>,
    i: int,
)
    requires
        forall|a: int, b: int| 0 <= a < b < rs.len() ==> rs[a].drv@ != rs[b].drv@,
    ensures
        map_of(rs).submap_of(merged(seeded(Map::<Seq<u8>, Seq<u8>>::empty(), rs, 0), attr, ks, i)),
{
    lemma_seed_reproduces_cache(rs);
    lemma_merge_keeps_cache(
        map_of(rs),
        seeded(Map::<Seq<u8>, Seq<u8>>::empty(), rs, 0),
        attr,
        ks,
        i,
    );
}

/// Law: after merging, every requisite derivation is present in the mapping.
pub proof fn lemma_merged_covers(
    m: Map<Seq<u8>, Seq<u8>>,
    attr: Seq<u8>,
    ks: Seq<Seq<u8>>,
    i: int,
    j: int,
)
    requires
        0 <= i <= j < ks.len(),
    ensures
        merged(m, attr, ks, i).contains_key(ks[j]),
    decreases ks.len() - i,
{
    if 0 <= i < ks.len() {
        if i == j {
            lemma_merged_monotone(
                registered(m, ks[i], attr),
                attr,
                ks,
                i + 1,
                ks[i],
            );
        } else {
            lemma_merged_covers(registered(m, ks[i], attr), attr, ks, i + 1, j);
        }
    }
}

} // verus!
