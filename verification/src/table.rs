use vstd::prelude::*;

use crate::lines::key_of;
use crate::lines::{copy_bytes, derive_key};

verus! {

/// The mathematical content of one frequency-table entry: the comparison
/// key, the raw text of the last line seen with that key, and how many
/// lines mapped to the key.
#[verifier::ext_equal]
pub ghost struct EntryModel {
    pub key: Seq<u8>,
    pub raw: Seq<u8>,
    pub count: nat,
}

/// One frequency-table entry.
pub struct FreqEntry {
    pub key: Vec<u8>,
    pub raw: Vec<u8>,
    pub count: u64,
}

/// The frequency table: one entry per distinct comparison key, in the order
/// the keys were first seen.
pub struct FreqTable {
    pub entries: Vec<FreqEntry>,
}

impl View for FreqEntry {
    type V = EntryModel;

    open spec fn view(&self) -> EntryModel {
        EntryModel { key: self.key@, raw: self.raw@, count: self.count as nat }
    }
}

impl View for FreqTable {
    type V = Seq<EntryModel>;

    open spec fn view(&self) -> Seq<EntryModel> {
        self.entries@.map_values(|e: FreqEntry| e@)
    }
}

/// How many of the lines map to the comparison key `k`.
pub open spec fn occ_count(ls: Seq<Seq<u8>>, ic: bool, k: Seq<u8>) -> nat
    decreases ls.len(),
{
    if ls.len() == 0 {
        0
    } else {
        occ_count(ls.drop_last(), ic, k) + (if key_of(ic, ls.last()) == k {
            1nat
        } else {
            0nat
        })
    }
}

/// The raw text of the last line that maps to the comparison key `k`.
pub open spec fn last_raw(ls: Seq<Seq<u8>>, ic: bool, k: Seq<u8>) -> Seq<u8>
    decreases ls.len(),
{
    if ls.len() == 0 {
        Seq::<u8>::empty()
    } else if key_of(ic, ls.last()) == k {
        ls.last()
    } else {
        last_raw(ls.drop_last(), ic, k)
    }
}

/// The distinct comparison keys of the lines, in first-seen order.
pub open spec fn distinct_keys(ls: Seq<Seq<u8>>, ic: bool) -> Seq<Seq<u8>>
    decreases ls.len(),
{
    if ls.len() == 0 {
        Seq::<Seq<u8>>::empty()
    } else {
        let prev = distinct_keys(ls.drop_last(), ic);
        let k = key_of(ic, ls.last());
        if prev.contains(k) {
            prev
        } else {
            prev.push(k)
        }
    }
}

/// The table entry that the line list produces for the key `k`.
pub open spec fn entry_model(ls: Seq<Seq<u8>>, ic: bool, k: Seq<u8>) -> EntryModel {
    EntryModel { key: k, raw: last_raw(ls, ic, k), count: occ_count(ls, ic, k) }
}

/// The whole frequency table that the line list produces, in first-seen
/// key order.
pub open spec fn table_model(ls: Seq<Seq<u8>>, ic: bool) -> Seq<EntryModel> {
    distinct_keys(ls, ic).map_values(|k: Seq<u8>| entry_model(ls, ic, k))
}

/// A key occurs at most once per line.
pub proof fn lemma_occ_le_len(ls: Seq<Seq<u8>>, ic: bool, k: Seq<u8>)
    ensures
        occ_count(ls, ic, k) <= ls.len(),
    decreases ls.len(),
{
    if ls.len() > 0 {
        lemma_occ_le_len(ls.drop_last(), ic, k);
    }
}

/// A key is listed among the distinct keys exactly when it occurs.
pub proof fn lemma_distinct_occ(ls: Seq<Seq<u8>>, ic: bool, k: Seq<u8>)
    ensures
        distinct_keys(ls, ic).contains(k) <==> occ_count(ls, ic, k) > 0,
    decreases ls.len(),
{
    if ls.len() > 0 {
        let prev = distinct_keys(ls.drop_last(), ic);
        let kl = key_of(ic, ls.last());
        lemma_distinct_occ(ls.drop_last(), ic, k);
        if prev.contains(kl) {
            assert(distinct_keys(ls, ic) == prev);
            if kl == k {
                assert(occ_count(ls.drop_last(), ic, k) > 0);
            }
        } else {
            assert(distinct_keys(ls, ic) == prev.push(kl));
            if prev.push(kl).contains(k) {
                let y = choose|y: int| 0 <= y < prev.push(kl).len() && prev.push(kl)[y] == k;
                if y < prev.len() {
                    assert(prev.contains(k));
                } else {
                    assert(k == kl);
                }
            }
            if occ_count(ls, ic, k) > 0 {
                if kl != k {
                    assert(prev.contains(k));
                    let y = choose|y: int| 0 <= y < prev.len() && prev[y] == k;
                    assert(prev.push(kl)[y] == k);
                }
            }
            if prev.contains(k) {
                let y = choose|y: int| 0 <= y < prev.len() && prev[y] == k;
                assert(prev.push(kl)[y] == k);
            }
            if k == kl {
                assert(prev.push(kl)[prev.len() as int] == k);
            }
        }
    }
}

/// The distinct keys hold no duplicates.
pub proof fn lemma_distinct_no_dup(ls: Seq<Seq<u8>>, ic: bool)
    ensures
        forall|a: int, b: int|
            0 <= a < b < distinct_keys(ls, ic).len() ==> distinct_keys(ls, ic)[a] != distinct_keys(
                ls,
                ic,
            )[b],
    decreases ls.len(),
{
    if ls.len() > 0 {
        let prev = distinct_keys(ls.drop_last(), ic);
        let kl = key_of(ic, ls.last());
        lemma_distinct_no_dup(ls.drop_last(), ic);
        if !prev.contains(kl) {
            assert(forall|y: int| 0 <= y < prev.len() ==> prev[y] != kl);
            assert(distinct_keys(ls, ic) == prev.push(kl));
            assert(forall|a: int, b: int|
                0 <= a < b < prev.push(kl).len() ==> prev.push(kl)[a] != prev.push(kl)[b]);
        }
    }
}

/// Compares two byte vectors.
fn bytes_eq(a: &Vec<u8>, b: &Vec<u8>) -> (r: bool)
    ensures
        r == (a@ == b@),
{
    if a.len() != b.len() {
        return false;
    }
    let mut i: usize = 0;
    while i < a.len()
        invariant
            a@.len() == b@.len(),
            i <= a@.len(),
            forall|j: int| 0 <= j < i ==> a@[j] == b@[j],
        decreases a@.len() - i,
    {
        if a[i] != b[i] {
            return false;
        }
        i += 1;
    }
    proof {
        assert(a@ =~= b@);
    }
    true
}

/// The position of a key in the table, if it is present.
fn find_key(entries: &Vec<FreqEntry>, key: &Vec<u8>) -> (r: Option<usize>)
    ensures
        match r {
            Some(x) => x < entries@.len() && entries@[x as int].key@ == key@,
            None => forall|y: int| 0 <= y < entries@.len() ==> entries@[y].key@ != key@,
        },
{
    let mut x: usize = 0;
    while x < entries.len()
        invariant
            x <= entries@.len(),
            forall|y: int| 0 <= y < x ==> entries@[y].key@ != key@,
        decreases entries@.len() - x,
    {
        let e = &entries[x];
        if bytes_eq(&e.key, key) {
            return Some(x);
        }
        x += 1;
    }
    None
}

impl FreqTable {
    /// Builds the frequency table of a line list: one entry per distinct
    /// comparison key, counting occurrences and keeping the raw text of the
    /// last line seen for each key.
    #[verifier::rlimit(100)]
    pub fn build_table(lines: &Vec<Vec<u8>>, ignore_case: bool) -> (t: FreqTable)
        ensures
            t@ == table_model(lines.deep_view(), ignore_case),
    {
        let ghost ls = lines.deep_view();
        let mut t = FreqTable { entries: Vec::new() };
        let mut j: usize = 0;
        proof {
            assert(ls.take(0) =~= Seq::<Seq<u8>>::empty());
            assert(t.entries@.map_values(|e: FreqEntry| e@) =~= Seq::<EntryModel>::empty());
            assert(distinct_keys(Seq::<Seq<u8>>::empty(), ignore_case)
                == Seq::<Seq<u8>>::empty());
            assert(t@ =~= table_model(ls.take(0), ignore_case));
        }
        while j < lines.len()
            invariant
                j <= ls.len(),
                ls == lines.deep_view(),
                t@ == table_model(ls.take(j as int), ignore_case),
            decreases ls.len() - j,
        {
            let line = &lines[j];
            proof {
                assert(line.deep_view() == ls[j as int]);
                assert(line.deep_view() =~= line@);
            }
            let key = derive_key(ignore_case, line);
            let found = find_key(&t.entries, &key);
            let ghost p = ls.take(j as int);
            let ghost p2 = ls.take(j as int + 1);
            let ghost kl = key_of(ignore_case, ls[j as int]);
            let ghost dk = distinct_keys(p, ignore_case);
            let ghost t0 = t@;
            proof {
                assert(p2.drop_last() =~= p);
                assert(p2.last() == ls[j as int]);
                assert(key@ == kl);
                lemma_distinct_no_dup(p, ignore_case);
            }
            match found {
                Some(x) => {
                    proof {
                        assert(t0.len() == dk.len());
                        assert(x < dk.len());
                        assert(t0[x as int] == t.entries@[x as int]@);
                        assert(table_model(p, ignore_case)[x as int] == entry_model(
                            p,
                            ignore_case,
                            dk[x as int],
                        ));
                        assert(t0[x as int].key == dk[x as int]);
                        assert(dk[x as int] == kl);
                        assert(dk.contains(kl));
                        assert(distinct_keys(p2, ignore_case) == dk);
                        assert(t0[x as int].count == occ_count(p, ignore_case, kl));
                        lemma_occ_le_len(p, ignore_case, kl);
                    }
                    let c = t.entries[x].count;
                    let raw2 = copy_bytes(line);
                    t.entries[x] = FreqEntry { key, raw: raw2, count: c + 1 };
                    proof {
                        assert(t@ =~= t0.update(x as int, t.entries@[x as int]@));
                        assert forall|y: int| 0 <= y < dk.len() implies t@[y] =~~= table_model(
                            p2,
                            ignore_case,
                        )[y] by {
                            assert(occ_count(p2, ignore_case, dk[y]) == occ_count(
                                p,
                                ignore_case,
                                dk[y],
                            ) + (if kl == dk[y] {
                                1nat
                            } else {
                                0nat
                            }));
                            if y == x {
                                assert(last_raw(p2, ignore_case, dk[y]) == ls[j as int]);
                            } else {
                                assert(dk[y] != kl);
                                assert(last_raw(p2, ignore_case, dk[y]) == last_raw(
                                    p,
                                    ignore_case,
                                    dk[y],
                                ));
                                assert(t@[y] == t0[y]);
                            }
                        }
                        assert(t@ =~~= table_model(p2, ignore_case));
                    }
                }
                None => {
                    proof {
                        assert(t0.len() == dk.len());
                        if dk.contains(kl) {
                            let y = choose|y: int| 0 <= y < dk.len() && dk[y] == kl;
                            assert(table_model(p, ignore_case)[y] == entry_model(
                                p,
                                ignore_case,
                                dk[y],
                            ));
                            assert(t0[y].key == dk[y]);
                            assert(t0[y] == t.entries@[y]@);
                            assert(t.entries@[y].key@ == kl);
                        }
                        assert(!dk.contains(kl));
                        assert(distinct_keys(p2, ignore_case) == dk.push(kl));
                        lemma_distinct_occ(p, ignore_case, kl);
                        assert(occ_count(p, ignore_case, kl) == 0);
                    }
                    let raw2 = copy_bytes(line);
                    t.entries.push(FreqEntry { key, raw: raw2, count: 1 });
                    proof {
                        assert(t@ =~= t0.push(t.entries@[dk.len() as int]@));
                        assert forall|y: int| 0 <= y < dk.push(kl).len() implies t@[y]
                            =~~= table_model(p2, ignore_case)[y] by {
                            assert(occ_count(p2, ignore_case, dk.push(kl)[y]) == occ_count(
                                p,
                                ignore_case,
                                dk.push(kl)[y],
                            ) + (if kl == dk.push(kl)[y] {
                                1nat
                            } else {
                                0nat
                            }));
                            if y < dk.len() {
                                assert(dk.contains(dk[y]));
                                assert(dk[y] != kl);
                                assert(last_raw(p2, ignore_case, dk[y]) == last_raw(
                                    p,
                                    ignore_case,
                                    dk[y],
                                ));
                                assert(t@[y] == t0[y]);
                            } else {
                                assert(dk.push(kl)[y] == kl);
                                assert(last_raw(p2, ignore_case, kl) == ls[j as int]);
                            }
                        }
                        assert(t@ =~~= table_model(p2, ignore_case));
                    }
                }
            }
            j += 1;
        }
        proof {
            assert(ls.take(ls.len() as int) =~= ls);
        }
        t
    }
}

} // verus!
