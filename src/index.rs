//! Secondary indexes: buckets of report ids, one bucket per key in use.
use crate::types::{Identity, Report, ReportStatus};
use vstd::prelude::*;

verus! {

pub open spec fn strictly_increasing(s: Seq<u64>) -> bool {
    forall|a: int, b: int| 0 <= a < b < s.len() ==> s[a] < s[b]
}

/// Record `i` of `rs` carries id `i + 1`.
pub open spec fn ids_dense(rs: Seq<Report>) -> bool {
    forall|i: int| 0 <= i < rs.len() ==> (#[trigger] rs[i]).id == i + 1
}

/// `ids` lists, in ascending order, exactly the ids of the records of `rs` that satisfy `p`.
pub open spec fn bucket_ok(ids: Seq<u64>, rs: Seq<Report>, p: spec_fn(Report) -> bool) -> bool {
    &&& strictly_increasing(ids)
    &&& forall|k: int| 0 <= k < ids.len() ==> 1 <= #[trigger] ids[k] <= rs.len() && p(rs[ids[k] - 1])
    &&& forall|i: int| 0 <= i < rs.len() && p(#[trigger] rs[i]) ==> ids.contains((i + 1) as u64)
}

/// The ids of the records of `rs` that satisfy `p`, found by a full scan in id order.
pub open spec fn scan_ids(rs: Seq<Report>, p: spec_fn(Report) -> bool) -> Seq<u64>
    decreases rs.len(),
{
    if rs.len() == 0 {
        Seq::empty()
    } else {
        let before = scan_ids(rs.drop_last(), p);
        if p(rs.last()) {
            before.push(rs.last().id)
        } else {
            before
        }
    }
}

/// The ids that `p` selects, as an index holds them, are what a full scan finds.
pub proof fn lemma_bucket_is_scan(ids: Seq<u64>, rs: Seq<Report>, p: spec_fn(Report) -> bool)
    requires
        ids_dense(rs),
        bucket_ok(ids, rs, p),
    ensures
        ids == scan_ids(rs, p),
    decreases rs.len(),
{
    if rs.len() == 0 {
        if ids.len() > 0 {
            assert(1 <= ids[0] <= rs.len());
        }
        assert(ids =~= Seq::empty());
    } else {
        let n = rs.len() - 1;
        let pre = rs.drop_last();
        assert(rs[n].id == n + 1);
        if p(rs.last()) {
            assert(ids.contains((n + 1) as u64));
            let j = choose|j: int| 0 <= j < ids.len() && ids[j] == (n + 1) as u64;
            assert(j == ids.len() - 1) by {
                if j < ids.len() - 1 {
                    assert(ids[j] < ids[ids.len() - 1]);
                    assert(ids[ids.len() - 1] <= rs.len());
                }
            }
            let rest = ids.drop_last();
            assert forall|i: int| 0 <= i < pre.len() && p(#[trigger] pre[i]) implies rest.contains(
                (i + 1) as u64,
            ) by {
                assert(rs[i] == pre[i]);
                assert(ids.contains((i + 1) as u64));
                let k = choose|k: int| 0 <= k < ids.len() && ids[k] == (i + 1) as u64;
                assert(k != j);
                assert(rest[k] == ids[k]);
            }
            assert forall|k: int| 0 <= k < rest.len() implies 1 <= #[trigger] rest[k] <= pre.len()
                && p(pre[rest[k] - 1]) by {
                assert(ids[k] < ids[j]);
                assert(rest[k] == ids[k]);
            }
            lemma_bucket_is_scan(rest, pre, p);
            assert(ids =~= rest.push(rs.last().id));
        } else {
            assert forall|i: int| 0 <= i < pre.len() && p(#[trigger] pre[i]) implies ids.contains(
                (i + 1) as u64,
            ) by {
                assert(rs[i] == pre[i]);
            }
            assert forall|k: int| 0 <= k < ids.len() implies 1 <= #[trigger] ids[k] <= pre.len()
                && p(pre[ids[k] - 1]) by {
                if ids[k] == rs.len() {
                    assert(p(rs[n]));
                }
                assert(pre[ids[k] - 1] == rs[ids[k] - 1]);
            }
            lemma_bucket_is_scan(ids, pre, p);
        }
    }
}

/// A bucket stays correct when one record is replaced, given its new membership.
pub proof fn lemma_bucket_update(
    ids: Seq<u64>,
    ids2: Seq<u64>,
    rs: Seq<Report>,
    i: int,
    r: Report,
    p: spec_fn(Report) -> bool,
)
    requires
        bucket_ok(ids, rs, p),
        0 <= i < rs.len(),
        rs.len() < u64::MAX,
        strictly_increasing(ids2),
        forall|y: u64| #[trigger]
            ids2.contains(y) <==> (if y == i + 1 {
                p(r)
            } else {
                ids.contains(y)
            }),
    ensures
        bucket_ok(ids2, rs.update(i, r), p),
{
    let rs2 = rs.update(i, r);
    assert forall|k: int| 0 <= k < ids2.len() implies 1 <= #[trigger] ids2[k] <= rs2.len() && p(
        rs2[ids2[k] - 1],
    ) by {
        assert(ids2.contains(ids2[k]));
        if ids2[k] != i + 1 {
            let m = choose|m: int| 0 <= m < ids.len() && ids[m] == ids2[k];
            assert(1 <= ids[m] <= rs.len() && p(rs[ids[m] - 1]));
        }
    }
    assert forall|j: int| 0 <= j < rs2.len() && p(#[trigger] rs2[j]) implies ids2.contains(
        (j + 1) as u64,
    ) by {
        if j != i {
            assert(rs2[j] == rs[j]);
            assert(ids.contains((j + 1) as u64));
        } else {
            assert(p(r));
        }
        assert(ids2.contains((j + 1) as u64) <==> (if (j + 1) as u64 == i + 1 {
            p(r)
        } else {
            ids.contains((j + 1) as u64)
        }));
    }
}

/// A bucket stays correct when a record is appended, given its new membership.
pub proof fn lemma_bucket_push(
    ids: Seq<u64>,
    ids2: Seq<u64>,
    rs: Seq<Report>,
    r: Report,
    p: spec_fn(Report) -> bool,
)
    requires
        bucket_ok(ids, rs, p),
        rs.len() < u64::MAX,
        strictly_increasing(ids2),
        forall|y: u64| #[trigger]
            ids2.contains(y) <==> (if y == rs.len() + 1 {
                p(r)
            } else {
                ids.contains(y)
            }),
    ensures
        bucket_ok(ids2, rs.push(r), p),
{
    let rs2 = rs.push(r);
    assert forall|k: int| 0 <= k < ids2.len() implies 1 <= #[trigger] ids2[k] <= rs2.len() && p(
        rs2[ids2[k] - 1],
    ) by {
        assert(ids2.contains(ids2[k]));
        if ids2[k] != rs.len() + 1 {
            let m = choose|m: int| 0 <= m < ids.len() && ids[m] == ids2[k];
            assert(1 <= ids[m] <= rs.len() && p(rs[ids[m] - 1]));
        }
    }
    assert forall|j: int| 0 <= j < rs2.len() && p(#[trigger] rs2[j]) implies ids2.contains(
        (j + 1) as u64,
    ) by {
        if j < rs.len() {
            assert(rs2[j] == rs[j]);
            assert(ids.contains((j + 1) as u64));
        } else {
            assert(p(r));
        }
        assert(ids2.contains((j + 1) as u64) <==> (if (j + 1) as u64 == rs.len() + 1 {
            p(r)
        } else {
            ids.contains((j + 1) as u64)
        }));
    }
}

/// Inserts `x` into an ascending list that lacks it, keeping the order.
pub fn insert_sorted(v: &mut Vec<u64>, x: u64)
    requires
        strictly_increasing(old(v)@),
        !old(v)@.contains(x),
    ensures
        strictly_increasing(final(v)@),
        forall|y: u64| #[trigger] final(v)@.contains(y) <==> (old(v)@.contains(y) || y == x),
{
    let mut k: usize = 0;
    while k < v.len() && v[k] < x
        invariant
            k <= v.len(),
            forall|m: int| 0 <= m < k ==> v@[m] < x,
        decreases v.len() - k,
    {
        k = k + 1;
    }
    let ghost before = v@;
    proof {
        if k < before.len() {
            assert(before[k as int] != x) by {
                assert(before.contains(before[k as int]));
            }
        }
    }
    v.insert(k, x);
    assert(v@ == before.insert(k as int, x));
    assert forall|y: u64| #[trigger] v@.contains(y) <==> (before.contains(y) || y == x) by {
        if v@.contains(y) {
            let m = choose|m: int| 0 <= m < v@.len() && v@[m] == y;
            if m < k {
                assert(before[m] == y);
            } else if m > k {
                assert(before[m - 1] == y);
            }
        }
        if before.contains(y) {
            let m = choose|m: int| 0 <= m < before.len() && before[m] == y;
            if m < k {
                assert(v@[m] == y);
            } else {
                assert(v@[m + 1] == y);
            }
        }
        if y == x {
            assert(v@[k as int] == x);
        }
    }
}

/// Removes `x`, where present, from an ascending list.
pub fn remove_sorted(v: &mut Vec<u64>, x: u64)
    requires
        strictly_increasing(old(v)@),
    ensures
        strictly_increasing(final(v)@),
        forall|y: u64| #[trigger] final(v)@.contains(y) <==> (old(v)@.contains(y) && y != x),
{
    let mut k: usize = 0;
    while k < v.len() && v[k] != x
        invariant
            k <= v.len(),
            forall|m: int| 0 <= m < k ==> v@[m] != x,
        decreases v.len() - k,
    {
        k = k + 1;
    }
    if k < v.len() {
        let ghost before = v@;
        v.remove(k);
        assert(v@ == before.remove(k as int));
        assert forall|y: u64| #[trigger] v@.contains(y) <==> (before.contains(y) && y != x) by {
            if v@.contains(y) {
                let m = choose|m: int| 0 <= m < v@.len() && v@[m] == y;
                if m < k {
                    assert(before[m] == y);
                    assert(before[m] < before[k as int]);
                } else {
                    assert(before[m + 1] == y);
                    assert(before[k as int] < before[m + 1]);
                }
            }
            if before.contains(y) && y != x {
                let m = choose|m: int| 0 <= m < before.len() && before[m] == y;
                if m < k {
                    assert(v@[m] == y);
                } else {
                    assert(m != k);
                    assert(v@[m - 1] == y);
                }
            }
        }
    }
}

/// One bucket of an index: the key, and the ids of the reports that have it.
pub struct Bucket<K> {
    pub key: K,
    pub ids: Vec<u64>,
}

pub open spec fn has_key<K: View>(bs: Seq<Bucket<K>>, k: K::V) -> bool {
    exists|j: int| 0 <= j < bs.len() && (#[trigger] bs[j]).key@ == k
}

/// The ids that an index holds under key `k`; none where it has no bucket for `k`.
pub open spec fn ids_for<K: View>(bs: Seq<Bucket<K>>, k: K::V) -> Seq<u64> {
    if has_key(bs, k) {
        bs[choose|j: int| 0 <= j < bs.len() && (#[trigger] bs[j]).key@ == k].ids@
    } else {
        Seq::empty()
    }
}

pub open spec fn keys_distinct<K: View>(bs: Seq<Bucket<K>>) -> bool {
    forall|a: int, b: int|
        0 <= a < bs.len() && 0 <= b < bs.len() && a != b ==> (#[trigger] bs[a]).key@ != (
        #[trigger] bs[b]).key@
}

/// Keys are distinct, no bucket is empty, and each bucket is ordered.
pub open spec fn buckets_wf<K: View>(bs: Seq<Bucket<K>>) -> bool {
    &&& keys_distinct(bs)
    &&& forall|j: int|
        0 <= j < bs.len() ==> (#[trigger] bs[j]).ids@.len() > 0 && strictly_increasing(
            bs[j].ids@,
        )
}

pub proof fn lemma_ids_for_at<K: View>(bs: Seq<Bucket<K>>, j: int)
    requires
        keys_distinct(bs),
        0 <= j < bs.len(),
    ensures
        ids_for(bs, bs[j].key@) == bs[j].ids@,
{
    assert(has_key(bs, bs[j].key@));
}

pub proof fn lemma_ids_for_increasing<K: View>(bs: Seq<Bucket<K>>, k: K::V)
    requires
        buckets_wf(bs),
    ensures
        strictly_increasing(ids_for(bs, k)),
{
    if has_key(bs, k) {
        let j = choose|j: int| 0 <= j < bs.len() && (#[trigger] bs[j]).key@ == k;
        assert(bs[j].ids@.len() > 0);
    }
}


/// `pos` is where the bucket of key `k` stands, or `None` where there is none.
pub open spec fn position_of<K: View>(bs: Seq<Bucket<K>>, pos: Option<usize>, k: K::V) -> bool {
    match pos {
        Some(j) => j < bs.len() && bs[j as int].key@ == k,
        None => !has_key(bs, k),
    }
}

/// Files `id` under `key`, making a bucket for `key` where there is none.
pub fn index_insert<K: View>(bs: &mut Vec<Bucket<K>>, pos: Option<usize>, key: K, id: u64)
    requires
        buckets_wf(old(bs)@),
        position_of(old(bs)@, pos, key@),
        !ids_for(old(bs)@, key@).contains(id),
    ensures
        buckets_wf(final(bs)@),
        forall|k: K::V| k != key@ ==> #[trigger] ids_for(final(bs)@, k) == ids_for(old(bs)@, k),
        forall|y: u64| #[trigger]
            ids_for(final(bs)@, key@).contains(y) <==> (ids_for(old(bs)@, key@).contains(y) || y
                == id),
{
    let ghost before = bs@;
    let ghost kv = key@;
    match pos {
        Some(j) => {
            proof {
                lemma_ids_for_at(before, j as int);
            }
            let mut b = bs.remove(j);
            insert_sorted(&mut b.ids, id);
            bs.insert(j, b);
            proof {
                assert(bs@ =~= before.update(j as int, bs@[j as int]));
                assert forall|a: int, c: int|
                    0 <= a < bs@.len() && 0 <= c < bs@.len() && a != c implies (#[trigger] bs@[a]).key@
                    != (#[trigger] bs@[c]).key@ by {
                    assert(before[a].key@ != before[c].key@);
                }
                assert forall|m: int| 0 <= m < bs@.len() implies (#[trigger] bs@[m]).ids@.len()
                    > 0 && strictly_increasing(bs@[m].ids@) by {
                    if m != j {
                        assert(bs@[m] == before[m]);
                    } else {
                        assert(bs@[m].ids@.contains(id));
                    }
                }
                lemma_ids_for_at(bs@, j as int);
                assert forall|k: K::V| k != kv implies #[trigger] ids_for(bs@, k) == ids_for(
                    before,
                    k,
                ) by {
                    if has_key(before, k) {
                        let m = choose|m: int| 0 <= m < before.len() && (#[trigger] before[m]).key@ == k;
                        assert(bs@[m] == before[m]);
                        lemma_ids_for_at(before, m);
                        lemma_ids_for_at(bs@, m);
                    } else if has_key(bs@, k) {
                        let m = choose|m: int| 0 <= m < bs@.len() && (#[trigger] bs@[m]).key@ == k;
                        assert(bs@[m] == before[m]);
                    }
                }
            }
        },
        None => {
            let mut ids: Vec<u64> = Vec::new();
            ids.push(id);
            bs.push(Bucket { key, ids });
            proof {
                let n = before.len() as int;
                assert forall|a: int, c: int|
                    0 <= a < bs@.len() && 0 <= c < bs@.len() && a != c implies (#[trigger] bs@[a]).key@
                    != (#[trigger] bs@[c]).key@ by {
                    if a < n && c < n {
                        assert(before[a].key@ != before[c].key@);
                    } else if a < n {
                        assert(bs@[a] == before[a]);
                    } else {
                        assert(bs@[c] == before[c]);
                    }
                }
                assert(bs@[n].ids@ =~= seq![id]);
                assert forall|m: int| 0 <= m < bs@.len() implies (#[trigger] bs@[m]).ids@.len()
                    > 0 && strictly_increasing(bs@[m].ids@) by {
                    if m != n {
                        assert(bs@[m] == before[m]);
                    }
                }
                lemma_ids_for_at(bs@, n);
                assert forall|y: u64| #[trigger]
                    ids_for(bs@, kv).contains(y) <==> (ids_for(before, kv).contains(y) || y
                        == id) by {
                    if y == id {
                        assert(bs@[n].ids@[0] == y);
                    }
                }
                assert forall|k: K::V| k != kv implies #[trigger] ids_for(bs@, k) == ids_for(
                    before,
                    k,
                ) by {
                    if has_key(before, k) {
                        let m = choose|m: int| 0 <= m < before.len() && (#[trigger] before[m]).key@ == k;
                        assert(bs@[m] == before[m]);
                        lemma_ids_for_at(before, m);
                        lemma_ids_for_at(bs@, m);
                    } else if has_key(bs@, k) {
                        let m = choose|m: int| 0 <= m < bs@.len() && (#[trigger] bs@[m]).key@ == k;
                        assert(m != n);
                        assert(bs@[m] == before[m]);
                    }
                }
            }
        },
    }
}

/// Takes `id` out of the bucket of `key`, dropping the bucket once it is empty.
pub fn index_remove<K: View>(bs: &mut Vec<Bucket<K>>, pos: Option<usize>, key: &K, id: u64)
    requires
        buckets_wf(old(bs)@),
        position_of(old(bs)@, pos, key@),
    ensures
        buckets_wf(final(bs)@),
        forall|k: K::V| k != key@ ==> #[trigger] ids_for(final(bs)@, k) == ids_for(old(bs)@, k),
        forall|y: u64| #[trigger]
            ids_for(final(bs)@, key@).contains(y) <==> (ids_for(old(bs)@, key@).contains(y) && y
                != id),
{
    let ghost before = bs@;
    let ghost kv = key@;
    match pos {
        Some(j) => {
            proof {
                lemma_ids_for_at(before, j as int);
            }
            let mut b = bs.remove(j);
            remove_sorted(&mut b.ids, id);
            if b.ids.len() > 0 {
                bs.insert(j, b);
                proof {
                    assert(bs@ =~= before.update(j as int, bs@[j as int]));
                    assert forall|a: int, c: int|
                        0 <= a < bs@.len() && 0 <= c < bs@.len() && a != c implies (
                        #[trigger] bs@[a]).key@ != (#[trigger] bs@[c]).key@ by {
                        assert(before[a].key@ != before[c].key@);
                    }
                    assert forall|m: int| 0 <= m < bs@.len() implies (#[trigger] bs@[m]).ids@.len()
                        > 0 && strictly_increasing(bs@[m].ids@) by {
                        if m != j {
                            assert(bs@[m] == before[m]);
                        }
                    }
                    lemma_ids_for_at(bs@, j as int);
                    assert forall|k: K::V| k != kv implies #[trigger] ids_for(bs@, k) == ids_for(
                        before,
                        k,
                    ) by {
                        if has_key(before, k) {
                            let m = choose|m: int|
                                0 <= m < before.len() && (#[trigger] before[m]).key@ == k;
                            assert(bs@[m] == before[m]);
                            lemma_ids_for_at(before, m);
                            lemma_ids_for_at(bs@, m);
                        } else if has_key(bs@, k) {
                            let m = choose|m: int| 0 <= m < bs@.len() && (#[trigger] bs@[m]).key@ == k;
                            assert(bs@[m] == before[m]);
                        }
                    }
                }
            } else {
                proof {
                    assert(bs@ == before.remove(j as int));
                    assert forall|a: int, c: int|
                        0 <= a < bs@.len() && 0 <= c < bs@.len() && a != c implies (
                        #[trigger] bs@[a]).key@ != (#[trigger] bs@[c]).key@ by {
                        let a0 = if a < j { a } else { a + 1 };
                        let c0 = if c < j { c } else { c + 1 };
                        assert(bs@[a] == before[a0]);
                        assert(bs@[c] == before[c0]);
                        assert(before[a0].key@ != before[c0].key@);
                    }
                    assert forall|m: int| 0 <= m < bs@.len() implies (#[trigger] bs@[m]).ids@.len()
                        > 0 && strictly_increasing(bs@[m].ids@) by {
                        let m0 = if m < j { m } else { m + 1 };
                        assert(bs@[m] == before[m0]);
                    }
                    assert(!has_key(bs@, kv)) by {
                        if has_key(bs@, kv) {
                            let m = choose|m: int| 0 <= m < bs@.len() && (#[trigger] bs@[m]).key@ == kv;
                            let m0 = if m < j { m } else { m + 1 };
                            assert(bs@[m] == before[m0]);
                            assert(before[m0].key@ != before[j as int].key@);
                        }
                    }
                    assert forall|y: u64| #[trigger]
                        ids_for(bs@, kv).contains(y) <==> (ids_for(before, kv).contains(y) && y
                            != id) by {
                        assert(!b.ids@.contains(y));
                    }
                    assert forall|k: K::V| k != kv implies #[trigger] ids_for(bs@, k) == ids_for(
                        before,
                        k,
                    ) by {
                        if has_key(before, k) {
                            let m = choose|m: int|
                                0 <= m < before.len() && (#[trigger] before[m]).key@ == k;
                            assert(m != j);
                            let m1 = if m < j { m } else { m - 1 };
                            assert(bs@[m1] == before[m]);
                            lemma_ids_for_at(before, m);
                            lemma_ids_for_at(bs@, m1);
                        } else if has_key(bs@, k) {
                            let m = choose|m: int| 0 <= m < bs@.len() && (#[trigger] bs@[m]).key@ == k;
                            let m0 = if m < j { m } else { m + 1 };
                            assert(bs@[m] == before[m0]);
                        }
                    }
                }
            }
        },
        None => {},
    }
}

/// An index: the record at each key `k` is what `select(k)` picks out of `rs`.
pub open spec fn index_ok<K: View>(
    bs: Seq<Bucket<K>>,
    rs: Seq<Report>,
    key_of: spec_fn(Report) -> K::V,
) -> bool {
    &&& buckets_wf(bs)
    &&& forall|k: K::V| #[trigger] bucket_ok(ids_for(bs, k), rs, keyed(key_of, k))
}

/// The records whose key is `k`.
pub open spec fn keyed<V>(key_of: spec_fn(Report) -> V, k: V) -> spec_fn(Report) -> bool {
    |r: Report| key_of(r) == k
}

pub open spec fn status_key() -> spec_fn(Report) -> ReportStatus {
    |r: Report| r.status
}

pub open spec fn submitter_key() -> spec_fn(Report) -> Seq<u8> {
    |r: Report| r.submitter_id@
}

} // verus!
