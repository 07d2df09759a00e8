//! The overlap index: a read-only mapping from an `(n-1)`-token key to the
//! records whose first `n-1` tokens equal that key, in input order.

use vstd::prelude::*;

use crate::record::{Record, RecV};

verus! {

/// One key together with the records sharing it.
pub struct Bucket {
    pub key: Vec<String>,
    pub items: Vec<Record>,
}

/// The overlap index for n-gram size `n`.
pub struct Index {
    pub n: usize,
    pub buckets: Vec<Bucket>,
}

/// The abstract key of a bucket.
pub open spec fn key_v(b: Bucket) -> Seq<Seq<char>> {
    b.key@.map_values(|t: String| t@)
}

/// The abstract contents of a bucket.
pub open spec fn items_v(b: Bucket) -> Seq<RecV> {
    b.items@.map_values(|r: Record| r@)
}

/// The abstract values of a record list.
pub open spec fn recs_v(rs: Seq<Record>) -> Seq<RecV> {
    rs.map_values(|r: Record| r@)
}

/// The contents under key `k` of an association list of buckets.
pub open spec fn bucket_get(bs: Seq<Bucket>, k: Seq<Seq<char>>) -> Seq<RecV>
    decreases bs.len(),
{
    if bs.len() == 0 {
        Seq::empty()
    } else if key_v(bs[0]) == k {
        items_v(bs[0])
    } else {
        bucket_get(bs.drop_first(), k)
    }
}

/// Whether some bucket carries key `k`.
pub open spec fn has_key(bs: Seq<Bucket>, k: Seq<Seq<char>>) -> bool {
    exists|m: int| 0 <= m < bs.len() && key_v(#[trigger] bs[m]) == k
}

/// The membership test a record must pass to sit under key `k` of an index
/// for size `n`: exactly `n` tokens, the first `n - 1` of them equal to `k`.
pub open spec fn index_pred(n: int, k: Seq<Seq<char>>) -> spec_fn(RecV) -> bool {
    |r: RecV| r.toks.len() == n && r.toks.subrange(0, n - 1) == k
}

/// The records of `recs` that belong under key `k`, in input order.
pub open spec fn index_entries(recs: Seq<RecV>, n: int, k: Seq<Seq<char>>) -> Seq<RecV> {
    recs.filter(index_pred(n, k))
}

proof fn lemma_get_found(bs: Seq<Bucket>, k: Seq<Seq<char>>, j: int)
    requires
        0 <= j < bs.len(),
        key_v(bs[j]) == k,
        forall|m: int| 0 <= m < j ==> key_v(#[trigger] bs[m]) != k,
    ensures
        bucket_get(bs, k) == items_v(bs[j]),
        has_key(bs, k),
    decreases j,
{
    if j > 0 {
        lemma_get_found(bs.drop_first(), k, j - 1);
    }
}

proof fn lemma_get_absent(bs: Seq<Bucket>, k: Seq<Seq<char>>)
    requires
        forall|m: int| 0 <= m < bs.len() ==> key_v(#[trigger] bs[m]) != k,
    ensures
        bucket_get(bs, k) == Seq::<RecV>::empty(),
        !has_key(bs, k),
    decreases bs.len(),
{
    if bs.len() > 0 {
        lemma_get_absent(bs.drop_first(), k);
    }
}

proof fn lemma_get_update(bs: Seq<Bucket>, j: int, b2: Bucket, k: Seq<Seq<char>>)
    requires
        0 <= j < bs.len(),
        key_v(b2) == key_v(bs[j]),
        forall|m: int| 0 <= m < j ==> key_v(#[trigger] bs[m]) != key_v(bs[j]),
    ensures
        bucket_get(bs.update(j, b2), k) == if k == key_v(bs[j]) {
            items_v(b2)
        } else {
            bucket_get(bs, k)
        },
    decreases j,
{
    let bs2 = bs.update(j, b2);
    if j == 0 {
        if k != key_v(b2) {
            assert(bs2.drop_first() =~= bs.drop_first());
        }
    } else {
        assert(bs2[0] == bs[0]);
        assert(bs2.drop_first() =~= bs.drop_first().update(j - 1, b2));
        lemma_get_update(bs.drop_first(), j - 1, b2, k);
    }
}

proof fn lemma_get_push(bs: Seq<Bucket>, b2: Bucket, k: Seq<Seq<char>>)
    ensures
        bucket_get(bs.push(b2), k) == if has_key(bs, k) {
            bucket_get(bs, k)
        } else if k == key_v(b2) {
            items_v(b2)
        } else {
            Seq::<RecV>::empty()
        },
    decreases bs.len(),
{
    let bs2 = bs.push(b2);
    if bs.len() == 0 {
        assert(!has_key(bs, k));
        assert(bs2[0] == b2);
        assert(bs2.drop_first() =~= Seq::<Bucket>::empty());
        if k == key_v(b2) {
            assert(bucket_get(bs2, k) == items_v(b2));
        } else {
            assert(bucket_get(bs2, k) == bucket_get(Seq::<Bucket>::empty(), k));
            assert(bucket_get(Seq::<Bucket>::empty(), k) == Seq::<RecV>::empty());
        }
    } else {
        assert(bs2[0] == bs[0]);
        assert(bs2.drop_first() =~= bs.drop_first().push(b2));
        lemma_get_push(bs.drop_first(), b2, k);
        if key_v(bs[0]) == k {
            assert(has_key(bs, k));
        } else {
            assert(has_key(bs, k) == has_key(bs.drop_first(), k)) by {
                if has_key(bs, k) {
                    let m = choose|m: int|
                        0 <= m < bs.len() && key_v(#[trigger] bs[m]) == k;
                    assert(bs.drop_first()[m - 1] == bs[m]);
                }
                if has_key(bs.drop_first(), k) {
                    let m = choose|m: int|
                        0 <= m < bs.drop_first().len() && key_v(
                            #[trigger] bs.drop_first()[m],
                        ) == k;
                    assert(bs[m + 1] == bs.drop_first()[m]);
                }
            }
        }
    }
}

proof fn lemma_bucket_members(bs: Seq<Bucket>, k: Seq<Seq<char>>, n: int)
    requires
        forall|i: int, m: int|
            0 <= i < bs.len() && 0 <= m < items_v(#[trigger] bs[i]).len()
                ==> (#[trigger] items_v(bs[i])[m]).toks.len() == n && items_v(bs[i])[m]
                .toks.subrange(0, n - 1) == key_v(bs[i]),
    ensures
        forall|m: int|
            0 <= m < bucket_get(bs, k).len() ==> (#[trigger] bucket_get(bs, k)[m]).toks.len() == n
                && bucket_get(bs, k)[m].toks.subrange(0, n - 1) == k,
    decreases bs.len(),
{
    if bs.len() == 0 {
    } else if key_v(bs[0]) == k {
        assert(bucket_get(bs, k) == items_v(bs[0]));
        assert forall|m: int| 0 <= m < bucket_get(bs, k).len() implies (#[trigger] bucket_get(
            bs,
            k,
        )[m]).toks.len() == n && bucket_get(bs, k)[m].toks.subrange(0, n - 1) == k by {
            assert(items_v(bs[0])[m].toks.len() == n && items_v(bs[0])[m].toks.subrange(
                0,
                n - 1,
            ) == key_v(bs[0]));
        }
    } else {
        let rest = bs.drop_first();
        assert forall|i: int, m: int|
            0 <= i < rest.len() && 0 <= m < items_v(#[trigger] rest[i]).len() implies (
        #[trigger] items_v(rest[i])[m]).toks.len() == n && items_v(rest[i])[m].toks.subrange(
            0,
            n - 1,
        ) == key_v(rest[i]) by {
            assert(rest[i] == bs[i + 1]);
            assert(items_v(bs[i + 1])[m].toks.len() == n && items_v(bs[i + 1])[m].toks.subrange(
                0,
                n - 1,
            ) == key_v(bs[i + 1]));
        }
        lemma_bucket_members(rest, k, n);
        assert(bucket_get(bs, k) == bucket_get(rest, k));
    }
}

impl Index {
    /// The records stored under key `k` (empty if the key is absent).
    pub open spec fn spec_get(self, k: Seq<Seq<char>>) -> Seq<RecV> {
        bucket_get(self.buckets@, k)
    }

    /// Well-formedness: keys are distinct, and every stored record has
    /// exactly `n` tokens, the first `n - 1` of which equal its key.
    pub open spec fn wf(self) -> bool {
        &&& self.n >= 2
        &&& forall|i: int, j: int|
            0 <= i < j < self.buckets@.len() ==> key_v(#[trigger] self.buckets@[i]) != key_v(
                #[trigger] self.buckets@[j],
            )
        &&& forall|i: int, m: int|
            0 <= i < self.buckets@.len() && 0 <= m < items_v(#[trigger] self.buckets@[i]).len()
                ==> (#[trigger] items_v(self.buckets@[i])[m]).toks.len() == self.n
                && items_v(self.buckets@[i])[m].toks.subrange(0, self.n - 1) == key_v(
                self.buckets@[i],
            )
    }

    /// Every record stored under key `k` of a well-formed index has exactly
    /// `n` tokens, and its first `n - 1` tokens equal `k`.
    pub proof fn lemma_members(self, k: Seq<Seq<char>>)
        requires
            self.wf(),
        ensures
            forall|m: int|
                0 <= m < self.spec_get(k).len() ==> (#[trigger] self.spec_get(k)[m]).toks.len()
                    == self.n && self.spec_get(k)[m].toks.subrange(0, self.n - 1) == k,
    {
        lemma_bucket_members(self.buckets@, k, self.n as int);
    }

    /// Looks a key up; `Some` holds exactly the records under that key.
    pub fn lookup<'a>(&'a self, key: &Vec<String>) -> (r: Option<&'a Vec<Record>>)
        ensures
            r matches Some(items) ==> recs_v(items@) == self.spec_get(
                key@.map_values(|t: String| t@),
            ),
            r is None ==> self.spec_get(key@.map_values(|t: String| t@)) == Seq::<RecV>::empty(),
    {
        let ghost kv = key@.map_values(|t: String| t@);
        let mut j: usize = 0;
        while j < self.buckets.len()
            invariant
                0 <= j <= self.buckets@.len(),
                kv == key@.map_values(|t: String| t@),
                forall|m: int| 0 <= m < j ==> key_v(#[trigger] self.buckets@[m]) != kv,
            decreases self.buckets@.len() - j,
        {
            if keys_equal(&self.buckets[j].key, key) {
                proof {
                    lemma_get_found(self.buckets@, kv, j as int);
                }
                return Some(&self.buckets[j].items);
            }
            j = j + 1;
        }
        proof {
            lemma_get_absent(self.buckets@, kv);
        }
        None
    }
}

/// Token-sequence equality of two keys.
pub fn keys_equal(a: &Vec<String>, b: &Vec<String>) -> (r: bool)
    ensures
        r == (a@.map_values(|t: String| t@) == b@.map_values(|t: String| t@)),
{
    let ghost av = a@.map_values(|t: String| t@);
    let ghost bv = b@.map_values(|t: String| t@);
    if a.len() != b.len() {
        proof {
            assert(av.len() != bv.len());
        }
        return false;
    }
    let mut i: usize = 0;
    while i < a.len()
        invariant
            0 <= i <= a@.len(),
            a@.len() == b@.len(),
            av == a@.map_values(|t: String| t@),
            bv == b@.map_values(|t: String| t@),
            forall|m: int| 0 <= m < i ==> av[m] == bv[m],
        decreases a@.len() - i,
    {
        if !(a[i] == b[i]) {
            proof {
                assert(av[i as int] != bv[i as int]);
            }
            return false;
        }
        i = i + 1;
    }
    proof {
        assert(av =~= bv);
    }
    true
}

/// A copy of the tokens `lo..hi` of `ts`.
pub fn clone_range(ts: &Vec<String>, lo: usize, hi: usize) -> (r: Vec<String>)
    requires
        lo <= hi <= ts@.len(),
    ensures
        r@.map_values(|t: String| t@) == ts@.map_values(|t: String| t@).subrange(
            lo as int,
            hi as int,
        ),
{
    let ghost tsv = ts@.map_values(|t: String| t@);
    let mut r: Vec<String> = Vec::new();
    let mut i: usize = lo;
    while i < hi
        invariant
            lo <= i <= hi <= ts@.len(),
            tsv == ts@.map_values(|t: String| t@),
            r@.map_values(|t: String| t@) == tsv.subrange(lo as int, i as int),
        decreases hi - i,
    {
        let ghost pre = r@.map_values(|t: String| t@);
        r.push(ts[i].clone());
        proof {
            assert(r@.map_values(|t: String| t@) =~= pre.push(tsv[i as int]));
            assert(r@.map_values(|t: String| t@) =~= tsv.subrange(lo as int, i as int + 1));
        }
        i = i + 1;
    }
    r
}

fn find_bucket(buckets: &Vec<Bucket>, key: &Vec<String>) -> (r: Option<usize>)
    ensures
        r matches Some(j) ==> j < buckets@.len() && key_v(buckets@[j as int]) == key@.map_values(
            |t: String| t@,
        ) && forall|m: int|
            0 <= m < j ==> key_v(#[trigger] buckets@[m]) != key@.map_values(|t: String| t@),
        r is None ==> forall|m: int|
            0 <= m < buckets@.len() ==> key_v(#[trigger] buckets@[m]) != key@.map_values(
                |t: String| t@,
            ),
{
    let ghost kv = key@.map_values(|t: String| t@);
    let mut j: usize = 0;
    while j < buckets.len()
        invariant
            0 <= j <= buckets@.len(),
            kv == key@.map_values(|t: String| t@),
            forall|m: int| 0 <= m < j ==> key_v(#[trigger] buckets@[m]) != kv,
        decreases buckets@.len() - j,
    {
        if keys_equal(&buckets[j].key, key) {
            return Some(j);
        }
        j = j + 1;
    }
    None
}

/// Builds the overlap index for size `n`: each record with exactly `n`
/// tokens is appended, in input order, to the bucket of its first `n - 1`
/// tokens; all other records are left out.
pub fn build_index(records: &Vec<Record>, n: usize) -> (idx: Index)
    requires
        2 <= n,
    ensures
        idx.wf(),
        idx.n == n,
        forall|k: Seq<Seq<char>>| #[trigger]
            idx.spec_get(k) == index_entries(recs_v(records@), n as int, k),
{
    let ghost all = recs_v(records@);
    let mut buckets: Vec<Bucket> = Vec::new();
    let mut i: usize = 0;
    while i < records.len()
        invariant
            0 <= i <= records@.len(),
            2 <= n,
            all == recs_v(records@),
            forall|p: int, q: int|
                0 <= p < q < buckets@.len() ==> key_v(#[trigger] buckets@[p]) != key_v(
                    #[trigger] buckets@[q],
                ),
            forall|p: int, m: int|
                0 <= p < buckets@.len() && 0 <= m < items_v(#[trigger] buckets@[p]).len()
                    ==> (#[trigger] items_v(buckets@[p])[m]).toks.len() == n
                    && items_v(buckets@[p])[m].toks.subrange(0, n - 1) == key_v(buckets@[p]),
            forall|k: Seq<Seq<char>>| #[trigger]
                bucket_get(buckets@, k) == index_entries(all.subrange(0, i as int), n as int, k),
        decreases records@.len() - i,
    {
        let rec = &records[i];
        let ghost rv = rec@;
        let ghost prev = all.subrange(0, i as int);
        let ghost cur = all.subrange(0, i as int + 1);
        proof {
            assert(cur =~= prev + seq![rv]);
            reveal(Seq::filter);
            assert forall|k: Seq<Seq<char>>| #[trigger] index_entries(cur, n as int, k)
                == index_entries(prev, n as int, k) + (if index_pred(n as int, k)(rv) {
                seq![rv]
            } else {
                Seq::<RecV>::empty()
            }) by {
                let pred = index_pred(n as int, k);
                Seq::<RecV>::filter_distributes_over_add(prev, seq![rv], pred);
                assert(seq![rv].drop_last() =~= Seq::<RecV>::empty());
                assert(Seq::<RecV>::empty().filter(pred) == Seq::<RecV>::empty());
                assert(seq![rv].filter(pred) =~= (if pred(rv) {
                    seq![rv]
                } else {
                    Seq::<RecV>::empty()
                }));
            }
        }
        if rec.tokens.len() == n {
            let key = clone_range(&rec.tokens, 0, n - 1);
            let ghost k0 = rv.toks.subrange(0, n - 1);
            proof {
                assert(key@.map_values(|t: String| t@) == k0);
            }
            let found = find_bucket(&buckets, &key);
            let ghost old_buckets = buckets@;
            match found {
                Some(j) => {
                    proof {
                        lemma_get_found(buckets@, k0, j as int);
                    }
                    let mut b = buckets.remove(j);
                    let ghost old_items = items_v(b);
                    proof {
                        assert(b == old_buckets[j as int]);
                        assert(bucket_get(old_buckets, k0) == old_items);
                    }
                    b.items.push(rec.duplicate());
                    proof {
                        assert(items_v(b) =~= old_items.push(rv));
                    }
                    buckets.insert(j, b);
                    proof {
                        assert(buckets@ =~= old_buckets.update(j as int, b));
                        assert forall|k: Seq<Seq<char>>| #[trigger] bucket_get(buckets@, k)
                            == index_entries(cur, n as int, k) by {
                            lemma_get_update(old_buckets, j as int, b, k);
                            if k == k0 {
                                assert(bucket_get(buckets@, k) == old_items.push(rv));
                                assert(index_entries(prev, n as int, k) == old_items);
                                assert(index_entries(cur, n as int, k) =~= old_items.push(rv));
                            }
                        }
                    }
                },
                None => {
                    let mut items: Vec<Record> = Vec::new();
                    items.push(rec.duplicate());
                    let b = Bucket { key, items };
                    proof {
                        assert(items_v(b) =~= seq![rv]);
                        assert(key_v(b) == k0);
                    }
                    buckets.push(b);
                    proof {
                        assert(buckets@ =~= old_buckets.push(b));
                        lemma_get_absent(old_buckets, k0);
                        assert forall|k: Seq<Seq<char>>| #[trigger] bucket_get(buckets@, k)
                            == index_entries(cur, n as int, k) by {
                            lemma_get_push(old_buckets, b, k);
                            if k == k0 {
                                assert(index_entries(prev, n as int, k) == Seq::<RecV>::empty());
                                assert(index_entries(cur, n as int, k) =~= seq![rv]);
                            } else {
                                if !has_key(old_buckets, k) {
                                    lemma_get_absent(old_buckets, k);
                                }
                            }
                        }
                    }
                },
            }
        } else {
            proof {
                assert forall|k: Seq<Seq<char>>| #[trigger] bucket_get(buckets@, k)
                    == index_entries(cur, n as int, k) by {
                    assert(!index_pred(n as int, k)(rv));
                }
            }
        }
        i = i + 1;
    }
    proof {
        assert(all.subrange(0, records@.len() as int) =~= all);
    }
    Index { n, buckets }
}

} // verus!
