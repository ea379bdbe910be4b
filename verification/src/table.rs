use crate::hashing::key_of;
use vstd::prelude::*;

verus! {

/// The position table: a `hashbrown::HashMap` from a value's hash to the bucket of positions on
/// record for it. The verifier does not look inside the map: what it holds is known only as
/// `buckets`, and only through what the functions below state of `new`, `get`, `get_mut` and
/// `insert`.
#[verifier::external_body]
pub struct PositionTable {
    slots: hashbrown::HashMap<u64, Vec<usize>>,
}

/// What a table holds: for each key in the map, the positions in its bucket, in order.
pub uninterp spec fn buckets(table: PositionTable) -> Map<u64, Seq<usize>>;

/// The buckets of a table that holds nothing.
pub open spec fn no_buckets() -> Map<u64, Seq<usize>> {
    Map::empty()
}

/// `hashbrown::HashMap::new`: the new map holds no key.
#[verifier::external_body]
pub(crate) fn new_table() -> (table: PositionTable)
    ensures
        buckets(table) == no_buckets(),
{
    PositionTable { slots: hashbrown::HashMap::new() }
}

/// `hashbrown::HashMap::get`: the bucket stored under `key`, if the map holds that key.
#[verifier::external_body]
pub(crate) fn bucket_at(table: &PositionTable, key: u64) -> (found: Option<&Vec<usize>>)
    ensures
        found.is_some() == buckets(*table).contains_key(key),
        found.is_some() ==> found.unwrap()@ == buckets(*table)[key],
{
    table.slots.get(&key)
}

/// `hashbrown::HashMap::get_mut`: a mutable borrow of the bucket stored under `key`, if the map
/// holds that key; what the borrower leaves in the bucket is what the map then holds under `key`,
/// and no other key changes.
#[verifier::external_body]
pub(crate) fn bucket_at_mut(table: &mut PositionTable, key: u64) -> (found: Option<&mut Vec<usize>>)
    ensures
        found.is_some() == buckets(*old(table)).contains_key(key),
        match found {
            Some(bucket) => bucket@ == buckets(*old(table))[key]
                && buckets(*final(table)) == buckets(*old(table)).insert(key, final(bucket)@),
            None => buckets(*final(table)) == buckets(*old(table)),
        },
{
    table.slots.get_mut(&key)
}

/// `hashbrown::HashMap::insert`: afterwards the map holds `bucket` under `key`, and every other
/// key as before.
#[verifier::external_body]
pub(crate) fn put_bucket(table: &mut PositionTable, key: u64, bucket: Vec<usize>)
    ensures
        buckets(*final(table)) == buckets(*old(table)).insert(key, bucket@),
{
    table.slots.insert(key, bucket);
}

/// The bucket `s` with every occurrence of `position` taken out, the rest in order.
pub open spec fn without(s: Seq<usize>, position: usize) -> Seq<usize>
    decreases s.len(),
{
    if s.len() == 0 {
        s
    } else if s.last() == position {
        without(s.drop_last(), position)
    } else {
        without(s.drop_last(), position).push(s.last())
    }
}

/// The buckets after `position` is filed under `key`: at the end of that key's bucket, or in a
/// new bucket where the key had none.
pub open spec fn with_position(m: Map<u64, Seq<usize>>, key: u64, position: usize) -> Map<
    u64,
    Seq<usize>,
> {
    if m.contains_key(key) {
        m.insert(key, m[key].push(position))
    } else {
        m.insert(key, seq![position])
    }
}

/// The buckets after `position` is struck from the bucket of `key`, if there is one.
pub open spec fn without_position(m: Map<u64, Seq<usize>>, key: u64, position: usize) -> Map<
    u64,
    Seq<usize>,
> {
    if m.contains_key(key) {
        m.insert(key, without(m[key], position))
    } else {
        m
    }
}

/// `position` is on record under `key`.
pub open spec fn recorded(m: Map<u64, Seq<usize>>, key: u64, position: usize) -> bool {
    m.contains_key(key) && m[key].contains(position)
}

/// A record of `position` under `key` is right: the position is occupied, is not skipped, and
/// holds a value with that key.
pub open spec fn record_ok(s: Seq<i32>, skip: Set<usize>, key: u64, position: usize) -> bool {
    position < s.len() && !skip.contains(position) && key_of(s[position as int]) == key
}

/// The table agrees with the elements at every position outside `skip`: each such position is
/// on record exactly once, under its value's key, and nothing else is on record.
pub open spec fn index_matches_except(
    s: Seq<i32>,
    m: Map<u64, Seq<usize>>,
    skip: Set<usize>,
) -> bool {
    &&& forall|k: u64, j: int|
        m.contains_key(k) && 0 <= j < m[k].len() ==> record_ok(s, skip, k, #[trigger] m[k][j])
    &&& forall|k: u64| #[trigger] m.contains_key(k) ==> m[k].no_duplicates()
    &&& forall|p: usize|
        p < s.len() && !skip.contains(p) ==> #[trigger] recorded(m, key_of(s[p as int]), p)
}

/// The table agrees with the elements at every position.
pub open spec fn index_matches(s: Seq<i32>, m: Map<u64, Seq<usize>>) -> bool {
    index_matches_except(s, m, Set::empty())
}

/// Of the positions in `bucket`, in order, those that hold `value`.
pub open spec fn holding(s: Seq<i32>, bucket: Seq<usize>, value: i32) -> Seq<usize>
    decreases bucket.len(),
{
    if bucket.len() == 0 {
        bucket
    } else if bucket.last() < s.len() && s[bucket.last() as int] == value {
        holding(s, bucket.drop_last(), value).push(bucket.last())
    } else {
        holding(s, bucket.drop_last(), value)
    }
}

/// The positions picked out of a bucket for a value are those in the bucket that hold it, and
/// come once each where the bucket has each position once.
pub proof fn lemma_holding(s: Seq<i32>, bucket: Seq<usize>, value: i32)
    ensures
        forall|x: usize| #[trigger]
            holding(s, bucket, value).contains(x) <==> (bucket.contains(x) && x < s.len()
                && s[x as int] == value),
        bucket.no_duplicates() ==> holding(s, bucket, value).no_duplicates(),
    decreases bucket.len(),
{
    if bucket.len() == 0 {
    } else {
        let init = bucket.drop_last();
        let last = bucket.last();
        lemma_holding(s, init, value);
        let w = holding(s, init, value);
        let keep = last < s.len() && s[last as int] == value;
        assert forall|x: usize| #[trigger]
            holding(s, bucket, value).contains(x) <==> (bucket.contains(x) && x < s.len()
                && s[x as int] == value) by {
            if bucket.contains(x) {
                let j = choose|j: int| 0 <= j < bucket.len() && bucket[j] == x;
                if j < bucket.len() - 1 {
                    assert(init[j] == x);
                }
            }
            if init.contains(x) {
                let j = choose|j: int| 0 <= j < init.len() && init[j] == x;
                assert(bucket[j] == x);
            }
            assert(bucket[bucket.len() - 1] == last);
            if keep {
                assert(w.push(last)[w.len() as int] == last);
                if w.contains(x) {
                    let j = choose|j: int| 0 <= j < w.len() && w[j] == x;
                    assert(w.push(last)[j] == x);
                }
                if w.push(last).contains(x) {
                    let j = choose|j: int| 0 <= j < w.push(last).len() && w.push(last)[j] == x;
                    if j < w.len() {
                        assert(w[j] == x);
                    }
                }
            }
        }
        if bucket.no_duplicates() {
            assert(init.no_duplicates());
            if keep {
                assert(!init.contains(last)) by {
                    if init.contains(last) {
                        let j = choose|j: int| 0 <= j < init.len() && init[j] == last;
                        assert(bucket[j] == bucket[bucket.len() - 1]);
                    }
                }
                assert(!w.contains(last));
                assert(w.push(last).no_duplicates());
            }
        }
    }
}

/// The positions on record for `value`: those in the bucket of its key that hold it.
pub open spec fn positions_of(s: Seq<i32>, m: Map<u64, Seq<usize>>, value: i32) -> Seq<usize> {
    if m.contains_key(key_of(value)) {
        holding(s, m[key_of(value)], value)
    } else {
        Seq::empty()
    }
}

/// Where the table agrees with the elements, the positions on record for a value are exactly
/// the positions that hold it, each once.
pub proof fn lemma_positions_exact(s: Seq<i32>, m: Map<u64, Seq<usize>>, value: i32)
    requires
        index_matches(s, m),
        s.len() <= usize::MAX,
    ensures
        positions_of(s, m, value).no_duplicates(),
        forall|p: usize| #[trigger]
            positions_of(s, m, value).contains(p) <==> (p < s.len() && s[p as int] == value),
        (positions_of(s, m, value).len() > 0) == s.contains(value),
{
    let key = key_of(value);
    let found = positions_of(s, m, value);
    if m.contains_key(key) {
        lemma_holding(s, m[key], value);
    }
    assert forall|p: usize| #[trigger]
        found.contains(p) <==> (p < s.len() && s[p as int] == value) by {
        if p < s.len() && s[p as int] == value {
            assert(recorded(m, key_of(s[p as int]), p));
        }
    }
    if s.contains(value) {
        let j = choose|j: int| 0 <= j < s.len() && s[j] == value;
        assert(found.contains(j as usize));
    }
    if found.len() > 0 {
        assert(found.contains(found[0]));
    }
}

/// A bucket with a position taken out holds the other positions and not that one, and has
/// each position once where the bucket had.
pub proof fn lemma_without(s: Seq<usize>, position: usize)
    ensures
        forall|x: usize| #[trigger]
            without(s, position).contains(x) <==> (s.contains(x) && x != position),
        s.no_duplicates() ==> without(s, position).no_duplicates(),
        without(s, position).len() <= s.len(),
    decreases s.len(),
{
    if s.len() == 0 {
    } else {
        let init = s.drop_last();
        let last = s.last();
        lemma_without(init, position);
        let w = without(init, position);
        assert forall|x: usize| #[trigger]
            without(s, position).contains(x) <==> (s.contains(x) && x != position) by {
            if s.contains(x) {
                let j = choose|j: int| 0 <= j < s.len() && s[j] == x;
                if j < s.len() - 1 {
                    assert(init[j] == x);
                }
            }
            if init.contains(x) {
                let j = choose|j: int| 0 <= j < init.len() && init[j] == x;
                assert(s[j] == x);
            }
            assert(s[s.len() - 1] == last);
            if last != position {
                assert(w.push(last)[w.len() as int] == last);
                if w.contains(x) {
                    let j = choose|j: int| 0 <= j < w.len() && w[j] == x;
                    assert(w.push(last)[j] == x);
                }
                if w.push(last).contains(x) {
                    let j = choose|j: int| 0 <= j < w.push(last).len() && w.push(last)[j] == x;
                    if j < w.len() {
                        assert(w[j] == x);
                    }
                }
            }
        }
        if s.no_duplicates() {
            assert(init.no_duplicates());
            if last != position {
                assert(!init.contains(last)) by {
                    if init.contains(last) {
                        let j = choose|j: int| 0 <= j < init.len() && init[j] == last;
                        assert(s[j] == s[s.len() - 1]);
                    }
                }
                assert(!w.contains(last));
                assert(w.push(last).no_duplicates());
            }
        }
    }
}

/// Striking a position's record leaves a table that agrees everywhere but there.
pub proof fn lemma_strike(s: Seq<i32>, m: Map<u64, Seq<usize>>, skip: Set<usize>, p: usize)
    requires
        index_matches_except(s, m, skip),
        p < s.len(),
    ensures
        index_matches_except(s, without_position(m, key_of(s[p as int]), p), skip.insert(p)),
{
    let key = key_of(s[p as int]);
    let m2 = without_position(m, key, p);
    let skip2 = skip.insert(p);
    if m.contains_key(key) {
        lemma_without(m[key], p);
    }
    assert forall|k: u64, j: int| m2.contains_key(k) && 0 <= j < m2[k].len() implies record_ok(
        s,
        skip2,
        k,
        #[trigger] m2[k][j],
    ) by {
        let x = m2[k][j];
        assert(m2[k].contains(x));
        assert(m[k].contains(x));
        let j0 = choose|j0: int| 0 <= j0 < m[k].len() && m[k][j0] == x;
        assert(record_ok(s, skip, k, m[k][j0]));
        if x == p {
            assert(k == key);
        }
    }
    assert forall|k: u64| #[trigger] m2.contains_key(k) implies m2[k].no_duplicates() by {
        assert(m.contains_key(k));
    }
    assert forall|q: usize| q < s.len() && !skip2.contains(q) implies #[trigger] recorded(
        m2,
        key_of(s[q as int]),
        q,
    ) by {
        assert(recorded(m, key_of(s[q as int]), q));
    }
}

/// Filing a skipped position under its value's key leaves a table that agrees there too.
pub proof fn lemma_file(s: Seq<i32>, m: Map<u64, Seq<usize>>, skip: Set<usize>, p: usize)
    requires
        index_matches_except(s, m, skip),
        p < s.len(),
        skip.contains(p),
    ensures
        index_matches_except(s, with_position(m, key_of(s[p as int]), p), skip.remove(p)),
{
    let key = key_of(s[p as int]);
    let m2 = with_position(m, key, p);
    let skip2 = skip.remove(p);
    assert forall|k: u64, j: int| m2.contains_key(k) && 0 <= j < m2[k].len() implies record_ok(
        s,
        skip2,
        k,
        #[trigger] m2[k][j],
    ) by {
        if k == key {
            if m.contains_key(key) {
                if j < m[key].len() {
                    assert(record_ok(s, skip, k, m[k][j]));
                }
            }
        } else {
            assert(record_ok(s, skip, k, m[k][j]));
        }
    }
    assert forall|k: u64| #[trigger] m2.contains_key(k) implies m2[k].no_duplicates() by {
        if k == key {
            if m.contains_key(key) {
                assert(m[key].no_duplicates());
                assert forall|i: int, j: int|
                    0 <= i < m2[k].len() && 0 <= j < m2[k].len() && i != j implies m2[k][i]
                    != m2[k][j] by {
                    if i < m[key].len() {
                        assert(record_ok(s, skip, key, m[key][i]));
                    }
                    if j < m[key].len() {
                        assert(record_ok(s, skip, key, m[key][j]));
                    }
                }
            }
        } else {
            assert(m.contains_key(k));
        }
    }
    assert forall|q: usize| q < s.len() && !skip2.contains(q) implies #[trigger] recorded(
        m2,
        key_of(s[q as int]),
        q,
    ) by {
        if q == p {
            assert(m2[key][m2[key].len() - 1] == p);
        } else {
            assert(recorded(m, key_of(s[q as int]), q));
            let k = key_of(s[q as int]);
            let j = choose|j: int| 0 <= j < m[k].len() && m[k][j] == q;
            if k == key {
                assert(m2[k][j] == q);
            }
        }
    }
}

/// A table that agrees with `s` outside `skip` agrees as well with any sequence of the same
/// length that differs from `s` only inside `skip`.
pub proof fn lemma_same_outside(
    s: Seq<i32>,
    t: Seq<i32>,
    m: Map<u64, Seq<usize>>,
    skip: Set<usize>,
)
    requires
        index_matches_except(s, m, skip),
        s.len() == t.len(),
        forall|p: usize| p < s.len() && !skip.contains(p) ==> s[p as int] == t[p as int],
    ensures
        index_matches_except(t, m, skip),
{
    assert forall|k: u64, j: int| m.contains_key(k) && 0 <= j < m[k].len() implies record_ok(
        t,
        skip,
        k,
        #[trigger] m[k][j],
    ) by {
        assert(record_ok(s, skip, k, m[k][j]));
    }
    assert forall|q: usize| q < t.len() && !skip.contains(q) implies #[trigger] recorded(
        m,
        key_of(t[q as int]),
        q,
    ) by {
        assert(recorded(m, key_of(s[q as int]), q));
    }
}

/// Once the last position is off the record, the table agrees with the elements before it.
pub proof fn lemma_shorter(s: Seq<i32>, m: Map<u64, Seq<usize>>, skip: Set<usize>)
    requires
        index_matches_except(s, m, skip),
        s.len() > 0,
        s.len() - 1 <= usize::MAX,
        skip.contains((s.len() - 1) as usize),
    ensures
        index_matches_except(s.drop_last(), m, skip.remove((s.len() - 1) as usize)),
{
    let t = s.drop_last();
    let skip2 = skip.remove((s.len() - 1) as usize);
    assert forall|k: u64, j: int| m.contains_key(k) && 0 <= j < m[k].len() implies record_ok(
        t,
        skip2,
        k,
        #[trigger] m[k][j],
    ) by {
        assert(record_ok(s, skip, k, m[k][j]));
    }
    assert forall|q: usize| q < t.len() && !skip2.contains(q) implies #[trigger] recorded(
        m,
        key_of(t[q as int]),
        q,
    ) by {
        assert(recorded(m, key_of(s[q as int]), q));
    }
}

/// A table that agrees with the elements agrees with them and one more, but at the new position.
pub proof fn lemma_longer(s: Seq<i32>, m: Map<u64, Seq<usize>>, skip: Set<usize>, value: i32)
    requires
        index_matches_except(s, m, skip),
        s.len() < usize::MAX,
    ensures
        index_matches_except(s.push(value), m, skip.insert(s.len() as usize)),
{
    let t = s.push(value);
    let skip2 = skip.insert(s.len() as usize);
    assert forall|k: u64, j: int| m.contains_key(k) && 0 <= j < m[k].len() implies record_ok(
        t,
        skip2,
        k,
        #[trigger] m[k][j],
    ) by {
        assert(record_ok(s, skip, k, m[k][j]));
    }
    assert forall|q: usize| q < t.len() && !skip2.contains(q) implies #[trigger] recorded(
        m,
        key_of(t[q as int]),
        q,
    ) by {
        assert(recorded(m, key_of(s[q as int]), q));
    }
}

} // verus!
