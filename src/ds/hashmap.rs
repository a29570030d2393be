use vstd::prelude::*;
use vstd::std_specs::cmp::PartialEqSpec;
use std::hash::{DefaultHasher, Hasher};
use vstd::std_specs::hash::DefaultHasherAdditionalSpecFns;
use vstd::string::StringSliceAdditionalSpecFns;
use vstd::bytes::{spec_u32_to_le_bytes, spec_u64_to_le_bytes, u32_to_le_bytes, u64_to_le_bytes};
use vstd::string::StringExecFns;
use vstd::string::to_string_from_display_ensures;
use std::fmt::Display;
use crate::ds::{joined, comma_sep};

verus! {

/// Number of buckets a map starts with, and the unit that a shrunk
/// capacity is rounded up to.
pub const INIT_CAP: usize = 100;

/// A map shrinks only while it has more buckets than this.
pub const SHRINK_CAP: usize = 1000;

/// A bucket longer than this after an insertion asks the map to grow.
pub const BUCKET_CAP: usize = 10;

/// Below this many pairs per hundred buckets the map shrinks.
pub const LOW_FACTOR_PERCENT: usize = 25;

/// Above this many pairs per hundred buckets the map grows.
pub const LOAD_FACTOR_PERCENT: usize = 75;

/// Growing multiplies the number of buckets by this.
pub const GROWTH_FACTOR: usize = 2;

/// A key of a [`HashMap`]: it is identified by, and hashed over, its bytes.
pub trait MapKey: Sized {
    /// The bytes that identify the key.
    spec fn key_bytes(&self) -> Seq<u8>;

    fn to_key_bytes(&self) -> (r: Vec<u8>)
        ensures
            r@ == self.key_bytes(),
    ;

    fn copy_key(&self) -> (r: Self)
        ensures
            r.key_bytes() == self.key_bytes(),
    ;
}

impl<'a> MapKey for &'a str {
    open spec fn key_bytes(&self) -> Seq<u8> {
        (**self).spec_bytes()
    }

    fn to_key_bytes(&self) -> (r: Vec<u8>) {
        let b = (**self).as_bytes();
        let mut out: Vec<u8> = Vec::with_capacity(b.len());
        let mut i: usize = 0;
        while i < b.len()
            invariant
                i <= b@.len(),
                out@ == b@.subrange(0, i as int),
            decreases b@.len() - i,
        {
            out.push(b[i]);
            proof {
                assert(out@ =~= b@.subrange(0, i as int + 1));
            }
            i = i + 1;
        }
        proof {
            assert(out@ =~= b@);
        }
        out
    }

    fn copy_key(&self) -> (r: Self) {
        *self
    }
}

impl MapKey for u64 {
    /// The little-endian bytes of the key.
    open spec fn key_bytes(&self) -> Seq<u8> {
        spec_u64_to_le_bytes(*self)
    }

    fn to_key_bytes(&self) -> (r: Vec<u8>) {
        u64_to_le_bytes(*self)
    }

    fn copy_key(&self) -> (r: Self) {
        *self
    }
}

impl MapKey for u32 {
    /// The little-endian bytes of the key.
    open spec fn key_bytes(&self) -> Seq<u8> {
        spec_u32_to_le_bytes(*self)
    }

    fn to_key_bytes(&self) -> (r: Vec<u8>) {
        u32_to_le_bytes(*self)
    }

    fn copy_key(&self) -> (r: Self) {
        *self
    }
}

/// The hash of a key: its bytes and then one `0xff` byte, through the
/// standard library's default hasher: for a `str` key this is the hash that
/// `str` itself feeds a hasher.
pub open spec fn key_hash(k: Seq<u8>) -> u64 {
    DefaultHasher::spec_finish(seq![k, seq![0xffu8]])
}

/// The bucket that holds key `k` among `n` buckets.
pub open spec fn bucket_of(k: Seq<u8>, n: nat) -> int {
    (key_hash(k) as int) % (n as int)
}

/// The smallest multiple of `INIT_CAP` that is at least `c` and at least
/// `INIT_CAP`; `c` itself where that multiple would not fit in a `usize`.
pub open spec fn rounded_cap(c: nat) -> nat {
    let b = if c < INIT_CAP { INIT_CAP as nat } else { c };
    if b % (INIT_CAP as nat) == 0 || b > usize::MAX - INIT_CAP {
        b
    } else {
        (b - b % (INIT_CAP as nat) + INIT_CAP) as nat
    }
}

/// The number of buckets after a growth check: doubled when the pairs per
/// hundred buckets exceed `LOAD_FACTOR_PERCENT` and the double fits.
pub open spec fn grown_buckets(count: nat, cap: nat) -> nat {
    if count * 100 > cap * LOAD_FACTOR_PERCENT && cap <= usize::MAX / GROWTH_FACTOR {
        cap * (GROWTH_FACTOR as nat)
    } else {
        cap
    }
}

/// The number of buckets after a shrink check: a map of more than
/// `SHRINK_CAP` buckets under `LOW_FACTOR_PERCENT` pairs per hundred buckets
/// gets the smallest multiple of `INIT_CAP` that is at least
/// `max(INIT_CAP, count * GROWTH_FACTOR)`.
pub open spec fn shrunk_buckets(count: nat, cap: nat) -> nat {
    if cap > SHRINK_CAP && count * 100 < cap * LOW_FACTOR_PERCENT {
        rounded_cap(count * (GROWTH_FACTOR as nat))
    } else {
        cap
    }
}

/// The map that inserting the pairs of `s` in order gives.
pub open spec fn map_of_pairs<K: MapKey, V>(s: Seq<(K, V)>) -> Map<Seq<u8>, V>
    decreases s.len(),
{
    if s.len() == 0 {
        Map::empty()
    } else {
        map_of_pairs(s.drop_last()).insert(s.last().0.key_bytes(), s.last().1)
    }
}

struct Pair<K, V> {
    key: K,
    value: V,
}

spec fn unique_keys<K: MapKey, V>(s: Seq<Pair<K, V>>) -> bool {
    forall|a: int, b: int|
        0 <= a < s.len() && 0 <= b < s.len() && a != b ==> #[trigger] s[a].key.key_bytes()
            != #[trigger] s[b].key.key_bytes()
}

spec fn has_key<K: MapKey, V>(s: Seq<Pair<K, V>>, k: Seq<u8>) -> bool {
    exists|j: int| 0 <= j < s.len() && #[trigger] s[j].key.key_bytes() == k
}

spec fn value_of<K: MapKey, V>(s: Seq<Pair<K, V>>, k: Seq<u8>) -> V {
    s[choose|j: int| 0 <= j < s.len() && #[trigger] s[j].key.key_bytes() == k].value
}

spec fn total<K, V>(bs: Seq<Vec<Pair<K, V>>>) -> nat
    decreases bs.len(),
{
    if bs.len() == 0 {
        0
    } else {
        total(bs.drop_last()) + bs.last()@.len()
    }
}

spec fn occupied<K, V>(bs: Seq<Vec<Pair<K, V>>>) -> nat
    decreases bs.len(),
{
    if bs.len() == 0 {
        0
    } else {
        occupied(bs.drop_last()) + if bs.last()@.len() > 0 { 1nat } else { 0nat }
    }
}

proof fn lemma_value_at<K: MapKey, V>(s: Seq<Pair<K, V>>, k: Seq<u8>, j: int)
    requires
        unique_keys(s),
        0 <= j < s.len(),
        s[j].key.key_bytes() == k,
    ensures
        has_key(s, k),
        value_of(s, k) == s[j].value,
{
    let c = choose|c: int| 0 <= c < s.len() && #[trigger] s[c].key.key_bytes() == k;
    assert(s[c].key.key_bytes() == k);
}

proof fn lemma_total_update<K, V>(bs: Seq<Vec<Pair<K, V>>>, i: int, b: Vec<Pair<K, V>>)
    requires
        0 <= i < bs.len(),
    ensures
        total(bs.update(i, b)) + bs[i]@.len() == total(bs) + b@.len(),
    decreases bs.len(),
{
    let u = bs.update(i, b);
    if i == bs.len() - 1 {
        assert(u.drop_last() =~= bs.drop_last());
    } else {
        lemma_total_update(bs.drop_last(), i, b);
        assert(u.drop_last() =~= bs.drop_last().update(i, b));
    }
}

proof fn lemma_total_prefix<K, V>(bs: Seq<Vec<Pair<K, V>>>, i: int)
    requires
        0 <= i <= bs.len(),
    ensures
        total(bs.subrange(0, i)) <= total(bs),
        occupied(bs.subrange(0, i)) <= occupied(bs),
        occupied(bs) <= bs.len(),
    decreases bs.len(),
{
    if bs.len() > 0 {
        if i == bs.len() {
            assert(bs.subrange(0, i) =~= bs);
            lemma_total_prefix(bs.drop_last(), i - 1);
        } else {
            lemma_total_prefix(bs.drop_last(), i);
            assert(bs.drop_last().subrange(0, i) =~= bs.subrange(0, i));
        }
    }
}

proof fn lemma_occupied_le_total<K, V>(bs: Seq<Vec<Pair<K, V>>>)
    ensures
        occupied(bs) <= total(bs),
    decreases bs.len(),
{
    if bs.len() > 0 {
        lemma_occupied_le_total(bs.drop_last());
    }
}

proof fn lemma_occupied_zero<K, V>(bs: Seq<Vec<Pair<K, V>>>)
    requires
        forall|i: int| 0 <= i < bs.len() ==> (#[trigger] bs[i])@.len() == 0,
    ensures
        occupied(bs) == 0,
    decreases bs.len(),
{
    if bs.len() > 0 {
        lemma_occupied_zero(bs.drop_last());
    }
}

proof fn lemma_total_zero<K, V>(bs: Seq<Vec<Pair<K, V>>>)
    requires
        forall|i: int| 0 <= i < bs.len() ==> (#[trigger] bs[i])@.len() == 0,
    ensures
        total(bs) == 0,
    decreases bs.len(),
{
    if bs.len() > 0 {
        lemma_total_zero(bs.drop_last());
    }
}

/// What [`HashMap::insert`] makes of `before`: `after` holds `v` under `k`,
/// and it holds one more pair exactly when `k` was absent.
pub open spec fn inserted<K: MapKey, V>(before: HashMap<K, V>, after: HashMap<K, V>, k: Seq<u8>, v: V) -> bool {
    &&& after.wf()
    &&& after@ == before@.insert(k, v)
    &&& after.spec_count() == before.spec_count() + if before@.contains_key(k) {
        0nat
    } else {
        1nat
    }
}

/// What [`HashMap::remove`] makes of `before`: `after` lacks `k`, and it
/// holds one pair fewer exactly when `k` was present.
pub open spec fn removed<K: MapKey, V>(before: HashMap<K, V>, after: HashMap<K, V>, k: Seq<u8>) -> bool {
    &&& after.wf()
    &&& after@ == before@.remove(k)
    &&& after.spec_count() == before.spec_count() - if before@.contains_key(k) {
        1int
    } else {
        0int
    }
}

/// The text of one pair: `k: v`.
pub open spec fn pair_text(k: Seq<char>, v: Seq<char>) -> Seq<char> {
    k + seq![':', ' '] + v
}

/// The text of one bucket: its pairs, separated by `", "`.
pub open spec fn bucket_text(pairs: Seq<Seq<char>>) -> Seq<char> {
    joined(pairs, comma_sep())
}

/// `t` is how `Display` writes the key and the value of `p`, as a pair.
spec fn pair_rendered<K: Display, V: Display>(p: Pair<K, V>, t: Seq<char>) -> bool {
    exists|ks: String, vs: String|
        #[trigger] to_string_from_display_ensures::<K>(&p.key, ks) && #[trigger] to_string_from_display_ensures::<V>(
            &p.value,
            vs,
        ) && t == pair_text(ks@, vs@)
}

/// `t` is the text of bucket `b`.
spec fn bucket_rendered<K: Display, V: Display>(b: Seq<Pair<K, V>>, t: Seq<char>) -> bool {
    exists|pts: Seq<Seq<char>>|
        #[trigger] bucket_text(pts) == t && pts.len() == b.len() && forall|j: int|
            0 <= j < b.len() ==> #[trigger] pair_rendered(b[j], pts[j])
}

/// `texts` are the texts of the non-empty buckets among the first `n`, in order.
spec fn buckets_rendered<K: Display, V: Display>(bs: Seq<Vec<Pair<K, V>>>, n: int, texts: Seq<Seq<char>>) -> bool
    decreases n,
{
    if n <= 0 {
        texts.len() == 0
    } else if bs[n - 1]@.len() == 0 {
        buckets_rendered(bs, n - 1, texts)
    } else {
        texts.len() > 0 && buckets_rendered(bs, n - 1, texts.drop_last()) && bucket_rendered(bs[n - 1]@, texts.last())
    }
}

/// Every key of `a` is a key of `b`, with a value that `V`'s equality
/// finds equal.
pub open spec fn pairs_within<V: PartialEq>(a: Map<Seq<u8>, V>, b: Map<Seq<u8>, V>) -> bool {
    forall|k: Seq<u8>| #[trigger] a.contains_key(k) ==> b.contains_key(k) && a[k].eq_spec(&b[k])
}

/// A hash map with separate chaining: each bucket is a short run of pairs
/// with distinct keys, scanned linearly. The number of buckets grows and
/// shrinks with the load, by rehashing every pair.
pub struct HashMap<K, V> {
    buckets: Vec<Vec<Pair<K, V>>>,
}

impl<K: MapKey, V> View for HashMap<K, V> {
    type V = Map<Seq<u8>, V>;

    closed spec fn view(&self) -> Map<Seq<u8>, V> {
        Map::new(
            |k: Seq<u8>| has_key(self.bucket_seq(k), k),
            |k: Seq<u8>| value_of(self.bucket_seq(k), k),
        )
    }
}

/// Hashes the bytes of a key as `str` does.
fn hash_key_bytes(b: &[u8]) -> (r: u64)
    ensures
        r == key_hash(b@),
{
    let mut h = DefaultHasher::new();
    h.write(b);
    let end: [u8; 1] = [0xffu8];
    h.write(end.as_slice());
    proof {
        assert(end@ =~= seq![0xffu8]);
        assert(h@ =~= seq![b@, seq![0xffu8]]);
    }
    h.finish()
}

fn same_bytes(a: &[u8], b: &[u8]) -> (r: bool)
    ensures
        r == (a@ == b@),
{
    if a.len() != b.len() {
        return false;
    }
    let mut i: usize = 0;
    while i < a.len()
        invariant
            a@.len() == b@.len(),
            i <= a@.len(),
            a@.subrange(0, i as int) == b@.subrange(0, i as int),
        decreases a@.len() - i,
    {
        if a[i] != b[i] {
            proof {
                assert(a@.subrange(0, i as int + 1)[i as int] != b@.subrange(0, i as int + 1)[i as int]);
            }
            return false;
        }
        proof {
            assert(a@.subrange(0, i as int + 1) =~= a@.subrange(0, i as int).push(a@[i as int]));
            assert(b@.subrange(0, i as int + 1) =~= b@.subrange(0, i as int).push(b@[i as int]));
        }
        i = i + 1;
    }
    proof {
        assert(a@ =~= a@.subrange(0, i as int));
        assert(b@ =~= b@.subrange(0, i as int));
    }
    true
}

/// The position of the pair with key bytes `kb` in `bucket`.
fn find_key<K: MapKey, V>(bucket: &Vec<Pair<K, V>>, kb: &[u8]) -> (r: Option<usize>)
    ensures
        match r {
            Some(j) => j < bucket@.len() && bucket@[j as int].key.key_bytes() == kb@,
            None => !has_key(bucket@, kb@),
        },
{
    let mut j: usize = 0;
    while j < bucket.len()
        invariant
            j <= bucket@.len(),
            forall|t: int| 0 <= t < j ==> (#[trigger] bucket@[t]).key.key_bytes() != kb@,
        decreases bucket@.len() - j,
    {
        if same_bytes(bucket[j].key.to_key_bytes().as_slice(), kb) {
            return Some(j);
        }
        j = j + 1;
    }
    None
}

/// The text of a non-empty bucket.
fn render_bucket<K: Display, V: Display>(b: &Vec<Pair<K, V>>) -> (r: String)
    requires
        b@.len() > 0,
    ensures
        bucket_rendered(b@, r@),
{
    let mut inner = String::new();
    let ghost mut pts: Seq<Seq<char>> = Seq::empty();
    let mut j: usize = 0;
    while j < b.len()
        invariant
            j <= b@.len(),
            pts.len() == j,
            forall|t: int| 0 <= t < j ==> #[trigger] pair_rendered(b@[t], pts[t]),
            inner@ == joined(pts, comma_sep()),
        decreases b@.len() - j,
    {
        if j > 0 {
            inner.append(", ");
        }
        let ks = b[j].key.to_string();
        let vs = b[j].value.to_string();
        let mut pair = ks;
        pair.append(": ");
        pair.append(vs.as_str());
        proof {
            reveal_strlit(": ");
            reveal_strlit(", ");
            assert(": "@ =~= seq![':', ' ']);
            assert(", "@ =~= comma_sep());
            assert(pair@ == pair_text(ks@, vs@));
        }
        inner.append(pair.as_str());
        proof {
            let np = pts.push(pair@);
            assert(np.drop_last() =~= pts);
            if j == 0 {
                assert(joined(np, comma_sep()) =~= pair@);
            }
            assert(pair_rendered(b@[j as int], pair@));
            assert forall|t: int| 0 <= t < j + 1 implies #[trigger] pair_rendered(b@[t], np[t]) by {
                if t < j {
                    assert(np[t] == pts[t]);
                }
            }
            pts = np;
        }
        j = j + 1;
    }
    proof {
        assert(bucket_text(pts) == inner@);
    }
    inner
}

impl<K: MapKey, V> HashMap<K, V> {
    closed spec fn bucket_seq(&self, k: Seq<u8>) -> Seq<Pair<K, V>> {
        self.buckets@[bucket_of(k, self.buckets@.len() as nat)]@
    }

    /// Well-formed: there is a bucket; every pair sits in its key's bucket;
    /// the keys of a bucket are distinct.
    pub closed spec fn wf(&self) -> bool {
        &&& self.buckets@.len() > 0
        &&& forall|i: int, j: int|
            0 <= i < self.buckets@.len() && 0 <= j < self.buckets@[i]@.len() ==> bucket_of(
                (#[trigger] self.buckets@[i]@[j]).key.key_bytes(),
                self.buckets@.len() as nat,
            ) == i
        &&& forall|i: int| 0 <= i < self.buckets@.len() ==> unique_keys(#[trigger] self.buckets@[i]@)
        &&& total(self.buckets@) <= usize::MAX
        &&& self@.dom().finite()
        &&& self@.dom().len() == total(self.buckets@)
    }

    /// The number of buckets.
    pub closed spec fn spec_cap(&self) -> nat {
        self.buckets@.len()
    }

    /// The number of pairs stored.
    pub closed spec fn spec_count(&self) -> nat {
        total(self.buckets@)
    }

    /// The number of buckets that hold at least one pair.
    pub closed spec fn spec_occupied(&self) -> nat {
        occupied(self.buckets@)
    }

    /// How many pairs share the bucket of key `k`.
    pub closed spec fn bucket_len(&self, k: Seq<u8>) -> nat {
        self.bucket_seq(k).len()
    }

    /// The number of pairs is the number of keys, and no smaller than the
    /// number of occupied buckets.
    pub proof fn lemma_sizes(&self)
        requires
            self.wf(),
        ensures
            self@.dom().finite(),
            self.spec_count() == self@.dom().len(),
            self.spec_occupied() <= self.spec_count(),
    {
        lemma_occupied_le_total(self.buckets@);
    }

    /// A map with `n` empty buckets.
    fn with_buckets(n: usize) -> (r: Self)
        requires
            n > 0,
        ensures
            r.wf(),
            r@ == Map::<Seq<u8>, V>::empty(),
            r.spec_cap() == n,
            r.spec_count() == 0,
            r.spec_occupied() == 0,
    {
        let mut buckets: Vec<Vec<Pair<K, V>>> = Vec::with_capacity(n);
        let mut i: usize = 0;
        while i < n
            invariant
                i <= n,
                buckets@.len() == i,
                forall|t: int| 0 <= t < i ==> (#[trigger] buckets@[t])@.len() == 0,
            decreases n - i,
        {
            buckets.push(Vec::new());
            i = i + 1;
        }
        let r = HashMap { buckets };
        proof {
            lemma_total_zero(r.buckets@);
            lemma_occupied_zero(r.buckets@);
            assert(r@ =~= Map::<Seq<u8>, V>::empty());
        }
        r
    }

    /// The bucket of a key among the current buckets.
    fn index_of(&self, kb: &[u8]) -> (r: usize)
        requires
            self.wf(),
        ensures
            r == bucket_of(kb@, self.spec_cap()),
            r < self.spec_cap(),
    {
        let h = hash_key_bytes(kb);
        let n = self.buckets.len();
        (h % (n as u64)) as usize
    }

    /// Inserts or overwrites one pair, without resizing.
    fn put(&mut self, key: K, value: V)
        requires
            old(self).wf(),
            old(self).spec_count() < usize::MAX,
        ensures
            final(self).wf(),
            final(self)@ == old(self)@.insert(key.key_bytes(), value),
            final(self).spec_cap() == old(self).spec_cap(),
            final(self).spec_count() == old(self).spec_count() + if old(self)@.contains_key(
                key.key_bytes(),
            ) {
                0nat
            } else {
                1nat
            },
            final(self).bucket_len(key.key_bytes()) == old(self).bucket_len(key.key_bytes()) + if old(
                self,
            )@.contains_key(key.key_bytes()) {
                0nat
            } else {
                1nat
            },
    {
        let ghost kb = key.key_bytes();
        let ghost n = self.buckets@.len() as nat;
        let idx = self.index_of(key.to_key_bytes().as_slice());
        let pos = find_key(&self.buckets[idx], key.to_key_bytes().as_slice());
        let mut b: Vec<Pair<K, V>> = Vec::new();
        self.buckets.set_and_swap(idx, &mut b);
        let ghost ob = b@;
        proof {
            assert(ob == old(self).buckets@[idx as int]@);
        }
        match pos {
            Some(j) => {
                b.set(j, Pair { key, value });
            },
            None => {
                b.push(Pair { key, value });
            },
        }
        let ghost nb = b@;
        self.buckets.set_and_swap(idx, &mut b);
        proof {
            let obs = old(self).buckets@;
            assert(self.buckets@ == obs.update(idx as int, self.buckets@[idx as int]));
            lemma_total_update(obs, idx as int, self.buckets@[idx as int]);
            assert(self.buckets@[idx as int]@ == nb);
            assert forall|i: int, j: int|
                0 <= i < self.buckets@.len() && 0 <= j < self.buckets@[i]@.len() implies bucket_of(
                (#[trigger] self.buckets@[i]@[j]).key.key_bytes(),
                n,
            ) == i by {
                if i != idx {
                    assert(self.buckets@[i] == obs[i]);
                } else if j < ob.len() {
                    assert(obs[i]@[j] == ob[j]);
                }
            }
            assert forall|i: int| 0 <= i < self.buckets@.len() implies unique_keys(
                #[trigger] self.buckets@[i]@,
            ) by {
                if i != idx {
                    assert(self.buckets@[i] == obs[i]);
                } else {
                    assert(unique_keys(ob));
                    assert forall|a: int, c: int|
                        0 <= a < nb.len() && 0 <= c < nb.len() && a != c implies #[trigger] nb[a].key.key_bytes()
                        != #[trigger] nb[c].key.key_bytes() by {
                        if pos is None {
                            if a < ob.len() && c < ob.len() {
                                assert(nb[a] == ob[a] && nb[c] == ob[c]);
                            } else if a < ob.len() {
                                assert(nb[a] == ob[a]);
                            } else {
                                assert(nb[c] == ob[c]);
                            }
                        } else {
                            let pj = pos->Some_0 as int;
                            if a != pj {
                                assert(nb[a] == ob[a]);
                            }
                            if c != pj {
                                assert(nb[c] == ob[c]);
                            }
                        }
                    }
                }
            }
            assert(old(self)@.contains_key(kb) == has_key(ob, kb));
            assert forall|k: Seq<u8>| #[trigger] self@.contains_key(k) == old(self)@.insert(kb, value).contains_key(k)
                && (self@.contains_key(k) ==> self@[k] == old(self)@.insert(kb, value)[k]) by {
                let bi = bucket_of(k, n);
                if bi != idx {
                    assert(self.buckets@[bi] == obs[bi]);
                    if k == kb {
                        assert(bi == idx);
                    }
                } else if k == kb {
                    let jj = if pos is Some { pos->Some_0 as int } else { ob.len() as int };
                    assert(nb[jj].key.key_bytes() == kb);
                    lemma_value_at(nb, kb, jj);
                } else {
                    if has_key(ob, k) {
                        let c = choose|c: int| 0 <= c < ob.len() && #[trigger] ob[c].key.key_bytes() == k;
                        lemma_value_at(ob, k, c);
                        assert(nb[c] == ob[c]);
                        lemma_value_at(nb, k, c);
                    }
                    if has_key(nb, k) {
                        let c = choose|c: int| 0 <= c < nb.len() && #[trigger] nb[c].key.key_bytes() == k;
                        assert(nb[c] == ob[c]);
                    }
                }
            }
            assert(self@ =~= old(self)@.insert(kb, value));
            assert(self.bucket_seq(kb) == nb);
            assert(old(self).bucket_seq(kb) == ob);
        }
    }

    /// Removes and returns the `j`-th pair of bucket `i`.
    fn take_at(&mut self, i: usize, j: usize) -> (r: Pair<K, V>)
        requires
            old(self).wf(),
            i < old(self).spec_cap(),
            j < old(self).buckets@[i as int]@.len(),
        ensures
            final(self).wf(),
            r == old(self).buckets@[i as int]@[j as int],
            old(self)@.contains_key(r.key.key_bytes()),
            old(self)@[r.key.key_bytes()] == r.value,
            final(self)@ == old(self)@.remove(r.key.key_bytes()),
            final(self).spec_cap() == old(self).spec_cap(),
            final(self).spec_count() + 1 == old(self).spec_count(),
            final(self).buckets@[i as int]@.len() + 1 == old(self).buckets@[i as int]@.len(),
            forall|t: int| 0 <= t < final(self).buckets@.len() && t != i ==> (#[trigger] final(self).buckets@[t])@.len()
                == old(self).buckets@[t]@.len(),
    {
        let ghost n = self.buckets@.len() as nat;
        let mut b: Vec<Pair<K, V>> = Vec::new();
        self.buckets.set_and_swap(i, &mut b);
        let ghost ob = b@;
        let p = b.remove(j);
        let ghost nb = b@;
        self.buckets.set_and_swap(i, &mut b);
        proof {
            let obs = old(self).buckets@;
            let kb = p.key.key_bytes();
            assert(ob == obs[i as int]@);
            assert(self.buckets@ == obs.update(i as int, self.buckets@[i as int]));
            lemma_total_update(obs, i as int, self.buckets@[i as int]);
            assert(self.buckets@[i as int]@ == nb);
            assert(obs[i as int]@[j as int] == ob[j as int]);
            assert(bucket_of(kb, n) == i);
            lemma_value_at(ob, kb, j as int);
            assert forall|a: int, c: int|
                0 <= a < self.buckets@.len() && 0 <= c < self.buckets@[a]@.len() implies bucket_of(
                (#[trigger] self.buckets@[a]@[c]).key.key_bytes(),
                n,
            ) == a by {
                if a != i {
                    assert(self.buckets@[a] == obs[a]);
                } else if c < j {
                    assert(nb[c] == ob[c]);
                    assert(obs[a]@[c] == ob[c]);
                } else {
                    assert(nb[c] == ob[c + 1]);
                    assert(obs[a]@[c + 1] == ob[c + 1]);
                }
            }
            assert forall|a: int| 0 <= a < self.buckets@.len() implies unique_keys(
                #[trigger] self.buckets@[a]@,
            ) by {
                if a != i {
                    assert(self.buckets@[a] == obs[a]);
                } else {
                    assert(unique_keys(ob));
                    assert forall|x: int, y: int|
                        0 <= x < nb.len() && 0 <= y < nb.len() && x != y implies #[trigger] nb[x].key.key_bytes()
                        != #[trigger] nb[y].key.key_bytes() by {
                        let ox = if x < j { x } else { x + 1 };
                        let oy = if y < j { y } else { y + 1 };
                        assert(nb[x] == ob[ox] && nb[y] == ob[oy]);
                    }
                }
            }
            assert forall|k: Seq<u8>| #[trigger] self@.contains_key(k) == old(self)@.remove(kb).contains_key(k)
                && (self@.contains_key(k) ==> self@[k] == old(self)@.remove(kb)[k]) by {
                let bi = bucket_of(k, n);
                if bi != i {
                    assert(self.buckets@[bi] == obs[bi]);
                } else if k == kb {
                    if has_key(nb, k) {
                        let c = choose|c: int| 0 <= c < nb.len() && #[trigger] nb[c].key.key_bytes() == k;
                        let oc = if c < j { c } else { c + 1 };
                        assert(nb[c] == ob[oc]);
                    }
                } else {
                    if has_key(ob, k) {
                        let c = choose|c: int| 0 <= c < ob.len() && #[trigger] ob[c].key.key_bytes() == k;
                        lemma_value_at(ob, k, c);
                        let nc = if c < j { c } else { c - 1 };
                        assert(nb[nc] == ob[c]);
                        lemma_value_at(nb, k, nc);
                    }
                    if has_key(nb, k) {
                        let c = choose|c: int| 0 <= c < nb.len() && #[trigger] nb[c].key.key_bytes() == k;
                        let oc = if c < j { c } else { c + 1 };
                        assert(nb[c] == ob[oc]);
                    }
                }
            }
            assert(self@ =~= old(self)@.remove(kb));
        }
        p
    }

    /// Rehashes every pair into `new_cap` fresh buckets.
    fn migrate(&mut self, new_cap: usize)
        requires
            old(self).wf(),
            new_cap > 0,
        ensures
            final(self).wf(),
            final(self)@ == old(self)@,
            final(self).spec_cap() == new_cap,
            final(self).spec_count() == old(self).spec_count(),
    {
        let ghost orig = self@;
        let ghost orig_count = self.spec_count();
        let mut rest = HashMap::with_buckets(new_cap);
        std::mem::swap(self, &mut rest);
        let n = rest.buckets.len();
        let mut i: usize = 0;
        while i < n
            invariant
                self.wf(),
                rest.wf(),
                rest.spec_cap() == n,
                self.spec_cap() == new_cap,
                i <= n,
                forall|t: int| 0 <= t < i ==> (#[trigger] rest.buckets@[t])@.len() == 0,
                forall|k: Seq<u8>| !(self@.contains_key(k) && #[trigger] rest@.contains_key(k)),
                forall|k: Seq<u8>| #[trigger] orig.contains_key(k) <==> (self@.contains_key(k) || rest@.contains_key(k)),
                forall|k: Seq<u8>| #[trigger] self@.contains_key(k) ==> self@[k] == orig[k],
                forall|k: Seq<u8>| #[trigger] rest@.contains_key(k) ==> rest@[k] == orig[k],
                self.spec_count() + rest.spec_count() == orig_count,
                orig_count <= usize::MAX,
            decreases n - i,
        {
            while rest.buckets[i].len() > 0
                invariant
                    self.wf(),
                    rest.wf(),
                    rest.spec_cap() == n,
                    self.spec_cap() == new_cap,
                    i < n,
                    forall|t: int| 0 <= t < i ==> (#[trigger] rest.buckets@[t])@.len() == 0,
                    forall|k: Seq<u8>| !(self@.contains_key(k) && #[trigger] rest@.contains_key(k)),
                    forall|k: Seq<u8>| #[trigger] orig.contains_key(k) <==> (self@.contains_key(k) || rest@.contains_key(k)),
                    forall|k: Seq<u8>| #[trigger] self@.contains_key(k) ==> self@[k] == orig[k],
                    forall|k: Seq<u8>| #[trigger] rest@.contains_key(k) ==> rest@[k] == orig[k],
                    self.spec_count() + rest.spec_count() == orig_count,
                    orig_count <= usize::MAX,
                decreases rest.buckets@[i as int]@.len(),
            {
                let p = rest.take_at(i, 0);
                proof {
                    assert(!self@.contains_key(p.key.key_bytes()));
                }
                self.put(p.key, p.value);
            }
            i = i + 1;
        }
        proof {
            lemma_total_zero(rest.buckets@);
            assert forall|k: Seq<u8>| !#[trigger] rest@.contains_key(k) by {
                let bi = bucket_of(k, n as nat);
                assert(rest.buckets@[bi]@.len() == 0);
            }
            assert(self@ =~= orig);
        }
    }

    /// The number of pairs stored.
    pub fn count(&self) -> (r: usize)
        requires
            self.wf(),
        ensures
            r == self.spec_count(),
            self@.dom().finite(),
            r == self@.dom().len(),
    {
        let mut sum: usize = 0;
        let mut i: usize = 0;
        while i < self.buckets.len()
            invariant
                self.wf(),
                i <= self.buckets@.len(),
                sum == total(self.buckets@.subrange(0, i as int)),
            decreases self.buckets@.len() - i,
        {
            proof {
                let bs = self.buckets@;
                assert(bs.subrange(0, i as int + 1).drop_last() =~= bs.subrange(0, i as int));
                lemma_total_prefix(bs, i as int + 1);
            }
            sum = sum + self.buckets[i].len();
            i = i + 1;
        }
        proof {
            assert(self.buckets@.subrange(0, i as int) =~= self.buckets@);
        }
        sum
    }

    /// The number of buckets that hold at least one pair; the number of
    /// pairs is [`HashMap::count`].
    pub fn len(&self) -> (r: usize)
        requires
            self.wf(),
        ensures
            r == self.spec_occupied(),
            r <= self.spec_count(),
    {
        proof {
            lemma_occupied_le_total(self.buckets@);
        }
        let mut c: usize = 0;
        let mut i: usize = 0;
        while i < self.buckets.len()
            invariant
                self.wf(),
                i <= self.buckets@.len(),
                c == occupied(self.buckets@.subrange(0, i as int)),
            decreases self.buckets@.len() - i,
        {
            proof {
                let bs = self.buckets@;
                assert(bs.subrange(0, i as int + 1).drop_last() =~= bs.subrange(0, i as int));
                lemma_total_prefix(bs.subrange(0, i as int + 1), i as int + 1);
            }
            if self.buckets[i].len() > 0 {
                c = c + 1;
            }
            i = i + 1;
        }
        proof {
            assert(self.buckets@.subrange(0, i as int) =~= self.buckets@);
        }
        c
    }

    /// The number of buckets.
    pub fn cap(&self) -> (r: usize)
        ensures
            r == self.spec_cap(),
    {
        self.buckets.len()
    }

    /// Doubles the number of buckets when the load is over the load factor.
    fn grow(&mut self)
        requires
            old(self).wf(),
        ensures
            final(self).wf(),
            final(self)@ == old(self)@,
            final(self).spec_count() == old(self).spec_count(),
            final(self).spec_cap() == grown_buckets(old(self).spec_count(), old(self).spec_cap()),
    {
        let count = self.count();
        let cap = self.buckets.len();
        if (count as u128) * 100 > (cap as u128) * (LOAD_FACTOR_PERCENT as u128) && cap <= usize::MAX
            / GROWTH_FACTOR {
            self.migrate(cap * GROWTH_FACTOR);
        }
    }

    /// Rehashes into fewer buckets when a large map is under the low factor.
    fn shrink(&mut self)
        requires
            old(self).wf(),
        ensures
            final(self).wf(),
            final(self)@ == old(self)@,
            final(self).spec_count() == old(self).spec_count(),
            final(self).spec_cap() == shrunk_buckets(old(self).spec_count(), old(self).spec_cap()),
    {
        let count = self.count();
        let cap = self.buckets.len();
        if cap > SHRINK_CAP && (count as u128) * 100 < (cap as u128) * (LOW_FACTOR_PERCENT as u128) {
            let wanted = count * GROWTH_FACTOR;
            let base = if wanted < INIT_CAP { INIT_CAP } else { wanted };
            let new_cap = if base % INIT_CAP == 0 || base > usize::MAX - INIT_CAP {
                base
            } else {
                base - base % INIT_CAP + INIT_CAP
            };
            self.migrate(new_cap);
        }
    }

    /// An empty map with `INIT_CAP` buckets.
    pub fn new() -> (r: Self)
        ensures
            r.wf(),
            r@ == Map::<Seq<u8>, V>::empty(),
            r.spec_cap() == INIT_CAP,
            r.spec_count() == 0,
            r.spec_occupied() == 0,
    {
        Self::with_buckets(INIT_CAP)
    }

    /// An empty map with `cap` buckets (one bucket when `cap` is zero).
    pub fn with_cap(cap: usize) -> (r: Self)
        ensures
            r.wf(),
            r@ == Map::<Seq<u8>, V>::empty(),
            r.spec_cap() == if cap == 0 { 1 } else { cap },
            r.spec_count() == 0,
            r.spec_occupied() == 0,
    {
        Self::with_buckets(if cap == 0 { 1 } else { cap })
    }

    /// A map holding the pairs of `pairs`, a later pair overwriting an
    /// earlier one with the same key. It has `INIT_CAP` buckets for fewer
    /// pairs than the load factor allows there, else as many buckets as
    /// pairs, rounded up to a multiple of `INIT_CAP`.
    pub fn from_slice(pairs: &[(K, V)]) -> (r: Self)
        where
            V: Copy,
        ensures
            r.wf(),
            r@ == map_of_pairs(pairs@),
            r.spec_count() == map_of_pairs(pairs@).dom().len(),
            r.spec_cap() == if pairs@.len() * 100 < INIT_CAP * LOAD_FACTOR_PERCENT {
                INIT_CAP as nat
            } else {
                rounded_cap(pairs@.len())
            },
    {
        let len = pairs.len();
        let cap = if len < INIT_CAP * LOAD_FACTOR_PERCENT / 100 {
            INIT_CAP
        } else {
            let base = if len < INIT_CAP { INIT_CAP } else { len };
            if base % INIT_CAP == 0 || base > usize::MAX - INIT_CAP {
                base
            } else {
                base - base % INIT_CAP + INIT_CAP
            }
        };
        let mut map = Self::with_buckets(cap);
        let mut i: usize = 0;
        while i < len
            invariant
                len == pairs@.len(),
                i <= len,
                map.wf(),
                map.spec_cap() == cap,
                map.spec_count() <= i,
                map@ == map_of_pairs(pairs@.subrange(0, i as int)),
            decreases len - i,
        {
            let key = pairs[i].0.copy_key();
            let value = pairs[i].1;
            map.put(key, value);
            proof {
                let pre = pairs@.subrange(0, i as int + 1);
                assert(pre.drop_last() =~= pairs@.subrange(0, i as int));
            }
            i = i + 1;
        }
        proof {
            assert(pairs@.subrange(0, len as int) =~= pairs@);
        }
        map
    }

    /// Every pair, bucket by bucket.
    pub fn to_vec(&self) -> (r: Vec<(K, V)>)
        where
            V: Copy,
        requires
            self.wf(),
        ensures
            r@.len() == self.spec_count(),
            forall|t: int| 0 <= t < r@.len() ==> self@.contains_key(#[trigger] r@[t].0.key_bytes())
                && self@[r@[t].0.key_bytes()] == r@[t].1,
            forall|k: Seq<u8>| #[trigger] self@.contains_key(k) ==> exists|t: int| 0 <= t < r@.len()
                && #[trigger] r@[t].0.key_bytes() == k,
            forall|a: int, b: int|
                0 <= a < r@.len() && 0 <= b < r@.len() && a != b ==> #[trigger] r@[a].0.key_bytes()
                    != #[trigger] r@[b].0.key_bytes(),
    {
        let ghost n = self.buckets@.len() as nat;
        let mut out: Vec<(K, V)> = Vec::new();
        let mut i: usize = 0;
        while i < self.buckets.len()
            invariant
                self.wf(),
                n == self.buckets@.len(),
                i <= n,
                out@.len() == total(self.buckets@.subrange(0, i as int)),
                forall|t: int| 0 <= t < out@.len() ==> self@.contains_key(#[trigger] out@[t].0.key_bytes())
                    && self@[out@[t].0.key_bytes()] == out@[t].1,
                forall|k: Seq<u8>| #[trigger] self@.contains_key(k) && bucket_of(k, n) < i ==> exists|t: int|
                    0 <= t < out@.len() && #[trigger] out@[t].0.key_bytes() == k,
                forall|t: int| 0 <= t < out@.len() ==> bucket_of(#[trigger] out@[t].0.key_bytes(), n) < i,
                forall|x: int, y: int|
                    0 <= x < out@.len() && 0 <= y < out@.len() && x != y ==> #[trigger] out@[x].0.key_bytes()
                        != #[trigger] out@[y].0.key_bytes(),
            decreases n - i,
        {
            let b = &self.buckets[i];
            let mut j: usize = 0;
            let ghost start = out@.len();
            while j < b.len()
                invariant
                    self.wf(),
                    n == self.buckets@.len(),
                    i < n,
                    b == self.buckets@[i as int],
                    j <= b@.len(),
                    out@.len() == start + j,
                    start == total(self.buckets@.subrange(0, i as int)),
                    forall|t: int| 0 <= t < out@.len() ==> self@.contains_key(#[trigger] out@[t].0.key_bytes())
                        && self@[out@[t].0.key_bytes()] == out@[t].1,
                    forall|k: Seq<u8>| #[trigger] self@.contains_key(k) && bucket_of(k, n) < i ==> exists|t: int|
                        0 <= t < out@.len() && #[trigger] out@[t].0.key_bytes() == k,
                    forall|c: int| 0 <= c < j ==> #[trigger] out@[start + c].0.key_bytes() == b@[c].key.key_bytes(),
                    forall|t: int| 0 <= t < start ==> bucket_of(#[trigger] out@[t].0.key_bytes(), n) < i,
                    forall|x: int, y: int|
                        0 <= x < out@.len() && 0 <= y < out@.len() && x != y ==> #[trigger] out@[x].0.key_bytes()
                            != #[trigger] out@[y].0.key_bytes(),
                decreases b@.len() - j,
            {
                let key = b[j].key.copy_key();
                let value = b[j].value;
                let ghost before = out@;
                proof {
                    let kb = b@[j as int].key.key_bytes();
                    assert(self.buckets@[i as int]@[j as int] == b@[j as int]);
                    assert(bucket_of(kb, n) == i);
                    lemma_value_at(b@, kb, j as int);
                }
                out.push((key, value));
                proof {
                    assert forall|k: Seq<u8>| #[trigger] self@.contains_key(k) && bucket_of(k, n) < i implies exists|t: int|
                        0 <= t < out@.len() && #[trigger] out@[t].0.key_bytes() == k by {
                        let t = choose|t: int| 0 <= t < before.len() && #[trigger] before[t].0.key_bytes() == k;
                        assert(out@[t] == before[t]);
                    }
                    assert forall|c: int| 0 <= c < j + 1 implies #[trigger] out@[start + c].0.key_bytes() == b@[c].key.key_bytes() by {
                        if c < j {
                            assert(out@[start + c] == before[start + c]);
                        }
                    }
                    let kb = b@[j as int].key.key_bytes();
                    assert forall|t: int| 0 <= t < start implies bucket_of(#[trigger] out@[t].0.key_bytes(), n) < i by {
                        assert(out@[t] == before[t]);
                    }
                    assert(unique_keys(self.buckets@[i as int]@));
                    assert forall|x: int, y: int|
                        0 <= x < out@.len() && 0 <= y < out@.len() && x != y implies #[trigger] out@[x].0.key_bytes()
                            != #[trigger] out@[y].0.key_bytes() by {
                        let last = out@.len() - 1;
                        if x != last && y != last {
                            assert(out@[x] == before[x] && out@[y] == before[y]);
                        } else {
                            let o = if x == last { y } else { x };
                            assert(out@[o] == before[o]);
                            assert(out@[last].0.key_bytes() == kb);
                            if o < start {
                                assert(bucket_of(before[o].0.key_bytes(), n) < i);
                            } else {
                                let c = o - start;
                                assert(before[start + c].0.key_bytes() == b@[c].key.key_bytes());
                                assert(b@[c].key.key_bytes() != b@[j as int].key.key_bytes());
                            }
                        }
                    }
                }
                j = j + 1;
            }
            proof {
                let bs = self.buckets@;
                assert(bs.subrange(0, i as int + 1).drop_last() =~= bs.subrange(0, i as int));
                assert forall|t: int| 0 <= t < out@.len() implies bucket_of(#[trigger] out@[t].0.key_bytes(), n) < i + 1 by {
                    if t >= start {
                        let c = t - start;
                        assert(out@[start + c].0.key_bytes() == b@[c].key.key_bytes());
                        assert(self.buckets@[i as int]@[c] == b@[c]);
                    }
                }
                assert forall|k: Seq<u8>| #[trigger] self@.contains_key(k) && bucket_of(k, n) < i + 1 implies exists|t: int|
                    0 <= t < out@.len() && #[trigger] out@[t].0.key_bytes() == k by {
                    if bucket_of(k, n) == i {
                        let c = choose|c: int| 0 <= c < b@.len() && #[trigger] b@[c].key.key_bytes() == k;
                        assert(out@[start + c].0.key_bytes() == k);
                    }
                }
            }
            i = i + 1;
        }
        proof {
            assert(self.buckets@.subrange(0, i as int) =~= self.buckets@);
        }
        out
    }

    /// Empties every bucket; the number of buckets stays.
    pub fn clear(&mut self)
        requires
            old(self).wf(),
        ensures
            final(self).wf(),
            final(self)@ == Map::<Seq<u8>, V>::empty(),
            final(self).spec_cap() == old(self).spec_cap(),
            final(self).spec_count() == 0,
            final(self).spec_occupied() == 0,
    {
        let n = self.buckets.len();
        *self = Self::with_buckets(n);
    }

    /// Whether the map holds no pair.
    pub fn is_empty(&self) -> (r: bool)
        requires
            self.wf(),
        ensures
            r == (self@ == Map::<Seq<u8>, V>::empty()),
    {
        let ghost n = self.buckets@.len() as nat;
        let mut i: usize = 0;
        while i < self.buckets.len()
            invariant
                self.wf(),
                n == self.buckets@.len(),
                i <= n,
                forall|t: int| 0 <= t < i ==> (#[trigger] self.buckets@[t])@.len() == 0,
            decreases n - i,
        {
            if self.buckets[i].len() > 0 {
                proof {
                    let p = self.buckets@[i as int]@[0];
                    let kb = p.key.key_bytes();
                    assert(bucket_of(kb, n) == i);
                    lemma_value_at(self.buckets@[i as int]@, kb, 0);
                    assert(self@.contains_key(kb));
                    assert(!Map::<Seq<u8>, V>::empty().contains_key(kb));
                }
                return false;
            }
            i = i + 1;
        }
        proof {
            assert forall|k: Seq<u8>| !#[trigger] self@.contains_key(k) by {
                let bi = bucket_of(k, n);
                assert(self.buckets@[bi]@.len() == 0);
            }
            assert(self@ =~= Map::<Seq<u8>, V>::empty());
        }
        true
    }

    /// The value stored under `key`.
    pub fn get(&self, key: K) -> (r: Option<&V>)
        requires
            self.wf(),
        ensures
            match r {
                Some(v) => self@.contains_key(key.key_bytes()) && *v == self@[key.key_bytes()],
                None => !self@.contains_key(key.key_bytes()),
            },
    {
        let idx = self.index_of(key.to_key_bytes().as_slice());
        match find_key(&self.buckets[idx], key.to_key_bytes().as_slice()) {
            Some(j) => {
                proof {
                    lemma_value_at(self.buckets@[idx as int]@, key.key_bytes(), j as int);
                }
                Some(&self.buckets[idx][j].value)
            },
            None => None,
        }
    }

    /// Any map whose buckets are those of `self` with the value of pair `j`
    /// of bucket `idx` replaced by `nv` holds `nv` under that pair's key.
    proof fn lemma_value_replaced(&self, idx: int, j: int, nv: V)
        requires
            self.wf(),
            0 <= idx < self.buckets@.len(),
            0 <= j < self.buckets@[idx]@.len(),
        ensures
            forall|h: HashMap<K, V>|
                #![trigger h.buckets@]
                h.buckets@.len() == self.buckets@.len() && (forall|t: int|
                    0 <= t < self.buckets@.len() && t != idx ==> h.buckets@[t] == self.buckets@[t])
                    && h.buckets@[idx]@ == self.buckets@[idx]@.update(
                    j,
                    Pair { key: self.buckets@[idx]@[j].key, value: nv },
                ) ==> h.wf() && h@ == self@.insert(self.buckets@[idx]@[j].key.key_bytes(), nv)
                    && total(h.buckets@) == total(self.buckets@),
    {
        let n = self.buckets@.len() as nat;
        let ob = self.buckets@[idx]@;
        let kb = ob[j].key.key_bytes();
        let nb = ob.update(j, Pair { key: ob[j].key, value: nv });
        assert forall|h: HashMap<K, V>|
            #![trigger h.buckets@]
            h.buckets@.len() == self.buckets@.len() && (forall|t: int|
                0 <= t < self.buckets@.len() && t != idx ==> h.buckets@[t] == self.buckets@[t])
                && h.buckets@[idx]@ == nb implies h.wf() && h@ == self@.insert(kb, nv) && total(
                h.buckets@,
            ) == total(self.buckets@) by {
            let obs = self.buckets@;
            assert(h.buckets@ == obs.update(idx, h.buckets@[idx])) by {
                assert(h.buckets@ =~= obs.update(idx, h.buckets@[idx]));
            }
            lemma_total_update(obs, idx, h.buckets@[idx]);
            assert forall|a: int, c: int|
                0 <= a < h.buckets@.len() && 0 <= c < h.buckets@[a]@.len() implies bucket_of(
                (#[trigger] h.buckets@[a]@[c]).key.key_bytes(),
                n,
            ) == a by {
                if a != idx {
                    assert(h.buckets@[a] == obs[a]);
                } else {
                    assert(nb[c].key == ob[c].key);
                }
            }
            assert forall|a: int| 0 <= a < h.buckets@.len() implies unique_keys(#[trigger] h.buckets@[a]@) by {
                if a != idx {
                    assert(h.buckets@[a] == obs[a]);
                } else {
                    assert(unique_keys(ob));
                    assert forall|x: int, y: int|
                        0 <= x < nb.len() && 0 <= y < nb.len() && x != y implies #[trigger] nb[x].key.key_bytes()
                        != #[trigger] nb[y].key.key_bytes() by {
                        assert(nb[x].key == ob[x].key && nb[y].key == ob[y].key);
                    }
                }
            }
            lemma_value_at(ob, kb, j);
            lemma_value_at(nb, kb, j);
            assert forall|k: Seq<u8>| #[trigger] h@.contains_key(k) == self@.insert(kb, nv).contains_key(k)
                && (h@.contains_key(k) ==> h@[k] == self@.insert(kb, nv)[k]) by {
                let bi = bucket_of(k, n);
                if bi != idx {
                    assert(h.buckets@[bi] == obs[bi]);
                } else if k != kb {
                    if has_key(ob, k) {
                        let c = choose|c: int| 0 <= c < ob.len() && #[trigger] ob[c].key.key_bytes() == k;
                        lemma_value_at(ob, k, c);
                        lemma_value_at(nb, k, c);
                    }
                    if has_key(nb, k) {
                        let c = choose|c: int| 0 <= c < nb.len() && #[trigger] nb[c].key.key_bytes() == k;
                        assert(nb[c].key == ob[c].key);
                    }
                }
            }
            assert(h@ =~= self@.insert(kb, nv));
        }
    }

    /// The value stored under `key`, for writing.
    pub fn get_mut(&mut self, key: K) -> (r: Option<&mut V>)
        requires
            old(self).wf(),
        ensures
            final(self).wf(),
            match r {
                Some(v) => old(self)@.contains_key(key.key_bytes()) && *v == old(self)@[key.key_bytes()]
                    && final(self)@ == old(self)@.insert(key.key_bytes(), *final(v)),
                None => !old(self)@.contains_key(key.key_bytes()) && final(self)@ == old(self)@,
            },
            final(self).spec_count() == old(self).spec_count(),
    {
        let idx = self.index_of(key.to_key_bytes().as_slice());
        match find_key(&self.buckets[idx], key.to_key_bytes().as_slice()) {
            Some(j) => {
                proof {
                    lemma_value_at(self.buckets@[idx as int]@, key.key_bytes(), j as int);
                }
                let b = &mut self.buckets[idx];
                let v = &mut b[j].value;
                proof {
                    old(self).lemma_value_replaced(idx as int, j as int, *final(v));
                }
                Some(v)
            },
            None => None,
        }
    }

    /// Inserts `value` under `key`, overwriting an earlier value; the map
    /// grows when the key's bucket gets longer than `BUCKET_CAP`.
    pub fn insert(&mut self, key: K, value: V)
        requires
            old(self).wf(),
            old(self).spec_count() < usize::MAX,
        ensures
            inserted(*old(self), *final(self), key.key_bytes(), value),
            final(self).spec_cap() == if old(self).bucket_len(key.key_bytes()) + (if old(self)@.contains_key(
                key.key_bytes(),
            ) {
                0nat
            } else {
                1nat
            }) > BUCKET_CAP {
                grown_buckets(final(self).spec_count(), old(self).spec_cap())
            } else {
                old(self).spec_cap()
            },
    {
        let idx = self.index_of(key.to_key_bytes().as_slice());
        self.put(key, value);
        if self.buckets[idx].len() > BUCKET_CAP {
            self.grow();
        }
    }

    /// Removes the pair under `key` and returns its value; the map may then
    /// shrink.
    pub fn remove(&mut self, key: K) -> (r: Option<V>)
        requires
            old(self).wf(),
        ensures
            removed(*old(self), *final(self), key.key_bytes()),
            !old(self)@.contains_key(key.key_bytes()) ==> *final(self) == *old(self),
            old(self)@.contains_key(key.key_bytes()) ==> final(self).spec_cap() == shrunk_buckets(
                final(self).spec_count(),
                old(self).spec_cap(),
            ),
            r == if old(self)@.contains_key(key.key_bytes()) {
                Some(old(self)@[key.key_bytes()])
            } else {
                None::<V>
            },
    {
        let idx = self.index_of(key.to_key_bytes().as_slice());
        match find_key(&self.buckets[idx], key.to_key_bytes().as_slice()) {
            Some(j) => {
                let p = self.take_at(idx, j);
                self.shrink();
                Some(p.value)
            },
            None => {
                proof {
                    assert(self@ =~= old(self)@.remove(key.key_bytes()));
                }
                None
            },
        }
    }

    /// `texts` are the texts of the non-empty buckets, in bucket order, each
    /// made of how `Display` writes the keys and values of its pairs.
    pub closed spec fn renders_as(&self, texts: Seq<Seq<char>>) -> bool
        where
            K: Display,
            V: Display,
    {
        buckets_rendered(self.buckets@, self.buckets@.len() as int, texts)
    }

    /// The pairs as `Display` writes them, bucket by bucket:
    /// `{k1: v1, k2: v2, k3: v3}`.
    pub fn to_string(&self) -> (r: String)
        where
            K: Display,
            V: Display,
        ensures
            exists|texts: Seq<Seq<char>>|
                self.renders_as(texts) && r@ == seq!['{'] + joined(texts, comma_sep()) + seq!['}'],
    {
        let mut out = String::from_str("{");
        let ghost mut texts: Seq<Seq<char>> = Seq::empty();
        let mut any = false;
        let mut i: usize = 0;
        proof {
            reveal_strlit("{");
            reveal_strlit(", ");
            reveal_strlit("}");
            assert("{"@ =~= seq!['{']);
        }
        while i < self.buckets.len()
            invariant
                i <= self.buckets@.len(),
                any == (texts.len() > 0),
                buckets_rendered(self.buckets@, i as int, texts),
                out@ == seq!['{'] + joined(texts, comma_sep()),
            decreases self.buckets@.len() - i,
        {
            let b = &self.buckets[i];
            if b.len() > 0 {
                if any {
                    out.append(", ");
                }
                let t = render_bucket(b);
                out.append(t.as_str());
                proof {
                    let nt = texts.push(t@);
                    assert(nt.drop_last() =~= texts);
                    reveal_strlit(", ");
                    assert(", "@ =~= comma_sep());
                    if texts.len() == 0 {
                        assert(joined(nt, comma_sep()) =~= t@);
                    }
                    assert(out@ =~= seq!['{'] + joined(nt, comma_sep()));
                    texts = nt;
                }
                any = true;
            }
            i = i + 1;
        }
        out.append("}");
        proof {
            assert("}"@ =~= seq!['}']);
            assert(self.renders_as(texts));
        }
        out
    }

    /// Whether every pair of `self` is in `other` with an equal value.
    fn pairs_found_in(&self, other: &Self) -> (r: bool)
        where
            V: PartialEq,
        requires
            self.wf(),
            other.wf(),
        ensures
            V::obeys_eq_spec() ==> r == pairs_within(self@, other@),
    {
        let ghost n = self.buckets@.len() as nat;
        let mut i: usize = 0;
        while i < self.buckets.len()
            invariant
                self.wf(),
                other.wf(),
                n == self.buckets@.len(),
                i <= n,
                V::obeys_eq_spec() ==> forall|k: Seq<u8>|
                    #[trigger] self@.contains_key(k) && bucket_of(k, n) < i ==> other@.contains_key(k) && self@[k].eq_spec(&other@[k]),
            decreases n - i,
        {
            let b = &self.buckets[i];
            let mut j: usize = 0;
            while j < b.len()
                invariant
                    self.wf(),
                    other.wf(),
                    n == self.buckets@.len(),
                    i < n,
                    b == self.buckets@[i as int],
                    j <= b@.len(),
                    V::obeys_eq_spec() ==> forall|k: Seq<u8>|
                        #[trigger] self@.contains_key(k) && bucket_of(k, n) < i ==> other@.contains_key(k) && self@[k].eq_spec(&other@[k]),
                    V::obeys_eq_spec() ==> forall|c: int|
                        0 <= c < j ==> other@.contains_key(#[trigger] b@[c].key.key_bytes()) && b@[c].value.eq_spec(
                            &other@[b@[c].key.key_bytes()],
                        ),
                decreases b@.len() - j,
            {
                let ghost kb = b@[j as int].key.key_bytes();
                proof {
                    assert(self.buckets@[i as int]@[j as int] == b@[j as int]);
                    assert(bucket_of(kb, n) == i);
                    lemma_value_at(b@, kb, j as int);
                }
                match other.get(b[j].key.copy_key()) {
                    Some(v) => {
                        if !(b[j].value == *v) {
                            proof {
                                assert(self@.contains_key(kb));
                            }
                            return false;
                        }
                    },
                    None => {
                        proof {
                            assert(self@.contains_key(kb));
                        }
                        return false;
                    },
                }
                j = j + 1;
            }
            proof {
                if V::obeys_eq_spec() {
                    assert forall|k: Seq<u8>|
                        #[trigger] self@.contains_key(k) && bucket_of(k, n) < i + 1 implies other@.contains_key(k)
                            && self@[k].eq_spec(&other@[k]) by {
                        if bucket_of(k, n) == i {
                            assert(has_key(b@, k));
                            let c = choose|c: int| 0 <= c < b@.len() && #[trigger] b@[c].key.key_bytes() == k;
                            lemma_value_at(b@, k, c);
                        }
                    }
                }
            }
            i = i + 1;
        }
        proof {
            if V::obeys_eq_spec() {
                assert forall|k: Seq<u8>| #[trigger] self@.contains_key(k) implies other@.contains_key(k)
                    && self@[k].eq_spec(&other@[k]) by {
                    assert(bucket_of(k, n) < n);
                }
            }
        }
        true
    }

    /// Whether the two maps hold the same keys with equal values, however
    /// their pairs are laid out in buckets.
    pub fn same_pairs(&self, other: &Self) -> (r: bool)
        where
            V: PartialEq,
        requires
            self.wf(),
            other.wf(),
        ensures
            V::obeys_eq_spec() ==> r == (pairs_within(self@, other@) && pairs_within(other@, self@)),
    {
        self.pairs_found_in(other) && other.pairs_found_in(self)
    }

    /// A consuming iterator over the pairs, bucket by bucket.
    pub fn into_iter(self) -> (r: IntoIter<K, V>)
        where
            V: Copy,
        requires
            self.wf(),
        ensures
            r.wf(),
            r@.len() == self.spec_count(),
            forall|t: int| 0 <= t < r@.len() ==> self@.contains_key(#[trigger] r@[t].0.key_bytes())
                && self@[r@[t].0.key_bytes()] == r@[t].1,
            forall|k: Seq<u8>| #[trigger] self@.contains_key(k) ==> exists|t: int| 0 <= t < r@.len()
                && #[trigger] r@[t].0.key_bytes() == k,
            forall|a: int, b: int|
                0 <= a < r@.len() && 0 <= b < r@.len() && a != b ==> #[trigger] r@[a].0.key_bytes()
                    != #[trigger] r@[b].0.key_bytes(),
    {
        let pairs = self.to_vec();
        let r = IntoIter { pairs, cur: 0 };
        proof {
            assert(r@ =~= pairs@);
        }
        r
    }
}

impl<K: MapKey, V> Default for HashMap<K, V> {
    fn default() -> (r: Self)
        ensures
            r.wf(),
            r@ == Map::<Seq<u8>, V>::empty(),
            r.spec_cap() == INIT_CAP,
            r.spec_count() == 0,
            r.spec_occupied() == 0,
    {
        Self::new()
    }
}

impl<K: MapKey + Copy, V: Copy, const N: usize> From<[(K, V); N]> for HashMap<K, V> {
    /// Holds the pairs of `arr`, a later pair overwriting an earlier one
    /// with the same key.
    fn from(arr: [(K, V); N]) -> (r: Self)
        ensures
            r.wf(),
            r@ == map_of_pairs(arr@),
            r.spec_count() == map_of_pairs(arr@).dom().len(),
    {
        Self::from_slice(arr.as_slice())
    }
}

impl<K: MapKey + Copy, V: Copy, const N: usize> vstd::std_specs::convert::FromSpecImpl<[(K, V); N]> for HashMap<K, V> {
    open spec fn obeys_from_spec() -> bool {
        false
    }

    open spec fn from_spec(arr: [(K, V); N]) -> Self {
        arbitrary()
    }
}

/// The consuming iterator of a [`HashMap`]: the pairs that remain, from
/// either end.
pub struct IntoIter<K, V> {
    pairs: Vec<(K, V)>,
    cur: usize,
}

impl<K, V> View for IntoIter<K, V> {
    type V = Seq<(K, V)>;

    closed spec fn view(&self) -> Seq<(K, V)> {
        self.pairs@.subrange(self.cur as int, self.pairs@.len() as int)
    }
}

impl<K, V> IntoIter<K, V> {
    /// Well-formed: the cursor lies inside the pairs.
    pub closed spec fn wf(&self) -> bool {
        self.cur <= self.pairs@.len()
    }
}

impl<K: Copy, V: Copy> IntoIter<K, V> {
    /// Takes the next pair from the front.
    pub fn next(&mut self) -> (r: Option<(K, V)>)
        requires
            old(self).wf(),
        ensures
            final(self).wf(),
            old(self)@.len() == 0 ==> r is None && final(self)@ == old(self)@,
            old(self)@.len() > 0 ==> r == Some(old(self)@[0]) && final(self)@ == old(self)@.drop_first(),
    {
        if self.cur < self.pairs.len() {
            let r = self.pairs[self.cur];
            self.cur = self.cur + 1;
            proof {
                assert(self@ =~= old(self)@.drop_first());
            }
            Some(r)
        } else {
            None
        }
    }

    /// Takes the next pair from the back.
    pub fn next_back(&mut self) -> (r: Option<(K, V)>)
        requires
            old(self).wf(),
        ensures
            final(self).wf(),
            old(self)@.len() == 0 ==> r is None && final(self)@ == old(self)@,
            old(self)@.len() > 0 ==> r == Some(old(self)@.last()) && final(self)@ == old(self)@.drop_last(),
    {
        if self.cur < self.pairs.len() {
            let r = self.pairs.pop();
            proof {
                assert(self@ =~= old(self)@.drop_last());
            }
            r
        } else {
            None
        }
    }
}

} // verus!
