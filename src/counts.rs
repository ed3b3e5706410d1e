//! Scanning a sequence for k-mers and merging the per-worker count tables.

use crate::kmer::{encode, encode_window, MAX_KMER};
use std::collections::HashMap;
use vstd::prelude::*;
use vstd::string::StringSliceAdditionalSpecFns;

verus! {

broadcast use vstd::std_specs::hash::group_hash_axioms;

/// Number of windows of length `k` in a sequence of length `len`.
pub open spec fn windows(len: nat, k: nat) -> nat {
    if k <= len {
        (len - k + 1) as nat
    } else {
        0
    }
}

/// The key of the window of length `k` that starts at `p`.
pub open spec fn window_key(s: Seq<u8>, k: nat, p: int) -> nat {
    encode(s.subrange(p, p + k))
}

/// Number of positions `p < n` with `p % stride == r` that satisfy `f`.
pub open spec fn class_count(f: spec_fn(int) -> bool, stride: nat, r: nat, n: nat) -> nat
    decreases n,
{
    if n == 0 {
        0
    } else {
        class_count(f, stride, r, (n - 1) as nat) + if ((n - 1) as int) % (stride as int) == r && f(
            n - 1,
        ) {
            1nat
        } else {
            0nat
        }
    }
}

/// Sum of `class_count` over the residue classes `0 .. c`.
pub open spec fn class_sum(f: spec_fn(int) -> bool, stride: nat, c: nat, n: nat) -> nat
    decreases c,
{
    if c == 0 {
        0
    } else {
        class_sum(f, stride, (c - 1) as nat, n) + class_count(f, stride, (c - 1) as nat, n)
    }
}

/// The positions whose window of length `k` has key `key`.
pub open spec fn has_key(s: Seq<u8>, k: nat, key: nat) -> spec_fn(int) -> bool {
    |p: int| window_key(s, k, p) == key
}

/// Every position.
pub open spec fn anywhere() -> spec_fn(int) -> bool {
    |p: int| true
}

/// Number of positions `p < n` with `p % stride == r` whose window of length
/// `k` has key `key`.
pub open spec fn hits(s: Seq<u8>, k: nat, key: nat, stride: nat, r: nat, n: nat) -> nat {
    class_count(has_key(s, k, key), stride, r, n)
}

/// Number of positions `p < n` with `p % stride == r`.
pub open spec fn positions(stride: nat, r: nat, n: nat) -> nat {
    class_count(anywhere(), stride, r, n)
}

/// Occurrences of `key` among the windows that a scan from `begin` with step
/// `stride` examines.
pub open spec fn tally(s: Seq<u8>, k: nat, begin: nat, stride: nat, key: nat) -> nat {
    hits(s, k, key, stride, begin, windows(s.len(), k))
}

/// Occurrences of `key` among all windows of length `k`.
pub open spec fn occurrences(s: Seq<u8>, k: nat, key: nat) -> nat {
    tally(s, k, 0, 1, key)
}

/// True where the scan from `begin` with step `stride` over `n` windows
/// examines position `p`.
pub open spec fn scanned(begin: nat, stride: nat, n: nat, p: int) -> bool {
    0 <= p < n && p % (stride as int) == begin
}

/// The offset of the scan that examines position `p`.
pub open spec fn worker_of(p: int, workers: nat) -> nat {
    (p % (workers as int)) as nat
}

/// The scans from the offsets `0 .. workers`, each with step `workers`,
/// together examine every window position exactly once and nothing else.
pub proof fn lemma_partition(workers: nat, n: nat)
    requires
        workers >= 1,
    ensures
        forall|p: int|
            0 <= p < n ==> #[trigger] worker_of(p, workers) < workers && scanned(
                worker_of(p, workers),
                workers,
                n,
                p,
            ),
        forall|w1: nat, w2: nat, p: int|
            scanned(w1, workers, n, p) && scanned(w2, workers, n, p) ==> w1 == w2,
        forall|w: nat, p: int| #[trigger] scanned(w, workers, n, p) ==> 0 <= p < n && w < workers,
{
    assert forall|p: int| 0 <= p < n implies #[trigger] worker_of(p, workers) < workers && scanned(
        worker_of(p, workers),
        workers,
        n,
        p,
    ) by {
        vstd::arithmetic::div_mod::lemma_mod_bound(p, workers as int);
    }
    assert forall|w: nat, p: int| #[trigger] scanned(w, workers, n, p) implies 0 <= p < n && w < workers by {
        vstd::arithmetic::div_mod::lemma_mod_bound(p, workers as int);
    }
}

pub proof fn lemma_class_count_bound(f: spec_fn(int) -> bool, stride: nat, r: nat, n: nat)
    ensures
        class_count(f, stride, r, n) <= n,
    decreases n,
{
    if n > 0 {
        lemma_class_count_bound(f, stride, r, (n - 1) as nat);
    }
}

/// No position below `r` lies in the class `r`.
pub proof fn lemma_class_count_below(f: spec_fn(int) -> bool, stride: nat, r: nat, n: nat)
    requires
        n <= r < stride,
    ensures
        class_count(f, stride, r, n) == 0,
    decreases n,
{
    if n > 0 {
        lemma_class_count_below(f, stride, r, (n - 1) as nat);
        vstd::arithmetic::div_mod::lemma_small_mod((n - 1) as nat, stride);
    }
}

/// Two distinct members of one residue class lie at least `stride` apart.
pub proof fn lemma_class_apart(stride: int, r: int, i: int, p: int)
    requires
        stride >= 1,
        0 <= i < p,
        i % stride == r,
        p % stride == r,
    ensures
        p >= i + stride,
{
    vstd::arithmetic::div_mod::lemma_fundamental_div_mod(i, stride);
    vstd::arithmetic::div_mod::lemma_fundamental_div_mod(p, stride);
    let q1 = i / stride;
    let q2 = p / stride;
    assert(p - i == (q2 - q1) * stride) by (nonlinear_arith)
        requires
            i == stride * q1 + r,
            p == stride * q2 + r,
    ;
    assert(p - i >= stride) by (nonlinear_arith)
        requires
            p - i == (q2 - q1) * stride,
            p - i > 0,
            stride >= 1,
    ;
}

/// Between two members of one class no position counts.
pub proof fn lemma_class_count_gap(f: spec_fn(int) -> bool, stride: nat, r: nat, i: nat, m: nat)
    requires
        stride >= 1,
        (i as int) % (stride as int) == r,
        i < m <= i + stride,
    ensures
        class_count(f, stride, r, m) == class_count(f, stride, r, i + 1),
    decreases m,
{
    if m > i + 1 {
        lemma_class_count_gap(f, stride, r, i, (m - 1) as nat);
        if ((m - 1) as int) % (stride as int) == r {
            lemma_class_apart(stride as int, r as int, i as int, m - 1);
        }
    }
}

/// One more position adds one to the sum of the classes below `c` exactly
/// where it lies in one of them and satisfies `f`.
pub proof fn lemma_class_sum_step(f: spec_fn(int) -> bool, stride: nat, c: nat, n: nat)
    requires
        stride >= 1,
        n >= 1,
    ensures
        class_sum(f, stride, c, n) == class_sum(f, stride, c, (n - 1) as nat)
            + if ((n - 1) as int) % (stride as int) < c && f(n - 1) {
            1nat
        } else {
            0nat
        },
    decreases c,
{
    if c > 0 {
        lemma_class_sum_step(f, stride, (c - 1) as nat, n);
    }
}

pub proof fn lemma_class_sum_zero(f: spec_fn(int) -> bool, stride: nat, c: nat)
    ensures
        class_sum(f, stride, c, 0) == 0,
    decreases c,
{
    if c > 0 {
        lemma_class_sum_zero(f, stride, (c - 1) as nat);
    }
}

/// Splitting the positions into `stride` interleaved classes and summing the
/// counts of the classes gives the count of a single scan over every position.
pub proof fn lemma_class_sum_cover(f: spec_fn(int) -> bool, stride: nat, n: nat)
    requires
        stride >= 1,
    ensures
        class_sum(f, stride, stride, n) == class_count(f, 1, 0, n),
    decreases n,
{
    if n == 0 {
        lemma_class_sum_zero(f, stride, stride);
    } else {
        lemma_class_sum_cover(f, stride, (n - 1) as nat);
        lemma_class_sum_step(f, stride, stride, n);
        vstd::arithmetic::div_mod::lemma_mod_bound((n - 1) as int, stride as int);
    }
}

pub proof fn lemma_class_sum_monotone(f: spec_fn(int) -> bool, stride: nat, c: nat, d: nat, n: nat)
    requires
        c <= d,
    ensures
        class_sum(f, stride, c, n) <= class_sum(f, stride, d, n),
    decreases d,
{
    if c < d {
        lemma_class_sum_monotone(f, stride, c, (d - 1) as nat, n);
    }
}

/// A scan with step one examines every one of the `n` positions.
pub proof fn lemma_positions_all(n: nat)
    ensures
        positions(1, 0, n) == n,
    decreases n,
{
    if n > 0 {
        lemma_positions_all((n - 1) as nat);
    }
}

/// Sum of the values that `m` gives the keys `ks`.
pub open spec fn sum_counts(ks: Seq<u64>, m: Map<u64, u32>) -> nat
    decreases ks.len(),
{
    if ks.len() == 0 {
        0
    } else {
        sum_counts(ks.drop_last(), m) + m[ks.last()] as nat
    }
}

/// Changing the value of a key outside `ks` leaves their sum alone.
pub proof fn lemma_sum_other(ks: Seq<u64>, m: Map<u64, u32>, key: u64, v: u32)
    requires
        !ks.contains(key),
    ensures
        sum_counts(ks, m.insert(key, v)) == sum_counts(ks, m),
    decreases ks.len(),
{
    if ks.len() > 0 {
        assert(!ks.drop_last().contains(key)) by {
            if ks.drop_last().contains(key) {
                let j = choose|j: int| 0 <= j < ks.drop_last().len() && #[trigger] ks.drop_last()[j] == key;
                assert(ks[j] == key);
            }
        }
        assert(ks.last() != key) by {
            assert(ks[ks.len() - 1] == ks.last());
        }
        lemma_sum_other(ks.drop_last(), m, key, v);
    }
}

/// Changing the value of one of the distinct keys `ks` changes their sum by
/// the same amount.
pub proof fn lemma_sum_update(ks: Seq<u64>, m: Map<u64, u32>, key: u64, v: u32)
    requires
        ks.no_duplicates(),
        ks.contains(key),
    ensures
        sum_counts(ks, m.insert(key, v)) + m[key] == sum_counts(ks, m) + v,
    decreases ks.len(),
{
    let init = ks.drop_last();
    if ks.last() == key {
        assert(!init.contains(key)) by {
            if init.contains(key) {
                let j = choose|j: int| 0 <= j < init.len() && #[trigger] init[j] == key;
                assert(ks[j] == ks[ks.len() - 1]);
            }
        }
        lemma_sum_other(init, m, key, v);
    } else {
        assert(init.contains(key)) by {
            let j = choose|j: int| 0 <= j < ks.len() && #[trigger] ks[j] == key;
            assert(j != ks.len() - 1);
            assert(init[j] == key);
        }
        assert(init.no_duplicates()) by {
            assert forall|a: int, b: int| 0 <= a < b < init.len() implies init[a] != init[b] by {
                assert(init[a] == ks[a] && init[b] == ks[b]);
            }
        }
        lemma_sum_update(init, m, key, v);
    }
}

/// A table of counts keyed by packed k-mers, with its keys in order of first
/// insertion.
pub struct Counts {
    keys: Vec<u64>,
    map: HashMap<u64, u32>,
}

impl Counts {
    /// The keys present, in order of first insertion.
    pub closed spec fn key_seq(&self) -> Seq<u64> {
        self.keys@
    }

    /// The count of `key`, zero where it is absent.
    pub closed spec fn count(&self, key: u64) -> nat {
        if self.map@.contains_key(key) {
            self.map@[key] as nat
        } else {
            0
        }
    }

    /// Sum of all counts.
    pub closed spec fn total(&self) -> nat {
        sum_counts(self.keys@, self.map@)
    }

    pub closed spec fn wf(&self) -> bool {
        &&& self.keys@.no_duplicates()
        &&& forall|key: u64| #[trigger] self.map@.contains_key(key) <==> self.keys@.contains(key)
        &&& forall|key: u64| #[trigger] self.map@.contains_key(key) ==> self.map@[key] > 0
    }

    /// Sum of the counts of the first `i` keys.
    pub closed spec fn prefix_total(&self, i: int) -> nat {
        sum_counts(self.keys@.subrange(0, i), self.map@)
    }

    pub proof fn lemma_prefix_total(&self, i: int)
        requires
            self.wf(),
            0 <= i < self.key_seq().len(),
        ensures
            self.prefix_total(i + 1) == self.prefix_total(i) + self.count(self.key_seq()[i]),
    {
        assert(self.keys@.subrange(0, i + 1).drop_last() =~= self.keys@.subrange(0, i));
        assert(self.keys@.contains(self.keys@[i]));
    }

    pub proof fn lemma_prefix_total_ends(&self)
        ensures
            self.prefix_total(0) == 0,
            self.prefix_total(self.key_seq().len() as int) == self.total(),
    {
        assert(self.keys@.subrange(0, 0).len() == 0);
        assert(self.keys@.subrange(0, self.keys@.len() as int) =~= self.keys@);
    }

    /// Every key present has a positive count.
    pub proof fn lemma_present_positive(&self, key: u64)
        requires
            self.wf(),
            self.key_seq().contains(key),
        ensures
            self.count(key) > 0,
    {
    }

    /// Every key with a positive count is present.
    pub proof fn lemma_counted_present(&self, key: u64)
        requires
            self.wf(),
            self.count(key) > 0,
        ensures
            self.key_seq().contains(key),
    {
    }

    pub proof fn lemma_keys_distinct(&self)
        requires
            self.wf(),
        ensures
            self.key_seq().no_duplicates(),
    {
    }

    /// An empty table.
    pub fn new() -> (r: Counts)
        ensures
            r.wf(),
            r.key_seq().len() == 0,
            forall|key: u64| r.count(key) == 0,
            r.total() == 0,
    {
        Counts { keys: Vec::new(), map: HashMap::new() }
    }

    /// The count of `key`, zero where it is absent.
    pub fn get(&self, key: u64) -> (r: u32)
        ensures
            r as nat == self.count(key),
    {
        match self.map.get(&key) {
            Some(c) => *c,
            None => 0,
        }
    }

    /// Number of distinct keys.
    pub fn len(&self) -> (r: usize)
        requires
            self.wf(),
        ensures
            r == self.key_seq().len(),
    {
        self.keys.len()
    }

    /// The `i`-th key in order of first insertion.
    pub fn key_at(&self, i: usize) -> (r: u64)
        requires
            i < self.key_seq().len(),
        ensures
            r == self.key_seq()[i as int],
    {
        self.keys[i]
    }

    /// Adds `d` to the count of `key`.
    pub(crate) fn add(&mut self, key: u64, d: u32)
        requires
            old(self).wf(),
            d > 0,
            old(self).count(key) + d <= u32::MAX,
        ensures
            final(self).wf(),
            final(self).count(key) == old(self).count(key) + d,
            final(self).total() == old(self).total() + d,
            forall|other: u64| other != key ==> final(self).count(other) == old(self).count(other),
            old(self).count(key) > 0 ==> final(self).key_seq() == old(self).key_seq(),
            old(self).count(key) == 0 ==> final(self).key_seq() == old(self).key_seq().push(key),
    {
        match self.map.get(&key) {
            Some(c) => {
                let c = *c;
                proof {
                    lemma_sum_update(self.keys@, self.map@, key, (c + d) as u32);
                }
                self.map.insert(key, c + d);
            },
            None => {
                proof {
                    lemma_sum_other(self.keys@, self.map@, key, d);
                }
                self.map.insert(key, d);
                self.keys.push(key);
                proof {
                    assert(self.keys@.drop_last() =~= old(self).keys@);
                    assert(self.keys@.no_duplicates()) by {
                        assert forall|a: int, b: int| 0 <= a < b < self.keys@.len() implies self.keys@[a] != self.keys@[b] by {
                            if b == self.keys@.len() - 1 {
                                assert(old(self).keys@[a] == self.keys@[a]);
                            } else {
                                assert(old(self).keys@[a] == self.keys@[a]);
                                assert(old(self).keys@[b] == self.keys@[b]);
                            }
                        }
                    }
                    assert forall|x: u64| #[trigger] self.keys@.contains(x) <==> self.map@.contains_key(x) by {
                        if x != key {
                            if old(self).keys@.contains(x) {
                                let j = choose|j: int| 0 <= j < old(self).keys@.len() && #[trigger] old(self).keys@[j] == x;
                                assert(self.keys@[j] == x);
                            }
                            if self.keys@.contains(x) {
                                let j = choose|j: int| 0 <= j < self.keys@.len() && #[trigger] self.keys@[j] == x;
                                assert(old(self).keys@[j] == x);
                            }
                        } else {
                            assert(self.keys@[self.keys@.len() - 1] == key);
                        }
                    }
                }
            },
        }
    }

    /// Adds every count of `part` to this table.
    pub fn merge_into(&mut self, part: &Counts)
        requires
            old(self).wf(),
            part.wf(),
            forall|key: u64| old(self).count(key) + part.count(key) <= u32::MAX,
        ensures
            final(self).wf(),
            forall|key: u64| final(self).count(key) == old(self).count(key) + part.count(key),
            final(self).total() == old(self).total() + part.total(),
    {
        let n = part.keys.len();
        let mut i: usize = 0;
        while i < n
            invariant
                self.wf(),
                part.wf(),
                n == part.keys@.len(),
                i <= n,
                self.total() == old(self).total() + sum_counts(part.keys@.subrange(0, i as int), part.map@),
                forall|key: u64| old(self).count(key) + part.count(key) <= u32::MAX,
                forall|key: u64| #[trigger] self.count(key) == old(self).count(key) + if part.keys@.subrange(0, i as int).contains(key) {
                    part.count(key)
                } else {
                    0
                },
            decreases n - i,
        {
            let key = part.keys[i];
            let c = part.get(key);
            proof {
                assert(part.keys@.contains(key));
                assert(!part.keys@.subrange(0, i as int).contains(key)) by {
                    if part.keys@.subrange(0, i as int).contains(key) {
                        let ghost before = part.keys@.subrange(0, i as int);
                        let j = choose|j: int| 0 <= j < before.len() && #[trigger] before[j] == key;
                        assert(part.keys@[j] == part.keys@[i as int]);
                    }
                }
                let ghost before = part.keys@.subrange(0, i as int);
                let ghost after = part.keys@.subrange(0, i + 1);
                assert forall|x: u64| #[trigger] after.contains(x) <==> (before.contains(x) || x == key) by {
                    if after.contains(x) {
                        let j = choose|j: int| 0 <= j < after.len() && #[trigger] after[j] == x;
                        if j < i {
                            assert(before[j] == x);
                        }
                    }
                    if before.contains(x) {
                        let j = choose|j: int| 0 <= j < before.len() && #[trigger] before[j] == x;
                        assert(after[j] == x);
                    }
                    if x == key {
                        assert(after[i as int] == x);
                    }
                }
            }
            proof {
                assert(part.keys@.subrange(0, i + 1).drop_last() =~= part.keys@.subrange(0, i as int));
            }
            self.add(key, c);
            i = i + 1;
        }
        proof {
            assert(part.keys@.subrange(0, n as int) == part.keys@);
            assert forall|key: u64| #[trigger] self.count(key) == old(self).count(key) + part.count(key) by {
                if !part.keys@.contains(key) {
                    assert(!part.map@.contains_key(key));
                }
            }
        }
    }
}


/// Counts the k-mers of `input` at the positions `begin, begin + incr, ...`
/// whose window of `tsize` symbols lies inside the sequence.
pub fn calculate(input: &str, tsize: usize, begin: usize, incr: usize) -> (r: Counts)
    requires
        1 <= tsize <= MAX_KMER,
        begin < incr,
        input.spec_bytes().len() <= u32::MAX,
    ensures
        r.wf(),
        forall|key: u64| #[trigger] r.count(key) == tally(input.spec_bytes(), tsize as nat, begin as nat, incr as nat, key as nat),
        r.total() == positions(incr as nat, begin as nat, windows(input.spec_bytes().len(), tsize as nat)),
        incr == 1 ==> r.total() == windows(input.spec_bytes().len(), tsize as nat),
{
    let bytes = input.as_bytes();
    let ghost s = bytes@;
    let len = bytes.len();
    let w: usize = if tsize <= len { len - tsize + 1 } else { 0 };
    let mut counts = Counts::new();
    let mut i: usize = begin;
    proof {
        assert forall|key: u64| #[trigger] counts.count(key) == hits(s, tsize as nat, key as nat, incr as nat, begin as nat, i as nat) by {
            lemma_class_count_below(has_key(s, tsize as nat, key as nat), incr as nat, begin as nat, i as nat);
        }
        vstd::arithmetic::div_mod::lemma_small_mod(begin as nat, incr as nat);
        lemma_class_count_below(anywhere(), incr as nat, begin as nat, begin as nat);
    }
    while i < w
        invariant
            counts.wf(),
            s == bytes@,
            len == s.len(),
            len <= u32::MAX,
            1 <= tsize <= MAX_KMER,
            begin < incr,
            w == windows(len as nat, tsize as nat),
            i < w ==> (i as int) % (incr as int) == begin,
            begin < w ==> i <= w,
            begin >= w ==> i == begin,
            counts.total() == positions(incr as nat, begin as nat, i as nat),
            forall|key: u64| #[trigger] counts.count(key) == hits(s, tsize as nat, key as nat, incr as nat, begin as nat, i as nat),
        decreases w - i,
    {
        let key = encode_window(bytes, i, tsize);
        proof {
            lemma_class_count_bound(has_key(s, tsize as nat, key as nat), incr as nat, begin as nat, i as nat);
        }
        counts.add(key, 1);
        let next: usize = if w - i > incr { i + incr } else { w };
        proof {
            assert forall|x: u64| #[trigger] counts.count(x) == hits(s, tsize as nat, x as nat, incr as nat, begin as nat, next as nat) by {
                lemma_class_count_gap(has_key(s, tsize as nat, x as nat), incr as nat, begin as nat, i as nat, next as nat);
                assert(window_key(s, tsize as nat, i as int) == key as nat);
            }
            lemma_class_count_gap(anywhere(), incr as nat, begin as nat, i as nat, next as nat);
            if next < w {
                vstd::arithmetic::div_mod::lemma_mod_add_multiples_vanish(i as int, incr as int);
            }
        }
        i = next;
    }
    proof {
        if begin >= w {
            assert forall|key: u64| #[trigger] counts.count(key) == tally(s, tsize as nat, begin as nat, incr as nat, key as nat) by {
                lemma_class_count_below(has_key(s, tsize as nat, key as nat), incr as nat, begin as nat, w as nat);
                lemma_class_count_below(has_key(s, tsize as nat, key as nat), incr as nat, begin as nat, begin as nat);
            }
            lemma_class_count_below(anywhere(), incr as nat, begin as nat, w as nat);
        }
        if incr == 1 {
            lemma_positions_all(w as nat);
        }
    }
    counts
}

/// Counts the k-mers of `input` as `workers` interleaved scans, one for each
/// offset below `workers`, and adds their tables together.
pub fn parallel_calculate(input: &str, tsize: usize, workers: usize) -> (r: Counts)
    requires
        1 <= tsize <= MAX_KMER,
        workers >= 1,
        input.spec_bytes().len() <= u32::MAX,
    ensures
        r.wf(),
        forall|key: u64| #[trigger] r.count(key) == occurrences(input.spec_bytes(), tsize as nat, key as nat),
        r.total() == windows(input.spec_bytes().len(), tsize as nat),
{
    let ghost s = input.spec_bytes();
    let ghost n = windows(s.len(), tsize as nat);
    let mut combined = Counts::new();
    let mut w: usize = 0;
    proof {
        assert forall|key: u64| #[trigger] combined.count(key) == class_sum(has_key(s, tsize as nat, key as nat), workers as nat, w as nat, n) by {}
    }
    while w < workers
        invariant
            combined.wf(),
            s == input.spec_bytes(),
            n == windows(s.len(), tsize as nat),
            s.len() <= u32::MAX,
            1 <= tsize <= MAX_KMER,
            w <= workers,
            combined.total() == class_sum(anywhere(), workers as nat, w as nat, n),
            forall|key: u64| #[trigger] combined.count(key) == class_sum(has_key(s, tsize as nat, key as nat), workers as nat, w as nat, n),
        decreases workers - w,
    {
        let part = calculate(input, tsize, w, workers);
        proof {
            assert forall|key: u64| combined.count(key) + part.count(key) <= u32::MAX by {
                let kk = key as nat;
                lemma_class_sum_monotone(has_key(s, tsize as nat, kk), workers as nat, (w + 1) as nat, workers as nat, n);
                lemma_class_sum_cover(has_key(s, tsize as nat, kk), workers as nat, n);
                lemma_class_count_bound(has_key(s, tsize as nat, kk), 1, 0, n);
                assert(part.count(key) == hits(s, tsize as nat, kk, workers as nat, w as nat, n));
            }
        }
        combined.merge_into(&part);
        w = w + 1;
    }
    proof {
        assert forall|key: u64| #[trigger] combined.count(key) == occurrences(s, tsize as nat, key as nat) by {
            lemma_class_sum_cover(has_key(s, tsize as nat, key as nat), workers as nat, n);
        }
        lemma_class_sum_cover(anywhere(), workers as nat, n);
        lemma_positions_all(n);
    }
    combined
}

} // verus!
