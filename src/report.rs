//! What the reports compute: the literal lookup and the rows of the
//! frequency table.

use crate::counts::{class_count, has_key, occurrences, parallel_calculate, windows, Counts};
use crate::kmer::{decode, encode, lemma_decode_encode, lemma_encode_bound, T, MAX_KMER};
use vstd::prelude::*;
use vstd::string::StringSliceAdditionalSpecFns;

verus! {

/// Number of interleaved scans that a count is split into.
pub const WORKERS: usize = 4;

/// Number of windows of `tsize` symbols in `input`; zero where `input` is
/// shorter than `tsize`.
pub fn window_total(input: &str, tsize: usize) -> (r: usize)
    requires
        tsize >= 1,
    ensures
        r == windows(input.spec_bytes().len(), tsize as nat),
{
    let len = input.as_bytes().len();
    if tsize <= len {
        len - tsize + 1
    } else {
        0
    }
}

/// The number of occurrences in `input` of the literal `tstr`, windows
/// overlapping allowed.
pub fn count_literal(input: &str, tstr: &str) -> (r: u32)
    requires
        1 <= tstr.spec_bytes().len() <= MAX_KMER,
        input.spec_bytes().len() <= u32::MAX,
    ensures
        r as nat == occurrences(
            input.spec_bytes(),
            tstr.spec_bytes().len(),
            encode(tstr.spec_bytes()),
        ),
{
    let size = tstr.as_bytes().len();
    let counts = parallel_calculate(input, size, WORKERS);
    let key = T::new(tstr);
    counts.get(key.data)
}

/// A class that counts anything holds a position that satisfies `f`.
pub proof fn lemma_counted_witness(f: spec_fn(int) -> bool, stride: nat, r: nat, n: nat)
    requires
        class_count(f, stride, r, n) > 0,
    ensures
        exists|p: int| 0 <= p < n && #[trigger] f(p),
    decreases n,
{
    if !f(n - 1) || ((n - 1) as int) % (stride as int) != r {
        lemma_counted_witness(f, stride, r, (n - 1) as nat);
    }
}

/// A k-mer of the frequency table, written out as text and looked up as a
/// literal, has the count that the table gives it.
pub proof fn lemma_lookup_consistent(s: Seq<u8>, k: nat, key: nat)
    requires
        occurrences(s, k, key) > 0,
    ensures
        decode(key, k).len() == k,
        occurrences(s, decode(key, k).len(), encode(decode(key, k))) == occurrences(s, k, key),
{
    lemma_counted_witness(has_key(s, k, key), 1, 0, windows(s.len(), k));
    let p = choose|p: int| 0 <= p < windows(s.len(), k) && #[trigger] has_key(s, k, key)(p);
    lemma_encode_bound(s.subrange(p, p + k));
    lemma_decode_encode(key, k);
}

/// Sum of the counts of `rows`.
pub open spec fn row_sum(rows: Seq<(u64, u32)>) -> nat
    decreases rows.len(),
{
    if rows.len() == 0 {
        0
    } else {
        row_sum(rows.drop_last()) + rows.last().1 as nat
    }
}

pub proof fn lemma_row_sum_insert(rows: Seq<(u64, u32)>, pos: int, x: (u64, u32))
    requires
        0 <= pos <= rows.len(),
    ensures
        row_sum(rows.insert(pos, x)) == row_sum(rows) + x.1,
    decreases rows.len(),
{
    if pos < rows.len() {
        assert(rows.insert(pos, x).drop_last() =~= rows.drop_last().insert(pos, x));
        lemma_row_sum_insert(rows.drop_last(), pos, x);
    } else {
        assert(rows.insert(pos, x).drop_last() =~= rows);
    }
}

/// The pairs `(key, count)` of `counts`, each key once, by count descending.
pub fn frequency_rows(counts: &Counts) -> (r: Vec<(u64, u32)>)
    requires
        counts.wf(),
    ensures
        r@.len() == counts.key_seq().len(),
        forall|j: int| 0 <= j < r@.len() ==> #[trigger] r@[j].1 as nat == counts.count(r@[j].0),
        forall|a: int, b: int| 0 <= a < b < r@.len() ==> r@[a].1 >= r@[b].1,
        forall|a: int, b: int| 0 <= a < b < r@.len() ==> r@[a].0 != r@[b].0,
        forall|x: u64| #[trigger] counts.key_seq().contains(x) <==> exists|j: int| 0 <= j < r@.len() && r@[j].0 == x,
        row_sum(r@) == counts.total(),
{
    let n = counts.len();
    let mut rows: Vec<(u64, u32)> = Vec::new();
    let mut i: usize = 0;
    proof {
        counts.lemma_prefix_total_ends();
    }
    while i < n
        invariant
            counts.wf(),
            n == counts.key_seq().len(),
            i <= n,
            rows@.len() == i,
            row_sum(rows@) == counts.prefix_total(i as int),
            forall|j: int| 0 <= j < rows@.len() ==> #[trigger] rows@[j].1 as nat == counts.count(rows@[j].0),
            forall|a: int, b: int| 0 <= a < b < rows@.len() ==> rows@[a].1 >= rows@[b].1,
            forall|a: int, b: int| 0 <= a < b < rows@.len() ==> rows@[a].0 != rows@[b].0,
            forall|x: u64| #[trigger] counts.key_seq().subrange(0, i as int).contains(x) <==> exists|j: int| 0 <= j < rows@.len() && rows@[j].0 == x,
        decreases n - i,
    {
        let key = counts.key_at(i);
        let c = counts.get(key);
        let mut pos: usize = 0;
        while pos < rows.len() && rows[pos].1 >= c
            invariant
                pos <= rows@.len(),
                forall|j: int| 0 <= j < pos ==> rows@[j].1 >= c,
            decreases rows@.len() - pos,
        {
            pos = pos + 1;
        }
        let ghost before = rows@;
        let ghost prefix = counts.key_seq().subrange(0, i as int);
        let ghost next = counts.key_seq().subrange(0, i + 1);
        proof {
            assert(!prefix.contains(key)) by {
                if prefix.contains(key) {
                    let j = choose|j: int| 0 <= j < prefix.len() && #[trigger] prefix[j] == key;
                    assert(counts.key_seq()[j] == counts.key_seq()[i as int]);
                    counts.lemma_keys_distinct();
                }
            }
        }
        rows.insert(pos, (key, c));
        proof {
            lemma_row_sum_insert(before, pos as int, (key, c));
            counts.lemma_prefix_total(i as int);
            assert forall|j: int| 0 <= j < rows@.len() implies #[trigger] rows@[j].1 as nat == counts.count(rows@[j].0) by {
                if j < pos {
                    assert(rows@[j] == before[j]);
                } else if j > pos {
                    assert(rows@[j] == before[j - 1]);
                }
            }
            assert forall|a: int, b: int| 0 <= a < b < rows@.len() implies rows@[a].1 >= rows@[b].1 by {
                if b < pos {
                    assert(rows@[a] == before[a] && rows@[b] == before[b]);
                } else if b == pos {
                    assert(rows@[a] == before[a]);
                } else if a < pos {
                    assert(rows@[a] == before[a] && rows@[b] == before[b - 1]);
                } else if a == pos {
                    assert(rows@[b] == before[b - 1]);
                    if pos < before.len() {
                        assert(before[pos as int].1 < c);
                    }
                } else {
                    assert(rows@[a] == before[a - 1] && rows@[b] == before[b - 1]);
                }
            }
            assert forall|a: int, b: int| 0 <= a < b < rows@.len() implies rows@[a].0 != rows@[b].0 by {
                if b < pos {
                    assert(rows@[a] == before[a] && rows@[b] == before[b]);
                } else if b == pos {
                    assert(rows@[a] == before[a]);
                    assert(prefix.contains(before[a].0));
                } else if a < pos {
                    assert(rows@[a] == before[a] && rows@[b] == before[b - 1]);
                } else if a == pos {
                    assert(rows@[b] == before[b - 1]);
                    assert(prefix.contains(before[b - 1].0));
                } else {
                    assert(rows@[a] == before[a - 1] && rows@[b] == before[b - 1]);
                }
            }
            assert forall|x: u64| #[trigger] next.contains(x) <==> exists|j: int| 0 <= j < rows@.len() && rows@[j].0 == x by {
                if next.contains(x) {
                    let j = choose|j: int| 0 <= j < next.len() && #[trigger] next[j] == x;
                    if j < i {
                        assert(prefix[j] == x);
                        assert(prefix.contains(x));
                        let q = choose|q: int| 0 <= q < before.len() && before[q].0 == x;
                        if q < pos {
                            assert(rows@[q] == before[q]);
                        } else {
                            assert(rows@[q + 1] == before[q]);
                        }
                    } else {
                        assert(rows@[pos as int].0 == x);
                    }
                }
                if exists|j: int| 0 <= j < rows@.len() && rows@[j].0 == x {
                    let j = choose|j: int| 0 <= j < rows@.len() && rows@[j].0 == x;
                    if j == pos {
                        assert(next[i as int] == x);
                    } else {
                        let q = if j < pos { j } else { j - 1 };
                        assert(before[q].0 == x);
                        assert(prefix.contains(x));
                        let t = choose|t: int| 0 <= t < prefix.len() && #[trigger] prefix[t] == x;
                        assert(next[t] == x);
                    }
                }
            }
        }
        i = i + 1;
    }
    proof {
        assert(counts.key_seq().subrange(0, n as int) =~= counts.key_seq());
        counts.lemma_prefix_total_ends();
    }
    rows
}


/// The frequency table of the k-mers of `input` of length `tsize`: its rows
/// `(key, count)` by count descending, and the number of windows that the
/// percentages are taken of. The counts of the rows add up to that number, so
/// the percentages add up to one hundred whenever there is a window at all.
pub fn frequency_table(input: &str, tsize: usize) -> (r: (Vec<(u64, u32)>, usize))
    requires
        1 <= tsize <= MAX_KMER,
        input.spec_bytes().len() <= u32::MAX,
    ensures
        r.1 == windows(input.spec_bytes().len(), tsize as nat),
        row_sum(r.0@) == r.1,
        forall|j: int| 0 <= j < r.0@.len() ==> #[trigger] r.0@[j].1 as nat == occurrences(input.spec_bytes(), tsize as nat, r.0@[j].0 as nat),
        forall|j: int| 0 <= j < r.0@.len() ==> #[trigger] r.0@[j].1 > 0,
        forall|a: int, b: int| 0 <= a < b < r.0@.len() ==> r.0@[a].1 >= r.0@[b].1,
        forall|a: int, b: int| 0 <= a < b < r.0@.len() ==> r.0@[a].0 != r.0@[b].0,
        forall|key: u64| #[trigger] occurrences(input.spec_bytes(), tsize as nat, key as nat) > 0 ==> exists|j: int| 0 <= j < r.0@.len() && r.0@[j].0 == key,
{
    let sum = window_total(input, tsize);
    let counts = parallel_calculate(input, tsize, WORKERS);
    let rows = frequency_rows(&counts);
    proof {
        assert forall|j: int| 0 <= j < rows@.len() implies #[trigger] rows@[j].1 > 0 by {
            assert(exists|q: int| 0 <= q < rows@.len() && rows@[q].0 == rows@[j].0);
            assert(counts.key_seq().contains(rows@[j].0));
            counts.lemma_present_positive(rows@[j].0);
        }
        assert forall|key: u64| #[trigger] occurrences(input.spec_bytes(), tsize as nat, key as nat) > 0 implies exists|j: int| 0 <= j < rows@.len() && rows@[j].0 == key by {
            assert(counts.count(key) == occurrences(input.spec_bytes(), tsize as nat, key as nat));
            counts.lemma_counted_present(key);
            assert(counts.key_seq().contains(key));
            let j = choose|j: int| 0 <= j < rows@.len() && rows@[j].0 == key;
            assert(0 <= j < rows@.len() && rows@[j].0 == key);
        }
    }
    (rows, sum)
}

} // verus!
