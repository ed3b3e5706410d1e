//! A histogram of the single symbols of a sequence.

use crate::counts::Counts;
use vstd::prelude::*;
use vstd::std_specs::iter::IteratorSpec;

verus! {

broadcast use {
    vstd::utf8::char_is_scalar,
    vstd::utf8::char_u32_cast,
    vstd::string::axiom_spec_iter,
    vstd::string::next_postcondition,
};

/// The key of a character in a table: its code point.
pub open spec fn symbol_key(c: char) -> u64 {
    (c as u32) as u64
}

/// Number of positions below `n` of `s` that hold the character `c`.
pub open spec fn symbol_hits(s: Seq<char>, c: char, n: nat) -> nat
    decreases n,
{
    if n == 0 {
        0
    } else {
        symbol_hits(s, c, (n - 1) as nat) + if s[n - 1] == c {
            1nat
        } else {
            0nat
        }
    }
}

pub proof fn lemma_symbol_hits_bound(s: Seq<char>, c: char, n: nat)
    ensures
        symbol_hits(s, c, n) <= n,
    decreases n,
{
    if n > 0 {
        lemma_symbol_hits_bound(s, c, (n - 1) as nat);
    }
}

/// Distinct characters have distinct keys.
pub proof fn lemma_symbol_key_distinct(c: char, d: char)
    ensures
        c != d ==> symbol_key(c) != symbol_key(d),
{
    assert(vstd::utf8::is_scalar(c as u32));
}

/// The code point of `c`.
pub fn symbol_key_of(c: char) -> (r: u64)
    ensures
        r == symbol_key(c),
{
    c as u32 as u64
}

/// Counts every character of `input`, keyed by its code point; `incr` is not
/// used.
pub fn calculate(input: String, incr: u32) -> (r: Counts)
    requires
        input@.len() <= u32::MAX,
    ensures
        r.wf(),
        forall|c: char| #[trigger] r.count(symbol_key(c)) == symbol_hits(input@, c, input@.len()),
        r.total() == input@.len(),
{
    let text = input.as_str();
    let mut chars = text.chars();
    let mut counts = Counts::new();
    let mut i: usize = 0;
    loop
        invariant
            counts.wf(),
            text@ == input@,
            input@.len() <= u32::MAX,
            i <= input@.len(),
            chars.obeys_prophetic_iter_laws(),
            chars.remaining() == input@.subrange(i as int, input@.len() as int),
            counts.total() == i,
            forall|c: char| #[trigger] counts.count(symbol_key(c)) == symbol_hits(input@, c, i as nat),
        ensures
            i == input@.len(),
            counts.wf(),
            counts.total() == i,
            forall|c: char| #[trigger] counts.count(symbol_key(c)) == symbol_hits(input@, c, i as nat),
        decreases input@.len() - i,
    {
        match chars.next() {
            Some(ch) => {
                proof {
                    assert(ch == input@[i as int]);
                    lemma_symbol_hits_bound(input@, ch, i as nat);
                }
                counts.add(symbol_key_of(ch), 1);
                proof {
                    assert(chars.remaining() =~= input@.subrange(i + 1, input@.len() as int));
                    assert forall|c: char| #[trigger] counts.count(symbol_key(c)) == symbol_hits(input@, c, (i + 1) as nat) by {
                        lemma_symbol_key_distinct(c, ch);
                    }
                }
                i = i + 1;
            },
            None => {
                break;
            },
        }
    }
    counts
}

} // verus!
