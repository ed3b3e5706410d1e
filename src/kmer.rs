//! Two-bit alphabet codec and the packed integer key of a k-mer.

use vstd::prelude::*;
use vstd::string::{StringExecFns, StringSliceAdditionalSpecFns};

verus! {

/// The byte of the nucleotide `A`.
pub const BASE_A: u8 = 65;

/// The byte of the nucleotide `C`.
pub const BASE_C: u8 = 67;

/// The byte of the nucleotide `G`.
pub const BASE_G: u8 = 71;

/// The byte of the nucleotide `T`.
pub const BASE_T: u8 = 84;

/// Largest number of symbols that a 64-bit key can hold.
pub const MAX_KMER: usize = 32;

/// The two-bit code of a symbol: `A` 0, `C` 1, `T` 2, `G` 3; any other byte 0.
pub open spec fn code_of(b: u8) -> nat {
    if b == BASE_C {
        1
    } else if b == BASE_T {
        2
    } else if b == BASE_G {
        3
    } else {
        0
    }
}

/// The symbol that a two-bit code stands for.
pub open spec fn symbol_of(c: nat) -> u8 {
    if c == 0 {
        BASE_A
    } else if c == 1 {
        BASE_C
    } else if c == 2 {
        BASE_T
    } else {
        BASE_G
    }
}

/// One of the four recognised upper-case nucleotides.
pub open spec fn is_base(b: u8) -> bool {
    b == BASE_A || b == BASE_C || b == BASE_G || b == BASE_T
}

pub open spec fn all_bases(s: Seq<u8>) -> bool {
    forall|i: int| 0 <= i < s.len() ==> is_base(#[trigger] s[i])
}

pub open spec fn pow4(n: nat) -> nat
    decreases n,
{
    if n == 0 {
        1
    } else {
        4 * pow4((n - 1) as nat)
    }
}

/// The packed value of a symbol string: two bits per symbol, the first
/// symbol in the most significant position.
pub open spec fn encode(s: Seq<u8>) -> nat
    decreases s.len(),
{
    if s.len() == 0 {
        0
    } else {
        encode(s.drop_last()) * 4 + code_of(s.last())
    }
}

/// The `j`-th two-bit field of `d`, counted from the least significant end.
pub open spec fn field(d: nat, j: nat) -> nat {
    (d / pow4(j)) % 4
}

/// The `n` symbols that the low `2 * n` bits of `d` hold, first symbol from
/// the most significant field.
pub open spec fn decode(d: nat, n: nat) -> Seq<u8> {
    Seq::new(n, |i: int| symbol_of(field(d, (n - 1 - i) as nat)))
}

pub proof fn lemma_pow4_positive(n: nat)
    ensures
        pow4(n) >= 1,
    decreases n,
{
    if n > 0 {
        lemma_pow4_positive((n - 1) as nat);
    }
}

pub proof fn lemma_pow4_monotone(a: nat, b: nat)
    requires
        a <= b,
    ensures
        pow4(a) <= pow4(b),
    decreases b,
{
    if a < b {
        lemma_pow4_monotone(a, (b - 1) as nat);
        lemma_pow4_positive((b - 1) as nat);
    }
}

pub proof fn lemma_pow4_max()
    ensures
        pow4(MAX_KMER as nat) == 0x1_0000_0000_0000_0000,
{
    reveal_with_fuel(pow4, 33);
}

/// A packed string of `n` symbols stays below `4^n`.
pub proof fn lemma_encode_bound(s: Seq<u8>)
    ensures
        encode(s) < pow4(s.len()),
    decreases s.len(),
{
    if s.len() > 0 {
        lemma_encode_bound(s.drop_last());
    }
}


/// Decoding the packed value of a string of symbols gives the string back.
pub proof fn lemma_round_trip(s: Seq<u8>)
    requires
        all_bases(s),
    ensures
        decode(encode(s), s.len()) == s,
    decreases s.len(),
{
    if s.len() > 0 {
        let init = s.drop_last();
        assert(all_bases(init)) by {
            assert forall|i: int| 0 <= i < init.len() implies is_base(#[trigger] init[i]) by {
                assert(init[i] == s[i]);
            }
        }
        lemma_round_trip(init);
        let n = s.len();
        let e = encode(s);
        let a = encode(init);
        let c = code_of(s.last());
        assert(e == a * 4 + c);
        assert forall|i: int| 0 <= i < n implies #[trigger] decode(e, n)[i] == s[i] by {
            let j = (n - 1 - i) as nat;
            if j == 0 {
                assert(pow4(0) == 1);
                assert((a * 4 + c) % 4 == c) by (nonlinear_arith) requires c < 4;
            } else {
                lemma_field_shift(a, c, (j - 1) as nat);
                assert(decode(a, init.len())[i] == init[i]);
            }
        }
        assert(decode(e, n) =~= s);
    }
}

/// Prepending the field `c` shifts every other field up by one place.
pub proof fn lemma_field_shift(a: nat, c: nat, j: nat)
    requires
        c < 4,
    ensures
        field(a * 4 + c, j + 1) == field(a, j),
{
    let p = pow4(j);
    lemma_pow4_positive(j);
    assert(pow4(j + 1) == 4 * p);
    assert((a * 4 + c) / (4 * p) == a / p) by {
        assert((a * 4 + c) / 4 == a) by (nonlinear_arith) requires c < 4;
        vstd::arithmetic::div_mod::lemma_div_denominator((a * 4 + c) as int, 4, p as int);
    }
}

/// Packing the symbols that a value below `4^n` stands for gives the value
/// back.
pub proof fn lemma_decode_encode(d: nat, n: nat)
    requires
        d < pow4(n),
    ensures
        encode(decode(d, n)) == d,
    decreases n,
{
    if n == 0 {
        assert(d == 0);
    } else {
        let m = (n - 1) as nat;
        let q = d / 4;
        let c = d % 4;
        vstd::arithmetic::div_mod::lemma_fundamental_div_mod(d as int, 4);
        assert(d == q * 4 + c && c < 4);
        assert(q < pow4(m)) by (nonlinear_arith)
            requires
                d < 4 * pow4(m),
                d == q * 4 + c,
                c < 4,
        ;
        lemma_decode_encode(q, m);
        assert forall|i: int| 0 <= i < m implies #[trigger] decode(d, n).drop_last()[i] == decode(q, m)[i] by {
            lemma_field_shift(q, c, (m - 1 - i) as nat);
            assert((n - 1 - i) as nat == ((m - 1 - i) as nat) + 1);
        }
        assert(decode(d, n).drop_last() =~= decode(q, m));
        assert(pow4(0) == 1);
        assert(field(d, 0) == c);
        assert(code_of(symbol_of(c)) == c);
    }
}

/// The two-bit code of a byte, as a lookup on the four recognised symbols.
pub fn to_num(b: u8) -> (r: u8)
    ensures
        r as nat == code_of(b),
{
    if b == BASE_C {
        1
    } else if b == BASE_T {
        2
    } else if b == BASE_G {
        3
    } else {
        0
    }
}

/// The symbol of a two-bit code.
pub fn to_char(c: u64) -> (r: u8)
    requires
        c < 4,
    ensures
        r == symbol_of(c as nat),
{
    if c == 0 {
        BASE_A
    } else if c == 1 {
        BASE_C
    } else if c == 2 {
        BASE_T
    } else {
        BASE_G
    }
}

/// The text of a single symbol.
fn symbol_text(b: u8) -> (r: &'static str)
    requires
        is_base(b),
    ensures
        r@ == seq![b as char],
{
    if b == BASE_A {
        proof {
            reveal_strlit("A");
        }
        "A"
    } else if b == BASE_C {
        proof {
            reveal_strlit("C");
        }
        "C"
    } else if b == BASE_G {
        proof {
            reveal_strlit("G");
        }
        "G"
    } else {
        proof {
            reveal_strlit("T");
        }
        "T"
    }
}

/// Packs the `len` symbols of `b` that start at `start`.
pub fn encode_window(b: &[u8], start: usize, len: usize) -> (r: u64)
    requires
        start + len <= b@.len(),
        len <= MAX_KMER,
    ensures
        r as nat == encode(b@.subrange(start as int, start + len)),
{
    let total: usize = b.len();
    let mut data: u64 = 0;
    let mut i: usize = 0;
    proof {
        assert(b@.subrange(start as int, start as int) =~= Seq::<u8>::empty());
    }
    while i < len
        invariant
            i <= len,
            start + len <= b@.len(),
            b@.len() == total,
            len <= MAX_KMER,
            data as nat == encode(b@.subrange(start as int, start + i)),
        decreases len - i,
    {
        let ghost w = b@.subrange(start as int, start + i + 1);
        proof {
            assert(w.drop_last() =~= b@.subrange(start as int, start + i));
            lemma_encode_bound(b@.subrange(start as int, start + i));
            lemma_pow4_monotone(i as nat, (MAX_KMER - 1) as nat);
            lemma_pow4_max();
            assert(pow4(MAX_KMER as nat) == 4 * pow4((MAX_KMER - 1) as nat));
        }
        let c = to_num(b[start + i]);
        data = data * 4 + c as u64;
        i = i + 1;
    }
    data
}

/// The packed key of one k-mer: `size` symbols held in the low `2 * size`
/// bits of `data`, the first symbol most significant. Keys are equal when
/// both fields are; they order by `data` first.
#[derive(Clone, Copy, Debug, PartialEq, Eq, PartialOrd, Ord, Hash, Structural)]
pub struct T {
    pub data: u64,
    pub size: usize,
}

impl T {
    /// The symbols this key stands for.
    pub open spec fn symbols(self) -> Seq<u8> {
        decode(self.data as nat, self.size as nat)
    }

    /// The key of the empty string.
    pub fn blank() -> (r: T)
        ensures
            r.size == 0,
            r.data == 0,
    {
        T { data: 0, size: 0 }
    }

    /// The key of the string `s`.
    pub fn new(s: &str) -> (r: T)
        requires
            s.spec_bytes().len() <= MAX_KMER,
        ensures
            r.size == s.spec_bytes().len(),
            r.data as nat == encode(s.spec_bytes()),
    {
        let mut t = T { data: 0, size: s.len() };
        t.reset(s);
        t
    }

    /// Re-encodes this key in place as the key of `s`.
    pub fn reset(&mut self, s: &str)
        requires
            s.spec_bytes().len() <= MAX_KMER,
        ensures
            final(self).size == s.spec_bytes().len(),
            final(self).data as nat == encode(s.spec_bytes()),
    {
        let b = s.as_bytes();
        self.size = b.len();
        self.data = encode_window(b, 0, b.len());
        proof {
            assert(b@.subrange(0, b@.len() as int) =~= b@);
        }
    }

    /// The symbols of this key, first symbol first.
    pub fn decode(&self) -> (r: Vec<u8>)
        ensures
            r@ == self.symbols(),
    {
        let n = self.size;
        let mut out: Vec<u8> = Vec::new();
        let mut k: usize = 0;
        while k < n
            invariant
                k <= n,
                out@.len() == k,
            decreases n - k,
        {
            out.push(BASE_A);
            k = k + 1;
        }
        let mut tmp: u64 = self.data;
        let mut j: usize = 0;
        proof {
            assert(pow4(0) == 1);
        }
        while j < n
            invariant
                j <= n,
                n == self.size,
                out@.len() == n,
                tmp as nat == self.data as nat / pow4(j as nat),
                forall|i: int| n - j <= i < n ==> out@[i] == #[trigger] self.symbols()[i],
            decreases n - j,
        {
            proof {
                lemma_pow4_positive(j as nat);
                vstd::arithmetic::div_mod::lemma_div_denominator(
                    self.data as int,
                    pow4(j as nat) as int,
                    4,
                );
                assert(pow4((j + 1) as nat) == pow4(j as nat) * 4);
            }
            let c = to_char(tmp % 4);
            out.set(n - 1 - j, c);
            tmp = tmp / 4;
            j = j + 1;
        }
        out
    }

    /// The symbols of this key as text.
    pub fn to_string(&self) -> (r: String)
        ensures
            r@ == self.symbols().map_values(|b: u8| b as char),
    {
        let bytes = self.decode();
        let mut text = String::new();
        let mut i: usize = 0;
        while i < bytes.len()
            invariant
                i <= bytes@.len(),
                bytes@ == self.symbols(),
                text@ == bytes@.subrange(0, i as int).map_values(|b: u8| b as char),
            decreases bytes@.len() - i,
        {
            proof {
                assert(is_base(bytes@[i as int]));
            }
            text.append(symbol_text(bytes[i]));
            proof {
                assert(bytes@.subrange(0, i + 1).map_values(|b: u8| b as char) =~= bytes@.subrange(
                    0,
                    i as int,
                ).map_values(|b: u8| b as char) + seq![bytes@[i as int] as char]);
            }
            i = i + 1;
        }
        proof {
            assert(bytes@.subrange(0, bytes@.len() as int) =~= bytes@);
        }
        text
    }
}

} // verus!
