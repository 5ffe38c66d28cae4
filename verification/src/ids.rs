//! Stable identity for startup entries.
//!
//! An entry's id is a 64-bit FNV-1a style hash of the composite key
//! `source_location ++ ":" ++ name`, rendered as sixteen lowercase hex
//! digits. The hash is a pure function of its input, so the same
//! `(source_location, name)` pair yields the same id on every scan and in
//! every process run, and entries from different sources get different
//! composite keys.

use vstd::prelude::*;
use vstd::string::*;
use crate::text::push_char;

verus! {

pub const HASH_OFFSET: u64 = 0xcbf29ce484222325;

pub const HASH_PRIME: u64 = 0x100000001b3;

/// One hash round: fold a character into the running state.
pub open spec fn hash_step(h: u64, c: char) -> u64 {
    (h ^ (c as u64)).wrapping_mul(HASH_PRIME)
}

/// The hash state after folding every character of `s` into `h`.
pub open spec fn hash_chars(s: Seq<char>, h: u64) -> u64
    decreases s.len(),
{
    if s.len() == 0 {
        h
    } else {
        hash_chars(s.drop_first(), hash_step(h, s[0]))
    }
}

/// The 64-bit id hash of a `(source_location, name)` composite key.
pub open spec fn id_hash(source: Seq<char>, name: Seq<char>) -> u64 {
    hash_chars(name, hash_step(hash_chars(source, HASH_OFFSET), ':'))
}

/// The hex digit for a nibble value.
pub open spec fn hex_digit(n: int) -> char {
    if n == 0 {
        '0'
    } else if n == 1 {
        '1'
    } else if n == 2 {
        '2'
    } else if n == 3 {
        '3'
    } else if n == 4 {
        '4'
    } else if n == 5 {
        '5'
    } else if n == 6 {
        '6'
    } else if n == 7 {
        '7'
    } else if n == 8 {
        '8'
    } else if n == 9 {
        '9'
    } else if n == 10 {
        'a'
    } else if n == 11 {
        'b'
    } else if n == 12 {
        'c'
    } else if n == 13 {
        'd'
    } else if n == 14 {
        'e'
    } else {
        'f'
    }
}

/// The low `k` hex digits of `h`, least significant first.
pub open spec fn hex_le(h: nat, k: nat) -> Seq<char>
    decreases k,
{
    if k == 0 {
        Seq::empty()
    } else {
        seq![hex_digit((h % 16) as int)] + hex_le(h / 16, (k - 1) as nat)
    }
}

/// Sixteen hex digits of `h`, most significant first.
pub open spec fn hex16(h: u64) -> Seq<char> {
    hex_le(h as nat, 16).reverse()
}

/// The id string for a `(source_location, name)` composite key.
pub open spec fn id_of(source: Seq<char>, name: Seq<char>) -> Seq<char> {
    hex16(id_hash(source, name))
}

fn hash_step_exec(h: u64, c: char) -> (r: u64)
    ensures
        r == hash_step(h, c),
{
    (h ^ (c as u64)).wrapping_mul(HASH_PRIME)
}

/// Folding distributes over concatenation of the input.
proof fn lemma_hash_chars_concat(a: Seq<char>, b: Seq<char>, h: u64)
    ensures
        hash_chars(a + b, h) == hash_chars(b, hash_chars(a, h)),
    decreases a.len(),
{
    if a.len() == 0 {
        assert(a + b =~= b);
    } else {
        assert((a + b).drop_first() =~= a.drop_first() + b);
        lemma_hash_chars_concat(a.drop_first(), b, hash_step(h, a[0]));
    }
}

fn hash_str(s: &str, h0: u64) -> (r: u64)
    ensures
        r == hash_chars(s@, h0),
{
    let n = s.unicode_len();
    let mut h = h0;
    let mut i: usize = 0;
    while i < n
        invariant
            n == s@.len(),
            i <= n,
            h == hash_chars(s@.take(i as int), h0),
        decreases n - i,
    {
        let c = s.get_char(i);
        proof {
            assert(s@.take(i + 1) =~= s@.take(i as int) + seq![c]);
            lemma_hash_chars_concat(s@.take(i as int), seq![c], h0);
            assert(hash_chars(seq![c], h) == hash_step(h, c)) by {
                assert(seq![c].drop_first() =~= Seq::<char>::empty());
                assert(seq![c][0] == c);
                assert(hash_chars(Seq::<char>::empty(), hash_step(h, c)) == hash_step(h, c));
            }
        }
        h = hash_step_exec(h, c);
        i = i + 1;
    }
    proof {
        assert(s@.take(n as int) =~= s@);
    }
    h
}

pub(crate) fn hex_digit_of(n: u64) -> (r: char)
    requires
        n < 16,
    ensures
        r == hex_digit(n as int),
{
    match n {
        0 => '0',
        1 => '1',
        2 => '2',
        3 => '3',
        4 => '4',
        5 => '5',
        6 => '6',
        7 => '7',
        8 => '8',
        9 => '9',
        10 => 'a',
        11 => 'b',
        12 => 'c',
        13 => 'd',
        14 => 'e',
        _ => 'f',
    }
}

/// Renders `h` as sixteen lowercase hex digits, most significant first.
pub fn to_hex16(h: u64) -> (r: String)
    ensures
        r@ == hex16(h),
{
    let mut digits: Vec<char> = Vec::new();
    let mut v = h;
    let mut k: usize = 0;
    while k < 16
        invariant
            k <= 16,
            digits@.len() == k,
            hex_le(h as nat, 16) =~= digits@ + hex_le(v as nat, (16 - k) as nat),
        decreases 16 - k,
    {
        let d = hex_digit_of(v % 16);
        digits.push(d);
        proof {
            assert((digits@ + hex_le((v / 16) as nat, (15 - k) as nat)) =~= (digits@.take(
                k as int,
            ) + (seq![hex_digit((v % 16) as int)] + hex_le((v / 16) as nat, (15 - k) as nat))));
        }
        v = v / 16;
        k = k + 1;
    }
    let mut out = String::new();
    let mut j: usize = 16;
    while j > 0
        invariant
            digits@.len() == 16,
            j <= 16,
            out@.len() == 16 - j,
            forall|i: int| 0 <= i < 16 - j ==> out@[i] == digits@[15 - i],
        decreases j,
    {
        let c = digits[j - 1];
        push_char(&mut out, c);
        j = j - 1;
    }
    proof {
        assert(hex_le(h as nat, 16) =~= digits@);
        assert(out@ =~= hex16(h)) by {
            assert(hex_le(h as nat, 16).reverse().len() == 16);
            assert(forall|i: int|
                0 <= i < 16 ==> out@[i] == #[trigger] hex_le(h as nat, 16).reverse()[i]);
        }
    }
    out
}

/// The stable id of the entry named `name` found at `source`.
pub fn generate_id(source: &str, name: &str) -> (r: String)
    ensures
        r@ == id_of(source@, name@),
{
    let h1 = hash_str(source, HASH_OFFSET);
    let h2 = hash_step_exec(h1, ':');
    let h3 = hash_str(name, h2);
    to_hex16(h3)
}

/// Determinism of ids: equal composite keys yield equal ids, whatever
/// strings carry them and whenever they are hashed.
pub proof fn lemma_id_deterministic(s1: Seq<char>, n1: Seq<char>, s2: Seq<char>, n2: Seq<char>)
    requires
        s1 == s2,
        n1 == n2,
    ensures
        id_of(s1, n1) == id_of(s2, n2),
{
}

} // verus!
