//! Little-endian integers in a run of bytes.

use vstd::prelude::*;

verus! {

/// How many values fit in `n` bytes.
pub open spec fn radix(n: nat) -> int
    decreases n,
{
    if n == 0 {
        1
    } else {
        256 * radix((n - 1) as nat)
    }
}

/// The integer in the `n` bytes from `at` on, least significant byte first.
pub open spec fn le_at(bytes: Seq<u8>, at: int, n: nat) -> int
    decreases n,
{
    if n == 0 {
        0
    } else {
        bytes[at] + 256 * le_at(bytes, at + 1, (n - 1) as nat)
    }
}

/// The `n` bytes of an integer, least significant byte first.
pub open spec fn le_bytes(value: int, n: nat) -> Seq<u8>
    decreases n,
{
    if n == 0 {
        Seq::empty()
    } else {
        seq![(value % 256) as u8] + le_bytes(value / 256, (n - 1) as nat)
    }
}

/// The bytes with `data` in place of those from `at` on.
pub open spec fn overlaid(bytes: Seq<u8>, at: int, data: Seq<u8>) -> Seq<u8> {
    Seq::new(
        bytes.len(),
        |i: int| if at <= i < at + data.len() {
            data[i - at]
        } else {
            bytes[i]
        },
    )
}

pub proof fn lemma_le_bytes_len(value: int, n: nat)
    ensures
        le_bytes(value, n).len() == n,
    decreases n,
{
    if n > 0 {
        lemma_le_bytes_len(value / 256, (n - 1) as nat);
    }
}

/// An integer has its bytes.
pub proof fn lemma_le_bytes(bytes: Seq<u8>, at: int, n: nat)
    requires
        0 <= at,
        at + n <= bytes.len(),
    ensures
        bytes.subrange(at, at + n) == le_bytes(le_at(bytes, at, n), n),
    decreases n,
{
    if n > 0 {
        let m = (n - 1) as nat;
        let rest = le_at(bytes, at + 1, m);
        let first = bytes[at] as int;
        let value = le_at(bytes, at, n);
        lemma_le_bytes(bytes, at + 1, m);
        assert(value == 256 * rest + first);
        vstd::arithmetic::div_mod::lemma_fundamental_div_mod_converse(value, 256, rest, first);
        assert(le_bytes(value, n) == seq![bytes[at]] + le_bytes(rest, m));
        assert(bytes.subrange(at, at + n) =~= seq![bytes[at]] + bytes.subrange(at + 1, at + 1 + m));
    } else {
        assert(bytes.subrange(at, at + n) =~= Seq::<u8>::empty());
    }
}

pub proof fn lemma_radix_positive(n: nat)
    ensures
        radix(n) > 0,
    decreases n,
{
    if n > 0 {
        lemma_radix_positive((n - 1) as nat);
    }
}

pub proof fn lemma_le_bounds(bytes: Seq<u8>, at: int, n: nat)
    ensures
        0 <= le_at(bytes, at, n) < radix(n),
    decreases n,
{
    if n > 0 {
        lemma_le_bounds(bytes, at + 1, (n - 1) as nat);
    }
}

/// An integer depends on its own bytes only.
pub proof fn lemma_le_same(a: Seq<u8>, b: Seq<u8>, at: int, to: int, n: nat)
    requires
        forall|i: int| 0 <= i < n ==> #[trigger] a[at + i] == b[to + i],
    ensures
        le_at(a, at, n) == le_at(b, to, n),
    decreases n,
{
    if n > 0 {
        assert(a[at + 0] == b[to + 0]);
        assert forall|i: int| 0 <= i < n - 1 implies #[trigger] a[at + 1 + i] == b[to + 1 + i] by {
            assert(a[at + (1 + i)] == b[to + (1 + i)]);
        }
        lemma_le_same(a, b, at + 1, to + 1, (n - 1) as nat);
    }
}

/// The widths that are used, written out.
pub proof fn lemma_radix_values()
    ensures
        radix(2) == 65536,
        radix(4) == 4294967296,
        radix(8) == 18446744073709551616,
{
    reveal_with_fuel(radix, 9);
}

/// Reads the integer in the `n` bytes from `at` on.
pub fn read_le(bytes: &[u8], at: usize, n: usize) -> (value: u64)
    requires
        n <= 8,
        at + n <= bytes@.len(),
    ensures
        value == le_at(bytes@, at as int, n as nat),
{
    let len: usize = bytes.len();
    let mut value: u64 = 0;
    let mut i: usize = n;
    proof {
        lemma_radix_values();
    }
    while i > 0
        invariant
            i <= n <= 8,
            at + n <= len == bytes@.len(),
            value == le_at(bytes@, at + i, (n - i) as nat),
            radix(8) == 18446744073709551616,
        decreases i,
    {
        proof {
            lemma_le_bounds(bytes@, at + i, (n - i) as nat);
            lemma_radix_mono((n - i) as nat, 7);
            assert(radix(8) == 256 * radix(7));
        }
        i = i - 1;
        value = value * 256 + bytes[at + i] as u64;
    }
    value
}

proof fn lemma_radix_mono(m: nat, n: nat)
    requires
        m <= n,
    ensures
        radix(m) <= radix(n),
    decreases n,
{
    if m < n {
        lemma_radix_mono(m, (n - 1) as nat);
        lemma_radix_positive((n - 1) as nat);
    }
}

/// Writes an integer into the `n` bytes from `at` on.
pub fn write_le<const N: usize>(bytes: &mut [u8; N], at: usize, n: usize, value: u64)
    requires
        at + n <= N,
        value < radix(n as nat),
    ensures
        le_at(final(bytes)@, at as int, n as nat) == value,
        final(bytes)@ == overlaid(old(bytes)@, at as int, le_bytes(value as int, n as nat)),
        forall|i: int| 0 <= i < N && !(at <= i < at + n) ==> #[trigger] final(bytes)@[i] == old(bytes)@[i],
{
    let mut rest: u64 = value;
    let mut i: usize = 0;
    let ghost before_all = bytes@;
    while i < n
        invariant
            i <= n,
            at + n <= N,
            0 <= rest < radix((n - i) as nat),
            bytes@.len() == N,
            forall|s: Seq<u8>|
                (forall|k: int| at <= k < at + i ==> #[trigger] s[k] == bytes@[k]) && le_at(s, at + i, (n - i) as nat) == rest
                    ==> #[trigger] le_at(s, at as int, n as nat) == value,
            forall|k: int| 0 <= k < N && !(at <= k < at + n) ==> #[trigger] bytes@[k] == before_all[k],
        decreases n - i,
    {
        let ghost before = bytes@;
        let ghost carry = rest as int;
        bytes[at + i] = (rest % 256) as u8;
        rest = rest / 256;
        proof {
            assert forall|s: Seq<u8>|
                (forall|k: int| at <= k < at + i + 1 ==> #[trigger] s[k] == bytes@[k]) && le_at(
                    s,
                    at + i + 1,
                    (n - i - 1) as nat,
                ) == rest implies #[trigger] le_at(s, at as int, n as nat) == value by {
                assert(s[at + i] == bytes@[at + i]);
                assert(le_at(s, at + i, (n - i) as nat) == s[at + i] + 256 * le_at(s, at + i + 1, (n - i - 1) as nat));
                assert forall|k: int| at <= k < at + i implies #[trigger] s[k] == before[k] by {
                    assert(bytes@[k] == before[k]);
                }
            }
        }
        i = i + 1;
    }
    assert(le_at(bytes@, at + n, 0) == 0);
    proof {
        lemma_le_bytes(bytes@, at as int, n as nat);
        lemma_le_bytes_len(value as int, n as nat);
        let data = bytes@.subrange(at as int, at + n);
        assert forall|k: int| at <= k < at + n implies bytes@[k] == #[trigger] data[k - at] by {}
        assert(bytes@ =~= overlaid(before_all, at as int, data));
    }
}

} // verus!
