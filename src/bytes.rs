use vstd::prelude::*;
use vstd::slice::slice_subrange;

verus! {

/// The number that a big-endian byte string denotes.
pub open spec fn be_value(s: Seq<u8>) -> nat
    decreases s.len(),
{
    if s.len() == 0 {
        0
    } else {
        be_value(s.drop_last()) * 256 + s.last() as nat
    }
}

/// The `n` low bytes of `v`, most significant first.
pub open spec fn be_bytes(v: nat, n: nat) -> Seq<u8>
    decreases n,
{
    if n == 0 {
        Seq::empty()
    } else {
        be_bytes(v / 256, (n - 1) as nat).push((v % 256) as u8)
    }
}

/// `256^n`.
pub open spec fn byte_power(n: nat) -> nat
    decreases n,
{
    if n == 0 {
        1
    } else {
        256 * byte_power((n - 1) as nat)
    }
}

proof fn lemma_byte_power_positive(n: nat)
    ensures
        byte_power(n) > 0,
    decreases n,
{
    if n > 0 {
        lemma_byte_power_positive((n - 1) as nat);
    }
}

/// A big-endian value of `n` bytes is below `256^n`.
pub proof fn lemma_be_value_bound(s: Seq<u8>)
    ensures
        be_value(s) < byte_power(s.len()),
    decreases s.len(),
{
    if s.len() > 0 {
        lemma_be_value_bound(s.drop_last());
        let a = be_value(s.drop_last());
        let p = byte_power((s.len() - 1) as nat);
        let x = s.last() as nat;
        assert(a * 256 + x < 256 * p) by (nonlinear_arith)
            requires
                a < p,
                x < 256,
        ;
    }
}

/// Reading back the bytes of a value that fits gives the value.
pub proof fn lemma_be_round_trip(v: nat, n: nat)
    requires
        v < byte_power(n),
    ensures
        be_value(be_bytes(v, n)) == v,
        be_bytes(v, n).len() == n,
    decreases n,
{
    if n > 0 {
        let p = byte_power((n - 1) as nat);
        assert(v / 256 < p) by (nonlinear_arith)
            requires
                v < 256 * p,
        ;
        lemma_be_round_trip(v / 256, (n - 1) as nat);
        let s = be_bytes(v, n);
        assert(s.drop_last() =~= be_bytes(v / 256, (n - 1) as nat));
        assert(v == (v / 256) * 256 + v % 256);
    } else {
        assert(v == 0);
    }
}

/// Appends the bytes of `src` to `dst`.
pub fn append_bytes(dst: &mut Vec<u8>, src: &[u8])
    ensures
        final(dst)@ == old(dst)@ + src@,
{
    let ghost start = dst@;
    let mut i: usize = 0;
    while i < src.len()
        invariant
            i <= src@.len(),
            dst@ =~= start + src@.subrange(0, i as int),
        decreases src.len() - i,
    {
        dst.push(src[i]);
        i += 1;
    }
    proof {
        assert(src@.subrange(0, src@.len() as int) =~= src@);
    }
}

/// Appends the `width` low bytes of `v`, most significant first.
pub fn push_be(dst: &mut Vec<u8>, v: u128, width: usize)
    requires
        width <= 16,
    ensures
        final(dst)@ == old(dst)@ + be_bytes(v as nat, width as nat),
{
    let mut tmp: Vec<u8> = Vec::new();
    let mut k: usize = 0;
    while k < width
        invariant
            k <= width,
            tmp@.len() == k,
        decreases width - k,
    {
        tmp.push(0);
        k += 1;
    }
    let mut rest: u128 = v;
    let mut i: usize = width;
    proof {
        assert(byte_power(0) == 1);
        assert((v as nat) / 1 == v as nat);
    }
    while i > 0
        invariant
            i <= width <= 16,
            tmp@.len() == width,
            rest as nat == (v as nat) / byte_power((width - i) as nat),
            forall|j: int| i <= j < width ==> tmp@[j] == be_digit(v as nat, (width - 1 - j) as nat),
        decreases i,
    {
        i -= 1;
        tmp.set(i, (rest % 256) as u8);
        proof {
            lemma_byte_power_positive((width - 1 - i) as nat);
            vstd::arithmetic::div_mod::lemma_div_denominator(v as int, byte_power((width - 1 - i) as nat) as int, 256);
            assert(byte_power((width - 1 - i) as nat) * 256 == byte_power((width - i) as nat));
        }
        rest = rest / 256;
    }
    proof {
        lemma_be_bytes_digits(v as nat, width as nat);
        assert(tmp@ =~= be_bytes(v as nat, width as nat));
    }
    append_bytes(dst, tmp.as_slice());
}

/// Appends `v` as 16 bytes, most significant first.
pub fn push_be_u128(dst: &mut Vec<u8>, v: u128)
    ensures
        final(dst)@ == old(dst)@ + be_bytes(v as nat, 16),
{
    push_be(dst, v, 16)
}

/// Byte `k` of `v`, counting from the least significant.
pub open spec fn be_digit(v: nat, k: nat) -> u8 {
    ((v / byte_power(k)) % 256) as u8
}

proof fn lemma_be_bytes_digits(v: nat, n: nat)
    ensures
        be_bytes(v, n).len() == n,
        forall|j: int| 0 <= j < n ==> #[trigger] be_bytes(v, n)[j] == be_digit(v, (n - 1 - j) as nat),
    decreases n,
{
    if n > 0 {
        lemma_be_bytes_digits(v / 256, (n - 1) as nat);
        assert forall|j: int| 0 <= j < n implies #[trigger] be_bytes(v, n)[j] == be_digit(v, (n - 1 - j) as nat) by {
            if j < n - 1 {
                let k = (n - 2 - j) as nat;
                assert(be_bytes(v, n)[j] == be_bytes(v / 256, (n - 1) as nat)[j]);
                assert(be_bytes(v / 256, (n - 1) as nat)[j] == be_digit(v / 256, k));
                lemma_byte_power_positive(k);
                vstd::arithmetic::div_mod::lemma_div_denominator(v as int, 256, byte_power(k) as int);
                assert(byte_power(k + 1) == 256 * byte_power(k));
                assert((v / 256) / byte_power(k) == v / byte_power(k + 1));
                assert((n - 1 - j) as nat == k + 1);
            } else {
                assert(byte_power(0) == 1);
                assert(v / 1 == v);
                assert(be_bytes(v, n)[j] == (v % 256) as u8);
            }
        }
    }
}

/// Reads the `width` bytes at `at`, at most 16, as a big-endian number.
pub fn read_be(data: &[u8], at: usize, width: usize) -> (r: u128)
    requires
        width <= 16,
        at + width <= data@.len(),
    ensures
        r as nat == be_value(data@.subrange(at as int, at + width)),
        (r as nat) < byte_power(width as nat),
{
    let mut acc: u128 = 0;
    let mut i: usize = 0;
    let n = data.len();
    while i < width
        invariant
            i <= width <= 16,
            n == data@.len(),
            at + width <= data@.len(),
            acc as nat == be_value(data@.subrange(at as int, at + i)),
        decreases width - i,
    {
        proof {
            let s = data@.subrange(at as int, at + i);
            lemma_be_value_bound(s);
            assert(byte_power(i as nat) <= byte_power(15)) by {
                lemma_byte_power_mono(i as nat, 15);
            }
            assert(byte_power(15) * 256 == u128::MAX + 1) by {
                reveal_with_fuel(byte_power, 16);
            }
            let t = data@.subrange(at as int, at + i + 1);
            assert(t.drop_last() =~= s);
            let bp = byte_power(15);
            assert(acc * 256 + 255 <= u128::MAX) by (nonlinear_arith)
                requires
                    acc < bp,
                    bp * 256 == u128::MAX + 1,
            ;
        }
        acc = acc * 256 + data[at + i] as u128;
        i += 1;
    }
    proof {
        lemma_be_value_bound(data@.subrange(at as int, at + width));
    }
    acc
}

/// Reads the 16 bytes at `at` as a big-endian number.
pub fn read_be_u128(data: &[u8], at: usize) -> (r: u128)
    requires
        at + 16 <= data@.len(),
    ensures
        r as nat == be_value(data@.subrange(at as int, at + 16)),
{
    read_be(data, at, 16)
}

/// Reads the 8 bytes at `at` as a big-endian number.
pub fn read_be_u64(data: &[u8], at: usize) -> (r: u64)
    requires
        at + 8 <= data@.len(),
    ensures
        r as nat == be_value(data@.subrange(at as int, at + 8)),
{
    let v = read_be(data, at, 8);
    proof {
        assert(byte_power(8) == u64::MAX + 1) by {
            reveal_with_fuel(byte_power, 9);
        }
    }
    v as u64
}

proof fn lemma_byte_power_mono(a: nat, b: nat)
    requires
        a <= b,
    ensures
        byte_power(a) <= byte_power(b),
    decreases b,
{
    if a < b {
        lemma_byte_power_mono(a, (b - 1) as nat);
    }
}

/// The bytes `data[from..to]` as a new vector.
pub fn copy_range(data: &[u8], from: usize, to: usize) -> (r: Vec<u8>)
    requires
        from <= to <= data@.len(),
    ensures
        r@ == data@.subrange(from as int, to as int),
{
    let mut r: Vec<u8> = Vec::new();
    append_bytes(&mut r, slice_subrange(data, from, to));
    r
}

/// Whether two byte strings are equal.
pub fn bytes_eq(a: &[u8], b: &[u8]) -> (r: bool)
    ensures
        r == (a@ == b@),
{
    if a.len() != b.len() {
        return false;
    }
    let mut i: usize = 0;
    while i < a.len()
        invariant
            a@.len() == b@.len(),
            i <= a@.len(),
            forall|j: int| 0 <= j < i ==> a@[j] == b@[j],
        decreases a.len() - i,
    {
        if a[i] != b[i] {
            return false;
        }
        i += 1;
    }
    proof {
        assert(a@ =~= b@);
    }
    true
}

} // verus!
