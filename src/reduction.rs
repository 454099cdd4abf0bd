use vstd::prelude::*;
use vstd::string::StringSliceAdditionalSpecFns;
use vstd::arithmetic::div_mod::{lemma_fundamental_div_mod_converse, lemma_div_denominator};
use crate::radix_type::Radix;
use crate::text::push_char;

verus! {

/// `b` to the power `e`.
pub open spec fn power(b: nat, e: nat) -> nat
    decreases e,
{
    if e == 0 {
        1
    } else {
        b * power(b, (e - 1) as nat)
    }
}

/// The number that a little-endian byte string denotes.
pub open spec fn le_value(s: Seq<u8>) -> nat
    decreases s.len(),
{
    if s.len() == 0 {
        0
    } else {
        s[0] as nat + 256 * le_value(s.drop_first())
    }
}

/// Digit `k` of `n` in base `b`, counting from the least significant.
pub open spec fn digit(n: nat, b: nat, k: nat) -> nat {
    (n / power(b, k)) % b
}

/// The password that reduction makes of digest `d` in round `round`: the
/// `len` base-`b` digits of `(d + round) mod b^len`, least significant first,
/// each written as the character 32 places above it. Leading zero digits come
/// out as spaces.
pub open spec fn reduce_spec(d: Seq<u8>, round: nat, len: nat, b: nat) -> Seq<u8> {
    Seq::new(len, |k: int| (32 + digit(le_value(d) + round, b, k as nat)) as u8)
}

/// The password of the charset-indexing reduction: character `i` is the
/// charset entry that byte `i` (cycling) of `hash` picks, modulo the
/// charset's size.
pub open spec fn index_reduce_spec(hash: Seq<u8>, len: nat, charset: Seq<u8>) -> Seq<char> {
    Seq::new(len, |i: int| charset[(hash[i % hash.len() as int] as int) % charset.len() as int] as char)
}

proof fn lemma_power_step(b: nat, e: nat)
    ensures
        power(b, e + 1) == b * power(b, e),
        power(b, e) > 0 || b == 0,
    decreases e,
{
    reveal_with_fuel(power, 2);
    if e > 0 {
        lemma_power_step(b, (e - 1) as nat);
        assert(power(b, e) == b * power(b, (e - 1) as nat));
        if b > 0 {
            assert(b * power(b, (e - 1) as nat) > 0) by (nonlinear_arith)
                requires
                    b > 0,
                    power(b, (e - 1) as nat) > 0,
            ;
        }
    }
}

proof fn lemma_le_push(s: Seq<u8>, x: u8)
    ensures
        le_value(s.push(x)) == le_value(s) + power(256, s.len()) * x,
    decreases s.len(),
{
    if s.len() == 0 {
        assert(s.push(x).drop_first() =~= Seq::<u8>::empty());
        assert(le_value(s.push(x).drop_first()) == 0);
        assert(s.push(x)[0] == x);
        assert(power(256, 0) == 1);
    } else {
        assert(s.push(x).drop_first() =~= s.drop_first().push(x));
        assert(s.push(x)[0] == s[0]);
        lemma_le_push(s.drop_first(), x);
        lemma_power_step(256, (s.len() - 1) as nat);
        let a = le_value(s.drop_first());
        let p = power(256, (s.len() - 1) as nat);
        assert(256 * (a + p * x) == 256 * a + (256 * p) * x) by (nonlinear_arith);
    }
}

proof fn lemma_le_front(s: Seq<u8>, i: int)
    requires
        0 <= i < s.len(),
    ensures
        le_value(s.subrange(i, s.len() as int)) == s[i] as nat + 256 * le_value(
            s.subrange(i + 1, s.len() as int),
        ),
{
    assert(s.subrange(i, s.len() as int).drop_first() =~= s.subrange(i + 1, s.len() as int));
}

/// `d + round`, as a little-endian byte string.
fn add_round(d: &Vec<u8>, round: u128) -> (n: Vec<u8>)
    ensures
        le_value(n@) == le_value(d@) + round,
{
    let mut n: Vec<u8> = Vec::new();
    let mut carry: u128 = round;
    let mut i: usize = 0;
    proof {
        assert(d@.subrange(0, d@.len() as int) =~= d@);
        assert(le_value(n@) == 0);
        assert(power(256, 0) == 1);
    }
    while i < d.len()
        invariant
            i <= d@.len(),
            n@.len() == i,
            le_value(d@) + round == le_value(n@) + power(256, i as nat) * (carry + le_value(
                d@.subrange(i as int, d@.len() as int),
            )),
        decreases d.len() - i,
    {
        let low: u128 = carry % 256;
        let t: u128 = d[i] as u128 + low;
        let ghost old_n = n@;
        let ghost old_carry = carry;
        n.push((t % 256) as u8);
        carry = carry / 256 + t / 256;
        proof {
            lemma_le_front(d@, i as int);
            lemma_le_push(old_n, (t % 256) as u8);
            lemma_power_step(256, i as nat);
            let p = power(256, i as nat);
            let r = le_value(d@.subrange(i + 1, d@.len() as int));
            assert(old_carry + d@[i as int] == (t % 256) + 256 * (carry as int));
            assert(p * (old_carry + (d@[i as int] + 256 * r)) == p * (t % 256) + (256 * p) * (carry + r))
                by (nonlinear_arith)
                requires
                    old_carry + d@[i as int] == (t % 256) + 256 * (carry as int),
            ;
        }
        i += 1;
    }
    proof {
        assert(d@.subrange(d@.len() as int, d@.len() as int) =~= Seq::<u8>::empty());
    }
    while carry > 0
        invariant
            le_value(d@) + round == le_value(n@) + power(256, n@.len()) * carry,
        decreases carry,
    {
        let ghost old_n = n@;
        let ghost old_carry = carry;
        n.push((carry % 256) as u8);
        carry = carry / 256;
        proof {
            lemma_le_push(old_n, (old_carry % 256) as u8);
            lemma_power_step(256, old_n.len());
            let p = power(256, old_n.len());
            assert(p * old_carry == p * (old_carry % 256) + (256 * p) * carry) by (nonlinear_arith)
                requires
                    old_carry == (old_carry % 256) + 256 * carry,
            ;
        }
    }
    n
}

/// Divides a little-endian number by a small base: the quotient, of the same
/// width, and the remainder.
fn div_small(n: &Vec<u8>, b: u8) -> (res: (Vec<u8>, u8))
    requires
        b > 0,
    ensures
        le_value(res.0@) == le_value(n@) / (b as nat),
        res.1 as nat == le_value(n@) % (b as nat),
        res.0@.len() == n@.len(),
{
    let mut q: Vec<u8> = Vec::new();
    let mut j: usize = 0;
    while j < n.len()
        invariant
            j <= n@.len(),
            q@.len() == j,
        decreases n.len() - j,
    {
        q.push(0);
        j += 1;
    }
    let mut rem: u32 = 0;
    let mut i: usize = n.len();
    proof {
        assert(n@.subrange(n@.len() as int, n@.len() as int) =~= Seq::<u8>::empty());
        assert(q@.subrange(q@.len() as int, q@.len() as int) =~= Seq::<u8>::empty());
        assert(le_value(Seq::<u8>::empty()) == 0);
    }
    while i > 0
        invariant
            i <= n@.len(),
            q@.len() == n@.len(),
            rem < b,
            le_value(n@.subrange(i as int, n@.len() as int)) == (b as nat) * le_value(
                q@.subrange(i as int, q@.len() as int),
            ) + rem,
        decreases i,
    {
        i -= 1;
        let cur: u32 = rem * 256 + n[i] as u32;
        let ghost old_q = q@;
        let ghost old_rem = rem;
        q.set(i, (cur / b as u32) as u8);
        rem = cur % (b as u32);
        proof {
            assert(q@.subrange(i + 1, q@.len() as int) =~= old_q.subrange(i + 1, q@.len() as int));
            lemma_le_front(n@, i as int);
            lemma_le_front(q@, i as int);
            let qq = le_value(old_q.subrange(i + 1, q@.len() as int)) as int;
            let c = cur as int;
            let bi = b as int;
            let r0 = old_rem as int;
            let x = n@[i as int] as int;
            assert(c == bi * (c / bi) + c % bi) by (nonlinear_arith)
                requires
                    bi > 0,
            ;
            assert(x + 256 * (bi * qq + r0) == bi * ((c / bi) + 256 * qq) + c % bi) by (nonlinear_arith)
                requires
                    c == r0 * 256 + x,
                    c == bi * (c / bi) + c % bi,
            ;
            assert(c / bi < 256) by (nonlinear_arith)
                requires
                    c == r0 * 256 + x,
                    0 <= r0 < bi,
                    0 <= x < 256,
                    bi > 0,
            ;
        }
    }
    proof {
        assert(n@.subrange(0, n@.len() as int) =~= n@);
        assert(q@.subrange(0, q@.len() as int) =~= q@);
        assert(le_value(q@) * (b as nat) == (b as nat) * le_value(q@)) by (nonlinear_arith);
        lemma_fundamental_div_mod_converse(le_value(n@) as int, b as int, le_value(q@) as int, rem as int);
    }
    (q, rem as u8)
}

/// Writes the `length` lowest digits of `num` in the radix's base, least
/// significant first, each as the byte 32 above it.
fn encode(num: Vec<u8>, radix: &Radix, length: u32) -> (s: Vec<u8>)
    requires
        1 <= radix@ <= 95,
    ensures
        s@ == Seq::new(length as nat, |k: int| (32 + digit(le_value(num@), radix@, k as nat)) as u8),
{
    let b: u8 = radix.get() as u8;
    let mut n: Vec<u8> = num;
    let mut out: Vec<u8> = Vec::new();
    let mut k: u32 = 0;
    proof {
        assert(power(b as nat, 0) == 1);
        assert(le_value(num@) / 1 == le_value(num@));
    }
    while k < length
        invariant
            b as nat == radix@,
            1 <= b <= 95,
            k <= length,
            out@.len() == k,
            le_value(n@) == le_value(num@) / power(b as nat, k as nat),
            forall|j: int| 0 <= j < k ==> out@[j] == (32 + digit(le_value(num@), b as nat, j as nat)) as u8,
        decreases length - k,
    {
        let (q, d) = div_small(&n, b);
        proof {
            lemma_power_step(b as nat, k as nat);
            lemma_div_denominator(le_value(num@) as int, power(b as nat, k as nat) as int, b as int);
            assert(power(b as nat, k as nat) * b == power(b as nat, (k + 1) as nat));
        }
        out.push(32 + d);
        n = q;
        k += 1;
    }
    proof {
        assert(out@ =~= Seq::new(length as nat, |k: int| (32 + digit(le_value(num@), radix@, k as nat)) as u8));
    }
    out
}

/// The reduction step of a rainbow chain: turns digest `hash` and round index
/// `round` into a password of `password_length` printable characters.
pub fn reduction_function(hash: &Vec<u8>, round: u128, password_length: u32, radix: &Radix) -> (r: Vec<u8>)
    requires
        1 <= radix@ <= 95,
    ensures
        r@ == reduce_spec(hash@, round as nat, password_length as nat, radix@),
        r@.len() == password_length,
        forall|i: int| 0 <= i < r@.len() ==> 32 <= #[trigger] r@[i] <= 126,
{
    let n = add_round(hash, round);
    let r = encode(n, radix, password_length);
    proof {
        assert forall|i: int| 0 <= i < r@.len() implies 32 <= #[trigger] r@[i] <= 126 by {
            let n: nat = le_value(hash@) + round as nat;
            let q: nat = n / power(radix@, i as nat);
            assert(q % radix@ < radix@);
        }
    }
    r
}

/// The charset-indexing reduction: character `i` of the result is
/// `charset[hash[i % |hash|] % |charset|]`. It ignores the round index.
pub fn reduce(hash: &str, password_len: usize, charset: &[u8], _ascii_offset: u8) -> (pwd: String)
    requires
        hash.spec_bytes().len() > 0,
        charset@.len() > 0,
    ensures
        pwd@ == index_reduce_spec(hash.spec_bytes(), password_len as nat, charset@),
{
    let hash_bytes = hash.as_bytes();
    let mut pwd = String::new();
    let mut i: usize = 0;
    while i < password_len
        invariant
            i <= password_len,
            hash_bytes@ == hash.spec_bytes(),
            hash_bytes@.len() > 0,
            charset@.len() > 0,
            pwd@ =~= index_reduce_spec(hash.spec_bytes(), i as nat, charset@),
        decreases password_len - i,
    {
        let index = hash_bytes[i % hash_bytes.len()] as usize % charset.len();
        push_char(&mut pwd, charset[index] as char);
        i += 1;
    }
    pwd
}

} // verus!
