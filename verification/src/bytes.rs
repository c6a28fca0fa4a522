//! Fixed-width integers as bytes, in big-endian and little-endian order.
use vstd::arithmetic::div_mod::*;
use vstd::arithmetic::mul::*;
use vstd::arithmetic::power::*;
use vstd::prelude::*;

verus! {

/// The number whose big-endian bytes are `s`.
pub open spec fn be_value(s: Seq<u8>) -> nat
    decreases s.len(),
{
    if s.len() == 0 {
        0
    } else {
        be_value(s.drop_last()) * 256 + s.last() as nat
    }
}

/// The number whose little-endian bytes are `s`.
pub open spec fn le_value(s: Seq<u8>) -> nat
    decreases s.len(),
{
    if s.len() == 0 {
        0
    } else {
        s[0] as nat + 256 * le_value(s.drop_first())
    }
}

/// The low `n` bytes of `v`, most significant first.
pub open spec fn be_bytes(v: nat, n: nat) -> Seq<u8>
    decreases n,
{
    if n == 0 {
        seq![]
    } else {
        be_bytes(v / 256, (n - 1) as nat).push((v % 256) as u8)
    }
}

/// The low `n` bytes of `v`, least significant first.
pub open spec fn le_bytes(v: nat, n: nat) -> Seq<u8>
    decreases n,
{
    if n == 0 {
        seq![]
    } else {
        seq![(v % 256) as u8] + le_bytes(v / 256, (n - 1) as nat)
    }
}

/// `256^16`, one past the largest 128-bit number.
pub open spec fn u128_bound() -> nat {
    0x1_0000_0000_0000_0000_0000_0000_0000_0000nat
}

pub proof fn lemma_pow256_16()
    ensures
        pow(256, 16) == u128_bound(),
{
    reveal_with_fuel(pow, 17);
}

pub proof fn lemma_be_bytes_len(v: nat, n: nat)
    ensures
        be_bytes(v, n).len() == n,
    decreases n,
{
    if n > 0 {
        lemma_be_bytes_len(v / 256, (n - 1) as nat);
    }
}

pub proof fn lemma_le_bytes_len(v: nat, n: nat)
    ensures
        le_bytes(v, n).len() == n,
    decreases n,
{
    if n > 0 {
        lemma_le_bytes_len(v / 256, (n - 1) as nat);
    }
}

/// Big-endian bytes read back as the number they were made from, cut to `n` bytes.
pub proof fn lemma_be_value_bytes(v: nat, n: nat)
    ensures
        be_value(be_bytes(v, n)) == v % (pow(256, n) as nat),
    decreases n,
{
    reveal(pow);
    lemma_pow_positive(256, n);
    if n == 0 {
        assert(v % 1 == 0);
    } else {
        let b = be_bytes(v / 256, (n - 1) as nat);
        let s = be_bytes(v, n);
        lemma_be_value_bytes(v / 256, (n - 1) as nat);
        assert(s.drop_last() =~= b);
        let p = pow(256, (n - 1) as nat);
        lemma_pow_positive(256, (n - 1) as nat);
        lemma_breakdown(v as int, 256, p);
        assert(256 * ((v / 256) % (p as nat)) == ((v / 256) % (p as nat)) * 256) by (nonlinear_arith);
    }
}

/// Little-endian bytes read back as the number they were made from, cut to `n` bytes.
pub proof fn lemma_le_value_bytes(v: nat, n: nat)
    ensures
        le_value(le_bytes(v, n)) == v % (pow(256, n) as nat),
    decreases n,
{
    reveal(pow);
    lemma_pow_positive(256, n);
    if n == 0 {
        assert(v % 1 == 0);
    } else {
        let b = le_bytes(v / 256, (n - 1) as nat);
        let s = le_bytes(v, n);
        lemma_le_value_bytes(v / 256, (n - 1) as nat);
        assert(s.drop_first() =~= b);
        let p = pow(256, (n - 1) as nat);
        lemma_pow_positive(256, (n - 1) as nat);
        lemma_breakdown(v as int, 256, p);
    }
}

pub proof fn lemma_be_value_bound(s: Seq<u8>)
    ensures
        be_value(s) < pow(256, s.len()),
    decreases s.len(),
{
    reveal(pow);
    if s.len() > 0 {
        lemma_be_value_bound(s.drop_last());
        let p = pow(256, (s.len() - 1) as nat);
        assert(be_value(s.drop_last()) * 256 + s.last() < 256 * p) by (nonlinear_arith)
            requires
                be_value(s.drop_last()) < p,
                s.last() < 256,
        ;
    }
}

pub proof fn lemma_le_value_bound(s: Seq<u8>)
    ensures
        le_value(s) < pow(256, s.len()),
    decreases s.len(),
{
    reveal(pow);
    if s.len() > 0 {
        lemma_le_value_bound(s.drop_first());
        let p = pow(256, (s.len() - 1) as nat);
        assert(s[0] + 256 * le_value(s.drop_first()) < 256 * p) by (nonlinear_arith)
            requires
                le_value(s.drop_first()) < p,
                s[0] < 256,
        ;
    }
}

// ---------------------------------------------------------------------------------------------

/// The number whose big-endian bytes are the first `n` bytes of `input`.
pub fn read_be(input: &[u8], n: usize) -> (v: u128)
    requires
        n <= 16,
        n <= input@.len(),
    ensures
        v == be_value(input@.take(n as int)),
{
    let mut acc: u128 = 0;
    let mut i: usize = 0;
    proof {
        lemma_pow256_16();
        assert(input@.take(0) =~= Seq::<u8>::empty());
    }
    while i < n
        invariant
            i <= n <= 16,
            n <= input@.len(),
            acc == be_value(input@.take(i as int)),
            pow(256, 16) == u128_bound(),
        decreases n - i,
    {
        proof {
            lemma_be_value_bound(input@.take(i as int));
            lemma_pow_increases(256, (i + 1) as nat, 16);
            reveal(pow);
            assert(acc * 256 + 255 < 256 * pow(256, i as nat)) by (nonlinear_arith)
                requires
                    acc < pow(256, i as nat),
            ;
            assert(input@.take(i + 1).drop_last() =~= input@.take(i as int));
        }
        acc = acc * 256 + input[i] as u128;
        i = i + 1;
    }
    acc
}

/// The number whose little-endian bytes are the first `n` bytes of `input`.
pub fn read_le(input: &[u8], n: usize) -> (v: u128)
    requires
        n <= 16,
        n <= input@.len(),
    ensures
        v == le_value(input@.take(n as int)),
{
    let mut acc: u128 = 0;
    let mut i: usize = n;
    proof {
        lemma_pow256_16();
        assert(input@.subrange(n as int, n as int) =~= Seq::<u8>::empty());
    }
    while i > 0
        invariant
            i <= n <= 16,
            n <= input@.len(),
            acc == le_value(input@.subrange(i as int, n as int)),
            pow(256, 16) == u128_bound(),
        decreases i,
    {
        proof {
            let t = input@.subrange(i as int, n as int);
            lemma_le_value_bound(t);
            lemma_pow_increases(256, (t.len() + 1) as nat, 16);
            reveal(pow);
            assert(255 + 256 * acc < 256 * pow(256, t.len())) by (nonlinear_arith)
                requires
                    acc < pow(256, t.len()),
            ;
            assert(input@.subrange(i - 1, n as int).drop_first() =~= t);
        }
        acc = input[i - 1] as u128 + 256 * acc;
        i = i - 1;
    }
    assert(input@.subrange(0, n as int) =~= input@.take(n as int));
    acc
}

/// The low `n` bytes of `v`, least significant first.
pub fn write_le(v: u128, n: usize) -> (r: Vec<u8>)
    requires
        n <= 16,
    ensures
        r@ == le_bytes(v as nat, n as nat),
{
    let mut out: Vec<u8> = Vec::new();
    let mut x = v;
    let mut i: usize = 0;
    proof {
        assert(le_bytes(v as nat, 0) =~= Seq::<u8>::empty());
    }
    while i < n
        invariant
            i <= n,
            out@ + le_bytes(x as nat, (n - i) as nat) == le_bytes(v as nat, n as nat),
        decreases n - i,
    {
        let ghost before = out@;
        assert(x % 256 < 256);
        out.push((x % 256) as u8);
        proof {
            assert(le_bytes(x as nat, (n - i) as nat) == seq![(x % 256) as u8] + le_bytes(
                (x / 256) as nat,
                (n - i - 1) as nat,
            ));
            assert(before + le_bytes(x as nat, (n - i) as nat) =~= out@ + le_bytes(
                (x / 256) as nat,
                (n - i - 1) as nat,
            ));
        }
        x = x / 256;
        i = i + 1;
    }
    assert(le_bytes(x as nat, 0) =~= Seq::<u8>::empty());
    assert(out@ + Seq::<u8>::empty() =~= out@);
    out
}

/// The low `n` bytes of `v`, most significant first.
pub fn write_be(v: u128, n: usize) -> (r: Vec<u8>)
    requires
        n <= 16,
    ensures
        r@ == be_bytes(v as nat, n as nat),
{
    let mut out: Vec<u8> = Vec::new();
    let mut i: usize = n;
    let mut x = v;
    // The bytes are produced least significant first into a scratch buffer,
    // then laid out in reverse.
    let mut low: Vec<u8> = Vec::new();
    while i > 0
        invariant
            i <= n,
            low@.len() == n - i,
            be_bytes(x as nat, i as nat) + low@.reverse() == be_bytes(v as nat, n as nat),
        decreases i,
    {
        let ghost before = low@;
        low.push((x % 256) as u8);
        proof {
            assert(low@.reverse() =~= seq![(x % 256) as u8] + before.reverse());
            assert(be_bytes(x as nat, i as nat) == be_bytes((x / 256) as nat, (i - 1) as nat).push(
                (x % 256) as u8,
            ));
            assert(be_bytes(x as nat, i as nat) + before.reverse() =~= be_bytes(
                (x / 256) as nat,
                (i - 1) as nat,
            ) + low@.reverse());
        }
        x = x / 256;
        i = i - 1;
    }
    assert(be_bytes(x as nat, 0) + low@.reverse() =~= low@.reverse());
    let mut j: usize = low.len();
    while j > 0
        invariant
            j <= low@.len(),
            out@ =~= low@.subrange(j as int, low@.len() as int).reverse(),
        decreases j,
    {
        out.push(low[j - 1]);
        j = j - 1;
        assert(out@ =~= low@.subrange(j as int, low@.len() as int).reverse());
    }
    out
}

} // verus!
