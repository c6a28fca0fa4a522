//! Variable-length integers: seven bits per byte, least significant group
//! first, with the high bit of a byte set when another byte follows.
use vstd::arithmetic::div_mod::*;
use vstd::arithmetic::mul::*;
use vstd::arithmetic::power::*;
use vstd::prelude::*;

verus! {

/// The canonical variable-length encoding of `v`.
pub open spec fn var_bytes(v: nat) -> Seq<u8>
    decreases v,
{
    if v < 128 {
        seq![v as u8]
    } else {
        seq![(v % 128 + 128) as u8] + var_bytes(v / 128)
    }
}

/// Where a variable-length integer read from the start of `s` ends, scanning
/// from position `i` and reading at most `max` bytes; `None` when `s` runs
/// out before a byte without the continuation bit is seen.
pub open spec fn var_end(s: Seq<u8>, i: nat, max: nat) -> Option<nat>
    decreases max - i,
{
    if i >= max {
        Some(i)
    } else if i >= s.len() {
        None
    } else if s[i as int] < 128 {
        Some(i + 1)
    } else {
        var_end(s, i + 1, max)
    }
}

/// The number carried by the low seven bits of the first `n` bytes of `s`.
pub open spec fn var_sum(s: Seq<u8>, n: nat) -> nat
    decreases n,
{
    if n == 0 {
        0
    } else {
        var_sum(s, (n - 1) as nat) + ((s[n - 1] % 128) as nat) * (pow(128, (n - 1) as nat) as nat)
    }
}

/// Reading a variable-length integer of at most `max` bytes from the start of
/// `s`: the number it carries and the count of bytes it takes.
pub open spec fn var_read(s: Seq<u8>, max: nat) -> Option<(nat, nat)> {
    match var_end(s, 0, max) {
        Some(n) => Some((var_sum(s, n), n)),
        None => None,
    }
}

/// The largest number of bytes a variable-length integer of each width takes.
pub open spec fn var_max_bytes(bits: nat) -> nat {
    if bits <= 16 {
        3
    } else if bits <= 32 {
        5
    } else if bits <= 64 {
        10
    } else {
        19
    }
}

// ---------------------------------------------------------------------------------------------

/// Every encoding takes at least one byte.
pub proof fn lemma_var_bytes_nonempty(v: nat)
    ensures
        var_bytes(v).len() >= 1,
    decreases v,
{
    if v >= 128 {
        lemma_var_bytes_nonempty(v / 128);
    }
}

/// A number below `128^k` takes at most `k` bytes.
pub proof fn lemma_var_bytes_len(v: nat, k: nat)
    requires
        k >= 1,
        v < pow(128, k),
    ensures
        var_bytes(v).len() <= k,
    decreases v,
{
    if v >= 128 {
        reveal(pow);
        if k == 1 {
            lemma_pow1(128);
        } else {
            assert(pow(128, k) == 128 * pow(128, (k - 1) as nat));
            let p = pow(128, (k - 1) as nat);
            assert(v / 128 < p) by (nonlinear_arith)
                requires
                    v < 128 * p,
            ;
            lemma_var_bytes_len(v / 128, (k - 1) as nat);
        }
    }
}

/// The exclusive upper bound of an unsigned integer of each width.
pub open spec fn width_bound(bits: nat) -> nat {
    if bits == 16 {
        0x1_0000
    } else if bits == 32 {
        0x1_0000_0000
    } else if bits == 64 {
        0x1_0000_0000_0000_0000nat
    } else {
        0x1_0000_0000_0000_0000_0000_0000_0000_0000nat
    }
}

/// The byte count bounds used by each integer width.
pub proof fn lemma_var_bytes_width(v: nat, bits: nat)
    requires
        bits == 16 || bits == 32 || bits == 64 || bits == 128,
        v < width_bound(bits),
    ensures
        var_bytes(v).len() <= var_max_bytes(bits),
        var_bytes(v).len() >= 1,
{
    lemma_var_bytes_nonempty(v);
    if bits == 16 {
        assert(pow(128, 3) == 0x20_0000) by {
            reveal_with_fuel(pow, 4);
        }
        lemma_var_bytes_len(v, 3);
    } else if bits == 32 {
        assert(pow(128, 5) == 0x8_0000_0000) by {
            reveal_with_fuel(pow, 6);
        }
        lemma_var_bytes_len(v, 5);
    } else if bits == 64 {
        assert(pow(128, 10) == 0x40_0000_0000_0000_0000nat) by {
            reveal_with_fuel(pow, 11);
        }
        lemma_var_bytes_len(v, 10);
    } else {
        assert(pow(128, 19) == 0x20_0000_0000_0000_0000_0000_0000_0000_0000nat) by {
            reveal_with_fuel(pow, 20);
        }
        lemma_var_bytes_len(v, 19);
    }
}

/// The value of `n` bytes stays below `128^n`.
pub proof fn lemma_var_sum_bound(s: Seq<u8>, n: nat)
    ensures
        var_sum(s, n) < pow(128, n),
    decreases n,
{
    reveal(pow);
    if n > 0 {
        lemma_var_sum_bound(s, (n - 1) as nat);
        let p = pow(128, (n - 1) as nat);
        let c = (s[n - 1] % 128) as nat;
        lemma_pow_positive(128, (n - 1) as nat);
        assert(var_sum(s, (n - 1) as nat) + c * p < 128 * p) by (nonlinear_arith)
            requires
                var_sum(s, (n - 1) as nat) < p,
                c < 128,
                p > 0,
        ;
    }
}

/// The value of a prefix does not depend on what follows it.
pub proof fn lemma_var_sum_prefix(s: Seq<u8>, t: Seq<u8>, n: nat)
    requires
        n <= s.len(),
    ensures
        var_sum(s + t, n) == var_sum(s, n),
    decreases n,
{
    if n > 0 {
        lemma_var_sum_prefix(s, t, (n - 1) as nat);
        assert((s + t)[n - 1] == s[n - 1]);
    }
}

/// Reading past a leading byte.
proof fn lemma_var_sum_cons(b: u8, t: Seq<u8>, n: nat)
    requires
        n <= t.len(),
    ensures
        var_sum(seq![b] + t, n + 1) == (b % 128) as nat + 128 * var_sum(t, n),
    decreases n,
{
    reveal(pow);
    let s = seq![b] + t;
    if n == 0 {
        assert(s[0] == b);
        lemma_pow0(128);
        assert(var_sum(s, 1) == var_sum(s, 0) + ((s[0] % 128) as nat) * (pow(128, 0) as nat));
        assert(var_sum(s, 0) == 0 && var_sum(t, 0) == 0);
        let x = (b % 128) as nat;
        assert(x * (pow(128, 0) as nat) == x) by (nonlinear_arith)
            requires
                pow(128, 0) == 1,
        ;
    } else {
        lemma_var_sum_cons(b, t, (n - 1) as nat);
        assert(s[n as int] == t[n - 1]);
        let p = pow(128, (n - 1) as nat);
        assert(pow(128, n) == 128 * p);
        let c = (t[n - 1] % 128) as nat;
        let a = var_sum(t, (n - 1) as nat);
        assert(var_sum(t, n) == a + c * (p as nat));
        assert(var_sum(s, n + 1) == var_sum(s, n) + c * (pow(128, n) as nat));
        assert(var_sum(s, n) == (b % 128) as nat + 128 * a);
        lemma_pow_positive(128, (n - 1) as nat);
        assert(128 * (a + c * p) == 128 * a + c * (128 * p)) by (nonlinear_arith);
    }
}

/// Scanning past a leading byte with the continuation bit.
proof fn lemma_var_end_cons(b: u8, t: Seq<u8>, i: nat, max: nat)
    ensures
        var_end(seq![b] + t, i + 1, max + 1) == (match var_end(t, i, max) {
            Some(n) => Some(n + 1),
            None => None::<nat>,
        }),
    decreases max - i,
{
    let s = seq![b] + t;
    if i < max && i < t.len() {
        assert(s[(i + 1) as int] == t[i as int]);
        if t[i as int] >= 128 {
            lemma_var_end_cons(b, t, i + 1, max);
        }
    }
}

/// What follows an encoding does not change where it ends or what it carries.
pub proof fn lemma_var_read_bytes(v: nat, rest: Seq<u8>, max: nat)
    requires
        var_bytes(v).len() <= max,
    ensures
        var_read(var_bytes(v) + rest, max) == Some((v, var_bytes(v).len())),
    decreases v,
{
    let s = var_bytes(v) + rest;
    if v < 128 {
        assert(s[0] == v as u8);
        assert(var_end(s, 0, max) == Some(1nat));
        lemma_pow0(128);
        assert(var_sum(s, 0) == 0);
        assert((v as u8) % 128 == v);
        assert(var_sum(s, 1) == var_sum(s, 0) + ((s[0] % 128) as nat) * (pow(128, 0) as nat));
        let x = (s[0] % 128) as nat;
        assert(x * (pow(128, 0) as nat) == x) by (nonlinear_arith)
            requires
                pow(128, 0) == 1,
        ;
        assert(var_sum(s, 1) == v);
    } else {
        let b = (v % 128 + 128) as u8;
        let t = var_bytes(v / 128) + rest;
        assert(s =~= seq![b] + t);
        lemma_var_read_bytes(v / 128, rest, (max - 1) as nat);
        lemma_var_end_cons(b, t, 0, (max - 1) as nat);
        assert(s[0] == b);
        assert(var_end(s, 0, max) == var_end(s, 1, max));
        lemma_var_sum_cons(b, t, var_bytes(v / 128).len());
        assert(v == v % 128 + 128 * (v / 128)) by (nonlinear_arith);
    }
}

/// Encoding then reading gives the number back, whatever follows it.
pub proof fn lemma_var_roundtrip(v: nat, bits: nat, rest: Seq<u8>)
    requires
        bits == 16 || bits == 32 || bits == 64 || bits == 128,
        v < width_bound(bits),
    ensures
        var_read(var_bytes(v) + rest, var_max_bytes(bits)) == Some((v, var_bytes(v).len())),
{
    lemma_var_bytes_width(v, bits);
    lemma_var_read_bytes(v, rest, var_max_bytes(bits));
}

/// A finished scan ends inside the input, after the start, and within the limit.
pub proof fn lemma_var_end_range(s: Seq<u8>, i: nat, max: nat)
    requires
        i < max,
        var_end(s, i, max) is Some,
    ensures
        i < var_end(s, i, max).unwrap() <= max,
        var_end(s, i, max).unwrap() <= s.len(),
    decreases max - i,
{
    if i < s.len() && s[i as int] >= 128 {
        if i + 1 < max {
            lemma_var_end_range(s, i + 1, max);
        } else {
            assert(var_end(s, i + 1, max) == Some(i + 1));
        }
    }
}

/// A scan that ends inside `s` ends in the same place whatever follows `s`.
proof fn lemma_var_end_extend(s: Seq<u8>, t: Seq<u8>, i: nat, max: nat)
    requires
        var_end(s, i, max) is Some,
    ensures
        var_end(s + t, i, max) == var_end(s, i, max),
    decreases max - i,
{
    if i < max && i < s.len() {
        assert((s + t)[i as int] == s[i as int]);
        if s[i as int] >= 128 {
            lemma_var_end_extend(s, t, i + 1, max);
        }
    }
}

/// A number read whole from `s` reads the same whatever follows `s`.
pub proof fn lemma_var_read_prefix(s: Seq<u8>, t: Seq<u8>, max: nat)
    requires
        0 < max,
        var_read(s, max) is Some,
    ensures
        var_read(s + t, max) == var_read(s, max),
{
    lemma_var_end_extend(s, t, 0, max);
    lemma_var_end_range(s, 0, max);
    let n = var_end(s, 0, max).unwrap();
    lemma_var_sum_prefix(s, t, n);
}

/// An integer read whole from `s` reads the same whatever follows `s`.
pub proof fn lemma_var_read_extend(s: Seq<u8>, t: Seq<u8>, max: nat, bits: nat)
    requires
        0 < max,
        var_read_width(s, max, bits) is Some,
    ensures
        var_read_width(s + t, max, bits) == var_read_width(s, max, bits),
{
    lemma_var_end_extend(s, t, 0, max);
    lemma_var_end_range(s, 0, max);
    let n = var_end(s, 0, max).unwrap();
    lemma_var_sum_prefix(s, t, n);
}

/// What `variable_to_bytes` writes of a number, `bytes_to_variable` reads
/// back as the number, taking exactly those bytes, whatever follows them.
pub proof fn lemma_variable_roundtrip(val: u128, rest: Seq<u8>)
    ensures
        var_read_width(var_bytes(val as nat) + rest, 19, 128) == Some(
            (val as nat, var_bytes(val as nat).len()),
        ),
{
    lemma_var_roundtrip(val as nat, 128, rest);
    assert(var_max_bytes(128) == 19);
    lemma_small_mod(val as nat, width_bound(128));
}

/// Bytes that all carry the continuation bit, fewer than a number can take,
/// hold no whole number: reading one runs out of input.
pub proof fn lemma_variable_runs_out(s: Seq<u8>)
    requires
        s.len() < 19,
        forall|i: int| 0 <= i < s.len() ==> #[trigger] s[i] >= 128,
    ensures
        var_read_width(s, 19, 128) is None,
{
    lemma_var_end_cut(s, 0);
}

proof fn lemma_var_end_cut(s: Seq<u8>, i: nat)
    requires
        s.len() < 19,
        i <= s.len(),
        forall|j: int| 0 <= j < s.len() ==> #[trigger] s[j] >= 128,
    ensures
        var_end(s, i, 19) is None,
    decreases s.len() - i,
{
    if i < s.len() {
        lemma_var_end_cut(s, i + 1);
    }
}

// ---------------------------------------------------------------------------------------------

/// Writes the variable-length encoding of `val` to the start of `buffer` and
/// returns how many bytes it takes; the rest of `buffer` is left as it was.
pub fn variable_to_bytes(val: u128, buffer: &mut [u8; 19]) -> (len: usize)
    ensures
        len == var_bytes(val as nat).len(),
        final(buffer)@.take(len as int) == var_bytes(val as nat),
        final(buffer)@.skip(len as int) == old(buffer)@.skip(len as int),
{
    let ghost orig = val as nat;
    let mut val = val;
    let mut index: usize = 0;
    proof {
        lemma_var_bytes_width(orig, 128);
        assert(buffer@.take(0) + var_bytes(orig) =~= var_bytes(orig));
    }
    while (val != 0 || index == 0) && index < 19
        invariant
            index <= 19,
            var_bytes(orig).len() <= 19,
            buffer@.len() == 19,
            index == 0 ==> val == orig,
            buffer@.skip(index as int) == old(buffer)@.skip(index as int),
            index > 0 && val == 0 ==> buffer@.take(index as int) == var_bytes(orig),
            !(index > 0 && val == 0) ==> buffer@.take(index as int) + var_bytes(val as nat)
                == var_bytes(orig),
        decreases 19 - index,
    {
        let ghost prev = buffer@;
        let ghost v = val as nat;
        let mut byte = (val & 0b0111_1111) as u8;
        let next = (val >> 7) & (u128::MAX >> 6);
        assert(val & 0b0111_1111 == val % 128) by (bit_vector);
        assert((val >> 7) & (u128::MAX >> 6) == val / 128) by (bit_vector);
        val = next;
        if val != 0 {
            assert(byte < 128 ==> byte | 0b1000_0000 == byte + 128) by (bit_vector);
            byte = byte | 0b1000_0000;
        }
        buffer[index] = byte;
        index = index + 1;
        proof {
            assert(buffer@ == prev.update(index - 1, byte));
            assert(buffer@.take(index as int) =~= prev.take(index - 1).push(byte));
            assert(buffer@.skip(index as int) =~= prev.skip(index - 1).skip(1));
            assert(old(buffer)@.skip(index as int) =~= old(buffer)@.skip(index - 1).skip(1));
            if v < 128 {
                assert(var_bytes(v) =~= seq![byte]);
                assert(prev.take(index - 1) + var_bytes(v) =~= prev.take(index - 1).push(byte));
            } else {
                assert(var_bytes(v) == seq![byte] + var_bytes(v / 128));
                assert(prev.take(index - 1) + var_bytes(v) =~= prev.take(index - 1).push(byte)
                    + var_bytes(v / 128));
            }
            if index == 19 && val != 0 {
                lemma_var_bytes_nonempty(val as nat);
                assert(false);
            }
        }
    }
    index
}

/// The number carried by the variable-length integer at the start of `s`,
/// read with at most `max` bytes and cut to the low `bits` bits, with the
/// count of bytes it takes.
pub open spec fn var_read_width(s: Seq<u8>, max: nat, bits: nat) -> Option<(nat, nat)> {
    match var_read(s, max) {
        Some((v, n)) => Some((v % width_bound(bits), n)),
        None => None,
    }
}

/// Reads the variable-length integer at the start of `input`, taking at most
/// `max` bytes: the number it carries, cut to 128 bits, and how many bytes it
/// took. `None` when `input` ends before the integer does.
pub fn read_var(input: &[u8], max: usize) -> (r: Option<(u128, usize)>)
    requires
        1 <= max <= 19,
    ensures
        match var_read_width(input@, max as nat, 128) {
            Some((v, n)) => r == Some((v as u128, n as usize)),
            None => r is None,
        },
{
    let ghost s = input@;
    let ghost m: nat = 0x1_0000_0000_0000_0000_0000_0000_0000_0000nat;
    let mut number: u128 = 0;
    let mut mult: u128 = 1;
    let mut index: usize = 0;
    proof {
        lemma_pow0(128);
        assert(pow(128, 18) == 0x4000_0000_0000_0000_0000_0000_0000_0000u128) by {
            reveal_with_fuel(pow, 19);
        }
    }
    while index < max
        invariant
            1 <= max <= 19,
            index <= max,
            s == input@,
            m == 0x1_0000_0000_0000_0000_0000_0000_0000_0000nat,
            var_end(s, 0, max as nat) == var_end(s, index as nat, max as nat),
            index <= 18 ==> mult == pow(128, index as nat),
            index <= 18 ==> number == var_sum(s, index as nat),
            index == 19 ==> number == var_sum(s, 19) % m,
            pow(128, 18) == 0x4000_0000_0000_0000_0000_0000_0000_0000u128,
        decreases max - index,
    {
        if index >= input.len() {
            assert(var_end(s, index as nat, max as nat) is None);
            return None;
        }
        let byte = input[index];
        let c = (byte & 0b0111_1111) as u128;
        assert(byte & 0b0111_1111 == byte % 128) by (bit_vector);
        proof {
            lemma_var_sum_bound(s, index as nat);
            lemma_pow_positive(128, index as nat);
        }
        let ghost total = var_sum(s, index as nat) + (c as nat) * (pow(128, index as nat) as nat);
        assert(var_sum(s, (index + 1) as nat) == total);
        if index < 18 {
            proof {
                lemma_pow_increases(128, (index + 1) as nat, 18);
                assert(pow(128, (index + 1) as nat) == 128 * pow(128, index as nat)) by {
                    reveal(pow);
                }
                assert((c as nat) * (mult as nat) + (number as nat) < 128 * (mult as nat)) by (nonlinear_arith)
                    requires
                        c < 128,
                        number < mult,
                ;
            }
            number = number + c * mult;
        } else {
            proof {
                assert(number < mult);
                assert((c % 4) * mult + number < m) by (nonlinear_arith)
                    requires
                        mult == 0x4000_0000_0000_0000_0000_0000_0000_0000u128,
                        number < mult,
                        m == 0x1_0000_0000_0000_0000_0000_0000_0000_0000nat,
                ;
                assert(total == (number + (c % 4) * mult) + (c / 4) * m) by (nonlinear_arith)
                    requires
                        total == number + c * mult,
                        mult == 0x4000_0000_0000_0000_0000_0000_0000_0000u128,
                        m == 0x1_0000_0000_0000_0000_0000_0000_0000_0000nat,
                ;
                lemma_fundamental_div_mod_converse(
                    total as int,
                    m as int,
                    (c / 4) as int,
                    (number + (c % 4) * mult) as int,
                );
            }
            number = number + (c % 4) * mult;
        }
        index = index + 1;
        if byte < 128 {
            assert(var_end(s, (index - 1) as nat, max as nat) == Some(index as nat));
            return Some((number, index));
        }
        assert(var_end(s, (index - 1) as nat, max as nat) == var_end(s, index as nat, max as nat));
        if index < 19 {
            proof {
                reveal(pow);
            }
            mult = mult * 128;
        }
    }
    assert(var_end(s, index as nat, max as nat) == Some(index as nat));
    proof {
        if index <= 18 {
            lemma_var_sum_bound(s, index as nat);
            lemma_pow_increases(128, index as nat, 18);
            lemma_small_mod(number as nat, m);
        }
    }
    Some((number, index))
}

} // verus!
