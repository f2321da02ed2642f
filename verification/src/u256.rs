use vstd::prelude::*;

verus! {

/// The base of one limb: a `u64` holds one digit in base 2^64.
pub open spec fn limb_base() -> nat {
    0x1_0000_0000_0000_0000
}

/// 256 to the power `n`.
pub open spec fn pow256(n: nat) -> nat
    decreases n,
{
    if n == 0 {
        1
    } else {
        256 * pow256((n - 1) as nat)
    }
}

/// The number that a byte string denotes when read little-endian:
/// the first byte is the least significant.
pub open spec fn le_value(bytes: Seq<u8>) -> nat
    decreases bytes.len(),
{
    if bytes.len() == 0 {
        0
    } else {
        bytes[0] as nat + 256 * le_value(bytes.drop_first())
    }
}

/// An unsigned integer of 256 bits, held as four 64-bit limbs, least
/// significant limb first.
#[derive(Clone, Copy, Debug)]
pub struct U256(pub [u64; 4]);

impl PartialEq for U256 {
    fn eq(&self, other: &U256) -> (r: bool) {
        let r = self.0[0] == other.0[0] && self.0[1] == other.0[1] && self.0[2] == other.0[2]
            && self.0[3] == other.0[3];
        proof {
            if r {
                assert(self.0 =~= other.0);
            }
        }
        r
    }
}

impl Eq for U256 {

}

impl vstd::std_specs::cmp::PartialEqSpecImpl for U256 {
    open spec fn obeys_eq_spec() -> bool {
        true
    }

    open spec fn eq_spec(&self, other: &U256) -> bool {
        *self == *other
    }
}

impl View for U256 {
    type V = nat;

    /// The number that the limbs denote.
    open spec fn view(&self) -> nat {
        self.0[0] as nat + limb_base() * (self.0[1] as nat + limb_base() * (self.0[2] as nat
            + limb_base() * (self.0[3] as nat)))
    }
}

proof fn lemma_pow256_8()
    ensures
        pow256(8) == limb_base(),
{
    reveal_with_fuel(pow256, 9);
}

proof fn lemma_pow256_positive(n: nat)
    ensures
        pow256(n) >= 1,
    decreases n,
{
    if n > 0 {
        lemma_pow256_positive((n - 1) as nat);
    }
}

proof fn lemma_pow256_add(a: nat, b: nat)
    ensures
        pow256(a + b) == pow256(a) * pow256(b),
    decreases a,
{
    if a > 0 {
        let a1 = (a - 1) as nat;
        lemma_pow256_add(a1, b);
        let p = pow256(a1);
        let q = pow256(b);
        assert(pow256(a1 + b) == p * q);
        assert(pow256(a + b) == 256 * pow256(a1 + b));
        assert(pow256(a) == 256 * p);
        assert(256 * (p * q) == (256 * p) * q) by (nonlinear_arith);
    } else {
        assert(pow256(0) == 1);
        assert(a + b == b);
    }
}

/// A little-endian value is below 256 to the power of the length.
proof fn lemma_le_value_bound(bytes: Seq<u8>)
    ensures
        le_value(bytes) < pow256(bytes.len()),
    decreases bytes.len(),
{
    if bytes.len() > 0 {
        let rest = bytes.drop_first();
        lemma_le_value_bound(rest);
        let x = le_value(rest);
        let p = pow256(rest.len());
        let b = bytes[0] as nat;
        assert(b + 256 * x < 256 * p) by (nonlinear_arith)
            requires
                b < 256,
                x < p,
        ;
    }
}

/// Reading `a + b` little-endian gives the value of `a` plus that of `b`
/// shifted past `a`.
proof fn lemma_le_value_concat(a: Seq<u8>, b: Seq<u8>)
    ensures
        le_value(a + b) == le_value(a) + pow256(a.len()) * le_value(b),
    decreases a.len(),
{
    if a.len() == 0 {
        assert(a + b =~= b);
        assert(le_value(a) == 0);
        assert(pow256(a.len()) == 1);
    } else {
        let rest = a.drop_first();
        assert((a + b).drop_first() =~= rest + b);
        lemma_le_value_concat(rest, b);
        let x = le_value(rest);
        let y = le_value(b);
        let p = pow256(rest.len());
        assert(256 * (x + p * y) == 256 * x + (256 * p) * y) by (nonlinear_arith);
        assert((a + b)[0] == a[0]);
        assert(le_value(a + b) == a[0] as nat + 256 * le_value(rest + b));
        assert(pow256(a.len()) == 256 * p);
    }
}

/// Byte `i` of a little-endian byte string is digit `i` of its value in
/// base 256.
pub proof fn lemma_le_value_byte(bytes: Seq<u8>, i: nat)
    requires
        i < bytes.len(),
    ensures
        (le_value(bytes) / pow256(i)) % 256 == bytes[i as int],
    decreases i,
{
    let rest = bytes.drop_first();
    vstd::arithmetic::div_mod::lemma_fundamental_div_mod_converse(
        le_value(bytes) as int,
        256,
        le_value(rest) as int,
        bytes[0] as int,
    );
    if i == 0 {
        assert(pow256(0) == 1);
    } else {
        let j = (i - 1) as nat;
        lemma_le_value_byte(rest, j);
        lemma_pow256_positive(j);
        assert(pow256(i) == 256 * pow256(j));
        vstd::arithmetic::div_mod::lemma_div_denominator(le_value(bytes) as int, 256, pow256(j) as int);
        assert(rest[j as int] == bytes[i as int]);
    }
}

/// Trailing zero bytes do not change a little-endian value.
proof fn lemma_le_value_zeros(a: Seq<u8>, n: nat)
    ensures
        le_value(a + Seq::new(n, |i: int| 0u8)) == le_value(a),
    decreases n,
{
    let z = Seq::new(n, |i: int| 0u8);
    lemma_le_value_concat(a, z);
    lemma_le_value_of_zeros(n);
    assert(pow256(a.len()) * le_value(z) == 0) by (nonlinear_arith)
        requires
            le_value(z) == 0,
    ;
}

proof fn lemma_le_value_of_zeros(n: nat)
    ensures
        le_value(Seq::new(n, |i: int| 0u8)) == 0,
    decreases n,
{
    if n > 0 {
        assert(Seq::new(n, |i: int| 0u8).drop_first() =~= Seq::new((n - 1) as nat, |i: int| 0u8));
        lemma_le_value_of_zeros((n - 1) as nat);
    }
}

/// The value of a 32-byte string split into its four 8-byte chunks.
proof fn lemma_le_value_chunks(b: Seq<u8>)
    requires
        b.len() == 32,
    ensures
        le_value(b) == le_value(b.subrange(0, 8)) + limb_base() * (le_value(b.subrange(8, 16))
            + limb_base() * (le_value(b.subrange(16, 24)) + limb_base() * le_value(
            b.subrange(24, 32),
        ))),
{
    lemma_pow256_8();
    let c0 = b.subrange(0, 8);
    let c1 = b.subrange(8, 16);
    let c2 = b.subrange(16, 24);
    let c3 = b.subrange(24, 32);
    assert(b.subrange(16, 32) =~= c2 + c3);
    assert(b.subrange(8, 32) =~= c1 + b.subrange(16, 32));
    assert(b =~= c0 + b.subrange(8, 32));
    lemma_le_value_concat(c2, c3);
    lemma_le_value_concat(c1, b.subrange(16, 32));
    lemma_le_value_concat(c0, b.subrange(8, 32));
}

/// Limbs below 2^64 are determined by the number they denote: numbers of
/// the same value are equal.
pub proof fn lemma_value_injective(x: U256, y: U256)
    requires
        x@ == y@,
    ensures
        x == y,
{
    let b = limb_base() as int;
    let hx = x.0[1] + b * (x.0[2] + b * x.0[3]);
    let hy = y.0[1] + b * (y.0[2] + b * y.0[3]);
    vstd::arithmetic::div_mod::lemma_fundamental_div_mod_converse(x@ as int, b, hx, x.0[0] as int);
    vstd::arithmetic::div_mod::lemma_fundamental_div_mod_converse(x@ as int, b, hy, y.0[0] as int);
    let mx = x.0[2] + b * x.0[3];
    let my = y.0[2] + b * y.0[3];
    vstd::arithmetic::div_mod::lemma_fundamental_div_mod_converse(hx, b, mx, x.0[1] as int);
    vstd::arithmetic::div_mod::lemma_fundamental_div_mod_converse(hx, b, my, y.0[1] as int);
    vstd::arithmetic::div_mod::lemma_fundamental_div_mod_converse(mx, b, x.0[3] as int, x.0[2] as int);
    vstd::arithmetic::div_mod::lemma_fundamental_div_mod_converse(mx, b, y.0[3] as int, y.0[2] as int);
    assert(x.0 =~= y.0);
}

/// For digits `a`, `c` below `b`: `a + b*x <= c + b*y` exactly when the
/// high parts compare that way, or they are equal and the digits do.
proof fn lemma_digit_order(a: int, c: int, x: int, y: int, b: int)
    requires
        0 <= a < b,
        0 <= c < b,
        0 <= x,
        0 <= y,
    ensures
        (a + b * x <= c + b * y) == (x < y || (x == y && a <= c)),
{
    if x < y {
        assert(a + b * x <= c + b * y) by (nonlinear_arith)
            requires
                0 <= a < b,
                0 <= c,
                x < y,
        ;
    } else if x > y {
        assert(a + b * x > c + b * y) by (nonlinear_arith)
            requires
                0 <= a,
                0 <= c < b,
                x > y,
        ;
    }
}

/// The little-endian value of the 8 bytes of `bytes` from `start`.
fn limb_from_bytes(bytes: &[u8; 32], start: usize) -> (limb: u64)
    requires
        start + 8 <= 32,
    ensures
        limb == le_value(bytes@.subrange(start as int, start + 8)),
{
    let mut acc: u64 = 0;
    let mut j: usize = 8;
    while j > 0
        invariant
            start + 8 <= 32,
            j <= 8,
            acc == le_value(bytes@.subrange(start + j, start + 8)),
        decreases j,
    {
        j = j - 1;
        proof {
            let s = bytes@.subrange(start + j, start + 8);
            assert(s.drop_first() =~= bytes@.subrange(start + j + 1, start + 8));
            lemma_le_value_bound(s.drop_first());
            lemma_pow256_8();
            if j < 7 {
                lemma_pow256_add((7 - j) as nat, (j + 1) as nat);
                lemma_pow256_positive((j + 1) as nat);
                assert(pow256((7 - j) as nat) <= pow256(8)) by (nonlinear_arith)
                    requires
                        pow256(8) == pow256((7 - j) as nat) * pow256((j + 1) as nat),
                        pow256((j + 1) as nat) >= 1,
                ;
            }
            assert(acc < pow256(7)) by {
                reveal_with_fuel(pow256, 9);
            }
        }
        acc = acc * 256 + bytes[start + j] as u64;
    }
    acc
}

/// The 8 bytes that hold `limb` little-endian, written into `out` from `start`.
fn write_limb(out: &mut [u8; 32], start: usize, limb: u64)
    requires
        start + 8 <= 32,
    ensures
        le_value(final(out)@.subrange(start as int, start + 8)) == limb,
        forall|i: int|
            0 <= i < 32 && !(start <= i < start + 8) ==> #[trigger] final(out)@[i] == old(out)@[i],
{
    let mut rest: u64 = limb;
    let mut j: usize = 0;
    proof {
        lemma_pow256_8();
        assert(out@.subrange(start as int, start as int) =~= Seq::<u8>::empty());
        assert(le_value(Seq::<u8>::empty()) == 0);
        assert(pow256(0) == 1);
    }
    while j < 8
        invariant
            start + 8 <= 32,
            j <= 8,
            limb == le_value(out@.subrange(start as int, start + j)) + pow256(j as nat) * rest,
            rest < pow256((8 - j) as nat),
            forall|i: int|
                0 <= i < 32 && !(start <= i < start + 8) ==> #[trigger] out@[i] == old(out)@[i],
        decreases 8 - j,
    {
        let ghost prev = out@.subrange(start as int, start + j);
        let digit = (rest % 256) as u8;
        let next = rest / 256;
        out[start + j] = digit;
        proof {
            assert(out@.subrange(start as int, start + j + 1) =~= prev + seq![digit]);
            lemma_le_value_concat(prev, seq![digit]);
            assert(seq![digit].drop_first() =~= Seq::<u8>::empty());
            assert(le_value(seq![digit]) == digit) by {
                reveal_with_fuel(le_value, 2);
            }
            let p = pow256(j as nat);
            assert(pow256((j + 1) as nat) == 256 * p) by {
                lemma_pow256_add(1, j as nat);
                reveal_with_fuel(pow256, 2);
            }
            assert(rest == 256 * next + digit);
            assert(p * rest == p * digit + (256 * p) * next) by (nonlinear_arith)
                requires
                    rest == 256 * next + digit,
            ;
            assert(pow256((8 - j) as nat) == 256 * pow256((8 - j - 1) as nat));
            assert(next < pow256((8 - j - 1) as nat)) by (nonlinear_arith)
                requires
                    rest < 256 * pow256((8 - j - 1) as nat),
                    rest == 256 * next + digit,
                    digit >= 0,
            ;
        }
        rest = next;
        j = j + 1;
    }
    proof {
        reveal_with_fuel(pow256, 1);
        assert(rest == 0);
    }
}

impl U256 {
    /// The number zero.
    pub fn zero() -> (r: U256)
        ensures
            r@ == 0,
    {
        U256([0, 0, 0, 0])
    }

    /// The number that `slice` denotes read little-endian. At most 32 bytes
    /// fit in 256 bits.
    pub fn from_little_endian(slice: &[u8]) -> (r: U256)
        requires
            slice@.len() <= 32,
        ensures
            r@ == le_value(slice@),
    {
        let mut buf: [u8; 32] = [0u8; 32];
        let n = slice.len();
        let mut i: usize = 0;
        while i < n
            invariant
                n == slice@.len(),
                n <= 32,
                i <= n,
                forall|k: int| 0 <= k < i ==> #[trigger] buf@[k] == slice@[k],
                forall|k: int| i <= k < 32 ==> #[trigger] buf@[k] == 0,
            decreases n - i,
        {
            buf[i] = slice[i];
            i = i + 1;
        }
        proof {
            let zeros = Seq::new((32 - n) as nat, |k: int| 0u8);
            assert(buf@ =~= slice@ + zeros);
            lemma_le_value_zeros(slice@, (32 - n) as nat);
            lemma_le_value_chunks(buf@);
        }
        let l0 = limb_from_bytes(&buf, 0);
        let l1 = limb_from_bytes(&buf, 8);
        let l2 = limb_from_bytes(&buf, 16);
        let l3 = limb_from_bytes(&buf, 24);
        U256([l0, l1, l2, l3])
    }

    /// The 32 bytes that denote this number little-endian.
    pub fn to_little_endian(&self) -> (bytes: [u8; 32])
        ensures
            le_value(bytes@) == self@,
    {
        let mut out: [u8; 32] = [0u8; 32];
        write_limb(&mut out, 0, self.0[0]);
        let ghost c0 = out@.subrange(0, 8);
        write_limb(&mut out, 8, self.0[1]);
        let ghost c1 = out@.subrange(8, 16);
        assert(out@.subrange(0, 8) =~= c0);
        write_limb(&mut out, 16, self.0[2]);
        let ghost c2 = out@.subrange(16, 24);
        assert(out@.subrange(0, 8) =~= c0);
        assert(out@.subrange(8, 16) =~= c1);
        write_limb(&mut out, 24, self.0[3]);
        assert(out@.subrange(0, 8) =~= c0);
        assert(out@.subrange(8, 16) =~= c1);
        assert(out@.subrange(16, 24) =~= c2);
        proof {
            lemma_le_value_chunks(out@);
        }
        out
    }

    /// Whether this number is at most `other`.
    pub fn le(&self, other: &U256) -> (r: bool)
        ensures
            r == (self@ <= other@),
    {
        let x = self.0;
        let y = other.0;
        proof {
            let b = limb_base() as int;
            let hx = x[2] + b * x[3];
            let hy = y[2] + b * y[3];
            let mx = x[1] + b * hx;
            let my = y[1] + b * hy;
            lemma_digit_order(x[2] as int, y[2] as int, x[3] as int, y[3] as int, b);
            lemma_digit_order(x[1] as int, y[1] as int, hx, hy, b);
            lemma_digit_order(x[0] as int, y[0] as int, mx, my, b);
            assert(hx == hy <==> (x[3] == y[3] && x[2] == y[2])) by {
                if hx == hy {
                    lemma_digit_order(x[2] as int, y[2] as int, x[3] as int, y[3] as int, b);
                    lemma_digit_order(y[2] as int, x[2] as int, y[3] as int, x[3] as int, b);
                }
            }
            assert(mx == my <==> (hx == hy && x[1] == y[1])) by {
                if mx == my {
                    lemma_digit_order(x[1] as int, y[1] as int, hx, hy, b);
                    lemma_digit_order(y[1] as int, x[1] as int, hy, hx, b);
                }
            }
        }
        if x[3] != y[3] {
            x[3] < y[3]
        } else if x[2] != y[2] {
            x[2] < y[2]
        } else if x[1] != y[1] {
            x[1] < y[1]
        } else {
            x[0] <= y[0]
        }
    }
}

/// The lower-case hex digit for `d`, below 16.
pub open spec fn hex_char(d: nat) -> char {
    if d < 10 {
        ('0' as nat + d) as char
    } else {
        ('a' as nat + d - 10) as char
    }
}

/// `v` written in lower-case hex without leading zeros; zero is `0`.
pub open spec fn lower_hex(v: nat) -> Seq<char>
    decreases v,
{
    if v < 16 {
        seq![hex_char(v)]
    } else {
        lower_hex(v / 16).push(hex_char(v % 16))
    }
}

/// A character of the lower-case hex alphabet.
pub open spec fn is_lower_hex_digit(c: char) -> bool {
    ('0' <= c && c <= '9') || ('a' <= c && c <= 'f')
}

/// 16 to the power `n`.
pub open spec fn pow16(n: nat) -> nat
    decreases n,
{
    if n == 0 {
        1
    } else {
        16 * pow16((n - 1) as nat)
    }
}

/// Every number of 256 bits is below 16 to the power 64.
proof fn lemma_value_below_pow16_64(x: U256)
    ensures
        x@ < pow16(64),
{
    let b = limb_base() as int;
    assert(pow16(16) == limb_base()) by {
        reveal_with_fuel(pow16, 17);
    }
    lemma_pow16_add(16, 16);
    lemma_pow16_add(32, 16);
    lemma_pow16_add(48, 16);
    let (a0, a1, a2, a3) = (x.0[0] as int, x.0[1] as int, x.0[2] as int, x.0[3] as int);
    assert(a2 + b * a3 < b * b) by (nonlinear_arith)
        requires
            0 <= a2 < b,
            0 <= a3 < b,
    ;
    assert(a1 + b * (a2 + b * a3) < b * (b * b)) by (nonlinear_arith)
        requires
            0 <= a1 < b,
            0 <= a2 + b * a3 < b * b,
    ;
    assert(a0 + b * (a1 + b * (a2 + b * a3)) < b * (b * (b * b))) by (nonlinear_arith)
        requires
            0 <= a0 < b,
            0 <= a1 + b * (a2 + b * a3) < b * (b * b),
    ;
    assert(pow16(64) == b * (b * (b * b))) by (nonlinear_arith)
        requires
            pow16(32) == b * b,
            pow16(48) == pow16(32) * b,
            pow16(64) == pow16(48) * b,
    ;
}

proof fn lemma_pow16_add(a: nat, b: nat)
    ensures
        pow16(a + b) == pow16(a) * pow16(b),
    decreases a,
{
    if a > 0 {
        let a1 = (a - 1) as nat;
        lemma_pow16_add(a1, b);
        let p = pow16(a1);
        let q = pow16(b);
        assert(pow16(a + b) == 16 * pow16(a1 + b));
        assert(pow16(a) == 16 * p);
        assert(16 * (p * q) == (16 * p) * q) by (nonlinear_arith);
    } else {
        assert(pow16(0) == 1);
        assert(a + b == b);
    }
}

/// `lower_hex(v)` has between 1 and `k` digits when `v` is below 16 to the
/// power `k`, all of them lower-case hex, and starts with `0` only for zero.
proof fn lemma_lower_hex_shape(v: nat, k: nat)
    requires
        k >= 1,
        v < pow16(k),
    ensures
        1 <= lower_hex(v).len() <= k,
        forall|i: int| 0 <= i < lower_hex(v).len() ==> is_lower_hex_digit(#[trigger] lower_hex(v)[i]),
        lower_hex(v)[0] != '0' || v == 0,
        v == 0 ==> lower_hex(v) == seq!['0'],
    decreases v,
{
    if v >= 16 {
        let k1 = (k - 1) as nat;
        if k1 == 0 {
            assert(pow16(1) == 16) by {
                reveal_with_fuel(pow16, 2);
            }
        }
        assert(pow16(k) == 16 * pow16(k1));
        assert(v / 16 < pow16(k1)) by (nonlinear_arith)
            requires
                v < 16 * pow16(k1),
        ;
        lemma_lower_hex_shape(v / 16, k1);
        let h = lower_hex(v / 16);
        assert(lower_hex(v) == h.push(hex_char(v % 16)));
        assert(lower_hex(v)[0] == h[0]);
    }
}

fn hex_digit(d: u8) -> (c: char)
    requires
        d < 16,
    ensures
        c == hex_char(d as nat),
{
    let digits = [
        '0', '1', '2', '3', '4', '5', '6', '7', '8', '9', 'a', 'b', 'c', 'd', 'e', 'f',
    ];
    let c = digits[d as usize];
    assert(c == hex_char(d as nat)) by {
        assert(digits@ == seq![
            '0', '1', '2', '3', '4', '5', '6', '7', '8', '9', 'a', 'b', 'c', 'd', 'e', 'f',
        ]);
    }
    c
}

/// Calls `String::push`, which appends one character.
#[verifier::external_body]
pub(crate) fn push_char(s: &mut String, c: char)
    ensures
        final(s)@ == old(s)@.push(c),
{
    s.push(c)
}

/// Appends the characters of `chars` to `text`, last one first.
fn append_reversed(text: &mut String, chars: &Vec<char>)
    ensures
        final(text)@ == old(text)@ + chars@.reverse(),
{
    let n = chars.len();
    let mut i: usize = n;
    while i > 0
        invariant
            i <= n,
            n == chars@.len(),
            text@ + chars@.subrange(0, i as int).reverse() == old(text)@ + chars@.reverse(),
        decreases i,
    {
        i = i - 1;
        let ghost before = text@;
        push_char(text, chars[i]);
        proof {
            assert(chars@.subrange(0, i + 1).reverse() =~= seq![chars@[i as int]]
                + chars@.subrange(0, i as int).reverse());
            assert(before + chars@.subrange(0, i + 1).reverse() =~= text@
                + chars@.subrange(0, i as int).reverse());
        }
    }
    assert(chars@.subrange(0, 0).reverse() =~= Seq::<char>::empty());
    assert(text@ + Seq::<char>::empty() =~= text@);
}

impl U256 {
    /// This number divided by 16, and the remainder.
    fn div_rem_16(&self) -> (r: (U256, u8))
        ensures
            r.0@ == self@ / 16,
            r.1 == self@ % 16,
    {
        let l = self.0;
        let high: u64 = 0x1000_0000_0000_0000;
        let q0 = l[0] / 16 + (l[1] % 16) * high;
        let q1 = l[1] / 16 + (l[2] % 16) * high;
        let q2 = l[2] / 16 + (l[3] % 16) * high;
        let q3 = l[3] / 16;
        let rem = (l[0] % 16) as u8;
        let q = U256([q0, q1, q2, q3]);
        proof {
            let b = limb_base() as int;
            let (a0, a1, a2, a3) = (l[0] as int, l[1] as int, l[2] as int, l[3] as int);
            assert(16 * (q3 as int) + a3 % 16 == a3);
            assert(16 * (q2 as int) + a2 % 16 == a2 + b * (a3 % 16)) by {
                assert(16 * (a3 % 16) * 0x1000_0000_0000_0000 == b * (a3 % 16));
            }
            assert(16 * (q1 as int) + a1 % 16 == a1 + b * (a2 % 16)) by {
                assert(16 * (a2 % 16) * 0x1000_0000_0000_0000 == b * (a2 % 16));
            }
            assert(16 * (q0 as int) + a0 % 16 == a0 + b * (a1 % 16)) by {
                assert(16 * (a1 % 16) * 0x1000_0000_0000_0000 == b * (a1 % 16));
            }
            let x = q1 as int + b * (q2 as int + b * q3 as int);
            assert(16 * (q2 as int + b * q3 as int) == a2 - a2 % 16 + b * a3) by (nonlinear_arith)
                requires
                    16 * (q3 as int) + a3 % 16 == a3,
                    16 * (q2 as int) + a2 % 16 == a2 + b * (a3 % 16),
            ;
            assert(16 * x == a1 - a1 % 16 + b * (a2 + b * a3)) by (nonlinear_arith)
                requires
                    x == q1 as int + b * (q2 as int + b * q3 as int),
                    16 * (q2 as int + b * q3 as int) == a2 - a2 % 16 + b * a3,
                    16 * (q1 as int) + a1 % 16 == a1 + b * (a2 % 16),
            ;
            assert(16 * (q0 as int + b * x) == a0 - a0 % 16 + b * (a1 + b * (a2 + b * a3)))
                by (nonlinear_arith)
                requires
                    16 * x == a1 - a1 % 16 + b * (a2 + b * a3),
                    16 * (q0 as int) + a0 % 16 == a0 + b * (a1 % 16),
            ;
            vstd::arithmetic::div_mod::lemma_fundamental_div_mod_converse(
                self@ as int,
                16,
                q@ as int,
                a0 % 16,
            );
        }
        (q, rem)
    }

    /// This number written in lower-case hex without leading zeros, as the
    /// `{:x}` format writes it; zero is `0`.
    pub fn to_lower_hex(&self) -> (text: String)
        ensures
            text@ == lower_hex(self@),
            1 <= text@.len() <= 64,
            forall|i: int| 0 <= i < text@.len() ==> is_lower_hex_digit(#[trigger] text@[i]),
            text@[0] != '0' || text@.len() == 1,
    {
        proof {
            lemma_value_below_pow16_64(*self);
            lemma_lower_hex_shape(self@, 64);
        }
        let mut cur = *self;
        let mut reversed: Vec<char> = Vec::new();
        while !(cur.0[1] == 0 && cur.0[2] == 0 && cur.0[3] == 0 && cur.0[0] < 16)
            invariant
                lower_hex(self@) == lower_hex(cur@) + reversed@.reverse(),
            decreases cur@,
        {
            let (q, d) = cur.div_rem_16();
            let c = hex_digit(d);
            proof {
                assert(cur@ >= 16);
                assert(lower_hex(cur@) == lower_hex(q@).push(c));
                assert(reversed@.push(c).reverse() =~= seq![c] + reversed@.reverse());
                assert(lower_hex(q@).push(c) + reversed@.reverse() =~= lower_hex(q@) + (seq![c]
                    + reversed@.reverse()));
            }
            reversed.push(c);
            cur = q;
        }
        let mut text = String::new();
        push_char(&mut text, hex_digit(cur.0[0] as u8));
        proof {
            assert(cur@ == cur.0[0]);
            assert(text@ == lower_hex(cur@));
        }
        append_reversed(&mut text, &reversed);
        text
    }
}

/// Byte strings of one length are determined by their little-endian value.
proof fn lemma_le_value_injective(a: Seq<u8>, b: Seq<u8>)
    requires
        a.len() == b.len(),
        le_value(a) == le_value(b),
    ensures
        a == b,
    decreases a.len(),
{
    if a.len() > 0 {
        let (ra, rb) = (a.drop_first(), b.drop_first());
        vstd::arithmetic::div_mod::lemma_fundamental_div_mod_converse(
            le_value(a) as int,
            256,
            le_value(ra) as int,
            a[0] as int,
        );
        vstd::arithmetic::div_mod::lemma_fundamental_div_mod_converse(
            le_value(b) as int,
            256,
            le_value(rb) as int,
            b[0] as int,
        );
        lemma_le_value_injective(ra, rb);
        assert(a =~= seq![a[0]] + ra);
        assert(b =~= seq![b[0]] + rb);
    } else {
        assert(a =~= b);
    }
}

/// Reading 32 bytes as a number and writing the number back gives the same
/// bytes: when `x` is what `from_little_endian` reads from `bytes` and `out`
/// is what `to_little_endian` writes for `x`, `out` is `bytes`.
pub proof fn lemma_bytes_roundtrip(bytes: Seq<u8>, x: U256, out: Seq<u8>)
    requires
        bytes.len() == 32,
        out.len() == 32,
        x@ == le_value(bytes),
        le_value(out) == x@,
    ensures
        out == bytes,
{
    lemma_le_value_injective(out, bytes);
}

/// Writing a number as 32 little-endian bytes and reading them back gives
/// the same number: when `bytes` is what `to_little_endian` writes for `x`
/// and `y` is what `from_little_endian` reads from them, `y` is `x`.
pub proof fn lemma_little_endian_roundtrip(x: U256, y: U256, bytes: Seq<u8>)
    requires
        le_value(bytes) == x@,
        y@ == le_value(bytes),
    ensures
        y == x,
{
    lemma_value_injective(y, x);
}

} // verus!
