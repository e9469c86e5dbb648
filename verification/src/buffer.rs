use vstd::prelude::*;
use vstd::string::StringSliceAdditionalSpecFns;

verus! {

/// Largest value of a group count that a VarInt may span on the wire.
pub open spec fn max_groups() -> nat {
    5
}

/// `128` raised to the power `k`: the weight of the `k`-th seven-bit group.
pub open spec fn pow128(k: nat) -> nat
    decreases k,
{
    if k == 0 {
        1
    } else {
        128 * pow128((k - 1) as nat)
    }
}

/// The bytes that encode `n` in at most `groups` seven-bit groups, least significant group
/// first; every byte but the last carries the continuation bit `0x80`.  When `n` needs more
/// groups than allowed, the output stops after `groups` bytes, all of them with the bit set.
pub open spec fn var_int_groups(n: nat, groups: nat) -> Seq<u8>
    decreases groups,
{
    if groups == 0 {
        Seq::empty()
    } else if n < 128 {
        seq![n as u8]
    } else {
        seq![(n % 128 + 128) as u8] + var_int_groups(n / 128, (groups - 1) as nat)
    }
}

/// The VarInt encoding of `n` as the protocol writes it: at most five bytes.
pub open spec fn var_int_encoding(n: nat) -> Seq<u8> {
    var_int_groups(n, max_groups())
}

/// How many bytes a VarInt reader takes from `s` when it starts at index `i`: it stops after
/// the first byte whose high bit is clear, and after five bytes in any case.
pub open spec fn var_int_width_from(s: Seq<u8>, i: nat) -> nat
    decreases 5 - i,
{
    if i >= 4 {
        5
    } else if i < s.len() && s[i as int] < 128 {
        i + 1
    } else {
        var_int_width_from(s, i + 1)
    }
}

/// How many bytes a VarInt reader takes from the front of `s`.
pub open spec fn var_int_width(s: Seq<u8>) -> nat {
    var_int_width_from(s, 0)
}

/// The sum of the low seven bits of the first `k` bytes of `s`, each weighted by its group.
pub open spec fn var_int_sum(s: Seq<u8>, k: nat) -> nat
    decreases k,
{
    if k == 0 {
        0
    } else {
        var_int_sum(s, (k - 1) as nat) + (s[k - 1] % 128) as nat * pow128((k - 1) as nat)
    }
}

/// The value of the low 32 bits of `v` read as a two's complement `i32`.
pub open spec fn wrap_i32(v: int) -> int {
    let m = v % 0x1_0000_0000;
    if m >= 0x8000_0000 {
        m - 0x1_0000_0000
    } else {
        m
    }
}

/// The value that a VarInt reader returns for the bytes at the front of `s`.
pub open spec fn var_int_value(s: Seq<u8>) -> int {
    wrap_i32(var_int_sum(s, var_int_width(s)) as int)
}

/// The two bytes of `n`, most significant first.
pub open spec fn be_short_bytes(n: u16) -> Seq<u8> {
    seq![(n / 256) as u8, (n % 256) as u8]
}

/// A string field as the protocol writes it: its bytes, preceded by their count as a VarInt
/// when `with_len` is set.
pub open spec fn string_field(bytes: Seq<u8>, with_len: bool) -> Seq<u8> {
    if with_len {
        var_int_encoding(bytes.len()) + bytes
    } else {
        bytes
    }
}

/// A growable byte buffer into which Minecraft protocol values are written.
pub struct Buffer(pub Vec<u8>);

impl View for Buffer {
    type V = Seq<u8>;

    open spec fn view(&self) -> Seq<u8> {
        self.0@
    }
}

impl Buffer {
    /// An empty buffer.
    pub fn new() -> (buffer: Self)
        ensures
            buffer@ == Seq::<u8>::empty(),
    {
        Buffer(Vec::new())
    }

    /// Appends one byte.
    pub fn write_byte(&mut self, byte: u8)
        ensures
            final(self)@ == old(self)@.push(byte),
    {
        self.0.push(byte)
    }

    /// Appends `number` as an unsigned 16-bit big-endian value.
    pub fn write_be_short(&mut self, number: u16)
        ensures
            final(self)@ == old(self)@ + be_short_bytes(number),
    {
        let high: u8 = (number >> 8) as u8;
        let low: u8 = (number & 0xff) as u8;
        assert(high == number / 256 && low == number % 256) by (bit_vector)
            requires
                high == (number >> 8) as u8,
                low == (number & 0xff) as u8,
        ;
        self.0.push(high);
        self.0.push(low);
        assert(self@ =~= old(self)@ + be_short_bytes(number));
    }

    /// Appends `number` as a VarInt: seven bits per byte, least significant group first, the
    /// continuation bit set on every byte but the last, and never more than five bytes.
    pub fn write_var_int(&mut self, number: usize)
        ensures
            final(self)@ == old(self)@ + var_int_encoding(number as nat),
    {
        let ghost start = self@;
        let mut n: usize = number;
        let ghost original = number as nat;
        let mut i: usize = 0;
        while i < 5
            invariant
                i <= 5,
                start == old(self)@,
                original == number as nat,
                self@ + var_int_groups(n as nat, (5 - i) as nat) == start
                    + var_int_encoding(original),
            decreases 5 - i,
        {
            let ghost before = self@;
            if n & !0x7F == 0 {
                assert(n & !0x7F == 0 ==> n < 128) by (bit_vector);
                self.write_byte(n as u8);
                assert(self@ =~= before + var_int_groups(n as nat, (5 - i) as nat));
                return ;
            }
            assert(n & !0x7F != 0 ==> n >= 128) by (bit_vector);
            let byte: u8 = (n & 0x7F | 0x80) as u8;
            assert(byte == n % 128 + 128) by (bit_vector)
                requires
                    byte == (n & 0x7F | 0x80) as u8,
            ;
            self.write_byte(byte);
            let next: usize = n >> 7;
            assert(next == n / 128) by (bit_vector)
                requires
                    next == n >> 7,
            ;
            assert(var_int_groups(n as nat, (5 - i) as nat) =~= seq![byte] + var_int_groups(
                next as nat,
                (5 - (i + 1)) as nat,
            ));
            assert(self@ + var_int_groups(next as nat, (5 - (i + 1)) as nat) =~= before
                + var_int_groups(n as nat, (5 - i) as nat));
            n = next;
            i = i + 1;
        }
        assert(self@ =~= self@ + var_int_groups(n as nat, 0));
    }

    /// Appends the UTF-8 bytes of `message`, preceded by their count as a VarInt when
    /// `write_len` is set.
    pub fn write_string(&mut self, message: &str, write_len: bool)
        ensures
            final(self)@ == old(self)@ + string_field(message.spec_bytes(), write_len),
    {
        let bytes = message.as_bytes();
        if write_len {
            self.write_var_int(bytes.len());
        }
        let ghost middle = self@;
        self.0.extend_from_slice(bytes);
        assert(self@ =~= middle + message.spec_bytes()) by {
            assert forall|k: int| 0 <= k < self@.len() implies self@[k] == (middle
                + message.spec_bytes())[k] by {
                if k >= middle.len() {
                    assert(cloned::<u8>(bytes@[k - middle.len()], self@[k]));
                }
            }
        }
        assert(self@ =~= old(self)@ + string_field(message.spec_bytes(), write_len));
    }
}

/// The weights of the first groups.
proof fn lemma_pow128_values()
    ensures
        pow128(0) == 1,
        pow128(1) == 128,
        pow128(2) == 16384,
        pow128(3) == 2097152,
        pow128(4) == 268435456,
        pow128(5) == 34359738368,
{
    reveal_with_fuel(pow128, 6);
}

/// Or-ing a seven-bit group into an accumulator that holds only lower groups adds its weight,
/// modulo the 32 bits that the accumulator keeps.
proof fn lemma_or_group(acc: u32, x: u32, i: u32)
    requires
        i < 5,
        x < 128,
        (acc as nat) < pow128(i as nat),
    ensures
        (acc | (x << (7 * i))) as nat == (acc as nat + x as nat * pow128(i as nat)) % 0x1_0000_0000,
{
    lemma_pow128_values();
    if i == 0 {
        assert(acc < 1 && x < 128 ==> (acc | (x << 0u32)) as nat == (acc + x * 1) % 0x1_0000_0000)
            by (bit_vector);
    } else if i == 1 {
        assert(acc < 128 && x < 128 ==> (acc | (x << 7u32)) as nat == (acc + x * 128)
            % 0x1_0000_0000) by (bit_vector);
    } else if i == 2 {
        assert(acc < 16384 && x < 128 ==> (acc | (x << 14u32)) as nat == (acc + x * 16384)
            % 0x1_0000_0000) by (bit_vector);
    } else if i == 3 {
        assert(acc < 2097152 && x < 128 ==> (acc | (x << 21u32)) as nat == (acc + x * 2097152)
            % 0x1_0000_0000) by (bit_vector);
    } else {
        assert(acc < 268435456 && x < 128 ==> (acc | (x << 28u32)) as nat == (acc + x
            * 268435456) % 0x1_0000_0000) by (bit_vector);
    }
}

/// The partial sums stay below the weight of the next group.
proof fn lemma_sum_bound(s: Seq<u8>, k: nat)
    requires
        k <= s.len(),
    ensures
        var_int_sum(s, k) < pow128(k),
    decreases k,
{
    if k > 0 {
        lemma_sum_bound(s, (k - 1) as nat);
        let p = pow128((k - 1) as nat);
        let d = (s[k - 1] % 128) as nat;
        assert(d * p <= 127 * p) by (nonlinear_arith)
            requires
                d <= 127,
        ;
    }
}

/// A reader that is past index `i` has not yet stopped.
pub(crate) proof fn lemma_width_from_lower(s: Seq<u8>, i: nat)
    ensures
        var_int_width_from(s, i) >= i + 1 || i >= 5,
        var_int_width_from(s, i) <= 5,
    decreases 5 - i,
{
    if i < 4 {
        lemma_width_from_lower(s, i + 1);
    }
}

/// Reads a VarInt from the front of `vec` and removes the bytes it took: at most five, up to
/// and including the first one whose high bit is clear.  The value is the sum of the groups,
/// of which the low 32 bits are read as an `i32`.
pub fn read_var_int(vec: &mut Vec<u8>) -> (res: i32)
    requires
        var_int_width(old(vec)@) <= old(vec)@.len(),
    ensures
        res as int == var_int_value(old(vec)@),
        final(vec)@ == old(vec)@.subrange(var_int_width(old(vec)@) as int, old(vec)@.len() as int),
{
    let ghost s = vec@;
    let mut acc: u32 = 0;
    let mut i: u32 = 0;
    proof {
        lemma_pow128_values();
        assert(vec@ =~= s.subrange(0, s.len() as int));
    }
    while i < 5
        invariant
            i <= 5,
            s == old(vec)@,
            var_int_width(s) <= s.len(),
            i < 5 ==> var_int_width(s) == var_int_width_from(s, i as nat),
            i == 5 ==> var_int_width(s) == 5,
            vec@ == s.subrange(i as int, s.len() as int),
            i <= s.len(),
            acc as nat == var_int_sum(s, i as nat) % 0x1_0000_0000,
        decreases 5 - i,
    {
        proof {
            lemma_width_from_lower(s, i as nat);
            lemma_sum_bound(s, i as nat);
            lemma_pow128_values();
            if i < 4 {
                assert(pow128(i as nat) <= pow128(4));
            }
        }
        let part = vec.remove(0);
        assert(part == s[i as int]);
        let x: u32 = (part & 0x7F) as u32;
        assert(x == part % 128) by (bit_vector)
            requires
                x == (part & 0x7F) as u32,
        ;
        proof {
            lemma_or_group(acc, x, i);
        }
        acc = acc | (x << (7 * i));
        i = i + 1;
        assert(vec@ =~= s.subrange(i as int, s.len() as int));
        if part & 0x80 == 0 {
            assert(part & 0x80 == 0 ==> part < 128) by (bit_vector);
            proof {
                lemma_as_i32(acc);
            }
            return acc as i32;
        }
        assert(part & 0x80 != 0 ==> part >= 128) by (bit_vector);
    }
    proof {
        lemma_as_i32(acc);
    }
    acc as i32
}

/// Reading the bits of a `u32` as an `i32`.
proof fn lemma_as_i32(v: u32)
    ensures
        (v as i32) as int == wrap_i32(v as int),
{
    assert((v as i32) as int == if v >= 0x8000_0000 {
        v - 0x1_0000_0000
    } else {
        v as int
    }) by (bit_vector);
}

/// Prepending a byte shifts every later group up by one weight.
proof fn lemma_sum_cons(b: u8, t: Seq<u8>, k: nat)
    requires
        k <= t.len(),
    ensures
        var_int_sum(seq![b] + t, k + 1) == (b % 128) as nat + 128 * var_int_sum(t, k),
    decreases k,
{
    let bt = seq![b] + t;
    if k == 0 {
        assert(var_int_sum(bt, 0) == 0);
        assert(pow128(0) == 1);
        assert(bt[0] == b);
        let d0 = (bt[0] % 128) as nat;
        assert(d0 * pow128(0) == d0);
        assert(var_int_sum(bt, 1) == d0);
        assert(var_int_sum(t, 0) == 0);
    } else {
        lemma_sum_cons(b, t, (k - 1) as nat);
        assert(bt[k as int] == t[k - 1]);
        let d = (t[k - 1] % 128) as nat;
        let p = pow128((k - 1) as nat);
        assert(pow128(k) == 128 * p);
        assert(d * (128 * p) == 128 * (d * p)) by (nonlinear_arith);
        assert(var_int_sum(bt, k + 1) == var_int_sum(bt, k) + d * pow128(k));
        assert(var_int_sum(t, k) == var_int_sum(t, (k - 1) as nat) + d * p);
    }
}

/// The sum over the first `k` bytes does not look past them.
proof fn lemma_sum_prefix(s: Seq<u8>, rest: Seq<u8>, k: nat)
    requires
        k <= s.len(),
    ensures
        var_int_sum(s + rest, k) == var_int_sum(s, k),
    decreases k,
{
    if k > 0 {
        lemma_sum_prefix(s, rest, (k - 1) as nat);
        assert((s + rest)[k - 1] == s[k - 1]);
    }
}

/// The groups of `n` sum back to `n` when they all fit.
proof fn lemma_groups_sum(n: nat, groups: nat)
    requires
        1 <= groups,
        n < pow128(groups),
    ensures
        var_int_sum(var_int_groups(n, groups), var_int_groups(n, groups).len()) == n,
        1 <= var_int_groups(n, groups).len() <= groups,
    decreases groups,
{
    if n < 128 {
        let g = var_int_groups(n, groups);
        assert(g =~= seq![n as u8]);
        assert(pow128(0) == 1);
        let d0 = (g[0] % 128) as nat;
        assert(d0 * pow128(0) == d0);
        assert(var_int_sum(g, 1) == var_int_sum(g, 0) + d0 * pow128(0));
    } else {
        if groups == 1 {
            assert(pow128(1) == 128 * pow128(0));
        }
        let b = (n % 128 + 128) as u8;
        let t = var_int_groups(n / 128, (groups - 1) as nat);
        assert(pow128(groups) == 128 * pow128((groups - 1) as nat));
        assert(n / 128 < pow128((groups - 1) as nat)) by (nonlinear_arith)
            requires
                n < 128 * pow128((groups - 1) as nat),
        ;
        lemma_groups_sum(n / 128, (groups - 1) as nat);
        lemma_sum_cons(b, t, t.len());
        assert(b % 128 == n % 128);
    }
}

/// A reader that has passed `i` continuation bytes and then meets the groups of a value that
/// fits in the remaining `5 - i` groups stops exactly at their end.
proof fn lemma_groups_width(prefix: Seq<u8>, n: nat, rest: Seq<u8>)
    requires
        prefix.len() <= 4,
        forall|j: int| 0 <= j < prefix.len() ==> prefix[j] >= 128,
        n < pow128((5 - prefix.len()) as nat),
    ensures
        var_int_width_from(
            prefix + var_int_groups(n, (5 - prefix.len()) as nat) + rest,
            prefix.len(),
        ) == prefix.len() + var_int_groups(n, (5 - prefix.len()) as nat).len(),
    decreases 5 - prefix.len(),
{
    let i = prefix.len();
    let g = (5 - i) as nat;
    let s = prefix + var_int_groups(n, g) + rest;
    if n < 128 {
        assert(var_int_groups(n, g) =~= seq![n as u8]);
        assert(s[i as int] == n as u8);
    } else {
        lemma_pow128_values();
        if i == 4 {
            assert(false);
        }
        let b = (n % 128 + 128) as u8;
        let t = var_int_groups(n / 128, (g - 1) as nat);
        assert(pow128(g) == 128 * pow128((g - 1) as nat));
        assert(n / 128 < pow128((g - 1) as nat)) by (nonlinear_arith)
            requires
                n < 128 * pow128((g - 1) as nat),
        ;
        let p2 = prefix.push(b);
        assert(s[i as int] == b);
        assert(s =~= p2 + t + rest);
        lemma_groups_width(p2, n / 128, rest);
    }
}

/// Reading back a VarInt: what `write_var_int` writes for a value below `2^35`, followed by any
/// bytes, is taken whole by `read_var_int`, no further, and reads as the value's low 32 bits
/// taken as an `i32`; a value that fits in an `i32` reads back unchanged.
pub proof fn lemma_var_int_roundtrip(n: nat, rest: Seq<u8>)
    requires
        n < pow128(5),
    ensures
        var_int_width(var_int_encoding(n) + rest) == var_int_encoding(n).len(),
        1 <= var_int_encoding(n).len() <= 5,
        var_int_value(var_int_encoding(n) + rest) == wrap_i32(n as int),
        n <= i32::MAX ==> var_int_value(var_int_encoding(n) + rest) == n,
{
    let e = var_int_encoding(n);
    let empty = Seq::<u8>::empty();
    assert(empty + e + rest =~= e + rest);
    lemma_groups_width(empty, n, rest);
    lemma_groups_sum(n, 5);
    lemma_sum_prefix(e, rest, e.len());
}

/// A VarInt reader never takes more than five bytes.
pub proof fn lemma_width_at_most_five(s: Seq<u8>)
    ensures
        1 <= var_int_width(s) <= 5,
{
    lemma_width_from_lower(s, 0);
}

/// The length of the groups of `n`: one byte per group needed, at most `groups`; a value that
/// does not fit fills all of them, each with the continuation bit set.
proof fn lemma_groups_len(n: nat, groups: nat)
    requires
        1 <= groups,
    ensures
        1 <= var_int_groups(n, groups).len() <= groups,
        n >= pow128(groups) ==> var_int_groups(n, groups).len() == groups && forall|j: int|
            0 <= j < groups ==> #[trigger] var_int_groups(n, groups)[j] >= 128,
    decreases groups,
{
    let g = var_int_groups(n, groups);
    assert(pow128(groups) == 128 * pow128((groups - 1) as nat));
    if n >= 128 {
        let b = (n % 128 + 128) as u8;
        let t = var_int_groups(n / 128, (groups - 1) as nat);
        if groups > 1 {
            lemma_groups_len(n / 128, (groups - 1) as nat);
            if n >= pow128(groups) {
                assert(n / 128 >= pow128((groups - 1) as nat)) by (nonlinear_arith)
                    requires
                        n >= 128 * pow128((groups - 1) as nat),
                ;
                assert forall|j: int| 0 <= j < groups implies #[trigger] g[j] >= 128 by {
                    if j > 0 {
                        assert(g[j] == t[j - 1]);
                    }
                }
            }
        } else {
            assert(t =~= Seq::<u8>::empty());
            assert(pow128(0) == 1);
        }
    } else {
        if n >= pow128(groups) {
            lemma_pow128_positive((groups - 1) as nat);
        }
    }
}

/// Every weight is at least one.
proof fn lemma_pow128_positive(k: nat)
    ensures
        pow128(k) >= 1,
    decreases k,
{
    if k > 0 {
        lemma_pow128_positive((k - 1) as nat);
    }
}

/// A VarInt takes one to five bytes; a value of `2^35` or more takes five, all with the
/// continuation bit set, so that what is written for it does not end a VarInt.
pub proof fn lemma_var_int_encoding_len(n: nat)
    ensures
        1 <= var_int_encoding(n).len() <= 5,
        n >= pow128(5) ==> var_int_encoding(n).len() == 5 && forall|j: int|
            0 <= j < 5 ==> #[trigger] var_int_encoding(n)[j] >= 128,
{
    lemma_groups_len(n, 5);
}

/// The two bytes of a big-endian short give back the number, most significant byte first.
pub proof fn lemma_be_short_value(n: u16)
    ensures
        be_short_bytes(n).len() == 2,
        be_short_bytes(n)[0] as nat * 256 + be_short_bytes(n)[1] as nat == n,
{
}

/// Whether the bytes of `bytes` hold a whole VarInt: a reader started at their front stops
/// within them, after a byte whose high bit is clear or after five bytes.
pub fn var_int_complete(bytes: &Vec<u8>) -> (complete: bool)
    ensures
        complete == (var_int_width(bytes@) <= bytes@.len()),
{
    let mut i: usize = 0;
    while i < 4
        invariant
            i <= 4,
            var_int_width(bytes@) == var_int_width_from(bytes@, i as nat),
        decreases 4 - i,
    {
        proof {
            lemma_width_from_lower(bytes@, i as nat);
        }
        if i >= bytes.len() {
            return false;
        }
        if bytes[i] < 128 {
            return true;
        }
        i = i + 1;
    }
    bytes.len() >= 5
}

/// A reader that meets only bytes with the continuation bit set does not stop before its
/// fifth byte.
proof fn lemma_width_from_continuation(t: Seq<u8>, i: nat)
    requires
        forall|j: int| 0 <= j < t.len() ==> t[j] >= 128,
    ensures
        var_int_width_from(t, i) == 5,
    decreases 5 - i,
{
    if i < 4 {
        lemma_width_from_continuation(t, i + 1);
    }
}

/// Every byte of the groups of `n` but the last carries the continuation bit.
proof fn lemma_groups_continuation(n: nat, groups: nat)
    ensures
        forall|j: int|
            0 <= j < var_int_groups(n, groups).len() - 1 ==> #[trigger] var_int_groups(
                n,
                groups,
            )[j] >= 128,
    decreases groups,
{
    if groups > 0 && n >= 128 {
        let g = var_int_groups(n, groups);
        let t = var_int_groups(n / 128, (groups - 1) as nat);
        lemma_groups_continuation(n / 128, (groups - 1) as nat);
        assert forall|j: int| 0 <= j < g.len() - 1 implies #[trigger] g[j] >= 128 by {
            if j > 0 {
                assert(g[j] == t[j - 1]);
            }
        }
    }
}

/// Read byte by byte, the VarInt of a value below `2^35` is incomplete until its last byte
/// and complete with it, and then reads as the value's low 32 bits taken as an `i32`.
pub proof fn lemma_var_int_prefixes(n: nat)
    requires
        n < pow128(5),
    ensures
        forall|k: int|
            0 <= k < var_int_encoding(n).len() ==> var_int_width(
                #[trigger] var_int_encoding(n).take(k),
            ) > k,
        var_int_width(var_int_encoding(n)) == var_int_encoding(n).len(),
        var_int_value(var_int_encoding(n)) == wrap_i32(n as int),
{
    let e = var_int_encoding(n);
    lemma_var_int_roundtrip(n, Seq::empty());
    assert(e + Seq::<u8>::empty() =~= e);
    lemma_groups_continuation(n, 5);
    assert forall|k: int| 0 <= k < e.len() implies var_int_width(#[trigger] e.take(k)) > k by {
        let t = e.take(k);
        lemma_width_from_continuation(t, 0);
    }
}

/// The groups of a value that fits: as many bytes as the value has seven-bit groups, byte
/// `j` holding group `j` of the value, with the continuation bit on all bytes but the last.
proof fn lemma_groups_digits(n: nat, groups: nat)
    requires
        1 <= groups,
        n < pow128(groups),
    ensures
        ({
            let e = var_int_groups(n, groups);
            &&& n < pow128(e.len())
            &&& e.len() == 1 || pow128((e.len() - 1) as nat) <= n
            &&& forall|j: int|
                0 <= j < e.len() ==> #[trigger] e[j] as nat == (n / pow128(j as nat)) % 128 + (
                if j + 1 < e.len() {
                    128nat
                } else {
                    0nat
                })
        }),
    decreases groups,
{
    let e = var_int_groups(n, groups);
    lemma_pow128_values();
    if n < 128 {
        assert(e =~= seq![n as u8]);
        assert(n / pow128(0) == n);
    } else {
        let b = (n % 128 + 128) as u8;
        let t = var_int_groups(n / 128, (groups - 1) as nat);
        assert(pow128(groups) == 128 * pow128((groups - 1) as nat));
        assert(n / 128 < pow128((groups - 1) as nat)) by (nonlinear_arith)
            requires
                n < 128 * pow128((groups - 1) as nat),
        ;
        if groups == 1 {
            assert(false);
        }
        lemma_groups_digits(n / 128, (groups - 1) as nat);
        let k = t.len();
        assert(e =~= seq![b] + t);
        assert(pow128(k + 1) == 128 * pow128(k));
        assert(n < pow128(e.len())) by (nonlinear_arith)
            requires
                n / 128 < pow128(k),
                pow128(k + 1) == 128 * pow128(k),
                e.len() == k + 1,
        ;
        if k > 1 {
            assert(pow128(k) == 128 * pow128((k - 1) as nat));
            assert(pow128(k) <= n) by (nonlinear_arith)
                requires
                    pow128((k - 1) as nat) <= n / 128,
                    pow128(k) == 128 * pow128((k - 1) as nat),
            ;
        }
        assert forall|j: int| 0 <= j < e.len() implies #[trigger] e[j] as nat == (n / pow128(
            j as nat,
        )) % 128 + (if j + 1 < e.len() {
            128nat
        } else {
            0nat
        }) by {
            if j == 0 {
                assert(n / pow128(0) == n);
            } else {
                assert(e[j] == t[j - 1]);
                lemma_pow128_positive((j - 1) as nat);
                vstd::arithmetic::div_mod::lemma_div_denominator(
                    n as int,
                    128,
                    pow128((j - 1) as nat) as int,
                );
                assert(pow128(j as nat) == 128 * pow128((j - 1) as nat));
            }
        }
    }
}

/// The VarInt of a value below `2^35` is its minimal base-128 numeral, least significant
/// digit first: it has exactly as many bytes as the value has seven-bit groups (one byte for
/// a value below 128, and no more bytes than needed), byte `j` holds digit `j` of the value,
/// and every byte but the last carries the continuation bit `0x80`.
pub proof fn lemma_var_int_minimal(n: nat)
    requires
        n < pow128(5),
    ensures
        n < pow128(var_int_encoding(n).len()),
        var_int_encoding(n).len() == 1 || pow128((var_int_encoding(n).len() - 1) as nat) <= n,
        n < 128 ==> var_int_encoding(n) == seq![n as u8],
        forall|j: int|
            0 <= j < var_int_encoding(n).len() ==> #[trigger] var_int_encoding(n)[j] as nat == (n
                / pow128(j as nat)) % 128 + (if j + 1 < var_int_encoding(n).len() {
                128nat
            } else {
                0nat
            }),
{
    lemma_groups_digits(n, 5);
    let e = var_int_encoding(n);
    lemma_groups_len(n, 5);
    if n < 128 {
        lemma_pow128_values();
        if e.len() > 1 {
            lemma_pow128_positive((e.len() - 2) as nat);
            assert(pow128((e.len() - 1) as nat) == 128 * pow128((e.len() - 2) as nat));
        }
        assert(e.len() == 1);
        assert(n / pow128(0) == n);
        assert(e[0] as nat == n);
        assert(e =~= seq![n as u8]);
    }
}

/// A string field without its length prefix is the string's bytes alone; with it, the
/// prefix reads back as the number of bytes and leaves exactly the bytes.
pub proof fn lemma_string_field(bytes: Seq<u8>)
    ensures
        string_field(bytes, false) == bytes,
        bytes.len() <= i32::MAX ==> var_int_value(string_field(bytes, true)) == bytes.len(),
        bytes.len() <= i32::MAX ==> string_field(bytes, true).subrange(
            var_int_width(string_field(bytes, true)) as int,
            string_field(bytes, true).len() as int,
        ) == bytes,
{
    if bytes.len() <= i32::MAX {
        lemma_pow128_values();
        lemma_var_int_roundtrip(bytes.len(), bytes);
        let e = var_int_encoding(bytes.len());
        assert((e + bytes).subrange(e.len() as int, (e + bytes).len() as int) =~= bytes);
    }
}

} // verus!
