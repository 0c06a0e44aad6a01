use vstd::prelude::*;

verus! {

/// `2^e`, written out so that proofs can unfold it step by step.
pub open spec fn two_pow(e: nat) -> nat
    decreases e,
{
    if e == 0 {
        1
    } else {
        2 * two_pow((e - 1) as nat)
    }
}

/// Bit `t`, counted from the most significant end, of the `w`-bit form of `v`.
pub open spec fn bit_msb(v: nat, w: nat, t: nat) -> bool {
    (v / two_pow((w - 1 - t) as nat)) % 2 == 1
}

/// The `w` bits of `v`, most significant first.
pub open spec fn value_bits(v: nat, w: nat) -> Seq<bool> {
    Seq::new(w, |t: int| bit_msb(v, w, t as nat))
}

/// The number whose bits, most significant first, are `bits`.
pub open spec fn bits_value(bits: Seq<bool>) -> nat
    decreases bits.len(),
{
    if bits.len() == 0 {
        0
    } else {
        2 * bits_value(bits.drop_last()) + if bits.last() {
            1nat
        } else {
            0nat
        }
    }
}

/// The bits of a byte buffer, each byte most significant bit first.
pub open spec fn byte_stream(bytes: Seq<u8>) -> Seq<bool> {
    Seq::new(8 * bytes.len(), |k: int| bit_msb(bytes[k / 8] as nat, 8, (k % 8) as nat))
}

/// The bits of a symbol sequence, `w` bits per symbol, most significant first.
pub open spec fn symbol_stream(symbols: Seq<u32>, w: nat) -> Seq<bool> {
    Seq::new(symbols.len() * w, |k: int| bit_msb(symbols[k / (w as int)] as nat, w, (k % (w as int)) as nat))
}

/// `bits` cut or padded with zero bits to length `n`.
pub open spec fn fit(bits: Seq<bool>, n: nat) -> Seq<bool> {
    Seq::new(n, |k: int| k < bits.len() && bits[k])
}

/// The number held by the `w` bits that start at bit `start` of `bits`.
pub open spec fn chunk_value(bits: Seq<bool>, start: int, w: nat) -> nat {
    bits_value(bits.subrange(start, start + w))
}

/// `count` symbols of `w` bits taken from the bits of `bytes`, the last ones
/// padded with zero bits.
pub open spec fn pack(bytes: Seq<u8>, w: nat, count: nat) -> Seq<nat> {
    Seq::new(count, |j: int| chunk_value(fit(byte_stream(bytes), count * w), j * w, w))
}

/// The number of bytes that `n` symbols of `w` bits fill, a trailing partial
/// byte counted as a whole one.
pub open spec fn unpacked_len(n: nat, w: nat) -> nat {
    ((n * w + 7) / 8) as nat
}

/// The bytes that hold the bits of `symbols`, a trailing partial byte padded
/// with zero bits.
pub open spec fn unpack(symbols: Seq<u32>, w: nat) -> Seq<nat> {
    let nb = unpacked_len(symbols.len(), w);
    Seq::new(nb, |i: int| chunk_value(fit(symbol_stream(symbols, w), 8 * nb), 8 * i, 8))
}

/// Powers of two grow with the exponent.
pub proof fn lemma_two_pow_le(a: nat, b: nat)
    requires
        a <= b,
    ensures
        1 <= two_pow(a) <= two_pow(b),
    decreases b,
{
    if b > 0 {
        if a < b {
            lemma_two_pow_le(a, (b - 1) as nat);
        } else {
            lemma_two_pow_le(0, (b - 1) as nat);
        }
    }
}

/// `2^e` for the small exponents used by the packing loops.
fn two_pow_exec(e: u32) -> (r: u32)
    requires
        e <= 8,
    ensures
        r as nat == two_pow(e as nat),
        1 <= r <= 256,
{
    proof {
        lemma_two_pow_le(0, e as nat);
        lemma_two_pow_le(e as nat, 8);
        reveal_with_fuel(two_pow, 9);
    }
    let mut r: u32 = 1;
    let mut i: u32 = 0;
    while i < e
        invariant
            i <= e <= 8,
            r as nat == two_pow(i as nat),
        decreases e - i,
    {
        proof {
            lemma_two_pow_le((i + 1) as nat, 8);
            reveal_with_fuel(two_pow, 9);
        }
        r = r * 2;
        i = i + 1;
    }
    r
}

/// A number of `n` bits is below `2^n`.
pub proof fn lemma_bits_value_bound(bits: Seq<bool>)
    ensures
        bits_value(bits) < two_pow(bits.len()),
    decreases bits.len(),
{
    if bits.len() > 0 {
        lemma_bits_value_bound(bits.drop_last());
    }
}

/// Zero bits hold the number zero.
pub proof fn lemma_bits_value_zero(bits: Seq<bool>)
    requires
        forall|k: int| 0 <= k < bits.len() ==> !bits[k],
    ensures
        bits_value(bits) == 0,
    decreases bits.len(),
{
    if bits.len() > 0 {
        lemma_bits_value_zero(bits.drop_last());
    }
}

/// Reading the bits of a number back gives the bits it was made from.
pub proof fn lemma_value_bits_of_bits_value(bits: Seq<bool>)
    ensures
        value_bits(bits_value(bits), bits.len()) == bits,
    decreases bits.len(),
{
    let n = bits.len();
    if n > 0 {
        let rest = bits.drop_last();
        let v = bits_value(bits);
        let vr = bits_value(rest);
        let l: nat = if bits.last() { 1 } else { 0 };
        lemma_value_bits_of_bits_value(rest);
        assert(v == 2 * vr + l);
        assert(v / 2 == vr && v % 2 == l) by (nonlinear_arith)
            requires
                v == 2 * vr + l,
                l < 2,
        ;
        assert forall|t: int| 0 <= t < n implies #[trigger] value_bits(v, n)[t] == bits[t] by {
            if t == n - 1 {
                assert((n - 1 - t) as nat == 0nat);
                assert(two_pow(0) == 1);
                assert(v / 1 == v);
                assert(value_bits(v, n)[t] == (v % 2 == 1));
            } else {
                let e = (n - 2 - t) as nat;
                let pe = two_pow(e);
                assert(two_pow((n - 1 - t) as nat) == 2 * pe);
                lemma_two_pow_le(0, e);
                vstd::arithmetic::div_mod::lemma_div_denominator(v as int, 2, pe as int);
                assert(v / (2 * pe) == vr / pe);
                assert(value_bits(v, n)[t] == ((v / (2 * pe)) % 2 == 1));
                assert(value_bits(vr, (n - 1) as nat)[t] == ((vr / pe) % 2 == 1));
                assert(value_bits(vr, (n - 1) as nat)[t] == rest[t]);
            }
        }
        assert(value_bits(v, n) =~= bits);
    }
}

/// A number below `2^w` is the number that its `w` bits hold.
pub proof fn lemma_bits_value_of_value_bits(v: nat, w: nat)
    requires
        v < two_pow(w),
    ensures
        bits_value(value_bits(v, w)) == v,
    decreases w,
{
    if w > 0 {
        let vh = v / 2;
        let bits = value_bits(v, w);
        assert(two_pow(w) == 2 * two_pow((w - 1) as nat));
        assert(v == 2 * vh + v % 2 && vh < two_pow((w - 1) as nat)) by (nonlinear_arith)
            requires
                vh == v / 2,
                v < 2 * two_pow((w - 1) as nat),
        ;
        lemma_bits_value_of_value_bits(vh, (w - 1) as nat);
        assert forall|t: int| 0 <= t < w - 1 implies #[trigger] bits.drop_last()[t] == value_bits(vh, (w - 1) as nat)[t] by {
            let e = (w - 2 - t) as nat;
            assert(two_pow((w - 1 - t) as nat) == 2 * two_pow(e));
            lemma_two_pow_le(0, e);
            vstd::arithmetic::div_mod::lemma_div_denominator(v as int, 2, two_pow(e) as int);
        }
        assert(bits.drop_last() =~= value_bits(vh, (w - 1) as nat));
        assert((w - 1 - (w - 1)) as nat == 0nat);
        assert(two_pow(0) == 1);
        assert(v / 1 == v);
        assert(bits.last() == (v % 2 == 1));
        assert(bits_value(bits) == 2 * vh + v % 2);
    } else {
        assert(two_pow(0) == 1);
    }
}

/// Packing bytes into symbols and unpacking them again gives the bytes back,
/// followed by zero bytes up to the unpacked length.
pub proof fn lemma_unpack_pack(bytes: Seq<u8>, w: nat, count: nat, symbols: Seq<u32>)
    requires
        1 <= w <= 8,
        8 * bytes.len() <= count * w,
        symbols.len() == count,
        forall|j: int| 0 <= j < count ==> #[trigger] symbols[j] as nat == pack(bytes, w, count)[j],
    ensures
        unpack(symbols, w).len() == unpacked_len(count, w),
        bytes.len() <= unpacked_len(count, w),
        forall|i: int| 0 <= i < bytes.len() ==> #[trigger] unpack(symbols, w)[i] == bytes[i] as nat,
        forall|i: int| bytes.len() <= i < unpacked_len(count, w) ==> #[trigger] unpack(symbols, w)[i] == 0,
{
    let bs = byte_stream(bytes);
    let p = fit(bs, count * w);
    let ss = symbol_stream(symbols, w);
    assert forall|k: int| 0 <= k < count * w implies #[trigger] ss[k] == p[k] by {
        let j = k / (w as int);
        let t = k % (w as int);
        assert(k == j * w + t && 0 <= j < count && 0 <= t < w) by (nonlinear_arith)
            requires
                j == k / (w as int),
                t == k % (w as int),
                0 <= k < count * w,
                w >= 1,
        ;
        let chunk = p.subrange(j * w, j * w + w);
        assert(j * w + w <= count * w) by (nonlinear_arith)
            requires
                j < count,
        ;
        lemma_value_bits_of_bits_value(chunk);
        assert(symbols[j] as nat == bits_value(chunk));
        assert(value_bits(bits_value(chunk), w)[t] == chunk[t]);
    }
    assert(ss =~= p);
    let nb = unpacked_len(count, w);
    let q = fit(ss, 8 * nb);
    assert(count * w <= 8 * nb);
    assert forall|i: int| 0 <= i < nb implies #[trigger] unpack(symbols, w)[i] == if i < bytes.len() {
        bytes[i] as nat
    } else {
        0
    } by {
        let chunk = q.subrange(8 * i, 8 * i + 8);
        if i < bytes.len() {
            assert forall|t: int| 0 <= t < 8 implies #[trigger] chunk[t] == value_bits(bytes[i] as nat, 8)[t] by {
                assert((8 * i + t) / 8 == i && (8 * i + t) % 8 == t);
                assert(chunk[t] == bs[8 * i + t]);
            }
            assert(chunk =~= value_bits(bytes[i] as nat, 8));
            reveal_with_fuel(two_pow, 9);
            lemma_bits_value_of_value_bits(bytes[i] as nat, 8);
        } else {
            assert forall|t: int| 0 <= t < 8 implies !#[trigger] chunk[t] by {
                assert(8 * i + t >= 8 * bytes.len());
            }
            lemma_bits_value_zero(chunk);
        }
    }
}

/// Splits the bits of `bytes` into `count` symbols of `w` bits each, most
/// significant bit first; bits past the end of `bytes` are zero.
pub fn pack_bytes(bytes: &[u8], w: u32, count: usize) -> (r: Vec<u32>)
    requires
        1 <= w <= 8,
        8 * bytes@.len() <= count * w <= u64::MAX,
    ensures
        r@.len() == count,
        forall|j: int| 0 <= j < count ==> #[trigger] r@[j] as nat == pack(bytes@, w as nat, count as nat)[j],
{
    let ghost p = fit(byte_stream(bytes@), (count * w) as nat);
    let nbits: u64 = bytes.len() as u64 * 8;
    let ww: u64 = w as u64;
    let mut r: Vec<u32> = Vec::new();
    let mut j: usize = 0;
    while j < count
        invariant
            1 <= w <= 8,
            ww == w,
            nbits == 8 * bytes@.len(),
            count * w <= u64::MAX,
            p == fit(byte_stream(bytes@), (count * w) as nat),
            j <= count,
            r@.len() == j,
            forall|jj: int| 0 <= jj < j ==> #[trigger] r@[jj] as nat == pack(bytes@, w as nat, count as nat)[jj],
        decreases count - j,
    {
        assert(j * w + w <= count * w) by (nonlinear_arith)
            requires
                j < count,
        ;
        let start: u64 = j as u64 * ww;
        let mut acc: u32 = 0;
        let mut t: u32 = 0;
        while t < w
            invariant
                1 <= w <= 8,
                ww == w,
                nbits == 8 * bytes@.len(),
                p == fit(byte_stream(bytes@), (count * w) as nat),
                start + w <= count * w,
                count * w <= u64::MAX,
                t <= w,
                acc as nat == bits_value(p.subrange(start as int, start + t)),
                acc < two_pow(t as nat),
            decreases w - t,
        {
            let k: u64 = start + t as u64;
            let bit: u32 = if k < nbits {
                (bytes[(k / 8) as usize] as u32 / two_pow_exec(7 - (k % 8) as u32)) % 2
            } else {
                0
            };
            assert(bit == 1 <==> p[k as int]);
            assert(p.subrange(start as int, start + t + 1).drop_last() =~= p.subrange(start as int, start + t));
            proof {
                lemma_two_pow_le((t + 1) as nat, 8);
                reveal_with_fuel(two_pow, 9);
            }
            acc = acc * 2 + bit;
            t = t + 1;
        }
        r.push(acc);
        j = j + 1;
    }
    r
}

/// Joins `w`-bit symbols, most significant bit first, into bytes; a trailing
/// partial byte is padded with zero bits.
pub fn unpack_symbols(symbols: &[u32], w: u32) -> (r: Vec<u8>)
    requires
        1 <= w <= 8,
        symbols@.len() * w + 7 <= u64::MAX,
    ensures
        r@.len() == unpacked_len(symbols@.len(), w as nat),
        forall|i: int| 0 <= i < r@.len() ==> #[trigger] r@[i] as nat == unpack(symbols@, w as nat)[i],
{
    let ww: u64 = w as u64;
    let nsbits: u64 = symbols.len() as u64 * ww;
    let nb: u64 = (nsbits + 7) / 8;
    let ghost q = fit(symbol_stream(symbols@, w as nat), (8 * nb) as nat);
    let mut r: Vec<u8> = Vec::new();
    let mut i: u64 = 0;
    while i < nb
        invariant
            1 <= w <= 8,
            ww == w,
            nsbits == symbols@.len() * w,
            nb == unpacked_len(symbols@.len(), w as nat),
            8 * nb <= nsbits + 7 <= u64::MAX,
            q == fit(symbol_stream(symbols@, w as nat), (8 * nb) as nat),
            i <= nb,
            r@.len() == i,
            forall|ii: int| 0 <= ii < i ==> #[trigger] r@[ii] as nat == unpack(symbols@, w as nat)[ii],
        decreases nb - i,
    {
        let start: u64 = 8 * i;
        let mut acc: u32 = 0;
        let mut t: u32 = 0;
        while t < 8
            invariant
                1 <= w <= 8,
                ww == w,
                nsbits == symbols@.len() * w,
                q == fit(symbol_stream(symbols@, w as nat), (8 * nb) as nat),
                start + 8 <= 8 * nb <= u64::MAX,
                t <= 8,
                acc as nat == bits_value(q.subrange(start as int, start + t)),
                acc < two_pow(t as nat),
            decreases 8 - t,
        {
            let k: u64 = start + t as u64;
            let bit: u32 = if k < nsbits {
                let sq: u64 = k / ww;
                assert(sq < symbols@.len()) by (nonlinear_arith)
                    requires
                        k < symbols@.len() * w,
                        sq as int == (k as int) / (w as int),
                        w >= 1,
                ;
                let s: usize = sq as usize;
                (symbols[s] / two_pow_exec(w - 1 - (k % ww) as u32)) % 2
            } else {
                0
            };
            assert(bit == 1 <==> q[k as int]);
            assert(q.subrange(start as int, start + t + 1).drop_last() =~= q.subrange(start as int, start + t));
            proof {
                lemma_two_pow_le((t + 1) as nat, 8);
                reveal_with_fuel(two_pow, 9);
            }
            acc = acc * 2 + bit;
            t = t + 1;
        }
        proof {
            reveal_with_fuel(two_pow, 9);
        }
        r.push(acc as u8);
        i = i + 1;
    }
    r
}

/// Size of a square QAM constellation.
#[derive(Clone, Copy, Debug, PartialEq, Eq, Structural)]
pub enum QAMOrder {
    QAM4,
    QAM16,
    QAM64,
}

impl QAMOrder {
    /// Bits carried by one constellation point: `log2` of the order.
    pub open spec fn bits(self) -> nat {
        match self {
            QAMOrder::QAM4 => 2,
            QAMOrder::QAM16 => 4,
            QAMOrder::QAM64 => 6,
        }
    }
}

impl Default for QAMOrder {
    fn default() -> (r: Self)
        ensures
            r == QAMOrder::QAM4,
    {
        QAMOrder::QAM4
    }
}

/// Maps bit groups to points of a square constellation and back.
///
/// A point has integer coordinates: along each axis, level `k` of the `side`
/// levels sits at amplitude `2k - (side - 1)`, so the levels are the odd
/// numbers from `-(side - 1)` to `side - 1`. A symbol `s` has its in-phase
/// level `s / side` and its quadrature level `s % side`.
#[derive(Clone, Copy, Debug, PartialEq, Eq, Structural)]
pub struct QAMModem {
    pub order: QAMOrder,
}

/// Amplitude of level `k` on an axis with `side` levels.
pub open spec fn level_amplitude(side: nat, k: nat) -> int {
    2 * k - (side - 1)
}

/// The grid position of an amplitude: `(a + side - 1) / 2`, which is the level
/// of `a` when `a` is a level amplitude. A receiver rounds a measured
/// amplitude to the nearest grid position.
pub open spec fn grid_position(side: nat, a: int) -> int {
    (a + side - 1) / 2
}

/// The level nearest to a grid position: the position itself, held to
/// `0 ..= side - 1`.
pub open spec fn nearest_level(side: nat, pos: int) -> nat {
    if pos < 0 {
        0
    } else if pos >= side {
        (side - 1) as nat
    } else {
        pos as nat
    }
}

impl QAMModem {
    pub open spec fn bps(self) -> nat {
        self.order.bits()
    }

    /// Levels per axis.
    pub open spec fn side(self) -> nat {
        two_pow(self.bps() / 2)
    }

    /// Number of constellation points.
    pub open spec fn size(self) -> nat {
        two_pow(self.bps())
    }

    /// The point of symbol `s`.
    pub open spec fn point(self, s: nat) -> (int, int) {
        (level_amplitude(self.side(), s / self.side()), level_amplitude(self.side(), s % self.side()))
    }

    /// The symbol decided for the grid positions `(ip, qp)`.
    pub open spec fn decide(self, ip: int, qp: int) -> nat {
        nearest_level(self.side(), ip) * self.side() + nearest_level(self.side(), qp)
    }

    /// The symbols decided for a sequence of grid positions.
    pub open spec fn decide_all(self, positions: Seq<(i64, i64)>) -> Seq<u32> {
        Seq::new(positions.len(), |j: int| self.decide(positions[j].0 as int, positions[j].1 as int) as u32)
    }

    /// The points that carry `bytes` over `count` symbols.
    pub open spec fn points_of(self, bytes: Seq<u8>, count: nat) -> Seq<(int, int)> {
        Seq::new(count, |j: int| self.point(pack(bytes, self.bps(), count)[j]))
    }

    pub proof fn lemma_sizes(self)
        ensures
            self.bps() == 2 || self.bps() == 4 || self.bps() == 6,
            self.side() * self.side() == self.size(),
            2 <= self.side() <= 8,
            self.size() <= 64,
    {
        reveal_with_fuel(two_pow, 7);
        assert(two_pow(1) == 2 && two_pow(2) == 4 && two_pow(3) == 8);
        assert(two_pow(4) == 16 && two_pow(6) == 64);
        match self.order {
            QAMOrder::QAM4 => {
                assert(self.bps() == 2 && self.bps() / 2 == 1);
                assert(self.side() == 2 && self.size() == 4);
                assert(self.side() * self.side() == 2 * 2);
            },
            QAMOrder::QAM16 => {
                assert(self.bps() == 4 && self.bps() / 2 == 2);
                assert(self.side() == 4 && self.size() == 16);
                assert(self.side() * self.side() == 4 * 4);
            },
            QAMOrder::QAM64 => {
                assert(self.bps() == 6 && self.bps() / 2 == 3);
                assert(self.side() == 8 && self.size() == 64);
                assert(self.side() * self.side() == 8 * 8);
            },
        }
    }

    /// Deciding on the exact grid positions of a symbol's point gives the
    /// symbol back.
    pub proof fn lemma_decide_point(self, s: nat)
        requires
            s < self.size(),
        ensures
            self.decide(
                grid_position(self.side(), self.point(s).0),
                grid_position(self.side(), self.point(s).1),
            ) == s,
    {
        self.lemma_sizes();
        let side = self.side();
        let i = s / side;
        let q = s % side;
        assert(s == i * side + q && i < side && q < side) by (nonlinear_arith)
            requires
                i == s / side,
                q == s % side,
                s < side * side,
                side >= 2,
        ;
        assert(grid_position(side, level_amplitude(side, i)) == i);
        assert(grid_position(side, level_amplitude(side, q)) == q);
    }

    pub fn new(order: QAMOrder) -> (r: Self)
        ensures
            r.order == order,
    {
        QAMModem { order }
    }

    pub fn bits_per_symbol(&self) -> (r: u32)
        ensures
            r as nat == self.bps(),
    {
        match self.order {
            QAMOrder::QAM4 => 2,
            QAMOrder::QAM16 => 4,
            QAMOrder::QAM64 => 6,
        }
    }

    /// Levels per axis of the constellation.
    pub fn side_length(&self) -> (r: u32)
        ensures
            r as nat == self.side(),
    {
        proof {
            reveal_with_fuel(two_pow, 4);
        }
        match self.order {
            QAMOrder::QAM4 => 2,
            QAMOrder::QAM16 => 4,
            QAMOrder::QAM64 => 8,
        }
    }

    /// The constellation point of symbol `s`.
    pub fn symbol_point(&self, s: u32) -> (r: (i32, i32))
        requires
            s < self.size(),
        ensures
            r.0 as int == self.point(s as nat).0,
            r.1 as int == self.point(s as nat).1,
    {
        proof {
            self.lemma_sizes();
        }
        let side = self.side_length();
        let i = (s / side) as i32;
        let q = (s % side) as i32;
        let top = side as i32 - 1;
        (2 * i - top, 2 * q - top)
    }

    /// The symbol nearest to the grid positions `(ip, qp)`.
    pub fn decide_symbol(&self, ip: i64, qp: i64) -> (r: u32)
        ensures
            r as nat == self.decide(ip as int, qp as int),
            r < self.size(),
    {
        proof {
            self.lemma_sizes();
        }
        let side = self.side_length();
        let top = side as i64 - 1;
        let i: u32 = if ip < 0 {
            0
        } else if ip > top {
            top as u32
        } else {
            ip as u32
        };
        let q: u32 = if qp < 0 {
            0
        } else if qp > top {
            top as u32
        } else {
            qp as u32
        };
        assert(i * side + q < side * side) by (nonlinear_arith)
            requires
                i < side,
                q < side,
        ;
        i * side + q
    }

    /// Maps `bytes` onto `count` constellation points, most significant bit
    /// first; bits past the end of `bytes` are zero.
    pub fn modulate(&self, bytes: &[u8], count: usize) -> (r: Vec<(i32, i32)>)
        requires
            8 * bytes@.len() <= count * self.bps(),
            count * 8 <= u64::MAX,
        ensures
            r@.len() == count,
            forall|j: int| 0 <= j < count ==> (#[trigger] r@[j]).0 as int == self.points_of(bytes@, count as nat)[j].0
                && r@[j].1 as int == self.points_of(bytes@, count as nat)[j].1,
    {
        proof {
            self.lemma_sizes();
        }
        let w = self.bits_per_symbol();
        assert(count * w <= u64::MAX) by (nonlinear_arith)
            requires
                count * 8 <= u64::MAX,
                w <= 8,
        ;
        let symbols = pack_bytes(bytes, w, count);
        let mut r: Vec<(i32, i32)> = Vec::new();
        let mut j: usize = 0;
        while j < count
            invariant
                w as nat == self.bps(),
                symbols@.len() == count,
                forall|jj: int| 0 <= jj < count ==> #[trigger] symbols@[jj] as nat == pack(bytes@, w as nat, count as nat)[jj],
                j <= count,
                r@.len() == j,
                forall|jj: int| 0 <= jj < j ==> (#[trigger] r@[jj]).0 as int == self.points_of(bytes@, count as nat)[jj].0
                    && r@[jj].1 as int == self.points_of(bytes@, count as nat)[jj].1,
            decreases count - j,
        {
            let s = symbols[j];
            proof {
                assert(j * w + w <= count * w) by (nonlinear_arith)
                    requires
                        j < count,
                ;
                let chunk = fit(byte_stream(bytes@), (count * w) as nat).subrange(j * w, j * w + w);
                lemma_bits_value_bound(chunk);
                assert(s as nat == bits_value(chunk));
            }
            r.push(self.symbol_point(s));
            j = j + 1;
        }
        r
    }

    /// Decides the nearest symbol for each pair of grid positions and joins
    /// the symbols' bits into bytes; a trailing partial byte is padded with
    /// zero bits.
    pub fn demodulate(&self, positions: &[(i64, i64)]) -> (r: Vec<u8>)
        requires
            positions@.len() * 8 + 7 <= u64::MAX,
        ensures
            r@.len() == unpacked_len(positions@.len(), self.bps()),
            forall|i: int| 0 <= i < r@.len() ==> #[trigger] r@[i] as nat == unpack(self.decide_all(positions@), self.bps())[i],
    {
        let mut symbols: Vec<u32> = Vec::new();
        let mut j: usize = 0;
        while j < positions.len()
            invariant
                j <= positions@.len(),
                symbols@ == self.decide_all(positions@).subrange(0, j as int),
            decreases positions@.len() - j,
        {
            let (ip, qp) = positions[j];
            let s = self.decide_symbol(ip, qp);
            symbols.push(s);
            j = j + 1;
            assert(symbols@ =~= self.decide_all(positions@).subrange(0, j as int));
        }
        assert(symbols@ =~= self.decide_all(positions@));
        proof {
            self.lemma_sizes();
        }
        unpack_symbols(symbols.as_slice(), self.bits_per_symbol())
    }
}

} // verus!
