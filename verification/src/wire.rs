//! Little-endian fields, and a cursor that reads them back.
//!
//! Every read of the cursor is bounds-checked and gives `None` on underrun, so
//! a truncated section is reported rather than read past its end.
use vstd::prelude::*;

verus! {

/// `256` to the power `n`.
pub open spec fn pow256(n: nat) -> nat
    decreases n,
{
    if n == 0 {
        1
    } else {
        256 * pow256((n - 1) as nat)
    }
}

/// The `n` little-endian bytes of `x`.
pub open spec fn le_bytes(x: nat, n: nat) -> Seq<u8>
    decreases n,
{
    if n == 0 {
        Seq::empty()
    } else {
        seq![(x % 256) as u8] + le_bytes(x / 256, (n - 1) as nat)
    }
}

/// The number whose little-endian bytes are `s`.
pub open spec fn le_value(s: Seq<u8>) -> nat
    decreases s.len(),
{
    if s.len() == 0 {
        0
    } else {
        s[0] as nat + 256 * le_value(s.drop_first())
    }
}

/// The `w`-byte field of `b` at offset `off`.
pub open spec fn field(b: Seq<u8>, off: int, w: int) -> nat {
    le_value(b.subrange(off, off + w))
}

/// Two's-complement pattern of a signed 128-bit number.
pub open spec fn i128_pattern(x: i128) -> u128 {
    x as u128
}

pub proof fn lemma_le_bytes_len(x: nat, n: nat)
    ensures
        le_bytes(x, n).len() == n,
    decreases n,
{
    if n > 0 {
        lemma_le_bytes_len(x / 256, (n - 1) as nat);
    }
}

/// Reading back the `n` bytes of a number that fits in them gives the number.
pub proof fn lemma_le_round_trip(x: nat, n: nat)
    requires
        x < pow256(n),
    ensures
        le_value(le_bytes(x, n)) == x,
        le_bytes(x, n).len() == n,
    decreases n,
{
    lemma_le_bytes_len(x, n);
    if n > 0 {
        assert(x / 256 < pow256((n - 1) as nat));
        lemma_le_round_trip(x / 256, (n - 1) as nat);
        assert(le_bytes(x, n).drop_first() =~= le_bytes(x / 256, (n - 1) as nat));
    }
}

/// A number read from `s` fits in that many bytes.
pub proof fn lemma_le_value_bound(s: Seq<u8>)
    ensures
        le_value(s) < pow256(s.len()),
    decreases s.len(),
{
    if s.len() > 0 {
        lemma_le_value_bound(s.drop_first());
    }
}

pub proof fn lemma_pow256_values()
    ensures
        pow256(1) == 0x100,
        pow256(2) == 0x1_0000,
        pow256(4) == 0x1_0000_0000,
        pow256(8) == 0x1_0000_0000_0000_0000,
        pow256(16) == 0x1_0000_0000_0000_0000_0000_0000_0000_0000,
{
    reveal_with_fuel(pow256, 17);
}

/// A field that was written at `off` is read back from `off`.
pub proof fn lemma_field_of_bytes(b: Seq<u8>, off: int, x: nat, w: nat)
    requires
        0 <= off,
        off + w <= b.len(),
        b.subrange(off, off + w) == le_bytes(x, w),
        x < pow256(w),
    ensures
        field(b, off, w as int) == x,
{
    lemma_le_round_trip(x, w);
}

proof fn lemma_pow256_split(i: nat, w: nat)
    requires
        i <= w,
    ensures
        pow256(w) == pow256(i) * pow256((w - i) as nat),
    decreases i,
{
    if i == 0 {
        assert(1 * pow256(w) == pow256(w));
    } else {
        lemma_pow256_split((i - 1) as nat, w);
        let a = pow256((i - 1) as nat);
        let c = pow256((w - i) as nat);
        assert(pow256((w - (i - 1)) as nat) == 256 * c);
        assert(a * (256 * c) == (256 * a) * c) by (nonlinear_arith);
    }
}

/// Append the `w` low bytes of `x`, least significant first.
pub fn put_le(out: &mut Vec<u8>, x: u128, w: usize)
    ensures
        final(out)@ == old(out)@ + le_bytes(x as nat, w as nat),
{
    let mut rest: u128 = x;
    let mut i: usize = 0;
    let ghost start = out@;
    proof {
        assert(start + le_bytes(x as nat, w as nat) =~= out@ + le_bytes(rest as nat, w as nat));
    }
    while i < w
        invariant
            i <= w,
            out@ + le_bytes(rest as nat, (w - i) as nat) == start + le_bytes(x as nat, w as nat),
        decreases w - i,
    {
        let ghost before = out@;
        let ghost r0 = rest as nat;
        out.push((rest % 256) as u8);
        rest = rest / 256;
        i = i + 1;
        proof {
            assert(before + le_bytes(r0, (w - i + 1) as nat) =~= out@ + le_bytes(
                rest as nat,
                (w - i) as nat,
            ));
        }
    }
    proof {
        assert(out@ + le_bytes(rest as nat, 0) =~= out@);
    }
}

/// Append a byte.
pub fn put_u8(out: &mut Vec<u8>, x: u8)
    ensures
        final(out)@ == old(out)@.push(x),
{
    out.push(x);
}

pub fn put_u32(out: &mut Vec<u8>, x: u32)
    ensures
        final(out)@ == old(out)@ + le_bytes(x as nat, 4),
{
    put_le(out, x as u128, 4);
}

pub fn put_u64(out: &mut Vec<u8>, x: u64)
    ensures
        final(out)@ == old(out)@ + le_bytes(x as nat, 8),
{
    put_le(out, x as u128, 8);
}

pub fn put_i128(out: &mut Vec<u8>, x: i128)
    ensures
        final(out)@ == old(out)@ + le_bytes(i128_pattern(x) as nat, 16),
{
    put_le(out, x as u128, 16);
}

/// Append a run of bytes.
pub fn put_slice(out: &mut Vec<u8>, s: &[u8])
    ensures
        final(out)@ == old(out)@ + s@,
{
    let ghost start = out@;
    let mut i: usize = 0;
    while i < s.len()
        invariant
            i <= s.len(),
            out@ == start + s@.subrange(0, i as int),
        decreases s.len() - i,
    {
        out.push(s[i]);
        i = i + 1;
        proof {
            assert(s@.subrange(0, i as int) =~= s@.subrange(0, i - 1).push(s@[i - 1]));
            assert(out@ =~= start + s@.subrange(0, i as int));
        }
    }
    proof {
        assert(s@.subrange(0, i as int) =~= s@);
    }
}

/// The `w`-byte field of `b` at `off`.
pub fn get_le(b: &[u8], off: usize, w: usize) -> (r: u128)
    requires
        off + w <= b.len(),
        w <= 16,
    ensures
        r == field(b@, off as int, w as int),
{
    proof {
        lemma_pow256_values();
    }
    let mut acc: u128 = 0;
    let mut i: usize = w;
    let ghost whole = b@.subrange(off as int, off + w);
    proof {
        assert(whole.subrange(w as int, w as int) =~= Seq::<u8>::empty());
    }
    while i > 0
        invariant
            i <= w <= 16,
            off + w <= b.len(),
            whole == b@.subrange(off as int, off + w),
            acc == le_value(whole.subrange(i as int, w as int)),
            pow256(16) == 0x1_0000_0000_0000_0000_0000_0000_0000_0000,
        decreases i,
    {
        i = i - 1;
        proof {
            let tail = whole.subrange(i as int, w as int);
            assert(tail.drop_first() =~= whole.subrange(i + 1, w as int));
            lemma_le_value_bound(tail);
            lemma_pow256_split((w - i) as nat, 16);
            assert(pow256((16 - (w - i)) as nat) >= 1) by {
                lemma_pow256_positive((16 - (w - i)) as nat);
            }
            assert(pow256((w - i) as nat) <= pow256(16)) by (nonlinear_arith)
                requires
                    pow256(16) == pow256((w - i) as nat) * pow256((16 - (w - i)) as nat),
                    pow256((16 - (w - i)) as nat) >= 1,
            ;
            assert(tail[0] == b@[off + i]);
        }
        acc = b[off + i] as u128 + 256 * acc;
    }
    proof {
        assert(whole.subrange(0, w as int) =~= whole);
    }
    acc
}

proof fn lemma_pow256_positive(n: nat)
    ensures
        pow256(n) >= 1,
    decreases n,
{
    if n > 0 {
        lemma_pow256_positive((n - 1) as nat);
    }
}

/// A reading position in a byte slice.
pub struct Cursor<'a> {
    buf: &'a [u8],
    pos: usize,
}

impl<'a> Cursor<'a> {
    /// The bytes that are read.
    pub closed spec fn bytes(&self) -> Seq<u8> {
        self.buf@
    }

    /// The offset of the next read.
    pub closed spec fn at(&self) -> int {
        self.pos as int
    }

    /// The position never passes the end.
    pub open spec fn wf(&self) -> bool {
        0 <= self.at() <= self.bytes().len()
    }

    pub fn new(buf: &'a [u8]) -> (r: Self)
        ensures
            r.wf(),
            r.bytes() == buf@,
            r.at() == 0,
    {
        Cursor { buf, pos: 0 }
    }

    /// The offset of the next read.
    pub fn position(&self) -> (r: usize)
        ensures
            r == self.at(),
    {
        self.pos
    }

    /// Step over the next `n` bytes and hand them out; `None`, without moving,
    /// where fewer are left.
    pub fn take(&mut self, n: usize) -> (r: Option<&'a [u8]>)
        requires
            old(self).wf(),
        ensures
            final(self).wf(),
            final(self).bytes() == old(self).bytes(),
            match r {
                Some(s) => old(self).at() + n <= old(self).bytes().len() && s@ == old(
                    self,
                ).bytes().subrange(old(self).at(), old(self).at() + n) && final(self).at() == old(
                    self,
                ).at() + n,
                None => old(self).at() + n > old(self).bytes().len() && final(self).at() == old(
                    self,
                ).at(),
            },
    {
        if n > self.buf.len() - self.pos {
            None
        } else {
            let end: usize = self.pos + n;
            let s = vstd::slice::slice_subrange(self.buf, self.pos, end);
            self.pos = end;
            Some(s)
        }
    }

    /// Bytes left unread.
    pub fn remaining(&self) -> (r: usize)
        requires
            self.wf(),
        ensures
            r == self.bytes().len() - self.at(),
    {
        self.buf.len() - self.pos
    }

    /// Read a `w`-byte number.
    fn uint(&mut self, w: usize) -> (r: Option<u128>)
        requires
            old(self).wf(),
            w <= 16,
        ensures
            final(self).wf(),
            final(self).bytes() == old(self).bytes(),
            match r {
                Some(v) => old(self).at() + w <= old(self).bytes().len() && v == field(
                    old(self).bytes(),
                    old(self).at(),
                    w as int,
                ) && final(self).at() == old(self).at() + w,
                None => old(self).at() + w > old(self).bytes().len() && final(self).at() == old(
                    self,
                ).at(),
            },
    {
        if w > self.buf.len() - self.pos {
            None
        } else {
            let v: u128 = get_le(self.buf, self.pos, w);
            self.pos = self.pos + w;
            Some(v)
        }
    }

    pub fn u8(&mut self) -> (r: Option<u8>)
        requires
            old(self).wf(),
        ensures
            final(self).wf(),
            final(self).bytes() == old(self).bytes(),
            match r {
                Some(v) => old(self).at() + 1 <= old(self).bytes().len() && v == field(
                    old(self).bytes(),
                    old(self).at(),
                    1,
                ) && final(self).at() == old(self).at() + 1,
                None => old(self).at() + 1 > old(self).bytes().len() && final(self).at() == old(
                    self,
                ).at(),
            },
    {
        match self.uint(1) {
            Some(v) => {
                proof {
                    lemma_pow256_values();
                    lemma_le_value_bound(self.bytes().subrange(self.at() - 1, self.at()));
                }
                Some(v as u8)
            },
            None => None,
        }
    }

    pub fn u16(&mut self) -> (r: Option<u16>)
        requires
            old(self).wf(),
        ensures
            final(self).wf(),
            final(self).bytes() == old(self).bytes(),
            match r {
                Some(v) => old(self).at() + 2 <= old(self).bytes().len() && v == field(
                    old(self).bytes(),
                    old(self).at(),
                    2,
                ) && final(self).at() == old(self).at() + 2,
                None => old(self).at() + 2 > old(self).bytes().len() && final(self).at() == old(
                    self,
                ).at(),
            },
    {
        match self.uint(2) {
            Some(v) => {
                proof {
                    lemma_pow256_values();
                    lemma_le_value_bound(self.bytes().subrange(self.at() - 2, self.at()));
                }
                Some(v as u16)
            },
            None => None,
        }
    }

    pub fn u32(&mut self) -> (r: Option<u32>)
        requires
            old(self).wf(),
        ensures
            final(self).wf(),
            final(self).bytes() == old(self).bytes(),
            match r {
                Some(v) => old(self).at() + 4 <= old(self).bytes().len() && v == field(
                    old(self).bytes(),
                    old(self).at(),
                    4,
                ) && final(self).at() == old(self).at() + 4,
                None => old(self).at() + 4 > old(self).bytes().len() && final(self).at() == old(
                    self,
                ).at(),
            },
    {
        match self.uint(4) {
            Some(v) => {
                proof {
                    lemma_pow256_values();
                    lemma_le_value_bound(self.bytes().subrange(self.at() - 4, self.at()));
                }
                Some(v as u32)
            },
            None => None,
        }
    }

    pub fn u64(&mut self) -> (r: Option<u64>)
        requires
            old(self).wf(),
        ensures
            final(self).wf(),
            final(self).bytes() == old(self).bytes(),
            match r {
                Some(v) => old(self).at() + 8 <= old(self).bytes().len() && v == field(
                    old(self).bytes(),
                    old(self).at(),
                    8,
                ) && final(self).at() == old(self).at() + 8,
                None => old(self).at() + 8 > old(self).bytes().len() && final(self).at() == old(
                    self,
                ).at(),
            },
    {
        match self.uint(8) {
            Some(v) => {
                proof {
                    lemma_pow256_values();
                    lemma_le_value_bound(self.bytes().subrange(self.at() - 8, self.at()));
                }
                Some(v as u64)
            },
            None => None,
        }
    }

    pub fn i128(&mut self) -> (r: Option<i128>)
        requires
            old(self).wf(),
        ensures
            final(self).wf(),
            final(self).bytes() == old(self).bytes(),
            match r {
                Some(v) => old(self).at() + 16 <= old(self).bytes().len() && i128_pattern(v)
                    == field(old(self).bytes(), old(self).at(), 16) && final(self).at() == old(
                    self,
                ).at() + 16,
                None => old(self).at() + 16 > old(self).bytes().len() && final(self).at() == old(
                    self,
                ).at(),
            },
    {
        match self.uint(16) {
            Some(v) => {
                proof {
                    assert((v as i128) as u128 == v) by (bit_vector);
                }
                Some(v as i128)
            },
            None => None,
        }
    }
}

// ---------------- runs of 32-bit words ----------------

/// The bytes of a run of words.
pub open spec fn word_bytes(s: Seq<u32>) -> Seq<u8>
    decreases s.len(),
{
    if s.len() == 0 {
        Seq::empty()
    } else {
        word_bytes(s.drop_last()) + le_bytes(s.last() as nat, 4)
    }
}

/// The `n` words of `b` from offset `off`.
pub open spec fn words(b: Seq<u8>, off: int, n: int) -> Seq<u32> {
    Seq::new(n as nat, |i: int| field(b, off + 4 * i, 4) as u32)
}

/// Concatenation can be grouped either way.
pub proof fn lemma_concat_assoc(a: Seq<u8>, b: Seq<u8>, c: Seq<u8>)
    ensures
        a + (b + c) == (a + b) + c,
{
    assert(a + (b + c) =~= (a + b) + c);
}

/// What is appended to nothing is all there is.
pub proof fn lemma_from_empty(out: Seq<u8>, x: Seq<u8>)
    requires
        out == Seq::<u8>::empty() + x,
    ensures
        out == x,
{
    assert(Seq::<u8>::empty() + x =~= x);
}

/// A field that lies inside a prefix reads there as it does in the whole.
pub proof fn lemma_prefix_field(b: Seq<u8>, cut: int, off: int, w: int)
    requires
        0 <= off,
        0 <= w,
        off + w <= cut <= b.len(),
    ensures
        field(b.subrange(0, cut), off, w) == field(b, off, w),
{
    assert(b.subrange(0, cut).subrange(off, off + w) =~= b.subrange(off, off + w));
}

pub proof fn lemma_word_bytes_len(s: Seq<u32>)
    ensures
        word_bytes(s).len() == 4 * s.len(),
    decreases s.len(),
{
    if s.len() > 0 {
        lemma_word_bytes_len(s.drop_last());
        lemma_le_bytes_len(s.last() as nat, 4);
    }
}

pub proof fn lemma_word_bytes_concat(a: Seq<u32>, b: Seq<u32>)
    ensures
        word_bytes(a + b) == word_bytes(a) + word_bytes(b),
    decreases b.len(),
{
    if b.len() == 0 {
        assert(a + b =~= a);
        assert(word_bytes(a) + word_bytes(b) =~= word_bytes(a));
    } else {
        assert((a + b).drop_last() =~= a + b.drop_last());
        lemma_word_bytes_concat(a, b.drop_last());
        assert(word_bytes(a + b) =~= word_bytes(a) + word_bytes(b));
    }
}

/// A word that was written is read back from its place.
pub proof fn lemma_word_at(b: Seq<u8>, off: int, s: Seq<u32>, i: int)
    requires
        0 <= off,
        off + 4 * s.len() <= b.len(),
        b.subrange(off, off + 4 * s.len()) == word_bytes(s),
        0 <= i < s.len(),
    ensures
        field(b, off + 4 * i, 4) == s[i],
    decreases s.len(),
{
    lemma_word_bytes_len(s);
    lemma_word_bytes_len(s.drop_last());
    lemma_le_bytes_len(s.last() as nat, 4);
    let whole = b.subrange(off, off + 4 * s.len());
    if i == s.len() - 1 {
        lemma_pow256_values();
        assert(b.subrange(off + 4 * i, off + 4 * i + 4) =~= whole.subrange(4 * i, 4 * i + 4));
        assert(whole.subrange(4 * i, 4 * i + 4) =~= le_bytes(s.last() as nat, 4));
        lemma_field_of_bytes(b, off + 4 * i, s.last() as nat, 4);
    } else {
        let d = s.drop_last();
        assert(b.subrange(off, off + 4 * d.len()) =~= whole.subrange(0, 4 * d.len() as int));
        assert(whole.subrange(0, 4 * d.len() as int) =~= word_bytes(d));
        lemma_word_at(b, off, d, i);
    }
}

/// A run of words that was written is read back.
pub proof fn lemma_words_read_back(b: Seq<u8>, off: int, s: Seq<u32>)
    requires
        0 <= off,
        off + 4 * s.len() <= b.len(),
        b.subrange(off, off + 4 * s.len()) == word_bytes(s),
    ensures
        words(b, off, s.len() as int) == s,
{
    assert forall|i: int| 0 <= i < s.len() implies #[trigger] words(b, off, s.len() as int)[i]
        == s[i] by {
        lemma_word_at(b, off, s, i);
    }
    assert(words(b, off, s.len() as int) =~= s);
}

/// Append a run of words.
pub fn put_words(out: &mut Vec<u8>, s: &Vec<u32>)
    ensures
        final(out)@ == old(out)@ + word_bytes(s@),
{
    let ghost start = out@;
    let mut i: usize = 0;
    proof {
        assert(s@.subrange(0, 0) =~= Seq::<u32>::empty());
        assert(start + word_bytes(s@.subrange(0, 0)) =~= start);
    }
    while i < s.len()
        invariant
            i <= s.len(),
            out@ == start + word_bytes(s@.subrange(0, i as int)),
        decreases s.len() - i,
    {
        put_u32(out, s[i]);
        i = i + 1;
        proof {
            let t = s@.subrange(0, i as int);
            assert(t.drop_last() =~= s@.subrange(0, i - 1));
            assert(out@ =~= start + word_bytes(t));
        }
    }
    proof {
        assert(s@.subrange(0, i as int) =~= s@);
    }
}

impl<'a> Cursor<'a> {
    /// Read `n` words; `None`, without moving, where fewer are left.
    pub fn words(&mut self, n: usize) -> (r: Option<Vec<u32>>)
        requires
            old(self).wf(),
        ensures
            final(self).wf(),
            final(self).bytes() == old(self).bytes(),
            match r {
                Some(v) => old(self).at() + 4 * n <= old(self).bytes().len() && v@ == words(
                    old(self).bytes(),
                    old(self).at(),
                    n as int,
                ) && final(self).at() == old(self).at() + 4 * n,
                None => old(self).at() + 4 * n > old(self).bytes().len() && final(self).at()
                    == old(self).at(),
            },
    {
        if n > self.remaining() / 4 {
            return None;
        }
        let ghost start = self.at();
        let ghost b = self.bytes();
        let mut out: Vec<u32> = Vec::new();
        let mut i: usize = 0;
        while i < n
            invariant
                i <= n,
                self.wf(),
                self.bytes() == b,
                self.at() == start + 4 * i,
                start + 4 * n <= b.len(),
                out@.len() == i,
                forall|j: int| 0 <= j < i ==> #[trigger] out@[j] == field(b, start + 4 * j, 4),
            decreases n - i,
        {
            match self.u32() {
                Some(v) => {
                    out.push(v);
                },
                None => {
                    return None;
                },
            }
            i = i + 1;
        }
        proof {
            assert(out@ =~= words(b, start, n as int));
        }
        Some(out)
    }
}

/// A field holds its number least significant byte first.
pub proof fn law_bytes_are_least_significant_first(x: nat, n: nat, i: int)
    requires
        0 <= i < n,
    ensures
        le_bytes(x, n).len() == n,
        le_bytes(x, n)[i] as nat == x / pow256(i as nat) % 256,
    decreases n,
{
    lemma_le_bytes_len(x, n);
    lemma_le_bytes_len(x / 256, (n - 1) as nat);
    if i == 0 {
        vstd::arithmetic::div_mod::lemma_fundamental_div_mod_converse(x as int, 1, x as int, 0);
    } else {
        law_bytes_are_least_significant_first(x / 256, (n - 1) as nat, i - 1);
        let p = pow256((i - 1) as nat);
        lemma_pow256_positive((i - 1) as nat);
        vstd::arithmetic::div_mod::lemma_div_denominator(x as int, 256, p as int);
    }
}

/// The last byte of a field weighs most: it counts 256 to the number of bytes
/// before it, on top of the number that those make.
pub proof fn law_last_byte_weighs_most(s: Seq<u8>)
    requires
        s.len() > 0,
    ensures
        le_value(s) == le_value(s.drop_last()) + s.last() * pow256((s.len() - 1) as nat),
    decreases s.len(),
{
    let rest = s.drop_first();
    if s.len() == 1 {
        assert(le_value(rest) == 0);
        assert(s.last() * 1 == s.last());
    } else {
        law_last_byte_weighs_most(rest);
        assert(rest.drop_last() =~= s.drop_last().drop_first());
        assert(rest.last() == s.last());
        let p = pow256((s.len() - 2) as nat);
        let c = s.last() as nat;
        assert(256 * (c * p) == c * (256 * p)) by (nonlinear_arith);
    }
}

} // verus!
