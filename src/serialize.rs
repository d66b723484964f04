//! A byte format for plain values: integers little-endian, pairs as their
//! parts in order, vectors as a 4-byte length and then their items. Reading
//! back what was written gives the value that was written.

use vstd::arithmetic::div_mod::{lemma_div_denominator, lemma_mod_breakdown, lemma_mod_bound, lemma_div_pos_is_pos};
use vstd::prelude::*;

verus! {

/// Reading ran past the end of the data.
#[derive(Debug)]
pub struct EOF;

/// `256^n`.
pub open spec fn pow256(n: nat) -> nat
    decreases n,
{
    if n == 0 {
        1
    } else {
        256 * pow256((n - 1) as nat)
    }
}

/// The `n` low bytes of `v`, least significant first.
pub open spec fn le_bytes(v: nat, n: nat) -> Seq<u8>
    decreases n,
{
    if n == 0 {
        Seq::empty()
    } else {
        le_bytes(v, (n - 1) as nat).push(((v / pow256((n - 1) as nat)) % 256) as u8)
    }
}

/// The number that little-endian bytes `s` stand for.
pub open spec fn le_value(s: Seq<u8>) -> nat
    decreases s.len(),
{
    if s.len() == 0 {
        0
    } else {
        le_value(s.drop_last()) + s.last() as nat * pow256((s.len() - 1) as nat)
    }
}

/// `p` is a prefix of `s`.
pub open spec fn starts_with(s: Seq<u8>, p: Seq<u8>) -> bool {
    p.len() <= s.len() && s.subrange(0, p.len() as int) == p
}

proof fn lemma_pow256_pos(n: nat)
    ensures
        pow256(n) > 0,
    decreases n,
{
    if n > 0 {
        lemma_pow256_pos((n - 1) as nat);
    }
}

proof fn lemma_pow256_small()
    ensures
        pow256(1) == 0x100,
        pow256(2) == 0x1_0000,
        pow256(4) == 0x1_0000_0000,
        pow256(7) == 0x100_0000_0000_0000,
        pow256(8) == 0x1_0000_0000_0000_0000,
{
    reveal_with_fuel(pow256, 9);
}

proof fn lemma_le_bytes_len(v: nat, n: nat)
    ensures
        le_bytes(v, n).len() == n,
    decreases n,
{
    if n > 0 {
        lemma_le_bytes_len(v, (n - 1) as nat);
    }
}

/// Bytes of `v` read back give `v` modulo `256^n`.
proof fn lemma_le_round_trip(v: nat, n: nat)
    ensures
        le_bytes(v, n).len() == n,
        le_value(le_bytes(v, n)) == v % pow256(n),
    decreases n,
{
    lemma_le_bytes_len(v, n);
    if n == 0 {
        assert(le_bytes(v, 0) =~= Seq::<u8>::empty());
        assert(pow256(0) == 1);
    } else {
        let m = (n - 1) as nat;
        lemma_le_round_trip(v, m);
        let s = le_bytes(v, n);
        assert(s.drop_last() =~= le_bytes(v, m));
        lemma_pow256_pos(m);
        lemma_mod_bound((v / pow256(m)) as int, 256);
        lemma_div_pos_is_pos(v as int, pow256(m) as int);
        assert(s.last() as nat == (v / pow256(m)) % 256);
        assert(le_value(s) == le_value(s.drop_last()) + s.last() as nat * pow256(m));
        lemma_mod_breakdown(v as int, pow256(m) as int, 256);
        assert(pow256(n) == pow256(m) * 256) by (nonlinear_arith)
            requires
                pow256(n) == 256 * pow256(m),
        ;
        lemma_mod_bound((v / pow256(m)) as int, 256);
        lemma_div_pos_is_pos(v as int, pow256(m) as int);
    }
}

/// `n` bytes are `n` long.
pub proof fn lemma_le_exact_len(v: nat, n: nat)
    ensures
        le_bytes(v, n).len() == n,
{
    lemma_le_bytes_len(v, n);
}

/// Bytes of a number below `256^n` read back give that number.
proof fn lemma_le_exact(v: nat, n: nat)
    requires
        v < pow256(n),
    ensures
        le_bytes(v, n).len() == n,
        le_value(le_bytes(v, n)) == v,
{
    lemma_le_round_trip(v, n);
    vstd::arithmetic::div_mod::lemma_small_mod(v, pow256(n));
}

/// A cursor over borrowed bytes.
pub struct MemStream<'a> {
    data: &'a [u8],
    position: usize,
}

impl<'a> MemStream<'a> {
    pub closed spec fn data(&self) -> Seq<u8> {
        self.data@
    }

    pub closed spec fn position(&self) -> nat {
        self.position as nat
    }

    pub open spec fn wf(&self) -> bool {
        self.position() <= self.data().len()
    }

    /// The bytes not yet taken.
    pub open spec fn remaining(&self) -> Seq<u8> {
        self.data().subrange(self.position() as int, self.data().len() as int)
    }

    pub fn new(data: &'a [u8]) -> (r: MemStream<'a>)
        ensures
            r.wf(),
            r.data() == data@,
            r.position() == 0,
    {
        MemStream { data, position: 0 }
    }

    /// Takes the next `len` bytes, or fails when fewer are left.
    pub fn take(&mut self, len: usize) -> (r: Result<&'a [u8], EOF>)
        requires
            old(self).wf(),
        ensures
            final(self).wf(),
            final(self).data() == old(self).data(),
            r is Err <==> old(self).position() + len > old(self).data().len(),
            r is Err ==> final(self).position() == old(self).position(),
            r matches Ok(b) ==> {
                &&& b@ == old(self).data().subrange(
                    old(self).position() as int,
                    old(self).position() + len,
                )
                &&& final(self).position() == old(self).position() + len
            },
    {
        if len > self.data.len() - self.position {
            return Err(EOF);
        }
        let old_position = self.position;
        self.position = self.position + len;
        let r = &self.data[old_position..self.position];
        Ok(r)
    }
}

/// Writes the `n` low bytes of `v`, least significant first.
fn emit_le(v: u64, n: usize, dest: &mut Vec<u8>)
    requires
        1 <= n <= 8,
    ensures
        final(dest)@ == old(dest)@ + le_bytes(v as nat, n as nat),
{
    let ghost start = dest@;
    let mut x: u64 = v;
    let mut i: usize = 0;
    assert(pow256(0) == 1);
    assert(start + le_bytes(v as nat, 0) =~= start);
    while i < n
        invariant
            i <= n <= 8,
            x == v as nat / pow256(i as nat),
            dest@ == start + le_bytes(v as nat, i as nat),
        decreases n - i,
    {
        dest.push((x % 256) as u8);
        proof {
            lemma_pow256_pos(i as nat);
            lemma_div_denominator(v as int, pow256(i as nat) as int, 256);
            assert(pow256((i + 1) as nat) == pow256(i as nat) * 256) by (nonlinear_arith)
                requires
                    pow256((i + 1) as nat) == 256 * pow256(i as nat),
            ;
            assert(dest@ =~= start + le_bytes(v as nat, (i + 1) as nat));
        }
        x = x / 256;
        i = i + 1;
    }
}

/// Reads `n` bytes as a little-endian number.
fn read_le<'a>(s: &mut MemStream<'a>, n: usize) -> (r: Result<u64, EOF>)
    requires
        old(s).wf(),
        1 <= n <= 8,
    ensures
        final(s).wf(),
        final(s).data() == old(s).data(),
        r is Err <==> old(s).remaining().len() < n,
        r matches Ok(x) ==> {
            &&& x == le_value(old(s).remaining().subrange(0, n as int))
            &&& final(s).position() == old(s).position() + n
        },
{
    let bytes = s.take(n)?;
    let ghost b = bytes@;
    let mut acc: u64 = 0;
    let mut p: u64 = 1;
    let mut i: usize = 0;
    proof {
        lemma_pow256_small();
        assert(b =~= old(s).remaining().subrange(0, n as int));
    }
    while i < n
        invariant
            b == bytes@,
            b.len() == n,
            i <= n <= 8,
            i < n ==> p == pow256(i as nat),
            i < n ==> p <= 0x100_0000_0000_0000,
            acc == le_value(b.subrange(0, i as int)),
            acc < pow256(i as nat),
            pow256(8) == 0x1_0000_0000_0000_0000,
        decreases n - i,
    {
        let byte = bytes[i];
        proof {
            lemma_pow256_monotone(i as nat, 7);
            assert(b.subrange(0, i + 1).drop_last() =~= b.subrange(0, i as int));
            assert(acc + byte * p < pow256((i + 1) as nat)) by (nonlinear_arith)
                requires
                    acc < p,
                    byte < 256,
                    pow256((i + 1) as nat) == 256 * p,
            ;
            lemma_pow256_monotone((i + 1) as nat, 8);
        }
        acc = acc + (byte as u64) * p;
        if i + 1 < n {
            proof {
                lemma_pow256_monotone((i + 1) as nat, 7);
                reveal_with_fuel(pow256, 8);
            }
            p = p * 256;
        } else {
            proof {
                reveal_with_fuel(pow256, 2);
            }
        }
        i = i + 1;
    }
    assert(b.subrange(0, n as int) =~= b);
    Ok(acc)
}

proof fn lemma_pow256_monotone(a: nat, b: nat)
    requires
        a <= b,
    ensures
        pow256(a) <= pow256(b),
    decreases b,
{
    if a < b {
        lemma_pow256_monotone(a, (b - 1) as nat);
        lemma_pow256_pos((b - 1) as nat);
    }
}

proof fn lemma_le_value_bound(s: Seq<u8>)
    ensures
        le_value(s) < pow256(s.len()),
    decreases s.len(),
{
    if s.len() > 0 {
        let m = (s.len() - 1) as nat;
        lemma_le_value_bound(s.drop_last());
        assert(le_value(s.drop_last()) + s.last() as nat * pow256(m) < pow256(s.len())) by (nonlinear_arith)
            requires
                le_value(s.drop_last()) < pow256(m),
                s.last() < 256,
                pow256(s.len()) == 256 * pow256(m),
        ;
    }
}

/// The bytes at the front of `rem` that `p + q` starts split into `p`, then
/// `q` after it.
pub proof fn lemma_split(rem: Seq<u8>, p: Seq<u8>, q: Seq<u8>)
    requires
        starts_with(rem, p + q),
    ensures
        starts_with(rem, p),
        starts_with(rem.subrange(p.len() as int, rem.len() as int), q),
{
    let pq = p + q;
    assert forall|i: int| 0 <= i < pq.len() implies rem[i] == pq[i] by {
        assert(rem.subrange(0, pq.len() as int)[i] == pq[i]);
    }
    assert(rem.subrange(0, p.len() as int) =~= p) by {
        assert forall|i: int| 0 <= i < p.len() implies rem.subrange(0, p.len() as int)[i] == p[i] by {
            assert(pq[i] == p[i]);
        }
    }
    let rest = rem.subrange(p.len() as int, rem.len() as int);
    assert(rest.subrange(0, q.len() as int) =~= q) by {
        assert forall|i: int| 0 <= i < q.len() implies rest.subrange(0, q.len() as int)[i] == q[i] by {
            assert(pq[p.len() + i] == q[i]);
        }
    }
}

/// Reading what `n` bytes of a stream held leaves the rest.
pub proof fn lemma_advance<'a>(sa: MemStream<'a>, sb: MemStream<'a>, n: nat)
    requires
        sa.wf(),
        sb.data() == sa.data(),
        sb.position() == sa.position() + n,
        sb.position() <= sb.data().len(),
    ensures
        sb.remaining() == sa.remaining().subrange(n as int, sa.remaining().len() as int),
{
    assert(sb.remaining() =~= sa.remaining().subrange(n as int, sa.remaining().len() as int));
}

/// Values that can be written as bytes and read back.
pub trait Flatten: Sized + DeepView {
    /// The bytes that stand for a value.
    spec fn flat(v: Self::V) -> Seq<u8>;

    /// The value fits the format (its vectors have at most `u32::MAX` items).
    spec fn flattenable(v: Self::V) -> bool;

    /// Appends the bytes of `v`; fails exactly when `v` does not fit the
    /// format, and then leaves `dest` as it was.
    fn emit(v: &Self, dest: &mut Vec<u8>) -> (r: Result<(), ()>)
        ensures
            r is Ok <==> Self::flattenable(v.deep_view()),
            r is Ok ==> final(dest)@ == old(dest)@ + Self::flat(v.deep_view()),
            r is Err ==> final(dest)@ == old(dest)@,
    ;

    /// Reads a value; when the stream goes on with the bytes of some value,
    /// that value comes back and its bytes are consumed.
    fn read<'a>(s: &mut MemStream<'a>) -> (r: Result<Self, EOF>)
        requires
            old(s).wf(),
        ensures
            final(s).wf(),
            final(s).data() == old(s).data(),
            forall|w: Self::V|
                Self::flattenable(w) && starts_with(old(s).remaining(), #[trigger] Self::flat(w)) ==> {
                    &&& r matches Ok(x) && x.deep_view() == w
                    &&& final(s).position() == old(s).position() + Self::flat(w).len()
                },
    ;
}

/// The value of an `n`-byte two's-complement integer as an unsigned number.
pub open spec fn twos(v: int, n: nat) -> nat {
    if v >= 0 {
        v as nat
    } else {
        (v + pow256(n)) as nat
    }
}

impl Flatten for u8 {
    open spec fn flat(v: u8) -> Seq<u8> {
        le_bytes(v as nat, 1)
    }

    open spec fn flattenable(v: u8) -> bool {
        true
    }

    fn emit(v: &u8, dest: &mut Vec<u8>) -> (r: Result<(), ()>) {
        emit_le(*v as u64, 1, dest);
        Ok(())
    }

    fn read<'a>(s: &mut MemStream<'a>) -> (r: Result<u8, EOF>) {
        let ghost sa = *s;
        proof {
            lemma_pow256_small();
            assert forall|w: u8| Self::flattenable(w) && starts_with(sa.remaining(), #[trigger] Self::flat(w))
                implies sa.remaining().len() >= 1 && sa.remaining().subrange(0, 1) == le_bytes(w as nat, 1) && le_value(le_bytes(w as nat, 1)) == w by {
                lemma_le_exact(w as nat, 1);
            }
        }
        let x = read_le(s, 1)?;
        proof {
            lemma_le_value_bound(sa.remaining().subrange(0, 1));
        }
        Ok(x as u8)
    }
}

impl Flatten for i8 {
    open spec fn flat(v: i8) -> Seq<u8> {
        le_bytes(twos(v as int, 1), 1)
    }

    open spec fn flattenable(v: i8) -> bool {
        true
    }

    fn emit(v: &i8, dest: &mut Vec<u8>) -> (r: Result<(), ()>) {
        proof {
            lemma_pow256_small();
        }
        let u: u64 = if *v >= 0 { *v as u64 } else { (*v as i64 + 0x100) as u64 };
        emit_le(u, 1, dest);
        Ok(())
    }

    fn read<'a>(s: &mut MemStream<'a>) -> (r: Result<i8, EOF>) {
        let ghost sa = *s;
        proof {
            lemma_pow256_small();
            assert forall|w: i8| Self::flattenable(w) && starts_with(sa.remaining(), #[trigger] Self::flat(w))
                implies sa.remaining().len() >= 1 && sa.remaining().subrange(0, 1) == le_bytes(twos(w as int, 1), 1) && le_value(
                le_bytes(twos(w as int, 1), 1),
            ) == twos(w as int, 1) by {
                lemma_le_exact(twos(w as int, 1), 1);
            }
        }
        let x = read_le(s, 1)?;
        proof {
            lemma_le_value_bound(sa.remaining().subrange(0, 1));
        }
        if x < 0x80 {
            Ok(x as i8)
        } else {
            Ok((x as i64 - 0x100) as i8)
        }
    }
}

impl Flatten for i16 {
    open spec fn flat(v: i16) -> Seq<u8> {
        le_bytes(twos(v as int, 2), 2)
    }

    open spec fn flattenable(v: i16) -> bool {
        true
    }

    fn emit(v: &i16, dest: &mut Vec<u8>) -> (r: Result<(), ()>) {
        proof {
            lemma_pow256_small();
        }
        let u: u64 = if *v >= 0 { *v as u64 } else { (*v as i64 + 0x1_0000) as u64 };
        emit_le(u, 2, dest);
        Ok(())
    }

    fn read<'a>(s: &mut MemStream<'a>) -> (r: Result<i16, EOF>) {
        let ghost sa = *s;
        proof {
            lemma_pow256_small();
            assert forall|w: i16| Self::flattenable(w) && starts_with(sa.remaining(), #[trigger] Self::flat(w))
                implies sa.remaining().len() >= 2 && sa.remaining().subrange(0, 2) == le_bytes(twos(w as int, 2), 2) && le_value(
                le_bytes(twos(w as int, 2), 2),
            ) == twos(w as int, 2) by {
                lemma_le_exact(twos(w as int, 2), 2);
            }
        }
        let x = read_le(s, 2)?;
        proof {
            lemma_le_value_bound(sa.remaining().subrange(0, 2));
        }
        if x < 0x8000 {
            Ok(x as i16)
        } else {
            Ok((x as i64 - 0x1_0000) as i16)
        }
    }
}

impl Flatten for u32 {
    open spec fn flat(v: u32) -> Seq<u8> {
        le_bytes(v as nat, 4)
    }

    open spec fn flattenable(v: u32) -> bool {
        true
    }

    fn emit(v: &u32, dest: &mut Vec<u8>) -> (r: Result<(), ()>) {
        emit_le(*v as u64, 4, dest);
        Ok(())
    }

    fn read<'a>(s: &mut MemStream<'a>) -> (r: Result<u32, EOF>) {
        let ghost sa = *s;
        proof {
            lemma_pow256_small();
            assert forall|w: u32| Self::flattenable(w) && starts_with(sa.remaining(), #[trigger] Self::flat(w))
                implies sa.remaining().len() >= 4 && sa.remaining().subrange(0, 4) == le_bytes(w as nat, 4) && le_value(le_bytes(w as nat, 4)) == w by {
                lemma_le_exact(w as nat, 4);
            }
        }
        let x = read_le(s, 4)?;
        proof {
            lemma_le_value_bound(sa.remaining().subrange(0, 4));
        }
        Ok(x as u32)
    }
}

impl Flatten for i32 {
    open spec fn flat(v: i32) -> Seq<u8> {
        le_bytes(twos(v as int, 4), 4)
    }

    open spec fn flattenable(v: i32) -> bool {
        true
    }

    fn emit(v: &i32, dest: &mut Vec<u8>) -> (r: Result<(), ()>) {
        proof {
            lemma_pow256_small();
        }
        let u: u64 = if *v >= 0 { *v as u64 } else { (*v as i64 + 0x1_0000_0000) as u64 };
        emit_le(u, 4, dest);
        Ok(())
    }

    fn read<'a>(s: &mut MemStream<'a>) -> (r: Result<i32, EOF>) {
        let ghost sa = *s;
        proof {
            lemma_pow256_small();
            assert forall|w: i32| Self::flattenable(w) && starts_with(sa.remaining(), #[trigger] Self::flat(w))
                implies sa.remaining().len() >= 4 && sa.remaining().subrange(0, 4) == le_bytes(twos(w as int, 4), 4) && le_value(
                le_bytes(twos(w as int, 4), 4),
            ) == twos(w as int, 4) by {
                lemma_le_exact(twos(w as int, 4), 4);
            }
        }
        let x = read_le(s, 4)?;
        proof {
            lemma_le_value_bound(sa.remaining().subrange(0, 4));
        }
        if x < 0x8000_0000 {
            Ok(x as i32)
        } else {
            Ok((x as i64 - 0x1_0000_0000) as i32)
        }
    }
}

impl Flatten for u64 {
    open spec fn flat(v: u64) -> Seq<u8> {
        le_bytes(v as nat, 8)
    }

    open spec fn flattenable(v: u64) -> bool {
        true
    }

    fn emit(v: &u64, dest: &mut Vec<u8>) -> (r: Result<(), ()>) {
        emit_le(*v, 8, dest);
        Ok(())
    }

    fn read<'a>(s: &mut MemStream<'a>) -> (r: Result<u64, EOF>) {
        let ghost sa = *s;
        proof {
            lemma_pow256_small();
            assert forall|w: u64| Self::flattenable(w) && starts_with(sa.remaining(), #[trigger] Self::flat(w))
                implies sa.remaining().len() >= 8 && sa.remaining().subrange(0, 8) == le_bytes(w as nat, 8) && le_value(le_bytes(w as nat, 8)) == w by {
                lemma_le_exact(w as nat, 8);
            }
        }
        let x = read_le(s, 8)?;
        Ok(x)
    }
}

impl<A: Flatten, B: Flatten> Flatten for (A, B) {
    open spec fn flat(v: (A::V, B::V)) -> Seq<u8> {
        A::flat(v.0) + B::flat(v.1)
    }

    open spec fn flattenable(v: (A::V, B::V)) -> bool {
        A::flattenable(v.0) && B::flattenable(v.1)
    }

    fn emit(v: &(A, B), dest: &mut Vec<u8>) -> (r: Result<(), ()>) {
        let mut bytes: Vec<u8> = Vec::new();
        A::emit(&v.0, &mut bytes)?;
        B::emit(&v.1, &mut bytes)?;
        assert(bytes@ =~= Self::flat(v.deep_view()));
        dest.append(&mut bytes);
        Ok(())
    }

    fn read<'a>(s: &mut MemStream<'a>) -> (r: Result<(A, B), EOF>) {
        let ghost sa = *s;
        let a = match A::read(s) {
            Ok(a) => a,
            Err(e) => {
                proof {
                    assert forall|w: (A::V, B::V)|
                        !(Self::flattenable(w) && starts_with(sa.remaining(), #[trigger] Self::flat(w))) by {
                        if Self::flattenable(w) && starts_with(sa.remaining(), Self::flat(w)) {
                            lemma_split(sa.remaining(), A::flat(w.0), B::flat(w.1));
                        }
                    }
                }
                return Err(e);
            },
        };
        let ghost sb = *s;
        let b = match B::read(s) {
            Ok(b) => b,
            Err(e) => {
                proof {
                    assert forall|w: (A::V, B::V)|
                        !(Self::flattenable(w) && starts_with(sa.remaining(), #[trigger] Self::flat(w))) by {
                        if Self::flattenable(w) && starts_with(sa.remaining(), Self::flat(w)) {
                            lemma_split(sa.remaining(), A::flat(w.0), B::flat(w.1));
                            lemma_advance(sa, sb, A::flat(w.0).len());
                        }
                    }
                }
                return Err(e);
            },
        };
        proof {
            assert forall|w: (A::V, B::V)|
                Self::flattenable(w) && starts_with(sa.remaining(), #[trigger] Self::flat(w)) implies {
                &&& a.deep_view() == w.0 && b.deep_view() == w.1
                &&& s.position() == sa.position() + Self::flat(w).len()
            } by {
                lemma_split(sa.remaining(), A::flat(w.0), B::flat(w.1));
                lemma_advance(sa, sb, A::flat(w.0).len());
            }
        }
        Ok((a, b))
    }
}

/// The bytes of each value of `s`, in order.
pub open spec fn flat_all<T: Flatten>(s: Seq<T::V>) -> Seq<u8>
    decreases s.len(),
{
    if s.len() == 0 {
        Seq::empty()
    } else {
        T::flat(s[0]) + flat_all::<T>(s.drop_first())
    }
}

proof fn lemma_flat_all_push<T: Flatten>(s: Seq<T::V>, x: T::V)
    ensures
        flat_all::<T>(s.push(x)) == flat_all::<T>(s) + T::flat(x),
    decreases s.len(),
{
    if s.len() == 0 {
        assert(s.push(x).drop_first() =~= Seq::<T::V>::empty());
        assert(s.push(x)[0] == x);
        assert(flat_all::<T>(Seq::<T::V>::empty()) == Seq::<u8>::empty());
        assert(flat_all::<T>(s) == Seq::<u8>::empty());
        assert(flat_all::<T>(s.push(x)) =~= T::flat(x));
    } else {
        lemma_flat_all_push::<T>(s.drop_first(), x);
        assert(s.push(x).drop_first() =~= s.drop_first().push(x));
        assert(flat_all::<T>(s.push(x)) =~= flat_all::<T>(s) + T::flat(x));
    }
}

impl<T: Flatten> Flatten for Vec<T> {
    open spec fn flat(v: Seq<T::V>) -> Seq<u8> {
        le_bytes(v.len(), 4) + flat_all::<T>(v)
    }

    open spec fn flattenable(v: Seq<T::V>) -> bool {
        v.len() <= u32::MAX && forall|i: int| 0 <= i < v.len() ==> T::flattenable(#[trigger] v[i])
    }

    fn emit(v: &Vec<T>, dest: &mut Vec<u8>) -> (r: Result<(), ()>) {
        if v.len() > 0xffff_ffff {
            return Err(());
        }
        let len = v.len() as u32;
        let mut bytes: Vec<u8> = Vec::new();
        emit_le(len as u64, 4, &mut bytes);
        let ghost start = bytes@;
        let ghost dv = v.deep_view();
        let mut i: usize = 0;
        assert(flat_all::<T>(dv.take(0)) =~= Seq::<u8>::empty()) by {
            assert(dv.take(0) =~= Seq::<T::V>::empty());
        }
        while i < v.len()
            invariant
                dv == v.deep_view(),
                i <= v@.len(),
                bytes@ == start + flat_all::<T>(dv.take(i as int)),
                forall|j: int| 0 <= j < i ==> T::flattenable(#[trigger] dv[j]),
            decreases v@.len() - i,
        {
            match T::emit(&v[i], &mut bytes) {
                Ok(()) => {},
                Err(()) => {
                    assert(dv[i as int] == v@[i as int].deep_view());
                    return Err(());
                },
            }
            proof {
                lemma_flat_all_push::<T>(dv.take(i as int), dv[i as int]);
                assert(dv.take(i + 1) =~= dv.take(i as int).push(dv[i as int]));
            }
            i = i + 1;
        }
        assert(dv.take(i as int) =~= dv);
        dest.append(&mut bytes);
        assert(dest@ =~= old(dest)@ + Self::flat(v.deep_view()));
        Ok(())
    }

    fn read<'a>(s: &mut MemStream<'a>) -> (r: Result<Vec<T>, EOF>) {
        let ghost sa = *s;
        proof {
            lemma_pow256_small();
        }
        let n = match u32::read(s) {
            Ok(n) => n,
            Err(e) => {
                proof {
                    assert forall|w: Seq<T::V>|
                        !(Self::flattenable(w) && starts_with(sa.remaining(), #[trigger] Self::flat(w))) by {
                        if Self::flattenable(w) && starts_with(sa.remaining(), Self::flat(w)) {
                            lemma_split(sa.remaining(), le_bytes(w.len(), 4), flat_all::<T>(w));
                            assert(u32::flat(w.len() as u32) == le_bytes(w.len(), 4));
                        }
                    }
                }
                return Err(e);
            },
        };
        let ghost sb = *s;
        proof {
            assert forall|w: Seq<T::V>|
                Self::flattenable(w) && starts_with(sa.remaining(), #[trigger] Self::flat(w)) implies {
                &&& n == w.len()
                &&& sb.position() == sa.position() + 4
                &&& starts_with(sb.remaining(), flat_all::<T>(w))
            } by {
                lemma_split(sa.remaining(), le_bytes(w.len(), 4), flat_all::<T>(w));
                assert(u32::flat(w.len() as u32) == le_bytes(w.len(), 4));
                lemma_le_bytes_len(w.len(), 4);
                lemma_advance(sa, sb, 4);
            }
        }
        let mut out: Vec<T> = Vec::new();
        let mut i: u32 = 0;
        proof {
            assert(out.deep_view() =~= Seq::<T::V>::empty());
            assert(flat_all::<T>(Seq::<T::V>::empty()) == Seq::<u8>::empty());
            assert forall|w: Seq<T::V>|
                Self::flattenable(w) && starts_with(sa.remaining(), #[trigger] Self::flat(w)) implies {
                &&& out.deep_view() == w.take(0)
                &&& starts_with(s.remaining(), flat_all::<T>(w.skip(0)))
                &&& s.position() == sb.position() + flat_all::<T>(w.take(0)).len()
            } by {
                assert(w.skip(0) =~= w);
                assert(w.take(0) =~= Seq::<T::V>::empty());
            }
        }
        while i < n
            invariant
                i <= n,
                sa == *old(s),
                s.wf(),
                s.data() == sa.data(),
                sa.wf(),
                sb.data() == sa.data(),
                out@.len() == i,
                forall|w: Seq<T::V>|
                    Self::flattenable(w) && starts_with(sa.remaining(), #[trigger] Self::flat(w)) ==> {
                        &&& n == w.len()
                        &&& sb.position() == sa.position() + 4
                        &&& out.deep_view() == w.take(i as int)
                        &&& starts_with(s.remaining(), flat_all::<T>(w.skip(i as int)))
                        &&& s.position() == sb.position() + flat_all::<T>(w.take(i as int)).len()
                    },
            decreases n - i,
        {
            let ghost si = *s;
            proof {
                assert forall|w: Seq<T::V>|
                    Self::flattenable(w) && starts_with(sa.remaining(), #[trigger] Self::flat(w)) implies starts_with(
                    si.remaining(),
                    T::flat(w[i as int]),
                ) && starts_with(
                    si.remaining().subrange(T::flat(w[i as int]).len() as int, si.remaining().len() as int),
                    flat_all::<T>(w.skip(i + 1)),
                ) && T::flattenable(w[i as int]) by {
                    assert(w.skip(i as int).drop_first() =~= w.skip(i + 1));
                    assert(w.skip(i as int)[0] == w[i as int]);
                    lemma_split(si.remaining(), T::flat(w[i as int]), flat_all::<T>(w.skip(i + 1)));
                }
            }
            let x = match T::read(s) {
                Ok(x) => x,
                Err(e) => {
                    proof {
                        assert forall|w: Seq<T::V>|
                            !(Self::flattenable(w) && starts_with(sa.remaining(), #[trigger] Self::flat(w))) by {
                            if Self::flattenable(w) && starts_with(sa.remaining(), Self::flat(w)) {
                                assert(starts_with(si.remaining(), T::flat(w[i as int])));
                            }
                        }
                    }
                    return Err(e);
                },
            };
            proof {
                assert forall|w: Seq<T::V>|
                    Self::flattenable(w) && starts_with(sa.remaining(), #[trigger] Self::flat(w)) implies {
                    &&& out.deep_view().push(x.deep_view()) == w.take(i + 1)
                    &&& starts_with(s.remaining(), flat_all::<T>(w.skip(i + 1)))
                    &&& s.position() == sb.position() + flat_all::<T>(w.take(i + 1)).len()
                } by {
                    lemma_advance(si, *s, T::flat(w[i as int]).len());
                    assert(w.take(i + 1) =~= w.take(i as int).push(w[i as int]));
                    lemma_flat_all_push::<T>(w.take(i as int), w[i as int]);
                    assert(out.deep_view().push(x.deep_view()) =~= w.take(i + 1));
                }
            }
            let ghost before = out.deep_view();
            out.push(x);
            assert(out.deep_view() =~= before.push(x.deep_view()));
            i = i + 1;
        }
        proof {
            assert forall|w: Seq<T::V>|
                Self::flattenable(w) && starts_with(sa.remaining(), #[trigger] Self::flat(w)) implies {
                &&& out.deep_view() == w
                &&& s.position() == sa.position() + Self::flat(w).len()
            } by {
                assert(w.take(n as int) =~= w);
                lemma_le_bytes_len(w.len(), 4);
            }
        }
        Ok(out)
    }
}

/// The bytes of `v`, or an error when it does not fit the format.
pub fn encode<T: Flatten>(v: &T) -> (r: Result<Vec<u8>, ()>)
    ensures
        r is Ok <==> T::flattenable(v.deep_view()),
        r matches Ok(b) ==> b@ == T::flat(v.deep_view()),
{
    let mut r: Vec<u8> = Vec::new();
    T::emit(v, &mut r)?;
    assert(r@ =~= T::flat(v.deep_view()));
    Ok(r)
}

/// Reads a value from the front of `data`.
pub fn decode<T: Flatten>(data: &[u8]) -> (r: Result<T, EOF>)
    ensures
        forall|w: T::V|
            T::flattenable(w) && starts_with(data@, #[trigger] T::flat(w)) ==> (r matches Ok(x) && x.deep_view() == w),
{
    let mut memstream = MemStream::new(data);
    assert(memstream.remaining() =~= data@);
    T::read(&mut memstream)
}

} // verus!
