//! How values stand on the wire: an encoding per type, of which no code is the beginning of
//! another, and a decoder that tells a missing tail from bytes that can never be a value.

use vstd::prelude::*;
use vstd::bytes::{
    lemma_auto_spec_u64_to_from_le_bytes, spec_u64_from_le_bytes, spec_u64_to_le_bytes,
    u64_from_le_bytes,
    u64_to_le_bytes,
};
use vstd::slice::slice_subrange;

verus! {

/// What reading one value from the front of a window of bytes came to.
#[derive(Clone, Debug, PartialEq, Eq)]
pub enum Decoded<V> {
    /// The window begins with the code of this value, which takes this many bytes.
    Complete(V, usize),
    /// The window begins with no code; more bytes may complete one.
    Incomplete,
    /// No bytes that could follow would make the window begin with a code.
    Malformed,
}

/// The part of `bytes` from the offset `at` on; empty where `at` lies beyond the end.
pub open spec fn window(bytes: Seq<u8>, at: int) -> Seq<u8> {
    if 0 <= at <= bytes.len() {
        bytes.skip(at)
    } else {
        Seq::empty()
    }
}

/// Whether `part` is a proper beginning of `whole`: the bytes of `whole` up to some point
/// short of its end.
pub open spec fn begins(part: Seq<u8>, whole: Seq<u8>) -> bool {
    part.is_prefix_of(whole) && part.len() < whole.len()
}

/// A sequence that begins with `a` is `a` followed by what lies beyond it.
pub proof fn lemma_prefix_split(a: Seq<u8>, w: Seq<u8>)
    requires
        a.is_prefix_of(w),
    ensures
        w == a + w.skip(a.len() as int),
{
    assert(w =~= a + w.skip(a.len() as int));
}

/// A common beginning can be struck from both sides of "begins with".
pub proof fn lemma_prefix_cancel(a: Seq<u8>, b: Seq<u8>, c: Seq<u8>)
    ensures
        (a + b).is_prefix_of(a + c) <==> b.is_prefix_of(c),
        begins(a + b, a + c) <==> begins(b, c),
{
    if b.is_prefix_of(c) {
        assert(a + b =~= (a + c).subrange(0, (a + b).len() as int));
    }
    if (a + b).is_prefix_of(a + c) {
        assert forall|i: int| 0 <= i < b.len() implies b[i] == c[i] by {
            assert((a + b)[a.len() + i] == (a + c).subrange(0, (a + b).len() as int)[a.len() + i]);
        }
        assert(b =~= c.subrange(0, b.len() as int));
    }
}

/// What a sequence begins with, it still begins with when more follows it.
pub proof fn lemma_prefix_extend(a: Seq<u8>, w: Seq<u8>, more: Seq<u8>)
    requires
        a.is_prefix_of(w),
    ensures
        a.is_prefix_of(w + more),
{
    assert(a =~= (w + more).subrange(0, a.len() as int));
}

/// The beginning of a beginning is a beginning.
pub proof fn lemma_prefix_trans(a: Seq<u8>, b: Seq<u8>, c: Seq<u8>)
    requires
        a.is_prefix_of(b),
        b.is_prefix_of(c),
    ensures
        a.is_prefix_of(c),
{
    assert(a =~= c.subrange(0, a.len() as int));
}

/// A window that follows `n` bytes of a window is the window `n` bytes further on.
pub proof fn lemma_window_skip(bytes: Seq<u8>, at: int, n: int)
    requires
        0 <= at,
        0 <= n <= window(bytes, at).len(),
    ensures
        window(bytes, at + n) == window(bytes, at).skip(n),
{
    assert(window(bytes, at + n) =~= window(bytes, at).skip(n));
}

/// A type whose values can be written to and read from a stream of bytes.
pub trait Wire: Sized {
    /// The code of a value: the bytes that stand for it.
    spec fn wire(&self) -> Seq<u8>;

    /// No code is the beginning of the code of another value.
    proof fn lemma_prefix_free(a: Self, b: Self)
        requires
            a.wire().is_prefix_of(b.wire()),
        ensures
            a == b,
    ;

    /// Appends the code of `self` to `out`.
    fn encode(&self, out: &mut Vec<u8>)
        ensures
            final(out)@ == old(out)@ + self.wire(),
    ;

    /// Reads one value from `bytes`, starting at the offset `at`.
    fn decode(bytes: &[u8], at: usize) -> (r: Decoded<Self>)
        ensures
            match r {
                Decoded::Complete(v, n) => v.wire().is_prefix_of(window(bytes@, at as int)) && n
                    == v.wire().len(),
                Decoded::Incomplete => exists|v: Self| #[trigger]
                    begins(window(bytes@, at as int), v.wire()),
                Decoded::Malformed => forall|v: Self, more: Seq<u8>|
                    !(#[trigger] v.wire().is_prefix_of(window(bytes@, at as int) + more)),
            },
    ;
}

/// A window begins with the code of at most one value.
pub proof fn lemma_unique_code<V: Wire>(a: V, b: V, w: Seq<u8>)
    requires
        a.wire().is_prefix_of(w),
        b.wire().is_prefix_of(w),
    ensures
        a == b,
{
    if a.wire().len() <= b.wire().len() {
        assert(a.wire() =~= b.wire().subrange(0, a.wire().len() as int));
        V::lemma_prefix_free(a, b);
    } else {
        assert(b.wire() =~= a.wire().subrange(0, b.wire().len() as int));
        V::lemma_prefix_free(b, a);
    }
}

/// A window that is a proper beginning of a code begins with no code.
pub proof fn lemma_beginning_has_no_code<V: Wire>(v: V, w: Seq<u8>)
    requires
        begins(w, v.wire()),
    ensures
        forall|u: V| !(#[trigger] u.wire()).is_prefix_of(w),
{
    assert forall|u: V| !(#[trigger] u.wire()).is_prefix_of(w) by {
        if u.wire().is_prefix_of(w) {
            assert(u.wire() =~= v.wire().subrange(0, u.wire().len() as int));
            V::lemma_prefix_free(u, v);
        }
    }
}

/// Fewer than eight bytes are the beginning of the eight bytes of some word.
proof fn lemma_word_begun(w: Seq<u8>) -> (word: u64)
    requires
        w.len() < 8,
    ensures
        begins(w, spec_u64_to_le_bytes(word)),
{
    lemma_auto_spec_u64_to_from_le_bytes();
    let padded = w + Seq::new((8 - w.len()) as nat, |i: int| 0u8);
    let word = spec_u64_from_le_bytes(padded);
    assert(spec_u64_to_le_bytes(spec_u64_from_le_bytes(padded)) == padded);
    assert(w =~= padded.subrange(0, w.len() as int));
    word
}

impl Wire for u8 {
    /// One byte: the value itself.
    open spec fn wire(&self) -> Seq<u8> {
        seq![*self]
    }

    proof fn lemma_prefix_free(a: u8, b: u8) {
        assert(a.wire()[0] == b.wire()[0]);
    }

    fn encode(&self, out: &mut Vec<u8>) {
        out.push(*self);
    }

    fn decode(bytes: &[u8], at: usize) -> (r: Decoded<u8>) {
        if at < bytes.len() {
            let v = bytes[at];
            assert(v.wire() =~= window(bytes@, at as int).subrange(0, 1));
            Decoded::Complete(v, 1)
        } else {
            assert(begins(window(bytes@, at as int), 0u8.wire()));
            Decoded::Incomplete
        }
    }
}

impl Wire for u64 {
    /// Eight bytes, the least significant first.
    open spec fn wire(&self) -> Seq<u8> {
        spec_u64_to_le_bytes(*self)
    }

    proof fn lemma_prefix_free(a: u64, b: u64) {
        lemma_auto_spec_u64_to_from_le_bytes();
        assert(a.wire() =~= b.wire());
    }

    fn encode(&self, out: &mut Vec<u8>) {
        let mut word = u64_to_le_bytes(*self);
        out.append(&mut word);
    }

    fn decode(bytes: &[u8], at: usize) -> (r: Decoded<u64>) {
        proof {
            lemma_auto_spec_u64_to_from_le_bytes();
        }
        if at > bytes.len() || bytes.len() - at < 8 {
            proof {
                let v = lemma_word_begun(window(bytes@, at as int));
                assert(begins(window(bytes@, at as int), v.wire()));
            }
            return Decoded::Incomplete;
        }
        let v = u64_from_le_bytes(slice_subrange(bytes, at, at + 8));
        assert(bytes@.subrange(at as int, at + 8) =~= window(bytes@, at as int).subrange(0, 8));
        Decoded::Complete(v, 8)
    }
}

impl Wire for i64 {
    /// Eight bytes, the least significant first, in two's complement.
    open spec fn wire(&self) -> Seq<u8> {
        spec_u64_to_le_bytes(*self as u64)
    }

    proof fn lemma_prefix_free(a: i64, b: i64) {
        lemma_auto_spec_u64_to_from_le_bytes();
        assert(a.wire() =~= b.wire());
        assert(a as u64 == b as u64 ==> a == b) by (bit_vector);
    }

    fn encode(&self, out: &mut Vec<u8>) {
        let mut word = u64_to_le_bytes(*self as u64);
        out.append(&mut word);
    }

    fn decode(bytes: &[u8], at: usize) -> (r: Decoded<i64>) {
        proof {
            lemma_auto_spec_u64_to_from_le_bytes();
        }
        if at > bytes.len() || bytes.len() - at < 8 {
            proof {
                let word = lemma_word_begun(window(bytes@, at as int));
                let v = word as i64;
                assert(v as u64 == word) by (bit_vector)
                    requires
                        v == word as i64,
                ;
                assert(begins(window(bytes@, at as int), v.wire()));
            }
            return Decoded::Incomplete;
        }
        let word = u64_from_le_bytes(slice_subrange(bytes, at, at + 8));
        let v = word as i64;
        assert(bytes@.subrange(at as int, at + 8) =~= window(bytes@, at as int).subrange(0, 8));
        assert(v as u64 == word) by (bit_vector)
            requires
                v == word as i64,
        ;
        Decoded::Complete(v, 8)
    }
}

impl<A: Wire, B: Wire> Wire for (A, B) {
    /// The code of the first part, then the code of the second.
    open spec fn wire(&self) -> Seq<u8> {
        self.0.wire() + self.1.wire()
    }

    proof fn lemma_prefix_free(a: (A, B), b: (A, B)) {
        lemma_prefix_trans(a.0.wire(), a.wire(), b.wire());
        lemma_unique_code(a.0, b.0, b.wire());
        lemma_prefix_cancel(a.0.wire(), a.1.wire(), b.1.wire());
        B::lemma_prefix_free(a.1, b.1);
    }

    fn encode(&self, out: &mut Vec<u8>) {
        self.0.encode(out);
        self.1.encode(out);
        assert(out@ =~= old(out)@ + self.wire());
    }

    fn decode(bytes: &[u8], at: usize) -> (r: Decoded<(A, B)>) {
        let ghost w = window(bytes@, at as int);
        let total = bytes.len();
        match A::decode(bytes, at) {
            Decoded::Complete(first, n) => {
                assert(n <= w.len() && w.len() <= total);
                let ghost rest = window(bytes@, at + n);
                proof {
                    lemma_window_skip(bytes@, at as int, n as int);
                    lemma_prefix_split(first.wire(), w);
                }
                match B::decode(bytes, at + n) {
                    Decoded::Complete(second, m) => {
                        proof {
                            lemma_prefix_cancel(first.wire(), second.wire(), rest);
                        }
                        Decoded::Complete((first, second), n + m)
                    },
                    Decoded::Incomplete => {
                        proof {
                            let second = choose|v: B| #[trigger] begins(rest, v.wire());
                            lemma_prefix_cancel(first.wire(), rest, second.wire());
                            assert(begins(w, (first, second).wire()));
                        }
                        Decoded::Incomplete
                    },
                    Decoded::Malformed => {
                        proof {
                            assert forall|v: (A, B), more: Seq<u8>|
                                !(#[trigger] v.wire().is_prefix_of(w + more)) by {
                                if v.wire().is_prefix_of(w + more) {
                                    lemma_prefix_trans(v.0.wire(), v.wire(), w + more);
                                    lemma_prefix_extend(first.wire(), w, more);
                                    lemma_unique_code(v.0, first, w + more);
                                    assert(w + more =~= first.wire() + (rest + more));
                                    lemma_prefix_cancel(first.wire(), v.1.wire(), rest + more);
                                    assert(v.1.wire().is_prefix_of(rest + more));
                                }
                            }
                        }
                        Decoded::Malformed
                    },
                }
            },
            Decoded::Incomplete => {
                proof {
                    let first = choose|v: A| #[trigger] begins(w, v.wire());
                    let second: B = arbitrary();
                    lemma_prefix_extend(w, first.wire(), second.wire());
                    assert(begins(w, (first, second).wire()));
                }
                Decoded::Incomplete
            },
            Decoded::Malformed => {
                proof {
                    assert forall|v: (A, B), more: Seq<u8>|
                        !(#[trigger] v.wire().is_prefix_of(w + more)) by {
                        if v.wire().is_prefix_of(w + more) {
                            lemma_prefix_trans(v.0.wire(), v.wire(), w + more);
                            assert(v.0.wire().is_prefix_of(w + more));
                        }
                    }
                }
                Decoded::Malformed
            },
        }
    }
}

} // verus!
