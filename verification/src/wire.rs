//! The byte encoding of stored values, piece by piece.
//!
//! Every stored type says what bytes stand for a value (`image`), how a value
//! is read back from a position in a byte string (`parse`), and proves that
//! reading an image gives the value back.

use vstd::prelude::*;
use vstd::bytes::{
    lemma_auto_spec_u64_to_from_le_bytes, spec_u64_from_le_bytes, spec_u64_to_le_bytes,
    u64_from_le_bytes, u64_to_le_bytes,
};
use vstd::slice::{slice_subrange, slice_to_vec};
use vstd::utf8::{decode_utf8, encode_utf8, valid_utf8};
use crate::text::{text_of, utf8_of};

verus! {

/// `piece` occupies `s` from position `at` on.
pub open spec fn lies_at(s: Seq<u8>, at: int, piece: Seq<u8>) -> bool {
    &&& 0 <= at
    &&& at + piece.len() <= s.len()
    &&& s.subrange(at, at + piece.len()) =~= piece
}

/// Where two pieces lie one after the other, each lies at its own place.
pub proof fn lemma_lies_at_split(s: Seq<u8>, at: int, a: Seq<u8>, b: Seq<u8>)
    requires
        lies_at(s, at, a + b),
    ensures
        lies_at(s, at, a),
        lies_at(s, at + a.len(), b),
{
    let whole = s.subrange(at, at + (a + b).len());
    assert(whole =~= a + b);
    assert(s.subrange(at, at + a.len()) =~= whole.subrange(0, a.len() as int));
    assert(whole.subrange(0, a.len() as int) =~= a);
    assert(s.subrange(at + a.len(), at + a.len() + b.len()) =~= whole.subrange(
        a.len() as int,
        (a + b).len() as int,
    ));
    assert(whole.subrange(a.len() as int, (a + b).len() as int) =~= b);
}

/// Where two pieces lie one after the other, their whole lies there.
pub proof fn lemma_lies_at_join(s: Seq<u8>, at: int, a: Seq<u8>, b: Seq<u8>)
    requires
        lies_at(s, at, a),
        lies_at(s, at + a.len(), b),
    ensures
        lies_at(s, at, a + b),
{
    assert(s.subrange(at, at + (a + b).len()) =~= s.subrange(at, at + a.len()) + s.subrange(
        at + a.len(),
        at + a.len() + b.len(),
    ));
}

/// A type whose values are stored as bytes.
pub trait Wire: Sized {
    /// What a value is, mathematically.
    type Model;

    /// The model of this value.
    spec fn model(&self) -> Self::Model;

    /// The models that can be stored: every value of the type has one.
    spec fn valid(m: Self::Model) -> bool;

    /// The bytes that stand for a value.
    spec fn image(m: Self::Model) -> Seq<u8>;

    /// The value that starts at `at` in `s`, and where it ends.
    spec fn parse(s: Seq<u8>, at: int) -> Option<(Self::Model, int)>;

    /// Reading an image gives back what was written, wherever it lies.
    proof fn lemma_parse_image(m: Self::Model, s: Seq<u8>, at: int)
        requires
            Self::valid(m),
            lies_at(s, at, Self::image(m)),
        ensures
            Self::parse(s, at) == Some((m, at + Self::image(m).len())),
    ;

    /// What is read was written: a value is read only where its image
    /// lies, and reading ends where the image ends.
    proof fn lemma_image_parse(s: Seq<u8>, at: int)
        requires
            Self::parse(s, at) is Some,
        ensures
            ({
                let (m, end) = Self::parse(s, at)->0;
                &&& Self::valid(m)
                &&& lies_at(s, at, Self::image(m))
                &&& end == at + Self::image(m).len()
            }),
    ;

    /// Appends the image of `self` to `out`.
    fn write(&self, out: &mut Vec<u8>)
        requires
            Self::valid(self.model()),
        ensures
            final(out)@ == old(out)@ + Self::image(self.model()),
    ;

    /// Reads the value that starts at `at`.
    fn read(bytes: &[u8], at: usize) -> (r: Option<(Self, usize)>)
        ensures
            match r {
                Some((x, end)) => {
                    &&& Self::parse(bytes@, at as int) == Some((x.model(), end as int))
                    &&& at <= end <= bytes@.len()
                    &&& Self::valid(x.model())
                },
                None => Self::parse(bytes@, at as int) is None,
            },
    ;
}

impl Wire for usize {
    type Model = usize;

    open spec fn model(&self) -> usize {
        *self
    }

    open spec fn valid(m: usize) -> bool {
        true
    }

    /// Eight bytes, least significant first.
    open spec fn image(m: usize) -> Seq<u8> {
        spec_u64_to_le_bytes(m as u64)
    }

    open spec fn parse(s: Seq<u8>, at: int) -> Option<(usize, int)> {
        if 0 <= at && at + 8 <= s.len() {
            let x = spec_u64_from_le_bytes(s.subrange(at, at + 8));
            if x <= usize::MAX {
                Some((x as usize, at + 8))
            } else {
                None
            }
        } else {
            None
        }
    }

    proof fn lemma_parse_image(m: usize, s: Seq<u8>, at: int) {
        lemma_auto_spec_u64_to_from_le_bytes();
    }

    proof fn lemma_image_parse(s: Seq<u8>, at: int) {
        lemma_auto_spec_u64_to_from_le_bytes();
        let piece = s.subrange(at, at + 8);
        assert(spec_u64_to_le_bytes(spec_u64_from_le_bytes(piece)) == piece);
    }

    fn write(&self, out: &mut Vec<u8>) {
        let mut b = u64_to_le_bytes(*self as u64);
        out.append(&mut b);
    }

    fn read(bytes: &[u8], at: usize) -> (r: Option<(Self, usize)>) {
        if at > bytes.len() || bytes.len() - at < 8 {
            return None;
        }
        let x = u64_from_le_bytes(slice_subrange(bytes, at, at + 8));
        if x > usize::MAX as u64 {
            return None;
        }
        Some((x as usize, at + 8))
    }
}

impl Wire for String {
    type Model = Seq<char>;

    open spec fn model(&self) -> Seq<char> {
        self@
    }

    open spec fn valid(m: Seq<char>) -> bool {
        encode_utf8(m).len() <= usize::MAX
    }

    /// The length of the UTF-8 encoding, then the encoding.
    open spec fn image(m: Seq<char>) -> Seq<u8> {
        usize::image(encode_utf8(m).len() as usize) + encode_utf8(m)
    }

    open spec fn parse(s: Seq<u8>, at: int) -> Option<(Seq<char>, int)> {
        match usize::parse(s, at) {
            Some((n, mid)) => {
                if mid + n <= s.len() && valid_utf8(s.subrange(mid, mid + n)) {
                    Some((decode_utf8(s.subrange(mid, mid + n)), mid + n))
                } else {
                    None
                }
            },
            None => None,
        }
    }

    proof fn lemma_parse_image(m: Seq<char>, s: Seq<u8>, at: int) {
        let body = encode_utf8(m);
        let head = usize::image(body.len() as usize);
        lemma_lies_at_split(s, at, head, body);
        usize::lemma_parse_image(body.len() as usize, s, at);
        vstd::utf8::encode_utf8_valid_utf8(m);
        vstd::utf8::encode_utf8_decode_utf8(m);
    }

    proof fn lemma_image_parse(s: Seq<u8>, at: int) {
        usize::lemma_image_parse(s, at);
        let (n, mid) = usize::parse(s, at)->0;
        let body = s.subrange(mid, mid + n);
        vstd::utf8::decode_utf8_encode_utf8(body);
        lemma_lies_at_join(s, at, usize::image(n), body);
    }

    fn write(&self, out: &mut Vec<u8>) {
        let mut b = utf8_of(self);
        b.len().write(out);
        out.append(&mut b);
    }

    fn read(bytes: &[u8], at: usize) -> (r: Option<(Self, usize)>) {
        match usize::read(bytes, at) {
            Some((n, mid)) => {
                if bytes.len() - mid < n {
                    return None;
                }
                let body = slice_to_vec(slice_subrange(bytes, mid, mid + n));
                match text_of(body) {
                    Some(t) => {
                        proof {
                            vstd::utf8::decode_utf8_encode_utf8(bytes@.subrange(mid as int, mid + n));
                        }
                        Some((t, mid + n))
                    },
                    None => None,
                }
            },
            None => None,
        }
    }
}

/// The mark that a key is present, for a map that is used as a set.
#[derive(Clone, Copy, Debug)]
pub struct Present;

impl Wire for Present {
    type Model = ();

    open spec fn model(&self) -> () {
        ()
    }

    open spec fn valid(m: ()) -> bool {
        true
    }

    /// No bytes at all.
    open spec fn image(m: ()) -> Seq<u8> {
        Seq::empty()
    }

    open spec fn parse(s: Seq<u8>, at: int) -> Option<((), int)> {
        if 0 <= at <= s.len() {
            Some(((), at))
        } else {
            None
        }
    }

    proof fn lemma_parse_image(m: (), s: Seq<u8>, at: int) {
    }

    proof fn lemma_image_parse(s: Seq<u8>, at: int) {
    }

    fn write(&self, out: &mut Vec<u8>) {
        assert(out@ + Seq::<u8>::empty() =~= out@);
    }

    fn read(bytes: &[u8], at: usize) -> (r: Option<(Self, usize)>) {
        if at <= bytes.len() {
            Some((Present, at))
        } else {
            None
        }
    }
}

impl<A: Wire, B: Wire> Wire for (A, B) {
    type Model = (A::Model, B::Model);

    open spec fn model(&self) -> (A::Model, B::Model) {
        (self.0.model(), self.1.model())
    }

    open spec fn valid(m: (A::Model, B::Model)) -> bool {
        A::valid(m.0) && B::valid(m.1)
    }

    /// The first, then the second.
    open spec fn image(m: (A::Model, B::Model)) -> Seq<u8> {
        A::image(m.0) + B::image(m.1)
    }

    open spec fn parse(s: Seq<u8>, at: int) -> Option<((A::Model, B::Model), int)> {
        match A::parse(s, at) {
            Some((a, mid)) => match B::parse(s, mid) {
                Some((b, end)) => Some(((a, b), end)),
                None => None,
            },
            None => None,
        }
    }

    proof fn lemma_parse_image(m: (A::Model, B::Model), s: Seq<u8>, at: int) {
        lemma_lies_at_split(s, at, A::image(m.0), B::image(m.1));
        A::lemma_parse_image(m.0, s, at);
        B::lemma_parse_image(m.1, s, at + A::image(m.0).len());
    }

    proof fn lemma_image_parse(s: Seq<u8>, at: int) {
        A::lemma_image_parse(s, at);
        let (a, mid) = A::parse(s, at)->0;
        B::lemma_image_parse(s, mid);
        let (b, end) = B::parse(s, mid)->0;
        lemma_lies_at_join(s, at, A::image(a), B::image(b));
    }

    fn write(&self, out: &mut Vec<u8>) {
        self.0.write(out);
        self.1.write(out);
        assert(old(out)@ + A::image(self.0.model()) + B::image(self.1.model()) =~= old(out)@ + (
        A::image(self.0.model()) + B::image(self.1.model())));
    }

    fn read(bytes: &[u8], at: usize) -> (r: Option<(Self, usize)>) {
        match A::read(bytes, at) {
            Some((a, mid)) => match B::read(bytes, mid) {
                Some((b, end)) => Some(((a, b), end)),
                None => None,
            },
            None => None,
        }
    }
}

/// The models of a row of values, in order.
pub open spec fn models<T: Wire>(items: Seq<T>) -> Seq<T::Model> {
    Seq::new(items.len(), |i: int| items[i].model())
}

/// The images of a row of models, one after the other.
pub open spec fn image_all<T: Wire>(ms: Seq<T::Model>) -> Seq<u8>
    decreases ms.len(),
{
    if ms.len() == 0 {
        Seq::empty()
    } else {
        image_all::<T>(ms.drop_last()) + T::image(ms.last())
    }
}

/// The `n` values that start at `at` in `s`, and where the last one ends.
pub open spec fn parse_all<T: Wire>(s: Seq<u8>, at: int, n: nat) -> Option<(Seq<T::Model>, int)>
    decreases n,
{
    if n == 0 {
        Some((Seq::empty(), at))
    } else {
        match parse_all::<T>(s, at, (n - 1) as nat) {
            Some((ms, mid)) => match T::parse(s, mid) {
                Some((m, end)) => Some((ms.push(m), end)),
                None => None,
            },
            None => None,
        }
    }
}

/// Reading a row of images gives the row back.
pub proof fn lemma_parse_all_image<T: Wire>(ms: Seq<T::Model>, s: Seq<u8>, at: int)
    requires
        forall|i: int| 0 <= i < ms.len() ==> T::valid(#[trigger] ms[i]),
        lies_at(s, at, image_all::<T>(ms)),
    ensures
        parse_all::<T>(s, at, ms.len()) == Some((ms, at + image_all::<T>(ms).len())),
    decreases ms.len(),
{
    if ms.len() > 0 {
        let init = ms.drop_last();
        lemma_lies_at_split(s, at, image_all::<T>(init), T::image(ms.last()));
        lemma_parse_all_image::<T>(init, s, at);
        T::lemma_parse_image(ms.last(), s, at + image_all::<T>(init).len());
        assert(init.push(ms.last()) =~= ms);
    } else {
        assert(ms =~= Seq::empty());
    }
}

/// A row that is read was written: its images lie where it was read.
pub proof fn lemma_image_parse_all<T: Wire>(s: Seq<u8>, at: int, n: nat)
    requires
        0 <= at <= s.len(),
        parse_all::<T>(s, at, n) is Some,
    ensures
        ({
            let (ms, end) = parse_all::<T>(s, at, n)->0;
            &&& ms.len() == n
            &&& forall|i: int| 0 <= i < ms.len() ==> T::valid(#[trigger] ms[i])
            &&& lies_at(s, at, image_all::<T>(ms))
            &&& end == at + image_all::<T>(ms).len()
        }),
    decreases n,
{
    if n > 0 {
        lemma_image_parse_all::<T>(s, at, (n - 1) as nat);
        let (init, mid) = parse_all::<T>(s, at, (n - 1) as nat)->0;
        T::lemma_image_parse(s, mid);
        let (m, end) = T::parse(s, mid)->0;
        let ms = init.push(m);
        assert(ms.drop_last() =~= init);
        lemma_lies_at_join(s, at, image_all::<T>(init), T::image(m));
    } else {
        assert(s.subrange(at, at) =~= Seq::<u8>::empty());
    }
}

/// Once a value cannot be read, no longer row can.
pub proof fn lemma_parse_all_stops<T: Wire>(s: Seq<u8>, at: int, k: nat, n: nat)
    requires
        k <= n,
        parse_all::<T>(s, at, k) is None,
    ensures
        parse_all::<T>(s, at, n) is None,
    decreases n,
{
    if k < n {
        lemma_parse_all_stops::<T>(s, at, k, (n - 1) as nat);
    }
}

impl<T: Wire> Wire for Vec<T> {
    type Model = Seq<T::Model>;

    open spec fn model(&self) -> Seq<T::Model> {
        models(self@)
    }

    open spec fn valid(ms: Seq<T::Model>) -> bool {
        &&& ms.len() <= usize::MAX
        &&& forall|i: int| 0 <= i < ms.len() ==> T::valid(#[trigger] ms[i])
    }

    /// How many there are, then each in turn.
    open spec fn image(ms: Seq<T::Model>) -> Seq<u8> {
        usize::image(ms.len() as usize) + image_all::<T>(ms)
    }

    open spec fn parse(s: Seq<u8>, at: int) -> Option<(Seq<T::Model>, int)> {
        match usize::parse(s, at) {
            Some((n, mid)) => parse_all::<T>(s, mid, n as nat),
            None => None,
        }
    }

    proof fn lemma_parse_image(ms: Seq<T::Model>, s: Seq<u8>, at: int) {
        let head = usize::image(ms.len() as usize);
        lemma_lies_at_split(s, at, head, image_all::<T>(ms));
        usize::lemma_parse_image(ms.len() as usize, s, at);
        lemma_parse_all_image::<T>(ms, s, at + head.len());
    }

    proof fn lemma_image_parse(s: Seq<u8>, at: int) {
        usize::lemma_image_parse(s, at);
        let (n, mid) = usize::parse(s, at)->0;
        lemma_image_parse_all::<T>(s, mid, n as nat);
        let (ms, end) = parse_all::<T>(s, mid, n as nat)->0;
        lemma_lies_at_join(s, at, usize::image(n), image_all::<T>(ms));
    }

    fn write(&self, out: &mut Vec<u8>) {
        let ghost start = out@;
        let ghost ms = models(self@);
        self.len().write(out);
        let mut i: usize = 0;
        assert(ms.subrange(0, 0) =~= Seq::empty());
        while i < self.len()
            invariant
                i <= self.len(),
                ms == models(self@),
                Self::valid(ms),
                out@ == start + usize::image(ms.len() as usize) + image_all::<T>(
                    ms.subrange(0, i as int),
                ),
            decreases self.len() - i,
        {
            assert(ms[i as int] == self@[i as int].model());
            self[i].write(out);
            proof {
                let next = ms.subrange(0, i + 1);
                assert(next.drop_last() =~= ms.subrange(0, i as int));
                assert(next.last() == ms[i as int]);
            }
            i += 1;
        }
        assert(ms.subrange(0, i as int) =~= ms);
        assert(start + usize::image(ms.len() as usize) + image_all::<T>(ms) =~= start + (
        usize::image(ms.len() as usize) + image_all::<T>(ms)));
    }

    fn read(bytes: &[u8], at: usize) -> (r: Option<(Self, usize)>) {
        match usize::read(bytes, at) {
            Some((n, mid)) => {
                let mut items: Vec<T> = Vec::new();
                let mut pos: usize = mid;
                let mut i: usize = 0;
                assert(models(items@) =~= Seq::empty());
                while i < n
                    invariant
                        i <= n,
                        items@.len() == i,
                        mid <= pos <= bytes@.len(),
                        usize::parse(bytes@, at as int) == Some((n, mid as int)),
                        parse_all::<T>(bytes@, mid as int, i as nat) == Some(
                            (models(items@), pos as int),
                        ),
                        forall|j: int| 0 <= j < i ==> T::valid(#[trigger] items@[j].model()),
                    decreases n - i,
                {
                    match T::read(bytes, pos) {
                        Some((x, end)) => {
                            let ghost before = models(items@);
                            items.push(x);
                            assert(models(items@) =~= before.push(x.model()));
                            pos = end;
                        },
                        None => {
                            proof {
                                assert(((i + 1) as nat - 1) as nat == i as nat);
                                assert(parse_all::<T>(bytes@, mid as int, (i + 1) as nat) is None);
                                lemma_parse_all_stops::<T>(
                                    bytes@,
                                    mid as int,
                                    (i + 1) as nat,
                                    n as nat,
                                );
                            }
                            return None;
                        },
                    }
                    i += 1;
                }
                Some((items, pos))
            },
            None => None,
        }
    }
}

} // verus!
