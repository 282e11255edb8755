use crate::runs::{flatten, joined, lemma_appended_split, lemma_flatten_push, lemma_prefix_after,
    lemma_prefix_trans};
use crate::shared::{bytes_advance, bytes_as_slice, bytes_content, bytes_len, bytes_new, bytes_split_to};
use bytes::Buf;
use bytes::Bytes;
use std::collections::VecDeque;
use vstd::prelude::*;

verus! {

/// What the buffers need of each of their chunks: a run of bytes that can be
/// looked at and consumed from the front.
pub trait Chunk: Sized {
    /// The bytes that the chunk has yet to hand out, in order.
    spec fn content(&self) -> Seq<u8>;

    /// The chunk's own consistency condition.
    spec fn wf(&self) -> bool;

    /// The number of bytes left.
    fn remaining(&self) -> (r: usize)
        requires
            self.wf(),
        ensures
            r as int == self.content().len(),
    ;

    /// Some contiguous prefix of what is left: never empty while bytes remain.
    fn bytes(&self) -> (r: &[u8])
        requires
            self.wf(),
        ensures
            r@.is_prefix_of(self.content()),
            self.content().len() > 0 ==> r@.len() > 0,
    ;

    /// Appends to `dst` at most `max` nonempty slices that, joined, are a
    /// prefix of what is left; fewer than `max` only where they cover all of
    /// it. Returns how many were appended.
    fn bytes_vectored<'a>(&'a self, dst: &mut Vec<&'a [u8]>, max: usize) -> (r: usize)
        requires
            self.wf(),
        ensures
            r <= max,
            final(dst)@.len() == old(dst)@.len() + r,
            final(dst)@.take(old(dst)@.len() as int) == old(dst)@,
            forall|i: int|
                old(dst)@.len() <= i < final(dst)@.len() ==> (#[trigger] final(dst)@[i])@.len() > 0,
            joined(final(dst)@.skip(old(dst)@.len() as int)).is_prefix_of(self.content()),
            r < max ==> joined(final(dst)@.skip(old(dst)@.len() as int)) == self.content(),
    ;

    /// Drops the first `n` bytes.
    fn advance(&mut self, n: usize)
        requires
            old(self).wf(),
            n <= old(self).content().len(),
        ensures
            final(self).wf(),
            final(self).content() == old(self).content().skip(n as int),
    ;

    /// Hands out everything left as one `Bytes` view, leaving the chunk empty.
    fn to_bytes(&mut self) -> (r: Bytes)
        requires
            old(self).wf(),
        ensures
            final(self).wf(),
            final(self).content() == Seq::<u8>::empty(),
            bytes_content(r) == old(self).content(),
    ;
}

/// A chunk that can hand out a prefix of itself as a `Bytes` view.
pub trait GetBytes: Chunk {
    /// Takes the first `n` bytes out as a view.
    fn get_bytes(&mut self, n: usize) -> (r: Bytes)
        requires
            old(self).wf(),
            n <= old(self).content().len(),
        ensures
            final(self).wf(),
            bytes_content(r) == old(self).content().take(n as int),
            final(self).content() == old(self).content().skip(n as int),
    ;
}

/// A chunk that is consistent whatever is done to it, so that it can be lent
/// out for arbitrary changes and taken back.
pub trait PlainChunk: Chunk {
    /// Every value of the type is consistent.
    proof fn lemma_wf(&self)
        ensures
            self.wf(),
    ;
}

impl PlainChunk for Bytes {
    proof fn lemma_wf(&self) {
    }
}

impl PlainChunk for VecDeque<u8> {
    proof fn lemma_wf(&self) {
    }
}

/// Appends `s` to `dst` where it is nonempty and `max` allows: the slices of a
/// chunk whose bytes all lie in `s`.
fn push_whole<'a>(s: &'a [u8], dst: &mut Vec<&'a [u8]>, max: usize) -> (r: usize)
    ensures
        r <= max,
        final(dst)@.len() == old(dst)@.len() + r,
        final(dst)@.take(old(dst)@.len() as int) == old(dst)@,
        forall|i: int|
            old(dst)@.len() <= i < final(dst)@.len() ==> (#[trigger] final(dst)@[i])@.len() > 0,
        joined(final(dst)@.skip(old(dst)@.len() as int)).is_prefix_of(s@),
        r < max ==> joined(final(dst)@.skip(old(dst)@.len() as int)) == s@,
{
    let ghost n0 = dst@.len() as int;
    if max == 0 || s.len() == 0 {
        proof {
            assert(dst@.skip(n0) =~= Seq::<&[u8]>::empty());
            assert(dst@.skip(n0).map_values(|p: &[u8]| p@) =~= Seq::<Seq<u8>>::empty());
            assert(dst@.take(n0) =~= dst@);
            assert(s@ =~= Seq::<u8>::empty() || max == 0);
        }
        return 0;
    }
    dst.push(s);
    proof {
        assert(dst@.take(n0) =~= old(dst)@);
        assert(dst@.skip(n0).map_values(|p: &[u8]| p@) =~= seq![s@]);
        lemma_flatten_push(Seq::<Seq<u8>>::empty(), s@);
        assert(seq![s@] =~= Seq::<Seq<u8>>::empty().push(s@));
        assert(flatten(Seq::<Seq<u8>>::empty()) + s@ =~= s@);
        assert(s@.subrange(0, s@.len() as int) =~= s@);
    }
    1
}

impl Chunk for Bytes {
    open spec fn content(&self) -> Seq<u8> {
        bytes_content(*self)
    }

    open spec fn wf(&self) -> bool {
        true
    }

    fn remaining(&self) -> (r: usize) {
        bytes_len(self)
    }

    fn bytes(&self) -> (r: &[u8]) {
        bytes_as_slice(self)
    }

    fn bytes_vectored<'a>(&'a self, dst: &mut Vec<&'a [u8]>, max: usize) -> (r: usize) {
        push_whole(bytes_as_slice(self), dst, max)
    }

    fn advance(&mut self, n: usize) {
        bytes_advance(self, n)
    }

    fn to_bytes(&mut self) -> (r: Bytes) {
        let mut r = bytes_new();
        std::mem::swap(self, &mut r);
        r
    }
}

impl GetBytes for Bytes {
    fn get_bytes(&mut self, n: usize) -> (r: Bytes) {
        bytes_split_to(self, n)
    }
}

/// Relies on `Buf::bytes for VecDeque<u8>`: the first of the deque's two
/// slices, or the second where the first is empty.
#[verifier::external_body]
fn deque_front_slice(d: &VecDeque<u8>) -> (r: &[u8])
    ensures
        r@.is_prefix_of(d@),
        d@.len() > 0 ==> r@.len() > 0,
{
    Buf::bytes(d)
}

/// Relies on `VecDeque::as_slices`: the deque's bytes as two slices, in order.
#[verifier::external_body]
fn deque_as_slices(d: &VecDeque<u8>) -> (r: (&[u8], &[u8]))
    ensures
        r.0@ + r.1@ == d@,
{
    d.as_slices()
}

/// Relies on `Buf::advance for VecDeque<u8>`: drains the first `n` bytes.
#[verifier::external_body]
fn deque_advance(d: &mut VecDeque<u8>, n: usize)
    requires
        n <= old(d)@.len(),
    ensures
        final(d)@ == old(d)@.skip(n as int),
{
    Buf::advance(d, n)
}

/// Relies on `Buf::to_bytes for VecDeque<u8>`: copies every byte into a new
/// view and consumes them.
#[verifier::external_body]
fn deque_to_bytes(d: &mut VecDeque<u8>) -> (r: Bytes)
    ensures
        bytes_content(r) == old(d)@,
        final(d)@ == Seq::<u8>::empty(),
{
    Buf::to_bytes(d)
}

impl Chunk for VecDeque<u8> {
    open spec fn content(&self) -> Seq<u8> {
        self@
    }

    open spec fn wf(&self) -> bool {
        true
    }

    fn remaining(&self) -> (r: usize) {
        self.len()
    }

    fn bytes(&self) -> (r: &[u8]) {
        deque_front_slice(self)
    }

    fn bytes_vectored<'a>(&'a self, dst: &mut Vec<&'a [u8]>, max: usize) -> (r: usize) {
        let (s1, s2) = deque_as_slices(self);
        let ghost n0 = dst@.len() as int;
        let r1 = push_whole(s1, dst, max);
        if r1 == max {
            proof {
                assert(self@.subrange(0, s1@.len() as int) =~= s1@);
                lemma_prefix_trans(joined(dst@.skip(n0)), s1@, self@);
            }
            return r1;
        }
        let ghost mid = dst@;
        let r2 = push_whole(s2, dst, max - r1);
        proof {
            lemma_appended_split(mid, dst@, n0, n0 + r1);
            lemma_prefix_after(s1@, joined(dst@.skip(n0 + r1)), s2@);
            assert(dst@.take(n0) =~= mid.take(n0));
            assert forall|i: int| n0 <= i < dst@.len() implies (#[trigger] dst@[i])@.len() > 0 by {
                if i < n0 + r1 {
                    assert(dst@[i] == mid[i]);
                }
            }
        }
        r1 + r2
    }

    fn advance(&mut self, n: usize) {
        deque_advance(self, n)
    }

    fn to_bytes(&mut self) -> (r: Bytes) {
        deque_to_bytes(self)
    }
}

} // verus!
