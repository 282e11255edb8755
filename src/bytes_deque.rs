use crate::buf_vec_deque::BufVecDeque;
use crate::runs::{flatten, lemma_flatten_nonempty, lemma_flatten_push};
use crate::chunk::{Chunk, GetBytes};
use crate::shared::{
    bytes_advance, bytes_as_slice, bytes_content, bytes_copy_from_slice, bytes_eq, bytes_eq_slice,
    bytes_from_vec, bytes_len, bytes_new, bytes_split_to,
};
use bytes::Bytes;
use vstd::prelude::*;
use vstd::string::StringSliceAdditionalSpecFns;

verus! {

#[derive(Debug)]
enum Inner {
    One(Bytes),
    Deque(BufVecDeque<Bytes>),
}

/// A run of `Bytes` views read as one stream: a single view is held as it
/// is, several go into a `BufVecDeque`.
#[derive(Debug)]
pub struct BytesDeque(Inner);

impl View for BytesDeque {
    type V = Seq<u8>;

    closed spec fn view(&self) -> Seq<u8> {
        match self.0 {
            Inner::One(b) => bytes_content(b),
            Inner::Deque(d) => flatten(d.chunks()),
        }
    }
}

impl BytesDeque {
    /// Whether the bytes are held as one view rather than a run of them.
    pub closed spec fn is_single(&self) -> bool {
        self.0 is One
    }

    /// The view held, where the bytes are held as one view.
    pub closed spec fn single(&self) -> Option<Bytes> {
        match self.0 {
            Inner::One(b) => Some(b),
            Inner::Deque(_) => None,
        }
    }

    /// The bytes of each chunk held, front first: one chunk for a single view.
    pub closed spec fn chunks(&self) -> Seq<Seq<u8>> {
        match self.0 {
            Inner::One(b) => seq![bytes_content(b)],
            Inner::Deque(d) => d.chunks(),
        }
    }

    /// The chunks, one after another, are the bytes held; a single view is
    /// exactly what is held.
    pub proof fn lemma_chunks(&self)
        ensures
            flatten(self.chunks()) == self@,
            self.is_single() <==> self.single() is Some,
            self.single() is Some ==> bytes_content(self.single()->0) == self@,
    {
        if let Inner::One(b) = self.0 {
            lemma_flatten_push(Seq::<Seq<u8>>::empty(), bytes_content(b));
            assert(seq![bytes_content(b)] =~= Seq::<Seq<u8>>::empty().push(bytes_content(b)));
            assert(flatten(Seq::<Seq<u8>>::empty()) + bytes_content(b) =~= bytes_content(b));
        }
    }

    /// The run, where there is one, is consistent.
    pub closed spec fn inv(&self) -> bool {
        match self.0 {
            Inner::One(_) => true,
            Inner::Deque(d) => d.inv(),
        }
    }

    /// An empty buffer, held as one empty view.
    pub fn new() -> (r: BytesDeque)
        ensures
            r.inv(),
            r@ == Seq::<u8>::empty(),
            r.is_single(),
    {
        BytesDeque(Inner::One(bytes_new()))
    }

    /// A buffer holding a copy of `bytes`.
    pub fn copy_from_slice(bytes: &[u8]) -> (r: BytesDeque)
        ensures
            r.inv(),
            r@ == bytes@,
            r.is_single(),
    {
        BytesDeque(Inner::One(bytes_copy_from_slice(bytes)))
    }

    /// The number of bytes held.
    pub fn len(&self) -> (r: usize)
        requires
            self.inv(),
        ensures
            r as int == self@.len(),
    {
        match &self.0 {
            Inner::One(b) => bytes_len(b),
            Inner::Deque(d) => d.len(),
        }
    }

    /// Appends a view. An empty view changes nothing; otherwise the buffer is
    /// held as one view exactly when it was empty before.
    pub fn extend(&mut self, bytes: Bytes)
        requires
            old(self).inv(),
            old(self)@.len() + bytes_content(bytes).len() <= usize::MAX,
        ensures
            final(self).inv(),
            final(self)@ == old(self)@ + bytes_content(bytes),
            bytes_content(bytes).len() == 0 ==> *final(self) == *old(self),
            bytes_content(bytes).len() > 0 ==> (final(self).is_single() <==> old(self)@.len()
                == 0),
            bytes_content(bytes).len() > 0 && old(self)@.len() == 0 ==> final(self).single()
                == Some(bytes),
            bytes_content(bytes).len() > 0 && old(self)@.len() > 0 && old(self).is_single()
                ==> final(self).chunks() == seq![old(self)@, bytes_content(bytes)],
            bytes_content(bytes).len() > 0 && old(self)@.len() > 0 && !old(self).is_single()
                ==> final(self).chunks() == old(self).chunks().push(bytes_content(bytes)),
            bytes_content(bytes).len() > 0 && !final(self).is_single() ==> exists|i: int, j: int|
                0 <= i < j < final(self).chunks().len() && (#[trigger] final(self).chunks()[i]).len()
                    > 0 && (#[trigger] final(self).chunks()[j]).len() > 0,
    {
        if bytes_len(&bytes) == 0 {
            assert(old(self)@ + bytes_content(bytes) =~= old(self)@);
            return ;
        }
        match &mut self.0 {
            Inner::One(one) => {
                if bytes_len(one) == 0 {
                    assert(bytes_content(bytes) =~= bytes_content(*one) + bytes_content(bytes));
                    self.0 = Inner::One(bytes);
                } else {
                    let mut first = bytes_new();
                    std::mem::swap(one, &mut first);
                    let mut d = BufVecDeque::new();
                    proof {
                        lemma_flatten_push(d.chunks(), bytes_content(first));
                    }
                    d.push_back(first);
                    proof {
                        lemma_flatten_push(d.chunks(), bytes_content(bytes));
                        assert(flatten(Seq::<Seq<u8>>::empty()) =~= Seq::<u8>::empty());
                        assert(Seq::<u8>::empty() + bytes_content(first) =~= bytes_content(first));
                    }
                    d.push_back(bytes);
                    assert(d.chunks() =~= seq![bytes_content(first), bytes_content(bytes)]);
                    self.0 = Inner::Deque(d);
                    assert(self.chunks()[0].len() > 0 && self.chunks()[1].len() > 0);
                }
            },
            Inner::Deque(d) => {
                if d.len() == 0 {
                    assert(bytes_content(bytes) =~= flatten(d.chunks()) + bytes_content(bytes));
                    self.0 = Inner::One(bytes);
                } else {
                    let ghost before = d.chunks();
                    proof {
                        lemma_flatten_push(d.chunks(), bytes_content(bytes));
                        lemma_flatten_nonempty(before);
                    }
                    d.push_back(bytes);
                    proof {
                        let i = choose|i: int| 0 <= i < before.len() && (#[trigger] before[i]).len()
                            > 0;
                        assert(d.chunks()[i] == before[i]);
                        assert(d.chunks()[before.len() as int] == bytes_content(bytes));
                    }
                }
            },
        }
    }

    /// A view of every byte held, without consuming any: the view itself when
    /// there is one, else a copy.
    pub fn get_bytes(&self) -> (r: Bytes)
        ensures
            bytes_content(r) == self@,
    {
        match &self.0 {
            Inner::One(b) => crate::shared::bytes_clone(b),
            Inner::Deque(d) => bytes_from_vec(d.copy_to_vec()),
        }
    }

    /// Every byte held, as one view: the view itself when there is one, else
    /// a copy.
    pub fn into_bytes(self) -> (r: Bytes)
        requires
            self.inv(),
        ensures
            bytes_content(r) == self@,
            self.single() is Some ==> r == self.single()->0,
    {
        match self.0 {
            Inner::One(b) => b,
            Inner::Deque(d) => {
                let mut d = d;
                d.to_bytes()
            },
        }
    }

    /// Every byte held, copied into a vector.
    pub fn into_vec(self) -> (r: Vec<u8>)
        requires
            self.inv(),
        ensures
            r@ == self@,
    {
        match self.0 {
            Inner::One(b) => vstd::slice::slice_to_vec(bytes_as_slice(&b)),
            Inner::Deque(d) => d.copy_to_vec(),
        }
    }
}

impl Chunk for BytesDeque {
    open spec fn content(&self) -> Seq<u8> {
        self@
    }

    open spec fn wf(&self) -> bool {
        self.inv()
    }

    fn remaining(&self) -> (r: usize) {
        self.len()
    }

    fn bytes(&self) -> (r: &[u8]) {
        match &self.0 {
            Inner::One(b) => {
                let r = bytes_as_slice(b);
                assert(r@.subrange(0, r@.len() as int) =~= r@);
                r
            },
            Inner::Deque(d) => d.bytes(),
        }
    }

    fn bytes_vectored<'a>(&'a self, dst: &mut Vec<&'a [u8]>, max: usize) -> (r: usize) {
        match &self.0 {
            Inner::One(b) => b.bytes_vectored(dst, max),
            Inner::Deque(d) => d.bytes_vectored(dst, max),
        }
    }

    /// The bytes stay held in the same form, even once none are left.
    fn advance(&mut self, n: usize)
        ensures
            final(self).is_single() == old(self).is_single(),
    {
        match &mut self.0 {
            Inner::One(b) => bytes_advance(b, n),
            Inner::Deque(d) => d.advance(n),
        }
    }

    fn to_bytes(&mut self) -> (r: Bytes) {
        match &mut self.0 {
            Inner::One(b) => b.to_bytes(),
            Inner::Deque(d) => d.to_bytes(),
        }
    }
}

impl GetBytes for BytesDeque {
    /// The bytes stay held in the same form, even once none are left.
    fn get_bytes(&mut self, n: usize) -> (r: Bytes)
        ensures
            final(self).is_single() == old(self).is_single(),
    {
        match &mut self.0 {
            Inner::One(b) => bytes_split_to(b, n),
            Inner::Deque(d) => d.get_bytes(n),
        }
    }
}

impl PartialEq for BytesDeque {
    /// Compares the bytes held. Where either side holds a run, its bytes are
    /// copied first.
    fn eq(&self, other: &BytesDeque) -> (r: bool) {
        bytes_eq(&self.get_bytes(), &other.get_bytes())
    }
}

impl vstd::std_specs::cmp::PartialEqSpecImpl for BytesDeque {
    open spec fn obeys_eq_spec() -> bool {
        true
    }

    open spec fn eq_spec(&self, other: &BytesDeque) -> bool {
        self@ == other@
    }
}

impl PartialEq<[u8]> for BytesDeque {
    /// Compares the bytes held with a slice. Where a run is held, its bytes
    /// are copied first.
    fn eq(&self, other: &[u8]) -> (r: bool) {
        bytes_eq_slice(&self.get_bytes(), other)
    }
}

impl vstd::std_specs::cmp::PartialEqSpecImpl<[u8]> for BytesDeque {
    open spec fn obeys_eq_spec() -> bool {
        true
    }

    open spec fn eq_spec(&self, other: &[u8]) -> bool {
        self@ == other@
    }
}

impl Default for BytesDeque {
    /// An empty buffer.
    fn default() -> (r: BytesDeque)
        ensures
            r.inv(),
            r@ == Seq::<u8>::empty(),
            r.is_single(),
    {
        BytesDeque::new()
    }
}

impl From<Bytes> for BytesDeque {
    /// Holds the view as it is.
    fn from(b: Bytes) -> (r: BytesDeque)
        ensures
            r.inv(),
            r@ == bytes_content(b),
            r.single() == Some(b),
    {
        BytesDeque(Inner::One(b))
    }
}

impl From<Vec<u8>> for BytesDeque {
    /// Holds the vector's bytes as one view, without copying them.
    fn from(v: Vec<u8>) -> (r: BytesDeque)
        ensures
            r.inv(),
            r@ == v@,
            r.is_single(),
    {
        BytesDeque(Inner::One(bytes_from_vec(v)))
    }
}

impl vstd::std_specs::convert::FromSpecImpl<Vec<u8>> for BytesDeque {
    open spec fn obeys_from_spec() -> bool {
        false
    }

    closed spec fn from_spec(v: Vec<u8>) -> BytesDeque {
        vstd::pervasive::arbitrary()
    }
}

impl<'a> From<&'a str> for BytesDeque {
    /// Holds a copy of the text's bytes as one view.
    fn from(s: &'a str) -> (r: BytesDeque)
        ensures
            r.inv(),
            r@ == s.spec_bytes(),
            r.is_single(),
    {
        BytesDeque(Inner::One(bytes_copy_from_slice(s.as_bytes())))
    }
}

impl<'a> vstd::std_specs::convert::FromSpecImpl<&'a str> for BytesDeque {
    open spec fn obeys_from_spec() -> bool {
        false
    }

    closed spec fn from_spec(s: &'a str) -> BytesDeque {
        vstd::pervasive::arbitrary()
    }
}

impl vstd::std_specs::convert::FromSpecImpl<Bytes> for BytesDeque {
    open spec fn obeys_from_spec() -> bool {
        true
    }

    closed spec fn from_spec(b: Bytes) -> BytesDeque {
        BytesDeque(Inner::One(b))
    }
}

/// The number of bytes in a run of views, counted view by view.
pub open spec fn total_len(s: Seq<Seq<u8>>) -> int
    decreases s.len(),
{
    if s.len() == 0 {
        0
    } else {
        total_len(s.drop_last()) + s.last().len()
    }
}

/// Appending views one after another to an empty buffer, empty views among
/// them, leaves it holding their bytes in order, as many as the views have
/// together.
pub proof fn lemma_extends_concatenate(views: Seq<Bytes>, states: Seq<BytesDeque>)
    requires
        states.len() == views.len() + 1,
        states[0]@ == Seq::<u8>::empty(),
        forall|i: int|
            0 <= i < views.len() ==> #[trigger] states[i + 1]@ == states[i]@ + bytes_content(
                views[i],
            ),
    ensures
        states.last()@ == flatten(views.map_values(|b: Bytes| bytes_content(b))),
        states.last()@.len() == total_len(views.map_values(|b: Bytes| bytes_content(b))),
    decreases views.len(),
{
    let s = views.map_values(|b: Bytes| bytes_content(b));
    if views.len() == 0 {
        assert(states.last()@ =~= flatten(s));
    } else {
        let k = views.len() - 1;
        assert forall|i: int| 0 <= i < views.drop_last().len() implies #[trigger] states.drop_last()[
            i + 1]@ == states.drop_last()[i]@ + bytes_content(views.drop_last()[i]) by {
            assert(states[i + 1]@ == states[i]@ + bytes_content(views[i]));
        }
        lemma_extends_concatenate(views.drop_last(), states.drop_last());
        assert(views.drop_last().map_values(|b: Bytes| bytes_content(b)) =~= s.drop_last());
        assert(states[k + 1]@ == states[k]@ + bytes_content(views[k]));
    }
}

/// Advancing by `n` bytes, where at least `n` are held, leaves `n` fewer,
/// the ones that followed the first `n`.
pub proof fn lemma_advance_drops_prefix(before: BytesDeque, after: BytesDeque, n: usize)
    requires
        before.inv(),
        n <= before@.len(),
        after@ == before@.skip(n as int),
    ensures
        after@.len() == before@.len() - n,
        forall|i: int| 0 <= i < after@.len() ==> after@[i] == before@[i + n],
{
}

/// Taking `n` bytes out as a view, where at least `n` are held, gives the
/// first `n` and leaves `n` fewer.
pub proof fn lemma_get_bytes_takes_prefix(
    before: BytesDeque,
    after: BytesDeque,
    n: usize,
    taken: Bytes,
)
    requires
        before.inv(),
        n <= before@.len(),
        bytes_content(taken) == before@.take(n as int),
        after@ == before@.skip(n as int),
    ensures
        bytes_content(taken).len() == n,
        bytes_content(taken) + after@ == before@,
        after@.len() == before@.len() - n,
{
    assert(bytes_content(taken) + after@ =~= before@);
}

/// From an empty buffer, one nonempty view is held as it is; a second
/// nonempty view turns the buffer into a run; once the run is drained to no
/// bytes, the next nonempty view is held as it is again.
pub proof fn lemma_single_multi_single(
    empty: BytesDeque,
    one: BytesDeque,
    two: BytesDeque,
    drained: BytesDeque,
    again: BytesDeque,
    v1: Bytes,
    v2: Bytes,
    v3: Bytes,
)
    requires
        empty@.len() == 0,
        bytes_content(v1).len() > 0,
        bytes_content(v2).len() > 0,
        bytes_content(v3).len() > 0,
        one@ == empty@ + bytes_content(v1),
        one.is_single() <==> empty@.len() == 0,
        two@ == one@ + bytes_content(v2),
        two.is_single() <==> one@.len() == 0,
        drained@.len() == 0,
        again.is_single() <==> drained@.len() == 0,
    ensures
        one.is_single(),
        !two.is_single(),
        again.is_single(),
{
}

} // verus!
