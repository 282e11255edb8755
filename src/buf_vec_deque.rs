use crate::chunk::{Chunk, GetBytes, PlainChunk};
use crate::runs::{
    advanced, flatten, joined, lemma_appended_split, lemma_flatten_cons, lemma_flatten_front,
    lemma_flatten_prefix_len, lemma_flatten_push, lemma_flatten_split, lemma_prefix_after,
    lemma_prefix_trans,
};
use crate::shared::{bytes_as_slice, bytes_content, bytes_from_vec, bytes_new};
use bytes::Bytes;
use std::collections::VecDeque;
use vstd::prelude::*;

verus! {

/// An ordered run of chunks read as one stream of bytes, with the number of
/// bytes left kept up to date as chunks come and go.
#[derive(Debug)]
pub struct BufVecDeque<B: Chunk> {
    deque: VecDeque<B>,
    len: usize,
}

impl<B: Chunk> BufVecDeque<B> {
    /// The bytes left in each chunk, front first.
    pub closed spec fn chunks(&self) -> Seq<Seq<u8>> {
        self.deque@.map_values(|c: B| c.content())
    }

    /// The cached length is the sum of the chunks' lengths, and each chunk is
    /// consistent.
    pub closed spec fn inv(&self) -> bool {
        &&& forall|i: int| 0 <= i < self.deque@.len() ==> (#[trigger] self.deque@[i]).wf()
        &&& self.len as int == flatten(self.chunks()).len()
    }

    /// An empty run.
    pub fn new() -> (r: Self)
        ensures
            r.inv(),
            r.chunks() == Seq::<Seq<u8>>::empty(),
            flatten(r.chunks()) == Seq::<u8>::empty(),
    {
        let r = BufVecDeque { deque: VecDeque::new(), len: 0 };
        assert(r.chunks() =~= Seq::<Seq<u8>>::empty());
        r
    }

    /// Takes the given chunks, in order, computing their total length once.
    pub fn from_chunks(chunks: Vec<B>) -> (r: Self)
        requires
            forall|i: int| 0 <= i < chunks@.len() ==> (#[trigger] chunks@[i]).wf(),
            flatten(chunks@.map_values(|c: B| c.content())).len() <= usize::MAX,
        ensures
            r.inv(),
            r.chunks() == chunks@.map_values(|c: B| c.content()),
    {
        let ghost all = chunks@.map_values(|c: B| c.content());
        let mut r = BufVecDeque::new();
        let mut chunks = chunks;
        let ghost given = chunks@;
        let mut rest: Vec<B> = Vec::new();
        // Reverse first so that chunks can be taken from the back in order.
        while chunks.len() > 0
            invariant
                given.len() == chunks@.len() + rest@.len(),
                forall|i: int| 0 <= i < chunks@.len() ==> chunks@[i] == given[i],
                forall|i: int|
                    0 <= i < rest@.len() ==> rest@[i] == given[given.len() - 1 - i],
            decreases chunks@.len(),
        {
            let c = chunks.pop().unwrap();
            rest.push(c);
        }
        while rest.len() > 0
            invariant
                r.inv(),
                given.len() == r.deque@.len() + rest@.len(),
                forall|i: int| 0 <= i < r.deque@.len() ==> r.deque@[i] == given[i],
                forall|i: int|
                    0 <= i < rest@.len() ==> rest@[i] == given[given.len() - 1 - i],
                forall|i: int| 0 <= i < given.len() ==> (#[trigger] given[i]).wf(),
                all == given.map_values(|c: B| c.content()),
                flatten(all).len() <= usize::MAX,
            decreases rest@.len(),
        {
            let c = rest.pop().unwrap();
            let ghost k = r.deque@.len();
            proof {
                assert(r.chunks() =~= all.take(k as int));
                assert(all.take(k as int + 1) =~= all.take(k as int).push(c.content()));
                lemma_flatten_push(all.take(k as int), c.content());
                lemma_flatten_prefix_len(all, k as int + 1);
            }
            let n = c.remaining();
            r.len = r.len + n;
            r.deque.push_back(c);
            assert(r.chunks() =~= all.take(k as int + 1));
        }
        assert(r.chunks() =~= all);
        r
    }

    /// The number of bytes left.
    pub fn len(&self) -> (r: usize)
        requires
            self.inv(),
        ensures
            r as int == flatten(self.chunks()).len(),
    {
        self.len
    }

    /// Appends a chunk at the back.
    pub fn push_back(&mut self, bytes: B)
        requires
            old(self).inv(),
            bytes.wf(),
            flatten(old(self).chunks()).len() + bytes.content().len() <= usize::MAX,
        ensures
            final(self).inv(),
            final(self).chunks() == old(self).chunks().push(bytes.content()),
            flatten(final(self).chunks()) == flatten(old(self).chunks()) + bytes.content(),
    {
        let n = bytes.remaining();
        proof {
            lemma_flatten_push(self.chunks(), bytes.content());
        }
        self.len = self.len + n;
        self.deque.push_back(bytes);
        assert(self.chunks() =~= old(self).chunks().push(bytes.content()));
    }

    /// Removes and returns the back chunk, empty or not; `None` when there is none.
    pub fn pop_back(&mut self) -> (r: Option<B>)
        requires
            old(self).inv(),
        ensures
            final(self).inv(),
            old(self).chunks().len() == 0 ==> r is None && final(self).chunks() == old(
                self,
            ).chunks(),
            old(self).chunks().len() > 0 ==> r is Some && r->0.wf() && r->0.content()
                == old(self).chunks().last() && final(self).chunks() == old(
                self,
            ).chunks().drop_last(),
    {
        match self.deque.pop_back() {
            Some(b) => {
                assert(self.chunks() =~= old(self).chunks().drop_last());
                assert(old(self).deque@[old(self).deque@.len() - 1].wf());
                let n = b.remaining();
                self.len = self.len - n;
                Some(b)
            },
            None => None,
        }
    }
}

impl<B: Chunk> BufVecDeque<B> {
    /// Copies the first `n` bytes into one new view and consumes them, walking
    /// over as many chunks as they span.
    fn copy_out(&mut self, n: usize) -> (r: Bytes)
        requires
            old(self).inv(),
            n <= flatten(old(self).chunks()).len(),
        ensures
            final(self).inv(),
            bytes_content(r) == flatten(old(self).chunks()).take(n as int),
            flatten(final(self).chunks()) == flatten(old(self).chunks()).skip(n as int),
    {
        let ghost all = flatten(self.chunks());
        let mut v: Vec<u8> = Vec::with_capacity(n);
        while v.len() < n
            invariant
                self.inv(),
                n <= all.len(),
                v.len() <= n,
                v@ == all.take(v.len() as int),
                flatten(self.chunks()) == all.skip(v.len() as int),
            decreases n - v.len(),
        {
            let k: usize;
            {
                let s = self.bytes();
                let want = n - v.len();
                k = if s.len() < want {
                    s.len()
                } else {
                    want
                };
                let ghost m = v.len() as int;
                let mut i: usize = 0;
                while i < k
                    invariant
                        i <= k,
                        k <= s@.len(),
                        0 <= m,
                        m + k <= n,
                        n <= all.len(),
                        v.len() == m + i,
                        v@ == all.take(m + i),
                        s@.is_prefix_of(all.skip(m)),
                    decreases k - i,
                {
                    proof {
                        assert(s@[i as int] == all.skip(m)[i as int]);
                        assert(0 <= m && m + i < all.len());
                        assert(all.skip(m)[i as int] == all[m + i]);
                        assert(all.take(m + i + 1) =~= all.take(m + i).push(all[m + i]));
                    }
                    v.push(s[i]);
                    i = i + 1;
                    assert(v@ =~= all.take(m + i));
                }
            }
            self.advance(k);
            assert(flatten(self.chunks()) =~= all.skip(v.len() as int));
        }
        bytes_from_vec(v)
    }
}

impl<B: Chunk> Default for BufVecDeque<B> {
    /// An empty run.
    fn default() -> (r: Self)
        ensures
            r.inv(),
            r.chunks() == Seq::<Seq<u8>>::empty(),
    {
        BufVecDeque::new()
    }
}

impl<B: Chunk> Chunk for BufVecDeque<B> {
    open spec fn content(&self) -> Seq<u8> {
        flatten(self.chunks())
    }

    open spec fn wf(&self) -> bool {
        self.inv()
    }

    fn remaining(&self) -> (r: usize) {
        self.len
    }

    /// The prefix comes from the first chunk that has bytes left.
    fn bytes(&self) -> (r: &[u8])
        ensures
            flatten(self.chunks()).len() > 0 ==> exists|j: int|
                0 <= j < self.chunks().len() && (#[trigger] self.chunks()[j]).len() > 0 && (
                forall|i: int| 0 <= i < j ==> self.chunks()[i].len() == 0)
                    && r@.is_prefix_of(self.chunks()[j]),
    {
        let mut i: usize = 0;
        assert(self.chunks().skip(0) =~= self.chunks());
        while i < self.deque.len()
            invariant
                self.inv(),
                i <= self.deque@.len(),
                forall|k: int| 0 <= k < i ==> self.chunks()[k].len() == 0,
                flatten(self.chunks()) == flatten(self.chunks().skip(i as int)),
            decreases self.deque@.len() - i,
        {
            let b = self.deque[i].bytes();
            proof {
                assert(self.deque@[i as int].wf());
                lemma_flatten_front(self.chunks().skip(i as int));
                assert(self.chunks().skip(i as int).drop_first() =~= self.chunks().skip(
                    i as int + 1,
                ));
            }
            if b.len() > 0 {
                proof {
                    let c = self.chunks()[i as int];
                    let rest = flatten(self.chunks().skip(i as int + 1));
                    assert((c + rest).subrange(0, b@.len() as int) =~= c.subrange(
                        0,
                        b@.len() as int,
                    ));
                    assert(self.chunks()[i as int].len() > 0);
                }
                return b;
            }
            assert(b@ =~= Seq::<u8>::empty());
            i = i + 1;
        }
        assert(self.chunks().skip(i as int) =~= Seq::<Seq<u8>>::empty());
        let e: &[u8] = &[];
        e
    }

    fn bytes_vectored<'a>(&'a self, dst: &mut Vec<&'a [u8]>, max: usize) -> (r: usize) {
        let ghost n0 = dst@.len() as int;
        let mut n: usize = 0;
        let mut i: usize = 0;
        assert(self.chunks().take(0) =~= Seq::<Seq<u8>>::empty());
        assert(dst@.skip(n0).map_values(|p: &[u8]| p@) =~= Seq::<Seq<u8>>::empty());
        assert(dst@.take(n0) =~= dst@);
        while i < self.deque.len() && n < max
            invariant
                self.inv(),
                i <= self.deque@.len(),
                n <= max,
                dst@.len() == n0 + n,
                n0 == old(dst)@.len(),
                dst@.take(n0) == old(dst)@,
                forall|k: int| n0 <= k < dst@.len() ==> (#[trigger] dst@[k])@.len() > 0,
                joined(dst@.skip(n0)).is_prefix_of(flatten(self.chunks().take(i as int))),
                n < max ==> joined(dst@.skip(n0)) == flatten(self.chunks().take(i as int)),
            decreases self.deque@.len() - i,
        {
            let ghost mid = dst@;
            assert(self.deque@[i as int].wf());
            let k = self.deque[i].bytes_vectored(dst, max - n);
            proof {
                lemma_appended_split(mid, dst@, n0, n0 + n);
                let c = self.chunks()[i as int];
                let before = flatten(self.chunks().take(i as int));
                assert(self.chunks().take(i as int + 1) =~= self.chunks().take(i as int).push(c));
                lemma_flatten_push(self.chunks().take(i as int), c);
                lemma_prefix_after(before, joined(dst@.skip(n0 + n)), c);
                assert(dst@.take(n0) =~= mid.take(n0));
                assert forall|j: int| n0 <= j < dst@.len() implies (#[trigger] dst@[j])@.len()
                    > 0 by {
                    if j < n0 + n {
                        assert(dst@[j] == mid[j]);
                    }
                }
            }
            n = n + k;
            i = i + 1;
        }
        proof {
            lemma_flatten_split(self.chunks(), i as int);
            let t = flatten(self.chunks().take(i as int));
            assert(flatten(self.chunks()).subrange(0, t.len() as int) =~= t);
            lemma_prefix_trans(joined(dst@.skip(n0)), t, flatten(self.chunks()));
            if n < max {
                assert(self.chunks().take(i as int) =~= self.chunks());
            }
        }
        n
    }

    /// Used-up front chunks leave, the next one is advanced, the rest stay.
    fn advance(&mut self, n: usize)
        ensures
            final(self).chunks() == advanced(old(self).chunks(), n as int),
    {
        let ghost all = flatten(self.chunks());
        let mut cnt = n;
        self.len = self.len - cnt;
        while cnt != 0
            invariant
                advanced(self.chunks(), cnt as int) == advanced(old(self).chunks(), n as int),
                forall|i: int| 0 <= i < self.deque@.len() ==> (#[trigger] self.deque@[i]).wf(),
                cnt <= flatten(self.chunks()).len(),
                self.len as int + cnt == flatten(self.chunks()).len(),
                flatten(self.chunks()).skip(cnt as int) == all.skip(n as int),
            decreases self.deque@.len() + cnt,
        {
            let ghost s = self.chunks();
            let ghost d = self.deque@;
            proof {
                if s.len() == 0 {
                    assert(flatten(s).len() == 0);
                }
                lemma_flatten_front(s);
                assert(self.deque@[0].wf());
            }
            let front_remaining = self.deque[0].remaining();
            let mut front = self.deque.pop_front().unwrap();
            assert(self.chunks() =~= s.drop_first());
            if cnt < front_remaining {
                front.advance(cnt);
                assert(advanced(s, cnt as int) == seq![front.content()] + s.drop_first());
                self.deque.push_front(front);
                proof {
                    assert(self.chunks() =~= seq![front.content()] + s.drop_first());
                    lemma_flatten_cons(front.content(), s.drop_first());
                    assert(flatten(self.chunks()) =~= flatten(s).skip(cnt as int));
                    assert forall|i: int| 0 <= i < self.deque@.len() implies (
                    #[trigger] self.deque@[i]).wf() by {
                        if i > 0 {
                            assert(self.deque@[i] == d[i]);
                        }
                    }
                }
                cnt = 0;
                assert(flatten(self.chunks()).skip(0) =~= flatten(self.chunks()));
            } else {
                assert(flatten(self.chunks()).skip((cnt - front_remaining) as int) =~= flatten(
                    s,
                ).skip(cnt as int));
                cnt = cnt - front_remaining;
            }
        }
        assert(flatten(self.chunks()).skip(0) =~= flatten(self.chunks()));
    }

    /// With no bytes left, the chunks stay as they are; a lone chunk is taken
    /// over as a whole.
    fn to_bytes(&mut self) -> (r: Bytes)
        ensures
            flatten(old(self).chunks()).len() == 0 ==> final(self).chunks() == old(self).chunks(),
            flatten(old(self).chunks()).len() > 0 && old(self).chunks().len() == 1 ==> final(self).chunks().len() == 0,
    {
        if self.len == 0 {
            assert(flatten(self.chunks()) =~= Seq::<u8>::empty());
            bytes_new()
        } else if self.deque.len() == 1 {
            let mut d = VecDeque::new();
            std::mem::swap(&mut self.deque, &mut d);
            self.len = 0;
            proof {
                lemma_flatten_front(old(self).chunks());
                assert(old(self).chunks().drop_first() =~= Seq::<Seq<u8>>::empty());
                assert(old(self).deque@[0].wf());
                assert(self.chunks() =~= Seq::<Seq<u8>>::empty());
            }
            let mut c = d.pop_front().unwrap();
            assert(flatten(old(self).chunks()) =~= c.content());
            c.to_bytes()
        } else {
            let n = self.len;
            let r = self.copy_out(n);
            assert(flatten(self.chunks()) =~= Seq::<u8>::empty());
            assert(flatten(old(self).chunks()).take(n as int) =~= flatten(old(self).chunks()));
            r
        }
    }
}

impl<B: GetBytes> GetBytes for BufVecDeque<B> {
    /// Where the front chunk holds at least `n` bytes, they come from it alone
    /// and no other chunk changes; the front chunk leaves once used up.
    fn get_bytes(&mut self, n: usize) -> (r: Bytes)
        ensures
            old(self).chunks().len() == 0 ==> final(self).chunks() == old(self).chunks(),
            old(self).chunks().len() > 0 && old(self).chunks()[0].len() == n ==> final(self).chunks() == old(self).chunks().drop_first(),
            old(self).chunks().len() > 0 && old(self).chunks()[0].len() > n ==> final(self).chunks() == old(self).chunks().update(0, old(self).chunks()[0].skip(n as int)),
    {
        if self.deque.len() == 0 {
            assert(self.chunks() =~= Seq::<Seq<u8>>::empty());
            assert(flatten(self.chunks()).take(0) =~= Seq::<u8>::empty());
            assert(flatten(self.chunks()).skip(0) =~= flatten(self.chunks()));
            return bytes_new();
        }
        let ghost s = self.chunks();
        proof {
            lemma_flatten_front(s);
            assert(self.deque@[0].wf());
        }
        let front_remaining = self.deque[0].remaining();
        if front_remaining >= n {
            let mut front = self.deque.pop_front().unwrap();
            assert(self.chunks() =~= s.drop_first());
            let r = front.get_bytes(n);
            if front_remaining != n {
                self.deque.push_front(front);
                proof {
                    assert(self.chunks() =~= seq![front.content()] + s.drop_first());
                    lemma_flatten_cons(front.content(), s.drop_first());
                    assert(self.chunks() =~= s.update(0, s[0].skip(n as int)));
                }
            } else {
                assert(front.content() =~= Seq::<u8>::empty());
                assert(flatten(s.drop_first()) =~= Seq::<u8>::empty() + flatten(s.drop_first()));
            }
            self.len = self.len - n;
            assert(flatten(self.chunks()) =~= flatten(s).skip(n as int));
            assert(bytes_content(r) =~= flatten(s).take(n as int));
            r
        } else {
            self.copy_out(n)
        }
    }
}

impl<B: PlainChunk> BufVecDeque<B> {
    /// The back chunk itself.
    pub closed spec fn back(&self) -> B {
        self.deque@.last()
    }

    /// The back chunk is consistent and holds the last of the chunks' bytes.
    pub proof fn lemma_back(&self)
        requires
            self.inv(),
            self.chunks().len() > 0,
        ensures
            self.back().wf(),
            self.back().content() == self.chunks().last(),
    {
        assert(self.deque@[self.deque@.len() - 1].wf());
    }

    /// Hands the back chunk to `f` for changes and puts what `f` returns back
    /// at the tail, empty or not; `false`, and nothing done, when there is no
    /// chunk. The chunk's length is taken out of the run's length before the
    /// call and the new chunk's length is added after it. If `f` panics, the
    /// back chunk is lost with it: the run keeps the other chunks and stays
    /// consistent, its length counting those alone.
    pub fn back_mut<F>(&mut self, f: F) -> (r: bool)
        where
            F: FnOnce(B) -> B,
        requires
            old(self).inv(),
            old(self).chunks().len() > 0 ==> f.requires((old(self).back(),)),
            old(self).chunks().len() > 0 ==> forall|c: B|
                #[trigger] f.ensures((old(self).back(),), c) ==> flatten(old(self).chunks()).len()
                    - old(self).chunks().last().len() + c.content().len() <= usize::MAX,
        ensures
            final(self).inv(),
            r == (old(self).chunks().len() > 0),
            !r ==> final(self).chunks() == old(self).chunks(),
            r ==> exists|c: B|
                #[trigger] f.ensures((old(self).back(),), c) && final(self).chunks() == old(
                    self,
                ).chunks().drop_last().push(c.content()) && flatten(final(self).chunks()).len()
                    == flatten(old(self).chunks()).len() - old(self).chunks().last().len()
                    + c.content().len(),
    {
        if self.deque.len() == 0 {
            return false;
        }
        let back = self.deque.pop_back().unwrap();
        proof {
            assert(old(self).deque@[old(self).deque@.len() - 1].wf());
            assert(self.chunks() =~= old(self).chunks().drop_last());
            lemma_flatten_push(self.chunks(), back.content());
            assert(old(self).chunks() =~= self.chunks().push(back.content()));
        }
        let remaining = back.remaining();
        self.len = self.len - remaining;
        let changed = f(back);
        proof {
            changed.lemma_wf();
        }
        self.push_back(changed);
        proof {
            lemma_back_change_len(old(self).chunks(), self.chunks(), changed.content());
        }
        true
    }
}

impl BufVecDeque<Bytes> {
    /// Copies every byte left, in order, without consuming any.
    pub fn copy_to_vec(&self) -> (r: Vec<u8>)
        ensures
            r@ == flatten(self.chunks()),
    {
        let mut v: Vec<u8> = Vec::with_capacity(self.len);
        let mut i: usize = 0;
        while i < self.deque.len()
            invariant
                i <= self.deque@.len(),
                v@ == flatten(self.chunks().take(i as int)),
            decreases self.deque@.len() - i,
        {
            let s = bytes_as_slice(&self.deque[i]);
            let ghost before = v@;
            let mut j: usize = 0;
            while j < s.len()
                invariant
                    j <= s@.len(),
                    v@ == before + s@.take(j as int),
                decreases s@.len() - j,
            {
                v.push(s[j]);
                j = j + 1;
                assert(v@ =~= before + s@.take(j as int));
            }
            proof {
                assert(s@.take(s@.len() as int) =~= s@);
                assert(self.chunks().take(i as int + 1) =~= self.chunks().take(i as int).push(
                    s@,
                ));
                lemma_flatten_push(self.chunks().take(i as int), s@);
            }
            i = i + 1;
        }
        assert(self.chunks().take(i as int) =~= self.chunks());
        v
    }
}

/// Changing the back chunk moves the run's length by exactly as much as the
/// chunk grew or shrank.
pub proof fn lemma_back_change_len(before: Seq<Seq<u8>>, after: Seq<Seq<u8>>, c: Seq<u8>)
    requires
        before.len() > 0,
        after == before.drop_last().push(c),
    ensures
        flatten(after).len() == flatten(before).len() - before.last().len() + c.len(),
{
    lemma_flatten_push(before.drop_last(), c);
    lemma_flatten_push(before.drop_last(), before.last());
    assert(before.drop_last().push(before.last()) =~= before);
}

} // verus!
