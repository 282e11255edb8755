use vstd::prelude::*;

verus! {

/// The bytes of a run of chunks, one after another.
pub open spec fn flatten(s: Seq<Seq<u8>>) -> Seq<u8>
    decreases s.len(),
{
    if s.len() == 0 {
        Seq::empty()
    } else {
        flatten(s.drop_last()) + s.last()
    }
}

/// Appending a chunk appends its bytes.
pub proof fn lemma_flatten_push(s: Seq<Seq<u8>>, c: Seq<u8>)
    ensures
        flatten(s.push(c)) == flatten(s) + c,
{
    assert(s.push(c).drop_last() =~= s);
}

/// The first chunk's bytes come first.
pub proof fn lemma_flatten_front(s: Seq<Seq<u8>>)
    requires
        s.len() > 0,
    ensures
        flatten(s) == s[0] + flatten(s.drop_first()),
    decreases s.len(),
{
    if s.len() == 1 {
        assert(s.drop_last() =~= Seq::<Seq<u8>>::empty());
        assert(s.drop_first() =~= Seq::<Seq<u8>>::empty());
        assert(flatten(s) =~= s[0] + flatten(s.drop_first()));
    } else {
        lemma_flatten_front(s.drop_last());
        assert(s.drop_last().drop_first() =~= s.drop_first().drop_last());
        assert(s.drop_first().last() == s.last());
        assert(flatten(s) =~= s[0] + flatten(s.drop_first()));
    }
}

/// The bytes of the first `k` chunks are no more than those of all of them.
pub proof fn lemma_flatten_prefix_len(s: Seq<Seq<u8>>, k: int)
    requires
        0 <= k <= s.len(),
    ensures
        flatten(s.take(k)).len() <= flatten(s).len(),
    decreases s.len(),
{
    if k < s.len() {
        assert(s.drop_last().take(k) =~= s.take(k));
        lemma_flatten_prefix_len(s.drop_last(), k);
    } else {
        assert(s.take(k) =~= s);
    }
}

/// A chunk put in front of a run puts its bytes in front.
pub proof fn lemma_flatten_cons(c: Seq<u8>, s: Seq<Seq<u8>>)
    ensures
        flatten(seq![c] + s) == c + flatten(s),
{
    lemma_flatten_front(seq![c] + s);
    assert((seq![c] + s).drop_first() =~= s);
}

/// A run's bytes are those of its first `k` chunks, then those of the rest.
pub proof fn lemma_flatten_split(s: Seq<Seq<u8>>, k: int)
    requires
        0 <= k <= s.len(),
    ensures
        flatten(s) == flatten(s.take(k)) + flatten(s.skip(k)),
    decreases s.len() - k,
{
    if k == s.len() {
        assert(s.take(k) =~= s);
        assert(s.skip(k) =~= Seq::<Seq<u8>>::empty());
        assert(flatten(s) + Seq::<u8>::empty() =~= flatten(s));
    } else {
        lemma_flatten_split(s, k + 1);
        assert(s.take(k + 1) =~= s.take(k).push(s[k]));
        lemma_flatten_push(s.take(k), s[k]);
        assert(s.skip(k) =~= seq![s[k]] + s.skip(k + 1));
        lemma_flatten_cons(s[k], s.skip(k + 1));
        assert(flatten(s) =~= flatten(s.take(k)) + flatten(s.skip(k)));
    }
}

/// The bytes of a list of slices, one after another.
pub open spec fn joined(pieces: Seq<&[u8]>) -> Seq<u8> {
    flatten(pieces.map_values(|p: &[u8]| p@))
}

/// The bytes of two lists of slices, one after the other.
pub proof fn lemma_joined_concat(p: Seq<&[u8]>, q: Seq<&[u8]>)
    ensures
        joined(p + q) == joined(p) + joined(q),
{
    let all = (p + q).map_values(|x: &[u8]| x@);
    lemma_flatten_split(all, p.len() as int);
    assert(all.take(p.len() as int) =~= p.map_values(|x: &[u8]| x@));
    assert(all.skip(p.len() as int) =~= q.map_values(|x: &[u8]| x@));
}

/// The slices appended to a list after position `n0`, split at `n1`.
pub proof fn lemma_appended_split(mid: Seq<&[u8]>, fin: Seq<&[u8]>, n0: int, n1: int)
    requires
        0 <= n0 <= n1 == mid.len() <= fin.len(),
        fin.take(n1) == mid,
    ensures
        joined(fin.skip(n0)) == joined(mid.skip(n0)) + joined(fin.skip(n1)),
{
    assert(fin.skip(n0) =~= mid.skip(n0) + fin.skip(n1));
    lemma_joined_concat(mid.skip(n0), fin.skip(n1));
}

/// A prefix of `b`, put after `a`, is a prefix of `a + b`.
pub proof fn lemma_prefix_after(a: Seq<u8>, p: Seq<u8>, b: Seq<u8>)
    requires
        p.is_prefix_of(b),
    ensures
        (a + p).is_prefix_of(a + b),
{
    assert((a + b).subrange(0, (a + p).len() as int) =~= a + p);
}

/// A prefix of a prefix is a prefix.
pub proof fn lemma_prefix_trans(a: Seq<u8>, b: Seq<u8>, c: Seq<u8>)
    requires
        a.is_prefix_of(b),
        b.is_prefix_of(c),
    ensures
        a.is_prefix_of(c),
{
    assert(c.subrange(0, a.len() as int) =~= b.subrange(0, a.len() as int));
}

/// The chunks left once `n` bytes are consumed from the front: chunks that
/// are used up leave, the next one loses what was taken from it, and the rest
/// stay as they are.
pub open spec fn advanced(cs: Seq<Seq<u8>>, n: int) -> Seq<Seq<u8>>
    decreases cs.len(),
{
    if n <= 0 || cs.len() == 0 {
        cs
    } else if n < cs[0].len() {
        seq![cs[0].skip(n)] + cs.drop_first()
    } else {
        advanced(cs.drop_first(), n - cs[0].len())
    }
}

/// A run with bytes has a chunk with bytes.
pub proof fn lemma_flatten_nonempty(s: Seq<Seq<u8>>)
    requires
        flatten(s).len() > 0,
    ensures
        exists|i: int| 0 <= i < s.len() && (#[trigger] s[i]).len() > 0,
    decreases s.len(),
{
    if s.last().len() == 0 {
        lemma_flatten_nonempty(s.drop_last());
        let i = choose|i: int| 0 <= i < s.drop_last().len() && (#[trigger] s.drop_last()[i]).len() > 0;
        assert(s[i] == s.drop_last()[i]);
    } else {
        assert(s[s.len() - 1].len() > 0);
    }
}

} // verus!
