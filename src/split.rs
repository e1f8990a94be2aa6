use vstd::prelude::*;

verus! {

/// The pieces of `s` between occurrences of `sep`, in order: `k` separators
/// give `k + 1` pieces, some of which may be empty.
pub open spec fn split_on(s: Seq<u8>, sep: u8) -> Seq<Seq<u8>>
    decreases s.len(),
{
    if s.len() == 0 {
        seq![Seq::<u8>::empty()]
    } else {
        let p = split_on(s.drop_last(), sep);
        if s.last() == sep {
            p.push(Seq::<u8>::empty())
        } else {
            p.update(p.len() - 1, p.last().push(s.last()))
        }
    }
}

pub open spec fn free_of(s: Seq<u8>, sep: u8) -> bool {
    forall|i: int| 0 <= i < s.len() ==> #[trigger] s[i] != sep
}

pub proof fn lemma_split_nonempty(s: Seq<u8>, sep: u8)
    ensures
        split_on(s, sep).len() > 0,
    decreases s.len(),
{
    if s.len() > 0 {
        lemma_split_nonempty(s.drop_last(), sep);
    }
}

/// A text without the separator is a single piece.
pub proof fn lemma_split_free(a: Seq<u8>, sep: u8)
    requires
        free_of(a, sep),
    ensures
        split_on(a, sep) == seq![a],
    decreases a.len(),
{
    if a.len() > 0 {
        let b = a.drop_last();
        assert(free_of(b, sep)) by {
            assert forall|i: int| 0 <= i < b.len() implies #[trigger] b[i] != sep by {
                assert(b[i] == a[i]);
            }
        }
        assert(a[a.len() - 1] != sep);
        lemma_split_free(b, sep);
        assert(b.push(a.last()) =~= a);
        assert(seq![b].update(0, b.push(a.last())) =~= seq![a]);
    } else {
        assert(a =~= Seq::<u8>::empty());
    }
}

/// A separator followed by a text without it adds that text as one more piece.
pub proof fn lemma_split_piece(x: Seq<u8>, a: Seq<u8>, sep: u8)
    requires
        free_of(a, sep),
    ensures
        split_on(x.push(sep) + a, sep) == split_on(x, sep).push(a),
    decreases a.len(),
{
    let s = x.push(sep) + a;
    if a.len() == 0 {
        assert(a =~= Seq::<u8>::empty());
        assert(s =~= x.push(sep));
        assert(s.drop_last() =~= x);
        assert(s.last() == sep);
    } else {
        let b = a.drop_last();
        assert(free_of(b, sep)) by {
            assert forall|i: int| 0 <= i < b.len() implies #[trigger] b[i] != sep by {
                assert(b[i] == a[i]);
            }
        }
        assert(a[a.len() - 1] != sep);
        assert(s.last() == a.last());
        assert(s.drop_last() =~= x.push(sep) + b);
        lemma_split_piece(x, b, sep);
        let p = split_on(x, sep).push(b);
        assert(b.push(a.last()) =~= a);
        assert(p.update(p.len() - 1, b.push(a.last())) =~= split_on(x, sep).push(a));
    }
}

/// Splits `s` at every occurrence of `sep`.
pub fn split_bytes(s: &[u8], sep: u8) -> (r: Vec<Vec<u8>>)
    ensures
        r@.map_values(|v: Vec<u8>| v@) == split_on(s@, sep),
{
    let mut pieces: Vec<Vec<u8>> = Vec::new();
    let mut current: Vec<u8> = Vec::new();
    let mut i: usize = 0;
    assert(s@.subrange(0, 0) =~= Seq::<u8>::empty());
    assert(pieces@.map_values(|v: Vec<u8>| v@).push(current@) =~= split_on(Seq::<u8>::empty(), sep));
    while i < s.len()
        invariant
            i <= s@.len(),
            pieces@.map_values(|v: Vec<u8>| v@).push(current@) == split_on(s@.subrange(0, i as int), sep),
        decreases s@.len() - i,
    {
        let ghost done = s@.subrange(0, i as int);
        let ghost p = split_on(done, sep);
        let ghost old_pieces = pieces@;
        assert(s@.subrange(0, i + 1).drop_last() =~= done);
        if s[i] == sep {
            pieces.push(current);
            current = Vec::new();
            assert(pieces@.map_values(|v: Vec<u8>| v@).push(current@) =~= p.push(Seq::<u8>::empty()));
        } else {
            let ghost before = current@;
            current.push(s[i]);
            assert(pieces@ == old_pieces);
            assert(pieces@.map_values(|v: Vec<u8>| v@).push(current@) =~= p.update(
                p.len() - 1,
                p.last().push(s@[i as int]),
            ));
        }
        i = i + 1;
    }
    assert(s@.subrange(0, i as int) =~= s@);
    pieces.push(current);
    assert(pieces@.map_values(|v: Vec<u8>| v@) =~= split_on(s@, sep));
    pieces
}

} // verus!
