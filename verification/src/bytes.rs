//! Splitting and joining byte strings on a separator.
//!
//! Both payload shapes are decoded by splitting: CSV on line and field
//! separators, the JSON wire shape on the quote byte. The decoders' contracts
//! are stated over [`spec_split`], and the encoder emits a [`seq_join`] of
//! quote-free pieces, so that [`lemma_split_of_join`] turns round-trip proofs
//! into piece-by-piece arguments.

use vstd::prelude::*;

verus! {

/// The pieces of `s` between occurrences of `sep`; always at least one piece.
pub open spec fn spec_split(s: Seq<u8>, sep: u8) -> Seq<Seq<u8>>
    decreases s.len(),
{
    if s.len() == 0 {
        seq![Seq::<u8>::empty()]
    } else if s[0] == sep {
        seq![Seq::<u8>::empty()] + spec_split(s.drop_first(), sep)
    } else {
        let rest = spec_split(s.drop_first(), sep);
        seq![seq![s[0]] + rest[0]] + rest.drop_first()
    }
}

/// The pieces interleaved with `sep`, the inverse of [`spec_split`].
pub open spec fn seq_join(pieces: Seq<Seq<u8>>, sep: u8) -> Seq<u8>
    decreases pieces.len(),
{
    if pieces.len() == 0 {
        Seq::<u8>::empty()
    } else if pieces.len() == 1 {
        pieces[0]
    } else {
        pieces[0] + seq![sep] + seq_join(pieces.drop_first(), sep)
    }
}

pub proof fn lemma_split_len(s: Seq<u8>, sep: u8)
    ensures
        spec_split(s, sep).len() >= 1,
    decreases s.len(),
{
    if s.len() > 0 {
        lemma_split_len(s.drop_first(), sep);
    }
}

/// Splitting a join on the same separator gives the pieces back, provided no
/// piece contains the separator.
pub proof fn lemma_split_of_join(pieces: Seq<Seq<u8>>, sep: u8)
    requires
        pieces.len() >= 1,
        forall|i: int| 0 <= i < pieces.len() ==> !(#[trigger] pieces[i]).contains(sep),
    ensures
        spec_split(seq_join(pieces, sep), sep) == pieces,
    decreases pieces.len(), pieces[0].len(),
{
    if pieces.len() == 1 {
        lemma_split_single(pieces[0], sep);
        assert(seq_join(pieces, sep) == pieces[0]);
        assert(spec_split(seq_join(pieces, sep), sep) =~= pieces);
    } else {
        let s = seq_join(pieces, sep);
        let tail = seq_join(pieces.drop_first(), sep);
        let head = pieces[0];
        assert(s == head + seq![sep] + tail);
        if head.len() == 0 {
            assert(s =~= seq![sep] + tail);
            assert(s[0] == sep);
            lemma_split_of_join(pieces.drop_first(), sep);
            assert(s.drop_first() =~= tail);
            assert(spec_split(s, sep) == seq![Seq::<u8>::empty()] + spec_split(
                s.drop_first(),
                sep,
            ));
            assert(spec_split(s.drop_first(), sep) == pieces.drop_first());
            assert(seq![Seq::<u8>::empty()] + pieces.drop_first() =~~= pieces);
        } else {
            let shorter = seq![head.drop_first()] + pieces.drop_first();
            assert(head[0] != sep) by {
                assert(head.contains(sep) <==> exists|j: int|
                    0 <= j < head.len() && head[j] == sep);
            }
            assert forall|i: int| 0 <= i < shorter.len() implies !(#[trigger] shorter[i]).contains(
                sep,
            ) by {
                if i == 0 {
                    assert(shorter[0] == head.drop_first());
                    assert(!head.contains(sep));
                    assert(head.contains(sep) <==> exists|j: int|
                        0 <= j < head.len() && head[j] == sep);
                    assert(head.drop_first().contains(sep) <==> exists|j: int|
                        0 <= j < head.drop_first().len() && head.drop_first()[j] == sep);
                    assert forall|j: int|
                        0 <= j < head.drop_first().len() implies head.drop_first()[j] != sep by {
                        assert(head.drop_first()[j] == head[j + 1]);
                    }
                } else {
                    assert(shorter[i] == pieces[i]);
                }
            }
            assert(shorter[0] == head.drop_first());
            assert(shorter[0].len() < pieces[0].len());
            lemma_split_of_join(shorter, sep);
            assert(shorter.len() >= 2);
            assert(seq_join(shorter, sep) == shorter[0] + seq![sep] + seq_join(
                shorter.drop_first(),
                sep,
            ));
            assert(shorter.drop_first() =~= pieces.drop_first());
            assert(seq_join(shorter, sep) == head.drop_first() + seq![sep] + tail);
            assert(s.drop_first() =~= head.drop_first() + seq![sep] + tail);
            assert(spec_split(s.drop_first(), sep) == shorter);
            assert(s.len() > 0);
            assert(s[0] == head[0]);
            assert(s[0] != sep);
            let rest = spec_split(s.drop_first(), sep);
            assert(spec_split(s, sep) == seq![seq![s[0]] + rest[0]] + rest.drop_first());
            assert(rest[0] == head.drop_first());
            assert(seq![s[0]] + head.drop_first() =~= head);
            assert(rest.drop_first() =~= pieces.drop_first());
            assert(seq![head] + pieces.drop_first() =~= pieces);
            assert(spec_split(s, sep) =~= pieces);
        }
    }
}

/// A string without the separator splits into itself alone.
pub proof fn lemma_split_single(s: Seq<u8>, sep: u8)
    requires
        !s.contains(sep),
    ensures
        spec_split(s, sep) == seq![s],
    decreases s.len(),
{
    if s.len() == 0 {
        assert(spec_split(s, sep) =~~= seq![s]);
    } else {
        assert(s[0] != sep) by {
            assert(s.contains(sep) <==> exists|j: int| 0 <= j < s.len() && s[j] == sep);
        }
        assert forall|j: int| 0 <= j < s.drop_first().len() implies s.drop_first()[j] != sep by {
            assert(s.drop_first()[j] == s[j + 1]);
        }
        lemma_split_single(s.drop_first(), sep);
        assert(spec_split(s, sep) =~= seq![seq![s[0]] + s.drop_first()]);
        assert(seq![s[0]] + s.drop_first() =~= s);
        assert(spec_split(s, sep) =~= seq![s]);
    }
}

/// How a split advances over one byte of input; the shape every decoding loop
/// steps by.
pub proof fn lemma_split_step(s: Seq<u8>, i: int, sep: u8)
    requires
        0 <= i < s.len(),
    ensures
        s[i] == sep ==> spec_split(s.skip(i), sep) == seq![Seq::<u8>::empty()] + spec_split(
            s.skip(i + 1),
            sep,
        ),
        s[i] != sep ==> spec_split(s.skip(i), sep) == seq![
            seq![s[i]] + spec_split(s.skip(i + 1), sep)[0],
        ] + spec_split(s.skip(i + 1), sep).drop_first(),
{
    let t = s.skip(i);
    assert(t.len() > 0);
    assert(t[0] == s[i]);
    assert(t.drop_first() =~= s.skip(i + 1));
}

/// Split `s` at every occurrence of `sep`.
pub fn split_bytes(s: &Vec<u8>, sep: u8) -> (r: Vec<Vec<u8>>)
    ensures
        r@.map_values(|p: Vec<u8>| p@) == spec_split(s@, sep),
{
    let ghost whole = spec_split(s@, sep);
    let mut pieces: Vec<Vec<u8>> = Vec::new();
    let mut cur: Vec<u8> = Vec::new();
    let mut i: usize = 0;
    proof {
        assert(s@.skip(0) =~= s@);
        lemma_split_len(s@, sep);
    }
    while i < s.len()
        invariant
            0 <= i <= s@.len(),
            spec_split(s@, sep) == pieces@.map_values(|p: Vec<u8>| p@) + seq![
                cur@ + spec_split(s@.skip(i as int), sep)[0],
            ] + spec_split(s@.skip(i as int), sep).drop_first(),
        decreases s@.len() - i,
    {
        proof {
            lemma_split_step(s@, i as int, sep);
            lemma_split_len(s@.skip(i as int + 1), sep);
        }
        let b = s[i];
        if b == sep {
            let done = cur;
            cur = Vec::new();
            let ghost old_pieces = pieces@;
            pieces.push(done);
            proof {
                assert(pieces@.map_values(|p: Vec<u8>| p@) =~= old_pieces.map_values(
                    |p: Vec<u8>| p@,
                ).push(done@));
                assert(done@ + spec_split(s@.skip(i as int), sep)[0] =~= done@);
                assert(spec_split(s@, sep) =~= pieces@.map_values(|p: Vec<u8>| p@) + seq![
                    cur@ + spec_split(s@.skip(i as int + 1), sep)[0],
                ] + spec_split(s@.skip(i as int + 1), sep).drop_first());
            }
        } else {
            let ghost old_cur = cur@;
            cur.push(b);
            proof {
                let rest = spec_split(s@.skip(i as int + 1), sep);
                assert(old_cur + spec_split(s@.skip(i as int), sep)[0] =~= cur@ + rest[0]);
                assert(spec_split(s@.skip(i as int), sep).drop_first() =~= rest.drop_first());
                assert(spec_split(s@, sep) =~= pieces@.map_values(|p: Vec<u8>| p@) + seq![
                    cur@ + rest[0],
                ] + rest.drop_first());
            }
        }
        i = i + 1;
    }
    proof {
        assert(s@.skip(i as int) =~= Seq::<u8>::empty());
        assert(spec_split(s@.skip(i as int), sep) == seq![Seq::<u8>::empty()]);
        assert(cur@ + Seq::<u8>::empty() =~= cur@);
        assert(spec_split(s@.skip(i as int), sep).drop_first() =~= Seq::<Seq<u8>>::empty());
    }
    let ghost old_pieces = pieces@;
    pieces.push(cur);
    proof {
        assert(pieces@.map_values(|p: Vec<u8>| p@) =~= old_pieces.map_values(|p: Vec<u8>| p@).push(
            cur@,
        ));
        assert(spec_split(s@, sep) =~= old_pieces.map_values(|p: Vec<u8>| p@) + seq![cur@]);
        assert(pieces@.map_values(|p: Vec<u8>| p@) =~= spec_split(s@, sep));
    }
    pieces
}

/// Append `piece` to `out`.
pub fn extend_bytes(out: &mut Vec<u8>, piece: &Vec<u8>)
    ensures
        final(out)@ == old(out)@ + piece@,
{
    let mut i: usize = 0;
    while i < piece.len()
        invariant
            0 <= i <= piece@.len(),
            out@ == old(out)@ + piece@.take(i as int),
        decreases piece@.len() - i,
    {
        out.push(piece[i]);
        proof {
            assert(old(out)@ + piece@.take(i as int + 1) =~= (old(out)@ + piece@.take(
                i as int,
            )).push(piece@[i as int]));
        }
        i = i + 1;
    }
    proof {
        assert(piece@.take(piece@.len() as int) =~= piece@);
    }
}

/// Join `pieces` with `sep` between them.
pub fn join_bytes(pieces: &Vec<Vec<u8>>, sep: u8) -> (r: Vec<u8>)
    requires
        pieces@.len() >= 1,
    ensures
        r@ == seq_join(pieces@.map_values(|p: Vec<u8>| p@), sep),
    decreases pieces@.len(),
{
    let ghost model = pieces@.map_values(|p: Vec<u8>| p@);
    let mut out: Vec<u8> = Vec::new();
    let mut i: usize = 0;
    extend_bytes(&mut out, &pieces[0]);
    i = 1;
    while i < pieces.len()
        invariant
            1 <= i <= pieces@.len(),
            model == pieces@.map_values(|p: Vec<u8>| p@),
            out@ == seq_join(model.take(i as int), sep),
        decreases pieces@.len() - i,
    {
        proof {
            lemma_join_push(model.take(i as int), model[i as int], sep);
            assert(model.take(i as int).push(model[i as int]) =~= model.take(i as int + 1));
        }
        out.push(sep);
        extend_bytes(&mut out, &pieces[i]);
        i = i + 1;
    }
    proof {
        assert(model.take(model.len() as int) =~= model);
    }
    out
}

/// Joining one more piece appends a separator and that piece.
pub proof fn lemma_join_push(pieces: Seq<Seq<u8>>, last: Seq<u8>, sep: u8)
    requires
        pieces.len() >= 1,
    ensures
        seq_join(pieces.push(last), sep) == seq_join(pieces, sep) + seq![sep] + last,
    decreases pieces.len(),
{
    if pieces.len() == 1 {
        let p = pieces.push(last);
        assert(p.len() == 2);
        assert(p.drop_first() =~= seq![last]);
        assert(seq_join(p.drop_first(), sep) == last);
        assert(p[0] == pieces[0]);
        assert(seq_join(p, sep) == p[0] + seq![sep] + seq_join(p.drop_first(), sep));
        assert(seq_join(pieces, sep) == pieces[0]);
    } else {
        lemma_join_push(pieces.drop_first(), last, sep);
        assert(pieces.push(last).drop_first() =~= pieces.drop_first().push(last));
        assert(seq_join(pieces.push(last), sep) == pieces[0] + seq![sep] + seq_join(
            pieces.drop_first().push(last),
            sep,
        ));
        assert(pieces[0] + seq![sep] + (seq_join(pieces.drop_first(), sep) + seq![sep] + last) =~= (
        pieces[0] + seq![sep] + seq_join(pieces.drop_first(), sep)) + seq![sep] + last);
    }
}

/// The bytes `s[from..to]`, copied.
pub fn sub_vec(s: &Vec<u8>, from: usize, to: usize) -> (r: Vec<u8>)
    requires
        from <= to <= s@.len(),
    ensures
        r@ == s@.subrange(from as int, to as int),
{
    let mut out: Vec<u8> = Vec::new();
    let mut i = from;
    while i < to
        invariant
            from <= i <= to <= s@.len(),
            out@ == s@.subrange(from as int, i as int),
        decreases to - i,
    {
        out.push(s[i]);
        proof {
            assert(s@.subrange(from as int, i as int + 1) =~= s@.subrange(from as int, i as int)
                .push(s@[i as int]));
        }
        i = i + 1;
    }
    out
}

/// Whether two byte strings are equal.
pub fn bytes_eq(a: &Vec<u8>, b: &Vec<u8>) -> (r: bool)
    ensures
        r == (a@ == b@),
{
    if a.len() != b.len() {
        return false;
    }
    let mut i: usize = 0;
    while i < a.len()
        invariant
            0 <= i <= a@.len(),
            a@.len() == b@.len(),
            forall|j: int| 0 <= j < i ==> a@[j] == b@[j],
        decreases a@.len() - i,
    {
        if a[i] != b[i] {
            return false;
        }
        i = i + 1;
    }
    proof {
        assert(a@ =~= b@);
    }
    true
}

} // verus!
