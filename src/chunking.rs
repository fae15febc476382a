use vstd::prelude::*;

verus! {

/// The ceiling on the length of one read buffer: one mebibyte.
pub const CHUNK_SIZE: u64 = 1048576;

/// The length of the next buffer when `remain` bytes of the file are still unread.
pub open spec fn chunk_len_of(remain: nat) -> nat {
    if remain < CHUNK_SIZE {
        remain
    } else {
        CHUNK_SIZE as nat
    }
}

/// How a byte sequence is cut into read buffers: full buffers of `CHUNK_SIZE`
/// bytes in file order, the last one holding exactly the remainder.
pub open spec fn chunks_of(s: Seq<u8>) -> Seq<Seq<u8>>
    decreases s.len(),
{
    if s.len() == 0 {
        Seq::empty()
    } else {
        let n = chunk_len_of(s.len()) as int;
        seq![s.take(n)] + chunks_of(s.skip(n))
    }
}

/// The bytes of a sequence of buffers laid end to end.
pub open spec fn flatten(cs: Seq<Seq<u8>>) -> Seq<u8>
    decreases cs.len(),
{
    if cs.len() == 0 {
        Seq::empty()
    } else {
        cs[0] + flatten(cs.skip(1))
    }
}

/// The buffers of a byte sequence, laid end to end, give back exactly that
/// sequence, in order and with its length; every buffer is non-empty and no
/// larger than `CHUNK_SIZE`, and every buffer but the last is full.
pub proof fn lemma_chunks_cover(s: Seq<u8>)
    ensures
        flatten(chunks_of(s)) == s,
        flatten(chunks_of(s)).len() == s.len(),
        forall|i: int|
            0 <= i < chunks_of(s).len() ==> 0 < #[trigger] chunks_of(s)[i].len() <= CHUNK_SIZE,
        forall|i: int|
            0 <= i < chunks_of(s).len() - 1 ==> #[trigger] chunks_of(s)[i].len() == CHUNK_SIZE,
    decreases s.len(),
{
    if s.len() > 0 {
        let n = chunk_len_of(s.len()) as int;
        let rest = s.skip(n);
        lemma_chunks_cover(rest);
        let cs = chunks_of(s);
        assert(cs.skip(1) =~= chunks_of(rest));
        assert(s.take(n) + rest =~= s);
        assert forall|i: int| 0 <= i < cs.len() implies 0 < #[trigger] cs[i].len() <= CHUNK_SIZE by {
            if i > 0 {
                assert(cs[i] == chunks_of(rest)[i - 1]);
            }
        }
        assert forall|i: int| 0 <= i < cs.len() - 1 implies #[trigger] cs[i].len() == CHUNK_SIZE by {
            if i > 0 {
                assert(cs[i] == chunks_of(rest)[i - 1]);
            } else {
                assert(rest.len() > 0);
            }
        }
    }
}

/// The length of the next buffer to read when `remain` bytes are still unread.
pub fn next_chunk_len(remain: u64) -> (r: u64)
    ensures
        r == chunk_len_of(remain as nat),
{
    if remain < CHUNK_SIZE {
        remain
    } else {
        CHUNK_SIZE
    }
}

/// Cuts an in-memory byte sequence into read buffers, as a reader would
/// produce them from a file with that content.
pub fn split_chunks(data: &[u8]) -> (r: Vec<Vec<u8>>)
    ensures
        r@.len() == chunks_of(data@).len(),
        forall|i: int| 0 <= i < r@.len() ==> #[trigger] r@[i]@ == chunks_of(data@)[i],
{
    let mut out: Vec<Vec<u8>> = Vec::new();
    let mut pos: usize = 0;
    assert(data@.skip(0) =~= data@);
    assert(out@.map_values(|v: Vec<u8>| v@) + chunks_of(data@) =~= chunks_of(data@));
    while pos < data.len()
        invariant
            pos <= data@.len(),
            chunks_of(data@) == out@.map_values(|v: Vec<u8>| v@) + chunks_of(data@.skip(pos as int)),
        decreases data@.len() - pos,
    {
        let rest = Ghost(data@.skip(pos as int));
        let n = next_chunk_len((data.len() - pos) as u64) as usize;
        let piece = vstd::slice::slice_to_vec(vstd::slice::slice_subrange(data, pos, pos + n));
        proof {
            assert(piece@ =~= rest@.take(n as int));
            assert(rest@.skip(n as int) =~= data@.skip(pos + n));
        }
        let ghost before = out@;
        out.push(piece);
        proof {
            assert(out@.map_values(|v: Vec<u8>| v@) =~= before.map_values(|v: Vec<u8>| v@) + seq![piece@]);
        }
        pos = pos + n;
    }
    assert(data@.skip(pos as int).len() == 0);
    assert(chunks_of(data@) =~= out@.map_values(|v: Vec<u8>| v@));
    proof {
        assert forall|i: int| 0 <= i < out@.len() implies #[trigger] out@[i]@ == chunks_of(data@)[i] by {
            assert(out@.map_values(|v: Vec<u8>| v@)[i] == out@[i]@);
        }
    }
    out
}

} // verus!
