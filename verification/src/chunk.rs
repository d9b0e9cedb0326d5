//! Cutting the input into chunks that end where records end.

use vstd::prelude::*;
use vstd::slice::slice_subrange;
use crate::bytes::{find, lemma_position, position, NEWLINE};

verus! {

/// The chunk size to aim for where the caller has no reason for another.
pub const SLICE_SIZE: usize = 65536;

/// The length of the chunk at the head of `data`: up to and with the first
/// newline at or after offset `size`, or all of `data` where none follows.
pub open spec fn chunk_len(data: Seq<u8>, size: int) -> int {
    if size >= data.len() {
        data.len() as int
    } else {
        let n = size + position(data.skip(size), NEWLINE);
        if n < data.len() {
            n + 1
        } else {
            data.len() as int
        }
    }
}

/// The chunks of `data` for the target size `size`, in order.
pub open spec fn chunks(data: Seq<u8>, size: int) -> Seq<Seq<u8>>
    decreases data.len(),
{
    if data.len() == 0 {
        Seq::empty()
    } else {
        let n = chunk_len(data, size);
        if 0 < n < data.len() {
            seq![data.take(n)] + chunks(data.skip(n), size)
        } else {
            seq![data]
        }
    }
}

/// The spans of `cs` joined in order.
pub open spec fn concat(cs: Seq<Seq<u8>>) -> Seq<u8>
    decreases cs.len(),
{
    if cs.len() == 0 {
        Seq::empty()
    } else {
        concat(cs.drop_last()) + cs.last()
    }
}

/// Whether every span of `cs` but the last ends with a newline, and none is
/// empty.
pub open spec fn aligned(cs: Seq<Seq<u8>>) -> bool {
    &&& forall|i: int| 0 <= i < cs.len() ==> (#[trigger] cs[i]).len() > 0
    &&& forall|i: int| 0 <= i < cs.len() - 1 ==> (#[trigger] cs[i]).last() == NEWLINE
}

/// Whether every span of `cs` but the last is longer than `size`, and no
/// span holds a newline at offset `size` or after it, but as its last byte.
pub open spec fn sized(cs: Seq<Seq<u8>>, size: int) -> bool {
    &&& forall|i: int| 0 <= i < cs.len() - 1 ==> (#[trigger] cs[i]).len() > size
    &&& forall|i: int, j: int|
        #![trigger cs[i][j]]
        0 <= i < cs.len() && size <= j < cs[i].len() - 1 ==> cs[i][j] != NEWLINE
}

/// The bytes that the borrowed spans hold.
pub open spec fn views(spans: Seq<&[u8]>) -> Seq<Seq<u8>> {
    Seq::new(spans.len(), |i: int| spans[i]@)
}

/// The chunk at the head of non-empty data is not empty, lies within the
/// data, and ends with a newline unless it reaches the end of the data.
pub proof fn lemma_chunk_len(data: Seq<u8>, size: int)
    requires
        data.len() > 0,
        size >= 0,
    ensures
        0 < chunk_len(data, size) <= data.len(),
        chunk_len(data, size) < data.len() ==> data[chunk_len(data, size) - 1] == NEWLINE,
        chunk_len(data, size) < data.len() ==> chunk_len(data, size) > size,
        forall|j: int| size <= j < chunk_len(data, size) - 1 ==> data[j] != NEWLINE,
{
    if size < data.len() {
        let rest = data.skip(size);
        lemma_position(rest, NEWLINE);
        assert forall|j: int| size <= j < chunk_len(data, size) - 1 implies data[j] != NEWLINE by {
            assert(rest[j - size] == data[j]);
        }
    }
}

/// A span put before a run of spans is put before their join.
pub proof fn lemma_concat_head(head: Seq<u8>, tail: Seq<Seq<u8>>)
    ensures
        concat(seq![head] + tail) == head + concat(tail),
    decreases tail.len(),
{
    let all = seq![head] + tail;
    if tail.len() == 0 {
        assert(all.drop_last() =~= tail);
        assert(concat(all) =~= head + concat(tail));
    } else {
        assert(all.drop_last() =~= seq![head] + tail.drop_last());
        assert(all.last() == tail.last());
        lemma_concat_head(head, tail.drop_last());
        assert(concat(all) =~= head + concat(tail));
    }
}

/// **Chunks end where records end.** The chunks of `data` cover it exactly
/// once and in order, none is empty, and every chunk but the last ends with
/// a newline: no chunk boundary falls inside a record. Every chunk but the
/// last is longer than the target size, and ends with the first newline at
/// or after that offset.
pub proof fn lemma_chunks(data: Seq<u8>, size: int)
    requires
        size >= 0,
    ensures
        concat(chunks(data, size)) == data,
        aligned(chunks(data, size)),
        sized(chunks(data, size), size),
    decreases data.len(),
{
    if data.len() == 0 {
        assert(concat(chunks(data, size)) =~= data);
    } else {
        let n = chunk_len(data, size);
        lemma_chunk_len(data, size);
        if n < data.len() {
            let head = data.take(n);
            let tail = chunks(data.skip(n), size);
            lemma_chunks(data.skip(n), size);
            lemma_concat_head(head, tail);
            assert(head + data.skip(n) =~= data);
            let all = seq![head] + tail;
            assert forall|i: int| 0 <= i < all.len() implies (#[trigger] all[i]).len() > 0 by {
                if i > 0 {
                    assert(all[i] == tail[i - 1]);
                }
            }
            assert forall|i: int| 0 <= i < all.len() - 1 implies (#[trigger] all[i]).last()
                == NEWLINE by {
                if i > 0 {
                    assert(all[i] == tail[i - 1]);
                }
            }
            assert forall|i: int| 0 <= i < all.len() - 1 implies (#[trigger] all[i]).len()
                > size by {
                if i > 0 {
                    assert(all[i] == tail[i - 1]);
                }
            }
            assert forall|i: int, j: int|
                #![trigger all[i][j]]
                0 <= i < all.len() && size <= j < all[i].len() - 1 implies all[i][j]
                != NEWLINE by {
                if i > 0 {
                    assert(all[i] == tail[i - 1]);
                } else {
                    assert(head[j] == data[j]);
                }
            }
        } else {
            lemma_concat_head(data, Seq::empty());
            assert(seq![data] + Seq::<Seq<u8>>::empty() =~= seq![data]);
            assert(data + concat(Seq::<Seq<u8>>::empty()) =~= data);
        }
    }
}

/// Cuts `data` into chunks of at least `chunk_size` bytes each, but for the
/// last: a chunk runs on past `chunk_size` bytes up to and with the next
/// newline, or to the end of the data. The chunks borrow from `data`.
pub fn slice<'a>(data: &'a [u8], chunk_size: usize) -> (r: Vec<&'a [u8]>)
    ensures
        views(r@) == chunks(data@, chunk_size as int),
        concat(views(r@)) == data@,
        aligned(views(r@)),
        sized(views(r@), chunk_size as int),
{
    let len: usize = data.len();
    let mut out: Vec<&'a [u8]> = Vec::new();
    let mut start: usize = 0;
    assert(data@.skip(0) =~= data@);
    assert(views(out@) =~= Seq::<Seq<u8>>::empty());
    while start < len
        invariant
            start <= len,
            len == data@.len(),
            chunks(data@, chunk_size as int) == views(out@) + chunks(
                data@.skip(start as int),
                chunk_size as int,
            ),
        decreases len - start,
    {
        let ghost rest = data@.skip(start as int);
        let end: usize = if chunk_size >= len - start {
            len
        } else {
            let n: usize = find(data, start + chunk_size, NEWLINE);
            assert(rest.skip(chunk_size as int) =~= data@.skip(start + chunk_size));
            if n < len {
                n + 1
            } else {
                len
            }
        };
        proof {
            lemma_chunk_len(rest, chunk_size as int);
            assert(end - start == chunk_len(rest, chunk_size as int));
        }
        let chunk: &'a [u8] = slice_subrange(data, start, end);
        let ghost before = views(out@);
        out.push(chunk);
        proof {
            assert(views(out@) =~= before.push(chunk@));
            if end < len {
                assert(rest.take(end - start) =~= chunk@);
                assert(rest.skip(end - start) =~= data@.skip(end as int));
                assert(before + (seq![chunk@] + chunks(data@.skip(end as int), chunk_size as int))
                    =~= before.push(chunk@) + chunks(data@.skip(end as int), chunk_size as int));
            } else {
                assert(rest =~= chunk@);
                assert(chunks(data@.skip(end as int), chunk_size as int) =~= Seq::<
                    Seq<u8>,
                >::empty());
                assert(before + seq![chunk@] =~= before.push(chunk@) + Seq::<Seq<u8>>::empty());
            }
        }
        start = end;
    }
    proof {
        assert(chunks(data@.skip(start as int), chunk_size as int) =~= Seq::<Seq<u8>>::empty());
        assert(views(out@) + Seq::<Seq<u8>>::empty() =~= views(out@));
        lemma_chunks(data@, chunk_size as int);
    }
    out
}

} // verus!
