//! The block-placement engine: given a decoded transfer list and the raw
//! input stream, it lays the input's consecutive blocks into the `new`
//! ranges of a zero-filled image of exactly `max_end` blocks.

use vstd::prelude::*;
use crate::transfer_list::{
    ByteSegments, Command, ErrorModel, TextFileError, TransferList, TransferModel,
};

verus! {

/// The fixed size of a block in bytes.
pub const BLOCK_SIZE: usize = 4096;

/// The largest `end` of a range sequence, 0 if it is empty.
pub open spec fn max_end_seq(segs: Seq<ByteSegments>) -> int
    decreases segs.len(),
{
    if segs.len() == 0 {
        0
    } else {
        let m = max_end_seq(segs.drop_last());
        if segs.last().end > m {
            segs.last().end as int
        } else {
            m
        }
    }
}

/// The largest `end` across all ranges of all kinds: the output image's
/// length in blocks.
pub open spec fn spec_max_end(m: TransferModel) -> int {
    let a = max_end_seq(m.erase);
    let b = max_end_seq(m.new);
    let c = max_end_seq(m.zero);
    if a >= b && a >= c {
        a
    } else if b >= c {
        b
    } else {
        c
    }
}

/// Every `end` in a range sequence is bounded by the sequence's maximum,
/// and the maximum is never negative.
pub proof fn lemma_max_end_seq_bounds(segs: Seq<ByteSegments>)
    ensures
        max_end_seq(segs) >= 0,
        forall|i: int| 0 <= i < segs.len() ==> (#[trigger] segs[i]).end <= max_end_seq(segs),
    decreases segs.len(),
{
    if segs.len() > 0 {
        lemma_max_end_seq_bounds(segs.drop_last());
        assert(forall|i: int| 0 <= i < segs.len() - 1 ==> segs[i] == segs.drop_last()[i]);
    }
}

fn max_end_vec(segs: &Vec<ByteSegments>) -> (r: usize)
    ensures
        r == max_end_seq(segs@),
{
    let mut m: usize = 0;
    let mut i: usize = 0;
    proof {
        assert(segs@.take(0) =~= Seq::<ByteSegments>::empty());
    }
    while i < segs.len()
        invariant
            0 <= i <= segs@.len(),
            m == max_end_seq(segs@.take(i as int)),
        decreases segs@.len() - i,
    {
        proof {
            assert(segs@.take(i + 1).drop_last() =~= segs@.take(i as int));
            assert(segs@.take(i + 1).last() == segs@[i as int]);
        }
        if segs[i].end > m {
            m = segs[i].end;
        }
        i = i + 1;
    }
    proof {
        assert(segs@.take(i as int) =~= segs@);
    }
    m
}

/// The ranges of `segs`, each tagged with the kind `k`.
pub open spec fn tagged(k: Command, segs: Seq<ByteSegments>) -> Seq<(Command, ByteSegments)> {
    segs.map_values(|s: ByteSegments| (k, s))
}

fn push_tagged(out: &mut Vec<(Command, ByteSegments)>, k: Command, segs: &Vec<ByteSegments>)
    ensures
        final(out)@ == old(out)@ + tagged(k, segs@),
{
    let mut i: usize = 0;
    proof {
        assert(out@ + tagged(k, segs@.take(0)) =~= out@);
        assert(segs@.take(0) =~= Seq::<ByteSegments>::empty());
        assert(tagged(k, segs@.take(0)) =~= Seq::<(Command, ByteSegments)>::empty());
    }
    while i < segs.len()
        invariant
            0 <= i <= segs@.len(),
            out@ == old(out)@ + tagged(k, segs@.take(i as int)),
        decreases segs@.len() - i,
    {
        out.push((k, segs[i]));
        proof {
            assert(segs@.take(i + 1) =~= segs@.take(i as int).push(segs@[i as int]));
            assert(tagged(k, segs@.take(i + 1)) =~= tagged(k, segs@.take(i as int)).push(
                (k, segs@[i as int]),
            ));
            assert(out@ =~= old(out)@ + tagged(k, segs@.take(i + 1)));
        }
        i = i + 1;
    }
    proof {
        assert(segs@.take(i as int) =~= segs@);
    }
}

impl TransferList {
    /// The largest `end` across all ranges of all kinds, 0 for an empty
    /// command set.
    pub fn max(&self) -> (r: usize)
        ensures
            r == spec_max_end(self@),
    {
        let a = max_end_vec(&self.erase);
        let b = max_end_vec(&self.new);
        let c = max_end_vec(&self.zero);
        if a >= b && a >= c {
            a
        } else if b >= c {
            b
        } else {
            c
        }
    }

    /// The command set flattened for iteration: kinds in the fixed order
    /// `erase`, `new`, `zero`, ranges within a kind in manifest order.
    pub fn for_each_command(&self) -> (r: Vec<(Command, ByteSegments)>)
        ensures
            r@ == tagged(Command::Erase, self@.erase) + tagged(Command::New, self@.new) + tagged(
                Command::Zero,
                self@.zero,
            ),
    {
        let mut out: Vec<(Command, ByteSegments)> = Vec::new();
        proof {
            assert(out@ =~= Seq::<(Command, ByteSegments)>::empty());
        }
        push_tagged(&mut out, Command::Erase, &self.erase);
        proof {
            assert(out@ =~= tagged(Command::Erase, self@.erase));
        }
        push_tagged(&mut out, Command::New, &self.new);
        push_tagged(&mut out, Command::Zero, &self.zero);
        proof {
            assert(out@ =~= tagged(Command::Erase, self@.erase) + tagged(Command::New, self@.new)
                + tagged(Command::Zero, self@.zero));
        }
        out
    }
}

/// A zero-filled image of `max_end` blocks.
pub open spec fn zero_image(max_end: int) -> Seq<u8> {
    Seq::new((max_end * 4096) as nat, |k: int| 0u8)
}

/// `img` with the byte span of range `seg` replaced by the bytes of
/// `input` starting at `pos`; everything else unchanged.
pub open spec fn spec_write_range(img: Seq<u8>, seg: ByteSegments, input: Seq<u8>, pos: int) -> Seq<
    u8,
> {
    Seq::new(
        img.len(),
        |k: int|
            if seg.begin * 4096 <= k < seg.end * 4096 {
                input[pos + (k - seg.begin * 4096)]
            } else {
                img[k]
            },
    )
}

/// The image after writing each range of `segs` in order, drawing input
/// bytes consecutively starting at `pos`.
pub open spec fn spec_build_rec(
    segs: Seq<ByteSegments>,
    img: Seq<u8>,
    input: Seq<u8>,
    pos: int,
) -> Seq<u8>
    decreases segs.len(),
{
    if segs.len() == 0 {
        img
    } else {
        spec_build_rec(
            segs.drop_first(),
            spec_write_range(img, segs[0], input, pos),
            input,
            pos + (segs[0].end - segs[0].begin) * 4096,
        )
    }
}

/// The number of input bytes the ranges of `segs` consume.
pub open spec fn new_bytes_total(segs: Seq<ByteSegments>) -> int
    decreases segs.len(),
{
    if segs.len() == 0 {
        0
    } else {
        (segs[0].end - segs[0].begin) * 4096 + new_bytes_total(segs.drop_first())
    }
}

/// The image a command set and an input stream determine: a zero image of
/// `max_end` blocks with the `new` ranges filled from the input in order.
pub open spec fn spec_build(m: TransferModel, input: Seq<u8>) -> Seq<u8> {
    spec_build_rec(m.new, zero_image(spec_max_end(m)), input, 0)
}

/// Valid ranges consume a non-negative number of bytes.
pub proof fn lemma_new_bytes_total_nonneg(segs: Seq<ByteSegments>)
    requires
        forall|i: int| 0 <= i < segs.len() ==> (#[trigger] segs[i]).wf(),
    ensures
        new_bytes_total(segs) >= 0,
    decreases segs.len(),
{
    if segs.len() > 0 {
        assert(segs[0].wf());
        assert(forall|i: int|
            0 <= i < segs.drop_first().len() ==> #[trigger] segs.drop_first()[i] == segs[i + 1]);
        lemma_new_bytes_total_nonneg(segs.drop_first());
    }
}

/// Build the output image in memory: a zero-filled buffer of exactly
/// `max_end` blocks whose `new` ranges hold the input's consecutive
/// blocks. Fails with a truncation error exactly when the input holds
/// fewer bytes than the `new` ranges consume.
pub fn build_image(tl: &TransferList, input: &[u8]) -> (r: Result<Vec<u8>, TextFileError>)
    requires
        tl@.wf(),
        spec_max_end(tl@) * 4096 <= usize::MAX,
    ensures
        match r {
            Ok(img) => input@.len() >= new_bytes_total(tl@.new) && img@ == spec_build(tl@, input@)
                && img@.len() == spec_max_end(tl@) * 4096,
            Err(e) => input@.len() < new_bytes_total(tl@.new) && e@ == (ErrorModel {
                message: "Truncated input stream"@,
                fragment: Seq::<u8>::empty(),
            }),
        },
{
    let max_blocks = tl.max();
    proof {
        lemma_max_end_seq_bounds(tl@.new);
    }
    let total: usize = max_blocks * BLOCK_SIZE;
    let mut img: Vec<u8> = Vec::new();
    while img.len() < total
        invariant
            img@.len() <= total,
            forall|k: int| 0 <= k < img@.len() ==> img@[k] == 0u8,
        decreases total - img@.len(),
    {
        img.push(0u8);
    }
    proof {
        assert(img@ =~= zero_image(spec_max_end(tl@)));
        assert(tl@.new.skip(0) =~= tl@.new);
        lemma_new_bytes_total_nonneg(tl@.new);
    }
    let mut pos: usize = 0;
    let mut i: usize = 0;
    while i < tl.new.len()
        invariant
            0 <= i <= tl.new@.len(),
            tl@.wf(),
            spec_max_end(tl@) * 4096 <= usize::MAX,
            img@.len() == spec_max_end(tl@) * 4096,
            pos + new_bytes_total(tl@.new.skip(i as int)) == new_bytes_total(tl@.new),
            pos <= input@.len(),
            spec_build(tl@, input@) == spec_build_rec(
                tl@.new.skip(i as int),
                img@,
                input@,
                pos as int,
            ),
        decreases tl.new@.len() - i,
    {
        let seg = tl.new[i];
        proof {
            assert(tl@.new[i as int].wf());
            lemma_max_end_seq_bounds(tl@.new);
            assert(seg.end <= spec_max_end(tl@));
            assert(tl@.new.skip(i as int)[0] == tl@.new[i as int]);
            assert(tl@.new.skip(i as int).drop_first() =~= tl@.new.skip(i + 1));
            assert(forall|k: int|
                0 <= k < tl@.new.skip(i + 1).len() ==> #[trigger] tl@.new.skip(i + 1)[k]
                    == tl@.new[k + i + 1]);
            lemma_new_bytes_total_nonneg(tl@.new.skip(i + 1));
        }
        let count = seg.end - seg.begin;
        let nbytes = count * BLOCK_SIZE;
        let input_len = input.len();
        if input_len - pos < nbytes {
            return Err(TextFileError::new("Truncated input stream"));
        }
        let dst0 = seg.begin * BLOCK_SIZE;
        let ghost img0 = img@;
        let mut j: usize = 0;
        while j < nbytes
            invariant
                0 <= j <= nbytes,
                dst0 == seg.begin * 4096,
                dst0 + nbytes <= img@.len(),
                img@.len() <= usize::MAX,
                pos + nbytes <= input@.len(),
                input@.len() == input_len,
                img@.len() == img0.len(),
                forall|k: int|
                    0 <= k < img@.len() ==> img@[k] == (if dst0 <= k < dst0 + j {
                        input@[pos + (k - dst0)]
                    } else {
                        img0[k]
                    }),
            decreases nbytes - j,
        {
            let byte = input[pos + j];
            img.set(dst0 + j, byte);
            j = j + 1;
        }
        proof {
            assert(nbytes == (seg.end - seg.begin) * 4096);
            assert(dst0 + nbytes == seg.end * 4096);
            assert(img@ =~= spec_write_range(img0, seg, input@, pos as int));
        }
        pos = pos + nbytes;
        i = i + 1;
    }
    proof {
        assert(tl@.new.skip(i as int) =~= Seq::<ByteSegments>::empty());
        assert(new_bytes_total(tl@.new.skip(i as int)) == 0);
    }
    Ok(img)
}

/// Some range of `segs` covers the image byte offset `o`.
pub open spec fn covers(segs: Seq<ByteSegments>, o: int) -> bool {
    exists|i: int| 0 <= i < segs.len() && (#[trigger] segs[i]).begin * 4096 <= o < segs[i].end * 4096
}

/// Writing the ranges of `segs` touches only covered offsets: at an
/// uncovered offset the image keeps its prior byte, and its length never
/// changes.
pub proof fn lemma_build_rec_untouched(
    segs: Seq<ByteSegments>,
    img: Seq<u8>,
    input: Seq<u8>,
    pos: int,
    o: int,
)
    requires
        0 <= o < img.len(),
        !covers(segs, o),
    ensures
        spec_build_rec(segs, img, input, pos).len() == img.len(),
        spec_build_rec(segs, img, input, pos)[o] == img[o],
    decreases segs.len(),
{
    if segs.len() > 0 {
        let img2 = spec_write_range(img, segs[0], input, pos);
        assert(!(segs[0].begin * 4096 <= o < segs[0].end * 4096));
        assert(img2[o] == img[o]);
        assert(!covers(segs.drop_first(), o)) by {
            if covers(segs.drop_first(), o) {
                let i = choose|i: int|
                    0 <= i < segs.drop_first().len() && (#[trigger] segs.drop_first()[i]).begin
                        * 4096 <= o < segs.drop_first()[i].end * 4096;
                assert(segs[i + 1] == segs.drop_first()[i]);
                assert(covers(segs, o));
            }
        }
        lemma_build_rec_untouched(
            segs.drop_first(),
            img2,
            input,
            pos + (segs[0].end - segs[0].begin) * 4096,
            o,
        );
    }
}

/// Every byte of the built image that no `new` range covers is zero,
/// whatever the input stream holds.
pub proof fn lemma_uncovered_byte_zero(m: TransferModel, input: Seq<u8>, o: int)
    requires
        0 <= o < spec_max_end(m) * 4096,
        !covers(m.new, o),
    ensures
        spec_build(m, input)[o] == 0,
{
    lemma_build_rec_untouched(m.new, zero_image(spec_max_end(m)), input, 0, o);
}

/// No two ranges of `segs` share a block.
pub open spec fn pairwise_disjoint(segs: Seq<ByteSegments>) -> bool {
    forall|i: int, j: int|
        0 <= i < segs.len() && 0 <= j < segs.len() && i != j ==> (#[trigger] segs[i]).end <= (
        #[trigger] segs[j]).begin || segs[j].end <= segs[i].begin
}

/// The byte offset into the input stream at which the `i`-th range's data
/// begins: the bytes all earlier ranges consume.
pub open spec fn chunk_offset(segs: Seq<ByteSegments>, i: int) -> int {
    new_bytes_total(segs.take(i))
}

/// After writing disjoint, in-bounds ranges in order, the byte span of the
/// `i`-th range holds exactly the `i`-th consecutive chunk of the input.
proof fn lemma_build_rec_reads(
    segs: Seq<ByteSegments>,
    img: Seq<u8>,
    input: Seq<u8>,
    pos: int,
    i: int,
)
    requires
        forall|k: int| 0 <= k < segs.len() ==> (#[trigger] segs[k]).wf(),
        pairwise_disjoint(segs),
        forall|k: int| 0 <= k < segs.len() ==> (#[trigger] segs[k]).end * 4096 <= img.len(),
        0 <= pos,
        pos + new_bytes_total(segs) <= input.len(),
        0 <= i < segs.len(),
    ensures
        spec_build_rec(segs, img, input, pos).subrange(segs[i].begin * 4096, segs[i].end * 4096)
            == input.subrange(
            pos + chunk_offset(segs, i),
            pos + chunk_offset(segs, i) + (segs[i].end - segs[i].begin) * 4096,
        ),
    decreases i,
{
    let rest = segs.drop_first();
    let img2 = spec_write_range(img, segs[0], input, pos);
    let pos2 = pos + (segs[0].end - segs[0].begin) * 4096;
    let result = spec_build_rec(segs, img, input, pos);
    assert(forall|k: int| 0 <= k < rest.len() ==> #[trigger] rest[k] == segs[k + 1]);
    assert(forall|k: int| 0 <= k < rest.len() ==> (#[trigger] rest[k]).wf());
    assert(forall|k: int| 0 <= k < rest.len() ==> (#[trigger] rest[k]).end * 4096 <= img2.len());
    assert(pairwise_disjoint(rest));
    assert(result == spec_build_rec(rest, img2, input, pos2));
    lemma_new_bytes_total_nonneg(rest);
    if i == 0 {
        let b = segs[0].begin * 4096;
        let e = segs[0].end * 4096;
        assert(segs.take(0) =~= Seq::<ByteSegments>::empty());
        assert(chunk_offset(segs, 0) == 0);
        assert forall|o: int| b <= o < e implies result[o] == input[pos + (o - b)] by {
            assert(!covers(rest, o)) by {
                if covers(rest, o) {
                    let k = choose|k: int|
                        0 <= k < rest.len() && (#[trigger] rest[k]).begin * 4096 <= o < rest[k].end
                            * 4096;
                    assert(segs[k + 1].end <= segs[0].begin || segs[0].end <= segs[k + 1].begin);
                }
            }
            lemma_build_rec_untouched(rest, img2, input, pos2, o);
            assert(img2[o] == input[pos + (o - b)]);
        }
        lemma_build_rec_len(segs, img, input, pos);
        assert(result.subrange(b, e) =~= input.subrange(pos, pos + (e - b)));
    } else {
        lemma_build_rec_reads(rest, img2, input, pos2, i - 1);
        assert(segs[i] == rest[i - 1]);
        assert(chunk_offset(segs, i) == (segs[0].end - segs[0].begin) * 4096 + chunk_offset(
            rest,
            i - 1,
        )) by {
            assert(segs.take(i) =~= seq![segs[0]] + rest.take(i - 1));
            assert((seq![segs[0]] + rest.take(i - 1)).drop_first() =~= rest.take(i - 1));
            assert(new_bytes_total(seq![segs[0]] + rest.take(i - 1)) == (segs[0].end
                - segs[0].begin) * 4096 + new_bytes_total(rest.take(i - 1)));
        }
    }
}

/// The built image has exactly the length of the image it starts from.
proof fn lemma_build_rec_len(segs: Seq<ByteSegments>, img: Seq<u8>, input: Seq<u8>, pos: int)
    ensures
        spec_build_rec(segs, img, input, pos).len() == img.len(),
    decreases segs.len(),
{
    if segs.len() > 0 {
        lemma_build_rec_len(
            segs.drop_first(),
            spec_write_range(img, segs[0], input, pos),
            input,
            pos + (segs[0].end - segs[0].begin) * 4096,
        );
    }
}

/// Round trip: when the `new` ranges are pairwise disjoint and the input
/// stream holds the bytes they consume, the byte span of the `i`-th `new`
/// range in the built image is exactly the `i`-th consecutive chunk of the
/// input. Extracting the `new` ranges in order therefore reproduces the
/// input stream byte for byte.
pub proof fn lemma_round_trip(m: TransferModel, input: Seq<u8>, i: int)
    requires
        m.wf(),
        pairwise_disjoint(m.new),
        new_bytes_total(m.new) <= input.len(),
        0 <= i < m.new.len(),
    ensures
        spec_build(m, input).subrange(m.new[i].begin * 4096, m.new[i].end * 4096)
            == input.subrange(
            chunk_offset(m.new, i),
            chunk_offset(m.new, i) + (m.new[i].end - m.new[i].begin) * 4096,
        ),
{
    lemma_max_end_seq_bounds(m.new);
    assert(forall|k: int|
        0 <= k < m.new.len() ==> (#[trigger] m.new[k]).end * 4096 <= zero_image(
            spec_max_end(m),
        ).len());
    lemma_build_rec_reads(m.new, zero_image(spec_max_end(m)), input, 0, i);
}

/// The bytes of `img` at each range of `segs`, concatenated in order.
pub open spec fn extract_ranges(img: Seq<u8>, segs: Seq<ByteSegments>) -> Seq<u8>
    decreases segs.len(),
{
    if segs.len() == 0 {
        Seq::<u8>::empty()
    } else {
        img.subrange(segs[0].begin * 4096, segs[0].end * 4096) + extract_ranges(
            img,
            segs.drop_first(),
        )
    }
}

/// The input bytes split at position `j`: what the first `j` ranges
/// consume plus what the rest consume is what all of them consume.
proof fn lemma_total_decompose(segs: Seq<ByteSegments>, j: int)
    requires
        0 <= j <= segs.len(),
    ensures
        new_bytes_total(segs) == new_bytes_total(segs.take(j)) + new_bytes_total(segs.skip(j)),
    decreases j,
{
    if j == 0 {
        assert(segs.take(0) =~= Seq::<ByteSegments>::empty());
        assert(segs.skip(0) =~= segs);
    } else {
        let rest = segs.drop_first();
        lemma_total_decompose(rest, j - 1);
        assert(segs.take(j)[0] == segs[0]);
        assert(segs.take(j).drop_first() =~= rest.take(j - 1));
        assert(segs.skip(j) =~= rest.skip(j - 1));
    }
}

/// Extracting the suffix of the `new` ranges from position `j` on yields
/// the corresponding suffix of the input stream.
proof fn lemma_extract_suffix(m: TransferModel, input: Seq<u8>, img: Seq<u8>, j: int)
    requires
        m.wf(),
        pairwise_disjoint(m.new),
        new_bytes_total(m.new) <= input.len(),
        img == spec_build(m, input),
        0 <= j <= m.new.len(),
    ensures
        extract_ranges(img, m.new.skip(j)) == input.subrange(
            chunk_offset(m.new, j),
            new_bytes_total(m.new),
        ),
    decreases m.new.len() - j,
{
    let segs = m.new;
    let total = new_bytes_total(segs);
    lemma_total_decompose(segs, j);
    assert(forall|k: int|
        0 <= k < segs.skip(j).len() ==> #[trigger] segs.skip(j)[k] == segs[k + j]);
    assert(forall|k: int| 0 <= k < segs.skip(j).len() ==> (#[trigger] segs.skip(j)[k]).wf());
    lemma_new_bytes_total_nonneg(segs.skip(j));
    assert(forall|k: int| 0 <= k < segs.take(j).len() ==> #[trigger] segs.take(j)[k] == segs[k]);
    assert(forall|k: int| 0 <= k < segs.take(j).len() ==> (#[trigger] segs.take(j)[k]).wf());
    lemma_new_bytes_total_nonneg(segs.take(j));
    if j == segs.len() {
        assert(segs.skip(j) =~= Seq::<ByteSegments>::empty());
        assert(input.subrange(chunk_offset(segs, j), total) =~= Seq::<u8>::empty());
    } else {
        let off = chunk_offset(segs, j);
        let size_bytes = (segs[j].end - segs[j].begin) * 4096;
        assert(segs.skip(j)[0] == segs[j]);
        assert(segs.skip(j).drop_first() =~= segs.skip(j + 1));
        assert(new_bytes_total(segs.skip(j)) == size_bytes + new_bytes_total(segs.skip(j + 1)));
        lemma_total_decompose(segs, j + 1);
        assert(chunk_offset(segs, j + 1) == off + size_bytes);
        lemma_new_bytes_total_nonneg(segs.skip(j + 1));
        lemma_round_trip(m, input, j);
        lemma_extract_suffix(m, input, img, j + 1);
        assert(extract_ranges(img, segs.skip(j)) == img.subrange(
            segs[j].begin * 4096,
            segs[j].end * 4096,
        ) + extract_ranges(img, segs.skip(j + 1)));
        assert(input.subrange(off, off + size_bytes) + input.subrange(off + size_bytes, total)
            =~= input.subrange(off, total));
    }
}

/// Round trip, whole stream: when the `new` ranges are pairwise disjoint
/// and the input holds exactly the bytes they consume, extracting the
/// `new` ranges of the built image in order reproduces the input stream
/// byte for byte.
pub proof fn lemma_round_trip_full(m: TransferModel, input: Seq<u8>)
    requires
        m.wf(),
        pairwise_disjoint(m.new),
        new_bytes_total(m.new) == input.len(),
    ensures
        extract_ranges(spec_build(m, input), m.new) == input,
{
    lemma_extract_suffix(m, input, spec_build(m, input), 0);
    assert(m.new.skip(0) =~= m.new);
    assert(m.new.take(0) =~= Seq::<ByteSegments>::empty());
    assert(input.subrange(0, new_bytes_total(m.new)) =~= input);
}

/// Idempotence: the built image is a function of the command set and the
/// input stream alone, so two builds from the same inputs are identical
/// bit for bit.
pub proof fn lemma_build_deterministic(
    m: TransferModel,
    input: Seq<u8>,
    img1: Seq<u8>,
    img2: Seq<u8>,
)
    requires
        img1 == spec_build(m, input),
        img2 == spec_build(m, input),
    ensures
        img1 == img2,
{
}

} // verus!
