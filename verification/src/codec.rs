//! The index-stream codec: the encoder that chains segmenter and compactor,
//! the decoder that expands the bytes again, and the proof that decoding
//! gives back what was encoded.

use crate::compact::{compact, compact_spec, is_absorbing, is_alternating, lend_one};
use crate::layout::{
    copy_byte, expand_byte, lemma_expand_byte_bounds, lemma_expand_copy_byte,
    lemma_expand_pair_byte, lemma_expand_range_byte, pair_byte, range_byte,
};
use crate::range::{all_indices, all_valid, expand, repeat, PixelRange};
use crate::segment::{
    lemma_run_len_unique, lemma_segments_expand, lemma_segments_valid, run_len, segment, segments,
};
use vstd::prelude::*;

verus! {

/// The encoded bytes of an index stream: its runs, compacted.
pub open spec fn encode_spec(indices: Seq<u8>) -> Seq<u8> {
    compact_spec(segments(indices))
}

/// The index stream that encoded bytes stand for: each byte expanded, in
/// order.
pub open spec fn decode_spec(bytes: Seq<u8>) -> Seq<u8>
    decreases bytes.len(),
{
    if bytes.len() == 0 {
        Seq::empty()
    } else {
        expand_byte(bytes[0]) + decode_spec(bytes.skip(1))
    }
}

/// Decoding a byte followed by a stream expands the byte, then the stream.
pub proof fn lemma_decode_first(byte: u8, bytes: Seq<u8>)
    ensures
        decode_spec(seq![byte] + bytes) == expand_byte(byte) + decode_spec(bytes),
{
    assert((seq![byte] + bytes).skip(1) =~= bytes);
}

/// Whatever the bytes, they decode to palette indices.
pub proof fn lemma_decode_indices(bytes: Seq<u8>)
    ensures
        all_indices(decode_spec(bytes)),
    decreases bytes.len(),
{
    if bytes.len() != 0 {
        lemma_expand_byte_bounds(bytes[0]);
        lemma_decode_indices(bytes.skip(1));
    }
}

/// The bytes of a run sequence decode to the pixels that the runs stand for.
pub proof fn lemma_decode_compact(ranges: Seq<PixelRange>)
    requires
        all_valid(ranges),
    ensures
        decode_spec(compact_spec(ranges)) == expand(ranges),
    decreases ranges.len(),
{
    if ranges.len() == 0 {
        assert(decode_spec(compact_spec(ranges)) =~= expand(ranges));
    } else if ranges[0].run == 0 {
        lemma_decode_compact(ranges.skip(1));
        assert(expand(ranges) =~= expand(ranges.skip(1)));
    } else if is_alternating(ranges) {
        let a = ranges[0].color;
        let b = ranges[1].color;
        let rest = ranges.skip(4);
        lemma_decode_compact(rest);
        lemma_decode_first(copy_byte(a, b), compact_spec(rest));
        lemma_expand_copy_byte(a, b);
        let r1 = ranges.skip(1);
        let r2 = r1.skip(1);
        let r3 = r2.skip(1);
        assert(r1[0] == ranges[1] && r2[0] == ranges[2] && r3[0] == ranges[3]);
        assert(r3.skip(1) =~= rest);
        assert(expand(r3) =~= seq![b] + expand(rest));
        assert(expand(r2) =~= seq![a, b] + expand(rest));
        assert(expand(r1) =~= seq![b, a, b] + expand(rest));
        assert(expand(ranges) =~= seq![a, b, a, b] + expand(rest));
    } else if is_absorbing(ranges) {
        let a = ranges[0].color;
        let b = ranges[1].color;
        let next = seq![lend_one(ranges[1])] + ranges.skip(2);
        assert(all_valid(next)) by {
            assert forall|i: int| 0 <= i < next.len() implies (#[trigger] next[i]).valid() by {
                if i > 0 {
                    assert(next[i] == ranges[i + 1]);
                } else {
                    assert(ranges[1].valid());
                }
            }
        }
        lemma_decode_compact(next);
        lemma_decode_first(pair_byte(a, b), compact_spec(next));
        lemma_expand_pair_byte(a, b);
        let r1 = ranges.skip(1);
        assert(r1[0] == ranges[1]);
        assert(r1.skip(1) =~= ranges.skip(2));
        assert(next.skip(1) =~= ranges.skip(2));
        assert(expand(next) =~= repeat(b, (ranges[1].run - 1) as nat) + expand(ranges.skip(2)));
        assert(expand(r1) =~= repeat(b, ranges[1].run as nat) + expand(ranges.skip(2)));
        assert(expand(ranges) =~= seq![a, b] + expand(next));
    } else {
        let rest = ranges.skip(1);
        lemma_decode_compact(rest);
        lemma_decode_first(range_byte(ranges[0].run, ranges[0].color), compact_spec(rest));
        lemma_expand_range_byte(ranges[0].run, ranges[0].color);
    }
}

/// Round trip: decoding the encoded bytes of an index stream gives the
/// stream back, pixel for pixel.
pub proof fn theorem_round_trip(indices: Seq<u8>)
    requires
        all_indices(indices),
    ensures
        decode_spec(encode_spec(indices)) == indices,
{
    lemma_segments_valid(indices);
    lemma_decode_compact(segments(indices));
    lemma_segments_expand(indices);
}

/// Encoding is a function of the index stream alone: equal streams give
/// equal bytes.
pub proof fn theorem_encode_deterministic(first: Seq<u8>, second: Seq<u8>)
    requires
        first == second,
    ensures
        encode_spec(first) == encode_spec(second),
{
}

/// The runs of a stream that is one run of at most fifteen pixels.
proof fn lemma_segments_of_run(color: u8, count: nat)
    requires
        1 <= count <= 15,
    ensures
        segments(repeat(color, count)) == seq![PixelRange { run: count as u8, color }],
{
    let s = repeat(color, count);
    lemma_run_len_unique(s, count);
    assert(s.skip(count as int) =~= Seq::<u8>::empty());
    assert(segments(s.skip(count as int)) =~= Seq::<PixelRange>::empty());
    assert(segments(s) =~= seq![PixelRange { run: count as u8, color }]);
}

/// The bytes of a lone run: its range byte.
proof fn lemma_compact_of_run(range: PixelRange)
    requires
        range.run != 0,
    ensures
        compact_spec(seq![range]) == seq![range_byte(range.run, range.color)],
{
    let rs = seq![range];
    assert(rs.skip(1) =~= Seq::<PixelRange>::empty());
    assert(compact_spec(rs.skip(1)) =~= Seq::<u8>::empty());
    assert(compact_spec(rs) =~= seq![range_byte(range.run, range.color)]);
}

/// A stream of one pixel encodes to one range byte with a run of one.
pub proof fn lemma_encode_single_pixel(color: u8)
    ensures
        encode_spec(seq![color]) == seq![range_byte(1, color)],
{
    assert(seq![color] =~= repeat(color, 1));
    lemma_segments_of_run(color, 1);
    lemma_compact_of_run(PixelRange { run: 1, color });
}

/// Four pixels that alternate between two indices encode to one colour
/// byte with the copy flag.
pub proof fn lemma_encode_alternating(first: u8, second: u8)
    requires
        first != second,
    ensures
        encode_spec(seq![first, second, first, second]) == seq![copy_byte(first, second)],
{
    let s = seq![first, second, first, second];
    let one = |color: u8| PixelRange { run: 1, color };
    let s1 = s.skip(1);
    let s2 = s1.skip(1);
    let s3 = s2.skip(1);
    assert(s1 =~= seq![second, first, second]);
    assert(s2 =~= seq![first, second]);
    assert(s3 =~= seq![second]);
    assert(s3.skip(1) =~= Seq::<u8>::empty());
    assert(run_len(s) == 1 && run_len(s1) == 1 && run_len(s2) == 1 && run_len(s3) == 1);
    assert(segments(s3.skip(1)) =~= Seq::<PixelRange>::empty());
    assert(segments(s3) =~= seq![one(second)]);
    assert(segments(s2) =~= seq![one(first), one(second)]);
    assert(segments(s1) =~= seq![one(second), one(first), one(second)]);
    let runs = seq![one(first), one(second), one(first), one(second)];
    assert(segments(s) =~= runs);
    assert(runs.skip(4) =~= Seq::<PixelRange>::empty());
    assert(compact_spec(runs.skip(4)) =~= Seq::<u8>::empty());
    assert(compact_spec(runs) =~= seq![copy_byte(first, second)]);
}

/// A run of five pixels followed by one other pixel encodes to two range
/// bytes: the single pixel at the end has no run to borrow from.
pub proof fn lemma_encode_run_then_single(first: u8, second: u8)
    requires
        first != second,
    ensures
        encode_spec(repeat(first, 5).push(second)) == seq![
            range_byte(5, first),
            range_byte(1, second),
        ],
{
    let s = repeat(first, 5).push(second);
    lemma_run_len_unique(s, 5);
    assert(s.skip(5) =~= repeat(second, 1));
    lemma_segments_of_run(second, 1);
    let runs = seq![PixelRange { run: 5, color: first }, PixelRange { run: 1, color: second }];
    assert(segments(s) =~= runs);
    assert(runs.skip(1) =~= seq![PixelRange { run: 1, color: second }]);
    lemma_compact_of_run(PixelRange { run: 1, color: second });
    assert(compact_spec(runs) =~= seq![range_byte(5, first), range_byte(1, second)]);
}

/// Twenty equal pixels encode to two range bytes: a full run of fifteen,
/// then the five that are left.
pub proof fn lemma_encode_run_cap(color: u8)
    ensures
        encode_spec(repeat(color, 20)) == seq![range_byte(15, color), range_byte(5, color)],
{
    let s = repeat(color, 20);
    lemma_run_len_unique(s, 15);
    assert(s.skip(15) =~= repeat(color, 5));
    lemma_segments_of_run(color, 5);
    let runs = seq![PixelRange { run: 15, color }, PixelRange { run: 5, color }];
    assert(segments(s) =~= runs);
    assert(runs.skip(1) =~= seq![PixelRange { run: 5, color }]);
    lemma_compact_of_run(PixelRange { run: 5, color });
    assert(compact_spec(runs) =~= seq![range_byte(15, color), range_byte(5, color)]);
}

/// Encodes an index stream.
pub fn encode_indices(indices: &[u8]) -> (bytes: Vec<u8>)
    requires
        all_indices(indices@),
    ensures
        bytes@ == encode_spec(indices@),
        decode_spec(bytes@) == indices@,
{
    let ranges = segment(indices);
    proof {
        theorem_round_trip(indices@);
    }
    compact(ranges.as_slice())
}

/// Decodes encoded bytes to the index stream they stand for.
pub fn decode(bytes: &[u8]) -> (indices: Vec<u8>)
    ensures
        indices@ == decode_spec(bytes@),
        all_indices(indices@),
{
    let mut indices: Vec<u8> = Vec::new();
    let mut i: usize = 0;
    proof {
        assert(indices@ + decode_spec(bytes@.skip(0)) =~= decode_spec(bytes@)) by {
            assert(bytes@.skip(0) =~= bytes@);
        }
    }
    while i < bytes.len()
        invariant
            i <= bytes.len(),
            indices@ + decode_spec(bytes@.skip(i as int)) == decode_spec(bytes@),
        decreases bytes.len() - i,
    {
        let byte = bytes[i];
        let ghost earlier = indices@;
        let ghost rest = bytes@.skip(i + 1);
        proof {
            assert(bytes@.skip(i as int) =~= seq![byte] + rest);
            lemma_decode_first(byte, rest);
        }
        let low = byte & 0x07;
        assert(low == byte % 8) by (bit_vector)
            requires
                low == byte & 0x07,
        ;
        if byte & 0x80 != 0 {
            let run = (byte >> 3) & 0x0f;
            assert(byte >= 128 && run == (byte / 8) % 16) by (bit_vector)
                requires
                    byte & 0x80 != 0,
                    run == (byte >> 3) & 0x0f,
            ;
            let mut k: u8 = 0;
            while k < run
                invariant
                    k <= run,
                    indices@ == earlier + repeat(low, k as nat),
                decreases run - k,
            {
                indices.push(low);
                k += 1;
                assert(indices@ =~= earlier + repeat(low, k as nat));
            }
        } else {
            let high = (byte >> 4) & 0x07;
            let copy = byte & 0x08 != 0;
            assert(byte < 128 && high == (byte / 16) % 8 && (copy <==> (byte / 8) % 2 == 1))
                by (bit_vector)
                requires
                    byte & 0x80 == 0,
                    high == (byte >> 4) & 0x07,
                    copy <==> byte & 0x08 != 0,
            ;
            indices.push(high);
            indices.push(low);
            if copy {
                indices.push(high);
                indices.push(low);
                assert(indices@ =~= earlier + seq![high, low, high, low]);
            } else {
                assert(indices@ =~= earlier + seq![high, low]);
            }
        }
        assert(indices@ == earlier + expand_byte(byte));
        assert(indices@ + decode_spec(rest) =~= earlier + (expand_byte(byte) + decode_spec(rest)));
        i += 1;
    }
    proof {
        assert(bytes@.skip(i as int) =~= Seq::<u8>::empty());
        assert(indices@ + decode_spec(Seq::<u8>::empty()) =~= indices@);
        lemma_decode_indices(bytes@);
    }
    indices
}

} // verus!
