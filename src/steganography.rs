//! Embedding a payload in an image's low channel bits and extracting it again.
use vstd::prelude::*;
use vstd::string::StringSliceAdditionalSpecFns;
use vstd::utf8::{valid_utf8, decode_utf8, encode_utf8, encode_utf8_valid_utf8, encode_utf8_decode_utf8};
use crate::bits::{all_bits, bits_value, bytes_of, stream_bits, pack, unpack_bytes, unpack_length};
use crate::capacity::{StegoError, capacity_bits, plan, plan_result, required_bits};
use crate::grid::{PixelGrid, channel_index, usable_rank, is_usable, usable_count, channel_offset, lemma_cursor, lemma_cursor_in_bounds};

verus! {

/// `c` with its lowest bit replaced by `bit`.
pub open spec fn with_lsb(c: u8, bit: u8) -> u8 {
    (c & 0xFEu8) | bit
}

/// The channels after the bit stream `bits` has been written into them: the
/// usable channel of rank `i` gets `bits[i]` as its lowest bit, for each `i`
/// below the stream's length; every other channel keeps its value.
pub open spec fn embedded(channels: Seq<u8>, bits: Seq<u8>) -> Seq<u8> {
    Seq::new(
        channels.len(),
        |p: int|
            if is_usable(p) && usable_rank(p) < bits.len() {
                with_lsb(channels[p], bits[usable_rank(p)])
            } else {
                channels[p]
            },
    )
}

/// The lowest bit of every usable channel, in cursor order.
pub open spec fn lsbs(channels: Seq<u8>) -> Seq<u8> {
    Seq::new(usable_count(channels) as nat, |i: int| channels[channel_index(i)] & 1u8)
}

/// The bit stream that carries `message`: its length, then its bytes.
pub open spec fn message_bits(message: Seq<u8>) -> Seq<u8> {
    stream_bits(message.len() as u32, message)
}

/// The channels of a `width` by `height` image after encoding `message`, or
/// the error that stops it.
pub open spec fn encode_result(width: nat, height: nat, channels: Seq<u8>, message: Seq<u8>) -> Result<Seq<u8>, StegoError> {
    match plan_result(width, height, message.len()) {
        Ok(_) => Ok(embedded(channels, message_bits(message))),
        Err(e) => Err(e),
    }
}

/// The text that a stream of low bits carries, or the error that stops it.
pub open spec fn decode_bits(bits: Seq<u8>) -> Result<Seq<char>, StegoError> {
    if bits.len() < 32 {
        Err(StegoError::TruncatedStream)
    } else {
        let n = bits_value(bits.subrange(0, 32));
        if bits.len() < 32 + 8 * n {
            Err(StegoError::TruncatedStream)
        } else {
            let bytes = bytes_of(bits.subrange(32, 32 + 8 * n as int));
            if valid_utf8(bytes) {
                Ok(decode_utf8(bytes))
            } else {
                Err(StegoError::MalformedText)
            }
        }
    }
}

/// The text that decoding reads from a channel buffer, or the error that stops it.
pub open spec fn decode_result(channels: Seq<u8>) -> Result<Seq<char>, StegoError> {
    decode_bits(lsbs(channels))
}

/// Relies on `String::from_utf8`: it succeeds exactly on valid UTF-8, and the
/// string it gives holds the characters those bytes encode.
#[verifier::external_body]
fn string_from_utf8(bytes: Vec<u8>) -> (r: Option<String>)
    ensures
        r is Some <==> valid_utf8(bytes@),
        r matches Some(s) ==> s@ == decode_utf8(bytes@),
{
    String::from_utf8(bytes).ok()
}

/// Writes `bits` into the low bits of the usable channels, in cursor order,
/// and stops when they run out: later channels and all alpha channels are
/// left as they were.
pub fn embed_bits(img: &mut PixelGrid, bits: &Vec<u8>)
    requires
        old(img).wf(),
        all_bits(bits@),
        bits@.len() <= usable_count(old(img)@),
    ensures
        final(img).wf(),
        final(img)@ == embedded(old(img)@, bits@),
        final(img).spec_width() == old(img).spec_width(),
        final(img).spec_height() == old(img).spec_height(),
{
    let ghost start = img@;
    let n = bits.len();
    let total = img.channel_count();
    let mut i: usize = 0;
    assert(embedded(start, bits@.subrange(0, 0)) =~= start);
    while i < n
        invariant
            n == bits@.len(),
            total == start.len(),
            i <= n,
            n <= usable_count(start),
            all_bits(bits@),
            img.wf(),
            img@ == embedded(start, bits@.subrange(0, i as int)),
            img.spec_width() == old(img).spec_width(),
            img.spec_height() == old(img).spec_height(),
        decreases n - i,
    {
        proof {
            lemma_cursor(i as int, 0);
            lemma_cursor_in_bounds(i as int, total as int);
        }
        let p = channel_offset(i);
        let c = img.channel(p);
        let v = (c & 0xFE) | bits[i];
        img.set_channel(p, v);
        proof {
            let next = embedded(start, bits@.subrange(0, i + 1));
            assert forall|q: int| 0 <= q < start.len() implies #[trigger] img@[q] == next[q] by {
                if q != p as int {
                    if is_usable(q) && usable_rank(q) == i as int {
                        lemma_cursor(0, q);
                    }
                }
            }
            assert(img@ =~= next);
        }
        i = i + 1;
    }
    assert(bits@.subrange(0, n as int) =~= bits@);
}

/// Reads the low bit of every usable channel, in cursor order.
pub fn extract_bits(img: &PixelGrid) -> (bits: Vec<u8>)
    ensures
        bits@ == lsbs(img@),
{
    let total = img.channel_count();
    let n = 3 * (total / 4);
    let mut bits: Vec<u8> = Vec::new();
    let mut i: usize = 0;
    while i < n
        invariant
            total == img@.len(),
            n == usable_count(img@),
            i <= n,
            bits@ == lsbs(img@).subrange(0, i as int),
        decreases n - i,
    {
        proof {
            lemma_cursor_in_bounds(i as int, total as int);
        }
        let p = channel_offset(i);
        bits.push(img.channel(p) & 1);
        i = i + 1;
        assert(bits@ =~= lsbs(img@).subrange(0, i as int));
    }
    assert(bits@ =~= lsbs(img@));
    bits
}

/// Hides `message` in `img`: checks that its length prefix and bytes fit the
/// image's capacity, then writes them into the low bits of the usable
/// channels. Where they do not fit, the image is left untouched.
pub fn encode(img: &mut PixelGrid, message: &str) -> (r: Result<(), StegoError>)
    requires
        old(img).wf(),
        message.spec_bytes().len() <= u32::MAX,
    ensures
        final(img).wf(),
        final(img).spec_width() == old(img).spec_width(),
        final(img).spec_height() == old(img).spec_height(),
        match encode_result(old(img).spec_width(), old(img).spec_height(), old(img)@, message.spec_bytes()) {
            Ok(channels) => r is Ok && final(img)@ == channels,
            Err(e) => r == Err::<(), StegoError>(e) && final(img)@ == old(img)@,
        },
{
    let bytes = message.as_bytes();
    let len = bytes.len();
    let total = img.channel_count();
    match plan(img.width(), img.height(), len) {
        Err(e) => Err(e),
        Ok(_) => {
            proof {
                let w = img.spec_width();
                let h = img.spec_height();
                assert(3 * ((w * h * 4) / 4) == w * h * 3) by (nonlinear_arith);
                assert(w * h * 3 <= w * h * 4) by (nonlinear_arith);
                assert(total == w * h * 4);
            }
            let bits = pack(len as u32, bytes);
            proof {
                crate::bits::lemma_bits_of_all_bits(crate::bits::be_bytes(len as u32) + bytes@);
            }
            embed_bits(img, &bits);
            Ok(())
        },
    }
}

/// Recovers the text hidden in `img`: reads the length prefix from the first
/// 32 usable bits, then that many bytes, and checks they are UTF-8.
pub fn decode(img: &PixelGrid) -> (r: Result<String, StegoError>)
    ensures
        match decode_result(img@) {
            Ok(text) => r matches Ok(s) && s@ == text,
            Err(e) => r == Err::<String, StegoError>(e),
        },
{
    let bits = extract_bits(img);
    let total = bits.len();
    if total < 32 {
        return Err(StegoError::TruncatedStream);
    }
    proof {
        assert forall|i: int| 0 <= i < bits@.len() implies #[trigger] bits@[i] <= 1 by {
            let c = img@[channel_index(i)];
            assert(c & 1u8 <= 1) by (bit_vector);
        }
    }
    let n = unpack_length(bits.as_slice());
    if ((total - 32) / 8) < n as usize {
        proof {
            assert((total - 32) < 8 * n) by (nonlinear_arith)
                requires
                    ((total - 32) / 8) < n,
                    total >= 32,
            ;
        }
        return Err(StegoError::TruncatedStream);
    }
    proof {
        assert(32 + 8 * n <= total) by (nonlinear_arith)
            requires
                ((total - 32) / 8) >= n,
                total >= 32,
        ;
    }
    let body = vstd::slice::slice_subrange(bits.as_slice(), 32, 32 + 8 * (n as usize));
    proof {
        crate::bits::lemma_all_bits_subrange(bits@, 32, 32 + 8 * n);
    }
    let bytes = unpack_bytes(body);
    match string_from_utf8(bytes) {
        Some(s) => Ok(s),
        None => Err(StegoError::MalformedText),
    }
}

/// Reading the low bits back after writing a stream gives the stream, at the
/// head of what is read.
pub proof fn lemma_lsbs_embedded(channels: Seq<u8>, bits: Seq<u8>)
    requires
        all_bits(bits),
        bits.len() <= usable_count(channels),
    ensures
        lsbs(embedded(channels, bits)).len() == usable_count(channels),
        lsbs(embedded(channels, bits)).subrange(0, bits.len() as int) == bits,
{
    let out = embedded(channels, bits);
    let got = lsbs(out).subrange(0, bits.len() as int);
    assert forall|i: int| 0 <= i < bits.len() implies #[trigger] got[i] == bits[i] by {
        lemma_cursor(i, 0);
        lemma_cursor_in_bounds(i, channels.len() as int);
        let c = channels[channel_index(i)];
        let b = bits[i];
        assert(b <= 1);
        assert(b <= 1 ==> ((c & 0xFEu8) | b) & 1u8 == b) by (bit_vector);
    }
    assert(got =~= bits);
}

/// A bit sequence that starts with the stream of a message's bytes carries
/// the text those bytes encode.
pub proof fn lemma_decode_stream(read: Seq<u8>, message: Seq<char>)
    requires
        encode_utf8(message).len() <= u32::MAX,
        read.len() >= message_bits(encode_utf8(message)).len(),
        read.subrange(0, message_bits(encode_utf8(message)).len() as int) == message_bits(encode_utf8(message)),
    ensures
        decode_bits(read) == Ok::<Seq<char>, StegoError>(message),
{
    let bytes = encode_utf8(message);
    let bits = message_bits(bytes);
    let n = bytes.len();
    assert(bits.len() == 32 + 8 * n);
    assert(read.subrange(0, 32) =~= bits.subrange(0, 32));
    crate::bits::lemma_length_prefix(n as u32, bytes);
    assert(bits_value(read.subrange(0, 32)) == n);
    crate::bits::lemma_bits_of_prefix(crate::bits::be_bytes(n as u32), bytes);
    assert(read.subrange(32, 32 + 8 * n as int) =~= bits.subrange(32, 32 + 8 * n as int));
    crate::bits::lemma_bytes_of_bits_of(bytes);
    encode_utf8_valid_utf8(message);
    encode_utf8_decode_utf8(message);
}

/// Round trip: on an image with room for the message's length prefix and
/// bytes, decoding what encoding wrote gives back exactly the message.
pub proof fn lemma_round_trip(width: nat, height: nat, channels: Seq<u8>, message: Seq<char>)
    requires
        channels.len() == width * height * 4,
        encode_utf8(message).len() <= u32::MAX,
        capacity_bits(width, height) >= required_bits(encode_utf8(message).len()),
    ensures
        encode_result(width, height, channels, encode_utf8(message)) matches Ok(out)
            && decode_result(out) == Ok::<Seq<char>, StegoError>(message),
{
    let bytes = encode_utf8(message);
    let bits = message_bits(bytes);
    crate::bits::lemma_bits_of_all_bits(crate::bits::be_bytes(bytes.len() as u32) + bytes);
    assert(3 * ((width * height * 4) / 4) == width * height * 3) by (nonlinear_arith);
    lemma_lsbs_embedded(channels, bits);
    lemma_decode_stream(lsbs(embedded(channels, bits)), message);
}

/// Minimal mutation: encoding leaves every pixel from index
/// `ceil(required_bits / 3)` on as it was, never changes an alpha channel,
/// and changes no channel in any bit but its lowest.
pub proof fn lemma_minimal_mutation(width: nat, height: nat, channels: Seq<u8>, message: Seq<u8>)
    requires
        channels.len() == width * height * 4,
        message.len() <= u32::MAX,
        encode_result(width, height, channels, message) is Ok,
    ensures
        encode_result(width, height, channels, message) matches Ok(out) && out.len() == channels.len()
            && (forall|p: int|
            0 <= p < channels.len() && p / 4 >= (required_bits(message.len()) + 2) / 3
                ==> #[trigger] out[p] == channels[p])
            && (forall|p: int| 0 <= p < channels.len() && !is_usable(p) ==> #[trigger] out[p] == channels[p])
            && (forall|p: int| 0 <= p < channels.len() ==> #[trigger] out[p] & 0xFEu8 == channels[p] & 0xFEu8),
{
    let bits = message_bits(message);
    let out = embedded(channels, bits);
    let need = required_bits(message.len());
    crate::bits::lemma_bits_of_all_bits(crate::bits::be_bytes(message.len() as u32) + message);
    assert(bits.len() == need);
    assert forall|p: int| 0 <= p < channels.len() && p / 4 >= (need + 2) / 3 implies #[trigger] out[p] == channels[p] by {
        assert(3 * ((need + 2) / 3) >= need) by (nonlinear_arith);
        assert(3 * (p / 4) >= 3 * ((need + 2) / 3)) by (nonlinear_arith)
            requires
                p / 4 >= (need + 2) / 3,
        ;
    }
    assert forall|p: int| 0 <= p < channels.len() implies #[trigger] out[p] & 0xFEu8 == channels[p] & 0xFEu8 by {
        if is_usable(p) && usable_rank(p) < bits.len() {
            let c = channels[p];
            let b = bits[usable_rank(p)];
            assert(b <= 1);
            assert(b <= 1 ==> ((c & 0xFEu8) | b) & 0xFEu8 == c & 0xFEu8) by (bit_vector);
        }
    }
}

/// Capacity rejection: a message whose length prefix and bytes need more bits
/// than the image's channels provide is refused, reporting both counts.
pub proof fn lemma_capacity_rejection(width: nat, height: nat, channels: Seq<u8>, message: Seq<u8>)
    requires
        required_bits(message.len()) > capacity_bits(width, height),
    ensures
        encode_result(width, height, channels, message) == Err::<Seq<u8>, StegoError>(
            StegoError::CapacityExceeded {
                required: required_bits(message.len()) as u64,
                available: capacity_bits(width, height) as u64,
            },
        ),
{
}

/// Truncation: an image of fewer than 11 pixels holds fewer than the 32 bits
/// of a length prefix, so decoding it fails with a truncated stream.
pub proof fn lemma_truncation(width: nat, height: nat, channels: Seq<u8>)
    requires
        channels.len() == width * height * 4,
        width * height < 11,
    ensures
        decode_result(channels) == Err::<Seq<char>, StegoError>(StegoError::TruncatedStream),
{
    assert((width * height * 4) / 4 == width * height) by (nonlinear_arith);
}

} // verus!
