use sneaky_image::bits::{pack, unpack_bytes, unpack_length};
use sneaky_image::capacity::plan;
use sneaky_image::grid::channel_offset;
use sneaky_image::steganography::{embed_bits, extract_bits};
use sneaky_image::{decode, encode, PixelGrid, StegoError};

fn opaque_grid(width: u32, height: u32, fill: u8) -> PixelGrid {
    let mut data = Vec::new();
    for _ in 0..(width * height) {
        data.push(fill);
        data.push(fill);
        data.push(fill);
        data.push(255);
    }
    PixelGrid::from_raw(width, height, data).unwrap()
}

fn patterned_grid(width: u32, height: u32) -> PixelGrid {
    let mut data = Vec::new();
    for i in 0..(width * height * 4) {
        data.push((i * 37 % 251) as u8);
    }
    PixelGrid::from_raw(width, height, data).unwrap()
}

/// Writes raw stream bits into the low bits of an opaque grid.
fn grid_with_bits(width: u32, height: u32, bits: &Vec<u8>) -> PixelGrid {
    let mut g = opaque_grid(width, height, 0x80);
    embed_bits(&mut g, bits);
    g
}

#[test]
fn hello_round_trip_in_10x10() {
    let mut g = opaque_grid(10, 10, 200);
    assert_eq!(encode(&mut g, "HELLO"), Ok(()));
    assert_eq!(decode(&g), Ok("HELLO".to_string()));
}

#[test]
fn hello_rejected_by_2x2() {
    let mut g = opaque_grid(2, 2, 7);
    let before = g.as_raw().clone();
    assert_eq!(
        encode(&mut g, "HELLO"),
        Err(StegoError::CapacityExceeded { required: 72, available: 12 })
    );
    assert_eq!(g.as_raw(), &before);
}

#[test]
fn plan_reports_required_and_available() {
    assert_eq!(plan(10, 10, 5), Ok(72));
    assert_eq!(plan(2, 2, 5), Err(StegoError::CapacityExceeded { required: 72, available: 12 }));
    assert_eq!(plan(0, 0, 0), Err(StegoError::CapacityExceeded { required: 32, available: 0 }));
    assert_eq!(plan(4, 3, 0), Ok(32));
    assert_eq!(plan(1, 10, 0), Err(StegoError::CapacityExceeded { required: 32, available: 30 }));
}

#[test]
fn exact_fit_round_trip() {
    // 72 bits need exactly 24 pixels.
    let mut g = opaque_grid(6, 4, 13);
    assert_eq!(encode(&mut g, "HELLO"), Ok(()));
    assert_eq!(decode(&g), Ok("HELLO".to_string()));
    let mut h = opaque_grid(23, 1, 13);
    assert_eq!(
        encode(&mut h, "HELLO"),
        Err(StegoError::CapacityExceeded { required: 72, available: 69 })
    );
}

#[test]
fn empty_message_round_trip() {
    let mut g = patterned_grid(4, 3);
    assert_eq!(encode(&mut g, ""), Ok(()));
    assert_eq!(decode(&g), Ok(String::new()));
}

#[test]
fn multibyte_text_round_trip() {
    let mut g = patterned_grid(20, 20);
    let text = "héllo wörld ✓ 🦀";
    assert_eq!(encode(&mut g, text), Ok(()));
    assert_eq!(decode(&g), Ok(text.to_string()));
}

#[test]
fn round_trip_keeps_other_pixels_and_alpha() {
    let original = patterned_grid(10, 10);
    let mut g = patterned_grid(10, 10);
    assert_eq!(encode(&mut g, "HELLO"), Ok(()));
    let before = original.as_raw();
    let after = g.as_raw();
    // 72 bits touch at most ceil(72 / 3) = 24 pixels.
    for p in 24 * 4..before.len() {
        assert_eq!(before[p], after[p]);
    }
    for p in 0..before.len() {
        assert_eq!(before[p] & 0xFE, after[p] & 0xFE);
        if p % 4 == 3 {
            assert_eq!(before[p], after[p]);
        }
    }
}

#[test]
fn encode_writes_stream_bits_in_cursor_order() {
    let mut g = opaque_grid(10, 10, 0);
    assert_eq!(encode(&mut g, "A"), Ok(()));
    let raw = g.as_raw();
    // Length prefix 1: 31 zero bits then a one; then 'A' = 0x41 = 01000001.
    let expected: Vec<u8> = pack(1, &[0x41]);
    for i in 0..expected.len() {
        assert_eq!(raw[channel_offset(i)], expected[i]);
    }
    assert_eq!(raw[4 * 10 + 1], 1); // bit 31, the last bit of the prefix
    assert_eq!(raw[channel_offset(33)], 1);
    assert_eq!(raw[channel_offset(39)], 1);
    assert_eq!(raw[channel_offset(40)], 0);
}

#[test]
fn pack_expands_msb_first() {
    let bits = pack(1, &[0xA5]);
    let mut expected = vec![0u8; 31];
    expected.push(1);
    expected.extend_from_slice(&[1, 0, 1, 0, 0, 1, 0, 1]);
    assert_eq!(bits, expected);
    assert_eq!(pack(0, &[]).len(), 32);
}

#[test]
fn length_prefix_fidelity() {
    for n in [0u32, 1, 255, 65535, 16777215] {
        let bits = pack(n, &[]);
        assert_eq!(unpack_length(&bits), n);
    }
    let bits = pack(0x0102_0304, &[9, 9]);
    assert_eq!(unpack_length(&bits), 0x0102_0304);
    assert_eq!(unpack_bytes(&bits[..32]), vec![1, 2, 3, 4]);
}

#[test]
fn unpack_bytes_regroups_and_drops_partial_byte() {
    let bits = vec![0, 1, 0, 0, 1, 0, 0, 0, 1, 1, 1, 1, 1, 1, 1, 1, 1, 0, 1];
    assert_eq!(unpack_bytes(&bits), vec![0x48, 0xFF]);
    assert_eq!(unpack_bytes(&[]), Vec::<u8>::new());
}

#[test]
fn extract_reads_low_bits_of_usable_channels() {
    let g = PixelGrid::from_raw(2, 1, vec![3, 2, 5, 1, 0, 255, 254, 1]).unwrap();
    assert_eq!(extract_bits(&g), vec![1, 0, 1, 0, 1, 0]);
}

#[test]
fn embed_changes_only_needed_channels() {
    let mut g = PixelGrid::from_raw(2, 1, vec![3, 2, 5, 9, 0, 255, 254, 9]).unwrap();
    embed_bits(&mut g, &vec![0, 1, 1, 1]);
    assert_eq!(g.as_raw(), &vec![2, 3, 5, 9, 1, 255, 254, 9]);
}

#[test]
fn decode_fails_below_eleven_pixels() {
    let g = opaque_grid(10, 1, 255);
    assert_eq!(decode(&g), Err(StegoError::TruncatedStream));
    let g = opaque_grid(0, 0, 0);
    assert_eq!(decode(&g), Err(StegoError::TruncatedStream));
    let g = opaque_grid(5, 2, 0);
    assert_eq!(decode(&g), Err(StegoError::TruncatedStream));
}

#[test]
fn decode_fails_when_payload_is_cut_short() {
    // Declares 3 bytes, but a 4x4 grid holds only 48 - 32 = 16 payload bits.
    let g = grid_with_bits(4, 4, &pack(3, &[]));
    assert_eq!(decode(&g), Err(StegoError::TruncatedStream));
    // A plain image decodes to a huge length and fails the same way.
    let g = opaque_grid(20, 20, 255);
    assert_eq!(decode(&g), Err(StegoError::TruncatedStream));
}

#[test]
fn decode_rejects_invalid_utf8() {
    let g = grid_with_bits(10, 10, &pack(1, &[0xFF]));
    assert_eq!(decode(&g), Err(StegoError::MalformedText));
    let g = grid_with_bits(10, 10, &pack(2, &[0xC3, 0x28]));
    assert_eq!(decode(&g), Err(StegoError::MalformedText));
    let g = grid_with_bits(10, 10, &pack(2, &[0xC3, 0xA9]));
    assert_eq!(decode(&g), Ok("é".to_string()));
}

#[test]
fn grid_from_raw_checks_length() {
    assert!(PixelGrid::from_raw(2, 2, vec![0; 15]).is_none());
    let g = PixelGrid::from_raw(2, 2, (0..16).collect()).unwrap();
    assert_eq!(g.width(), 2);
    assert_eq!(g.height(), 2);
    assert_eq!(g.get_pixel(1, 0), [4, 5, 6, 7]);
    assert_eq!(g.get_pixel(0, 1), [8, 9, 10, 11]);
    assert_eq!(g.into_raw().len(), 16);
}

#[test]
fn channel_cursor_skips_alpha() {
    let offsets: Vec<usize> = (0..7).map(channel_offset).collect();
    assert_eq!(offsets, vec![0, 1, 2, 4, 5, 6, 8]);
}
