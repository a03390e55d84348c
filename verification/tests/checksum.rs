use arp::crc32c::compute_lookup_table;
use arp::crc32c::crc32c;
use arp::crc32c::crc32c_blockwise;
use arp::crc32c::crc32c_continue;
use arp::crc32c::crc32c_sw;

#[test]
fn lookup_table_shape() {
    let table = compute_lookup_table();
    assert_eq!(table.len(), 256);
    assert_eq!(table[0], 0);
    // Entry 1 is eight recurrence steps from 1, computed here by hand.
    let mut expected: u32 = 1;
    for _ in 0..8 {
        expected = if expected & 1 == 1 {
            (expected >> 1) ^ 0x82F63B78
        } else {
            expected >> 1
        };
    }
    assert_eq!(table[1], expected);
}

#[test]
fn both_paths_agree_on_all_short_lengths() {
    // The table-driven and block-folding paths must agree bit for bit on
    // every input; lengths 0..=130 cover all block/tail splits many times.
    let mut data: Vec<u8> = Vec::new();
    let mut x: u8 = 7;
    for len in 0..=130usize {
        while data.len() < len {
            x = x.wrapping_mul(31).wrapping_add(11);
            data.push(x);
        }
        assert_eq!(crc32c_sw(0, &data), crc32c_blockwise(0, &data));
        assert_eq!(crc32c_sw(0xDEADBEEF, &data), crc32c_blockwise(0xDEADBEEF, &data));
    }
}

#[test]
fn crc_is_continue_from_zero() {
    let data = b"some sample payload";
    assert_eq!(crc32c(data), crc32c_continue(0, data));
    assert_eq!(crc32c(data), crc32c_sw(0, data));
}

#[test]
fn crc_detects_byte_flips() {
    let data: Vec<u8> = (0u8..=255).collect();
    let reference = crc32c(&data);
    for i in 0..data.len() {
        let mut corrupted = data.clone();
        corrupted[i] ^= 0x01;
        assert_ne!(crc32c(&corrupted), reference);
        corrupted[i] ^= 0x81;
        assert_ne!(crc32c(&corrupted), reference);
    }
}

#[test]
fn crc_of_empty_input() {
    // The engine starts from an all-zero state and finishes by inversion.
    assert_eq!(crc32c(&[]), 0xFFFF_FFFF);
}
