use ct_tilemap::compress::{get_compressed, put_packed, write_compressed};
use ct_tilemap::bytes::Input;

#[test]
fn packed_block_is_framed_by_its_length() {
    let mut out = vec![9u8];
    assert!(put_packed(&mut out, Ok(vec![7, 8, 9])).is_ok());
    assert_eq!(out, [9, 3, 0, 0, 0, 7, 8, 9]);
    let mut out = vec![9u8];
    assert!(put_packed(&mut out, Ok(Vec::new())).is_ok());
    assert_eq!(out, [9, 0, 0, 0, 0]);
}

#[test]
fn failed_packing_appends_nothing() {
    let mut out = vec![9u8];
    let error = std::io::Error::new(std::io::ErrorKind::Other, "no room");
    let result = put_packed(&mut out, Err(error));
    assert_eq!(result.unwrap_err().to_string(), "no room");
    assert_eq!(out, [9]);
}

#[test]
fn compressed_block_comes_back() {
    let data = b"tiles, tiles, tiles, tiles".to_vec();
    let mut out = vec![1u8, 2];
    write_compressed(&mut out, &data).unwrap();
    assert_eq!(&out[..2], &[1, 2]);
    let length = u32::from_le_bytes([out[2], out[3], out[4], out[5]]) as usize;
    assert_eq!(out.len(), 6 + length);
    assert_ne!(&out[6..], &data[..]);
    let mut input = Input::new(&out[2..]);
    assert_eq!(get_compressed(&mut input).unwrap(), data);
    assert!(input.is_at_end());
}

#[test]
fn packing_succeeds_for_any_data() {
    let mut long: Vec<u8> = Vec::new();
    let mut i: u32 = 0;
    while i < 100_000 {
        long.push((i.wrapping_mul(2_654_435_761) >> 13) as u8);
        i += 1;
    }
    for data in [Vec::new(), vec![0u8], vec![0xFFu8; 70_000], long] {
        let mut out = Vec::new();
        assert!(write_compressed(&mut out, &data).is_ok());
        let mut input = Input::new(&out);
        assert_eq!(get_compressed(&mut input).unwrap(), data);
        assert!(input.is_at_end());
    }
}
