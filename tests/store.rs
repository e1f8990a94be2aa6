use bloodpressure::reading::Reading;
use bloodpressure::store::{decode_row, decode_store, encode_row, load_all, StoreError};

fn store_of(readings: &[Reading]) -> Vec<u8> {
    let mut text = Vec::new();
    for r in readings {
        text.extend(encode_row(r));
    }
    text
}

#[test]
fn row_has_fixed_field_order() {
    let r = Reading::new(1700000000, 120, 80, 60);
    assert_eq!(encode_row(&r), b"1700000000,120,80,60\n".to_vec());
}

#[test]
fn negative_timestamp_is_written_with_sign() {
    let r = Reading::new(-86400, 0, 7, 4294967295);
    assert_eq!(encode_row(&r), b"-86400,0,7,4294967295\n".to_vec());
}

#[test]
fn row_round_trip() {
    for r in [
        Reading::new(1700000000, 120, 80, 60),
        Reading::new(0, 0, 0, 0),
        Reading::new(-1, 4294967295, 1, 10),
    ] {
        let line = encode_row(&r);
        assert_eq!(decode_row(&line[..line.len() - 1]), Some(r));
        assert_eq!(decode_store(&line), Some(vec![r]));
    }
}

#[test]
fn append_keeps_earlier_rows_in_order() {
    let r1 = Reading::new(100, 120, 80, 60);
    let r2 = Reading::new(50, 121, 81, 61);
    let r3 = Reading::new(75, 122, 82, 62);
    let mut text = store_of(&[r1, r2]);
    assert_eq!(load_all(Some(text.clone())), Ok(vec![r1, r2]));
    text.extend(encode_row(&r3));
    assert_eq!(load_all(Some(text)), Ok(vec![r1, r2, r3]));
}

#[test]
fn duplicate_timestamps_are_kept() {
    let r1 = Reading::new(100, 120, 80, 60);
    let r2 = Reading::new(100, 130, 85, 65);
    assert_eq!(load_all(Some(store_of(&[r1, r2]))), Ok(vec![r1, r2]));
}

#[test]
fn missing_store_fails() {
    assert_eq!(load_all(None), Err(StoreError::Missing));
}

#[test]
fn empty_store_has_no_readings() {
    assert_eq!(load_all(Some(Vec::new())), Ok(vec![]));
}

#[test]
fn empty_lines_are_skipped() {
    let text = b"\n1,2,3,4\n\n5,6,7,8".to_vec();
    assert_eq!(
        load_all(Some(text)),
        Ok(vec![Reading::new(1, 2, 3, 4), Reading::new(5, 6, 7, 8)])
    );
}

#[test]
fn malformed_row_fails_whole_load() {
    for text in [
        &b"1,2,3,4\n1,2,3\n"[..],
        b"1,2,3,4,5\n",
        b"a,2,3,4\n",
        b"1,2,,4\n",
        b"1,-2,3,4\n",
        b"1,4294967296,3,4\n",
        b"99999999999999999999,1,2,3\n",
        b"1, 2,3,4\n",
    ] {
        assert_eq!(load_all(Some(text.to_vec())), Err(StoreError::Malformed));
    }
}

#[test]
fn timestamp_out_of_chrono_range_is_malformed() {
    assert_eq!(decode_row(b"9223372036854775807,1,2,3"), None);
    assert_eq!(decode_row(b"-9223372036854775808,1,2,3"), None);
    assert_eq!(decode_row(b"0,1,2,3"), Some(Reading::new(0, 1, 2, 3)));
}

#[test]
fn widest_fields_parse() {
    assert_eq!(
        decode_row(b"-86400,4294967295,0,007"),
        Some(Reading::new(-86400, 4294967295, 0, 7))
    );
}
