use slicepat::{format_line, parse_line, StateLineError};

#[test]
fn format_pads_to_eight_hex_digits() {
    assert_eq!(format_line(b"maps/a.bsp", 0x1234), b"00001234,maps/a.bsp".to_vec());
    assert_eq!(format_line(b"x", 0), b"00000000,x".to_vec());
    assert_eq!(format_line(b"", 0xdeadbeef), b"deadbeef,".to_vec());
    // more than eight digits are written in full
    assert_eq!(format_line(b"p", 0x1_0000_0000), b"100000000,p".to_vec());
    assert_eq!(format_line(b"p", u64::MAX), b"ffffffffffffffff,p".to_vec());
}

#[test]
fn parse_reads_time_and_path() {
    assert_eq!(parse_line(b"00001234,maps/a.bsp"), Ok((b"maps/a.bsp".to_vec(), 0x1234)));
    assert_eq!(parse_line(b"deadBEEF,p"), Ok((b"p".to_vec(), 0xdead_beef)));
    assert_eq!(parse_line(b"+1f,p"), Ok((b"p".to_vec(), 0x1f)));
    // the path keeps inner commas and loses trailing whitespace
    assert_eq!(parse_line(b"0,a,b \n"), Ok((b"a,b".to_vec(), 0)));
    assert_eq!(parse_line(b"ffffffffffffffff,p"), Ok((b"p".to_vec(), u64::MAX)));
}

#[test]
fn parse_rejects_malformed_lines() {
    assert_eq!(parse_line(b"00001234 maps"), Err(StateLineError::MissingSeparator));
    assert_eq!(parse_line(b""), Err(StateLineError::MissingSeparator));
    assert_eq!(parse_line(b",path"), Err(StateLineError::InvalidTime));
    assert_eq!(parse_line(b"+,path"), Err(StateLineError::InvalidTime));
    assert_eq!(parse_line(b"12g4,path"), Err(StateLineError::InvalidTime));
    assert_eq!(parse_line(b"-1,path"), Err(StateLineError::InvalidTime));
    // one digit past what a 64-bit time can hold
    assert_eq!(parse_line(b"10000000000000000,path"), Err(StateLineError::InvalidTime));
}

#[test]
fn format_then_parse_round_trips() {
    for (path, time) in [
        (b"maps/dm_flood.nav".to_vec(), 0u64),
        (b"a,b,c".to_vec(), 0x8899_aabb_ccdd_eeffu64),
        (b"".to_vec(), 7),
        (b"x".to_vec(), u64::MAX),
    ] {
        let line = format_line(&path, time);
        assert_eq!(parse_line(&line), Ok((path, time)));
    }
}
