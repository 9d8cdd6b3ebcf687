use ray_tracer::text::{parse_index_bytes, split_bytes, trim_bytes};

#[test]
fn split_keeps_empty_pieces() {
    let r = split_bytes(&b"a  b".to_vec(), b' ');
    assert_eq!(r, vec![b"a".to_vec(), vec![], b"b".to_vec()]);
    assert_eq!(split_bytes(&vec![], b'\n'), vec![Vec::<u8>::new()]);
    assert_eq!(split_bytes(&b"x\n".to_vec(), b'\n'), vec![b"x".to_vec(), vec![]]);
}

#[test]
fn trim_strips_both_ends() {
    assert_eq!(trim_bytes(&b" \t v 1 2 \r".to_vec()), b"v 1 2".to_vec());
    assert_eq!(trim_bytes(&b"   ".to_vec()), Vec::<u8>::new());
}

#[test]
fn parse_index_reads_unsigned_integers() {
    assert_eq!(parse_index_bytes(&b"102".to_vec()), Some(102));
    assert_eq!(parse_index_bytes(&b"+7".to_vec()), Some(7));
    assert_eq!(parse_index_bytes(&b"".to_vec()), None);
    assert_eq!(parse_index_bytes(&b"+".to_vec()), None);
    assert_eq!(parse_index_bytes(&b"-1".to_vec()), None);
    assert_eq!(parse_index_bytes(&b"1a".to_vec()), None);
    assert_eq!(parse_index_bytes(&b"18446744073709551615".to_vec()), Some(usize::MAX));
    assert_eq!(parse_index_bytes(&b"18446744073709551616".to_vec()), None);
}
