use sc_transport::sizes::{parse_sizes, SizeListError};

#[test]
fn parses_sizes_csv() {
    let sizes = parse_sizes("1,16,256").expect("size csv should parse");
    assert_eq!(sizes, vec![1, 16, 256]);
}

#[test]
fn size_list_trims_and_accepts_plus() {
    assert_eq!(parse_sizes(" 4 ,\t+8,16\n").unwrap(), vec![4, 8, 16]);
}

#[test]
fn size_list_reports_first_bad_field() {
    match parse_sizes("1,x2,-3") {
        Err(SizeListError::InvalidSize(f)) => assert_eq!(f, "x2"),
        _ => panic!("expected an invalid size"),
    }
    match parse_sizes("1,,2") {
        Err(SizeListError::InvalidSize(f)) => assert_eq!(f, ""),
        _ => panic!("expected an invalid size"),
    }
    match parse_sizes("99999999999999999999999") {
        Err(SizeListError::InvalidSize(f)) => assert_eq!(f, "99999999999999999999999"),
        _ => panic!("expected an overflow"),
    }
    assert!(parse_sizes("+").is_err());
}
