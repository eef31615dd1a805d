use rpxlog_core::txt_new::{TxtRecord, TxtRecordEnum};

fn kind(r: &TxtRecord) -> Option<String> {
    match r.match_type() {
        TxtRecordEnum::PTR(t) => Some(t),
        TxtRecordEnum::Header(t) => Some(format!("header:{}", t)),
        TxtRecordEnum::NoRecord => None,
    }
}

#[test]
fn nothing_read_is_no_record() {
    let r = TxtRecord::new();
    assert_eq!(r.txt, "");
    assert!(!r.header_flag);
    assert_eq!(kind(&r), None);
}

#[test]
fn test_line_is_reported() {
    let mut r = TxtRecord::new();
    r.push("NO Site  Result  TestName           Signal          Measure   LowLimit  HighLimit   Force");
    assert_eq!(kind(&r), None);
    r.push("1002 0   PASS  OS_VCC               VDD33           -0.236 V   -0.700V   -0.050V   -200.000uA");
    let t = kind(&r).unwrap();
    assert!(t.ends_with("-200.000uA\n"));
    assert_eq!(t, r.txt);
}

#[test]
fn header_section_is_reported_as_ptr() {
    let mut r = TxtRecord::new();
    r.push("[Header]");
    r.push("Cust_LotId=Foo01");
    assert_eq!(kind(&r), None);
    r.push("");
    assert_eq!(kind(&r), Some("[Header]\nCust_LotId=Foo01\n\n".to_string()));
    r.clear_after_header();
    assert_eq!(r.txt, "");
    assert_eq!(kind(&r), None);
}
