use rpxlog_core::txt::{
    logbody_to_vec, logbody_to_vec_checked, logheader_to_vec, ptr_rows_of, txt_ptr, TxtError,
};
use rpxlog_core::chars::Text;
use rpxlog_core::txt::words_of;
use rpxlog_core::unit::UnitError;

const RULE: &str = "-------------------   ------------";
const TITLE: &str = "Site   Fail   Total    Cate   Bin    XCoord   YCoord         TestTime";

fn block(tcnt: &str, site: &str, tests: &[&str], time: &str, result: &str) -> String {
    let mut s = format!("TCNT# {}        SITE# {}\n", tcnt, site);
    s.push_str("NO Site  Result  TestName           Signal          Measure   LowLimit  HighLimit   Force\n");
    for t in tests {
        s.push_str(t);
        s.push('\n');
    }
    s.push_str(&format!("  {}\n  {}({})\n  {}\n  {}\n", RULE, TITLE, time, RULE, result));
    s
}

fn sample_log() -> String {
    let mut s = String::from(
        "[Header]\nCust_LotId=Foo01\nCustomer_Id=Bar01\nTest_Program=prog=v2\n\n",
    );
    s.push_str(&block(
        "0",
        "0",
        &[
            "1002 0   PASS  OS_VCC               VDD33           -0.236 V   -0.700V   -0.050V   -200.000uA",
            "1003 0   PASS  OS_VCC               VDD12L          -2.83 mA   -0.700V   -0.050V   -200.000uA",
        ],
        "122868ms",
        "0      0       1       1     1      10       1",
    ));
    s.push_str(&block(
        "1",
        "0",
        &["1002 0   PASS  OS_VCC               VDD33           -0.250 V   -0.700V   -0.050V   -200.000uA"],
        "1.5s",
        "0      0       1       1     1      11       2",
    ));
    s
}

#[test]
fn header_keys_and_values() {
    let log = sample_log();
    let (keys, values) = logheader_to_vec(&log).unwrap();
    assert_eq!(keys, vec!["Cust_LotId", "Customer_Id", "Test_Program=prog"]);
    assert_eq!(values, vec!["Foo01", "Bar01", "v2"]);
}

#[test]
fn header_missing_is_an_error() {
    let log = String::from("Cust_LotId=Foo01\nTCNT# 0");
    assert_eq!(logheader_to_vec(&log).err(), Some(TxtError::HeaderNotFound));
    let log = String::from("[Header]\nCust_LotId=Foo01\n");
    assert_eq!(logheader_to_vec(&log).err(), Some(TxtError::HeaderNotFound));
}

#[test]
fn header_entry_with_empty_value() {
    let log = String::from("[Header]\n  Wafer_No=  \nA = b c\nTCNT#");
    let (keys, values) = logheader_to_vec(&log).unwrap();
    assert_eq!(keys, vec!["Wafer_No", "A "]);
    assert_eq!(values, vec!["  ", " b c"]);
}

#[test]
fn body_rows_of_two_parts() {
    let log = sample_log();
    let body = logbody_to_vec(&log).unwrap();
    assert_eq!(body.tcnt.len(), 21);
    assert_eq!(body.tcnt[..11].to_vec(), vec![0; 11]);
    assert_eq!(body.tcnt[11..].to_vec(), vec![1; 10]);
    assert_eq!(body.site, vec![0; 21]);
    assert_eq!(
        body.test_index,
        vec![0, 0, 0, 0, 0, 0, 0, 0, 0, 1, 2, 0, 0, 0, 0, 0, 0, 0, 0, 0, 1]
    );
    assert_eq!(
        body.key[..11].to_vec(),
        vec![
            "testtime", "t_unit", "Site", "Fail", "Total", "Cate", "Bin", "XCoord", "YCoord",
            "OS_VCC", "OS_VCC"
        ]
    );
    assert_eq!(
        body.signal[..11].to_vec(),
        vec!["", "", "", "", "", "", "", "", "", "VDD33", "VDD12L"]
    );
    assert_eq!(
        body.value[..11].to_vec(),
        vec!["122868", "ms", "0", "0", "1", "1", "1", "10", "1", "-0.236 V", "-2.83 mA"]
    );
    assert_eq!(
        body.value[11..].to_vec(),
        vec!["1.5", "s", "0", "0", "1", "1", "1", "11", "2", "-0.250 V"]
    );
}

#[test]
fn body_short_result_line_gives_empty_fields() {
    let mut log = String::new();
    log.push_str(&block("7", "3", &[], "10ms", "1    2"));
    let body = logbody_to_vec(&log).unwrap();
    assert_eq!(body.tcnt, vec![7; 9]);
    assert_eq!(body.site, vec![3; 9]);
    assert_eq!(body.value, vec!["10", "ms", "1", "2", "", "", "", "", ""]);
}

#[test]
fn body_of_text_without_parts_is_empty() {
    let log = String::from("[Header]\nA=b\n");
    let body = logbody_to_vec(&log).unwrap();
    assert!(body.tcnt.is_empty());
    assert!(body.key.is_empty());
}

#[test]
fn body_with_too_large_part_count_is_refused() {
    let log = block("99999999999", "0", &[], "1ms", "0 0 1 1 1 1 1");
    assert!(logbody_to_vec_checked(&log).is_none());
    let log = block("2147483647", "0", &[], "1ms", "0 0 1 1 1 1 1");
    assert_eq!(logbody_to_vec_checked(&log).unwrap().tcnt, vec![2147483647; 9]);
}

#[test]
fn txt_ptr_selects_by_name_and_signal() {
    let log = sample_log();
    let rows = txt_ptr(&log, "OS_VCC.VDD33").unwrap();
    assert_eq!(rows.len(), 2);
    assert_eq!(rows[0].cnt, 0);
    assert_eq!(rows[0].key, "OS_VCC.VDD33");
    assert_eq!(rows[0].value.number, "-0.236");
    assert_eq!(rows[0].value.unit, " V");
    assert_eq!(rows[0].value.exponent, Some(0));
    assert_eq!(rows[1].cnt, 1);
    assert_eq!(rows[1].value.number, "-0.250");

    let rows = txt_ptr(&log, "OS_VCC.VDD12L").unwrap();
    assert_eq!(rows.len(), 1);
    assert_eq!(rows[0].value.number, "-2.83");
    assert_eq!(rows[0].value.unit, " mA");
    assert_eq!(rows[0].value.exponent, Some(-3));
}

#[test]
fn txt_ptr_of_summary_rows() {
    let log = sample_log();
    let rows = txt_ptr(&log, "testtime.").unwrap();
    assert_eq!(rows.len(), 2);
    assert_eq!(rows[0].value.number, "122868");
    assert_eq!(rows[1].value.number, "1.5");
    assert_eq!(rows[1].value.unit, "");
    assert!(txt_ptr(&log, "OS_VCC").unwrap().is_empty());
    assert!(txt_ptr(&log, "OS_VCC.VDD").unwrap().is_empty());
}

#[test]
fn txt_ptr_value_without_number_is_an_error() {
    let log = sample_log();
    assert_eq!(
        txt_ptr(&log, "t_unit.").err(),
        Some(TxtError::Value(UnitError::NoNumber))
    );
}

#[test]
fn ptr_rows_of_body() {
    let log = sample_log();
    let body = logbody_to_vec(&log).unwrap();
    let rows = ptr_rows_of(&body, "XCoord.").unwrap();
    assert_eq!(rows.len(), 2);
    assert_eq!(rows[0].value.number, "10");
    assert_eq!(rows[1].value.number, "11");
    assert_eq!(rows[1].cnt, 1);
}

#[test]
fn txt_it_works3() {
    let src = "   0      1       2       1     1       5       1";
    let text = Text::new(src);
    let a = words_of(&text, 0, text.len());
    assert_eq!(a, vec!["0", "1", "2", "1", "1", "5", "1"]);
    assert_eq!(a, src.split_whitespace().collect::<Vec<_>>());
    let _b = a[0];
    let _c = a[1];
    let d = *a.get(8).unwrap_or_else(|| &"no");
    assert_eq!(d, "no");
}
