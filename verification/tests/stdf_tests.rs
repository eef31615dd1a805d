use polars::prelude::DataFrame;
use rpxlog_core::stdf::{
    collect_parts, header_yaml_text, stdf_dtr, stdf_header, stdf_header_texts, stdf_ptr, HeaderYaml,
    stdf_sumally, str_contains, HeaderError, RecordKind, StdfRec,
};

fn ptr(text: &str, units: Option<&str>, res_scal: Option<i8>) -> StdfRec {
    StdfRec::Ptr {
        test_txt: text.to_string(),
        units: units.map(|u| u.to_string()),
        res_scal,
    }
}

fn prr(num_test: u16, x: i16, y: i16) -> StdfRec {
    StdfRec::Prr { num_test, x_coord: x, y_coord: y }
}

fn dtr(text: &str) -> StdfRec {
    StdfRec::Dtr { text_dat: text.to_string() }
}

#[test]
fn record_kind_names() {
    assert_eq!(RecordKind::Far.name(), "FAR");
    assert_eq!(RecordKind::Ptr.to_string(), "PTR");
    assert_eq!(RecordKind::Dtr.to_string(), "DTR");
    assert_eq!(RecordKind::Reserved.to_string(), "ReservedRec");
    assert_eq!(RecordKind::Invalid.to_string(), "InvalidRec");
}

fn frame_counts(df: &DataFrame) -> Vec<(String, u32)> {
    let values = df.column("value").unwrap().str().unwrap();
    let counts = df.column("value_count").unwrap().idx().unwrap();
    let mut out: Vec<(String, u32)> = (0..df.height())
        .map(|i| (values.get(i).unwrap().to_string(), counts.get(i).unwrap() as u32))
        .collect();
    out.sort();
    out
}

#[test]
fn summary_counts_each_kind_once() {
    let kinds = vec![
        RecordKind::Far,
        RecordKind::Mir,
        RecordKind::Pir,
        RecordKind::Ptr,
        RecordKind::Ptr,
        RecordKind::Prr,
        RecordKind::Pir,
        RecordKind::Ptr,
        RecordKind::Prr,
        RecordKind::Mrr,
    ];
    let df = stdf_sumally(&kinds).unwrap();
    let names: Vec<String> = df.get_column_names().iter().map(|n| n.to_string()).collect();
    assert_eq!(names, vec!["value", "value_count"]);
    let got = frame_counts(&df);
    assert_eq!(
        got,
        vec![
            ("FAR".to_string(), 1),
            ("MIR".to_string(), 1),
            ("MRR".to_string(), 1),
            ("PIR".to_string(), 2),
            ("PRR".to_string(), 2),
            ("PTR".to_string(), 3),
        ]
    );
    let total: u32 = got.iter().map(|r| r.1).sum();
    assert_eq!(total as usize, kinds.len());
}

#[test]
fn summary_of_nothing_is_empty() {
    let df = stdf_sumally(&Vec::new()).unwrap();
    assert_eq!(df.height(), 0);
}

#[test]
fn contains_is_substring_search() {
    assert!(str_contains("OS_VCC.VDD12L", "VDD12"));
    assert!(str_contains("abc", ""));
    assert!(!str_contains("abc", "abcd"));
    assert!(!str_contains("OS_VCC.VDD33", "VDD12"));
}

fn sample_records() -> Vec<StdfRec> {
    vec![
        StdfRec::Other,
        ptr("OS_VCC.VDD12L", Some("V"), Some(0)),
        StdfRec::Pir,
        dtr("PixelTest_Time: 104.9 sec"),
        ptr("OS_VCC.VDD12L", Some("A"), Some(-3)),
        ptr("OS_VCC.VDD33", None, None),
        prr(12, 10, 1),
        StdfRec::Pir,
        ptr("OS_VCC.VDD12L", Some("V"), None),
        dtr("PixelTest_Time: 99.0 sec"),
        prr(13, 11, 1),
        prr(14, 11, 2),
        StdfRec::Pir,
        ptr("OS_VCC.VDD12L", Some("V"), None),
    ]
}

#[test]
fn parts_are_counted_from_zero() {
    let ps = collect_parts(&sample_records());
    let got: Vec<(i32, i32, i32, i32)> = ps.iter().map(|p| (p.cnt, p.num_test, p.x, p.y)).collect();
    assert_eq!(got, vec![(0, 12, 10, 1), (1, 13, 11, 1), (1, 14, 11, 2)]);
}

#[test]
fn ptr_rows_are_joined_with_their_part() {
    let rows = stdf_ptr(&sample_records(), "VDD12L");
    let got: Vec<(i32, usize, String, String, i8, Option<(i32, i32, i32)>)> = rows
        .iter()
        .map(|r| {
            (
                r.pick.cnt,
                r.pick.record,
                r.pick.key.clone(),
                r.pick.unit.clone(),
                r.pick.res_scal,
                r.part.map(|p| (p.num_test, p.x, p.y)),
            )
        })
        .collect();
    assert_eq!(
        got,
        vec![
            (-1, 1, "OS_VCC.VDD12L".to_string(), "V".to_string(), 0, None),
            (0, 4, "OS_VCC.VDD12L".to_string(), "A".to_string(), -3, Some((12, 10, 1))),
            (1, 8, "OS_VCC.VDD12L".to_string(), "V".to_string(), 0, Some((13, 11, 1))),
            (1, 8, "OS_VCC.VDD12L".to_string(), "V".to_string(), 0, Some((14, 11, 2))),
            (2, 13, "OS_VCC.VDD12L".to_string(), "V".to_string(), 0, None),
        ]
    );
}

#[test]
fn ptr_without_units_has_empty_unit() {
    let rows = stdf_ptr(&sample_records(), "VDD33");
    assert_eq!(rows.len(), 1);
    assert_eq!(rows[0].pick.unit, "");
    assert_eq!(rows[0].pick.res_scal, 0);
    assert_eq!(rows[0].pick.cnt, 0);
    assert!(stdf_ptr(&sample_records(), "nothing").is_empty());
}

#[test]
fn dtr_rows_are_joined_with_their_part() {
    let rows = stdf_dtr(&sample_records(), "PixelTest_Time");
    let got: Vec<(i32, String, Option<i32>)> = rows
        .iter()
        .map(|r| (r.pick.cnt, r.pick.text.clone(), r.part.map(|p| p.num_test)))
        .collect();
    assert_eq!(
        got,
        vec![
            (0, "PixelTest_Time: 104.9 sec".to_string(), Some(12)),
            (1, "PixelTest_Time: 99.0 sec".to_string(), Some(13)),
            (1, "PixelTest_Time: 99.0 sec".to_string(), Some(14)),
        ]
    );
}

const MIR_DUMP: &str = "MIR {\n    setup_t: 1682479600,\n    lot_id: \"HS01892\",\n    stat_num: 1,\n}";

#[test]
fn header_text_of_a_dump() {
    assert_eq!(
        header_yaml_text(MIR_DUMP),
        "setup_t: 1682479600\nlot_id: \"HS01892\"\nstat_num: 1"
    );
    assert_eq!(header_yaml_text("WCR {}"), "");
    assert_eq!(header_yaml_text("A\nB"), "");
    assert_eq!(header_yaml_text("A\r\n  x: 1,,\r\nB\r\n"), "x: 1");
}

#[test]
fn header_texts_of_header_records_only() {
    let recs = vec![
        StdfRec::Other,
        StdfRec::Mir(MIR_DUMP.to_string()),
        StdfRec::Pir,
        StdfRec::Sdr("SDR {\n    head_num: 1,\n}".to_string()),
        StdfRec::Wir("WIR {\n    wafer_id: \"W1\",\n}".to_string()),
    ];
    assert_eq!(
        stdf_header_texts(&recs),
        vec![
            "setup_t: 1682479600\nlot_id: \"HS01892\"\nstat_num: 1".to_string(),
            "head_num: 1".to_string(),
            "wafer_id: \"W1\"".to_string(),
        ]
    );
}

fn header_values(recs: &Vec<StdfRec>) -> Vec<serde_yaml::Value> {
    match stdf_header(recs).unwrap() {
        HeaderYaml::Sequence(docs) => docs.into_iter().map(|d| d.into_value()).collect(),
        HeaderYaml::Null => panic!("expected a sequence"),
    }
}

#[test]
fn header_without_header_records_is_null() {
    assert!(matches!(stdf_header(&Vec::new()), Ok(HeaderYaml::Null)));
    let recs = vec![StdfRec::Pir, StdfRec::Other, dtr("x")];
    assert!(matches!(stdf_header(&recs), Ok(HeaderYaml::Null)));
}

#[test]
fn header_values_are_read() {
    let recs = vec![
        StdfRec::Mir(MIR_DUMP.to_string()),
        StdfRec::Wcr("WCR {\n    wafr_siz: 0.0,\n    wf_flat: 'L',\n}".to_string()),
    ];
    let values = header_values(&recs);
    assert_eq!(values.len(), 2);
    assert_eq!(values[0]["lot_id"].as_str(), Some("HS01892"));
    assert_eq!(values[0]["setup_t"].as_u64(), Some(1682479600));
    assert_eq!(values[1]["wf_flat"].as_str(), Some("L"));
}

#[test]
fn header_that_is_not_yaml_is_an_error() {
    let recs = vec![
        StdfRec::Mir(MIR_DUMP.to_string()),
        StdfRec::Sdr("SDR {\n    a: [1,\n}".to_string()),
    ];
    match stdf_header(&recs) {
        Err(HeaderError::Yaml(msg)) => assert!(!msg.is_empty()),
        _ => panic!("expected an error"),
    }
}

#[test]
fn record_kind_names_are_distinct() {
    let all = [
        RecordKind::Far,
        RecordKind::Atr,
        RecordKind::Vur,
        RecordKind::Mir,
        RecordKind::Mrr,
        RecordKind::Pcr,
        RecordKind::Hbr,
        RecordKind::Sbr,
        RecordKind::Pmr,
        RecordKind::Pgr,
        RecordKind::Plr,
        RecordKind::Rdr,
        RecordKind::Sdr,
        RecordKind::Psr,
        RecordKind::Nmr,
        RecordKind::Cnr,
        RecordKind::Ssr,
        RecordKind::Cdr,
        RecordKind::Wir,
        RecordKind::Wrr,
        RecordKind::Wcr,
        RecordKind::Pir,
        RecordKind::Prr,
        RecordKind::Tsr,
        RecordKind::Ptr,
        RecordKind::Mpr,
        RecordKind::Ftr,
        RecordKind::Str,
        RecordKind::Bps,
        RecordKind::Eps,
        RecordKind::Gdr,
        RecordKind::Dtr,
        RecordKind::Reserved,
        RecordKind::Invalid,
    ];
    let mut names: Vec<String> = all.iter().map(|k| k.to_string()).collect();
    names.sort();
    names.dedup();
    assert_eq!(names.len(), all.len());
}

#[test]
fn ptr_rows_come_in_file_order() {
    let rows = stdf_ptr(&sample_records(), "OS_VCC");
    let recs: Vec<usize> = rows.iter().map(|r| r.pick.record).collect();
    assert_eq!(recs, vec![1, 4, 5, 8, 8, 13]);
    let cnts: Vec<i32> = rows.iter().map(|r| r.pick.cnt).collect();
    assert_eq!(cnts, vec![-1, 0, 0, 1, 1, 2]);
}

#[test]
fn narrower_key_keeps_matching_rows() {
    let wide = stdf_ptr(&sample_records(), "OS_VCC");
    let narrow = stdf_ptr(&sample_records(), "VDD12L");
    let kept: Vec<(usize, Option<i32>)> = wide
        .iter()
        .filter(|r| r.pick.key.contains("VDD12L"))
        .map(|r| (r.pick.record, r.part.map(|p| p.num_test)))
        .collect();
    let got: Vec<(usize, Option<i32>)> =
        narrow.iter().map(|r| (r.pick.record, r.part.map(|p| p.num_test))).collect();
    assert_eq!(got, kept);
    assert_eq!(stdf_ptr(&sample_records(), "").len(), 6);
}

#[test]
fn header_values_follow_record_order() {
    let recs = vec![
        StdfRec::Wir("WIR {\n    wafer_id: \"W1\",\n}".to_string()),
        StdfRec::Pir,
        StdfRec::Sdr("SDR {\n    head_num: 3,\n}".to_string()),
    ];
    let values = header_values(&recs);
    assert_eq!(values.len(), 2);
    assert_eq!(values[0]["wafer_id"].as_str(), Some("W1"));
    assert_eq!(values[1]["head_num"].as_u64(), Some(3));
}

#[test]
fn header_written_back_is_the_same_for_the_same_text() {
    let recs = vec![StdfRec::Mir(MIR_DUMP.to_string())];
    let a = header_values(&recs);
    let b = header_values(&recs);
    let wa = serde_yaml::to_string(&a[0]).unwrap();
    let wb = serde_yaml::to_string(&b[0]).unwrap();
    assert_eq!(wa, wb);
    assert_eq!(wa, "setup_t: 1682479600\nlot_id: HS01892\nstat_num: 1\n");
}
