use animator::probe::{
    parse_unsigned, probe_duration, probe_frame_count, probe_rate_parts, probe_size, report_of,
    report_size, Json, ProbeEntry, ProbeError, ProbeReport,
};

#[test]
fn probe_size_reads_width_and_height() {
    let out = br#"{"streams":[{"index":0,"width":1920,"height":1080}]}"#;
    assert_eq!(probe_size(out), Ok((1920, 1080)));
}

#[test]
fn probe_size_errors() {
    assert_eq!(probe_size(b"not json"), Err(ProbeError::NotJson));
    assert_eq!(probe_size(br#"{"streams":[]}"#), Err(ProbeError::NoStream));
    assert_eq!(probe_size(br#"{}"#), Err(ProbeError::NoStream));
    assert_eq!(
        probe_size(br#"{"streams":[{"width":"1920","height":1080}]}"#),
        Err(ProbeError::MissingEntry)
    );
    assert_eq!(
        probe_size(br#"{"streams":[{"width":1.5,"height":1080}]}"#),
        Err(ProbeError::MissingEntry)
    );
    assert_eq!(
        probe_size(br#"{"streams":[{"width":-4,"height":1080}]}"#),
        Err(ProbeError::MissingEntry)
    );
    assert_eq!(probe_size(br#"{"streams":[{"width":4}]}"#), Err(ProbeError::MissingEntry));
    // a stream that is not an object has no entries
    assert_eq!(probe_size(br#"{"streams":[3]}"#), Err(ProbeError::MissingEntry));
}

#[test]
fn probe_size_cuts_to_32_bits() {
    let out = br#"{"streams":[{"width":4294967297,"height":2}]}"#;
    assert_eq!(probe_size(out), Ok((1, 2)));
}

#[test]
fn probe_frame_count_reads_the_string() {
    assert_eq!(probe_frame_count(br#"{"streams":[{"nb_read_frames":"240"}]}"#), Ok(240));
    assert_eq!(probe_frame_count(br#"{"streams":[{"nb_read_frames":"+7"}]}"#), Ok(7));
    assert_eq!(
        probe_frame_count(br#"{"streams":[{"nb_read_frames":"abc"}]}"#),
        Err(ProbeError::Malformed)
    );
    assert_eq!(
        probe_frame_count(br#"{"streams":[{"nb_read_frames":240}]}"#),
        Err(ProbeError::MissingEntry)
    );
    assert_eq!(probe_frame_count(b"[1,"), Err(ProbeError::NotJson));
}

#[test]
fn probe_rate_parts_split_at_the_slash() {
    assert_eq!(
        probe_rate_parts(br#"{"streams":[{"avg_frame_rate":"30000/1001"}]}"#),
        Ok(("30000".to_string(), "1001".to_string()))
    );
    assert_eq!(
        probe_rate_parts(br#"{"streams":[{"avg_frame_rate":"30"}]}"#),
        Err(ProbeError::Malformed)
    );
    assert_eq!(
        probe_rate_parts(br#"{"streams":[{"avg_frame_rate":"1/2/3"}]}"#),
        Err(ProbeError::Malformed)
    );
    assert_eq!(probe_rate_parts(br#"{"streams":[{}]}"#), Err(ProbeError::MissingEntry));
}

#[test]
fn probe_duration_text() {
    assert_eq!(
        probe_duration(br#"{"format":{"duration":"12.500000"}}"#),
        Ok(Some("12.500000".to_string()))
    );
    assert_eq!(probe_duration(br#"{"format":{"duration":12.5}}"#), Ok(None));
    assert_eq!(probe_duration(br#"{}"#), Ok(None));
    assert_eq!(probe_duration(b""), Err(ProbeError::NotJson));
}

#[test]
fn parse_unsigned_cases() {
    assert_eq!(parse_unsigned("0"), Some(0));
    assert_eq!(parse_unsigned("007"), Some(7));
    assert_eq!(parse_unsigned("+5"), Some(5));
    assert_eq!(parse_unsigned(""), None);
    assert_eq!(parse_unsigned("+"), None);
    assert_eq!(parse_unsigned("-1"), None);
    assert_eq!(parse_unsigned("1a"), None);
    assert_eq!(parse_unsigned("18446744073709551615"), Some(u64::MAX));
    assert_eq!(parse_unsigned("18446744073709551616"), None);
}

#[test]
fn report_size_on_a_built_report() {
    let report = ProbeReport {
        first_stream: Some(vec![
            ("height".to_string(), ProbeEntry::Number("2".to_string())),
            ("width".to_string(), ProbeEntry::Number("3".to_string())),
            ("codec".to_string(), ProbeEntry::Text("h264".to_string())),
        ]),
        format: vec![],
    };
    assert_eq!(report_size(&report), Ok((3, 2)));
    let no_stream = ProbeReport {
        first_stream: None,
        format: vec![("width".to_string(), ProbeEntry::Other)],
    };
    assert_eq!(report_size(&no_stream), Err(ProbeError::NoStream));
}

#[test]
fn probe_size_needs_streams_to_be_a_list() {
    assert_eq!(probe_size(br#"{"streams":{"width":1,"height":2}}"#), Err(ProbeError::NoStream));
    assert_eq!(probe_size(br#"[{"width":1,"height":2}]"#), Err(ProbeError::NoStream));
}

#[test]
fn report_of_reads_the_first_stream_and_the_format() {
    let stream = |w: &str| {
        Json::Object(vec![
            ("width".to_string(), Json::Number(w.to_string())),
            ("height".to_string(), Json::Number("9".to_string())),
            ("codec".to_string(), Json::Text("h264".to_string())),
            ("tags".to_string(), Json::Object(vec![])),
        ])
    };
    let json = Json::Object(vec![
        ("format".to_string(), Json::Object(vec![("duration".to_string(), Json::Text("1.5".to_string()))])),
        ("streams".to_string(), Json::Array(vec![stream("16"), stream("32")])),
    ]);
    let report = report_of(&json);
    assert_eq!(report_size(&report), Ok((16, 9)));
    let first = report.first_stream.unwrap();
    assert_eq!(first.len(), 4);
    assert!(matches!(&first[3].1, ProbeEntry::Other));
    assert_eq!(report.format.len(), 1);
    assert!(matches!(&report.format[0].1, ProbeEntry::Text(t) if t == "1.5"));
    let empty = report_of(&Json::Array(vec![]));
    assert!(empty.first_stream.is_none());
    assert!(empty.format.is_empty());
}
