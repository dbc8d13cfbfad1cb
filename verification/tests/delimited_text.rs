use decision_tree::{ida3, DataError, InputData};

#[test]
fn csv_text_is_split_into_fields() {
    let text = b"weather,play\nsunny,yes\nsunny,yes\nrainy,no\nrainy,no\n";
    let data = InputData::from_csv(text, 1).unwrap();
    assert_eq!(data.attribute_names(), &vec!["weather".to_string()]);
    assert_eq!(data.result_name(), "play");
    assert_eq!(data.rows().len(), 4);
    assert_eq!(data.rows()[3].values, vec!["rainy".to_string()]);
    assert_eq!(ida3(&data).to_text(), "\nweather -> sunny \n yes\nweather -> rainy \n no");
}

#[test]
fn csv_quotes_are_resolved_and_blanks_kept() {
    let text = b"\"a,b\", label\n\"x \"\"y\"\"\", l\n";
    let data = InputData::from_csv(text, 1).unwrap();
    assert_eq!(data.attribute_names(), &vec!["a,b".to_string()]);
    assert_eq!(data.result_name(), " label");
    assert_eq!(data.rows()[0].values, vec!["x \"y\"".to_string()]);
    assert_eq!(data.rows()[0].result, " l");
}

#[test]
fn csv_with_unequal_records_is_a_parse_error() {
    let text = b"a,b\n1,2\n3\n";
    match InputData::from_csv(text, 0) {
        Err(DataError::Parse { message }) => assert!(!message.is_empty()),
        _ => panic!("expected a parse error"),
    }
}

#[test]
fn csv_that_is_not_utf8_is_a_parse_error() {
    let text = b"a,b\n\xff,2\n";
    assert!(matches!(InputData::from_csv(text, 0), Err(DataError::Parse { .. })));
}

#[test]
fn csv_label_position_out_of_range_is_rejected() {
    let text = b"a,b\n1,2\n";
    assert!(matches!(InputData::from_csv(text, 2), Err(DataError::LabelOutOfRange)));
}

#[test]
fn empty_csv_text_is_the_empty_table() {
    let data = InputData::from_csv(b"", 0).unwrap();
    assert!(data.rows().is_empty());
    assert!(data.attribute_names().is_empty());
}

#[test]
fn label_position_is_checked_before_a_later_parse_error() {
    let text = b"a,b\n1,2\n3\n";
    assert!(matches!(InputData::from_csv(text, 5), Err(DataError::LabelOutOfRange)));
    assert!(matches!(InputData::from_csv(text, 1), Err(DataError::Parse { .. })));
}
