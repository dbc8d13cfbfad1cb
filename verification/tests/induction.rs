use decision_tree::induce::{best_attribute, ida3_internal};
use decision_tree::information::Information;
use decision_tree::stats::{
    count_results, entropy, entropy_gain, most_common, partition_by_attribute,
};
use decision_tree::{ida3, DataError, DecisionTree, InputData, Node, Row};

fn table(lines: &[&[&str]]) -> Vec<Vec<String>> {
    lines.iter().map(|line| line.iter().map(|field| field.to_string()).collect()).collect()
}

fn all_rows(data: &InputData) -> Vec<&Row> {
    data.rows().iter().collect()
}

fn leaf_value(tree: &DecisionTree) -> Option<&str> {
    match &tree.node {
        Node::Leaf { value } => Some(value.as_str()),
        Node::Decision { .. } => None,
    }
}

fn child<'a>(tree: &'a DecisionTree, variant: &str) -> Option<&'a DecisionTree> {
    match &tree.node {
        Node::Leaf { .. } => None,
        Node::Decision { children, .. } => {
            children.iter().find(|(key, _)| key == variant).map(|(_, subtree)| subtree)
        }
    }
}

fn weather() -> InputData {
    let records = table(&[
        &["weather", "play"],
        &["sunny", "yes"],
        &["sunny", "yes"],
        &["rainy", "no"],
        &["rainy", "no"],
    ]);
    InputData::from_records(&records, 1).unwrap()
}

#[test]
fn weather_table_is_read_as_it_stands() {
    let data = weather();
    assert_eq!(data.attribute_names(), &vec!["weather".to_string()]);
    assert_eq!(data.result_name(), "play");
    assert_eq!(data.result_variants(), &vec!["yes".to_string(), "no".to_string()]);
    assert_eq!(data.attributes().len(), 1);
    assert_eq!(data.attributes()[0].variants, vec!["sunny".to_string(), "rainy".to_string()]);
    assert_eq!(data.rows().len(), 4);
    assert_eq!(data.rows()[2].result, "no");
    assert_eq!(data.rows()[2].values, vec!["rainy".to_string()]);
}

#[test]
fn weather_entropy_is_positive() {
    let data = weather();
    let rows = all_rows(&data);
    let h = entropy(&rows, &data);
    assert!(!h.is_zero());
    assert!(h.is_nonnegative());
    assert_eq!(h.up, vec![4]);
    assert_eq!(h.down, vec![2, 2]);
}

#[test]
fn weather_gain_is_ln_two_per_row() {
    // exp(4 gain) = (4^4 * 2^2 * 2^2) / (2^2 * 2^2 * 2^2 * 2^2) = 16 = 2^4.
    let data = weather();
    let rows = all_rows(&data);
    let gain = entropy_gain(&rows, &data, 0);
    assert_eq!(gain.up, vec![4, 2, 0, 0, 2]);
    assert_eq!(gain.down, vec![2, 2, 2, 2]);
    let sixteen = Information { up: vec![2, 2], down: vec![] };
    assert!(gain.le(&sixteen) && sixteen.le(&gain));
    let whole = entropy(&rows, &data);
    assert!(gain.le(&whole) && whole.le(&gain));
}

#[test]
fn weather_best_attribute_is_weather() {
    let data = weather();
    let rows = all_rows(&data);
    assert_eq!(best_attribute(&rows, &data, &Vec::new()), Some(0));
    assert_eq!(best_attribute(&rows, &data, &vec![0]), None);
}

#[test]
fn weather_tree_is_a_perfect_split() {
    let data = weather();
    let tree = ida3(&data);
    match &tree.node {
        Node::Decision { attribute, children, .. } => {
            assert_eq!(attribute, "weather");
            assert_eq!(children.len(), 2);
            assert_eq!(children[0].0, "sunny");
            assert_eq!(children[1].0, "rainy");
        }
        Node::Leaf { .. } => panic!("the root must be a decision node"),
    }
    assert_eq!(leaf_value(child(&tree, "sunny").unwrap()), Some("yes"));
    assert_eq!(leaf_value(child(&tree, "rainy").unwrap()), Some("no"));
    assert_eq!(tree.to_text(), "\nweather -> sunny \n yes\nweather -> rainy \n no");
}

#[test]
fn uniform_label_gives_a_root_leaf() {
    let records = table(&[
        &["outlook", "wind", "play"],
        &["sunny", "weak", "yes"],
        &["rainy", "strong", "yes"],
        &["overcast", "weak", "yes"],
    ]);
    let data = InputData::from_records(&records, 2).unwrap();
    let rows = all_rows(&data);
    assert!(entropy(&rows, &data).is_zero());
    let tree = ida3(&data);
    assert_eq!(leaf_value(&tree), Some("yes"));
    assert_eq!(tree.to_text(), "\nyes");
}

#[test]
fn three_variants_with_uniform_label_gain_nothing() {
    let records = table(&[
        &["colour", "ripe"],
        &["red", "yes"],
        &["green", "yes"],
        &["red", "yes"],
        &["yellow", "yes"],
    ]);
    let data = InputData::from_records(&records, 1).unwrap();
    let rows = all_rows(&data);
    let gain = entropy_gain(&rows, &data, 0);
    assert!(gain.is_zero());
    assert!(gain.is_nonnegative());
    assert_eq!(best_attribute(&rows, &data, &Vec::new()), Some(0));
    assert_eq!(leaf_value(&ida3(&data)), Some("yes"));
}

#[test]
fn zero_gain_attribute_loses_to_a_positive_one() {
    let records = table(&[
        &["same", "shape", "label"],
        &["x", "round", "a"],
        &["x", "round", "a"],
        &["x", "square", "b"],
        &["x", "square", "b"],
    ]);
    let data = InputData::from_records(&records, 2).unwrap();
    let rows = all_rows(&data);
    assert!(entropy_gain(&rows, &data, 0).is_zero());
    assert!(!entropy_gain(&rows, &data, 1).is_zero());
    assert!(entropy_gain(&rows, &data, 0).lt(&entropy_gain(&rows, &data, 1)));
    assert_eq!(best_attribute(&rows, &data, &Vec::new()), Some(1));
    assert_eq!(best_attribute(&rows, &data, &vec![1]), Some(0));
}

#[test]
fn equal_gains_keep_the_first_attribute() {
    let records = table(&[
        &["left", "right", "label"],
        &["p", "u", "a"],
        &["p", "u", "a"],
        &["q", "v", "b"],
        &["q", "v", "b"],
    ]);
    let data = InputData::from_records(&records, 2).unwrap();
    let rows = all_rows(&data);
    let g0 = entropy_gain(&rows, &data, 0);
    let g1 = entropy_gain(&rows, &data, 1);
    assert!(g0.le(&g1) && g1.le(&g0));
    assert_eq!(best_attribute(&rows, &data, &Vec::new()), Some(0));
    match &ida3(&data).node {
        Node::Decision { attribute, .. } => assert_eq!(attribute, "left"),
        Node::Leaf { .. } => panic!("the root must be a decision node"),
    }
}

#[test]
fn counts_follow_first_seen_label_order() {
    let records = table(&[
        &["label", "k"],
        &["b", "1"],
        &["a", "1"],
        &["b", "2"],
        &["c", "2"],
        &["b", "3"],
    ]);
    let data = InputData::from_records(&records, 0).unwrap();
    let rows = all_rows(&data);
    assert_eq!(data.result_variants(), &vec!["b".to_string(), "a".to_string(), "c".to_string()]);
    assert_eq!(count_results(&rows, &data), vec![3, 1, 1]);
    assert_eq!(most_common(&rows, &data), "b");
    let some: Vec<&Row> = vec![&data.rows()[1], &data.rows()[3]];
    assert_eq!(count_results(&some, &data), vec![0, 1, 1]);
    assert_eq!(most_common(&some, &data), "a");
}

#[test]
fn partition_keeps_variant_order_and_row_order() {
    let records = table(&[
        &["k", "label"],
        &["1", "a"],
        &["2", "b"],
        &["1", "c"],
        &["3", "d"],
    ]);
    let data = InputData::from_records(&records, 1).unwrap();
    let rows = all_rows(&data);
    let parts = partition_by_attribute(&rows, &data, 0);
    assert_eq!(parts.len(), 3);
    let labels: Vec<Vec<&str>> =
        parts.iter().map(|part| part.iter().map(|row| row.result.as_str()).collect()).collect();
    assert_eq!(labels, vec![vec!["a", "c"], vec!["b"], vec!["d"]]);
    let two: Vec<&Row> = vec![&data.rows()[1], &data.rows()[3]];
    let parts = partition_by_attribute(&two, &data, 0);
    assert_eq!(parts[0].len(), 0);
    assert_eq!(parts[1].len(), 1);
    assert_eq!(parts[2].len(), 1);
}

#[test]
fn missing_labels_are_folded_into_the_most_common_known_label() {
    let records = table(&[
        &["k", "label"],
        &["1", "n"],
        &["1", "?"],
        &["2", "y"],
        &["2", "y"],
        &["2", "?"],
    ]);
    let data = InputData::from_records(&records, 1).unwrap();
    let rows = all_rows(&data);
    assert_eq!(count_results(&rows, &data), vec![1, 2, 2]);
    let h = entropy(&rows, &data);
    assert_eq!(h.up, vec![5]);
    assert_eq!(h.down, vec![1, 0, 4]);
    let only_missing: Vec<&Row> = vec![&data.rows()[1], &data.rows()[4]];
    let h = entropy(&only_missing, &data);
    assert_eq!(h.down, vec![2, 0, 0]);
    assert!(h.is_zero());
    assert_eq!(most_common(&only_missing, &data), "?");
}

#[test]
fn missing_attribute_values_are_ordinary_variants() {
    let records = table(&[
        &["k", "label"],
        &["?", "a"],
        &["1", "b"],
        &["?", "a"],
    ]);
    let data = InputData::from_records(&records, 1).unwrap();
    assert_eq!(data.attributes()[0].variants, vec!["?".to_string(), "1".to_string()]);
    let tree = ida3(&data);
    assert_eq!(leaf_value(child(&tree, "?").unwrap()), Some("a"));
    assert_eq!(leaf_value(child(&tree, "1").unwrap()), Some("b"));
}

#[test]
fn exhausted_attributes_give_the_most_common_label() {
    let records = table(&[
        &["k", "label"],
        &["1", "a"],
        &["1", "b"],
        &["1", "b"],
        &["2", "c"],
    ]);
    let data = InputData::from_records(&records, 1).unwrap();
    let tree = ida3(&data);
    assert_eq!(leaf_value(child(&tree, "1").unwrap()), Some("b"));
    assert_eq!(leaf_value(child(&tree, "2").unwrap()), Some("c"));
    assert_eq!(tree.to_text(), "\nk -> 1 \n b\nk -> 2 \n c");
}

#[test]
fn most_common_tie_goes_to_the_first_seen_label() {
    let records = table(&[&["k", "label"], &["1", "z"], &["1", "a"]]);
    let data = InputData::from_records(&records, 1).unwrap();
    let rows = all_rows(&data);
    assert_eq!(most_common(&rows, &data), "z");
    assert_eq!(leaf_value(child(&ida3(&data), "1").unwrap()), Some("z"));
}

#[test]
fn two_levels_use_distinct_attributes() {
    let records = table(&[
        &["a", "b", "label"],
        &["0", "0", "n"],
        &["0", "1", "y"],
        &["1", "0", "y"],
        &["1", "1", "y"],
        &["1", "1", "y"],
    ]);
    let data = InputData::from_records(&records, 2).unwrap();
    let tree = ida3(&data);
    let text = tree.to_text();
    assert_eq!(text, "\na -> 0 \n b -> 0 \n  n\n b -> 1 \n  y\na -> 1 \n y");
    let again = ida3(&data);
    assert_eq!(again.to_text(), text);
}

#[test]
fn variants_without_rows_have_no_child() {
    let records = table(&[
        &["a", "b", "label"],
        &["0", "x", "n"],
        &["0", "y", "m"],
        &["1", "z", "m"],
    ]);
    let data = InputData::from_records(&records, 2).unwrap();
    let rows: Vec<&Row> = vec![&data.rows()[0], &data.rows()[1]];
    let tree = ida3_internal(&rows, &data, &vec![0]);
    match &tree.node {
        Node::Decision { attribute, children, .. } => {
            assert_eq!(attribute, "b");
            assert_eq!(children.len(), 2);
            assert_eq!(children[0].0, "x");
            assert_eq!(children[1].0, "y");
        }
        Node::Leaf { .. } => panic!("the node must be a decision node"),
    }
}

#[test]
fn label_position_out_of_range_is_rejected() {
    let records = table(&[&["a", "b"], &["1", "2"]]);
    assert!(matches!(InputData::from_records(&records, 2), Err(DataError::LabelOutOfRange)));
    assert!(InputData::from_records(&records, 1).is_ok());
}

#[test]
fn ragged_records_are_rejected() {
    let records = table(&[&["a", "b"], &["1", "2"], &["1"]]);
    assert!(matches!(InputData::from_records(&records, 0), Err(DataError::UnequalLengths)));
}

#[test]
fn repeated_attribute_names_are_kept() {
    let records = table(&[
        &["a", "a", "label"],
        &["1", "p", "x"],
        &["1", "q", "y"],
        &["2", "p", "x"],
        &["2", "q", "y"],
    ]);
    let data = InputData::from_records(&records, 2).unwrap();
    assert_eq!(data.attribute_names(), &vec!["a".to_string(), "a".to_string()]);
    assert_eq!(data.result_name(), "label");
    assert_eq!(data.attributes()[0].variants, vec!["1".to_string(), "2".to_string()]);
    assert_eq!(data.attributes()[1].variants, vec!["p".to_string(), "q".to_string()]);
    assert_eq!(data.rows()[1].values, vec!["1".to_string(), "q".to_string()]);
    let rows = all_rows(&data);
    assert!(entropy_gain(&rows, &data, 0).is_zero());
    assert_eq!(best_attribute(&rows, &data, &Vec::new()), Some(1));
    let tree = ida3(&data);
    match &tree.node {
        Node::Decision { attribute, column, children } => {
            assert_eq!(attribute, "a");
            assert_eq!(*column, 1);
            assert_eq!(children.len(), 2);
        }
        Node::Leaf { .. } => panic!("the root must be a decision node"),
    }
    assert_eq!(tree.to_text(), "\na -> p \n x\na -> q \n y");
}

#[test]
fn decision_nodes_hold_their_column() {
    let records = table(&[
        &["a", "b", "label"],
        &["0", "0", "n"],
        &["0", "1", "y"],
        &["1", "0", "y"],
        &["1", "1", "y"],
    ]);
    let data = InputData::from_records(&records, 2).unwrap();
    let tree = ida3(&data);
    match &tree.node {
        Node::Decision { attribute, column, children } => {
            assert_eq!(attribute, "a");
            assert_eq!(*column, 0);
            match &children[0].1.node {
                Node::Decision { attribute, column, .. } => {
                    assert_eq!(attribute, "b");
                    assert_eq!(*column, 1);
                }
                Node::Leaf { .. } => panic!("the child must be a decision node"),
            }
        }
        Node::Leaf { .. } => panic!("the root must be a decision node"),
    }
}

#[test]
fn no_records_give_the_empty_table() {
    let data = InputData::from_records(&Vec::new(), 7).unwrap();
    assert!(data.attribute_names().is_empty());
    assert!(data.rows().is_empty());
    assert_eq!(data.result_name(), "");
    let empty = InputData::new();
    assert!(empty.rows().is_empty());
}

#[test]
fn fields_are_not_trimmed() {
    let records = table(&[&["k", "label"], &[" 1", "a"], &["1", "a "], &["1 ", "a"]]);
    let data = InputData::from_records(&records, 1).unwrap();
    assert_eq!(data.attributes()[0].variants.len(), 3);
    assert_eq!(data.result_variants(), &vec!["a".to_string(), "a ".to_string()]);
}
