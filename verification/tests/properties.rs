use decision_tree::induce::best_attribute;
use decision_tree::stats::{all_rows, entropy, entropy_gain, most_common};
use decision_tree::{ida3, DecisionTree, InputData, Node, Row};

fn table(lines: &[&[&str]]) -> Vec<Vec<String>> {
    lines.iter().map(|line| line.iter().map(|field| field.to_string()).collect()).collect()
}

fn tennis() -> InputData {
    let records = table(&[
        &["outlook", "temperature", "humidity", "wind", "play"],
        &["sunny", "hot", "high", "weak", "no"],
        &["sunny", "hot", "high", "strong", "no"],
        &["overcast", "hot", "high", "weak", "yes"],
        &["rain", "mild", "high", "weak", "yes"],
        &["rain", "cool", "normal", "weak", "yes"],
        &["rain", "cool", "normal", "strong", "no"],
        &["overcast", "cool", "normal", "strong", "yes"],
        &["sunny", "mild", "high", "weak", "no"],
        &["sunny", "cool", "normal", "weak", "yes"],
        &["rain", "mild", "normal", "weak", "yes"],
        &["sunny", "mild", "normal", "strong", "yes"],
        &["overcast", "mild", "high", "strong", "yes"],
        &["overcast", "hot", "normal", "weak", "yes"],
        &["rain", "mild", "high", "strong", "no"],
    ]);
    InputData::from_records(&records, 4).unwrap()
}

fn check_paths(tree: &DecisionTree, above: &mut Vec<usize>, attributes: usize, leaves: &mut usize) {
    match &tree.node {
        Node::Leaf { .. } => {
            assert!(above.len() <= attributes);
            for (i, column) in above.iter().enumerate() {
                assert!(*column < attributes);
                assert!(!above[..i].contains(column));
            }
            *leaves += 1;
        }
        Node::Decision { column, children, .. } => {
            above.push(*column);
            for (_, subtree) in children.iter() {
                check_paths(subtree, above, attributes, leaves);
            }
            above.pop();
        }
    }
}

fn check_keys(tree: &DecisionTree, data: &InputData) {
    if let Node::Decision { attribute, column, children } = &tree.node {
        assert_eq!(attribute, &data.attribute_names()[*column]);
        let variants = &data.attributes()[*column].variants;
        assert!(!children.is_empty());
        for (i, (key, subtree)) in children.iter().enumerate() {
            assert!(variants.contains(key));
            assert!(children[..i].iter().all(|(earlier, _)| earlier != key));
            check_keys(subtree, data);
        }
    }
}

#[test]
fn tennis_tree_is_the_textbook_tree() {
    let data = tennis();
    let tree = ida3(&data);
    assert_eq!(
        tree.to_text(),
        "\noutlook -> sunny \n humidity -> high \n  no\n humidity -> normal \n  yes\
         \noutlook -> overcast \n yes\
         \noutlook -> rain \n wind -> weak \n  yes\n wind -> strong \n  no"
    );
}

#[test]
fn tennis_gains_are_ordered_as_in_the_textbook() {
    // Gains in nats: outlook 0.1711, temperature 0.0203, humidity 0.1052,
    // wind 0.0334.
    let data = tennis();
    let rows: Vec<&Row> = data.rows().iter().collect();
    let gains: Vec<_> = (0..4).map(|a| entropy_gain(&rows, &data, a)).collect();
    assert!(gains[1].lt(&gains[3]));
    assert!(gains[3].lt(&gains[2]));
    assert!(gains[2].lt(&gains[0]));
    for gain in gains.iter() {
        assert!(gain.is_nonnegative());
        assert!(!gain.is_zero());
    }
    assert_eq!(best_attribute(&rows, &data, &Vec::new()), Some(0));
    assert_eq!(best_attribute(&rows, &data, &vec![0]), Some(2));
    assert_eq!(best_attribute(&rows, &data, &vec![0, 2]), Some(3));
    assert_eq!(best_attribute(&rows, &data, &vec![2, 0, 3]), Some(1));
    assert_eq!(best_attribute(&rows, &data, &vec![0, 1, 2, 3]), None);
}

#[test]
fn tennis_entropy_matches_the_formula() {
    // Nine yes and five no: 14 H = 14 ln 14 - 9 ln 9 - 5 ln 5, H = 0.6518.
    let data = tennis();
    let rows: Vec<&Row> = data.rows().iter().collect();
    let h = entropy(&rows, &data);
    assert_eq!(h.up, vec![14]);
    assert_eq!(h.down, vec![5, 9]);
    let nats = (14.0 * 14f64.ln() - 9.0 * 9f64.ln() - 5.0 * 5f64.ln()) / 14.0;
    assert!((nats - 0.6518).abs() < 1e-4);
    let direct = -(9.0 / 14.0) * (9f64 / 14.0).ln() - (5.0 / 14.0) * (5f64 / 14.0).ln();
    assert!((nats - direct).abs() < 1e-12);
}

#[test]
fn every_path_uses_distinct_attributes() {
    let data = tennis();
    let tree = ida3(&data);
    let mut leaves = 0;
    check_paths(&tree, &mut Vec::new(), data.attribute_names().len(), &mut leaves);
    assert_eq!(leaves, 5);
}

#[test]
fn child_keys_are_variants_of_the_attribute() {
    let data = tennis();
    check_keys(&ida3(&data), &data);
}

#[test]
fn growing_twice_gives_the_same_tree() {
    let data = tennis();
    assert_eq!(ida3(&data).to_text(), ida3(&data).to_text());
}

#[test]
fn entropy_is_zero_exactly_for_one_label() {
    let data = tennis();
    let rows = data.rows();
    let overcast: Vec<&Row> = rows.iter().filter(|row| row.values[0] == "overcast").collect();
    assert!(entropy(&overcast, &data).is_zero());
    let sunny: Vec<&Row> = rows.iter().filter(|row| row.values[0] == "sunny").collect();
    let h = entropy(&sunny, &data);
    assert!(!h.is_zero());
    assert!(h.is_nonnegative());
    let one: Vec<&Row> = vec![&rows[0]];
    assert!(entropy(&one, &data).is_zero());
}

#[test]
fn constant_attribute_gains_exactly_nothing() {
    let data = tennis();
    let rows = data.rows();
    let sunny: Vec<&Row> = rows.iter().filter(|row| row.values[0] == "sunny").collect();
    let gain = entropy_gain(&sunny, &data, 0);
    assert!(gain.is_zero());
    assert!(gain.is_nonnegative());
}

#[test]
fn split_that_keeps_the_distribution_gains_nothing() {
    let records = table(&[
        &["coin", "label"],
        &["heads", "a"],
        &["heads", "b"],
        &["heads", "b"],
        &["tails", "a"],
        &["tails", "a"],
        &["tails", "b"],
        &["tails", "b"],
        &["tails", "b"],
        &["tails", "b"],
    ]);
    let data = InputData::from_records(&records, 1).unwrap();
    let rows: Vec<&Row> = data.rows().iter().collect();
    let gain = entropy_gain(&rows, &data, 0);
    assert!(gain.is_zero());
    assert_eq!(best_attribute(&rows, &data, &Vec::new()), Some(0));
}

#[test]
fn a_few_hundred_rows_are_handled() {
    let mut records = table(&[&["a", "b", "c", "label"]]);
    for i in 0..300u32 {
        let a = (i % 3).to_string();
        let b = (i % 5).to_string();
        let c = (i % 7).to_string();
        let label = if (i % 3 == 0) ^ (i % 5 < 2) { "p" } else { "q" };
        records.push(vec![a, b, c, label.to_string()]);
    }
    let data = InputData::from_records(&records, 3).unwrap();
    let tree = ida3(&data);
    let mut leaves = 0;
    check_paths(&tree, &mut Vec::new(), 3, &mut leaves);
    check_keys(&tree, &data);
    assert!(leaves >= 6);
}

#[test]
fn gain_is_not_negative_where_labels_are_missing() {
    let records = table(&[
        &["a", "b", "label"],
        &["0", "x", "y"],
        &["0", "y", "?"],
        &["0", "x", "n"],
        &["1", "y", "?"],
        &["1", "x", "n"],
        &["1", "y", "y"],
        &["1", "x", "?"],
        &["0", "y", "n"],
    ]);
    let data = InputData::from_records(&records, 2).unwrap();
    let rows: Vec<&Row> = data.rows().iter().collect();
    for a in 0..2 {
        assert!(entropy_gain(&rows, &data, a).is_nonnegative());
    }
    assert!(best_attribute(&rows, &data, &Vec::new()).is_some());
    let tree = ida3(&data);
    let mut leaves = 0;
    check_paths(&tree, &mut Vec::new(), 2, &mut leaves);
    check_keys(&tree, &data);
}

#[test]
fn rows_and_attributes_can_be_copied() {
    let data = tennis();
    let row = data.rows()[3].clone();
    assert_eq!(row.result, "yes");
    assert_eq!(row.values, data.rows()[3].values);
    let attribute = data.attributes()[0].clone();
    assert_eq!(attribute.variants, vec!["sunny", "overcast", "rain"]);
}

#[test]
fn paths_use_distinct_columns_where_names_repeat() {
    let records = table(&[
        &["a", "a", "a", "label"],
        &["0", "0", "0", "n"],
        &["0", "0", "1", "y"],
        &["0", "1", "0", "y"],
        &["1", "0", "0", "y"],
        &["1", "1", "0", "n"],
        &["1", "0", "1", "n"],
        &["0", "1", "1", "n"],
        &["1", "1", "1", "y"],
    ]);
    let data = InputData::from_records(&records, 3).unwrap();
    let tree = ida3(&data);
    let mut leaves = 0;
    check_paths(&tree, &mut Vec::new(), 3, &mut leaves);
    check_keys(&tree, &data);
    assert_eq!(leaves, 8);
}

#[test]
fn all_rows_of_a_table_in_order() {
    let data = tennis();
    let rows = all_rows(&data);
    assert_eq!(rows.len(), 14);
    assert_eq!(rows[5].result, "no");
    assert_eq!(rows[5].values, data.rows()[5].values);
    assert_eq!(most_common(&rows, &data), "yes");
    assert!(all_rows(&InputData::new()).is_empty());
}
