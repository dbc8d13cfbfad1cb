//! What holds of entropy, of gain and of every grown tree.

use crate::dataset::{DataModel, RowModel, Text};
use crate::induce::{best_attribute_of, branches, induced, is_best, is_free, is_path};
use crate::information::{
    lemma_power_adds, lemma_power_base_monotonic, lemma_power_positive, lemma_power_product_concat,
    lemma_power_product_positive, lemma_power_product_single, power, power_product, self_power,
    total, Amount,
};
use crate::stats::{
    count, distribution, entropy_of, folded, gain_of, is_most_common, label_counts,
    lemma_most_common_unique, most_common_index, most_common_label, remainder_of, select, unknown,
};
use crate::tree::TreeModel;
use vstd::prelude::*;

verus! {

/// Whether at most one of `counts` is not zero.
pub open spec fn is_pure(counts: Seq<nat>) -> bool {
    forall|i: int, j: int|
        0 <= i < counts.len() && 0 <= j < counts.len() && counts[i] > 0 && counts[j] > 0 ==> i == j
}

/// Whether all of `rows` carry the same label.
pub open spec fn same_label(rows: Seq<RowModel>) -> bool {
    forall|r: int, s: int| 0 <= r < rows.len() && 0 <= s < rows.len() ==> rows[r].label == rows[s].label
}

/// Whether every label of `rows` is one of `labels`.
pub open spec fn labels_known(rows: Seq<RowModel>, labels: Seq<Text>) -> bool {
    forall|r: int| 0 <= r < rows.len() ==> labels.contains(#[trigger] rows[r].label)
}

/// The sum after one entry has been replaced.
pub proof fn lemma_total_update(s: Seq<nat>, j: int, v: nat)
    requires
        0 <= j < s.len(),
    ensures
        total(s.update(j, v)) + s[j] == total(s) + v,
    decreases s.len(),
{
    let t = s.update(j, v);
    if j == s.len() - 1 {
        assert(t.drop_last() =~= s.drop_last());
    } else {
        lemma_total_update(s.drop_last(), j, v);
        assert(t.drop_last() =~= s.drop_last().update(j, v));
    }
}

/// Two entries at different places sum to at most the total.
pub proof fn lemma_total_bounds(s: Seq<nat>, i: int, j: int)
    requires
        0 <= i < s.len(),
        0 <= j < s.len(),
    ensures
        s[i] <= total(s),
        i != j ==> s[i] + s[j] <= total(s),
    decreases s.len(),
{
    let init = s.drop_last();
    if i < s.len() - 1 && j < s.len() - 1 {
        lemma_total_bounds(init, i, j);
    } else if i < s.len() - 1 {
        lemma_total_bounds(init, i, i);
    } else if j < s.len() - 1 {
        lemma_total_bounds(init, j, j);
    }
}

/// A sequence of zeros has sum zero and product one.
pub proof fn lemma_all_zero(s: Seq<nat>)
    requires
        forall|i: int| 0 <= i < s.len() ==> s[i] == 0,
    ensures
        total(s) == 0,
        power_product(s) == 1,
    decreases s.len(),
{
    if s.len() > 0 {
        lemma_all_zero(s.drop_last());
        assert(self_power(0) == 1);
        assert(1 * 1 == 1) by (nonlinear_arith);
    }
}

/// Where only the entry at `j` may differ from zero, the sum is that entry
/// and the product is its self-power.
pub proof fn lemma_single_entry(s: Seq<nat>, j: int)
    requires
        0 <= j < s.len(),
        forall|i: int| 0 <= i < s.len() && i != j ==> s[i] == 0,
    ensures
        total(s) == s[j],
        power_product(s) == self_power(s[j]),
    decreases s.len(),
{
    let init = s.drop_last();
    if j == s.len() - 1 {
        lemma_all_zero(init);
        assert(1 * self_power(s[j]) == self_power(s[j])) by (nonlinear_arith);
    } else {
        lemma_single_entry(init, j);
        assert(self_power(0) == 1);
        assert(self_power(s[j]) * 1 == self_power(s[j])) by (nonlinear_arith);
    }
}

/// If no entry exceeds `m`, the product of the self-powers is at most `m` to
/// the sum; and less, if some entry lies strictly between zero and `m`.
pub proof fn lemma_product_bound(s: Seq<nat>, m: nat)
    requires
        forall|i: int| 0 <= i < s.len() ==> s[i] <= m,
    ensures
        power_product(s) <= power(m, total(s)),
        (exists|i: int| 0 <= i < s.len() && 0 < #[trigger] s[i] && s[i] < m) ==> power_product(s) < power(m, total(s)),
    decreases s.len(),
{
    if s.len() > 0 {
        let init = s.drop_last();
        let last = s.last();
        lemma_product_bound(init, m);
        lemma_power_base_monotonic(last, m, last);
        lemma_power_adds(m, total(init), last);
        lemma_power_product_positive(init);
        lemma_power_positive(last, last);
        let a = power_product(init);
        let b = power(m, total(init));
        let c = self_power(last);
        let d = power(m, last);
        assert(a * c <= b * d) by (nonlinear_arith)
            requires
                a <= b,
                c <= d,
                0 <= a,
                0 <= c,
        ;
        if exists|i: int| 0 <= i < s.len() && 0 < #[trigger] s[i] && s[i] < m {
            let i = choose|i: int| 0 <= i < s.len() && 0 < #[trigger] s[i] && s[i] < m;
            if i == s.len() - 1 {
                assert(a * c < b * d) by (nonlinear_arith)
                    requires
                        a <= b,
                        c < d,
                        0 < a,
                        0 <= c,
                ;
            } else {
                assert(0 < init[i] < m);
                assert(a * c < b * d) by (nonlinear_arith)
                    requires
                        a < b,
                        c <= d,
                        0 <= a,
                        0 < c,
                ;
            }
        }
    }
}

/// The product of the self-powers of counts equals the self-power of their
/// sum exactly when at most one count is not zero.
pub proof fn lemma_product_of_counts(s: Seq<nat>)
    ensures
        power_product(s) <= self_power(total(s)),
        power_product(s) == self_power(total(s)) <==> is_pure(s),
{
    let n = total(s);
    assert forall|i: int| 0 <= i < s.len() implies s[i] <= n by {
        lemma_total_bounds(s, i, i);
    }
    lemma_product_bound(s, n);
    if is_pure(s) {
        if exists|j: int| 0 <= j < s.len() && s[j] > 0 {
            let j = choose|j: int| 0 <= j < s.len() && s[j] > 0;
            lemma_single_entry(s, j);
        } else {
            lemma_all_zero(s);
        }
    } else {
        let (i, j) = choose|i: int, j: int|
            0 <= i < s.len() && 0 <= j < s.len() && s[i] > 0 && s[j] > 0 && i != j;
        lemma_total_bounds(s, i, j);
        assert(0 < s[i] < n);
    }
}

/// A sequence that is not empty has a first greatest entry.
pub proof fn lemma_most_common_exists(counts: Seq<nat>)
    requires
        counts.len() > 0,
    ensures
        is_most_common(counts, most_common_index(counts)),
    decreases counts.len(),
{
    if counts.len() == 1 {
        assert(is_most_common(counts, 0));
    } else {
        let init = counts.drop_last();
        lemma_most_common_exists(init);
        let k = most_common_index(init);
        if counts.last() > init[k] {
            assert forall|j: int| 0 <= j < counts.len() - 1 implies counts[j] < counts.last() by {
                assert(init[j] <= init[k]);
            }
            assert(is_most_common(counts, counts.len() - 1));
        } else {
            assert forall|j: int| 0 <= j < counts.len() implies counts[j] <= counts[k] by {
                if j < init.len() {
                    assert(init[j] <= init[k]);
                }
            }
            assert forall|j: int| 0 <= j < k implies counts[j] < counts[k] by {
                assert(init[j] < init[k]);
            }
            assert(is_most_common(counts, k));
        }
    }
}

/// Folding the missing label into another keeps the sum, and keeps at most
/// one count from being zero where that held before.
pub proof fn lemma_folded(counts: Seq<nat>, labels: Seq<Text>)
    requires
        counts.len() == labels.len(),
    ensures
        folded(counts, labels).len() == counts.len(),
        total(folded(counts, labels)) == total(counts),
        is_pure(counts) ==> is_pure(folded(counts, labels)),
        labels.contains(unknown()) && counts[labels.index_of(unknown())] == 0 ==> folded(counts, labels)
            == counts,
{
    if labels.contains(unknown()) {
        let u = labels.index_of(unknown());
        let known = counts.update(u, 0);
        lemma_most_common_exists(known);
        let t = most_common_index(known);
        let after = known.update(t, known[t] + counts[u]);
        lemma_total_update(counts, u, 0);
        lemma_total_update(known, t, known[t] + counts[u]);
        if counts[u] == 0 {
            assert(after =~= counts);
        }
        if is_pure(counts) {
            if counts[u] > 0 {
                assert forall|i: int| 0 <= i < known.len() implies known[i] == 0 by {
                    if i != u && counts[i] > 0 {
                        assert(i == u);
                    }
                }
                assert(is_pure(after));
            } else {
                assert(is_pure(after));
            }
        }
    }
}

/// The count of a label grows by one with a row that carries it.
pub proof fn lemma_counts_push(rows: Seq<RowModel>, labels: Seq<Text>, j: int)
    requires
        rows.len() > 0,
        labels.no_duplicates(),
        0 <= j < labels.len(),
        labels[j] == rows.last().label,
    ensures
        label_counts(rows, labels) == label_counts(rows.drop_last(), labels).update(
            j,
            label_counts(rows.drop_last(), labels)[j] + 1,
        ),
{
    let before = label_counts(rows.drop_last(), labels);
    assert(label_counts(rows, labels) =~= before.update(j, before[j] + 1));
}

/// The counts of the labels of a table sum to the number of rows.
pub proof fn lemma_counts_total(rows: Seq<RowModel>, labels: Seq<Text>)
    requires
        labels.no_duplicates(),
        labels_known(rows, labels),
    ensures
        total(label_counts(rows, labels)) == rows.len(),
    decreases rows.len(),
{
    if rows.len() == 0 {
        lemma_all_zero(label_counts(rows, labels));
    } else {
        let init = rows.drop_last();
        assert forall|r: int| 0 <= r < init.len() implies labels.contains(#[trigger] init[r].label) by {
            assert(init[r] == rows[r]);
        }
        lemma_counts_total(init, labels);
        assert(labels.contains(rows[rows.len() - 1].label));
        let j = labels.index_of(rows.last().label);
        lemma_counts_push(rows, labels, j);
        lemma_total_update(label_counts(init, labels), j, label_counts(init, labels)[j] + 1);
    }
}

/// A label has a positive count exactly when some row carries it.
pub proof fn lemma_count_positive(rows: Seq<RowModel>, label: Text)
    ensures
        count(rows, label) > 0 <==> exists|r: int| 0 <= r < rows.len() && rows[r].label == label,
    decreases rows.len(),
{
    if rows.len() > 0 {
        let init = rows.drop_last();
        lemma_count_positive(init, label);
        if count(rows, label) > 0 {
            if rows.last().label == label {
                assert(rows[rows.len() - 1].label == label);
            } else {
                let r = choose|r: int| 0 <= r < init.len() && init[r].label == label;
                assert(rows[r].label == label);
            }
        }
        if exists|r: int| 0 <= r < rows.len() && rows[r].label == label {
            let r = choose|r: int| 0 <= r < rows.len() && rows[r].label == label;
            if r < rows.len() - 1 {
                assert(init[r].label == label);
            }
        }
    }
}

/// Rows carry one label exactly when at most one label has a positive count.
pub proof fn lemma_same_label_counts(rows: Seq<RowModel>, labels: Seq<Text>)
    requires
        labels.no_duplicates(),
        labels_known(rows, labels),
    ensures
        same_label(rows) <==> is_pure(label_counts(rows, labels)),
{
    let counts = label_counts(rows, labels);
    if same_label(rows) {
        assert forall|i: int, j: int|
            0 <= i < counts.len() && 0 <= j < counts.len() && counts[i] > 0 && counts[j] > 0 implies i
            == j by {
            lemma_count_positive(rows, labels[i]);
            lemma_count_positive(rows, labels[j]);
            let r = choose|r: int| 0 <= r < rows.len() && rows[r].label == labels[i];
            let s = choose|s: int| 0 <= s < rows.len() && rows[s].label == labels[j];
            assert(rows[r].label == rows[s].label);
        }
    }
    if is_pure(counts) {
        assert forall|r: int, s: int| 0 <= r < rows.len() && 0 <= s < rows.len() implies rows[r].label
            == rows[s].label by {
            assert(labels.contains(rows[r].label));
            assert(labels.contains(rows[s].label));
            let i = labels.index_of(rows[r].label);
            let j = labels.index_of(rows[s].label);
            lemma_count_positive(rows, labels[i]);
            lemma_count_positive(rows, labels[j]);
            assert(counts[i] > 0 && counts[j] > 0);
        }
    }
}

/// Entropy is never negative, and it is zero exactly when, after the missing
/// label has been folded away, at most one label is left with rows.
pub proof fn law_entropy_sign(rows: Seq<RowModel>, labels: Seq<Text>)
    requires
        labels.no_duplicates(),
        labels_known(rows, labels),
    ensures
        entropy_of(rows, labels).is_nonnegative(),
        entropy_of(rows, labels).is_zero() <==> is_pure(distribution(rows, labels)),
{
    let counts = label_counts(rows, labels);
    let spread = distribution(rows, labels);
    lemma_counts_total(rows, labels);
    lemma_folded(counts, labels);
    lemma_product_of_counts(spread);
    lemma_power_product_single(rows.len());
}

/// Of rows none of which has the missing label: entropy is zero exactly when
/// all rows carry the same label.
pub proof fn law_entropy_zero_iff_one_label(rows: Seq<RowModel>, labels: Seq<Text>)
    requires
        labels.no_duplicates(),
        labels_known(rows, labels),
        forall|r: int| 0 <= r < rows.len() ==> rows[r].label != unknown(),
    ensures
        entropy_of(rows, labels).is_zero() <==> same_label(rows),
{
    law_entropy_sign(rows, labels);
    lemma_same_label_counts(rows, labels);
    let counts = label_counts(rows, labels);
    lemma_folded(counts, labels);
    if labels.contains(unknown()) {
        let u = labels.index_of(unknown());
        lemma_count_positive(rows, unknown());
        assert(counts[u] == count(rows, labels[u]));
    }
}

/// Rows that all carry one label have entropy zero, and the tree grown from
/// them is a leaf with that label, whatever the path above them.
pub proof fn law_one_label_gives_leaf(data: DataModel, rows: Seq<RowModel>, used: Seq<int>, label: Text)
    requires
        data.label_variants.no_duplicates(),
        data.admits_all(rows),
        rows.len() > 0,
        forall|r: int| 0 <= r < rows.len() ==> rows[r].label == label,
    ensures
        entropy_of(rows, data.label_variants).is_zero(),
        induced(data, rows, used) == (TreeModel::Leaf { value: label }),
{
    let labels = data.label_variants;
    assert forall|r: int| 0 <= r < rows.len() implies labels.contains(#[trigger] rows[r].label) by {
        assert(data.admits(rows[r]));
    }
    let counts = label_counts(rows, labels);
    assert(same_label(rows));
    lemma_same_label_counts(rows, labels);
    lemma_folded(counts, labels);
    law_entropy_sign(rows, labels);
    assert(labels.contains(rows[0].label));
    let i = labels.index_of(label);
    lemma_count_positive(rows, label);
    assert(rows[0].label == label);
    assert(counts[i] > 0);
    assert forall|j: int| 0 <= j < counts.len() implies counts[j] <= counts[i] by {
        if counts[j] > 0 {
            assert(i == j);
        }
    }
    assert forall|j: int| 0 <= j < i implies counts[j] < counts[i] by {
        if counts[j] > 0 {
            assert(i == j);
        }
    }
    assert(is_most_common(counts, i));
    lemma_most_common_unique(counts, i);
    assert(most_common_label(rows, labels) == label);
}

/// Where every row has the value `variant` for attribute `a`, the rows with
/// that value are all rows.
pub proof fn lemma_select_all(rows: Seq<RowModel>, a: int, variant: Text)
    requires
        forall|r: int| 0 <= r < rows.len() ==> (#[trigger] rows[r]).values[a] == variant,
    ensures
        select(rows, a, variant) == rows,
    decreases rows.len(),
{
    if rows.len() == 0 {
        assert(select(rows, a, variant) =~= rows);
    } else {
        let init = rows.drop_last();
        assert forall|r: int| 0 <= r < init.len() implies (#[trigger] init[r]).values[a] == variant by {
            assert(init[r] == rows[r]);
        }
        lemma_select_all(init, a, variant);
        assert(rows[rows.len() - 1].values[a] == variant);
        assert(init.push(rows.last()) =~= rows);
    }
}

/// Where no row has the value `variant` for attribute `a`, the rows with
/// that value are none.
pub proof fn lemma_select_none(rows: Seq<RowModel>, a: int, variant: Text)
    requires
        forall|r: int| 0 <= r < rows.len() ==> (#[trigger] rows[r]).values[a] != variant,
    ensures
        select(rows, a, variant).len() == 0,
    decreases rows.len(),
{
    if rows.len() > 0 {
        let init = rows.drop_last();
        assert forall|r: int| 0 <= r < init.len() implies (#[trigger] init[r]).values[a] != variant by {
            assert(init[r] == rows[r]);
        }
        lemma_select_none(init, a, variant);
        assert(rows[rows.len() - 1].values[a] != variant);
    }
}

/// Where every row has the value `variant` for attribute `a`, what is left
/// after a split on `a` is the entropy of the rows, if `variant` is among
/// `variants`, and nothing otherwise.
pub proof fn lemma_remainder_constant(
    rows: Seq<RowModel>,
    labels: Seq<Text>,
    a: int,
    variants: Seq<Text>,
    variant: Text,
)
    requires
        rows.len() > 0,
        variants.no_duplicates(),
        forall|r: int| 0 <= r < rows.len() ==> (#[trigger] rows[r]).values[a] == variant,
    ensures
        remainder_of(rows, labels, a, variants) == if variants.contains(variant) {
            entropy_of(rows, labels)
        } else {
            Amount::zero()
        },
    decreases variants.len(),
{
    if variants.len() > 0 {
        let init = variants.drop_last();
        let last = variants.last();
        lemma_remainder_constant(rows, labels, a, init, variant);
        let whole = entropy_of(rows, labels);
        if last == variant {
            assert(!init.contains(variant)) by {
                if init.contains(variant) {
                    let i = choose|i: int| 0 <= i < init.len() && init[i] == variant;
                    assert(variants[i] == variants[variants.len() - 1]);
                }
            }
            assert(variants[variants.len() - 1] == variant);
            lemma_select_all(rows, a, variant);
            assert(Amount::zero().plus(whole).up =~= whole.up);
            assert(Amount::zero().plus(whole).down =~= whole.down);
        } else {
            lemma_select_none(rows, a, last);
            if variants.contains(variant) {
                let i = choose|i: int| 0 <= i < variants.len() && variants[i] == variant;
                assert(init[i] == variant);
            }
            if init.contains(variant) {
                let i = choose|i: int| 0 <= i < init.len() && init[i] == variant;
                assert(variants[i] == variant);
            }
        }
    }
}

/// An attribute for which all rows have the same value gains nothing: its
/// information gain is exactly zero.
pub proof fn law_constant_attribute_gains_nothing(data: DataModel, rows: Seq<RowModel>, a: int)
    requires
        0 <= a < data.attribute_names.len(),
        data.attribute_variants[a].no_duplicates(),
        data.admits_all(rows),
        rows.len() > 0,
        forall|r: int| 0 <= r < rows.len() ==> (#[trigger] rows[r]).values[a] == rows[0].values[a],
    ensures
        gain_of(data, rows, a).is_zero(),
{
    let labels = data.label_variants;
    let variant = rows[0].values[a];
    assert(data.admits(rows[0]));
    assert(data.attribute_variants[a].contains(variant));
    lemma_remainder_constant(rows, labels, a, data.attribute_variants[a], variant);
    let whole = entropy_of(rows, labels);
    lemma_power_product_concat(whole.up, whole.down);
    lemma_power_product_concat(whole.down, whole.up);
    let x = power_product(whole.up);
    let y = power_product(whole.down);
    assert(x * y == y * x) by (nonlinear_arith);
}

/// Whether every leaf of `tree` has above it, counting the columns `above`
/// that lead to the root of `tree`, columns that are pairwise distinct and
/// at most `n` in number.
pub open spec fn paths_distinct(tree: TreeModel, above: Seq<int>, n: nat) -> bool
    decreases tree,
{
    match tree {
        TreeModel::Leaf { .. } => above.no_duplicates() && above.len() <= n,
        TreeModel::Decision { column, children, .. } => branches_distinct(children, above.push(column), n),
    }
}

/// Whether `paths_distinct` holds of every child.
pub open spec fn branches_distinct(children: Seq<(Text, TreeModel)>, above: Seq<int>, n: nat) -> bool
    decreases children,
{
    if children.len() == 0 {
        true
    } else {
        branches_distinct(children.drop_last(), above, n) && paths_distinct(children.last().1, above, n)
    }
}

/// The keys of the children of a decision node.
pub open spec fn keys_of(children: Seq<(Text, TreeModel)>) -> Seq<Text> {
    Seq::new(children.len(), |i: int| children[i].0)
}

/// Whether every decision node of `tree` is on a column of the table,
/// carries the name of that column, and keys its children by variants of
/// that column, no two children by the same.
pub open spec fn keys_known(tree: TreeModel, data: DataModel) -> bool
    decreases tree,
{
    match tree {
        TreeModel::Leaf { .. } => true,
        TreeModel::Decision { attribute, column, children } => {
            &&& 0 <= column < data.attribute_names.len()
            &&& attribute == data.attribute_names[column]
            &&& keys_of(children).no_duplicates()
            &&& branch_keys_known(children, data.attribute_variants[column], data)
        },
    }
}

/// Whether every child is keyed by one of `variants` and `keys_known` holds
/// of it.
pub open spec fn branch_keys_known(children: Seq<(Text, TreeModel)>, variants: Seq<Text>, data: DataModel) -> bool
    decreases children,
{
    if children.len() == 0 {
        true
    } else {
        &&& branch_keys_known(children.drop_last(), variants, data)
        &&& variants.contains(children.last().0)
        &&& keys_known(children.last().1, data)
    }
}

/// The names of the attributes of a path.
pub open spec fn path_names(data: DataModel, used: Seq<int>) -> Seq<Text> {
    Seq::new(used.len(), |i: int| data.attribute_names[used[i]])
}

/// A path of distinct columns is no longer than the table has columns.
pub proof fn lemma_path_length(data: DataModel, used: Seq<int>)
    requires
        is_path(data, used),
    ensures
        used.len() <= data.attribute_names.len(),
{
    let n = data.attribute_names.len();
    let all = vstd::set_lib::set_int_range(0, n as int);
    vstd::set_lib::lemma_int_range(0, n as int);
    used.unique_seq_to_set();
    assert(used.to_set().subset_of(all)) by {
        assert forall|x: int| used.to_set().contains(x) implies all.contains(x) by {
            let i = choose|i: int| 0 <= i < used.len() && used[i] == x;
            assert(used[i] == x);
        }
    }
    vstd::set_lib::lemma_len_subset(used.to_set(), all);
}

/// A free column extends a path to a path.
pub proof fn lemma_path_extends(data: DataModel, used: Seq<int>, a: int)
    requires
        is_path(data, used),
        is_free(data, used, a),
    ensures
        is_path(data, used.push(a)),
{
    let deeper = used.push(a);
    assert forall|i: int, j: int| 0 <= i < deeper.len() && 0 <= j < deeper.len() && i != j implies deeper[i]
        != deeper[j] by {
        if i < used.len() && j < used.len() {
            assert(used[i] != used[j]);
        } else if i < used.len() {
            assert(used.contains(used[i]));
        } else {
            assert(used.contains(used[j]));
        }
    }
}

/// What `best_attribute_of` returns is a best attribute.
pub proof fn lemma_best_is_best(data: DataModel, rows: Seq<RowModel>, used: Seq<int>)
    ensures
        best_attribute_of(data, rows, used) matches Some(a) ==> is_best(data, rows, used, a) && is_free(
            data,
            used,
            a,
        ),
{
}

/// Below every path of distinct columns grows a tree all of whose paths
/// are of distinct columns.
pub proof fn lemma_induced_paths(data: DataModel, rows: Seq<RowModel>, used: Seq<int>)
    requires
        is_path(data, used),
    ensures
        paths_distinct(induced(data, rows, used), used, data.attribute_names.len()),
    decreases data.attribute_names.len() - used.len(), 0nat,
{
    lemma_path_length(data, used);
    lemma_best_is_best(data, rows, used);
    if entropy_of(rows, data.label_variants).is_zero() || used.len() >= data.attribute_names.len() {
    } else {
        match best_attribute_of(data, rows, used) {
            None => {},
            Some(a) => {
                lemma_path_extends(data, used, a);
                lemma_branches_paths(data, rows, used.push(a), a, data.attribute_variants[a].len());
            },
        }
    }
}

/// The same, of the children of a decision node.
pub proof fn lemma_branches_paths(data: DataModel, rows: Seq<RowModel>, used: Seq<int>, a: int, k: nat)
    requires
        is_path(data, used),
    ensures
        branches_distinct(branches(data, rows, used, a, k), used, data.attribute_names.len()),
    decreases data.attribute_names.len() - used.len(), k + 1,
{
    if k > 0 {
        lemma_path_length(data, used);
        lemma_branches_paths(data, rows, used, a, (k - 1) as nat);
        let before = branches(data, rows, used, a, (k - 1) as nat);
        let variant = data.attribute_variants[a][k - 1];
        let part = select(rows, a, variant);
        if part.len() > 0 {
            lemma_induced_paths(data, part, used);
            assert(before.push((variant, induced(data, part, used))).drop_last() =~= before);
        }
    }
}

/// Every grown tree keys the children of each decision node by variants of
/// the node's column, no two by the same.
pub proof fn lemma_induced_keys(data: DataModel, rows: Seq<RowModel>, used: Seq<int>)
    requires
        forall|a: int|
            0 <= a < data.attribute_names.len() ==> (#[trigger] data.attribute_variants[a]).no_duplicates(),
        is_path(data, used),
    ensures
        keys_known(induced(data, rows, used), data),
    decreases data.attribute_names.len() - used.len(), 0nat,
{
    lemma_path_length(data, used);
    lemma_best_is_best(data, rows, used);
    if entropy_of(rows, data.label_variants).is_zero() || used.len() >= data.attribute_names.len() {
    } else {
        match best_attribute_of(data, rows, used) {
            None => {},
            Some(a) => {
                lemma_path_extends(data, used, a);
                lemma_branches_keys(data, rows, used.push(a), a, data.attribute_variants[a].len());
            },
        }
    }
}

/// The same, of the children of a decision node.
pub proof fn lemma_branches_keys(data: DataModel, rows: Seq<RowModel>, used: Seq<int>, a: int, k: nat)
    requires
        forall|b: int|
            0 <= b < data.attribute_names.len() ==> (#[trigger] data.attribute_variants[b]).no_duplicates(),
        is_path(data, used),
        0 <= a < data.attribute_names.len(),
        k <= data.attribute_variants[a].len(),
    ensures
        branch_keys_known(branches(data, rows, used, a, k), data.attribute_variants[a], data),
        keys_of(branches(data, rows, used, a, k)).no_duplicates(),
        forall|i: int|
            0 <= i < branches(data, rows, used, a, k).len() ==> data.attribute_variants[a].take(
                k as int,
            ).contains(#[trigger] keys_of(branches(data, rows, used, a, k))[i]),
    decreases data.attribute_names.len() - used.len(), k + 1,
{
    if k > 0 {
        lemma_path_length(data, used);
        lemma_branches_keys(data, rows, used, a, (k - 1) as nat);
        let variants = data.attribute_variants[a];
        let before = branches(data, rows, used, a, (k - 1) as nat);
        let after = branches(data, rows, used, a, k);
        let variant = variants[k - 1];
        let part = select(rows, a, variant);
        assert forall|i: int| 0 <= i < before.len() implies variants.take(k as int).contains(
            #[trigger] keys_of(before)[i],
        ) && keys_of(before)[i] != variant by {
            let key = keys_of(before)[i];
            let prefix = variants.take(k - 1);
            assert(prefix.contains(key));
            let j = choose|j: int| 0 <= j < prefix.len() && prefix[j] == key;
            assert(variants.take(k as int)[j] == key);
            assert(variants[j] != variants[k - 1]);
        }
        if part.len() > 0 {
            lemma_induced_keys(data, part, used);
            assert(variants.contains(variant));
            assert(after.drop_last() =~= before);
            assert(keys_of(after) =~= keys_of(before).push(variant));
            assert(variants.take(k as int)[k - 1] == variant);
        }
    }
}

/// Every leaf of the tree grown from a table has above it pairwise distinct
/// columns, no more than the table has.
pub proof fn law_paths_use_distinct_attributes(data: DataModel)
    ensures
        paths_distinct(induced(data, data.rows, Seq::empty()), Seq::empty(), data.attribute_names.len()),
{
    lemma_induced_paths(data, data.rows, Seq::empty());
}

/// Where the attribute names of a table are distinct, so are the names of
/// the attributes of a path of distinct columns.
pub proof fn law_path_names_are_distinct(data: DataModel, used: Seq<int>)
    requires
        data.attribute_names.no_duplicates(),
        is_path(data, used),
    ensures
        path_names(data, used).no_duplicates(),
{
    let names = path_names(data, used);
    assert forall|i: int, j: int| 0 <= i < names.len() && 0 <= j < names.len() && i != j implies names[i]
        != names[j] by {
        assert(used[i] != used[j]);
    }
}

/// Every decision node of the tree grown from a table is on a column of the
/// table and carries its name, and keys its children by variants that the
/// table has recorded for that column, no two children by the same variant.
pub proof fn law_child_keys_are_variants(data: DataModel)
    requires
        data.well_formed(),
    ensures
        keys_known(induced(data, data.rows, Seq::empty()), data),
{
    lemma_induced_keys(data, data.rows, Seq::empty());
}

/// Growing a tree is a function of the table: two trees grown from the same
/// table are the same tree.
pub proof fn law_same_table_same_tree(data: DataModel, first: TreeModel, second: TreeModel)
    requires
        first == induced(data, data.rows, Seq::empty()),
        second == induced(data, data.rows, Seq::empty()),
    ensures
        first == second,
{
}

} // verus!
