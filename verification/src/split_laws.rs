//! What a split gains: never less than nothing where no label is missing,
//! and exactly nothing where it leaves the label distribution of every part
//! as it is in the whole.

use crate::dataset::{DataModel, RowModel, Text};
use crate::inequality::{
    lemma_gibbs, lemma_mixed_add, lemma_mixed_self, lemma_mixed_zero, lemma_proportional_part,
    lemma_total_zero, mixed_product, sums,
};
use crate::information::{
    lemma_power_adds, lemma_power_product_concat, lemma_power_product_single, power, power_product,
    self_power, total,
};
use crate::laws::{
    labels_known, lemma_all_zero, lemma_count_positive, lemma_counts_total, lemma_folded,
};
use crate::stats::{
    count, distribution, entropy_of, gain_of, label_counts, remainder_of, select, unknown,
};
use vstd::prelude::*;

verus! {

/// The number of rows that have one of `variants` for attribute `a`,
/// counted variant by variant.
pub open spec fn parts_total(rows: Seq<RowModel>, a: int, variants: Seq<Text>) -> nat
    decreases variants.len(),
{
    if variants.len() == 0 {
        0
    } else {
        parts_total(rows, a, variants.drop_last()) + select(rows, a, variants.last()).len()
    }
}

/// For each label, the sum over `variants` of its count in the distribution
/// of the rows with that variant.
pub open spec fn parts_distribution(rows: Seq<RowModel>, labels: Seq<Text>, a: int, variants: Seq<Text>) -> Seq<
    nat,
>
    decreases variants.len(),
{
    if variants.len() == 0 {
        Seq::new(labels.len(), |i: int| 0nat)
    } else {
        sums(
            parts_distribution(rows, labels, a, variants.drop_last()),
            distribution(select(rows, a, variants.last()), labels),
        )
    }
}

/// Whether the distribution of the rows with each of `variants` is, count
/// by count, in the proportion `small : big` to `d`, where `small` is the
/// number of those rows.
pub open spec fn is_proportional(
    rows: Seq<RowModel>,
    labels: Seq<Text>,
    a: int,
    variants: Seq<Text>,
    d: Seq<nat>,
    big: nat,
) -> bool {
    forall|v: int, i: int|
        0 <= v < variants.len() && 0 <= i < labels.len() ==> (#[trigger] distribution(
            select(rows, a, variants[v]),
            labels,
        )[i]) * big == d[i] * select(rows, a, variants[v]).len()
}

/// Every row of a part has a label that every row of the whole may have.
pub proof fn lemma_part_labels_known(rows: Seq<RowModel>, labels: Seq<Text>, a: int, variant: Text)
    requires
        labels_known(rows, labels),
    ensures
        labels_known(select(rows, a, variant), labels),
{
    crate::stats::lemma_select_members(rows, a, variant);
    let part = select(rows, a, variant);
    assert forall|r: int| 0 <= r < part.len() implies labels.contains(#[trigger] part[r].label) by {
        assert(rows.contains(part[r]));
        let j = choose|j: int| 0 <= j < rows.len() && rows[j] == part[r];
        assert(labels.contains(rows[j].label));
    }
}

/// The distribution of a part sums to the size of the part.
pub proof fn lemma_part_distribution(rows: Seq<RowModel>, labels: Seq<Text>, a: int, variant: Text)
    requires
        labels.no_duplicates(),
        labels_known(rows, labels),
    ensures
        distribution(select(rows, a, variant), labels).len() == labels.len(),
        total(distribution(select(rows, a, variant), labels)) == select(rows, a, variant).len(),
{
    let part = select(rows, a, variant);
    lemma_part_labels_known(rows, labels, a, variant);
    lemma_counts_total(part, labels);
    lemma_folded(label_counts(part, labels), labels);
}

/// Of a split whose parts are in proportion to `d`: the relation between
/// the products of its remainder, for the first variants.
pub proof fn lemma_proportional_remainder(
    rows: Seq<RowModel>,
    labels: Seq<Text>,
    a: int,
    variants: Seq<Text>,
    d: Seq<nat>,
    big: nat,
)
    requires
        labels.no_duplicates(),
        labels_known(rows, labels),
        d.len() == labels.len(),
        is_proportional(rows, labels, a, variants, d, big),
    ensures
        parts_distribution(rows, labels, a, variants).len() == labels.len(),
        forall|i: int|
            0 <= i < labels.len() ==> (#[trigger] parts_distribution(rows, labels, a, variants)[i]) * big
                == d[i] * parts_total(rows, a, variants),
        power_product(remainder_of(rows, labels, a, variants).down) * power(
            big,
            parts_total(rows, a, variants),
        ) == mixed_product(d, parts_distribution(rows, labels, a, variants)) * power_product(
            remainder_of(rows, labels, a, variants).up,
        ),
    decreases variants.len(),
{
    if variants.len() == 0 {
        let zeros = parts_distribution(rows, labels, a, variants);
        assert forall|i: int| 0 <= i < labels.len() implies (#[trigger] zeros[i]) * big == d[i] * 0 by {
            assert(0 * big == 0 && d[i] * 0 == 0) by (nonlinear_arith);
        }
        assert forall|i: int| 0 <= i < zeros.len() implies #[trigger] zeros[i] * 1 == d[i] * 0 by {
            assert(0 * 1 == 0 && d[i] * 0 == 0) by (nonlinear_arith);
        }
        lemma_all_zero(zeros);
        lemma_proportional_part(zeros, d, 1, 0);
        assert(mixed_product(d, zeros) == 1) by {
            assert(power(1, 0) == 1 && power(0, 0) == 1);
            assert(1 * 1 == 1) by (nonlinear_arith);
            assert(mixed_product(d, zeros) * 1 == mixed_product(d, zeros)) by (nonlinear_arith);
        }
        assert(1 * 1 == 1) by (nonlinear_arith);
    } else {
        let init = variants.drop_last();
        let last = variants.last();
        assert(is_proportional(rows, labels, a, init, d, big)) by {
            assert forall|v: int, i: int| 0 <= v < init.len() && 0 <= i < labels.len() implies (
            #[trigger] distribution(select(rows, a, init[v]), labels)[i]) * big == d[i] * select(
                rows,
                a,
                init[v],
            ).len() by {
                assert(init[v] == variants[v]);
            }
        }
        lemma_proportional_remainder(rows, labels, a, init, d, big);
        let part = select(rows, a, last);
        let x = distribution(part, labels);
        let m = part.len();
        lemma_part_distribution(rows, labels, a, last);
        assert(last == variants[variants.len() - 1]);
        assert forall|i: int| 0 <= i < x.len() implies #[trigger] x[i] * big == d[i] * m by {
            assert(distribution(select(rows, a, variants[variants.len() - 1]), labels)[i] * big == d[i]
                * select(rows, a, variants[variants.len() - 1]).len());
        }
        lemma_proportional_part(x, d, big, m);
        let e0 = parts_distribution(rows, labels, a, init);
        let t0 = parts_total(rows, a, init);
        let e1 = parts_distribution(rows, labels, a, variants);
        assert(e1 == sums(e0, x));
        assert forall|i: int| 0 <= i < labels.len() implies (#[trigger] e1[i]) * big == d[i] * (t0 + m) by {
            let p = e0[i];
            let q = x[i];
            let di = d[i];
            assert(e0[i] * big == d[i] * t0);
            assert(x[i] * big == d[i] * m);
            assert((p + q) * big == di * (t0 + m)) by (nonlinear_arith)
                requires
                    p * big == di * t0,
                    q * big == di * m,
            ;
        }
        lemma_mixed_add(d, e0, x);
        lemma_power_adds(big, t0, m);
        let before = remainder_of(rows, labels, a, init);
        let after = remainder_of(rows, labels, a, variants);
        let a1 = power_product(before.down);
        let b1 = power(big, t0);
        let c1 = mixed_product(d, e0);
        let d1 = power_product(before.up);
        let a2 = power_product(x);
        let b2 = power(big, m);
        let c2 = mixed_product(d, x);
        let d2 = power(m, m);
        if m > 0 {
            lemma_power_product_concat(before.down, x);
            lemma_power_product_concat(before.up, seq![m]);
            lemma_power_product_single(m);
            assert(after.down == before.down + x);
            assert(after.up == before.up + seq![m]);
            assert((a1 * a2) * (b1 * b2) == (c1 * c2) * (d1 * d2)) by (nonlinear_arith)
                requires
                    a1 * b1 == c1 * d1,
                    a2 * b2 == c2 * d2,
            {
                assert((a1 * a2) * (b1 * b2) == (a1 * b1) * (a2 * b2));
                assert((c1 * c2) * (d1 * d2) == (c1 * d1) * (c2 * d2));
            }
        } else {
            lemma_total_zero(x);
            lemma_all_zero(x);
            assert(d2 == 1 && b2 == 1 && a2 == 1);
            assert(c2 == 1) by (nonlinear_arith)
                requires
                    a2 * b2 == c2 * d2,
                    a2 == 1,
                    b2 == 1,
                    d2 == 1,
            ;
            assert(a1 * (b1 * b2) == (c1 * c2) * d1) by (nonlinear_arith)
                requires
                    a1 * b1 == c1 * d1,
                    b2 == 1,
                    c2 == 1,
            ;
        }
    }
}

/// With a new row, the parts hold one row more if the row's value is among
/// the variants, and as many as before if not.
pub proof fn lemma_parts_total_push(rows: Seq<RowModel>, a: int, variants: Seq<Text>)
    requires
        rows.len() > 0,
        variants.no_duplicates(),
    ensures
        parts_total(rows, a, variants) == parts_total(rows.drop_last(), a, variants) + if variants.contains(
            rows.last().values[a],
        ) {
            1nat
        } else {
            0nat
        },
    decreases variants.len(),
{
    if variants.len() > 0 {
        let init = variants.drop_last();
        let last = variants.last();
        let value = rows.last().values[a];
        lemma_parts_total_push(rows, a, init);
        if last == value {
            assert(variants[variants.len() - 1] == value);
            if init.contains(value) {
                let i = choose|i: int| 0 <= i < init.len() && init[i] == value;
                assert(variants[i] == variants[variants.len() - 1]);
            }
        } else {
            if variants.contains(value) {
                let i = choose|i: int| 0 <= i < variants.len() && variants[i] == value;
                assert(init[i] == value);
            }
            if init.contains(value) {
                let i = choose|i: int| 0 <= i < init.len() && init[i] == value;
                assert(variants[i] == value);
            }
        }
    }
}

/// The parts of a split on an attribute hold every row once.
pub proof fn lemma_parts_total(rows: Seq<RowModel>, a: int, variants: Seq<Text>)
    requires
        variants.no_duplicates(),
        forall|r: int| 0 <= r < rows.len() ==> variants.contains((#[trigger] rows[r]).values[a]),
    ensures
        parts_total(rows, a, variants) == rows.len(),
    decreases rows.len(),
{
    if rows.len() == 0 {
        assert(rows =~= Seq::<RowModel>::empty());
        lemma_parts_total_empty(a, variants);
    } else {
        let init = rows.drop_last();
        assert forall|r: int| 0 <= r < init.len() implies variants.contains((#[trigger] init[r]).values[a]) by {
            assert(init[r] == rows[r]);
        }
        lemma_parts_total(init, a, variants);
        lemma_parts_total_push(rows, a, variants);
        assert(variants.contains(rows[rows.len() - 1].values[a]));
    }
}

/// No rows, no parts.
pub proof fn lemma_parts_total_empty(a: int, variants: Seq<Text>)
    ensures
        parts_total(Seq::empty(), a, variants) == 0,
    decreases variants.len(),
{
    if variants.len() > 0 {
        lemma_parts_total_empty(a, variants.drop_last());
    }
}

/// A split on an attribute gains exactly nothing where, for every variant
/// of the attribute, the label distribution of the rows with that variant
/// is in proportion to the label distribution of all rows.
pub proof fn law_proportional_split_gains_nothing(data: DataModel, rows: Seq<RowModel>, a: int)
    requires
        0 <= a < data.attribute_names.len(),
        data.label_variants.no_duplicates(),
        data.attribute_variants[a].no_duplicates(),
        data.admits_all(rows),
        rows.len() > 0,
        is_proportional(
            rows,
            data.label_variants,
            a,
            data.attribute_variants[a],
            distribution(rows, data.label_variants),
            rows.len(),
        ),
    ensures
        gain_of(data, rows, a).is_zero(),
{
    let labels = data.label_variants;
    let variants = data.attribute_variants[a];
    let n = rows.len();
    let d = distribution(rows, labels);
    assert forall|r: int| 0 <= r < rows.len() implies labels.contains(#[trigger] rows[r].label) by {
        assert(data.admits(rows[r]));
    }
    assert forall|r: int| 0 <= r < rows.len() implies variants.contains((#[trigger] rows[r]).values[a]) by {
        assert(data.admits(rows[r]));
    }
    lemma_folded(label_counts(rows, labels), labels);
    lemma_proportional_remainder(rows, labels, a, variants, d, n);
    lemma_parts_total(rows, a, variants);
    let e = parts_distribution(rows, labels, a, variants);
    assert(e =~= d) by {
        assert forall|i: int| 0 <= i < e.len() implies e[i] == d[i] by {
            let p = e[i];
            let q = d[i];
            assert(e[i] * n == d[i] * n);
            assert(p == q) by (nonlinear_arith)
                requires
                    p * n == q * n,
                    n > 0,
            ;
        }
    }
    lemma_mixed_self(d);
    let rest = remainder_of(rows, labels, a, variants);
    let whole = entropy_of(rows, labels);
    lemma_power_product_single(n);
    lemma_power_product_concat(whole.up, rest.down);
    lemma_power_product_concat(whole.down, rest.up);
    let x = power_product(rest.down);
    let y = self_power(n);
    assert(x * y == y * x) by (nonlinear_arith);
}

/// Whether no row has the missing label.
pub open spec fn no_missing_label(rows: Seq<RowModel>) -> bool {
    forall|r: int| 0 <= r < rows.len() ==> (#[trigger] rows[r]).label != unknown()
}

/// The number of rows labelled `label` that have one of `variants` for
/// attribute `a`, counted variant by variant.
pub open spec fn parts_count(rows: Seq<RowModel>, a: int, variants: Seq<Text>, label: Text) -> nat
    decreases variants.len(),
{
    if variants.len() == 0 {
        0
    } else {
        parts_count(rows, a, variants.drop_last(), label) + count(select(rows, a, variants.last()), label)
    }
}

/// Where no label is missing, nothing is folded.
pub proof fn lemma_plain_distribution(rows: Seq<RowModel>, labels: Seq<Text>)
    requires
        no_missing_label(rows),
    ensures
        distribution(rows, labels) == label_counts(rows, labels),
{
    let counts = label_counts(rows, labels);
    lemma_folded(counts, labels);
    if labels.contains(unknown()) {
        let u = labels.index_of(unknown());
        lemma_count_positive(rows, unknown());
        assert(counts[u] == count(rows, labels[u]));
    }
}

/// A part of rows without a missing label has no missing label.
pub proof fn lemma_part_no_missing(rows: Seq<RowModel>, a: int, variant: Text)
    requires
        no_missing_label(rows),
    ensures
        no_missing_label(select(rows, a, variant)),
{
    crate::stats::lemma_select_members(rows, a, variant);
    let part = select(rows, a, variant);
    assert forall|r: int| 0 <= r < part.len() implies (#[trigger] part[r]).label != unknown() by {
        assert(rows.contains(part[r]));
        let j = choose|j: int| 0 <= j < rows.len() && rows[j] == part[r];
        assert(rows[j].label != unknown());
    }
}

/// With a new row, the parts hold one row more of its label if the row's
/// value is among the variants.
pub proof fn lemma_parts_count_push(rows: Seq<RowModel>, a: int, variants: Seq<Text>, label: Text)
    requires
        rows.len() > 0,
        variants.no_duplicates(),
    ensures
        parts_count(rows, a, variants, label) == parts_count(rows.drop_last(), a, variants, label)
            + if variants.contains(rows.last().values[a]) && rows.last().label == label {
            1nat
        } else {
            0nat
        },
    decreases variants.len(),
{
    if variants.len() > 0 {
        let init = variants.drop_last();
        let last = variants.last();
        let value = rows.last().values[a];
        lemma_parts_count_push(rows, a, init, label);
        let before = select(rows.drop_last(), a, last);
        if last == value {
            assert(before.push(rows.last()).drop_last() =~= before);
            assert(variants[variants.len() - 1] == value);
            if init.contains(value) {
                let i = choose|i: int| 0 <= i < init.len() && init[i] == value;
                assert(variants[i] == variants[variants.len() - 1]);
            }
        } else {
            if variants.contains(value) {
                let i = choose|i: int| 0 <= i < variants.len() && variants[i] == value;
                assert(init[i] == value);
            }
            if init.contains(value) {
                let i = choose|i: int| 0 <= i < init.len() && init[i] == value;
                assert(variants[i] == value);
            }
        }
    }
}

/// No rows, no counts.
pub proof fn lemma_parts_count_empty(a: int, variants: Seq<Text>, label: Text)
    ensures
        parts_count(Seq::empty(), a, variants, label) == 0,
    decreases variants.len(),
{
    if variants.len() > 0 {
        lemma_parts_count_empty(a, variants.drop_last(), label);
    }
}

/// The parts of a split on an attribute hold every row of a label once.
pub proof fn lemma_parts_count(rows: Seq<RowModel>, a: int, variants: Seq<Text>, label: Text)
    requires
        variants.no_duplicates(),
        forall|r: int| 0 <= r < rows.len() ==> variants.contains((#[trigger] rows[r]).values[a]),
    ensures
        parts_count(rows, a, variants, label) == count(rows, label),
    decreases rows.len(),
{
    if rows.len() == 0 {
        assert(rows =~= Seq::<RowModel>::empty());
        lemma_parts_count_empty(a, variants, label);
    } else {
        let init = rows.drop_last();
        assert forall|r: int| 0 <= r < init.len() implies variants.contains((#[trigger] init[r]).values[a]) by {
            assert(init[r] == rows[r]);
        }
        lemma_parts_count(init, a, variants, label);
        lemma_parts_count_push(rows, a, variants, label);
        assert(variants.contains(rows[rows.len() - 1].values[a]));
    }
}

/// Where no label is missing, the distributions of the parts add up, label
/// by label, to the counts over the parts.
pub proof fn lemma_parts_distribution_plain(rows: Seq<RowModel>, labels: Seq<Text>, a: int, variants: Seq<Text>)
    requires
        no_missing_label(rows),
    ensures
        parts_distribution(rows, labels, a, variants).len() == labels.len(),
        forall|i: int|
            0 <= i < labels.len() ==> (#[trigger] parts_distribution(rows, labels, a, variants)[i])
                == parts_count(rows, a, variants, labels[i]),
    decreases variants.len(),
{
    if variants.len() > 0 {
        lemma_parts_distribution_plain(rows, labels, a, variants.drop_last());
        lemma_part_no_missing(rows, a, variants.last());
        lemma_plain_distribution(select(rows, a, variants.last()), labels);
    }
}

/// Of any split: the relation that Gibbs' inequality gives between the
/// products of its remainder, for the first variants, and any numbers `d`.
pub proof fn lemma_remainder_bound(rows: Seq<RowModel>, labels: Seq<Text>, a: int, variants: Seq<Text>, d: Seq<nat>)
    requires
        labels.no_duplicates(),
        labels_known(rows, labels),
        d.len() == labels.len(),
    ensures
        parts_distribution(rows, labels, a, variants).len() == labels.len(),
        power_product(remainder_of(rows, labels, a, variants).down) * power(
            total(d),
            parts_total(rows, a, variants),
        ) >= mixed_product(d, parts_distribution(rows, labels, a, variants)) * power_product(
            remainder_of(rows, labels, a, variants).up,
        ),
    decreases variants.len(),
{
    let big = total(d);
    if variants.len() == 0 {
        let zeros = parts_distribution(rows, labels, a, variants);
        lemma_mixed_zero(d, zeros);
        assert(power(big, 0) == 1);
        assert(1 * 1 >= 1 * 1) by (nonlinear_arith);
    } else {
        let init = variants.drop_last();
        let last = variants.last();
        lemma_remainder_bound(rows, labels, a, init, d);
        let part = select(rows, a, last);
        let x = distribution(part, labels);
        let m = part.len();
        lemma_part_distribution(rows, labels, a, last);
        lemma_gibbs(x, d);
        let e0 = parts_distribution(rows, labels, a, init);
        let t0 = parts_total(rows, a, init);
        lemma_mixed_add(d, e0, x);
        lemma_power_adds(big, t0, m);
        let before = remainder_of(rows, labels, a, init);
        let after = remainder_of(rows, labels, a, variants);
        let a1 = power_product(before.down) as int;
        let b1 = power(big, t0) as int;
        let c1 = mixed_product(d, e0) as int;
        let d1 = power_product(before.up) as int;
        let a2 = power_product(x) as int;
        let b2 = power(big, m) as int;
        let c2 = mixed_product(d, x) as int;
        let d2 = power(m, m) as int;
        if m > 0 {
            lemma_power_product_concat(before.down, x);
            lemma_power_product_concat(before.up, seq![m]);
            lemma_power_product_single(m);
            assert(after.down == before.down + x);
            assert(after.up == before.up + seq![m]);
            assert((a1 * a2) * (b1 * b2) >= (c1 * c2) * (d1 * d2)) by (nonlinear_arith)
                requires
                    a1 * b1 >= c1 * d1,
                    b2 * a2 >= d2 * c2,
                    c1 >= 0,
                    d1 >= 0,
                    c2 >= 0,
                    d2 >= 0,
                    a2 >= 0,
                    b2 >= 0,
            {
                assert((a1 * a2) * (b1 * b2) == (a1 * b1) * (b2 * a2));
                assert((c1 * c2) * (d1 * d2) == (c1 * d1) * (d2 * c2));
                assert((a1 * b1) * (b2 * a2) >= (c1 * d1) * (b2 * a2));
                assert((c1 * d1) * (b2 * a2) >= (c1 * d1) * (d2 * c2));
            }
        } else {
            lemma_total_zero(x);
            lemma_all_zero(x);
            lemma_mixed_zero(d, x);
            assert(b2 == 1 && c2 == 1);
            assert(a1 * (b1 * b2) >= (c1 * c2) * d1) by (nonlinear_arith)
                requires
                    a1 * b1 >= c1 * d1,
                    b2 == 1,
                    c2 == 1,
            ;
        }
    }
}

/// Of rows none of which has the missing label: the information gain of a
/// split on any attribute is at least zero.
pub proof fn law_gain_without_missing_labels(data: DataModel, rows: Seq<RowModel>, a: int)
    requires
        0 <= a < data.attribute_names.len(),
        data.label_variants.no_duplicates(),
        data.attribute_variants[a].no_duplicates(),
        data.admits_all(rows),
        no_missing_label(rows),
    ensures
        gain_of(data, rows, a).is_nonnegative(),
{
    let labels = data.label_variants;
    let variants = data.attribute_variants[a];
    let n = rows.len();
    assert forall|r: int| 0 <= r < rows.len() implies labels.contains(#[trigger] rows[r].label) by {
        assert(data.admits(rows[r]));
    }
    assert forall|r: int| 0 <= r < rows.len() implies variants.contains((#[trigger] rows[r]).values[a]) by {
        assert(data.admits(rows[r]));
    }
    let d = distribution(rows, labels);
    lemma_plain_distribution(rows, labels);
    lemma_counts_total(rows, labels);
    lemma_remainder_bound(rows, labels, a, variants, d);
    lemma_parts_total(rows, a, variants);
    lemma_parts_distribution_plain(rows, labels, a, variants);
    let e = parts_distribution(rows, labels, a, variants);
    assert(e =~= d) by {
        assert forall|i: int| 0 <= i < e.len() implies e[i] == d[i] by {
            lemma_parts_count(rows, a, variants, labels[i]);
        }
    }
    lemma_mixed_self(d);
    let rest = remainder_of(rows, labels, a, variants);
    let whole = entropy_of(rows, labels);
    lemma_power_product_single(n);
    lemma_power_product_concat(whole.up, rest.down);
    lemma_power_product_concat(whole.down, rest.up);
    let x = power_product(rest.down);
    let y = self_power(n);
    assert(x * y == y * x) by (nonlinear_arith);
}

} // verus!
