//! Information gain is never less than zero, so a split is refused only
//! where no attribute is left. This holds also where labels are missing:
//! folding the missing label of a part into the most common label of that
//! part leaves less entropy than folding it into any other label.

use crate::dataset::{DataModel, RowModel, Text};
use crate::induce::{
    best_among, best_attribute_of, best_step, induced, is_best, is_free, is_path, lemma_best_step,
    lemma_best_unique, lemma_path_room,
};
use crate::inequality::{lemma_gibbs, mixed_product};
use crate::information::{
    lemma_power_positive, lemma_power_product_concat, lemma_power_product_positive,
    lemma_power_product_single, power, power_product, self_power, total,
};
use crate::laws::{
    is_pure, labels_known, law_entropy_sign, lemma_count_positive, lemma_folded, lemma_most_common_exists,
    lemma_same_label_counts, same_label,
};
use crate::split_laws::{
    law_gain_without_missing_labels, lemma_plain_distribution, no_missing_label,
};
use crate::stats::{
    count, distribution, entropy_of, gain_of, label_counts, most_common_index, remainder_of, select,
    unknown,
};
use vstd::prelude::*;

verus! {

/// `rows` with `target` in the place of every missing label.
pub open spec fn relabelled(rows: Seq<RowModel>, target: Text) -> Seq<RowModel> {
    Seq::new(
        rows.len(),
        |r: int|
            if rows[r].label == unknown() {
                RowModel { label: target, values: rows[r].values }
            } else {
                rows[r]
            },
    )
}

/// The part of relabelled rows is the relabelled part.
pub proof fn lemma_relabelled_select(rows: Seq<RowModel>, target: Text, a: int, variant: Text)
    ensures
        select(relabelled(rows, target), a, variant) == relabelled(select(rows, a, variant), target),
    decreases rows.len(),
{
    let changed = relabelled(rows, target);
    if rows.len() == 0 {
        assert(select(changed, a, variant) =~= relabelled(select(rows, a, variant), target));
    } else {
        let init = rows.drop_last();
        lemma_relabelled_select(init, target, a, variant);
        assert(changed.drop_last() =~= relabelled(init, target));
        assert(changed.last().values == rows.last().values);
        let before = select(init, a, variant);
        if rows.last().values[a] == variant {
            assert(relabelled(before, target).push(changed.last()) =~= relabelled(
                before.push(rows.last()),
                target,
            ));
        }
    }
}

/// Relabelling moves the count of the missing label to the target.
pub proof fn lemma_relabelled_count(rows: Seq<RowModel>, target: Text, label: Text)
    requires
        target != unknown(),
    ensures
        count(relabelled(rows, target), label) == if label == unknown() {
            0
        } else if label == target {
            count(rows, target) + count(rows, unknown())
        } else {
            count(rows, label)
        },
    decreases rows.len(),
{
    let changed = relabelled(rows, target);
    if rows.len() > 0 {
        let init = rows.drop_last();
        lemma_relabelled_count(init, target, label);
        assert(changed.drop_last() =~= relabelled(init, target));
    }
}

/// The label counts of relabelled rows: the counts of the rows with the
/// count of the missing label moved to the target.
pub proof fn lemma_relabelled_counts(rows: Seq<RowModel>, labels: Seq<Text>, u: int, g: int)
    requires
        labels.no_duplicates(),
        0 <= u < labels.len(),
        0 <= g < labels.len(),
        labels[u] == unknown(),
        g != u,
    ensures
        label_counts(relabelled(rows, labels[g]), labels) == label_counts(rows, labels).update(u, 0).update(
            g,
            label_counts(rows, labels)[g] + label_counts(rows, labels)[u],
        ),
{
    let counts = label_counts(rows, labels);
    let changed = label_counts(relabelled(rows, labels[g]), labels);
    let want = counts.update(u, 0).update(g, counts[g] + counts[u]);
    assert forall|i: int| 0 <= i < labels.len() implies changed[i] == want[i] by {
        lemma_relabelled_count(rows, labels[g], labels[i]);
    }
    assert(changed =~= want);
}

/// Relabelled rows have no missing label, and are admitted where the rows
/// are and the target is a label of the table.
pub proof fn lemma_relabelled_admitted(data: DataModel, rows: Seq<RowModel>, target: Text)
    requires
        data.admits_all(rows),
        data.label_variants.contains(target),
        target != unknown(),
    ensures
        data.admits_all(relabelled(rows, target)),
        no_missing_label(relabelled(rows, target)),
{
    let changed = relabelled(rows, target);
    assert forall|r: int| 0 <= r < changed.len() implies data.admits(#[trigger] changed[r]) by {
        assert(data.admits(rows[r]));
    }
}

/// The product of two self-powers.
pub proof fn lemma_pair_products(p: nat, r: nat, d1: nat, d2: nat)
    ensures
        power_product(seq![p, r]) == self_power(p) * self_power(r),
        mixed_product(seq![d1, d2], seq![p, r]) == power(d1, p) * power(d2, r),
        total(seq![p, r]) == p + r,
        total(seq![d1, d2]) == d1 + d2,
{
    let x = seq![p, r];
    let d = seq![d1, d2];
    assert(x.drop_last() =~= seq![p]);
    assert(d.drop_last() =~= seq![d1]);
    assert(seq![p].drop_last() =~= Seq::<nat>::empty());
    assert(seq![d1].drop_last() =~= Seq::<nat>::empty());
    lemma_power_product_single(p);
    assert(total(Seq::<nat>::empty()) == 0);
    assert(seq![p].len() == 1 && seq![p].last() == p);
    assert(seq![d1].len() == 1 && seq![d1].last() == d1);
    assert(total(seq![p]) == total(seq![p].drop_last()) + p);
    assert(total(seq![d1]) == total(seq![d1].drop_last()) + d1);
    assert(total(seq![p]) == p);
    assert(total(seq![d1]) == d1);
    assert(mixed_product(seq![d1], seq![p]) == power(d1, p)) by {
        assert(mixed_product(Seq::<nat>::empty(), Seq::<nat>::empty()) == 1);
        assert(1 * power(d1, p) == power(d1, p)) by (nonlinear_arith);
    }
}

/// The quotient `(k + q)^(k + q) / k^k` grows with `k`, one step.
pub proof fn lemma_fold_step(k: nat, q: nat)
    ensures
        self_power(k + 1 + q) * self_power(k) >= self_power(k + q) * self_power(k + 1),
{
    if q == 0 {
        let a = self_power(k + 1);
        let b = self_power(k);
        assert(a * b >= b * a) by (nonlinear_arith);
    } else {
        let x = seq![k + 1 + q, k];
        let d = seq![k + q, (k + 1) as nat];
        lemma_pair_products(k + 1 + q, k, k + q, k + 1);
        lemma_gibbs(x, d);
        let t = 2 * k + 1 + q;
        assert(total(x) == t && total(d) == t);
        lemma_power_positive(t as nat, t as nat);
        let tt = power(t as nat, t as nat) as int;
        let px = power_product(x) as int;
        let mx = mixed_product(d, x) as int;
        assert(px >= mx) by (nonlinear_arith)
            requires
                tt * px >= tt * mx,
                tt > 0,
        ;
        let base = power(k + q, k + q) as int;
        let low = power((k + 1) as nat, k) as int;
        assert(power(k + q, k + 1 + q) == (k + q) * base);
        assert(self_power(k + 1) == (k + 1) * low);
        assert(mx == ((k + q) * base) * low);
        assert(((k + q) * base) * low >= base * ((k + 1) * low)) by (nonlinear_arith)
            requires
                q >= 1,
                base >= 0,
                low >= 0,
                k >= 0,
        {
            assert(((k + q) * base) * low == (k + q) * (base * low));
            assert(base * ((k + 1) * low) == (k + 1) * (base * low));
            assert(base * low >= 0);
        }
    }
}

/// The quotient `(k + q)^(k + q) / k^k` grows with `k`.
pub proof fn lemma_fold_monotonic(k1: nat, k2: nat, q: nat)
    requires
        k1 >= k2,
    ensures
        self_power(k1 + q) * self_power(k2) >= self_power(k2 + q) * self_power(k1),
    decreases k1 - k2,
{
    if k1 == k2 {
        let a = self_power(k1 + q);
        let b = self_power(k1);
        assert(a * b >= a * b);
    } else {
        let k0 = (k1 - 1) as nat;
        lemma_fold_monotonic(k0, k2, q);
        lemma_fold_step(k0, q);
        lemma_power_positive(k0, k0);
        lemma_power_positive(k0 + q, k0 + q);
        let a = self_power(k1 + q) as int;
        let b = self_power(k2) as int;
        let c = self_power(k2 + q) as int;
        let e = self_power(k1) as int;
        let f = self_power(k0 + q) as int;
        let g = self_power(k0) as int;
        assert(a * b >= c * e) by (nonlinear_arith)
            requires
                f * b >= c * g,
                a * g >= f * e,
                f > 0,
                g > 0,
                a >= 0,
                b >= 0,
                c >= 0,
                e >= 0,
        {
            assert((a * g) * b >= (f * e) * b);
            assert((f * e) * b == e * (f * b));
            assert(e * (f * b) >= e * (c * g));
            assert(g * (a * b) >= g * (c * e));
        }
    }
}

/// Replacing one entry replaces its self-power in the product.
pub proof fn lemma_product_update(s: Seq<nat>, i: int, v: nat)
    requires
        0 <= i < s.len(),
    ensures
        power_product(s.update(i, v)) * self_power(s[i]) == power_product(s) * self_power(v),
    decreases s.len(),
{
    let changed = s.update(i, v);
    let init = s.drop_last();
    if i == s.len() - 1 {
        assert(changed.drop_last() =~= init);
        let a = power_product(init);
        let b = self_power(v);
        let c = self_power(s[i]);
        assert((a * b) * c == (a * c) * b) by (nonlinear_arith);
    } else {
        lemma_product_update(init, i, v);
        assert(changed.drop_last() =~= init.update(i, v));
        let a = power_product(init.update(i, v));
        let b = power_product(init);
        let l = self_power(s.last());
        let c = self_power(s[i]);
        let d = self_power(v);
        assert((a * l) * c == (b * l) * d) by (nonlinear_arith)
            requires
                a * c == b * d,
        ;
    }
}

/// Adding `q` to a greater entry gives a greater product of self-powers
/// than adding it to a smaller one.
pub proof fn lemma_fold_to_greater(s: Seq<nat>, i: int, j: int, q: nat)
    requires
        0 <= i < s.len(),
        0 <= j < s.len(),
        s[i] >= s[j],
    ensures
        power_product(s.update(i, s[i] + q)) >= power_product(s.update(j, s[j] + q)),
{
    lemma_product_update(s, i, s[i] + q);
    lemma_product_update(s, j, s[j] + q);
    lemma_fold_monotonic(s[i], s[j], q);
    lemma_power_positive(s[i], s[i]);
    lemma_power_positive(s[j], s[j]);
    lemma_power_product_positive(s);
    let pi = power_product(s.update(i, s[i] + q)) as int;
    let pj = power_product(s.update(j, s[j] + q)) as int;
    let p = power_product(s) as int;
    let si = self_power(s[i]) as int;
    let sj = self_power(s[j]) as int;
    let ti = self_power(s[i] + q) as int;
    let tj = self_power(s[j] + q) as int;
    assert(pi >= pj) by (nonlinear_arith)
        requires
            pi * si == p * ti,
            pj * sj == p * tj,
            ti * sj >= tj * si,
            si > 0,
            sj > 0,
            p > 0,
            pi >= 0,
            pj >= 0,
    {
        assert((pi * si) * sj == p * (ti * sj));
        assert((pj * sj) * si == p * (tj * si));
        assert(p * (ti * sj) >= p * (tj * si));
        assert((si * sj) * pi >= (si * sj) * pj);
        assert(si * sj > 0);
    }
}

/// The distribution of rows, folded into their own most common label, has a
/// product of self-powers no smaller than their counts after the missing
/// label has been replaced by any other label.
pub proof fn lemma_own_fold_is_best(rows: Seq<RowModel>, labels: Seq<Text>, u: int, g: int)
    requires
        labels.no_duplicates(),
        0 <= u < labels.len(),
        0 <= g < labels.len(),
        labels[u] == unknown(),
        g != u,
    ensures
        power_product(distribution(rows, labels)) >= power_product(
            label_counts(relabelled(rows, labels[g]), labels),
        ),
{
    let counts = label_counts(rows, labels);
    assert(labels.contains(unknown()));
    assert(labels.index_of(unknown()) == u);
    let known = counts.update(u, 0);
    lemma_most_common_exists(known);
    let t = most_common_index(known);
    lemma_relabelled_counts(rows, labels, u, g);
    assert(known[t] >= known[g]);
    assert(known[g] == counts[g]);
    lemma_fold_to_greater(known, t, g, counts[u]);
}

/// The remainder of a split of rows, against that of the relabelled rows:
/// the same sizes, and a product of self-powers that is no smaller.
pub proof fn lemma_remainder_relabelled(
    rows: Seq<RowModel>,
    labels: Seq<Text>,
    a: int,
    variants: Seq<Text>,
    u: int,
    g: int,
)
    requires
        labels.no_duplicates(),
        0 <= u < labels.len(),
        0 <= g < labels.len(),
        labels[u] == unknown(),
        g != u,
    ensures
        remainder_of(rows, labels, a, variants).up == remainder_of(
            relabelled(rows, labels[g]),
            labels,
            a,
            variants,
        ).up,
        power_product(remainder_of(rows, labels, a, variants).down) >= power_product(
            remainder_of(relabelled(rows, labels[g]), labels, a, variants).down,
        ),
    decreases variants.len(),
{
    if variants.len() > 0 {
        let init = variants.drop_last();
        let last = variants.last();
        let target = labels[g];
        let changed = relabelled(rows, target);
        lemma_remainder_relabelled(rows, labels, a, init, u, g);
        lemma_relabelled_select(rows, target, a, last);
        let part = select(rows, a, last);
        let other = select(changed, a, last);
        assert(other.len() == part.len());
        if part.len() > 0 {
            lemma_own_fold_is_best(part, labels, u, g);
            assert(no_missing_label(other)) by {
                assert forall|r: int| 0 <= r < other.len() implies (#[trigger] other[r]).label
                    != unknown() by {}
            }
            lemma_plain_distribution(other, labels);
            let before = remainder_of(rows, labels, a, init);
            let before2 = remainder_of(changed, labels, a, init);
            let x = distribution(part, labels);
            let y = distribution(other, labels);
            lemma_power_product_concat(before.down, x);
            lemma_power_product_concat(before2.down, y);
            let ours = power_product(before.down) as int;
            let theirs = power_product(before2.down) as int;
            let px = power_product(x) as int;
            let py = power_product(y) as int;
            assert(ours * px >= theirs * py) by (nonlinear_arith)
                requires
                    ours >= theirs,
                    px >= py,
                    theirs >= 0,
                    py >= 0,
            ;
        }
    }
}

/// Rows that all carry one label are split into parts without entropy.
pub proof fn lemma_remainder_of_one_label(rows: Seq<RowModel>, labels: Seq<Text>, a: int, variants: Seq<Text>)
    requires
        labels.no_duplicates(),
        labels_known(rows, labels),
        same_label(rows),
    ensures
        power_product(remainder_of(rows, labels, a, variants).down) == power_product(
            remainder_of(rows, labels, a, variants).up,
        ),
    decreases variants.len(),
{
    if variants.len() > 0 {
        let init = variants.drop_last();
        let last = variants.last();
        lemma_remainder_of_one_label(rows, labels, a, init);
        let part = select(rows, a, last);
        if part.len() > 0 {
            crate::stats::lemma_select_members(rows, a, last);
            assert forall|r: int| 0 <= r < part.len() implies labels.contains(#[trigger] part[r].label) by {
                assert(rows.contains(part[r]));
                let j = choose|j: int| 0 <= j < rows.len() && rows[j] == part[r];
                assert(labels.contains(rows[j].label));
            }
            assert(same_label(part)) by {
                assert forall|r: int, s: int| 0 <= r < part.len() && 0 <= s < part.len() implies part[r].label
                    == part[s].label by {
                    assert(rows.contains(part[r]));
                    assert(rows.contains(part[s]));
                    let i = choose|i: int| 0 <= i < rows.len() && rows[i] == part[r];
                    let j = choose|j: int| 0 <= j < rows.len() && rows[j] == part[s];
                    assert(rows[i].label == rows[j].label);
                }
            }
            lemma_same_label_counts(part, labels);
            lemma_folded(label_counts(part, labels), labels);
            law_entropy_sign(part, labels);
            let before = remainder_of(rows, labels, a, init);
            let x = distribution(part, labels);
            lemma_power_product_concat(before.down, x);
            lemma_power_product_concat(before.up, seq![part.len()]);
        }
    }
}

/// The information gain of a split on any attribute is at least zero.
pub proof fn law_gain_is_nonnegative(data: DataModel, rows: Seq<RowModel>, a: int)
    requires
        0 <= a < data.attribute_names.len(),
        data.label_variants.no_duplicates(),
        data.attribute_variants[a].no_duplicates(),
        data.admits_all(rows),
    ensures
        gain_of(data, rows, a).is_nonnegative(),
{
    let labels = data.label_variants;
    let variants = data.attribute_variants[a];
    let n = rows.len();
    assert forall|r: int| 0 <= r < rows.len() implies labels.contains(#[trigger] rows[r].label) by {
        assert(data.admits(rows[r]));
    }
    let whole = entropy_of(rows, labels);
    let rest = remainder_of(rows, labels, a, variants);
    lemma_power_product_single(n);
    lemma_power_product_concat(whole.up, rest.down);
    lemma_power_product_concat(whole.down, rest.up);
    if !labels.contains(unknown()) {
        assert(no_missing_label(rows));
        law_gain_without_missing_labels(data, rows, a);
    } else {
        let u = labels.index_of(unknown());
        let counts = label_counts(rows, labels);
        let known = counts.update(u, 0);
        lemma_most_common_exists(known);
        let t = most_common_index(known);
        if t == u {
            assert forall|r: int| 0 <= r < rows.len() implies rows[r].label == unknown() by {
                let i = labels.index_of(rows[r].label);
                if i != u {
                    lemma_count_positive(rows, labels[i]);
                    assert(known[i] == counts[i]);
                    assert(known[i] <= known[u]);
                }
            }
            assert(same_label(rows));
            lemma_remainder_of_one_label(rows, labels, a, variants);
            lemma_same_label_counts(rows, labels);
            lemma_folded(counts, labels);
            law_entropy_sign(rows, labels);
            let p = power_product(rest.down);
            let q = power_product(whole.down);
            assert(q * p <= q * p);
        } else {
            let target = labels[t];
            let changed = relabelled(rows, target);
            lemma_relabelled_admitted(data, rows, target);
            law_gain_without_missing_labels(data, changed, a);
            lemma_relabelled_counts(rows, labels, u, t);
            lemma_plain_distribution(changed, labels);
            assert(distribution(changed, labels) == distribution(rows, labels));
            lemma_remainder_relabelled(rows, labels, a, variants, u, t);
            let rest2 = remainder_of(changed, labels, a, variants);
            let whole2 = entropy_of(changed, labels);
            lemma_power_product_concat(whole2.up, rest2.down);
            lemma_power_product_concat(whole2.down, rest2.up);
            let sn = self_power(n) as int;
            let ours = power_product(rest.down) as int;
            let theirs = power_product(rest2.down) as int;
            assert(sn * ours >= sn * theirs) by (nonlinear_arith)
                requires
                    ours >= theirs,
                    sn >= 0,
            ;
        }
    }
}

/// The choice among the free attributes below `upto`, found by going
/// through them in order.
pub open spec fn best_upto(data: DataModel, rows: Seq<RowModel>, used: Seq<int>, upto: nat) -> Option<int>
    decreases upto,
{
    if upto == 0 {
        None
    } else {
        best_step(data, rows, used, upto - 1, best_upto(data, rows, used, (upto - 1) as nat))
    }
}

/// Going through the attributes in order finds the choice among them.
pub proof fn lemma_best_upto(data: DataModel, rows: Seq<RowModel>, used: Seq<int>, upto: nat)
    ensures
        best_among(data, rows, used, upto as int, best_upto(data, rows, used, upto)),
    decreases upto,
{
    if upto > 0 {
        lemma_best_upto(data, rows, used, (upto - 1) as nat);
        lemma_best_step(data, rows, used, upto - 1, best_upto(data, rows, used, (upto - 1) as nat));
    }
}

/// There is an attribute to split on unless every attribute of the table
/// has been used on the path.
pub proof fn law_best_attribute_exists(data: DataModel, rows: Seq<RowModel>, used: Seq<int>)
    requires
        data.label_variants.no_duplicates(),
        forall|a: int|
            0 <= a < data.attribute_names.len() ==> (#[trigger] data.attribute_variants[a]).no_duplicates(),
        data.admits_all(rows),
    ensures
        best_attribute_of(data, rows, used) is None <==> forall|a: int| !is_free(data, used, a),
{
    let n = data.attribute_names.len();
    lemma_best_upto(data, rows, used, n);
    match best_upto(data, rows, used, n) {
        Some(k) => {
            lemma_best_unique(data, rows, used, k);
            assert(is_free(data, used, k));
        },
        None => {
            assert forall|a: int| !is_free(data, used, a) by {
                if is_free(data, used, a) {
                    assert(data.attribute_variants[a].no_duplicates());
                    law_gain_is_nonnegative(data, rows, a);
                }
            }
            assert forall|a: int| !is_best(data, rows, used, a) by {
                if is_best(data, rows, used, a) {
                    assert(is_free(data, used, a));
                }
            }
        },
    }
}

/// The node grown for rows below a path is a leaf exactly when, after the
/// missing label has been folded away, at most one label is left with
/// rows, or no attribute is left to split on.
pub proof fn law_leaf_exactly_when(data: DataModel, rows: Seq<RowModel>, used: Seq<int>)
    requires
        data.label_variants.no_duplicates(),
        forall|a: int|
            0 <= a < data.attribute_names.len() ==> (#[trigger] data.attribute_variants[a]).no_duplicates(),
        data.admits_all(rows),
        is_path(data, used),
    ensures
        induced(data, rows, used) is Leaf <==> is_pure(distribution(rows, data.label_variants)) || forall|
            a: int,
        | !is_free(data, used, a),
{
    let labels = data.label_variants;
    assert forall|r: int| 0 <= r < rows.len() implies labels.contains(#[trigger] rows[r].label) by {
        assert(data.admits(rows[r]));
    }
    law_entropy_sign(rows, labels);
    law_best_attribute_exists(data, rows, used);
    if used.len() >= data.attribute_names.len() {
        assert forall|a: int| !is_free(data, used, a) by {
            if is_free(data, used, a) {
                lemma_path_room(data.attribute_names.len(), used, a);
            }
        }
    }
}

} // verus!
