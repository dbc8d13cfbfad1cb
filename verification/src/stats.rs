//! Statistics of a set of rows: label counts, the most common label, entropy
//! and information gain.
//!
//! Policy on missing values. The text `?` marks a missing value. Among label
//! values it is folded, before the entropy is taken, into the label that is
//! most common among the others. Among attribute values it is a variant like
//! any other.
//!
//! Ties between equally common labels go to the label that the table saw
//! first.

use crate::dataset::{texts, variant_tables, DataModel, InputData, Row, RowModel, Text};
use crate::information::{nats, Amount, Information};
use vstd::prelude::*;

verus! {

/// The models of a set of rows.
pub open spec fn subset_models(rows: Seq<&Row>) -> Seq<RowModel> {
    Seq::new(rows.len(), |i: int| rows[i]@)
}

/// The number of rows labelled `label`.
pub open spec fn count(rows: Seq<RowModel>, label: Text) -> nat
    decreases rows.len(),
{
    if rows.len() == 0 {
        0
    } else {
        count(rows.drop_last(), label) + if rows.last().label == label {
            1nat
        } else {
            0nat
        }
    }
}

/// For each of `labels`, the number of rows that carry it.
pub open spec fn label_counts(rows: Seq<RowModel>, labels: Seq<Text>) -> Seq<nat> {
    Seq::new(labels.len(), |i: int| count(rows, labels[i]))
}

/// Whether `i` is the first index at which `counts` is greatest.
pub open spec fn is_most_common(counts: Seq<nat>, i: int) -> bool {
    &&& 0 <= i < counts.len()
    &&& forall|j: int| 0 <= j < counts.len() ==> counts[j] <= counts[i]
    &&& forall|j: int| 0 <= j < i ==> counts[j] < counts[i]
}

/// The first index at which `counts` is greatest.
pub open spec fn most_common_index(counts: Seq<nat>) -> int {
    choose|i: int| is_most_common(counts, i)
}

/// The most common label of `rows`; among equally common ones, the first of
/// `labels`.
pub open spec fn most_common_label(rows: Seq<RowModel>, labels: Seq<Text>) -> Text {
    labels[most_common_index(label_counts(rows, labels))]
}

/// The text that marks a missing value.
pub open spec fn unknown() -> Text {
    seq!['?']
}

/// `counts` after the count of the missing label, if `labels` has one, has
/// been moved to the most common of the other labels.
pub open spec fn folded(counts: Seq<nat>, labels: Seq<Text>) -> Seq<nat> {
    if labels.contains(unknown()) {
        let u = labels.index_of(unknown());
        let known = counts.update(u, 0);
        let t = most_common_index(known);
        known.update(t, known[t] + counts[u])
    } else {
        counts
    }
}

/// The label distribution of `rows` on which its entropy is taken.
pub open spec fn distribution(rows: Seq<RowModel>, labels: Seq<Text>) -> Seq<nat> {
    folded(label_counts(rows, labels), labels)
}

/// The entropy of `rows`, times the number of rows.
pub open spec fn entropy_of(rows: Seq<RowModel>, labels: Seq<Text>) -> Amount {
    Amount::of_counts(rows.len(), distribution(rows, labels))
}

/// The rows whose value for attribute `a` is `variant`, in their order.
pub open spec fn select(rows: Seq<RowModel>, a: int, variant: Text) -> Seq<RowModel>
    decreases rows.len(),
{
    if rows.len() == 0 {
        Seq::empty()
    } else {
        let before = select(rows.drop_last(), a, variant);
        if rows.last().values[a] == variant {
            before.push(rows.last())
        } else {
            before
        }
    }
}

/// The sum, over those of `variants` that some row has for attribute `a`, of
/// the entropy of the rows with that variant times their number.
pub open spec fn remainder_of(rows: Seq<RowModel>, labels: Seq<Text>, a: int, variants: Seq<Text>) -> Amount
    decreases variants.len(),
{
    if variants.len() == 0 {
        Amount::zero()
    } else {
        let before = remainder_of(rows, labels, a, variants.drop_last());
        let part = select(rows, a, variants.last());
        if part.len() > 0 {
            before.plus(entropy_of(part, labels))
        } else {
            before
        }
    }
}

/// The information gain of splitting `rows` on attribute `a`, times the
/// number of rows.
pub open spec fn gain_of(data: DataModel, rows: Seq<RowModel>, a: int) -> Amount {
    entropy_of(rows, data.label_variants).minus(
        remainder_of(rows, data.label_variants, a, data.attribute_variants[a]),
    )
}

/// There is one first index of the greatest count.
pub proof fn lemma_most_common_unique(counts: Seq<nat>, i: int)
    requires
        is_most_common(counts, i),
    ensures
        most_common_index(counts) == i,
{
    let k = most_common_index(counts);
    assert(is_most_common(counts, k));
    if k < i {
        assert(counts[k] < counts[i]);
    } else if i < k {
        assert(counts[i] < counts[k]);
    }
}

/// No count exceeds the number of rows.
pub proof fn lemma_count_bound(rows: Seq<RowModel>, label: Text)
    ensures
        count(rows, label) <= rows.len(),
    decreases rows.len(),
{
    if rows.len() > 0 {
        lemma_count_bound(rows.drop_last(), label);
    }
}

/// Two different labels share no row.
pub proof fn lemma_counts_disjoint(rows: Seq<RowModel>, l1: Text, l2: Text)
    requires
        l1 != l2,
    ensures
        count(rows, l1) + count(rows, l2) <= rows.len(),
    decreases rows.len(),
{
    if rows.len() > 0 {
        lemma_counts_disjoint(rows.drop_last(), l1, l2);
    }
}

/// Every row of a part is a row of the whole.
pub proof fn lemma_select_members(rows: Seq<RowModel>, a: int, variant: Text)
    ensures
        forall|i: int|
            0 <= i < select(rows, a, variant).len() ==> rows.contains(
                #[trigger] select(rows, a, variant)[i],
            ),
        select(rows, a, variant).len() <= rows.len(),
    decreases rows.len(),
{
    if rows.len() > 0 {
        let init = rows.drop_last();
        lemma_select_members(init, a, variant);
        let part = select(rows, a, variant);
        assert forall|i: int| 0 <= i < part.len() implies rows.contains(#[trigger] part[i]) by {
            if i < select(init, a, variant).len() {
                let row = select(init, a, variant)[i];
                assert(init.contains(row));
                let j = choose|j: int| 0 <= j < init.len() && init[j] == row;
                assert(rows[j] == row);
            } else {
                assert(part[i] == rows[rows.len() - 1]);
            }
        }
    }
}

/// A part of admitted rows is admitted.
pub proof fn lemma_select_admitted(data: DataModel, rows: Seq<RowModel>, a: int, variant: Text)
    requires
        data.admits_all(rows),
    ensures
        data.admits_all(select(rows, a, variant)),
{
    lemma_select_members(rows, a, variant);
    let part = select(rows, a, variant);
    assert forall|r: int| 0 <= r < part.len() implies data.admits(#[trigger] part[r]) by {
        assert(rows.contains(part[r]));
        let j = choose|j: int| 0 <= j < rows.len() && rows[j] == part[r];
        assert(data.admits(rows[j]));
    }
}

/// Rows that are all rows of a well-formed table are admitted by it.
pub proof fn lemma_members_admitted(data: DataModel, rows: Seq<RowModel>)
    requires
        data.well_formed(),
        forall|i: int| 0 <= i < rows.len() ==> data.rows.contains(#[trigger] rows[i]),
    ensures
        data.admits_all(rows),
{
    assert forall|r: int| 0 <= r < rows.len() implies data.admits(#[trigger] rows[r]) by {
        assert(data.rows.contains(rows[r]));
        let j = choose|j: int| 0 <= j < data.rows.len() && data.rows[j] == rows[r];
        assert(data.admits(data.rows[j]));
    }
}

/// All rows of the table, in their order.
pub fn all_rows(data: &InputData) -> (refs: Vec<&Row>)
    ensures
        subset_models(refs@) == data@.rows,
        data@.well_formed() ==> data@.admits_all(subset_models(refs@)),
{
    let rows = data.rows();
    let mut refs: Vec<&Row> = Vec::new();
    let mut i: usize = 0;
    while i < rows.len()
        invariant
            i <= rows.len(),
            refs@.len() == i,
            forall|j: int| 0 <= j < i ==> refs@[j]@ == rows@[j]@,
        decreases rows.len() - i,
    {
        refs.push(&rows[i]);
        i += 1;
    }
    assert(subset_models(refs@) =~= data@.rows);
    proof {
        if data@.well_formed() {
            assert forall|i: int| 0 <= i < data@.rows.len() implies data@.rows.contains(
                #[trigger] data@.rows[i],
            ) by {}
            lemma_members_admitted(data@, data@.rows);
        }
    }
    refs
}

/// The index at which `needle` first stands in `haystack`, if anywhere.
pub fn position(haystack: &Vec<String>, needle: &String) -> (found: Option<usize>)
    ensures
        match found {
            Some(i) => i < haystack@.len() && texts(haystack@)[i as int] == needle@ && forall|j: int|
                0 <= j < i ==> texts(haystack@)[j] != needle@,
            None => !texts(haystack@).contains(needle@),
        },
{
    let mut i: usize = 0;
    while i < haystack.len()
        invariant
            i <= haystack.len(),
            forall|j: int| 0 <= j < i ==> texts(haystack@)[j] != needle@,
        decreases haystack.len() - i,
    {
        if haystack[i] == *needle {
            assert(texts(haystack@)[i as int] == needle@);
            return Some(i);
        }
        i += 1;
    }
    None
}

/// Counts, for each label value of the table, the rows that carry it.
pub fn count_results(rows: &Vec<&Row>, data: &InputData) -> (counter: Vec<u64>)
    requires
        data@.admits_all(subset_models(rows@)),
    ensures
        nats(counter@) == label_counts(subset_models(rows@), data@.label_variants),
        counter@.len() == data@.label_variants.len(),
{
    let labels = data.result_variants();
    let ghost models = subset_models(rows@);
    let mut counter: Vec<u64> = Vec::new();
    let mut l: usize = 0;
    while l < labels.len()
        invariant
            l <= labels.len(),
            models == subset_models(rows@),
            counter@.len() == l,
            forall|k: int| 0 <= k < l ==> counter@[k] as nat == count(models, texts(labels@)[k]),
        decreases labels.len() - l,
    {
        let mut c: u64 = 0;
        let mut i: usize = 0;
        assert(models.take(0) =~= Seq::<RowModel>::empty());
        while i < rows.len()
            invariant
                i <= rows.len(),
                l < labels.len(),
                models == subset_models(rows@),
                c as nat == count(models.take(i as int), texts(labels@)[l as int]),
                c <= i,
            decreases rows.len() - i,
        {
            assert(models.take(i + 1).drop_last() =~= models.take(i as int));
            assert(models.take(i + 1).last() == rows@[i as int]@);
            if rows[i].result == labels[l] {
                c += 1;
            }
            i += 1;
        }
        assert(models.take(rows.len() as int) =~= models);
        counter.push(c);
        l += 1;
    }
    assert(nats(counter@) =~= label_counts(models, texts(labels@)));
    counter
}

/// The first index at which `counts` is greatest.
pub fn most_common_position(counts: &Vec<u64>) -> (best: usize)
    requires
        counts@.len() > 0,
    ensures
        is_most_common(nats(counts@), best as int),
        best as int == most_common_index(nats(counts@)),
{
    let mut best: usize = 0;
    let mut i: usize = 1;
    while i < counts.len()
        invariant
            1 <= i <= counts.len(),
            best < i,
            forall|j: int| 0 <= j < i ==> counts@[j] <= counts@[best as int],
            forall|j: int| 0 <= j < best ==> counts@[j] < counts@[best as int],
        decreases counts.len() - i,
    {
        if counts[i] > counts[best] {
            best = i;
        }
        i += 1;
    }
    proof {
        assert(is_most_common(nats(counts@), best as int));
        lemma_most_common_unique(nats(counts@), best as int);
    }
    best
}

/// The most common label of `rows`; among equally common ones, the one that
/// the table saw first.
pub fn most_common(rows: &Vec<&Row>, data: &InputData) -> (label: String)
    requires
        rows@.len() > 0,
        data@.admits_all(subset_models(rows@)),
    ensures
        label@ == most_common_label(subset_models(rows@), data@.label_variants),
{
    assert(data@.admits(subset_models(rows@)[0]));
    let counter = count_results(rows, data);
    let best = most_common_position(&counter);
    let labels = data.result_variants();
    assert(texts(labels@)[best as int] == labels@[best as int]@);
    labels[best].clone()
}

/// The entropy of `rows`, times the number of rows, after the count of the
/// missing label has been folded into the most common of the others.
pub fn entropy(rows: &Vec<&Row>, data: &InputData) -> (e: Information)
    requires
        data@.label_variants.no_duplicates(),
        data@.admits_all(subset_models(rows@)),
    ensures
        e@ == entropy_of(subset_models(rows@), data@.label_variants),
{
    let labels = data.result_variants();
    let n = rows.len() as u64;
    let mut counts = count_results(rows, data);
    let ghost models = subset_models(rows@);
    let ghost raw = nats(counts@);
    let mark = "?".to_owned();
    proof {
        reveal_strlit("?");
        assert(mark@ =~= unknown());
    }
    match position(labels, &mark) {
        Some(u) => {
            let moved = counts[u];
            counts.set(u, 0);
            let ghost known = nats(counts@);
            assert(known =~= raw.update(u as int, 0));
            let t = most_common_position(&counts);
            proof {
                let names = texts(labels@);
                assert(names.contains(unknown()));
                let w = names.index_of(unknown());
                assert(names[w] == unknown());
                assert(w == u);
                if t != u {
                    lemma_counts_disjoint(models, names[t as int], names[u as int]);
                } else {
                    lemma_count_bound(models, names[u as int]);
                }
                assert(raw[t as int] == count(models, names[t as int]));
                assert(raw[u as int] == count(models, names[u as int]));
                assert(moved as nat == raw[u as int]);
                assert(counts@[t as int] as nat == known[t as int]);
                assert(models.len() == n);
                assert(known[t as int] + raw[u as int] <= models.len());
            }
            let sum = counts[t] + moved;
            counts.set(t, sum);
            assert(nats(counts@) =~= known.update(t as int, known[t as int] + raw[u as int]));
        },
        None => {},
    }
    Information::of_counts(n, counts)
}

/// The rows whose value for the attribute at index `a` is `variant`.
fn matching<'a>(rows: &Vec<&'a Row>, a: usize, variant: &String) -> (part: Vec<&'a Row>)
    requires
        forall|i: int| 0 <= i < rows@.len() ==> a < (#[trigger] rows@[i]).values@.len(),
    ensures
        subset_models(part@) == select(subset_models(rows@), a as int, variant@),
{
    let ghost models = subset_models(rows@);
    let mut part: Vec<&'a Row> = Vec::new();
    let mut i: usize = 0;
    assert(models.take(0) =~= Seq::<RowModel>::empty());
    assert(subset_models(part@) =~= Seq::<RowModel>::empty());
    while i < rows.len()
        invariant
            i <= rows.len(),
            models == subset_models(rows@),
            forall|i: int| 0 <= i < rows@.len() ==> a < (#[trigger] rows@[i]).values@.len(),
            subset_models(part@) == select(models.take(i as int), a as int, variant@),
        decreases rows.len() - i,
    {
        let row: &'a Row = rows[i];
        let ghost before = subset_models(part@);
        assert(models.take(i + 1).drop_last() =~= models.take(i as int));
        assert(models.take(i + 1).last() == row@);
        assert(row@.values[a as int] == row.values@[a as int]@);
        if row.values[a] == *variant {
            part.push(row);
            assert(subset_models(part@) =~= before.push(row@));
        }
        i += 1;
    }
    assert(models.take(rows.len() as int) =~= models);
    part
}

/// Splits `rows` by their value for the attribute at index `a`: one part for
/// each variant of the attribute, in the order of the variants. The table
/// admits the rows, so each row has its place in the part of its value.
pub fn partition_by_attribute<'a>(rows: &Vec<&'a Row>, data: &InputData, a: usize) -> (parts: Vec<
    Vec<&'a Row>,
>)
    requires
        a < data@.attribute_names.len(),
        data@.attribute_variants.len() == data@.attribute_names.len(),
        data@.admits_all(subset_models(rows@)),
    ensures
        parts@.len() == data@.attribute_variants[a as int].len(),
        forall|v: int|
            0 <= v < parts@.len() ==> subset_models((#[trigger] parts@[v])@) == select(
                subset_models(rows@),
                a as int,
                data@.attribute_variants[a as int][v],
            ),
        forall|v: int| 0 <= v < parts@.len() ==> data@.admits_all(subset_models((#[trigger] parts@[v])@)),
{
    assert forall|i: int| 0 <= i < rows@.len() implies a < (#[trigger] rows@[i]).values@.len() by {
        assert(data@.admits(subset_models(rows@)[i]));
    }
    let attributes = data.attributes();
    assert(variant_tables(attributes@)[a as int] == texts(attributes@[a as int].variants@));
    let variants = &attributes[a].variants;
    let mut parts: Vec<Vec<&'a Row>> = Vec::new();
    let mut v: usize = 0;
    while v < variants.len()
        invariant
            v <= variants.len(),
            texts(variants@) == data@.attribute_variants[a as int],
            forall|i: int| 0 <= i < rows@.len() ==> a < (#[trigger] rows@[i]).values@.len(),
            parts@.len() == v,
            data@.admits_all(subset_models(rows@)),
            forall|w: int|
                0 <= w < v ==> subset_models((#[trigger] parts@[w])@) == select(
                    subset_models(rows@),
                    a as int,
                    data@.attribute_variants[a as int][w],
                ),
            forall|w: int| 0 <= w < v ==> data@.admits_all(subset_models((#[trigger] parts@[w])@)),
        decreases variants.len() - v,
    {
        let part = matching(rows, a, &variants[v]);
        assert(texts(variants@)[v as int] == variants@[v as int]@);
        proof {
            lemma_select_admitted(data@, subset_models(rows@), a as int, variants@[v as int]@);
        }
        parts.push(part);
        v += 1;
    }
    parts
}

/// The information gain of splitting `rows` on the attribute at index `a`,
/// times the number of rows. Variants that no row has are skipped.
pub fn entropy_gain(rows: &Vec<&Row>, data: &InputData, a: usize) -> (gain: Information)
    requires
        a < data@.attribute_names.len(),
        data@.attribute_variants.len() == data@.attribute_names.len(),
        data@.label_variants.no_duplicates(),
        data@.admits_all(subset_models(rows@)),
    ensures
        gain@ == gain_of(data@, subset_models(rows@), a as int),
{
    let whole = entropy(rows, data);
    let parts = partition_by_attribute(rows, data, a);
    let ghost models = subset_models(rows@);
    let ghost labels = data@.label_variants;
    let ghost variants = data@.attribute_variants[a as int];
    let mut rest = Information::zero();
    let mut v: usize = 0;
    assert(variants.take(0) =~= Seq::<Text>::empty());
    while v < parts.len()
        invariant
            v <= parts.len(),
            parts@.len() == variants.len(),
            models == subset_models(rows@),
            labels == data@.label_variants,
            labels.no_duplicates(),
            forall|w: int|
                0 <= w < parts@.len() ==> subset_models((#[trigger] parts@[w])@) == select(
                    models,
                    a as int,
                    variants[w],
                ),
            forall|w: int| 0 <= w < parts@.len() ==> data@.admits_all(subset_models((#[trigger] parts@[w])@)),
            rest@ == remainder_of(models, labels, a as int, variants.take(v as int)),
        decreases parts.len() - v,
    {
        assert(variants.take(v + 1).drop_last() =~= variants.take(v as int));
        assert(variants.take(v + 1).last() == variants[v as int]);
        assert(subset_models(parts@[v as int]@).len() == parts@[v as int]@.len());
        if parts[v].len() > 0 {
            let e = entropy(&parts[v], data);
            rest = rest.plus(&e);
        }
        v += 1;
    }
    assert(variants.take(parts.len() as int) =~= variants);
    whole.minus(&rest)
}

} // verus!
