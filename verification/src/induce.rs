//! Growing a classification tree: at each node the rows are either of one
//! label, and the node is a leaf, or they are split on the attribute that
//! gains the most information among those not yet used on the path.
//!
//! Entropy is compared exactly, so a node is a leaf exactly when its entropy
//! is zero. An attribute can be chosen when its gain is at least zero; among
//! attributes of equal gain the first in column order is kept.
//!
//! Attributes are the columns of the table and are told apart by their
//! position, so a table may give the same name to two of them; a decision
//! node holds the position of its column beside the name.

use crate::dataset::{texts, variant_tables, DataModel, InputData, Row, RowModel, Text};
use crate::information::Information;
use crate::stats::{
    all_rows, entropy, entropy_gain, entropy_of, gain_of, most_common, most_common_label,
    partition_by_attribute, select, subset_models,
};
use crate::tree::{branch_models, DecisionTree, TreeModel};
use vstd::prelude::*;

verus! {

/// Attribute indices as integers.
pub open spec fn indices(path: Seq<usize>) -> Seq<int> {
    Seq::new(path.len(), |i: int| path[i] as int)
}

/// Whether `a` is an attribute of the table that `used` does not hold.
pub open spec fn is_free(data: DataModel, used: Seq<int>, a: int) -> bool {
    0 <= a < data.attribute_names.len() && !used.contains(a)
}

/// Whether, among the free attributes below `upto`, `best` is the choice:
/// none, if none of them has a gain of at least zero; else the first of
/// those with the greatest gain.
pub open spec fn best_among(
    data: DataModel,
    rows: Seq<RowModel>,
    used: Seq<int>,
    upto: int,
    best: Option<int>,
) -> bool {
    match best {
        None => forall|b: int|
            0 <= b < upto && #[trigger] is_free(data, used, b) ==> !gain_of(data, rows, b).is_nonnegative(),
        Some(k) => {
            &&& 0 <= k < upto
            &&& is_free(data, used, k)
            &&& gain_of(data, rows, k).is_nonnegative()
            &&& forall|b: int|
                0 <= b < upto && #[trigger] is_free(data, used, b) ==> gain_of(data, rows, b).le(
                    gain_of(data, rows, k),
                )
            &&& forall|b: int|
                0 <= b < k && #[trigger] is_free(data, used, b) ==> gain_of(data, rows, b).lt(
                    gain_of(data, rows, k),
                )
        },
    }
}

/// Whether `a` is the attribute to split `rows` on.
pub open spec fn is_best(data: DataModel, rows: Seq<RowModel>, used: Seq<int>, a: int) -> bool {
    best_among(data, rows, used, data.attribute_names.len() as int, Some(a))
}

/// The attribute to split `rows` on, if there is one.
pub open spec fn best_attribute_of(data: DataModel, rows: Seq<RowModel>, used: Seq<int>) -> Option<int> {
    if exists|a: int| is_best(data, rows, used, a) {
        Some(choose|a: int| is_best(data, rows, used, a))
    } else {
        None
    }
}

/// The tree grown from `rows` below a path that has used the attributes
/// `used`.
pub open spec fn induced(data: DataModel, rows: Seq<RowModel>, used: Seq<int>) -> TreeModel
    decreases data.attribute_names.len() - used.len(), 0nat,
{
    let leaf = TreeModel::Leaf { value: most_common_label(rows, data.label_variants) };
    if entropy_of(rows, data.label_variants).is_zero() || used.len() >= data.attribute_names.len() {
        leaf
    } else {
        match best_attribute_of(data, rows, used) {
            None => leaf,
            Some(a) => TreeModel::Decision {
                attribute: data.attribute_names[a],
                column: a,
                children: branches(data, rows, used.push(a), a, data.attribute_variants[a].len()),
            },
        }
    }
}

/// The children of a decision node on attribute `a` for the first `k`
/// variants of `a`: one for each variant that some row has.
pub open spec fn branches(data: DataModel, rows: Seq<RowModel>, used: Seq<int>, a: int, k: nat) -> Seq<
    (Text, TreeModel),
>
    decreases data.attribute_names.len() - used.len(), k + 1,
{
    if k == 0 {
        Seq::empty()
    } else {
        let before = branches(data, rows, used, a, (k - 1) as nat);
        let variant = data.attribute_variants[a][k - 1];
        let part = select(rows, a, variant);
        if part.len() > 0 {
            before.push((variant, induced(data, part, used)))
        } else {
            before
        }
    }
}

/// The choice among the free attributes up to and including `a`, given the
/// choice `before` among those below `a`.
pub open spec fn best_step(
    data: DataModel,
    rows: Seq<RowModel>,
    used: Seq<int>,
    a: int,
    before: Option<int>,
) -> Option<int> {
    if !is_free(data, used, a) {
        before
    } else {
        match before {
            None => if gain_of(data, rows, a).is_nonnegative() {
                Some(a)
            } else {
                None
            },
            Some(k) => if gain_of(data, rows, k).lt(gain_of(data, rows, a)) {
                Some(a)
            } else {
                before
            },
        }
    }
}

/// One step of the scan for the best attribute keeps the choice right.
pub proof fn lemma_best_step(
    data: DataModel,
    rows: Seq<RowModel>,
    used: Seq<int>,
    a: int,
    before: Option<int>,
)
    requires
        0 <= a,
        best_among(data, rows, used, a, before),
    ensures
        best_among(data, rows, used, a + 1, best_step(data, rows, used, a, before)),
{
    let after = best_step(data, rows, used, a, before);
    let ga = gain_of(data, rows, a);
    if !is_free(data, used, a) {
    } else {
        match before {
            None => {
                if ga.is_nonnegative() {
                    assert forall|b: int| 0 <= b < a && #[trigger] is_free(data, used, b) implies gain_of(
                        data,
                        rows,
                        b,
                    ).lt(ga) by {
                        lemma_negative_below(gain_of(data, rows, b), ga);
                    }
                    assert forall|b: int| 0 <= b < a + 1 && #[trigger] is_free(data, used, b) implies gain_of(
                        data,
                        rows,
                        b,
                    ).le(ga) by {
                        if b < a {
                            assert(gain_of(data, rows, b).lt(ga));
                        }
                    }
                    assert(best_among(data, rows, used, a + 1, Some(a)));
                } else {
                    assert(best_among(data, rows, used, a + 1, None));
                }
            },
            Some(k) => {
                let gk = gain_of(data, rows, k);
                if gk.lt(ga) {
                    assert forall|b: int| 0 <= b < a && #[trigger] is_free(data, used, b) implies gain_of(
                        data,
                        rows,
                        b,
                    ).lt(ga) by {
                        crate::information::lemma_le_lt_transitive(gain_of(data, rows, b), gk, ga);
                    }
                    assert forall|b: int| 0 <= b < a + 1 && #[trigger] is_free(data, used, b) implies gain_of(
                        data,
                        rows,
                        b,
                    ).le(ga) by {
                        if b < a {
                            assert(gain_of(data, rows, b).lt(ga));
                        }
                    }
                    lemma_nonnegative_above(gk, ga);
                    assert(best_among(data, rows, used, a + 1, Some(a)));
                } else {
                    assert(ga.le(gk));
                    assert forall|b: int| 0 <= b < a + 1 && #[trigger] is_free(data, used, b) implies gain_of(
                        data,
                        rows,
                        b,
                    ).le(gk) by {
                    }
                    assert(best_among(data, rows, used, a + 1, Some(k)));
                }
            },
        }
    }
}

/// An amount above one that is at least zero is at least zero.
pub proof fn lemma_nonnegative_above(x: crate::information::Amount, y: crate::information::Amount)
    requires
        x.lt(y),
    ensures
        x.is_nonnegative() ==> y.is_nonnegative(),
{
    if x.is_nonnegative() && !y.is_nonnegative() {
        lemma_negative_below(y, x);
    }
}

/// There is at most one best attribute.
pub proof fn lemma_best_unique(data: DataModel, rows: Seq<RowModel>, used: Seq<int>, a: int)
    requires
        is_best(data, rows, used, a),
    ensures
        best_attribute_of(data, rows, used) == Some(a),
{
    let k = choose|k: int| is_best(data, rows, used, k);
    assert(is_best(data, rows, used, k));
    if k < a {
        assert(gain_of(data, rows, k).lt(gain_of(data, rows, a)));
        assert(gain_of(data, rows, a).le(gain_of(data, rows, k)));
    } else if a < k {
        assert(gain_of(data, rows, a).lt(gain_of(data, rows, k)));
        assert(gain_of(data, rows, k).le(gain_of(data, rows, a)));
    }
}

/// A path of distinct attributes that leaves one attribute free is shorter
/// than the number of attributes.
pub proof fn lemma_path_room(n: nat, used: Seq<int>, a: int)
    requires
        used.no_duplicates(),
        forall|i: int| 0 <= i < used.len() ==> 0 <= #[trigger] used[i] < n,
        0 <= a < n,
        !used.contains(a),
    ensures
        used.len() < n,
{
    let all = vstd::set_lib::set_int_range(0, n as int);
    vstd::set_lib::lemma_int_range(0, n as int);
    used.unique_seq_to_set();
    let taken = used.to_set();
    assert(taken.subset_of(all.remove(a))) by {
        assert forall|x: int| taken.contains(x) implies all.remove(a).contains(x) by {
            let i = choose|i: int| 0 <= i < used.len() && used[i] == x;
            assert(used[i] == x);
        }
    }
    vstd::set_lib::lemma_len_subset(taken, all.remove(a));
}

/// Whether `a` is among `completed`.
fn is_completed(completed: &Vec<usize>, a: usize) -> (found: bool)
    ensures
        found == indices(completed@).contains(a as int),
{
    let mut i: usize = 0;
    while i < completed.len()
        invariant
            i <= completed.len(),
            forall|j: int| 0 <= j < i ==> indices(completed@)[j] != a as int,
        decreases completed.len() - i,
    {
        if completed[i] == a {
            assert(indices(completed@)[i as int] == a as int);
            return true;
        }
        i += 1;
    }
    false
}

/// The attribute to split `rows` on: the index of the attribute, among those
/// that `completed_attributes` does not hold, whose gain is greatest,
/// provided that gain is at least zero; the first such attribute in column
/// order. `None` if no attribute qualifies.
pub fn best_attribute(rows: &Vec<&Row>, data: &InputData, completed_attributes: &Vec<usize>) -> (best:
    Option<usize>)
    requires
        data@.well_formed(),
        data@.admits_all(subset_models(rows@)),
    ensures
        match best {
            Some(a) => best_attribute_of(data@, subset_models(rows@), indices(completed_attributes@))
                == Some(a as int) && is_best(
                data@,
                subset_models(rows@),
                indices(completed_attributes@),
                a as int,
            ),
            None => best_attribute_of(data@, subset_models(rows@), indices(completed_attributes@))
                is None,
        },
{
    let ghost models = subset_models(rows@);
    let ghost used = indices(completed_attributes@);
    let n = data.attribute_names().len();
    let mut max_gain = Information::zero();
    let mut best: Option<usize> = None;
    let ghost mut chosen: Option<int> = None;
    let mut a: usize = 0;
    while a < n
        invariant
            a <= n,
            n == data@.attribute_names.len(),
            data@.well_formed(),
            data@.admits_all(models),
            models == subset_models(rows@),
            used == indices(completed_attributes@),
            best_among(data@, models, used, a as int, chosen),
            match best {
                Some(k) => chosen == Some(k as int) && max_gain@ == gain_of(data@, models, k as int),
                None => chosen is None,
            },
        decreases n - a,
    {
        let ghost before = chosen;
        if !is_completed(completed_attributes, a) {
            let gain = entropy_gain(rows, data, a);
            match best {
                None => {
                    if gain.is_nonnegative() {
                        best = Some(a);
                        max_gain = gain;
                    }
                },
                Some(k) => {
                    if max_gain.lt(&gain) {
                        best = Some(a);
                        max_gain = gain;
                    }
                },
            }
        }
        proof {
            lemma_best_step(data@, models, used, a as int, before);
            chosen = best_step(data@, models, used, a as int, before);
        }
        a += 1;
    }
    proof {
        match chosen {
            Some(k) => {
                lemma_best_unique(data@, models, used, k);
            },
            None => {
                assert forall|c: int| !is_best(data@, models, used, c) by {
                    if is_best(data@, models, used, c) {
                        assert(is_free(data@, used, c));
                    }
                }
            },
        }
    }
    best
}

/// An amount below zero is below every amount that is at least zero.
pub proof fn lemma_negative_below(x: crate::information::Amount, y: crate::information::Amount)
    requires
        !x.is_nonnegative(),
        y.is_nonnegative(),
    ensures
        x.lt(y),
{
    crate::information::lemma_power_product_positive(x.down);
    crate::information::lemma_power_product_positive(y.down);
    let (nx, dx) = (x.numer() as int, x.denom() as int);
    let (ny, dy) = (y.numer() as int, y.denom() as int);
    assert(ny * dx > nx * dy) by (nonlinear_arith)
        requires
            nx < dx,
            dy <= ny,
            0 <= nx,
            0 < dy,
    {
        assert(ny * dx >= dy * dx);
        assert(dy * dx > dy * nx);
    }
}

/// `path` with `a` after it.
fn extended(path: &Vec<usize>, a: usize) -> (r: Vec<usize>)
    ensures
        r@ == path@.push(a),
{
    let mut out: Vec<usize> = Vec::new();
    let mut i: usize = 0;
    while i < path.len()
        invariant
            i <= path.len(),
            out@ == path@.take(i as int),
        decreases path.len() - i,
    {
        out.push(path[i]);
        assert(out@ =~= path@.take(i + 1));
        i += 1;
    }
    assert(path@.take(path.len() as int) =~= path@);
    out.push(a);
    out
}

/// Whether `used` is a path of distinct attributes of the table.
pub open spec fn is_path(data: DataModel, used: Seq<int>) -> bool {
    &&& used.no_duplicates()
    &&& forall|i: int| 0 <= i < used.len() ==> 0 <= #[trigger] used[i] < data.attribute_names.len()
}

/// Grows the tree for `rows` below a path that has used the attributes
/// `previous_attributes`.
pub fn ida3_internal(rows: &Vec<&Row>, data: &InputData, previous_attributes: &Vec<usize>) -> (tree:
    DecisionTree)
    requires
        data@.well_formed(),
        rows@.len() > 0,
        data@.admits_all(subset_models(rows@)),
        is_path(data@, indices(previous_attributes@)),
    ensures
        tree@ == induced(data@, subset_models(rows@), indices(previous_attributes@)),
    decreases data@.attribute_names.len() - previous_attributes@.len(),
{
    let ghost models = subset_models(rows@);
    let ghost used = indices(previous_attributes@);
    let current_entropy = entropy(rows, data);
    if current_entropy.is_zero() {
        return DecisionTree::leaf(most_common(rows, data));
    }
    match best_attribute(rows, data, previous_attributes) {
        None => DecisionTree::leaf(most_common(rows, data)),
        Some(a) => {
            proof {
                lemma_path_room(data@.attribute_names.len(), used, a as int);
            }
            let names = data.attribute_names();
            let attributes = data.attributes();
            assert(variant_tables(attributes@)[a as int] == texts(attributes@[a as int].variants@));
            assert(texts(names@)[a as int] == names@[a as int]@);
            let variants = &attributes[a].variants;
            let parts = partition_by_attribute(rows, data, a);
            let path = extended(previous_attributes, a);
            let ghost deeper = used.push(a as int);
            assert(indices(path@) =~= deeper);
            let mut children: Vec<(String, DecisionTree)> = Vec::new();
            let mut v: usize = 0;
            assert(branch_models(children@) =~= branches(data@, models, deeper, a as int, 0));
            while v < parts.len()
                invariant
                    v <= parts.len(),
                    data@.well_formed(),
                    data@.admits_all(models),
                    models == subset_models(rows@),
                    a < data@.attribute_names.len(),
                    parts@.len() == variants@.len(),
                    texts(variants@) == data@.attribute_variants[a as int],
                    indices(path@) == deeper,
                    is_path(data@, deeper),
                    deeper.len() == previous_attributes@.len() + 1,
                    deeper.len() <= data@.attribute_names.len(),
                    forall|w: int|
                        0 <= w < parts@.len() ==> subset_models((#[trigger] parts@[w])@) == select(
                            models,
                            a as int,
                            data@.attribute_variants[a as int][w],
                        ),
                    forall|w: int|
                        0 <= w < parts@.len() ==> data@.admits_all(subset_models((#[trigger] parts@[w])@)),
                    branch_models(children@) == branches(data@, models, deeper, a as int, v as nat),
                decreases parts.len() - v,
            {
                assert(texts(variants@)[v as int] == variants@[v as int]@);
                assert(subset_models(parts@[v as int]@).len() == parts@[v as int]@.len());
                if parts[v].len() > 0 {
                    let subtree = ida3_internal(&parts[v], data, &path);
                    let ghost grown = children@;
                    children.push((variants[v].clone(), subtree));
                    assert(children@.drop_last() =~= grown);
                }
                v += 1;
            }
            DecisionTree::decision(names[a].clone(), a, children)
        },
    }
}

/// Grows the classification tree of a table that has at least one row.
pub fn ida3(data: &InputData) -> (tree: DecisionTree)
    requires
        data@.well_formed(),
        data@.rows.len() > 0,
    ensures
        tree@ == induced(data@, data@.rows, Seq::empty()),
{
    let ref_vec = all_rows(data);
    let previous: Vec<usize> = Vec::new();
    assert(indices(previous@) =~= Seq::<int>::empty());
    ida3_internal(&ref_vec, data, &previous)
}

} // verus!
