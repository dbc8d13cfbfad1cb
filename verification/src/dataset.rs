//! The training table: attribute names, the variants observed for each
//! attribute and for the label, and the rows themselves.

use vstd::prelude::*;

verus! {

/// A string as the contracts see it.
pub type Text = Seq<char>;

/// The texts of a vector of strings.
pub open spec fn texts(v: Seq<String>) -> Seq<Text> {
    Seq::new(v.len(), |i: int| v[i]@)
}

/// The texts of a table of strings, record by record.
pub open spec fn tables(v: Seq<Vec<String>>) -> Seq<Seq<Text>> {
    Seq::new(v.len(), |i: int| texts(v[i]@))
}

/// The distinct members of `values`, each at the place of its first
/// occurrence.
pub open spec fn first_seen(values: Seq<Text>) -> Seq<Text>
    decreases values.len(),
{
    if values.len() == 0 {
        Seq::empty()
    } else {
        let before = first_seen(values.drop_last());
        if before.contains(values.last()) {
            before
        } else {
            before.push(values.last())
        }
    }
}

/// One observation: its label and its value for each attribute, in
/// attribute order.
pub struct RowModel {
    pub label: Text,
    pub values: Seq<Text>,
}

/// The values that `rows` hold for attribute `a`, row by row.
pub open spec fn column(rows: Seq<RowModel>, a: int) -> Seq<Text> {
    Seq::new(rows.len(), |r: int| rows[r].values[a])
}

/// The labels of `rows`, row by row.
pub open spec fn labels(rows: Seq<RowModel>) -> Seq<Text> {
    Seq::new(rows.len(), |r: int| rows[r].label)
}

/// Mathematical model of a training table.
pub struct DataModel {
    /// Attribute names in column order, the label column left out.
    pub attribute_names: Seq<Text>,
    /// For each attribute, its observed values in first-seen order.
    pub attribute_variants: Seq<Seq<Text>>,
    /// Name of the label column.
    pub label_name: Text,
    /// Observed label values in first-seen order.
    pub label_variants: Seq<Text>,
    /// The observations, in input order.
    pub rows: Seq<RowModel>,
}

impl DataModel {
    /// The table without attributes and without rows.
    pub open spec fn empty() -> DataModel {
        DataModel {
            attribute_names: Seq::empty(),
            attribute_variants: Seq::empty(),
            label_name: Seq::empty(),
            label_variants: Seq::empty(),
            rows: Seq::empty(),
        }
    }

    /// Whether `row` has one known value for every attribute and a known
    /// label.
    pub open spec fn admits(self, row: RowModel) -> bool {
        &&& row.values.len() == self.attribute_names.len()
        &&& self.label_variants.contains(row.label)
        &&& forall|a: int|
            0 <= a < self.attribute_names.len() ==> (#[trigger] self.attribute_variants[a]).contains(
                row.values[a],
            )
    }

    /// Whether every row of `rows` is admitted.
    pub open spec fn admits_all(self, rows: Seq<RowModel>) -> bool {
        forall|r: int| 0 <= r < rows.len() ==> self.admits(#[trigger] rows[r])
    }

    /// The invariant of a training table: there is one record of variants
    /// for each attribute, and the recorded variants are exactly the values
    /// that the rows hold, in the order in which they first occur.
    /// Attributes are columns: two may carry the same name.
    pub open spec fn well_formed(self) -> bool {
        &&& self.attribute_variants.len() == self.attribute_names.len()
        &&& self.label_variants == first_seen(labels(self.rows))
        &&& self.label_variants.no_duplicates()
        &&& forall|a: int|
            0 <= a < self.attribute_names.len() ==> #[trigger] self.attribute_variants[a]
                == first_seen(column(self.rows, a))
        &&& forall|a: int|
            0 <= a < self.attribute_names.len() ==> (#[trigger] self.attribute_variants[a]).no_duplicates()
        &&& self.admits_all(self.rows)
    }
}

/// The row that a data record spells when column `pos` holds the label.
pub open spec fn row_of(record: Seq<Text>, pos: int) -> RowModel {
    RowModel { label: record[pos], values: record.remove(pos) }
}

/// The rows that the records after the header spell.
pub open spec fn rows_of(records: Seq<Seq<Text>>, pos: int) -> Seq<RowModel> {
    Seq::new((records.len() - 1) as nat, |r: int| row_of(records[r + 1], pos))
}

/// The table that `records` spell when the first record is the header and
/// column `pos` holds the label. Every field is taken as it stands.
pub open spec fn dataset_of(records: Seq<Seq<Text>>, pos: int) -> DataModel {
    if records.len() == 0 {
        DataModel::empty()
    } else {
        let rows = rows_of(records, pos);
        DataModel {
            attribute_names: records[0].remove(pos),
            attribute_variants: Seq::new(
                (records[0].len() - 1) as nat,
                |a: int| first_seen(column(rows, a)),
            ),
            label_name: records[0][pos],
            label_variants: first_seen(labels(rows)),
            rows,
        }
    }
}

/// Why a sequence of records is not a training table.
#[derive(Debug)]
pub enum DataError {
    /// The label position is not a column of the header.
    LabelOutOfRange,
    /// A record has another number of fields than the header.
    UnequalLengths,
    /// The text is not well-formed delimited text; the message says why.
    Parse { message: String },
}

/// The reason, if any, for which `records` are rejected as a table whose
/// label is column `pos`.
pub open spec fn fault(records: Seq<Seq<Text>>, pos: int) -> Option<DataError> {
    if records.len() == 0 {
        None
    } else if pos >= records[0].len() {
        Some(DataError::LabelOutOfRange)
    } else if exists|i: int| 0 <= i < records.len() && (#[trigger] records[i]).len() != records[0].len() {
        Some(DataError::UnequalLengths)
    } else {
        None
    }
}

/// `first_seen` keeps exactly the members of its argument.
pub proof fn lemma_first_seen_members(values: Seq<Text>)
    ensures
        forall|x: Text| first_seen(values).contains(x) <==> values.contains(x),
    decreases values.len(),
{
    if values.len() > 0 {
        let init = values.drop_last();
        lemma_first_seen_members(init);
        let before = first_seen(init);
        assert forall|x: Text| first_seen(values).contains(x) <==> values.contains(x) by {
            if first_seen(values).contains(x) {
                let i = choose|i: int| 0 <= i < first_seen(values).len() && first_seen(values)[i] == x;
                if i < before.len() {
                    assert(before[i] == x);
                    assert(before.contains(x));
                    assert(init.contains(x));
                    let j = choose|j: int| 0 <= j < init.len() && init[j] == x;
                    assert(values[j] == x);
                } else {
                    assert(x == values.last());
                    assert(values[values.len() - 1] == x);
                }
            }
            if values.contains(x) {
                let j = choose|j: int| 0 <= j < values.len() && values[j] == x;
                if j < init.len() {
                    assert(init[j] == x);
                    assert(init.contains(x));
                    assert(before.contains(x));
                    let i = choose|i: int| 0 <= i < before.len() && before[i] == x;
                    assert(first_seen(values)[i] == x);
                } else {
                    assert(x == values.last());
                    if !before.contains(x) {
                        assert(first_seen(values)[before.len() as int] == x);
                    }
                }
            }
        }
    }
}

/// `first_seen` holds nothing twice.
pub proof fn lemma_first_seen_distinct(values: Seq<Text>)
    ensures
        first_seen(values).no_duplicates(),
    decreases values.len(),
{
    if values.len() > 0 {
        lemma_first_seen_distinct(values.drop_last());
    }
}

/// The attribute record of a table: the distinct values of one column.
#[derive(Debug)]
pub struct Attribute {
    pub variants: Vec<String>,
}

impl Attribute {
    /// An attribute with no variant seen yet.
    pub fn new() -> (r: Attribute)
        ensures
            r.variants@.len() == 0,
    {
        Attribute { variants: Vec::new() }
    }
}

/// One observation.
#[derive(Debug)]
pub struct Row {
    /// The label value.
    pub result: String,
    /// The value for each attribute, in attribute order.
    pub values: Vec<String>,
}

impl View for Row {
    type V = RowModel;

    open spec fn view(&self) -> RowModel {
        RowModel { label: self.result@, values: texts(self.values@) }
    }
}

/// A copy of `v`, string by string.
pub fn copied(v: &Vec<String>) -> (r: Vec<String>)
    ensures
        texts(r@) == texts(v@),
{
    let mut out: Vec<String> = Vec::new();
    let mut i: usize = 0;
    while i < v.len()
        invariant
            i <= v.len(),
            out@.len() == i,
            forall|k: int| 0 <= k < i ==> out@[k]@ == v@[k]@,
        decreases v.len() - i,
    {
        out.push(v[i].clone());
        i += 1;
    }
    assert(texts(out@) =~= texts(v@));
    out
}

impl Clone for Attribute {
    /// A copy with the same variants in the same order.
    fn clone(&self) -> (r: Attribute)
        ensures
            texts(r.variants@) == texts(self.variants@),
    {
        Attribute { variants: copied(&self.variants) }
    }
}

impl Clone for Row {
    /// A copy with the same label and the same values.
    fn clone(&self) -> (r: Row)
        ensures
            r@ == self@,
    {
        Row { result: self.result.clone(), values: copied(&self.values) }
    }
}

impl Row {
    /// A row with an empty label and no values.
    pub fn new() -> (r: Row)
        ensures
            r@ == (RowModel { label: Seq::empty(), values: Seq::empty() }),
    {
        let r = Row { result: String::new(), values: Vec::new() };
        assert(texts(r.values@) =~= Seq::<Text>::empty());
        r
    }
}

/// The models of a vector of rows.
pub open spec fn row_models(rows: Seq<Row>) -> Seq<RowModel> {
    Seq::new(rows.len(), |r: int| rows[r]@)
}

/// The models of the attribute records of a table.
pub open spec fn variant_tables(attributes: Seq<Attribute>) -> Seq<Seq<Text>> {
    Seq::new(attributes.len(), |a: int| texts(attributes[a].variants@))
}

/// Whether `needle` is among `haystack`.
pub fn contains(haystack: &Vec<String>, needle: &String) -> (found: bool)
    ensures
        found == texts(haystack@).contains(needle@),
{
    let mut i: usize = 0;
    while i < haystack.len()
        invariant
            i <= haystack.len(),
            forall|j: int| 0 <= j < i ==> texts(haystack@)[j] != needle@,
        decreases haystack.len() - i,
    {
        if haystack[i] == *needle {
            assert(texts(haystack@)[i as int] == needle@);
            return true;
        }
        i += 1;
    }
    false
}

/// A copy of `record` with the field at `pos` left out.
pub fn without(record: &Vec<String>, pos: usize) -> (r: Vec<String>)
    requires
        pos < record.len(),
    ensures
        texts(r@) == texts(record@).remove(pos as int),
{
    let mut out: Vec<String> = Vec::new();
    let mut j: usize = 0;
    while j < record.len()
        invariant
            j <= record.len(),
            pos < record.len(),
            out@.len() == if j <= pos { j as int } else { j - 1 },
            forall|k: int| 0 <= k < out@.len() ==> out@[k]@ == record@[if k < pos { k } else { k + 1 }]@,
        decreases record.len() - j,
    {
        if j != pos {
            out.push(record[j].clone());
        }
        j += 1;
    }
    assert(texts(out@) =~= texts(record@).remove(pos as int));
    out
}

/// The distinct labels of `rows`, in first-seen order.
fn label_variants_of(rows: &Vec<Row>) -> (r: Vec<String>)
    ensures
        texts(r@) == first_seen(labels(row_models(rows@))),
{
    let ghost all = labels(row_models(rows@));
    let mut seen: Vec<String> = Vec::new();
    let mut i: usize = 0;
    assert(all.take(0) =~= Seq::<Text>::empty());
    assert(texts(seen@) =~= Seq::<Text>::empty());
    while i < rows.len()
        invariant
            i <= rows.len(),
            all == labels(row_models(rows@)),
            texts(seen@) == first_seen(all.take(i as int)),
        decreases rows.len() - i,
    {
        let ghost before = texts(seen@);
        assert(all.take(i + 1).drop_last() =~= all.take(i as int));
        assert(all.take(i + 1).last() == rows@[i as int].result@);
        if !contains(&seen, &rows[i].result) {
            seen.push(rows[i].result.clone());
            assert(texts(seen@) =~= before.push(rows@[i as int].result@));
        }
        i += 1;
    }
    assert(all.take(rows.len() as int) =~= all);
    seen
}

/// The distinct values of attribute `a` in `rows`, in first-seen order.
fn attribute_variants_of(rows: &Vec<Row>, a: usize) -> (r: Vec<String>)
    requires
        forall|i: int| 0 <= i < rows@.len() ==> a < (#[trigger] rows@[i]).values@.len(),
    ensures
        texts(r@) == first_seen(column(row_models(rows@), a as int)),
{
    let ghost all = column(row_models(rows@), a as int);
    let mut seen: Vec<String> = Vec::new();
    let mut i: usize = 0;
    assert(all.take(0) =~= Seq::<Text>::empty());
    assert(texts(seen@) =~= Seq::<Text>::empty());
    while i < rows.len()
        invariant
            i <= rows.len(),
            all == column(row_models(rows@), a as int),
            forall|i: int| 0 <= i < rows@.len() ==> a < (#[trigger] rows@[i]).values@.len(),
            texts(seen@) == first_seen(all.take(i as int)),
        decreases rows.len() - i,
    {
        let ghost before = texts(seen@);
        assert(all.take(i + 1).drop_last() =~= all.take(i as int));
        assert(all.take(i + 1).last() == rows@[i as int].values@[a as int]@);
        if !contains(&seen, &rows[i].values[a]) {
            seen.push(rows[i].values[a].clone());
            assert(texts(seen@) =~= before.push(rows@[i as int].values@[a as int]@));
        }
        i += 1;
    }
    assert(all.take(rows.len() as int) =~= all);
    seen
}

/// A training table.
pub struct InputData {
    attribute_names: Vec<String>,
    attributes: Vec<Attribute>,
    result_name: String,
    result_variants: Vec<String>,
    rows: Vec<Row>,
}

impl View for InputData {
    type V = DataModel;

    closed spec fn view(&self) -> DataModel {
        DataModel {
            attribute_names: texts(self.attribute_names@),
            attribute_variants: variant_tables(self.attributes@),
            label_name: self.result_name@,
            label_variants: texts(self.result_variants@),
            rows: row_models(self.rows@),
        }
    }
}

impl InputData {
    /// The table without attributes and without rows.
    pub fn new() -> (data: InputData)
        ensures
            data@ == DataModel::empty(),
            data@.well_formed(),
    {
        let data = InputData {
            attribute_names: Vec::new(),
            attributes: Vec::new(),
            result_name: String::new(),
            result_variants: Vec::new(),
            rows: Vec::new(),
        };
        proof {
            assert(texts(data.attribute_names@) =~= Seq::<Text>::empty());
            assert(variant_tables(data.attributes@) =~= Seq::<Seq<Text>>::empty());
            assert(texts(data.result_variants@) =~= Seq::<Text>::empty());
            assert(row_models(data.rows@) =~= Seq::<RowModel>::empty());
            assert(labels(Seq::<RowModel>::empty()) =~= Seq::<Text>::empty());
        }
        data
    }

    /// Builds the table that `records` spell: the first record is the
    /// header, column `result_position` holds the label, and every field is
    /// taken as it stands. No record at all gives the empty table.
    pub fn from_records(records: &Vec<Vec<String>>, result_position: usize) -> (r: Result<
        InputData,
        DataError,
    >)
        ensures
            match r {
                Ok(data) => {
                    &&& fault(tables(records@), result_position as int) is None
                    &&& data@ == dataset_of(tables(records@), result_position as int)
                    &&& data@.well_formed()
                },
                Err(e) => fault(tables(records@), result_position as int) == Some(e),
            },
    {
        let ghost recs = tables(records@);
        let ghost pos = result_position as int;
        if records.len() == 0 {
            return Ok(InputData::new());
        }
        let header = &records[0];
        if result_position >= header.len() {
            return Err(DataError::LabelOutOfRange);
        }
        let width = header.len();
        let mut i: usize = 1;
        while i < records.len()
            invariant
                1 <= i <= records.len(),
                width == records@[0]@.len(),
                result_position < width,
                pos == result_position as int,
                recs == tables(records@),
                forall|j: int| 0 <= j < i ==> (#[trigger] recs[j]).len() == width,
            decreases records.len() - i,
        {
            if records[i].len() != width {
                assert(recs[i as int].len() != recs[0].len());
                return Err(DataError::UnequalLengths);
            }
            i += 1;
        }
        let attribute_names = without(header, result_position);
        let result_name = header[result_position].clone();
        let mut rows: Vec<Row> = Vec::new();
        let mut i: usize = 1;
        while i < records.len()
            invariant
                1 <= i <= records.len(),
                result_position < width,
                recs == tables(records@),
                pos == result_position as int,
                forall|j: int| 0 <= j < records@.len() ==> (#[trigger] recs[j]).len() == width,
                rows@.len() == i - 1,
                forall|r: int| 0 <= r < rows@.len() ==> (#[trigger] rows@[r])@ == row_of(recs[r + 1], pos),
            decreases records.len() - i,
        {
            let record = &records[i];
            assert(recs[i as int].len() == width);
            let values = without(record, result_position);
            let row = Row { result: record[result_position].clone(), values };
            assert(row@ == row_of(recs[i as int], pos));
            rows.push(row);
            i += 1;
        }
        let ghost model_rows = rows_of(recs, pos);
        assert(row_models(rows@) =~= model_rows);
        proof {
            assert forall|r: int| 0 <= r < rows@.len() implies (#[trigger] rows@[r]).values@.len()
                == width - 1 by {
                assert(rows@[r]@ == row_of(recs[r + 1], pos));
                assert(recs[r + 1].len() == width);
                assert(texts(rows@[r].values@).len() == width - 1);
            }
        }
        let result_variants = label_variants_of(&rows);
        let mut attributes: Vec<Attribute> = Vec::new();
        let mut a: usize = 0;
        while a < width - 1
            invariant
                a <= width - 1,
                model_rows == row_models(rows@),
                forall|r: int| 0 <= r < rows@.len() ==> (#[trigger] rows@[r]).values@.len() == width - 1,
                attributes@.len() == a,
                forall|b: int|
                    0 <= b < a ==> texts((#[trigger] attributes@[b]).variants@) == first_seen(
                        column(model_rows, b),
                    ),
            decreases width - 1 - a,
        {
            let variants = attribute_variants_of(&rows, a);
            attributes.push(Attribute { variants });
            a += 1;
        }
        let data = InputData { attribute_names, attributes, result_name, result_variants, rows };
        proof {
            let want = dataset_of(recs, pos);
            assert(data@.attribute_variants =~= want.attribute_variants);
            assert(data@ == want);
            lemma_first_seen_distinct(labels(model_rows));
            lemma_first_seen_members(labels(model_rows));
            assert forall|a: int| 0 <= a < want.attribute_names.len() implies (
            #[trigger] want.attribute_variants[a]).no_duplicates() by {
                lemma_first_seen_distinct(column(model_rows, a));
            }
            assert forall|r: int| 0 <= r < model_rows.len() implies want.admits(
                #[trigger] model_rows[r],
            ) by {
                let row = model_rows[r];
                assert(row == row_of(recs[r + 1], pos));
                assert(recs[r + 1].len() == width);
                assert(labels(model_rows)[r] == row.label);
                assert(labels(model_rows).contains(row.label));
                assert forall|a: int| 0 <= a < want.attribute_names.len() implies (
                #[trigger] want.attribute_variants[a]).contains(row.values[a]) by {
                    lemma_first_seen_members(column(model_rows, a));
                    assert(column(model_rows, a)[r] == row.values[a]);
                    assert(column(model_rows, a).contains(row.values[a]));
                }
            }
        }
        Ok(data)
    }

    /// The attribute names, in column order.
    pub fn attribute_names(&self) -> (names: &Vec<String>)
        ensures
            texts(names@) == self@.attribute_names,
    {
        &self.attribute_names
    }

    /// The attribute records, in column order.
    pub fn attributes(&self) -> (attributes: &Vec<Attribute>)
        ensures
            variant_tables(attributes@) == self@.attribute_variants,
    {
        &self.attributes
    }

    /// The name of the label column.
    pub fn result_name(&self) -> (name: &String)
        ensures
            name@ == self@.label_name,
    {
        &self.result_name
    }

    /// The label values, in first-seen order.
    pub fn result_variants(&self) -> (variants: &Vec<String>)
        ensures
            texts(variants@) == self@.label_variants,
    {
        &self.result_variants
    }

    /// The rows, in input order.
    pub fn rows(&self) -> (rows: &Vec<Row>)
        ensures
            row_models(rows@) == self@.rows,
    {
        &self.rows
    }
}

} // verus!
