//! A labelled data set stored row by row, and the selection of the rows whose
//! label belongs to a given set of classes.

use vstd::prelude::*;

verus! {

/// What a `Dataset` holds: `targets.len()` rows of `nfeatures` values each,
/// laid end to end in `records`, and the label of every row.
pub ghost struct DatasetView<T> {
    pub records: Seq<T>,
    pub nfeatures: nat,
    pub targets: Seq<usize>,
}

impl<T> DatasetView<T> {
    /// Every row has its `nfeatures` values.
    pub open spec fn well_formed(self) -> bool {
        self.records.len() == self.targets.len() * self.nfeatures
    }

    /// The values of row `i`.
    pub open spec fn row(self, i: int) -> Seq<T> {
        self.records.subrange(i * self.nfeatures, (i + 1) * self.nfeatures)
    }

    /// The rows named by `rows`, in that order, laid end to end.
    pub open spec fn select_rows(self, rows: Seq<int>) -> Seq<T>
        decreases rows.len(),
    {
        if rows.len() == 0 {
            Seq::empty()
        } else {
            self.select_rows(rows.drop_last()) + self.row(rows.last())
        }
    }
}

/// The value in column `column` of row `row` when `values` holds rows of
/// `width` values laid end to end.
pub open spec fn entry<T>(values: Seq<T>, width: nat, row: int, column: int) -> T {
    values[row * width + column]
}

/// The positions of `targets`, in increasing order, whose label occurs in
/// `allowed`.
pub open spec fn kept_rows(targets: Seq<usize>, allowed: Seq<usize>) -> Seq<int>
    decreases targets.len(),
{
    if targets.len() == 0 {
        Seq::empty()
    } else {
        let before = kept_rows(targets.drop_last(), allowed);
        if allowed.contains(targets.last()) {
            before.push(targets.len() - 1)
        } else {
            before
        }
    }
}

/// Feature rows of equal length with one label each.
#[derive(Debug, PartialEq, Eq)]
pub struct Dataset<T> {
    records: Vec<T>,
    nfeatures: usize,
    targets: Vec<usize>,
}

impl<T> View for Dataset<T> {
    type V = DatasetView<T>;

    closed spec fn view(&self) -> DatasetView<T> {
        DatasetView {
            records: self.records@,
            nfeatures: self.nfeatures as nat,
            targets: self.targets@,
        }
    }
}

impl<T> Dataset<T> {
    #[verifier::type_invariant]
    spec fn rows_complete(self) -> bool {
        self@.well_formed()
    }

    /// Builds a data set from rows laid end to end and their labels. There is
    /// one exactly when `records` holds `nfeatures` values for every label.
    pub fn new(records: Vec<T>, nfeatures: usize, targets: Vec<usize>) -> (r: Option<Dataset<T>>)
        ensures
            r is Some <==> records@.len() == targets@.len() * nfeatures,
            r is Some ==> r->Some_0@ == (DatasetView {
                records: records@,
                nfeatures: nfeatures as nat,
                targets: targets@,
            }),
    {
        let nsamples: usize = targets.len();
        let nvalues: usize = records.len();
        match nsamples.checked_mul(nfeatures) {
            Some(expected) => {
                if nvalues == expected {
                    Some(Dataset { records, nfeatures, targets })
                } else {
                    None
                }
            },
            None => None,
        }
    }

    /// The number of rows.
    pub fn nsamples(&self) -> (n: usize)
        ensures
            n == self@.targets.len(),
            self@.well_formed(),
    {
        proof {
            use_type_invariant(self);
        }
        self.targets.len()
    }

    /// The number of values in a row.
    pub fn nfeatures(&self) -> (n: usize)
        ensures
            n == self@.nfeatures,
    {
        self.nfeatures
    }

    /// All rows, laid end to end.
    pub fn records(&self) -> (r: &Vec<T>)
        ensures
            r@ == self@.records,
            self@.well_formed(),
    {
        proof {
            use_type_invariant(self);
        }
        &self.records
    }

    /// The label of every row.
    pub fn targets(&self) -> (r: &Vec<usize>)
        ensures
            r@ == self@.targets,
    {
        &self.targets
    }
}

/// Whether `label` occurs in `allowed`.
pub fn is_allowed(allowed: &[usize], label: usize) -> (r: bool)
    ensures
        r == allowed@.contains(label),
{
    let mut i: usize = 0;
    while i < allowed.len()
        invariant
            i <= allowed.len(),
            forall|j: int| 0 <= j < i ==> allowed@[j] != label,
        decreases allowed.len() - i,
    {
        if allowed[i] == label {
            return true;
        }
        i += 1;
    }
    false
}

/// The kept rows are exactly the positions with an allowed label, each once
/// and in increasing order.
pub proof fn lemma_kept_rows(targets: Seq<usize>, allowed: Seq<usize>)
    ensures
        kept_rows(targets, allowed).len() <= targets.len(),
        forall|j: int|
            0 <= j < kept_rows(targets, allowed).len() ==> {
                let i = #[trigger] kept_rows(targets, allowed)[j];
                0 <= i < targets.len() && allowed.contains(targets[i])
            },
        forall|j: int, k: int|
            0 <= j < k < kept_rows(targets, allowed).len() ==> kept_rows(targets, allowed)[j]
                < kept_rows(targets, allowed)[k],
        forall|i: int|
            0 <= i < targets.len() && allowed.contains(#[trigger] targets[i]) ==> kept_rows(
                targets,
                allowed,
            ).contains(i),
    decreases targets.len(),
{
    if targets.len() > 0 {
        let front = targets.drop_last();
        let before = kept_rows(front, allowed);
        let all = kept_rows(targets, allowed);
        lemma_kept_rows(front, allowed);
        assert forall|i: int| 0 <= i < targets.len() && allowed.contains(
            #[trigger] targets[i],
        ) implies all.contains(i) by {
            if i < front.len() {
                assert(front[i] == targets[i]);
                let j = choose|j: int| 0 <= j < before.len() && before[j] == i;
                assert(all[j] == i);
            } else {
                assert(all[all.len() - 1] == i);
            }
        }
        assert forall|j: int| 0 <= j < all.len() implies {
            let i = #[trigger] all[j];
            0 <= i < targets.len() && allowed.contains(targets[i])
        } by {
            if j < before.len() {
                assert(all[j] == before[j]);
                assert(front[before[j]] == targets[before[j]]);
            }
        }
    }
}

/// Selecting rows yields as many rows as were named, and row `j` of the
/// selection holds in every column what the data set holds there in the row
/// named in place `j`.
pub proof fn lemma_select_rows<T>(data: DatasetView<T>, rows: Seq<int>)
    requires
        data.well_formed(),
        forall|j: int| 0 <= j < rows.len() ==> 0 <= #[trigger] rows[j] < data.targets.len(),
    ensures
        data.select_rows(rows).len() == rows.len() * data.nfeatures,
        forall|j: int, c: int|
            0 <= j < rows.len() && 0 <= c < data.nfeatures ==> #[trigger] entry(
                data.select_rows(rows),
                data.nfeatures,
                j,
                c,
            ) == entry(data.records, data.nfeatures, rows[j], c),
    decreases rows.len(),
{
    let nf = data.nfeatures as int;
    if rows.len() > 0 {
        let front = rows.drop_last();
        let last = rows.last();
        lemma_select_rows(data, front);
        lemma_row_in_bounds(data, last);
        assert(data.select_rows(rows).len() == rows.len() * nf) by (nonlinear_arith)
            requires
                data.select_rows(rows).len() == front.len() * nf + nf,
                front.len() + 1 == rows.len(),
        ;
        assert forall|j: int, c: int| 0 <= j < rows.len() && 0 <= c < nf implies #[trigger] entry(
            data.select_rows(rows),
            data.nfeatures,
            j,
            c,
        ) == entry(data.records, data.nfeatures, rows[j], c) by {
            if j < front.len() {
                assert(front[j] == rows[j]);
                assert(0 <= j * nf + c < front.len() * nf) by (nonlinear_arith)
                    requires
                        0 <= j < front.len(),
                        0 <= c < nf,
                ;
                assert(entry(data.select_rows(front), data.nfeatures, j, c) == entry(
                    data.records,
                    data.nfeatures,
                    front[j],
                    c,
                ));
            } else {
                assert(j * nf + c == front.len() * nf + c);
                assert(data.row(last)[c] == data.records[last * nf + c]);
            }
        }
    } else {
        assert(rows.len() * nf == 0) by (nonlinear_arith)
            requires
                rows.len() == 0,
        ;
    }
}

/// Row `i` of a well-formed data set lies within its records.
pub proof fn lemma_row_in_bounds<T>(data: DatasetView<T>, i: int)
    requires
        data.well_formed(),
        0 <= i < data.targets.len(),
    ensures
        0 <= i * data.nfeatures <= (i + 1) * data.nfeatures <= data.records.len(),
        (i + 1) * data.nfeatures == i * data.nfeatures + data.nfeatures,
        data.row(i).len() == data.nfeatures,
{
    let nf = data.nfeatures as int;
    let n = data.targets.len() as int;
    assert(0 <= i * nf <= (i + 1) * nf <= n * nf && (i + 1) * nf == i * nf + nf)
        by (nonlinear_arith)
        requires
            0 <= i < n,
            0 <= nf,
    ;
}

/// Keeps the rows of `dataset` whose label occurs in `allowed`, with their
/// labels, in the order in which they stood.
pub fn filter_binary_classes<T: Copy>(dataset: &Dataset<T>, allowed: &[usize]) -> (r: Dataset<T>)
    ensures
        r@.well_formed(),
        r@.nfeatures == dataset@.nfeatures,
        r@.targets == kept_rows(dataset@.targets, allowed@).map_values(
            |i: int| dataset@.targets[i],
        ),
        r@.records == dataset@.select_rows(kept_rows(dataset@.targets, allowed@)),
{
    proof {
        use_type_invariant(dataset);
    }
    let nsamples: usize = dataset.targets.len();
    let nfeatures: usize = dataset.nfeatures;
    let nvalues: usize = dataset.records.len();
    let ghost data = dataset@;
    let mut records: Vec<T> = Vec::new();
    let mut targets: Vec<usize> = Vec::new();
    let mut i: usize = 0;
    while i < nsamples
        invariant
            i <= nsamples,
            nsamples == dataset.targets.len(),
            nfeatures == dataset.nfeatures,
            data == dataset@,
            data.well_formed(),
            nvalues == data.records.len(),
            targets@ == kept_rows(data.targets.take(i as int), allowed@).map_values(
                |k: int| data.targets[k],
            ),
            records@ == data.select_rows(kept_rows(data.targets.take(i as int), allowed@)),
            records@.len() == targets@.len() * nfeatures,
        decreases nsamples - i,
    {
        let label: usize = dataset.targets[i];
        let ghost before = kept_rows(data.targets.take(i as int), allowed@);
        proof {
            assert(data.targets.take(i + 1).drop_last() == data.targets.take(i as int));
            lemma_row_in_bounds(data, i as int);
        }
        if is_allowed(allowed, label) {
            assert(i * nfeatures + nfeatures <= nvalues) by {
                assert(i * nfeatures == i * data.nfeatures);
            }
            let start: usize = i * nfeatures;
            let ghost copied = records@;
            let mut c: usize = 0;
            while c < nfeatures
                invariant
                    c <= nfeatures,
                    nfeatures == dataset.nfeatures,
                    data == dataset@,
                    start + nfeatures <= nvalues,
                    nvalues == data.records.len(),
                    records@ == copied + data.records.subrange(start as int, start + c),
                decreases nfeatures - c,
            {
                let value: T = dataset.records[start + c];
                records.push(value);
                c += 1;
                proof {
                    assert(records@ == copied + data.records.subrange(start as int, start + c));
                }
            }
            targets.push(label);
            proof {
                let after = before.push(i as int);
                assert(kept_rows(data.targets.take(i + 1), allowed@) == after);
                assert(after.drop_last() == before);
                assert(data.row(i as int) == data.records.subrange(
                    start as int,
                    start + nfeatures,
                ));
                assert(targets@ == after.map_values(|k: int| data.targets[k]));
                assert(records@.len() == targets@.len() * nfeatures) by (nonlinear_arith)
                    requires
                        records@.len() == copied.len() + nfeatures,
                        copied.len() == (targets@.len() - 1) * nfeatures,
                ;
            }
        } else {
            proof {
                assert(kept_rows(data.targets.take(i + 1), allowed@) == before);
            }
        }
        i += 1;
    }
    proof {
        assert(data.targets.take(nsamples as int) == data.targets);
    }
    Dataset { records, nfeatures, targets }
}

} // verus!
