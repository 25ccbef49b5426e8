//! Ingestion of labelled images from comma-separated text.
//!
//! Every record is a label followed by the pixels of one image, each field
//! a decimal number. Reading stops at the first record that cannot be
//! accepted, and the error names that record.

use crate::dataset::{Dataset, DatasetView};
use crate::utils::{is_first_max, rank};
use vstd::prelude::*;

verus! {

/// The number of pixels of one image: 28 rows of 28.
pub const PIXELS_PER_IMAGE: usize = 784;

/// The largest value of a pixel, and of the label of a `Sample`.
pub const BYTE_MAX: u64 = 255;

/// The number of classes: the digits 0 to 9.
pub const CLASSES: usize = 10;

/// The binary64 bit pattern of 0.01, which a target holds for every class but
/// the right one.
pub const TARGET_LOW: u64 = 0x3f84_7ae1_47ae_147b;

/// The binary64 bit pattern of 0.99, which a target holds for the right class.
pub const TARGET_HIGH: u64 = 0x3fef_ae14_7ae1_47ae;

/// The target vector for the class `label`, as bit patterns: high at `label`,
/// low at the other classes.
pub open spec fn target_of(label: int) -> Seq<u64> {
    Seq::new(
        CLASSES as nat,
        |i: int|
            if i == label {
                TARGET_HIGH
            } else {
                TARGET_LOW
            },
    )
}

/// Builds the target vector for the class `label`.
pub fn target_array(label: u8) -> (r: Vec<u64>)
    requires
        label < CLASSES,
    ensures
        r@ == target_of(label as int),
{
    let mut target: Vec<u64> = Vec::new();
    let mut i: usize = 0;
    while i < CLASSES
        invariant
            i <= CLASSES,
            target@.len() == i,
            forall|k: int| 0 <= k < i ==> #[trigger] target@[k] == target_of(label as int)[k],
        decreases CLASSES - i,
    {
        if i == label as usize {
            target.push(TARGET_HIGH);
        } else {
            target.push(TARGET_LOW);
        }
        i += 1;
    }
    assert(target@ =~= target_of(label as int));
    target
}

/// The arg-max of a target vector is the class it was built for.
pub proof fn lemma_target_marks_label(label: int)
    requires
        0 <= label < CLASSES,
    ensures
        is_first_max(target_of(label), label),
{
    assert(rank(TARGET_LOW) < rank(TARGET_HIGH));
}

/// Whether `b` is one of the ASCII digits `0` to `9`.
pub open spec fn is_digit(b: u8) -> bool {
    48 <= b <= 57
}

/// What the byte `b` adds to a decimal number: its digit, or nothing where it
/// is no digit.
pub open spec fn digit_of(b: u8) -> nat {
    if is_digit(b) {
        (b - 48) as nat
    } else {
        0
    }
}

/// The number that the digits of `text` spell in base ten.
pub open spec fn decimal_value(text: Seq<u8>) -> nat
    decreases text.len(),
{
    if text.len() == 0 {
        0
    } else {
        decimal_value(text.drop_last()) * 10 + digit_of(text.last())
    }
}

/// `text` without the plus sign that may lead it.
pub open spec fn unsigned_part(text: Seq<u8>) -> Seq<u8> {
    if text.len() > 0 && text[0] == 43 {
        text.skip(1)
    } else {
        text
    }
}

/// `text` is nothing but decimal digits.
pub open spec fn all_digits(text: Seq<u8>) -> bool {
    forall|i: int| 0 <= i < text.len() ==> is_digit(#[trigger] text[i])
}

/// The number that `text` denotes, if it denotes one that is at most `max`:
/// an optional plus sign, then one or more decimal digits and nothing else.
/// Leading zeros are allowed; a sign alone, a minus sign, blanks and an empty
/// field are not.
pub open spec fn parsed(text: Seq<u8>, max: nat) -> Option<nat> {
    let digits = unsigned_part(text);
    if digits.len() > 0 && all_digits(digits) && decimal_value(digits) <= max {
        Some(decimal_value(digits))
    } else {
        None
    }
}

/// A number never spells less than any of its leading parts.
pub proof fn lemma_decimal_value_grows(text: Seq<u8>, n: int)
    requires
        0 <= n <= text.len(),
    ensures
        decimal_value(text.take(n)) <= decimal_value(text),
    decreases text.len(),
{
    if n < text.len() {
        lemma_decimal_value_grows(text.drop_last(), n);
        assert(text.drop_last().take(n) == text.take(n));
    } else {
        assert(text.take(n) == text);
    }
}

/// Reads `text` as an unsigned decimal number no larger than `max`.
pub fn parse_unsigned(text: &[u8], max: u64) -> (r: Option<u64>)
    ensures
        r is Some <==> parsed(text@, max as nat) is Some,
        r is Some ==> r->Some_0 == parsed(text@, max as nat)->Some_0,
{
    let n: usize = text.len();
    let start: usize = if n > 0 && text[0] == 43 {
        1
    } else {
        0
    };
    let ghost digits = unsigned_part(text@);
    assert(digits == text@.skip(start as int));
    if start == n {
        return None;
    }
    let mut value: u64 = 0;
    let mut i: usize = start;
    while i < n
        invariant
            start <= i <= n,
            n == text@.len(),
            digits == text@.skip(start as int),
            digits == unsigned_part(text@),
            all_digits(digits.take(i - start)),
            value == decimal_value(digits.take(i - start)),
            value <= max,
        decreases n - i,
    {
        let b: u8 = text[i];
        let ghost seen = digits.take(i - start);
        let ghost next = digits.take(i - start + 1);
        proof {
            assert(next.drop_last() == seen);
            assert(next.last() == b);
            lemma_decimal_value_grows(digits, i - start + 1);
        }
        if b < 48 || b > 57 {
            assert(!is_digit(digits[i - start]));
            return None;
        }
        let d: u64 = (b - 48) as u64;
        assert(decimal_value(next) == value * 10 + d);
        if value > max / 10 {
            assert(decimal_value(digits) > max);
            return None;
        }
        let tens: u64 = value * 10;
        if d > max - tens {
            assert(decimal_value(digits) > max);
            return None;
        }
        value = tens + d;
        i += 1;
        proof {
            assert forall|k: int| 0 <= k < next.len() implies is_digit(#[trigger] next[k]) by {
                if k < seen.len() {
                    assert(seen[k] == next[k]);
                }
            }
        }
    }
    proof {
        assert(digits.take(n - start) == digits);
    }
    Some(value)
}

/// Why a text was not accepted as a data set.
#[derive(Debug, Clone, Copy, PartialEq, Eq)]
pub enum LoadError {
    /// The text is no comma-separated data from the end of record `record`
    /// on, counted from zero: that many records were read before it.
    Malformed { record: usize },
    /// Record `record` has no first field that is a number a label can be.
    InvalidLabel { record: usize },
    /// A field after the first of record `record` is no number from 0 to 255.
    InvalidPixel { record: usize },
    /// Some record among the `samples` that were read does not have exactly
    /// `PIXELS_PER_IMAGE` pixels; together they hold `values` pixels.
    Shape { samples: usize, values: usize },
}

/// One labelled image as it was read: the label and the raw pixels.
#[derive(Debug, PartialEq, Eq)]
pub struct Sample {
    pub label: u8,
    pub pixels: Vec<u8>,
}

/// What a `Sample` holds.
pub ghost struct SampleView {
    pub label: u8,
    pub pixels: Seq<u8>,
}

impl View for Sample {
    type V = SampleView;

    open spec fn view(&self) -> SampleView {
        SampleView { label: self.label, pixels: self.pixels@ }
    }
}

impl DeepView for Sample {
    type V = SampleView;

    open spec fn deep_view(&self) -> SampleView {
        self@
    }
}

/// The label that a record carries in its first field, if that field is a
/// number of at most `label_max`.
pub open spec fn label_of(record: Seq<Seq<u8>>, label_max: nat) -> Option<nat> {
    if record.len() == 0 {
        None
    } else {
        parsed(record[0], label_max)
    }
}

/// Every field after the first is a number from 0 to 255.
pub open spec fn pixels_valid(record: Seq<Seq<u8>>) -> bool {
    forall|j: int| 1 <= j < record.len() ==> parsed(#[trigger] record[j], BYTE_MAX as nat) is Some
}

/// The pixels that the fields after the first denote.
pub open spec fn pixels_of(record: Seq<Seq<u8>>) -> Seq<u8> {
    Seq::new(
        (record.len() - 1) as nat,
        |j: int| parsed(record[j + 1], BYTE_MAX as nat)->Some_0 as u8,
    )
}

/// Why record number `index` is rejected, if it is: for its label first, for
/// its pixels otherwise.
pub open spec fn record_error(record: Seq<Seq<u8>>, index: usize, label_max: nat) -> Option<
    LoadError,
> {
    if label_of(record, label_max) is None {
        Some(LoadError::InvalidLabel { record: index })
    } else if !pixels_valid(record) {
        Some(LoadError::InvalidPixel { record: index })
    } else {
        None
    }
}

/// Record `k` is rejected and no record before it is.
pub open spec fn is_first_rejected(records: Seq<Seq<Seq<u8>>>, label_max: nat, k: int) -> bool {
    &&& 0 <= k < records.len()
    &&& record_error(records[k], k as usize, label_max) is Some
    &&& forall|i: int|
        0 <= i < k ==> record_error(#[trigger] records[i], i as usize, label_max) is None
}

/// No record is rejected.
pub open spec fn all_accepted(records: Seq<Seq<Seq<u8>>>, label_max: nat) -> bool {
    forall|i: int|
        0 <= i < records.len() ==> record_error(#[trigger] records[i], i as usize, label_max)
            is None
}

/// The error of the first rejected record, if any record is rejected.
pub open spec fn rejection(records: Seq<Seq<Seq<u8>>>, label_max: nat) -> Option<LoadError> {
    if all_accepted(records, label_max) {
        None
    } else {
        let k = choose|k: int| is_first_rejected(records, label_max, k);
        record_error(records[k], k as usize, label_max)
    }
}

/// At most one record is the first rejected one, and where one is, its error
/// is the rejection of the whole.
pub proof fn lemma_first_rejected(records: Seq<Seq<Seq<u8>>>, label_max: nat, k: int)
    requires
        is_first_rejected(records, label_max, k),
    ensures
        forall|m: int| is_first_rejected(records, label_max, m) ==> m == k,
        rejection(records, label_max) == record_error(records[k], k as usize, label_max),
{
    assert forall|m: int| is_first_rejected(records, label_max, m) implies m == k by {
        if m < k {
            assert(record_error(records[m], m as usize, label_max) is None);
        } else if k < m {
            assert(record_error(records[k], k as usize, label_max) is None);
        }
    }
    assert(!all_accepted(records, label_max));
}

/// Before every rejected record stands a first rejected one.
pub proof fn lemma_least_rejected(records: Seq<Seq<Seq<u8>>>, label_max: nat, i: int)
    requires
        0 <= i < records.len(),
        record_error(records[i], i as usize, label_max) is Some,
    ensures
        exists|k: int| 0 <= k <= i && is_first_rejected(records, label_max, k),
    decreases i,
{
    if forall|j: int|
        0 <= j < i ==> record_error(#[trigger] records[j], j as usize, label_max) is None {
        assert(is_first_rejected(records, label_max, i));
    } else {
        let j = choose|j: int|
            0 <= j < i && record_error(#[trigger] records[j], j as usize, label_max) is Some;
        lemma_least_rejected(records, label_max, j);
    }
}

/// Records are rejected as a whole exactly when one of them is.
pub proof fn lemma_rejection_exact(records: Seq<Seq<Seq<u8>>>, label_max: nat)
    ensures
        rejection(records, label_max) is None <==> all_accepted(records, label_max),
{
    if !all_accepted(records, label_max) {
        let i = choose|i: int|
            0 <= i < records.len() && record_error(#[trigger] records[i], i as usize, label_max)
                is Some;
        lemma_least_rejected(records, label_max, i);
    }
}

/// Reads one record: its label, at most `label_max`, and its pixels.
pub fn parse_record(record: &Vec<Vec<u8>>, index: usize, label_max: u64) -> (r: Result<
    (u64, Vec<u8>),
    LoadError,
>)
    ensures
        match record_error(record.deep_view(), index, label_max as nat) {
            Some(e) => r == Err::<(u64, Vec<u8>), LoadError>(e),
            None => r is Ok && r->Ok_0.0 == label_of(record.deep_view(), label_max as nat)->Some_0
                && r->Ok_0.1@ == pixels_of(record.deep_view()),
        },
{
    let ghost fields = record.deep_view();
    let n: usize = record.len();
    if n == 0 {
        return Err(LoadError::InvalidLabel { record: index });
    }
    assert(fields[0] == record@[0]@);
    let label: u64 = match parse_unsigned(record[0].as_slice(), label_max) {
        Some(v) => v,
        None => {
            return Err(LoadError::InvalidLabel { record: index });
        },
    };
    let mut pixels: Vec<u8> = Vec::new();
    let mut j: usize = 1;
    while j < n
        invariant
            1 <= j <= n,
            n == record@.len(),
            fields == record.deep_view(),
            label_of(fields, label_max as nat) == Some(label as nat),
            pixels@.len() == j - 1,
            forall|k: int| 1 <= k < j ==> parsed(#[trigger] fields[k], BYTE_MAX as nat) is Some,
            forall|k: int|
                0 <= k < j - 1 ==> #[trigger] pixels@[k] == parsed(
                    fields[k + 1],
                    BYTE_MAX as nat,
                )->Some_0,
        decreases n - j,
    {
        assert(fields[j as int] == record@[j as int]@);
        match parse_unsigned(record[j].as_slice(), BYTE_MAX) {
            Some(v) => {
                pixels.push(v as u8);
            },
            None => {
                assert(parsed(fields[j as int], BYTE_MAX as nat) is None);
                return Err(LoadError::InvalidPixel { record: index });
            },
        }
        j += 1;
    }
    proof {
        assert(pixels@ =~= pixels_of(fields));
    }
    Ok((label, pixels))
}

/// The samples that accepted records denote, one for each record.
pub open spec fn samples_of(records: Seq<Seq<Seq<u8>>>) -> Seq<SampleView> {
    Seq::new(
        records.len(),
        |i: int|
            SampleView {
                label: label_of(records[i], BYTE_MAX as nat)->Some_0 as u8,
                pixels: pixels_of(records[i]),
            },
    )
}

/// What reading samples comes to, given the records that were read and
/// whether the text broke off after them: the error of the first rejected
/// record, else the break, else one sample for each record.
pub open spec fn samples_outcome(records: Seq<Seq<Seq<u8>>>, cut_short: bool) -> Result<
    Seq<SampleView>,
    LoadError,
> {
    match rejection(records, BYTE_MAX as nat) {
        Some(e) => Err(e),
        None => if cut_short {
            Err(LoadError::Malformed { record: records.len() as usize })
        } else {
            Ok(samples_of(records))
        },
    }
}

/// Turns records into samples, each with a label from 0 to 255. `cut_short`
/// says that the text the records come from broke off after them.
pub fn samples_from_records(records: &Vec<Vec<Vec<u8>>>, cut_short: bool) -> (r: Result<
    Vec<Sample>,
    LoadError,
>)
    ensures
        match samples_outcome(records.deep_view(), cut_short) {
            Ok(samples) => r is Ok && r->Ok_0.deep_view() == samples,
            Err(e) => r == Err::<Vec<Sample>, LoadError>(e),
        },
{
    let ghost rows = records.deep_view();
    let n: usize = records.len();
    let mut samples: Vec<Sample> = Vec::new();
    let mut i: usize = 0;
    while i < n
        invariant
            i <= n,
            n == records@.len(),
            rows == records.deep_view(),
            samples@.len() == i,
            forall|k: int|
                0 <= k < i ==> record_error(#[trigger] rows[k], k as usize, BYTE_MAX as nat)
                    is None,
            forall|k: int| 0 <= k < i ==> (#[trigger] samples@[k])@ == samples_of(rows)[k],
        decreases n - i,
    {
        assert(rows[i as int] == records@[i as int].deep_view());
        match parse_record(&records[i], i, BYTE_MAX) {
            Ok((label, pixels)) => {
                samples.push(Sample { label: label as u8, pixels });
            },
            Err(e) => {
                proof {
                    lemma_first_rejected(rows, BYTE_MAX as nat, i as int);
                }
                return Err(e);
            },
        }
        i += 1;
    }
    if cut_short {
        return Err(LoadError::Malformed { record: n });
    }
    proof {
        assert(all_accepted(rows, BYTE_MAX as nat));
        assert(samples.deep_view() =~= samples_of(rows));
    }
    Ok(samples)
}

/// The label of every record, for records that are accepted with labels up
/// to the largest index of the machine.
pub open spec fn labels_of(records: Seq<Seq<Seq<u8>>>) -> Seq<usize> {
    Seq::new(records.len(), |i: int| label_of(records[i], usize::MAX as nat)->Some_0 as usize)
}

/// The pixels of all records, laid end to end.
pub open spec fn all_pixels(records: Seq<Seq<Seq<u8>>>) -> Seq<u8>
    decreases records.len(),
{
    if records.len() == 0 {
        Seq::empty()
    } else {
        all_pixels(records.drop_last()) + pixels_of(records.last())
    }
}

/// Every record has exactly `PIXELS_PER_IMAGE` pixels after its label.
pub open spec fn rows_aligned(records: Seq<Seq<Seq<u8>>>) -> bool {
    forall|i: int|
        0 <= i < records.len() ==> pixels_of(#[trigger] records[i]).len() == PIXELS_PER_IMAGE
}

/// What reading a data set comes to, given the records that were read and
/// whether the text broke off after them: the error of the first rejected
/// record, else the break, else the shape error where some record does not
/// have exactly `PIXELS_PER_IMAGE` pixels, else the labels and the pixels.
pub open spec fn dataset_outcome(records: Seq<Seq<Seq<u8>>>, cut_short: bool) -> Result<
    DatasetView<u8>,
    LoadError,
> {
    match rejection(records, usize::MAX as nat) {
        Some(e) => Err(e),
        None => if cut_short {
            Err(LoadError::Malformed { record: records.len() as usize })
        } else if !rows_aligned(records) {
            Err(
                LoadError::Shape {
                    samples: records.len() as usize,
                    values: all_pixels(records).len() as usize,
                },
            )
        } else {
            Ok(
                DatasetView {
                    records: all_pixels(records),
                    nfeatures: PIXELS_PER_IMAGE as nat,
                    targets: labels_of(records),
                },
            )
        },
    }
}

/// Where every record has its `PIXELS_PER_IMAGE` pixels, the pixels laid end
/// to end fall into rows of that length, and row `i` holds the pixels of
/// record `i`.
pub proof fn lemma_aligned_pixels(records: Seq<Seq<Seq<u8>>>)
    requires
        rows_aligned(records),
    ensures
        all_pixels(records).len() == records.len() * PIXELS_PER_IMAGE,
        forall|i: int|
            0 <= i < records.len() ==> all_pixels(records).subrange(
                i * PIXELS_PER_IMAGE,
                (i + 1) * PIXELS_PER_IMAGE,
            ) == pixels_of(#[trigger] records[i]),
    decreases records.len(),
{
    if records.len() > 0 {
        let front = records.drop_last();
        let whole = all_pixels(records);
        assert forall|i: int| 0 <= i < front.len() implies pixels_of(#[trigger] front[i]).len()
            == PIXELS_PER_IMAGE by {
            assert(front[i] == records[i]);
        }
        lemma_aligned_pixels(front);
        assert(pixels_of(records.last()).len() == PIXELS_PER_IMAGE);
        assert forall|i: int| 0 <= i < records.len() implies whole.subrange(
            i * PIXELS_PER_IMAGE,
            (i + 1) * PIXELS_PER_IMAGE,
        ) == pixels_of(#[trigger] records[i]) by {
            if i < front.len() {
                assert(front[i] == records[i]);
                assert(whole.subrange(i * PIXELS_PER_IMAGE, (i + 1) * PIXELS_PER_IMAGE)
                    =~= all_pixels(front).subrange(
                    i * PIXELS_PER_IMAGE,
                    (i + 1) * PIXELS_PER_IMAGE,
                ));
            } else {
                assert(whole.subrange(i * PIXELS_PER_IMAGE, (i + 1) * PIXELS_PER_IMAGE)
                    =~= pixels_of(records.last()));
            }
        }
    }
}

/// A data set that was read is well formed, has a row for every record, and
/// its row `i` holds the label and the pixels of record `i`: no row borrows
/// from its neighbour.
pub proof fn lemma_dataset_rows(records: Seq<Seq<Seq<u8>>>, cut_short: bool)
    requires
        dataset_outcome(records, cut_short) is Ok,
    ensures
        dataset_outcome(records, cut_short)->Ok_0.well_formed(),
        dataset_outcome(records, cut_short)->Ok_0.targets.len() == records.len(),
        forall|i: int|
            0 <= i < records.len() ==> dataset_outcome(records, cut_short)->Ok_0.row(i)
                == pixels_of(#[trigger] records[i]),
        forall|i: int|
            0 <= i < records.len() ==> dataset_outcome(records, cut_short)->Ok_0.targets[i]
                == label_of(#[trigger] records[i], usize::MAX as nat)->Some_0,
{
    lemma_rejection_exact(records, usize::MAX as nat);
    lemma_aligned_pixels(records);
    assert forall|i: int| 0 <= i < records.len() implies labels_of(records)[i] == label_of(
        #[trigger] records[i],
        usize::MAX as nat,
    )->Some_0 by {
        assert(record_error(records[i], i as usize, usize::MAX as nat) is None);
    }
}

/// Turns records into a data set of `PIXELS_PER_IMAGE` pixels a row.
/// `cut_short` says that the text the records come from broke off after them.
pub fn dataset_from_records(records: &Vec<Vec<Vec<u8>>>, cut_short: bool) -> (r: Result<
    Dataset<u8>,
    LoadError,
>)
    ensures
        match dataset_outcome(records.deep_view(), cut_short) {
            Ok(data) => r is Ok && r->Ok_0@ == data,
            Err(e) => r == Err::<Dataset<u8>, LoadError>(e),
        },
{
    let ghost rows = records.deep_view();
    let n: usize = records.len();
    let label_max: u64 = usize::MAX as u64;
    let mut labels: Vec<usize> = Vec::new();
    let mut values: Vec<u8> = Vec::new();
    let mut aligned: bool = true;
    let mut i: usize = 0;
    while i < n
        invariant
            i <= n,
            n == records@.len(),
            rows == records.deep_view(),
            label_max == usize::MAX,
            forall|k: int|
                0 <= k < i ==> record_error(#[trigger] rows[k], k as usize, usize::MAX as nat)
                    is None,
            labels@ == labels_of(rows).take(i as int),
            values@ == all_pixels(rows.take(i as int)),
            aligned <==> forall|k: int|
                0 <= k < i ==> pixels_of(#[trigger] rows[k]).len() == PIXELS_PER_IMAGE,
        decreases n - i,
    {
        assert(rows[i as int] == records@[i as int].deep_view());
        match parse_record(&records[i], i, label_max) {
            Ok((label, mut pixels)) => {
                proof {
                    assert(rows.take(i + 1).drop_last() == rows.take(i as int));
                    assert(labels_of(rows).take(i + 1) == labels_of(rows).take(i as int).push(
                        label as usize,
                    ));
                }
                if pixels.len() != PIXELS_PER_IMAGE {
                    aligned = false;
                }
                labels.push(label as usize);
                values.append(&mut pixels);
            },
            Err(e) => {
                proof {
                    lemma_first_rejected(rows, usize::MAX as nat, i as int);
                }
                return Err(e);
            },
        }
        i += 1;
    }
    if cut_short {
        return Err(LoadError::Malformed { record: n });
    }
    proof {
        assert(all_accepted(rows, usize::MAX as nat));
        assert(rows.take(n as int) == rows);
        assert(labels_of(rows).take(n as int) == labels_of(rows));
    }
    let nvalues: usize = values.len();
    if !aligned {
        return Err(LoadError::Shape { samples: n, values: nvalues });
    }
    proof {
        lemma_aligned_pixels(rows);
    }
    // Aligned rows add up, so the data set is always there.
    match Dataset::new(values, PIXELS_PER_IMAGE, labels) {
        Some(data) => Ok(data),
        None => Err(LoadError::Shape { samples: n, values: nvalues }),
    }
}

/// The error with which the reader of comma-separated text gives up.
#[verifier::external_type_specification]
#[verifier::external_body]
pub struct ExCsvError(csv::Error);

/// The records that `csv` reads from `data` when it takes the first line for
/// data too, each field as its bytes, up to the end or to the first error;
/// and whether it was an error that ended them.
pub uninterp spec fn csv_reading(data: Seq<u8>) -> (Seq<Seq<Seq<u8>>>, bool);

/// Runs a `csv::Reader`, built without a header row and otherwise as
/// `csv::ReaderBuilder::new` sets it up, over `data` and collects what its
/// `records` iterator yields: every record before the first error with its
/// fields as bytes, and that error where there is one. The contract gives this
/// result its name, `csv_reading`; nothing else is claimed of it.
#[verifier::external_body]
fn read_records(data: &[u8]) -> (r: (Vec<Vec<Vec<u8>>>, Option<csv::Error>))
    ensures
        r.0.deep_view() == csv_reading(data@).0,
        r.1 is Some == csv_reading(data@).1,
{
    let mut reader = csv::ReaderBuilder::new().has_headers(false).from_reader(data);
    let mut records: Vec<Vec<Vec<u8>>> = Vec::new();
    for result in reader.records() {
        match result {
            Ok(record) => records.push(record.iter().map(|f| f.as_bytes().to_vec()).collect()),
            Err(e) => return (records, Some(e)),
        }
    }
    (records, None)
}

/// Reads labelled images from comma-separated text: one sample for each
/// record, with the label from its first field and a pixel from every other.
pub fn load_mnist_csv(data: &[u8]) -> (r: Result<Vec<Sample>, LoadError>)
    ensures
        match samples_outcome(csv_reading(data@).0, csv_reading(data@).1) {
            Ok(samples) => r is Ok && r->Ok_0.deep_view() == samples,
            Err(e) => r == Err::<Vec<Sample>, LoadError>(e),
        },
{
    let (records, failure) = read_records(data);
    samples_from_records(&records, failure.is_some())
}

/// Reads labelled images from comma-separated text into one data set of
/// `PIXELS_PER_IMAGE` pixels a row.
pub fn load_mnist_dataset(data: &[u8]) -> (r: Result<Dataset<u8>, LoadError>)
    ensures
        match dataset_outcome(csv_reading(data@).0, csv_reading(data@).1) {
            Ok(dataset) => r is Ok && r->Ok_0@ == dataset,
            Err(e) => r == Err::<Dataset<u8>, LoadError>(e),
        },
{
    let (records, failure) = read_records(data);
    dataset_from_records(&records, failure.is_some())
}

} // verus!
