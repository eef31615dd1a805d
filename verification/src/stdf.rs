//! Records of STDF (Standard Test Data Format) files, as this library reads
//! them: their kinds, a summary of how many of each a file holds, the header
//! records, and the parametric test results and text records of each part.
//!
//! Reading the file is the caller's part; it hands over each record as a
//! value of the types here.
use crate::chars::{chars_of, Text};
use crate::unit::{trim, trim_range};
use vstd::prelude::*;

verus! {

/// The kind of an STDF record.
#[derive(Debug, Clone, Copy, PartialEq, Eq, Structural)]
pub enum RecordKind {
    /// File Attributes Record.
    Far,
    /// Audit Trail Record.
    Atr,
    /// Version Update Record.
    Vur,
    /// Master Information Record.
    Mir,
    /// Master Results Record.
    Mrr,
    /// Part Count Record.
    Pcr,
    /// Hardware Bin Record.
    Hbr,
    /// Software Bin Record.
    Sbr,
    /// Pin Map Record.
    Pmr,
    /// Pin Group Record.
    Pgr,
    /// Pin List Record.
    Plr,
    /// Retest Data Record.
    Rdr,
    /// Site Description Record.
    Sdr,
    /// Pattern Sequence Record.
    Psr,
    /// Name Map Record.
    Nmr,
    /// Cell Name Record.
    Cnr,
    /// Scan Structure Record.
    Ssr,
    /// Chain Description Record.
    Cdr,
    /// Wafer Information Record.
    Wir,
    /// Wafer Results Record.
    Wrr,
    /// Wafer Configuration Record.
    Wcr,
    /// Part Information Record.
    Pir,
    /// Part Results Record.
    Prr,
    /// Test Synopsis Record.
    Tsr,
    /// Parametric Test Record.
    Ptr,
    /// Multiple-Result Parametric Record.
    Mpr,
    /// Functional Test Record.
    Ftr,
    /// Scan Test Record.
    Str,
    /// Begin Program Section Record.
    Bps,
    /// End Program Section Record.
    Eps,
    /// Generic Data Record.
    Gdr,
    /// Datalog Text Record.
    Dtr,
    /// A record of a reserved type.
    Reserved,
    /// A record of an unknown type.
    Invalid,
}

/// The name of a record kind: its STDF record code.
#[verifier::opaque]
pub open spec fn kind_name(k: RecordKind) -> Seq<char> {
    match k {
        RecordKind::Far => "FAR"@,
        RecordKind::Atr => "ATR"@,
        RecordKind::Vur => "VUR"@,
        RecordKind::Mir => "MIR"@,
        RecordKind::Mrr => "MRR"@,
        RecordKind::Pcr => "PCR"@,
        RecordKind::Hbr => "HBR"@,
        RecordKind::Sbr => "SBR"@,
        RecordKind::Pmr => "PMR"@,
        RecordKind::Pgr => "PGR"@,
        RecordKind::Plr => "PLR"@,
        RecordKind::Rdr => "RDR"@,
        RecordKind::Sdr => "SDR"@,
        RecordKind::Psr => "PSR"@,
        RecordKind::Nmr => "NMR"@,
        RecordKind::Cnr => "CNR"@,
        RecordKind::Ssr => "SSR"@,
        RecordKind::Cdr => "CDR"@,
        RecordKind::Wir => "WIR"@,
        RecordKind::Wrr => "WRR"@,
        RecordKind::Wcr => "WCR"@,
        RecordKind::Pir => "PIR"@,
        RecordKind::Prr => "PRR"@,
        RecordKind::Tsr => "TSR"@,
        RecordKind::Ptr => "PTR"@,
        RecordKind::Mpr => "MPR"@,
        RecordKind::Ftr => "FTR"@,
        RecordKind::Str => "STR"@,
        RecordKind::Bps => "BPS"@,
        RecordKind::Eps => "EPS"@,
        RecordKind::Gdr => "GDR"@,
        RecordKind::Dtr => "DTR"@,
        RecordKind::Reserved => "ReservedRec"@,
        RecordKind::Invalid => "InvalidRec"@,
    }
}

impl RecordKind {
    /// The name of this kind, such as `PTR`.
    pub fn name(&self) -> (r: &'static str)
        ensures
            r@ == kind_name(*self),
    {
        proof {
            reveal(kind_name);
        }
        match self {
            RecordKind::Far => "FAR",
            RecordKind::Atr => "ATR",
            RecordKind::Vur => "VUR",
            RecordKind::Mir => "MIR",
            RecordKind::Mrr => "MRR",
            RecordKind::Pcr => "PCR",
            RecordKind::Hbr => "HBR",
            RecordKind::Sbr => "SBR",
            RecordKind::Pmr => "PMR",
            RecordKind::Pgr => "PGR",
            RecordKind::Plr => "PLR",
            RecordKind::Rdr => "RDR",
            RecordKind::Sdr => "SDR",
            RecordKind::Psr => "PSR",
            RecordKind::Nmr => "NMR",
            RecordKind::Cnr => "CNR",
            RecordKind::Ssr => "SSR",
            RecordKind::Cdr => "CDR",
            RecordKind::Wir => "WIR",
            RecordKind::Wrr => "WRR",
            RecordKind::Wcr => "WCR",
            RecordKind::Pir => "PIR",
            RecordKind::Prr => "PRR",
            RecordKind::Tsr => "TSR",
            RecordKind::Ptr => "PTR",
            RecordKind::Mpr => "MPR",
            RecordKind::Ftr => "FTR",
            RecordKind::Str => "STR",
            RecordKind::Bps => "BPS",
            RecordKind::Eps => "EPS",
            RecordKind::Gdr => "GDR",
            RecordKind::Dtr => "DTR",
            RecordKind::Reserved => "ReservedRec",
            RecordKind::Invalid => "InvalidRec",
        }
    }

    /// The name of this kind, as a `String`.
    pub fn to_string(&self) -> (r: String)
        ensures
            r@ == kind_name(*self),
    {
        self.name().to_owned()
    }
}

/// The name of each record kind is its STDF record code (`PMR` for the pin
/// map record, `PGR` for the pin group record, and so on); the records of
/// reserved and unknown types are named `ReservedRec` and `InvalidRec`.
pub proof fn lemma_kind_name_codes()
    ensures
        kind_name(RecordKind::Far) == "FAR"@,
        kind_name(RecordKind::Atr) == "ATR"@,
        kind_name(RecordKind::Vur) == "VUR"@,
        kind_name(RecordKind::Mir) == "MIR"@,
        kind_name(RecordKind::Mrr) == "MRR"@,
        kind_name(RecordKind::Pcr) == "PCR"@,
        kind_name(RecordKind::Hbr) == "HBR"@,
        kind_name(RecordKind::Sbr) == "SBR"@,
        kind_name(RecordKind::Pmr) == "PMR"@,
        kind_name(RecordKind::Pgr) == "PGR"@,
        kind_name(RecordKind::Plr) == "PLR"@,
        kind_name(RecordKind::Rdr) == "RDR"@,
        kind_name(RecordKind::Sdr) == "SDR"@,
        kind_name(RecordKind::Psr) == "PSR"@,
        kind_name(RecordKind::Nmr) == "NMR"@,
        kind_name(RecordKind::Cnr) == "CNR"@,
        kind_name(RecordKind::Ssr) == "SSR"@,
        kind_name(RecordKind::Cdr) == "CDR"@,
        kind_name(RecordKind::Wir) == "WIR"@,
        kind_name(RecordKind::Wrr) == "WRR"@,
        kind_name(RecordKind::Wcr) == "WCR"@,
        kind_name(RecordKind::Pir) == "PIR"@,
        kind_name(RecordKind::Prr) == "PRR"@,
        kind_name(RecordKind::Tsr) == "TSR"@,
        kind_name(RecordKind::Ptr) == "PTR"@,
        kind_name(RecordKind::Mpr) == "MPR"@,
        kind_name(RecordKind::Ftr) == "FTR"@,
        kind_name(RecordKind::Str) == "STR"@,
        kind_name(RecordKind::Bps) == "BPS"@,
        kind_name(RecordKind::Eps) == "EPS"@,
        kind_name(RecordKind::Gdr) == "GDR"@,
        kind_name(RecordKind::Dtr) == "DTR"@,
        kind_name(RecordKind::Reserved) == "ReservedRec"@,
        kind_name(RecordKind::Invalid) == "InvalidRec"@,
{
    reveal(kind_name);
}

/// Different kinds of records have different names, so a name tells its
/// kind.
pub proof fn lemma_kind_names_distinct(a: RecordKind, b: RecordKind)
    requires
        a != b,
    ensures
        kind_name(a) != kind_name(b),
{
    reveal(kind_name);
    reveal_strlit("FAR");
    reveal_strlit("ATR");
    reveal_strlit("VUR");
    reveal_strlit("MIR");
    reveal_strlit("MRR");
    reveal_strlit("PCR");
    reveal_strlit("HBR");
    reveal_strlit("SBR");
    reveal_strlit("PMR");
    reveal_strlit("PGR");
    reveal_strlit("PLR");
    reveal_strlit("RDR");
    reveal_strlit("SDR");
    reveal_strlit("PSR");
    reveal_strlit("NMR");
    reveal_strlit("CNR");
    reveal_strlit("SSR");
    reveal_strlit("CDR");
    reveal_strlit("WIR");
    reveal_strlit("WRR");
    reveal_strlit("WCR");
    reveal_strlit("PIR");
    reveal_strlit("PRR");
    reveal_strlit("TSR");
    reveal_strlit("PTR");
    reveal_strlit("MPR");
    reveal_strlit("FTR");
    reveal_strlit("STR");
    reveal_strlit("BPS");
    reveal_strlit("EPS");
    reveal_strlit("GDR");
    reveal_strlit("DTR");
    reveal_strlit("ReservedRec");
    reveal_strlit("InvalidRec");
    if kind_name(a) == kind_name(b) {
        assert(kind_name(a).len() == kind_name(b).len());
        assert(kind_name(a)[0] == kind_name(b)[0]);
        assert(kind_name(a)[1] == kind_name(b)[1]);
        assert(kind_name(a)[2] == kind_name(b)[2]);
    }
}

/// How many times `k` occurs in `kinds`.
pub open spec fn count_kind(kinds: Seq<RecordKind>, k: RecordKind) -> nat
    decreases kinds.len(),
{
    if kinds.len() == 0 {
        0
    } else {
        count_kind(kinds.drop_last(), k) + if kinds.last() == k {
            1nat
        } else {
            0nat
        }
    }
}

/// The names of record kinds.
pub open spec fn kind_names(kinds: Seq<RecordKind>) -> Seq<Seq<char>> {
    kinds.map_values(|k: RecordKind| kind_name(k))
}

/// How many times `v` occurs in `vs`.
pub open spec fn occurrences(vs: Seq<Seq<char>>, v: Seq<char>) -> nat
    decreases vs.len(),
{
    if vs.len() == 0 {
        0
    } else {
        occurrences(vs.drop_last(), v) + if vs.last() == v {
            1nat
        } else {
            0nat
        }
    }
}

/// `rows` count the values `vs`: one row per distinct value, each with the
/// number of times it occurs.
pub open spec fn counts_values(rows: Seq<(Seq<char>, int)>, vs: Seq<Seq<char>>) -> bool {
    &&& forall|i: int|
        0 <= i < rows.len() ==> (#[trigger] rows[i]).1 == occurrences(vs, rows[i].0) && rows[i].1 > 0
    &&& forall|i: int, j: int| 0 <= i < j < rows.len() ==> #[trigger] rows[i].0 != #[trigger] rows[j].0
    &&& forall|k: int|
        0 <= k < vs.len() ==> exists|i: int| 0 <= i < rows.len() && #[trigger] rows[i].0 == #[trigger] vs[k]
}

/// A polars data frame, opaque to proofs.
#[verifier::external_type_specification]
#[verifier::external_body]
pub struct ExDataFrame(polars::prelude::DataFrame);

/// An error of polars.
#[verifier::external_type_specification]
#[verifier::external_body]
pub struct ExPolarsError(polars::prelude::PolarsError);

/// A column of a polars data frame (the frame's indexing names it).
#[verifier::external_type_specification]
#[verifier::external_body]
pub struct ExColumn(polars::prelude::Column);

/// The rows of a frame of values and their counts (columns `value` and
/// `value_count`): each row's value and count, in the frame's row order.
pub uninterp spec fn count_frame_rows(df: polars::prelude::DataFrame) -> Seq<(Seq<char>, int)>;

/// The names of the columns of a frame of values and their counts, in order.
pub uninterp spec fn count_frame_columns(df: polars::prelude::DataFrame) -> Seq<Seq<char>>;

/// The names of the data types of the columns of a frame of values and
/// their counts, in order, as polars writes them (`DataType`'s `Display`).
pub uninterp spec fn count_frame_dtypes(df: polars::prelude::DataFrame) -> Seq<Seq<char>>;

/// Counts the values with polars: a frame with the single column `value`
/// holding `values`, grouped by value (`DataFrame::group_by`), each group
/// counted (`GroupBy::count`, which adds the column `value_count`).  The
/// contract claims that the result has one row per distinct value with the
/// size of its group, and that polars reports no error here: the one column
/// has the frame's height, the grouping key and the selected column exist,
/// grouping a string column returns its groups, and the counted frame's two
/// columns have distinct names and the same height.  The frame's columns
/// are the key `value`, of strings (`str`), and the count `value_count`, of
/// polars' row indices (`u32`).  The order of the rows
/// (polars groups by hashing) is left unsaid.
#[verifier::external_body]
fn group_count(values: Vec<String>) -> (r: Result<polars::prelude::DataFrame, polars::prelude::PolarsError>)
    requires
        values.len() <= u32::MAX,
    ensures
        r is Ok,
        r matches Ok(df) ==> counts_values(count_frame_rows(df), string_views(values@)),
        r matches Ok(df) ==> count_frame_columns(df) == seq!["value"@, "value_count"@],
        r matches Ok(df) ==> count_frame_dtypes(df) == seq!["str"@, "u32"@],
{
    let column = polars::prelude::Column::new("value".into(), values);
    let df = polars::prelude::DataFrame::new_infer_height(vec![column])?;
    df.group_by(["value"])?.select(["value"]).count()
}

/// The message of a polars error (its `Display`).  Nothing is claimed of
/// the text.
#[verifier::external_body]
fn polars_error_message(e: &polars::prelude::PolarsError) -> String {
    e.to_string()
}

/// Why a summary could not be made.
#[derive(Debug, PartialEq, Eq)]
pub enum SummaryError {
    /// The frame could not be built; the message of polars.
    Frame(String),
}

/// The names of `kinds`, in order.
fn names_of(kinds: &Vec<RecordKind>) -> (r: Vec<String>)
    ensures
        string_views(r@) == kind_names(kinds@),
{
    let mut out: Vec<String> = Vec::new();
    let mut i: usize = 0;
    while i < kinds.len()
        invariant
            i <= kinds.len(),
            string_views(out@) == kind_names(kinds@.take(i as int)),
        decreases kinds.len() - i,
    {
        let ghost before = out@;
        out.push(kinds[i].to_string());
        assert(string_views(out@) =~= string_views(before).push(kind_name(kinds@[i as int])));
        assert(kind_names(kinds@.take(i + 1)) =~= kind_names(kinds@.take(i as int)).push(
            kind_name(kinds@[i as int]),
        ));
        i += 1;
    }
    assert(kinds@.take(i as int) =~= kinds@);
    out
}

/// Counting names counts kinds: the name of a kind occurs among the names
/// of records as often as the kind occurs among their kinds.
pub proof fn lemma_occurrences_of_names(kinds: Seq<RecordKind>, k: RecordKind)
    ensures
        occurrences(kind_names(kinds), kind_name(k)) == count_kind(kinds, k),
    decreases kinds.len(),
{
    if kinds.len() > 0 {
        lemma_occurrences_of_names(kinds.drop_last(), k);
        assert(kind_names(kinds).drop_last() =~= kind_names(kinds.drop_last()));
        if kinds.last() != k {
            lemma_kind_names_distinct(kinds.last(), k);
        }
    }
}

/// A summary of the records of each kind (columns `value`, the name of a
/// kind, and `value_count`, how many records of that kind there are), made
/// with polars from the names of the records' kinds.
pub fn stdf_sumally(kinds: &Vec<RecordKind>) -> (r: Result<polars::prelude::DataFrame, SummaryError>)
    requires
        kinds.len() <= u32::MAX,
    ensures
        r is Ok,
        r matches Ok(df) ==> counts_values(count_frame_rows(df), kind_names(kinds@)),
        r matches Ok(df) ==> count_frame_columns(df) == seq!["value"@, "value_count"@],
        r matches Ok(df) ==> count_frame_dtypes(df) == seq!["str"@, "u32"@],
{
    let names = names_of(kinds);
    assert(names@.len() == string_views(names@).len());
    match group_count(names) {
        Ok(df) => Ok(df),
        Err(e) => Err(SummaryError::Frame(polars_error_message(&e))),
    }
}

/// The sum of the counts of `rows`.
pub open spec fn sum_counts(rows: Seq<(Seq<char>, int)>) -> int
    decreases rows.len(),
{
    if rows.len() == 0 {
        0
    } else {
        sum_counts(rows.drop_last()) + rows.last().1
    }
}

/// The sum over `rows` of how often each row's value occurs in `vs`.
spec fn sum_occurrences(rows: Seq<(Seq<char>, int)>, vs: Seq<Seq<char>>) -> int
    decreases rows.len(),
{
    if rows.len() == 0 {
        0
    } else {
        sum_occurrences(rows.drop_last(), vs) + occurrences(vs, rows.last().0)
    }
}

/// How many rows have the value `x`.
spec fn rows_with(rows: Seq<(Seq<char>, int)>, x: Seq<char>) -> int
    decreases rows.len(),
{
    if rows.len() == 0 {
        0
    } else {
        rows_with(rows.drop_last(), x) + if rows.last().0 == x {
            1int
        } else {
            0int
        }
    }
}

proof fn lemma_sum_occurrences_push(rows: Seq<(Seq<char>, int)>, vs: Seq<Seq<char>>, x: Seq<char>)
    ensures
        sum_occurrences(rows, vs.push(x)) == sum_occurrences(rows, vs) + rows_with(rows, x),
    decreases rows.len(),
{
    if rows.len() > 0 {
        lemma_sum_occurrences_push(rows.drop_last(), vs, x);
        assert(vs.push(x).drop_last() =~= vs);
    }
}

proof fn lemma_sum_occurrences_empty(rows: Seq<(Seq<char>, int)>, vs: Seq<Seq<char>>)
    requires
        vs.len() == 0,
    ensures
        sum_occurrences(rows, vs) == 0,
    decreases rows.len(),
{
    if rows.len() > 0 {
        lemma_sum_occurrences_empty(rows.drop_last(), vs);
    }
}

proof fn lemma_rows_with_one(rows: Seq<(Seq<char>, int)>, x: Seq<char>, i: int)
    requires
        0 <= i < rows.len(),
        rows[i].0 == x,
        forall|a: int, b: int| 0 <= a < b < rows.len() ==> #[trigger] rows[a].0 != #[trigger] rows[b].0,
    ensures
        rows_with(rows, x) == 1,
    decreases rows.len(),
{
    let pre = rows.drop_last();
    if i == rows.len() - 1 {
        lemma_rows_with_none(pre, x);
    } else {
        assert(rows.last().0 != rows[i].0);
        lemma_rows_with_one(pre, x, i);
    }
}

proof fn lemma_rows_with_none(rows: Seq<(Seq<char>, int)>, x: Seq<char>)
    requires
        forall|a: int| 0 <= a < rows.len() ==> #[trigger] rows[a].0 != x,
    ensures
        rows_with(rows, x) == 0,
    decreases rows.len(),
{
    if rows.len() > 0 {
        assert(rows[rows.len() - 1].0 != x);
        lemma_rows_with_none(rows.drop_last(), x);
    }
}

/// Distinct rows that cover every value of `vs` add up, over how often their
/// values occur, to the number of values.
proof fn lemma_sum_occurrences_total(rows: Seq<(Seq<char>, int)>, vs: Seq<Seq<char>>)
    requires
        forall|a: int, b: int| 0 <= a < b < rows.len() ==> #[trigger] rows[a].0 != #[trigger] rows[b].0,
        forall|k: int| 0 <= k < vs.len() ==> exists|i: int| 0 <= i < rows.len() && #[trigger] rows[i].0 == #[trigger] vs[k],
    ensures
        sum_occurrences(rows, vs) == vs.len(),
    decreases vs.len(),
{
    if vs.len() == 0 {
        lemma_sum_occurrences_empty(rows, vs);
    } else {
        let pre = vs.drop_last();
        let x = vs.last();
        assert forall|k: int| 0 <= k < pre.len() implies exists|i: int|
            0 <= i < rows.len() && #[trigger] rows[i].0 == #[trigger] pre[k] by {
            assert(pre[k] == vs[k]);
        }
        lemma_sum_occurrences_total(rows, pre);
        assert(pre.push(x) =~= vs);
        lemma_sum_occurrences_push(rows, pre, x);
        assert(vs[vs.len() - 1] == x);
        let i = choose|i: int| 0 <= i < rows.len() && #[trigger] rows[i].0 == vs[vs.len() - 1];
        lemma_rows_with_one(rows, x, i);
    }
}

proof fn lemma_sum_counts_occurrences(rows: Seq<(Seq<char>, int)>, vs: Seq<Seq<char>>)
    requires
        forall|i: int| 0 <= i < rows.len() ==> (#[trigger] rows[i]).1 == occurrences(vs, rows[i].0),
    ensures
        sum_counts(rows) == sum_occurrences(rows, vs),
    decreases rows.len(),
{
    if rows.len() > 0 {
        let pre = rows.drop_last();
        assert forall|i: int| 0 <= i < pre.len() implies (#[trigger] pre[i]).1 == occurrences(
            vs,
            pre[i].0,
        ) by {
            assert(pre[i] == rows[i]);
        }
        lemma_sum_counts_occurrences(pre, vs);
        assert(rows[rows.len() - 1] == rows.last());
    }
}

/// A count of values accounts for every value once: its counts add up to
/// the number of values (for a summary, the number of records).
pub proof fn lemma_summary_total(rows: Seq<(Seq<char>, int)>, vs: Seq<Seq<char>>)
    requires
        counts_values(rows, vs),
    ensures
        sum_counts(rows) == vs.len(),
{
    lemma_sum_counts_occurrences(rows, vs);
    lemma_sum_occurrences_total(rows, vs);
}

/// A record as the library reads it: what it needs of each kind.
pub enum StdfRec {
    /// A Master Information Record, with its fields written out by the
    /// record's `{:#?}` formatting.
    Mir(String),
    /// A Site Description Record, written out the same way.
    Sdr(String),
    /// A Wafer Configuration Record, written out the same way.
    Wcr(String),
    /// A Wafer Information Record, written out the same way.
    Wir(String),
    /// A Part Information Record: a part begins.
    Pir,
    /// A Part Results Record: the number of tests run and the wafer position.
    Prr { num_test: u16, x_coord: i16, y_coord: i16 },
    /// A Parametric Test Record: its test text, units and result scaling
    /// exponent.  The result itself, a float, stays with the caller, who
    /// finds it again by the record's position.
    Ptr { test_txt: String, units: Option<String>, res_scal: Option<i8> },
    /// A Datalog Text Record.
    Dtr { text_dat: String },
    /// Any other record.
    Other,
}

/// Whether `needle` occurs in `hay` (`str::contains`).
pub open spec fn contains_text(hay: Seq<char>, needle: Seq<char>) -> bool {
    exists|i: int|
        0 <= i <= hay.len() - needle.len() && #[trigger] hay.subrange(i, i + needle.len())
            == needle
}

/// Whether `needle` occurs in `hay`.
pub fn str_contains(hay: &str, needle: &str) -> (r: bool)
    ensures
        r == contains_text(hay@, needle@),
{
    let h = chars_of(hay);
    let n = chars_of(needle);
    if n.len() > h.len() {
        return false;
    }
    let mut i: usize = 0;
    while i <= h.len() - n.len()
        invariant
            h@ == hay@,
            n@ == needle@,
            n.len() <= h.len(),
            i <= h.len() - n.len() + 1,
            forall|a: int| 0 <= a < i ==> #[trigger] h@.subrange(a, a + n.len()) != n@,
        decreases h.len() - n.len() + 1 - i,
    {
        let mut j: usize = 0;
        while j < n.len() && h[i + j] == n[j]
            invariant
                i + n.len() <= h.len(),
                j <= n.len(),
                forall|b: int| 0 <= b < j ==> h@[i + b] == n@[b],
            decreases n.len() - j,
        {
            j += 1;
        }
        if j == n.len() {
            assert(h@.subrange(i as int, i + n.len()) =~= n@);
            return true;
        }
        assert(h@.subrange(i as int, i + n.len())[j as int] != n@[j as int]);
        i += 1;
    }
    assert forall|a: int| 0 <= a <= hay@.len() - needle@.len() implies #[trigger] hay@.subrange(
        a,
        a + needle@.len(),
    ) != needle@ by {}
    false
}

/// How many part information records `recs` holds.
pub open spec fn pir_count(recs: Seq<StdfRec>) -> int
    decreases recs.len(),
{
    if recs.len() == 0 {
        0
    } else {
        pir_count(recs.drop_last()) + if recs.last() is Pir {
            1int
        } else {
            0int
        }
    }
}

/// The part count at record `i`: the number of parts begun before it, less
/// one (so the first part is part 0, and records before any part get -1).
pub open spec fn cnt_at(recs: Seq<StdfRec>, i: int) -> int {
    pir_count(recs.take(i)) - 1
}

/// A part result: the part count, the number of tests and the position.
pub struct PartSel {
    pub cnt: int,
    pub num_test: int,
    pub x: int,
    pub y: int,
}

/// The part results of `recs`, in order.
pub open spec fn parts(recs: Seq<StdfRec>) -> Seq<PartSel>
    decreases recs.len(),
{
    if recs.len() == 0 {
        seq![]
    } else {
        let prev = parts(recs.drop_last());
        match recs.last() {
            StdfRec::Prr { num_test, x_coord, y_coord } => prev.push(
                PartSel {
                    cnt: cnt_at(recs, recs.len() - 1),
                    num_test: num_test as int,
                    x: x_coord as int,
                    y: y_coord as int,
                },
            ),
            _ => prev,
        }
    }
}

/// A selected parametric test record: its part count, its position in the
/// records, its test text, units (empty if none) and scaling exponent (0 if
/// none).
pub struct PtrSel {
    pub cnt: int,
    pub rec: int,
    pub key: Seq<char>,
    pub unit: Seq<char>,
    pub res_scal: int,
}

/// The parametric test records of `recs` whose test text contains `key`.
pub open spec fn ptr_selected(recs: Seq<StdfRec>, key: Seq<char>) -> Seq<PtrSel>
    decreases recs.len(),
{
    if recs.len() == 0 {
        seq![]
    } else {
        let prev = ptr_selected(recs.drop_last(), key);
        match recs.last() {
            StdfRec::Ptr { test_txt, units, res_scal } => if contains_text(test_txt@, key) {
                prev.push(
                    PtrSel {
                        cnt: cnt_at(recs, recs.len() - 1),
                        rec: recs.len() - 1,
                        key: test_txt@,
                        unit: match units {
                            Some(u) => u@,
                            None => seq![],
                        },
                        res_scal: match res_scal {
                            Some(r) => r as int,
                            None => 0,
                        },
                    },
                )
            } else {
                prev
            },
            _ => prev,
        }
    }
}

/// A selected datalog text record: its part count and its text.
pub struct DtrSel {
    pub cnt: int,
    pub text: Seq<char>,
}

/// The datalog text records of `recs` whose text contains `key` (a selection
/// this library makes to match the one of parametric test records).
pub open spec fn dtr_selected(recs: Seq<StdfRec>, key: Seq<char>) -> Seq<DtrSel>
    decreases recs.len(),
{
    if recs.len() == 0 {
        seq![]
    } else {
        let prev = dtr_selected(recs.drop_last(), key);
        match recs.last() {
            StdfRec::Dtr { text_dat } => if contains_text(text_dat@, key) {
                prev.push(DtrSel { cnt: cnt_at(recs, recs.len() - 1), text: text_dat@ })
            } else {
                prev
            },
            _ => prev,
        }
    }
}

/// The part results of part `cnt`, in order.
pub open spec fn parts_of(ps: Seq<PartSel>, cnt: int) -> Seq<PartSel>
    decreases ps.len(),
{
    if ps.len() == 0 {
        seq![]
    } else if ps.last().cnt == cnt {
        parts_of(ps.drop_last(), cnt).push(ps.last())
    } else {
        parts_of(ps.drop_last(), cnt)
    }
}

/// A left join on the part count: each part result of the same part, or
/// none if there is none.
pub open spec fn joined(cnt: int, ps: Seq<PartSel>) -> Seq<Option<PartSel>> {
    let m = parts_of(ps, cnt);
    if m.len() == 0 {
        seq![None]
    } else {
        m.map_values(|p: PartSel| Some(p))
    }
}

/// A part result read from the records.
#[derive(Clone, Copy, Debug)]
pub struct PartRec {
    pub cnt: i32,
    pub num_test: i32,
    pub x: i32,
    pub y: i32,
}

impl View for PartRec {
    type V = PartSel;

    open spec fn view(&self) -> PartSel {
        PartSel {
            cnt: self.cnt as int,
            num_test: self.num_test as int,
            x: self.x as int,
            y: self.y as int,
        }
    }
}

/// The views of part results.
pub open spec fn part_views(v: Seq<PartRec>) -> Seq<PartSel> {
    v.map_values(|p: PartRec| p@)
}

proof fn lemma_pir_count_grows(recs: Seq<StdfRec>, i: int)
    requires
        0 <= i <= recs.len(),
    ensures
        0 <= pir_count(recs.take(i)) <= pir_count(recs),
    decreases recs.len() - i,
{
    if i == recs.len() {
        assert(recs.take(i) =~= recs);
        lemma_pir_count_nonneg(recs);
    } else {
        lemma_pir_count_grows(recs.drop_last(), i);
        assert(recs.drop_last().take(i) =~= recs.take(i));
    }
}

proof fn lemma_pir_count_nonneg(recs: Seq<StdfRec>)
    ensures
        pir_count(recs) >= 0,
    decreases recs.len(),
{
    if recs.len() > 0 {
        lemma_pir_count_nonneg(recs.drop_last());
    }
}

/// One step of the walk over the records: the part count after record `i`.
proof fn lemma_step(recs: Seq<StdfRec>, i: int)
    requires
        0 <= i < recs.len(),
    ensures
        recs.take(i + 1).drop_last() == recs.take(i),
        recs.take(i + 1).last() == recs[i],
        cnt_at(recs.take(i + 1), i) == cnt_at(recs, i),
        pir_count(recs.take(i + 1)) == pir_count(recs.take(i)) + if recs[i] is Pir {
            1int
        } else {
            0int
        },
{
    assert(recs.take(i + 1).drop_last() =~= recs.take(i));
    assert(recs.take(i + 1).take(i) =~= recs.take(i));
}

/// The part results of the records, with their part counts.
pub fn collect_parts(recs: &Vec<StdfRec>) -> (r: Vec<PartRec>)
    requires
        pir_count(recs@) <= 0x8000_0000,
    ensures
        part_views(r@) == parts(recs@),
{
    let mut cnt: i32 = -1;
    let mut out: Vec<PartRec> = Vec::new();
    let mut i: usize = 0;
    assert(recs@.take(0) =~= seq![]);
    assert(part_views(out@) =~= seq![]);
    while i < recs.len()
        invariant
            pir_count(recs@) <= 0x8000_0000,
            i <= recs.len(),
            cnt == pir_count(recs@.take(i as int)) - 1,
            part_views(out@) == parts(recs@.take(i as int)),
        decreases recs.len() - i,
    {
        proof {
            lemma_step(recs@, i as int);
            lemma_pir_count_grows(recs@, i + 1);
        }
        match &recs[i] {
            StdfRec::Pir => {
                cnt = cnt + 1;
            },
            StdfRec::Prr { num_test, x_coord, y_coord } => {
                let ghost before = out@;
                out.push(PartRec { cnt, num_test: *num_test as i32, x: *x_coord as i32, y: *y_coord as i32 });
                assert(part_views(out@) =~= part_views(before).push(out@[out.len() - 1]@));
            },
            _ => {},
        }
        i += 1;
    }
    assert(recs@.take(i as int) =~= recs@);
    out
}

/// A selected parametric test record, as read.
pub struct PtrPick {
    pub cnt: i32,
    pub record: usize,
    pub key: String,
    pub unit: String,
    pub res_scal: i8,
}

impl View for PtrPick {
    type V = PtrSel;

    open spec fn view(&self) -> PtrSel {
        PtrSel {
            cnt: self.cnt as int,
            rec: self.record as int,
            key: self.key@,
            unit: self.unit@,
            res_scal: self.res_scal as int,
        }
    }
}

/// The views of selected parametric test records.
pub open spec fn pick_views(v: Seq<PtrPick>) -> Seq<PtrSel> {
    v.map_values(|p: PtrPick| p@)
}

/// The parametric test records whose test text contains `key`, with their
/// part counts.
pub fn collect_ptr(recs: &Vec<StdfRec>, key: &str) -> (r: Vec<PtrPick>)
    requires
        pir_count(recs@) <= 0x8000_0000,
    ensures
        pick_views(r@) == ptr_selected(recs@, key@),
{
    let mut cnt: i32 = -1;
    let mut out: Vec<PtrPick> = Vec::new();
    let mut i: usize = 0;
    assert(recs@.take(0) =~= seq![]);
    assert(pick_views(out@) =~= seq![]);
    while i < recs.len()
        invariant
            pir_count(recs@) <= 0x8000_0000,
            i <= recs.len(),
            cnt == pir_count(recs@.take(i as int)) - 1,
            pick_views(out@) == ptr_selected(recs@.take(i as int), key@),
        decreases recs.len() - i,
    {
        proof {
            lemma_step(recs@, i as int);
            lemma_pir_count_grows(recs@, i + 1);
        }
        match &recs[i] {
            StdfRec::Pir => {
                cnt = cnt + 1;
            },
            StdfRec::Ptr { test_txt, units, res_scal } => {
                if str_contains(test_txt.as_str(), key) {
                    let unit = match units {
                        Some(u) => u.clone(),
                        None => String::new(),
                    };
                    let scal = match res_scal {
                        Some(s) => *s,
                        None => 0,
                    };
                    let ghost before = out@;
                    out.push(PtrPick { cnt, record: i, key: test_txt.clone(), unit, res_scal: scal });
                    assert(pick_views(out@) =~= pick_views(before).push(out@[out.len() - 1]@));
                }
            },
            _ => {},
        }
        i += 1;
    }
    assert(recs@.take(i as int) =~= recs@);
    out
}

/// A selected datalog text record, as read.
pub struct DtrPick {
    pub cnt: i32,
    pub text: String,
}

impl View for DtrPick {
    type V = DtrSel;

    open spec fn view(&self) -> DtrSel {
        DtrSel { cnt: self.cnt as int, text: self.text@ }
    }
}

/// The views of selected datalog text records.
pub open spec fn dtr_views(v: Seq<DtrPick>) -> Seq<DtrSel> {
    v.map_values(|p: DtrPick| p@)
}

/// The datalog text records whose text contains `key`, with their part
/// counts.
pub fn collect_dtr(recs: &Vec<StdfRec>, key: &str) -> (r: Vec<DtrPick>)
    requires
        pir_count(recs@) <= 0x8000_0000,
    ensures
        dtr_views(r@) == dtr_selected(recs@, key@),
{
    let mut cnt: i32 = -1;
    let mut out: Vec<DtrPick> = Vec::new();
    let mut i: usize = 0;
    assert(recs@.take(0) =~= seq![]);
    assert(dtr_views(out@) =~= seq![]);
    while i < recs.len()
        invariant
            pir_count(recs@) <= 0x8000_0000,
            i <= recs.len(),
            cnt == pir_count(recs@.take(i as int)) - 1,
            dtr_views(out@) == dtr_selected(recs@.take(i as int), key@),
        decreases recs.len() - i,
    {
        proof {
            lemma_step(recs@, i as int);
            lemma_pir_count_grows(recs@, i + 1);
        }
        match &recs[i] {
            StdfRec::Pir => {
                cnt = cnt + 1;
            },
            StdfRec::Dtr { text_dat } => {
                if str_contains(text_dat.as_str(), key) {
                    let ghost before = out@;
                    out.push(DtrPick { cnt, text: text_dat.clone() });
                    assert(dtr_views(out@) =~= dtr_views(before).push(out@[out.len() - 1]@));
                }
            },
            _ => {},
        }
        i += 1;
    }
    assert(recs@.take(i as int) =~= recs@);
    out
}

/// The part results of part `cnt`.
pub fn parts_for(ps: &Vec<PartRec>, cnt: i32) -> (r: Vec<PartRec>)
    ensures
        part_views(r@) == parts_of(part_views(ps@), cnt as int),
{
    let ghost pv = part_views(ps@);
    let mut out: Vec<PartRec> = Vec::new();
    let mut j: usize = 0;
    assert(pv.take(0) =~= seq![]);
    assert(part_views(out@) =~= seq![]);
    while j < ps.len()
        invariant
            pv == part_views(ps@),
            j <= ps.len(),
            part_views(out@) == parts_of(pv.take(j as int), cnt as int),
        decreases ps.len() - j,
    {
        assert(pv.take(j + 1).drop_last() =~= pv.take(j as int));
        assert(pv.take(j + 1).last() == ps@[j as int]@);
        if ps[j].cnt == cnt {
            let ghost before = out@;
            out.push(ps[j]);
            assert(part_views(out@) =~= part_views(before).push(ps@[j as int]@));
        }
        j += 1;
    }
    assert(pv.take(j as int) =~= pv);
    out
}

/// The views of the part results of a join.
pub open spec fn opt_view(o: Option<PartRec>) -> Option<PartSel> {
    match o {
        Some(p) => Some(p@),
        None => None,
    }
}

/// The left join of selected records with the part results on the part
/// count: for each selected record, in order, one row per part result of its
/// part, in order, or one row without a part result if there is none.
pub open spec fn join_parts<A>(sel: Seq<A>, cnt_of: spec_fn(A) -> int, ps: Seq<PartSel>) -> Seq<
    (A, Option<PartSel>),
>
    decreases sel.len(),
{
    if sel.len() == 0 {
        seq![]
    } else {
        join_parts(sel.drop_last(), cnt_of, ps) + joined(cnt_of(sel.last()), ps).map_values(
            |o: Option<PartSel>| (sel.last(), o),
        )
    }
}

/// The part count of a selected parametric test record.
pub open spec fn ptr_cnt(s: PtrSel) -> int {
    s.cnt
}

/// The part count of a selected datalog text record.
pub open spec fn dtr_cnt(s: DtrSel) -> int {
    s.cnt
}

/// The parametric test results of the records whose test text contains
/// `key`, each with the part result of its part.
pub open spec fn ptr_table(recs: Seq<StdfRec>, key: Seq<char>) -> Seq<(PtrSel, Option<PartSel>)> {
    join_parts(ptr_selected(recs, key), |s: PtrSel| ptr_cnt(s), parts(recs))
}

/// The datalog text records whose text contains `key`, each with the part
/// result of its part.
pub open spec fn dtr_table(recs: Seq<StdfRec>, key: Seq<char>) -> Seq<(DtrSel, Option<PartSel>)> {
    join_parts(dtr_selected(recs, key), |s: DtrSel| dtr_cnt(s), parts(recs))
}

/// A row of the parametric test table: the selected record and the part
/// result of its part, if any.
pub struct StdfPtrRow {
    pub pick: PtrPick,
    pub part: Option<PartRec>,
}

/// A row of the datalog text table.
pub struct StdfDtrRow {
    pub pick: DtrPick,
    pub part: Option<PartRec>,
}

/// The views of the rows of a parametric test table.
pub open spec fn ptr_rows_view(v: Seq<StdfPtrRow>) -> Seq<(PtrSel, Option<PartSel>)> {
    v.map_values(|r: StdfPtrRow| (r.pick@, opt_view(r.part)))
}

/// The views of the rows of a datalog text table.
pub open spec fn dtr_rows_view(v: Seq<StdfDtrRow>) -> Seq<(DtrSel, Option<PartSel>)> {
    v.map_values(|r: StdfDtrRow| (r.pick@, opt_view(r.part)))
}

fn copy_ptr_pick(p: &PtrPick) -> (r: PtrPick)
    ensures
        r@ == p@,
{
    PtrPick {
        cnt: p.cnt,
        record: p.record,
        key: p.key.clone(),
        unit: p.unit.clone(),
        res_scal: p.res_scal,
    }
}

fn copy_dtr_pick(p: &DtrPick) -> (r: DtrPick)
    ensures
        r@ == p@,
{
    DtrPick { cnt: p.cnt, text: p.text.clone() }
}

/// The parametric test results of the records whose test text contains
/// `key`, each joined with the part results of its part.
pub fn stdf_ptr(recs: &Vec<StdfRec>, key: &str) -> (r: Vec<StdfPtrRow>)
    requires
        pir_count(recs@) <= 0x8000_0000,
    ensures
        ptr_rows_view(r@) == ptr_table(recs@, key@),
{
    let sel = collect_ptr(recs, key);
    let ps = collect_parts(recs);
    let ghost sv = pick_views(sel@);
    let ghost pv = part_views(ps@);
    let ghost f = |s: PtrSel| ptr_cnt(s);
    let mut out: Vec<StdfPtrRow> = Vec::new();
    let mut k: usize = 0;
    assert(sv.take(0) =~= seq![]);
    assert(ptr_rows_view(out@) =~= seq![]);
    while k < sel.len()
        invariant
            sv == pick_views(sel@),
            pv == part_views(ps@),
            f == (|s: PtrSel| ptr_cnt(s)),
            k <= sel.len(),
            ptr_rows_view(out@) == join_parts(sv.take(k as int), f, pv),
        decreases sel.len() - k,
    {
        let s = &sel[k];
        let m = parts_for(&ps, s.cnt);
        let ghost before = ptr_rows_view(out@);
        let ghost one_rows = joined(s.cnt as int, pv).map_values(|o: Option<PartSel>| (s@, o));
        if m.len() == 0 {
            out.push(StdfPtrRow { pick: copy_ptr_pick(s), part: None });
            assert(ptr_rows_view(out@) =~= before + one_rows);
        } else {
            let mut j: usize = 0;
            while j < m.len()
                invariant
                    j <= m.len(),
                    m.len() > 0,
                    part_views(m@) == parts_of(pv, s.cnt as int),
                    one_rows == joined(s.cnt as int, pv).map_values(
                        |o: Option<PartSel>| (s@, o),
                    ),
                    ptr_rows_view(out@) == before + one_rows.take(j as int),
                decreases m.len() - j,
            {
                let ghost mid = ptr_rows_view(out@);
                out.push(StdfPtrRow { pick: copy_ptr_pick(s), part: Some(m[j]) });
                assert(one_rows[j as int] == (s@, Some(m@[j as int]@)));
                assert(ptr_rows_view(out@) =~= mid.push((s@, Some(m@[j as int]@))));
                assert(one_rows.take(j + 1) =~= one_rows.take(j as int).push(one_rows[j as int]));
                j += 1;
            }
            assert(one_rows.take(j as int) =~= one_rows);
        }
        assert(sv.take(k + 1).drop_last() =~= sv.take(k as int));
        assert(sv.take(k + 1).last() == s@);
        k += 1;
    }
    assert(sv.take(k as int) =~= sv);
    out
}

/// The datalog text records whose text contains `key`, each joined with the
/// part results of its part.
///
/// This table is a design of this library, made to match the parametric test
/// table: datalog text records are selected by a substring of their text,
/// counted into parts by the part information records before them, and
/// left-joined with the part results on that count; the text stands where
/// the parametric table has its result.
pub fn stdf_dtr(recs: &Vec<StdfRec>, key: &str) -> (r: Vec<StdfDtrRow>)
    requires
        pir_count(recs@) <= 0x8000_0000,
    ensures
        dtr_rows_view(r@) == dtr_table(recs@, key@),
{
    let sel = collect_dtr(recs, key);
    let ps = collect_parts(recs);
    let ghost sv = dtr_views(sel@);
    let ghost pv = part_views(ps@);
    let ghost f = |s: DtrSel| dtr_cnt(s);
    let mut out: Vec<StdfDtrRow> = Vec::new();
    let mut k: usize = 0;
    assert(sv.take(0) =~= seq![]);
    assert(dtr_rows_view(out@) =~= seq![]);
    while k < sel.len()
        invariant
            sv == dtr_views(sel@),
            pv == part_views(ps@),
            f == (|s: DtrSel| dtr_cnt(s)),
            k <= sel.len(),
            dtr_rows_view(out@) == join_parts(sv.take(k as int), f, pv),
        decreases sel.len() - k,
    {
        let s = &sel[k];
        let m = parts_for(&ps, s.cnt);
        let ghost before = dtr_rows_view(out@);
        let ghost one_rows = joined(s.cnt as int, pv).map_values(|o: Option<PartSel>| (s@, o));
        if m.len() == 0 {
            out.push(StdfDtrRow { pick: copy_dtr_pick(s), part: None });
            assert(dtr_rows_view(out@) =~= before + one_rows);
        } else {
            let mut j: usize = 0;
            while j < m.len()
                invariant
                    j <= m.len(),
                    m.len() > 0,
                    part_views(m@) == parts_of(pv, s.cnt as int),
                    one_rows == joined(s.cnt as int, pv).map_values(
                        |o: Option<PartSel>| (s@, o),
                    ),
                    dtr_rows_view(out@) == before + one_rows.take(j as int),
                decreases m.len() - j,
            {
                let ghost mid = dtr_rows_view(out@);
                out.push(StdfDtrRow { pick: copy_dtr_pick(s), part: Some(m[j]) });
                assert(one_rows[j as int] == (s@, Some(m@[j as int]@)));
                assert(dtr_rows_view(out@) =~= mid.push((s@, Some(m@[j as int]@))));
                assert(one_rows.take(j + 1) =~= one_rows.take(j as int).push(one_rows[j as int]));
                j += 1;
            }
            assert(one_rows.take(j as int) =~= one_rows);
        }
        assert(sv.take(k + 1).drop_last() =~= sv.take(k as int));
        assert(sv.take(k + 1).last() == s@);
        k += 1;
    }
    assert(sv.take(k as int) =~= sv);
    out
}

/// The position of the first newline in `s` at `i` or after, or the end of
/// `s`.
pub open spec fn next_newline(s: Seq<char>, i: int) -> int
    decreases s.len() - i,
{
    if i < 0 || i >= s.len() {
        s.len() as int
    } else if s[i] == '\n' {
        i
    } else {
        next_newline(s, i + 1)
    }
}

proof fn lemma_next_newline(s: Seq<char>, i: int)
    requires
        0 <= i <= s.len(),
    ensures
        i <= next_newline(s, i) <= s.len(),
        next_newline(s, i) < s.len() ==> s[next_newline(s, i)] == '\n',
        forall|j: int| i <= j < next_newline(s, i) ==> s[j] != '\n',
    decreases s.len() - i,
{
    if i < s.len() && s[i] != '\n' {
        lemma_next_newline(s, i + 1);
    }
}

/// A line without the carriage return of a `\r\n` line ending.
pub open spec fn strip_cr(l: Seq<char>) -> Seq<char> {
    if l.len() > 0 && l.last() == '\r' {
        l.drop_last()
    } else {
        l
    }
}

/// The lines of `s` from position `i` on, as `str::lines` gives them: split
/// at `\n` (and `\r\n`), with no empty line after a final line ending.
pub open spec fn lines_from(s: Seq<char>, i: int) -> Seq<Seq<char>>
    decreases s.len() - i,
    via lines_from_decreases
{
    if i < 0 || i >= s.len() {
        seq![]
    } else {
        let e = next_newline(s, i);
        if e < s.len() {
            seq![strip_cr(s.subrange(i, e))] + lines_from(s, e + 1)
        } else {
            seq![s.subrange(i, s.len() as int)]
        }
    }
}

#[via_fn]
proof fn lines_from_decreases(s: Seq<char>, i: int) {
    if 0 <= i < s.len() {
        lemma_next_newline(s, i);
    }
}

/// The lines of `s`.
pub open spec fn lines(s: Seq<char>) -> Seq<Seq<char>> {
    lines_from(s, 0)
}

/// `l` without trailing commas.
pub open spec fn strip_commas(l: Seq<char>) -> Seq<char>
    decreases l.len(),
{
    if l.len() > 0 && l.last() == ',' {
        strip_commas(l.drop_last())
    } else {
        l
    }
}

/// The lines between the first and the last.
pub open spec fn inner_lines(ls: Seq<Seq<char>>) -> Seq<Seq<char>> {
    if ls.len() >= 2 {
        ls.subrange(1, ls.len() - 1)
    } else {
        seq![]
    }
}

/// Lines joined with newlines.
pub open spec fn join_lines(ls: Seq<Seq<char>>) -> Seq<char>
    decreases ls.len(),
{
    if ls.len() == 0 {
        seq![]
    } else if ls.len() == 1 {
        ls[0]
    } else {
        join_lines(ls.drop_last()) + seq!['\n'] + ls.last()
    }
}

/// A record written out by `{:#?}` (`MIR {`, one `field: value,` line per
/// field, `}`) turned into YAML: the inner lines, each trimmed and without
/// its trailing commas.
pub open spec fn yaml_text(dump: Seq<char>) -> Seq<char> {
    join_lines(inner_lines(lines(dump)).map_values(|l: Seq<char>| strip_commas(trim(l))))
}

/// The spans of the lines of `cs`.
fn line_spans(cs: &Vec<char>) -> (r: Vec<(usize, usize)>)
    ensures
        r.len() == lines(cs@).len(),
        forall|k: int| 0 <= k < r.len() ==> #[trigger] r@[k].0 <= r@[k].1 <= cs.len(),
        forall|k: int|
            0 <= k < r.len() ==> cs@.subrange(#[trigger] r@[k].0 as int, r@[k].1 as int)
                == lines(cs@)[k],
{
    let mut r: Vec<(usize, usize)> = Vec::new();
    let mut i: usize = 0;
    while i < cs.len()
        invariant
            i <= cs.len(),
            lines(cs@) == r@.map_values(|p: (usize, usize)| cs@.subrange(p.0 as int, p.1 as int))
                + lines_from(cs@, i as int),
            forall|k: int| 0 <= k < r.len() ==> #[trigger] r@[k].0 <= r@[k].1 <= cs.len(),
        decreases cs.len() - i,
    {
        let mut e = i;
        while e < cs.len() && cs[e] != '\n'
            invariant
                i <= e <= cs.len(),
                next_newline(cs@, i as int) == next_newline(cs@, e as int),
            decreases cs.len() - e,
        {
            e += 1;
        }
        proof {
            lemma_next_newline(cs@, i as int);
        }
        let ghost before = r@;
        let ghost m = |p: (usize, usize)| cs@.subrange(p.0 as int, p.1 as int);
        if e < cs.len() {
            let end = if e > i && cs[e - 1] == '\r' {
                e - 1
            } else {
                e
            };
            assert(cs@.subrange(i as int, end as int) == strip_cr(cs@.subrange(i as int, e as int)))
                by {
                if e > i && cs@[e - 1] == '\r' {
                    assert(cs@.subrange(i as int, e as int).drop_last() =~= cs@.subrange(
                        i as int,
                        end as int,
                    ));
                }
            }
            r.push((i, end));
            assert forall|k: int| 0 <= k < r.len() implies #[trigger] r@[k].0 <= r@[k].1 <= cs.len() by {
                if k < before.len() {
                    assert(r@[k] == before[k]);
                }
            }
            assert(r@.map_values(m) =~= before.map_values(m).push(
                cs@.subrange(i as int, end as int),
            ));
            assert(lines(cs@) =~= r@.map_values(m) + lines_from(cs@, e + 1));
            i = e + 1;
        } else {
            r.push((i, cs.len()));
            assert forall|k: int| 0 <= k < r.len() implies #[trigger] r@[k].0 <= r@[k].1 <= cs.len() by {
                if k < before.len() {
                    assert(r@[k] == before[k]);
                }
            }
            assert(r@.map_values(m) =~= before.map_values(m).push(
                cs@.subrange(i as int, cs.len() as int),
            ));
            assert(lines_from(cs@, cs.len() as int) =~= seq![]);
            assert(lines(cs@) =~= r@.map_values(m) + lines_from(cs@, cs.len() as int));
            i = cs.len();
        }
    }
    assert(lines_from(cs@, i as int) =~= seq![]);
    assert(lines(cs@) =~= r@.map_values(|p: (usize, usize)| cs@.subrange(p.0 as int, p.1 as int)));
    assert forall|k: int| 0 <= k < r.len() implies cs@.subrange(
        #[trigger] r@[k].0 as int,
        r@[k].1 as int,
    ) == lines(cs@)[k] by {
        assert(r@.map_values(|p: (usize, usize)| cs@.subrange(p.0 as int, p.1 as int))[k]
            == cs@.subrange(r@[k].0 as int, r@[k].1 as int));
    }
    r
}

/// Where `s[a..b]` ends once trailing commas are removed.
fn strip_commas_end(s: &Vec<char>, a: usize, b: usize) -> (e: usize)
    requires
        a <= b <= s.len(),
    ensures
        a <= e <= b,
        s@.subrange(a as int, e as int) == strip_commas(s@.subrange(a as int, b as int)),
{
    let mut e = b;
    while e > a && s[e - 1] == ','
        invariant
            a <= e <= b <= s.len(),
            strip_commas(s@.subrange(a as int, b as int)) == strip_commas(
                s@.subrange(a as int, e as int),
            ),
        decreases e - a,
    {
        assert(s@.subrange(a as int, e as int).drop_last() =~= s@.subrange(a as int, e - 1));
        e -= 1;
    }
    if e > a {
        assert(s@.subrange(a as int, e as int).last() == s@[e - 1]);
    }
    e
}

/// The YAML text of a record written out by `{:#?}`: its inner lines, each
/// trimmed and without trailing commas, joined with newlines.
pub fn header_yaml_text(dump: &str) -> (r: String)
    ensures
        r@ == yaml_text(dump@),
{
    let text = Text::new(dump);
    let spans = line_spans(&text.chars);
    let ghost ls = lines(dump@);
    let ghost f = |l: Seq<char>| strip_commas(trim(l));
    let mut res = String::new();
    if spans.len() < 2 {
        assert(inner_lines(ls).map_values(f) =~= seq![]);
        return res;
    }
    let ghost inner = inner_lines(ls).map_values(f);
    let last = spans.len() - 1;
    let mut k: usize = 1;
    while k < last
        invariant
            text.wf(),
            text.src@ == dump@,
            ls == lines(dump@),
            spans.len() == ls.len(),
            last == spans.len() - 1,
            spans.len() >= 2,
            forall|j: int| 0 <= j < spans.len() ==> #[trigger] spans@[j].0 <= spans@[j].1 <= text.chars.len(),
            forall|j: int|
                0 <= j < spans.len() ==> text.chars@.subrange(#[trigger] spans@[j].0 as int, spans@[j].1 as int) == ls[j],
            inner == inner_lines(ls).map_values(f),
            f == (|l: Seq<char>| strip_commas(trim(l))),
            1 <= k <= last,
            res@ == join_lines(inner.take(k - 1)),
        decreases last - k,
    {
        let (a, b) = spans[k];
        let (x, y) = trim_range(&text.chars, a, b);
        let z = strip_commas_end(&text.chars, x, y);
        let piece = text.slice(x, z);
        assert(piece@ == inner[k - 1]);
        let ghost before = res@;
        if k > 1 {
            res.append("\n");
            proof {
                reveal_strlit("\n");
            }
        }
        res.append(piece);
        assert(inner.take(k as int).drop_last() =~= inner.take(k - 1));
        if k > 1 {
            assert(res@ =~= join_lines(inner.take(k - 1)) + seq!['\n'] + inner[k - 1]);
        } else {
            assert(inner.take(0) =~= seq![]);
            assert(res@ =~= inner.take(1)[0]);
        }
        k += 1;
    }
    assert(inner.take(k - 1) =~= inner);
    res
}

/// The dumps of the header records (MIR, SDR, WCR, WIR) of `recs`, in order.
pub open spec fn header_dumps(recs: Seq<StdfRec>) -> Seq<Seq<char>>
    decreases recs.len(),
{
    if recs.len() == 0 {
        seq![]
    } else {
        let prev = header_dumps(recs.drop_last());
        match recs.last() {
            StdfRec::Mir(d) => prev.push(d@),
            StdfRec::Sdr(d) => prev.push(d@),
            StdfRec::Wcr(d) => prev.push(d@),
            StdfRec::Wir(d) => prev.push(d@),
            _ => prev,
        }
    }
}

/// The YAML texts of the header records of `recs`, in order.
pub open spec fn header_texts(recs: Seq<StdfRec>) -> Seq<Seq<char>> {
    header_dumps(recs).map_values(|d: Seq<char>| yaml_text(d))
}

/// The views of a sequence of strings.
pub open spec fn string_views(v: Seq<String>) -> Seq<Seq<char>> {
    v.map_values(|s: String| s@)
}

/// The YAML texts of the header records, in order.
pub fn stdf_header_texts(recs: &Vec<StdfRec>) -> (r: Vec<String>)
    ensures
        string_views(r@) == header_texts(recs@),
{
    let mut out: Vec<String> = Vec::new();
    let mut i: usize = 0;
    assert(recs@.take(0) =~= seq![]);
    assert(string_views(out@) =~= seq![]);
    while i < recs.len()
        invariant
            i <= recs.len(),
            string_views(out@) == header_texts(recs@.take(i as int)),
        decreases recs.len() - i,
    {
        let ghost before = out@;
        assert(recs@.take(i + 1).drop_last() =~= recs@.take(i as int));
        assert(recs@.take(i + 1).last() == recs@[i as int]);
        let dump: Option<&String> = match &recs[i] {
            StdfRec::Mir(d) => Some(d),
            StdfRec::Sdr(d) => Some(d),
            StdfRec::Wcr(d) => Some(d),
            StdfRec::Wir(d) => Some(d),
            _ => None,
        };
        match dump {
            Some(d) => {
                out.push(header_yaml_text(d.as_str()));
                assert(string_views(out@) =~= string_views(before).push(yaml_text(d@)));
                assert(header_dumps(recs@.take(i + 1)) == header_dumps(recs@.take(i as int)).push(
                    d@,
                ));
                assert(header_texts(recs@.take(i + 1)) =~= header_texts(recs@.take(i as int)).push(
                    yaml_text(d@),
                ));
            },
            None => {
                assert(header_dumps(recs@.take(i + 1)) == header_dumps(recs@.take(i as int)));
            },
        }
        i += 1;
    }
    assert(recs@.take(i as int) =~= recs@);
    out
}

/// A YAML value read by serde_yaml, opaque to proofs.
#[verifier::external_type_specification]
#[verifier::external_body]
pub struct ExYamlValue(serde_yaml::Value);

/// An error of serde_yaml.
#[verifier::external_type_specification]
#[verifier::external_body]
pub struct ExYamlError(serde_yaml::Error);

/// What serde_yaml reads from the text `t`, as serde_yaml writes it: the
/// text that `serde_yaml::to_string` gives of the value that
/// `serde_yaml::from_str::<serde_yaml::Value>` reads from `t`, or `None` where
/// reading reports an error.  The written text is a function of `t` alone (a
/// mapping keeps the order in which its entries were read), whereas the value
/// itself carries the random hasher state of its mappings and is not.
pub uninterp spec fn yaml_written(t: Seq<char>) -> Option<Seq<char>>;

/// Whether `serde_yaml::from_str` reads the text `t` as a YAML value.
pub open spec fn yaml_parses(t: Seq<char>) -> bool {
    yaml_written(t) is Some
}

/// A YAML value read by serde_yaml, with the text serde_yaml writes of it.
pub struct YamlDoc {
    value: serde_yaml::Value,
    written: Ghost<Seq<char>>,
}

impl YamlDoc {
    /// The text serde_yaml writes of the value.
    pub closed spec fn written(&self) -> Seq<char> {
        self.written@
    }

    /// The value.
    pub fn value(&self) -> &serde_yaml::Value {
        &self.value
    }

    /// The value, taken out.
    pub fn into_value(self) -> serde_yaml::Value {
        self.value
    }
}

/// Reads a YAML value with `serde_yaml::from_str::<serde_yaml::Value>`.  The
/// contract names what is read by the text serde_yaml writes of it (a
/// function of the text alone): on success, that text; on failure, that the
/// text has no reading.  Of the value itself nothing is claimed.
#[verifier::external_body]
fn parse_yaml(text: &str) -> (r: Result<YamlDoc, serde_yaml::Error>)
    ensures
        match r {
            Ok(d) => yaml_written(text@) == Some(d.written()),
            Err(_) => yaml_written(text@) is None,
        },
{
    match serde_yaml::from_str::<serde_yaml::Value>(text) {
        Ok(value) => Ok(YamlDoc { value, written: Ghost(yaml_written(text@)->Some_0) }),
        Err(e) => Err(e),
    }
}

/// The message of a YAML error (its `Display`).  Nothing is claimed of the
/// text.
#[verifier::external_body]
fn yaml_error_message(e: &serde_yaml::Error) -> String {
    e.to_string()
}

/// Why the header of an STDF file could not be read.
#[derive(Debug, Clone, PartialEq, Eq)]
pub enum HeaderError {
    /// The YAML text of a header record could not be read; the message of the
    /// YAML reader.
    Yaml(String),
}

/// The header of an STDF file as YAML: null where it has no header
/// records, else the sequence of their values.
pub enum HeaderYaml {
    /// No header records.
    Null,
    /// The values of the header records, in order.
    Sequence(Vec<YamlDoc>),
}

/// The header records of an STDF file, each read as a YAML value, in order:
/// null where there are none, else their sequence.  Fails at the first header
/// record whose YAML text cannot be read.
pub fn stdf_header(recs: &Vec<StdfRec>) -> (r: Result<HeaderYaml, HeaderError>)
    ensures
        match r {
            Ok(HeaderYaml::Null) => header_texts(recs@).len() == 0,
            Ok(HeaderYaml::Sequence(v)) => header_texts(recs@).len() > 0 && v.len() == header_texts(
                recs@,
            ).len() && forall|k: int|
                0 <= k < header_texts(recs@).len() ==> yaml_written(
                    #[trigger] header_texts(recs@)[k],
                ) == Some(v@[k].written()),
            Err(e) => e is Yaml && exists|k: int|
                0 <= k < header_texts(recs@).len() && !yaml_parses(
                    #[trigger] header_texts(recs@)[k],
                ) && forall|j: int| 0 <= j < k ==> yaml_parses(header_texts(recs@)[j]),
        },
{
    let texts = stdf_header_texts(recs);
    let ghost ts = header_texts(recs@);
    let mut out: Vec<YamlDoc> = Vec::new();
    let mut k: usize = 0;
    while k < texts.len()
        invariant
            string_views(texts@) == ts,
            ts == header_texts(recs@),
            k <= texts.len(),
            out.len() == k,
            forall|j: int| 0 <= j < k ==> yaml_written(#[trigger] ts[j]) == Some(out@[j].written()),
        decreases texts.len() - k,
    {
        assert(ts[k as int] == texts@[k as int]@);
        match parse_yaml(texts[k].as_str()) {
            Ok(d) => {
                let ghost before = out@;
                out.push(d);
                assert forall|j: int| 0 <= j < k + 1 implies yaml_written(#[trigger] ts[j]) == Some(
                    out@[j].written(),
                ) by {
                    if j < k {
                        assert(out@[j] == before[j]);
                    }
                }
            },
            Err(e) => {
                return Err(HeaderError::Yaml(yaml_error_message(&e)));
            },
        }
        k += 1;
    }
    if out.len() == 0 {
        Ok(HeaderYaml::Null)
    } else {
        Ok(HeaderYaml::Sequence(out))
    }
}

proof fn lemma_parts_of(ps: Seq<PartSel>, cnt: int)
    ensures
        forall|j: int| 0 <= j < parts_of(ps, cnt).len() ==> (#[trigger] parts_of(ps, cnt)[j]).cnt
            == cnt,
    decreases ps.len(),
{
    if ps.len() > 0 {
        let prev = parts_of(ps.drop_last(), cnt);
        lemma_parts_of(ps.drop_last(), cnt);
        assert forall|j: int| 0 <= j < parts_of(ps, cnt).len() implies (#[trigger] parts_of(
            ps,
            cnt,
        )[j]).cnt == cnt by {
            if ps.last().cnt == cnt && j < prev.len() {
                assert(parts_of(ps, cnt)[j] == prev[j]);
            }
        }
    }
}

/// Whether a joined row's part result, if it has one, is of part `cnt`.
pub open spec fn row_of_part(o: Option<PartSel>, cnt: int) -> bool {
    match o {
        Some(p) => p.cnt == cnt,
        None => true,
    }
}

/// The rows that a left join adds for the last selected record.
proof fn lemma_join_step<A>(sel: Seq<A>, f: spec_fn(A) -> int, ps: Seq<PartSel>)
    requires
        sel.len() > 0,
    ensures
        ({
            let tail = joined(f(sel.last()), ps).map_values(|o: Option<PartSel>| (sel.last(), o));
            &&& join_parts(sel, f, ps) == join_parts(sel.drop_last(), f, ps) + tail
            &&& tail.len() >= 1
            &&& forall|j: int|
                0 <= j < tail.len() ==> (#[trigger] tail[j]).0 == sel.last() && row_of_part(
                    tail[j].1,
                    f(sel.last()),
                )
        }),
{
    let x = sel.last();
    lemma_parts_of(ps, f(x));
    let tail = joined(f(x), ps).map_values(|o: Option<PartSel>| (x, o));
    assert forall|j: int| 0 <= j < tail.len() implies (#[trigger] tail[j]).0 == x && row_of_part(
        tail[j].1,
        f(x),
    ) by {
        if parts_of(ps, f(x)).len() > 0 {
            assert(tail[j].1 == Some(parts_of(ps, f(x))[j]));
        }
    }
}

proof fn lemma_join_part_counts<A>(sel: Seq<A>, f: spec_fn(A) -> int, ps: Seq<PartSel>)
    ensures
        join_parts(sel, f, ps).len() >= sel.len(),
        forall|i: int|
            0 <= i < join_parts(sel, f, ps).len() ==> row_of_part(
                (#[trigger] join_parts(sel, f, ps)[i]).1,
                f(join_parts(sel, f, ps)[i].0),
            ),
    decreases sel.len(),
{
    if sel.len() > 0 {
        let pre = sel.drop_last();
        lemma_join_part_counts(pre, f, ps);
        lemma_join_step(sel, f, ps);
        let all = join_parts(sel, f, ps);
        let before = join_parts(pre, f, ps);
        let tail = joined(f(sel.last()), ps).map_values(|o: Option<PartSel>| (sel.last(), o));
        assert forall|i: int| 0 <= i < all.len() implies row_of_part(
            (#[trigger] all[i]).1,
            f(all[i].0),
        ) by {
            if i >= before.len() {
                assert(all[i] == tail[i - before.len()]);
            } else {
                assert(all[i] == before[i]);
            }
        }
    }
}

proof fn lemma_join_sources<A>(sel: Seq<A>, f: spec_fn(A) -> int, ps: Seq<PartSel>)
    ensures
        forall|i: int|
            0 <= i < join_parts(sel, f, ps).len() ==> exists|k: int|
                0 <= k < sel.len() && #[trigger] sel[k] == (#[trigger] join_parts(sel, f, ps)[i]).0,
    decreases sel.len(),
{
    if sel.len() > 0 {
        let pre = sel.drop_last();
        lemma_join_sources(pre, f, ps);
        lemma_join_step(sel, f, ps);
        let all = join_parts(sel, f, ps);
        let before = join_parts(pre, f, ps);
        let tail = joined(f(sel.last()), ps).map_values(|o: Option<PartSel>| (sel.last(), o));
        assert forall|i: int| 0 <= i < all.len() implies exists|k: int|
            0 <= k < sel.len() && #[trigger] sel[k] == (#[trigger] all[i]).0 by {
            if i >= before.len() {
                assert(all[i] == tail[i - before.len()]);
                assert(sel[sel.len() - 1] == all[i].0);
            } else {
                assert(all[i] == before[i]);
                let k = choose|k: int| 0 <= k < pre.len() && #[trigger] pre[k] == before[i].0;
                assert(sel[k] == pre[k]);
            }
        }
    }
}

proof fn lemma_join_covers<A>(sel: Seq<A>, f: spec_fn(A) -> int, ps: Seq<PartSel>)
    ensures
        forall|k: int|
            0 <= k < sel.len() ==> exists|i: int|
                0 <= i < join_parts(sel, f, ps).len() && (#[trigger] join_parts(sel, f, ps)[i]).0
                    == #[trigger] sel[k],
    decreases sel.len(),
{
    if sel.len() > 0 {
        let pre = sel.drop_last();
        lemma_join_covers(pre, f, ps);
        lemma_join_step(sel, f, ps);
        let all = join_parts(sel, f, ps);
        let before = join_parts(pre, f, ps);
        let tail = joined(f(sel.last()), ps).map_values(|o: Option<PartSel>| (sel.last(), o));
        assert forall|k: int| 0 <= k < sel.len() implies exists|i: int|
            0 <= i < all.len() && (#[trigger] all[i]).0 == #[trigger] sel[k] by {
            if k < pre.len() {
                assert(sel[k] == pre[k]);
                let i = choose|i: int| 0 <= i < before.len() && (#[trigger] before[i]).0 == pre[k];
                assert(all[i] == before[i]);
            } else {
                assert(all[before.len() as int] == tail[0]);
            }
        }
    }
}

/// A left join keeps every record: in the joined table each selected record
/// appears at least once, every row comes from a selected record, and a row
/// that has a part result has the part count of its record.
pub proof fn lemma_join_rows<A>(sel: Seq<A>, f: spec_fn(A) -> int, ps: Seq<PartSel>)
    ensures
        join_parts(sel, f, ps).len() >= sel.len(),
        forall|i: int|
            0 <= i < join_parts(sel, f, ps).len() ==> row_of_part(
                (#[trigger] join_parts(sel, f, ps)[i]).1,
                f(join_parts(sel, f, ps)[i].0),
            ),
        forall|i: int|
            0 <= i < join_parts(sel, f, ps).len() ==> exists|k: int|
                0 <= k < sel.len() && #[trigger] sel[k] == (#[trigger] join_parts(sel, f, ps)[i]).0,
        forall|k: int|
            0 <= k < sel.len() ==> exists|i: int|
                0 <= i < join_parts(sel, f, ps).len() && (#[trigger] join_parts(sel, f, ps)[i]).0
                    == #[trigger] sel[k],
{
    lemma_join_part_counts(sel, f, ps);
    lemma_join_sources(sel, f, ps);
    lemma_join_covers(sel, f, ps);
}

/// Every selected parametric test record has a test text that contains the
/// key asked for.
pub proof fn lemma_ptr_selected_key(recs: Seq<StdfRec>, key: Seq<char>)
    ensures
        forall|j: int|
            0 <= j < ptr_selected(recs, key).len() ==> contains_text(
                (#[trigger] ptr_selected(recs, key)[j]).key,
                key,
            ),
    decreases recs.len(),
{
    if recs.len() > 0 {
        let prev = ptr_selected(recs.drop_last(), key);
        lemma_ptr_selected_key(recs.drop_last(), key);
        assert forall|j: int| 0 <= j < ptr_selected(recs, key).len() implies contains_text(
            (#[trigger] ptr_selected(recs, key)[j]).key,
            key,
        ) by {
            if j < prev.len() {
                assert(ptr_selected(recs, key)[j] == prev[j]);
            }
        }
    }
}

proof fn lemma_cnt_at_mono(recs: Seq<StdfRec>, a: int, b: int)
    requires
        0 <= a <= b <= recs.len(),
    ensures
        cnt_at(recs, a) <= cnt_at(recs, b),
{
    lemma_pir_count_grows(recs.take(b), a);
    assert(recs.take(b).take(a) =~= recs.take(a));
}

/// The selected parametric test records come in file order: each is the
/// record at its position, its part count is the number of parts begun before
/// it less one, and part counts never go down from one row to the next.
pub proof fn lemma_ptr_selected_order(recs: Seq<StdfRec>, key: Seq<char>)
    ensures
        forall|i: int|
            0 <= i < ptr_selected(recs, key).len() ==> {
                let s = #[trigger] ptr_selected(recs, key)[i];
                &&& 0 <= s.rec < recs.len()
                &&& recs[s.rec] is Ptr
                &&& s.cnt == cnt_at(recs, s.rec)
            },
        forall|i: int, j: int|
            0 <= i < j < ptr_selected(recs, key).len() ==> (#[trigger] ptr_selected(recs, key)[i]).rec
                < (#[trigger] ptr_selected(recs, key)[j]).rec && ptr_selected(recs, key)[i].cnt
                <= ptr_selected(recs, key)[j].cnt,
    decreases recs.len(),
{
    if recs.len() > 0 {
        let pre = recs.drop_last();
        let prev = ptr_selected(pre, key);
        let all = ptr_selected(recs, key);
        lemma_ptr_selected_order(pre, key);
        assert forall|i: int| 0 <= i < prev.len() implies {
            let s = #[trigger] prev[i];
            &&& 0 <= s.rec < recs.len() - 1
            &&& recs[s.rec] is Ptr
            &&& s.cnt == cnt_at(recs, s.rec)
        } by {
            let s = prev[i];
            assert(pre.take(s.rec) =~= recs.take(s.rec));
        }
        assert(all.len() == prev.len() || all.len() == prev.len() + 1);
        assert forall|i: int| 0 <= i < all.len() implies {
            let s = #[trigger] all[i];
            &&& 0 <= s.rec < recs.len()
            &&& recs[s.rec] is Ptr
            &&& s.cnt == cnt_at(recs, s.rec)
        } by {
            if i < prev.len() {
                assert(all[i] == prev[i]);
            }
        }
        assert forall|i: int, j: int| 0 <= i < j < all.len() implies (#[trigger] all[i]).rec
            < (#[trigger] all[j]).rec && all[i].cnt <= all[j].cnt by {
            if j < prev.len() {
                assert(all[i] == prev[i]);
                assert(all[j] == prev[j]);
            } else {
                assert(all[i] == prev[i]);
                assert(all[j].rec == recs.len() - 1);
                lemma_cnt_at_mono(recs, all[i].rec, all[j].rec);
            }
        }
    }
}

/// The selected parametric test records of `sel` whose test text contains
/// `key`, in order.
pub open spec fn picks_containing(sel: Seq<PtrSel>, key: Seq<char>) -> Seq<PtrSel>
    decreases sel.len(),
{
    if sel.len() == 0 {
        seq![]
    } else if contains_text(sel.last().key, key) {
        picks_containing(sel.drop_last(), key).push(sel.last())
    } else {
        picks_containing(sel.drop_last(), key)
    }
}

/// The rows of a parametric test table whose test text contains `key`, in
/// order.
pub open spec fn rows_containing(rows: Seq<(PtrSel, Option<PartSel>)>, key: Seq<char>) -> Seq<
    (PtrSel, Option<PartSel>),
>
    decreases rows.len(),
{
    if rows.len() == 0 {
        seq![]
    } else if contains_text(rows.last().0.key, key) {
        rows_containing(rows.drop_last(), key).push(rows.last())
    } else {
        rows_containing(rows.drop_last(), key)
    }
}

proof fn lemma_contains_trans(h: Seq<char>, m: Seq<char>, n: Seq<char>)
    requires
        contains_text(h, m),
        contains_text(m, n),
    ensures
        contains_text(h, n),
{
    let i = choose|i: int|
        0 <= i <= h.len() - m.len() && #[trigger] h.subrange(i, i + m.len()) == m;
    let j = choose|j: int|
        0 <= j <= m.len() - n.len() && #[trigger] m.subrange(j, j + n.len()) == n;
    assert forall|x: int| 0 <= x < n.len() implies h[i + j + x] == n[x] by {
        assert(h.subrange(i, i + m.len())[j + x] == h[i + j + x]);
        assert(m.subrange(j, j + n.len())[x] == m[j + x]);
    }
    assert(h.subrange(i + j, i + j + n.len()) =~= n);
}

proof fn lemma_ptr_selected_narrows(recs: Seq<StdfRec>, key1: Seq<char>, key2: Seq<char>)
    requires
        contains_text(key2, key1),
    ensures
        ptr_selected(recs, key2) == picks_containing(ptr_selected(recs, key1), key2),
    decreases recs.len(),
{
    if recs.len() > 0 {
        let pre = recs.drop_last();
        lemma_ptr_selected_narrows(pre, key1, key2);
        let p1 = ptr_selected(pre, key1);
        match recs.last() {
            StdfRec::Ptr { test_txt, units, res_scal } => {
                if contains_text(test_txt@, key2) {
                    lemma_contains_trans(test_txt@, key2, key1);
                    let x = ptr_selected(recs, key1).last();
                    assert(ptr_selected(recs, key1) == p1.push(x));
                    assert(p1.push(x).drop_last() =~= p1);
                } else if contains_text(test_txt@, key1) {
                    let x = ptr_selected(recs, key1).last();
                    assert(ptr_selected(recs, key1) == p1.push(x));
                    assert(p1.push(x).drop_last() =~= p1);
                }
            },
            _ => {},
        }
    }
}

proof fn lemma_rows_containing_add(
    a: Seq<(PtrSel, Option<PartSel>)>,
    b: Seq<(PtrSel, Option<PartSel>)>,
    key: Seq<char>,
)
    ensures
        rows_containing(a + b, key) == rows_containing(a, key) + rows_containing(b, key),
    decreases b.len(),
{
    if b.len() == 0 {
        assert(a + b =~= a);
        assert(rows_containing(a, key) + seq![] =~= rows_containing(a, key));
    } else {
        lemma_rows_containing_add(a, b.drop_last(), key);
        assert((a + b).drop_last() =~= a + b.drop_last());
        assert((a + b).last() == b.last());
        if contains_text(b.last().0.key, key) {
            assert(rows_containing(a, key) + rows_containing(b.drop_last(), key).push(b.last())
                =~= (rows_containing(a, key) + rows_containing(b.drop_last(), key)).push(b.last()));
        }
    }
}

proof fn lemma_rows_containing_one(rows: Seq<(PtrSel, Option<PartSel>)>, x: PtrSel, key: Seq<char>)
    requires
        forall|i: int| 0 <= i < rows.len() ==> (#[trigger] rows[i]).0 == x,
    ensures
        rows_containing(rows, key) == if contains_text(x.key, key) {
            rows
        } else {
            seq![]
        },
    decreases rows.len(),
{
    if rows.len() > 0 {
        let pre = rows.drop_last();
        assert forall|i: int| 0 <= i < pre.len() implies (#[trigger] pre[i]).0 == x by {
            assert(pre[i] == rows[i]);
        }
        lemma_rows_containing_one(pre, x, key);
        assert(rows[rows.len() - 1].0 == x);
        if contains_text(x.key, key) {
            assert(pre.push(rows.last()) =~= rows);
        }
    }
}

proof fn lemma_join_picks(sel: Seq<PtrSel>, ps: Seq<PartSel>, key: Seq<char>)
    ensures
        join_parts(picks_containing(sel, key), |s: PtrSel| ptr_cnt(s), ps) == rows_containing(
            join_parts(sel, |s: PtrSel| ptr_cnt(s), ps),
            key,
        ),
    decreases sel.len(),
{
    let f = |s: PtrSel| ptr_cnt(s);
    if sel.len() > 0 {
        let pre = sel.drop_last();
        let x = sel.last();
        lemma_join_picks(pre, ps, key);
        let tail = joined(f(x), ps).map_values(|o: Option<PartSel>| (x, o));
        assert(join_parts(sel, f, ps) == join_parts(pre, f, ps) + tail);
        lemma_rows_containing_add(join_parts(pre, f, ps), tail, key);
        lemma_rows_containing_one(tail, x, key);
        let q = picks_containing(pre, key);
        if contains_text(x.key, key) {
            assert(picks_containing(sel, key) == q.push(x));
            assert(q.push(x).drop_last() =~= q);
            assert(join_parts(q.push(x), f, ps) == join_parts(q, f, ps) + tail);
        } else {
            assert(rows_containing(join_parts(pre, f, ps), key) + seq![] =~= rows_containing(
                join_parts(pre, f, ps),
                key,
            ));
        }
    }
}

/// Narrowing the key narrows the table: where the key `key2` contains the key
/// `key1`, the parametric test table for `key2` is the rows of the table for
/// `key1` whose test text contains `key2`, in the same order.
pub proof fn lemma_ptr_table_narrows(recs: Seq<StdfRec>, key1: Seq<char>, key2: Seq<char>)
    requires
        contains_text(key2, key1),
    ensures
        ptr_table(recs, key2) == rows_containing(ptr_table(recs, key1), key2),
{
    lemma_ptr_selected_narrows(recs, key1, key2);
    lemma_join_picks(ptr_selected(recs, key1), parts(recs), key2);
}

/// How many part results `recs` holds.
pub open spec fn prr_count(recs: Seq<StdfRec>) -> int
    decreases recs.len(),
{
    if recs.len() == 0 {
        0
    } else {
        prr_count(recs.drop_last()) + if recs.last() is Prr {
            1int
        } else {
            0int
        }
    }
}

/// Whether `p` is what the part results record at `j` of `recs` says: its
/// number of tests and its signed wafer coordinates, unchanged, with the part
/// count at that record.
pub open spec fn part_read_at(recs: Seq<StdfRec>, j: int, p: PartSel) -> bool {
    &&& 0 <= j < recs.len()
    &&& match recs[j] {
        StdfRec::Prr { num_test, x_coord, y_coord } => {
            &&& p.num_test == num_test as int
            &&& p.x == x_coord as int
            &&& p.y == y_coord as int
            &&& p.cnt == cnt_at(recs, j)
        },
        _ => false,
    }
}

/// Whether the part result `p` is read from some part results record of
/// `recs`.
pub open spec fn part_from_record(recs: Seq<StdfRec>, p: PartSel) -> bool {
    exists|j: int| part_read_at(recs, j, p)
}

/// Whether the record at `j` of `recs` gives one of the part results.
pub open spec fn record_gives_part(recs: Seq<StdfRec>, j: int) -> bool {
    exists|i: int| 0 <= i < parts(recs).len() && part_read_at(recs, j, parts(recs)[i])
}

proof fn lemma_part_read_prefix(recs: Seq<StdfRec>, j: int, p: PartSel)
    requires
        recs.len() > 0,
        part_read_at(recs.drop_last(), j, p),
    ensures
        part_read_at(recs, j, p),
{
    assert(recs.drop_last().take(j) =~= recs.take(j));
    assert(recs[j] == recs.drop_last()[j]);
}

proof fn lemma_parts_count(recs: Seq<StdfRec>)
    ensures
        parts(recs).len() == prr_count(recs),
    decreases recs.len(),
{
    if recs.len() > 0 {
        lemma_parts_count(recs.drop_last());
    }
}

proof fn lemma_parts_origin(recs: Seq<StdfRec>)
    ensures
        forall|i: int|
            0 <= i < parts(recs).len() ==> part_from_record(recs, #[trigger] parts(recs)[i]),
    decreases recs.len(),
{
    if recs.len() > 0 {
        let pre = recs.drop_last();
        lemma_parts_origin(pre);
        let prev = parts(pre);
        let all = parts(recs);
        assert forall|i: int| 0 <= i < all.len() implies part_from_record(recs, #[trigger] all[i]) by {
            if i < prev.len() {
                assert(all[i] == prev[i]);
                assert(part_from_record(pre, prev[i]));
                let j = choose|j: int| part_read_at(pre, j, prev[i]);
                lemma_part_read_prefix(recs, j, prev[i]);
            } else {
                assert(part_read_at(recs, recs.len() - 1, all[i]));
            }
        }
    }
}

proof fn lemma_parts_cover(recs: Seq<StdfRec>)
    ensures
        forall|j: int|
            0 <= j < recs.len() && (#[trigger] recs[j]) is Prr ==> record_gives_part(recs, j),
    decreases recs.len(),
{
    if recs.len() > 0 {
        let pre = recs.drop_last();
        lemma_parts_cover(pre);
        let prev = parts(pre);
        let all = parts(recs);
        assert forall|j: int| 0 <= j < recs.len() && (#[trigger] recs[j]) is Prr implies record_gives_part(
            recs,
            j,
        ) by {
            if j < pre.len() {
                assert(recs[j] == pre[j]);
                assert(record_gives_part(pre, j));
                let i = choose|i: int| 0 <= i < prev.len() && part_read_at(pre, j, prev[i]);
                lemma_part_read_prefix(recs, j, prev[i]);
                assert(all[i] == prev[i]);
            } else {
                assert(part_read_at(recs, j, all[all.len() - 1]));
            }
        }
    }
}

/// Each part result comes from a part results record and carries its number
/// of tests and its wafer coordinates as they are (a negative coordinate
/// stays negative), with the part count at that record; every part results
/// record gives one, and there are as many part results as such records.
pub proof fn lemma_parts_from_records(recs: Seq<StdfRec>)
    ensures
        parts(recs).len() == prr_count(recs),
        forall|i: int|
            0 <= i < parts(recs).len() ==> part_from_record(recs, #[trigger] parts(recs)[i]),
        forall|j: int|
            0 <= j < recs.len() && (#[trigger] recs[j]) is Prr ==> record_gives_part(recs, j),
{
    lemma_parts_count(recs);
    lemma_parts_origin(recs);
    lemma_parts_cover(recs);
}

/// Every selected datalog text record has a text that contains the key asked
/// for.
pub proof fn lemma_dtr_selected_key(recs: Seq<StdfRec>, key: Seq<char>)
    ensures
        forall|j: int|
            0 <= j < dtr_selected(recs, key).len() ==> contains_text(
                (#[trigger] dtr_selected(recs, key)[j]).text,
                key,
            ),
    decreases recs.len(),
{
    if recs.len() > 0 {
        let prev = dtr_selected(recs.drop_last(), key);
        lemma_dtr_selected_key(recs.drop_last(), key);
        assert forall|j: int| 0 <= j < dtr_selected(recs, key).len() implies contains_text(
            (#[trigger] dtr_selected(recs, key)[j]).text,
            key,
        ) by {
            if j < prev.len() {
                assert(dtr_selected(recs, key)[j] == prev[j]);
            }
        }
    }
}

} // verus!
