//! The artifact store reader: turns the three on-disk artifacts — the IDF
//! table, the TF-IDF term-document matrix and the document index — into
//! typed in-memory tables, or fails fast on the first malformed row.
//!
//! Every weight is kept exactly: each table stores integer mantissas over
//! one common power-of-ten denominator, 10^scale, so a table row `| t | 0.5 |`
//! in a table whose largest fractional width is 2 is stored as 50 over
//! scale 2. A malformed or missing field aborts the whole load, as does a
//! weight that does not fit a machine word once put over the common
//! denominator.
use crate::text::{
    dec_of, lines_of, parse_weight, pow10, pow10_u64, split_lines, split_on, split_str, trim_str,
    trimmed,
};
use vstd::prelude::*;

verus! {

/// Why a load failed. Any of these aborts the run: no partial corpus is
/// ever used for ranking.
#[derive(Clone, Copy, Debug, PartialEq, Eq, Structural)]
pub enum LoadError {
    /// A data row lacks the field the format promises at its position.
    MissingField,
    /// A weight field is not a plain non-negative decimal numeral the
    /// loader accepts, or its mantissa exceeds the machine word.
    BadWeight,
    /// A weight does not fit a machine word over the table's common
    /// denominator.
    WeightOverflow,
    /// A matrix row's weight count differs from the document count.
    LengthMismatch,
}

/// A term with one scaled weight: an IDF table row.
pub struct WeightEntry {
    pub term: String,
    pub value: u64,
}

impl View for WeightEntry {
    type V = (Seq<char>, nat);

    open spec fn view(&self) -> (Seq<char>, nat) {
        (self.term@, self.value as nat)
    }
}

impl DeepView for WeightEntry {
    type V = (Seq<char>, nat);

    open spec fn deep_view(&self) -> (Seq<char>, nat) {
        self.view()
    }
}

/// A term with one scaled weight per document ordinal: a matrix row.
pub struct RowEntry {
    pub term: String,
    pub values: Vec<u64>,
}

impl View for RowEntry {
    type V = (Seq<char>, Seq<nat>);

    open spec fn view(&self) -> (Seq<char>, Seq<nat>) {
        (self.term@, self.values@.map_values(|v: u64| v as nat))
    }
}

impl DeepView for RowEntry {
    type V = (Seq<char>, Seq<nat>);

    open spec fn deep_view(&self) -> (Seq<char>, Seq<nat>) {
        self.view()
    }
}

/// The position of the entry for `t`, or -1 when there is none.
pub open spec fn key_idx<V>(es: Seq<(Seq<char>, V)>, t: Seq<char>) -> int
    decreases es.len(),
{
    if es.len() == 0 {
        -1
    } else if es[0].0 == t {
        0
    } else {
        let r = key_idx(es.drop_first(), t);
        if r < 0 {
            -1
        } else {
            r + 1
        }
    }
}

pub proof fn lemma_key_idx<V>(es: Seq<(Seq<char>, V)>, t: Seq<char>)
    ensures
        key_idx(es, t) >= 0 ==> key_idx(es, t) < es.len() && es[key_idx(es, t)].0 == t,
        key_idx(es, t) < 0 ==> forall|i: int| 0 <= i < es.len() ==> es[i].0 != t,
        key_idx(es, t) >= 0 ==> forall|i: int| 0 <= i < key_idx(es, t) ==> es[i].0 != t,
    decreases es.len(),
{
    if es.len() > 0 && es[0].0 != t {
        lemma_key_idx(es.drop_first(), t);
        let d = es.drop_first();
        if key_idx(d, t) < 0 {
            assert forall|i: int| 0 <= i < es.len() implies es[i].0 != t by {
                if i > 0 {
                    assert(es[i] == d[i - 1]);
                }
            }
        } else {
            assert(es[key_idx(es, t)] == d[key_idx(d, t)]);
            assert forall|i: int| 0 <= i < key_idx(es, t) implies es[i].0 != t by {
                if i > 0 {
                    assert(es[i] == d[i - 1]);
                }
            }
        }
    }
}

/// Replaces the entry whose term is `t`, or appends one: the later of two
/// rows for the same term wins, as in a map built by repeated insertion.
pub open spec fn upsert<V>(es: Seq<(Seq<char>, V)>, t: Seq<char>, w: V) -> Seq<(Seq<char>, V)>
    decreases es.len(),
{
    if es.len() == 0 {
        seq![(t, w)]
    } else if es[0].0 == t {
        seq![(t, w)].add(es.drop_first())
    } else {
        seq![es[0]].add(upsert(es.drop_first(), t, w))
    }
}

/// If the first `j` entries miss `t`, an upsert leaves them unchanged.
proof fn lemma_upsert_skip<V>(es: Seq<(Seq<char>, V)>, t: Seq<char>, w: V, j: int)
    requires
        0 <= j <= es.len(),
        forall|i: int| 0 <= i < j ==> es[i].0 != t,
    ensures
        upsert(es, t, w) =~= es.take(j).add(upsert(es.skip(j), t, w)),
    decreases j,
{
    if j == 0 {
        assert(es.skip(0) =~= es);
        assert(es.take(0).add(upsert(es, t, w)) =~= upsert(es, t, w));
    } else {
        lemma_upsert_skip(es.drop_first(), t, w, j - 1);
        assert(es.drop_first().take(j - 1) =~= es.take(j).drop_first());
        assert(es.drop_first().skip(j - 1) =~= es.skip(j));
        assert(upsert(es, t, w) =~= seq![es[0]].add(upsert(es.drop_first(), t, w)));
        assert(seq![es[0]].add(
            es.drop_first().take(j - 1).add(upsert(es.drop_first().skip(j - 1), t, w)),
        ) =~= es.take(j).add(upsert(es.skip(j), t, w)));
    }
}

/// Replaces or appends the row for `term` in an IDF table being built.
fn upsert_weight(entries: &mut Vec<WeightEntry>, term: String, value: u64)
    ensures
        final (entries).deep_view() == upsert(old(entries).deep_view(), term@, value as nat),
{
    let ghost es = entries.deep_view();
    let mut j: usize = 0;
    while j < entries.len()
        invariant
            j <= entries.len(),
            es == entries.deep_view(),
            es == old(entries).deep_view(),
            forall|i: int| 0 <= i < j ==> es[i].0 != term@,
        decreases entries.len() - j,
    {
        if entries[j].term == term {
            entries.set(j, WeightEntry { term, value });
            proof {
                lemma_upsert_skip(es, term@, value as nat, j as int);
                assert(es.skip(j as int)[0].0 == term@);
                assert(es.skip(j as int).drop_first() =~= es.skip(j + 1));
                assert(upsert(es.skip(j as int), term@, value as nat) =~= seq![
                    (term@, value as nat),
                ].add(es.skip(j + 1)));
                assert(entries.deep_view() =~= es.take(j as int).add(
                    seq![(term@, value as nat)].add(es.skip(j + 1)),
                ));
                assert(entries.deep_view() =~~= upsert(es, term@, value as nat));
            }
            return ;
        }
        j += 1;
    }
    entries.push(WeightEntry { term, value });
    proof {
        lemma_upsert_skip(es, term@, value as nat, es.len() as int);
        assert(es.skip(es.len() as int) =~= Seq::<(Seq<char>, nat)>::empty());
        assert(entries.deep_view() =~= es.take(es.len() as int).add(
            seq![(term@, value as nat)],
        ));
        assert(es.take(es.len() as int) =~= es);
    }
}

/// The fields of a pipe-delimited table row.
pub open spec fn row_fields(row: Seq<char>) -> Seq<Seq<char>> {
    split_on(row, '|')
}

/// The data rows of a table artifact: its lines after the two header rows.
pub open spec fn data_rows(text: Seq<char>) -> Seq<Seq<char>> {
    let ls = lines_of(text);
    if ls.len() >= 2 {
        ls.skip(2)
    } else {
        Seq::empty()
    }
}

/// A mantissa put over the common denominator 10^s of its table.
pub open spec fn scale_to(m: nat, e: nat, s: nat) -> nat {
    m * pow10((s - e) as nat)
}

/// An IDF data row holds a term at field 1 and one readable weight at
/// field 2 whose mantissa fits a machine word.
pub open spec fn idf_row_ok(row: Seq<char>) -> bool {
    &&& row_fields(row).len() >= 3
    &&& dec_of(trimmed(row_fields(row)[2])) is Some
    &&& dec_of(trimmed(row_fields(row)[2])).unwrap().0 <= u64::MAX
}

pub open spec fn idf_row_term(row: Seq<char>) -> Seq<char> {
    trimmed(row_fields(row)[1])
}

pub open spec fn idf_row_dec(row: Seq<char>) -> (nat, nat) {
    dec_of(trimmed(row_fields(row)[2])).unwrap()
}

pub open spec fn idf_rows_ok(rows: Seq<Seq<char>>) -> bool {
    forall|i: int| 0 <= i < rows.len() ==> idf_row_ok(#[trigger] rows[i])
}

/// The common denominator exponent of an IDF table: the largest fractional
/// width among its weights.
pub open spec fn idf_scale(rows: Seq<Seq<char>>) -> nat
    decreases rows.len(),
{
    if rows.len() == 0 {
        0
    } else {
        let r = idf_scale(rows.drop_last());
        let e = idf_row_dec(rows.last()).1;
        if e > r {
            e
        } else {
            r
        }
    }
}

/// Every weight fits a machine word over the common denominator.
pub open spec fn idf_fits(rows: Seq<Seq<char>>, s: nat) -> bool {
    forall|i: int|
        0 <= i < rows.len() ==> scale_to(
            idf_row_dec(#[trigger] rows[i]).0,
            idf_row_dec(rows[i]).1,
            s,
        ) <= u64::MAX
}

/// The IDF table the data rows denote: scaled weights keyed by term, a
/// later row for the same term replacing the earlier.
pub open spec fn idf_entries(rows: Seq<Seq<char>>, s: nat) -> Seq<(Seq<char>, nat)>
    decreases rows.len(),
{
    if rows.len() == 0 {
        Seq::empty()
    } else {
        upsert(
            idf_entries(rows.drop_last(), s),
            idf_row_term(rows.last()),
            scale_to(idf_row_dec(rows.last()).0, idf_row_dec(rows.last()).1, s),
        )
    }
}

pub proof fn lemma_idf_scale_ge(rows: Seq<Seq<char>>, i: int)
    requires
        0 <= i < rows.len(),
    ensures
        idf_row_dec(rows[i]).1 <= idf_scale(rows),
    decreases rows.len(),
{
    if i < rows.len() - 1 {
        lemma_idf_scale_ge(rows.drop_last(), i);
    }
}

/// The inverse document frequency table: a scaled weight per term of the
/// corpus vocabulary. Weights share the denominator 10^scale.
pub struct IdfTable {
    pub entries: Vec<WeightEntry>,
    pub scale: usize,
}

/// Reads one IDF data row.
fn parse_idf_row(line: &str) -> (r: Result<(String, u64, usize), LoadError>)
    ensures
        match r {
            Ok(p) => idf_row_ok(line@) && p.0@ == idf_row_term(line@) && p.1 as nat == idf_row_dec(
                line@,
            ).0 && p.2 as nat == idf_row_dec(line@).1,
            Err(e) => !idf_row_ok(line@) && (e is MissingField || e is BadWeight) && (
            e is MissingField <==> row_fields(line@).len() < 3),
        },
{
    let fields = split_str(line, '|');
    if fields.len() < 3 {
        return Err(LoadError::MissingField);
    }
    let term = trim_str(fields[1].as_str());
    let num = trim_str(fields[2].as_str());
    match parse_weight(num.as_str()) {
        Option::Some(p) => Ok((term, p.0, p.1)),
        Option::None => Err(LoadError::BadWeight),
    }
}

/// Puts a mantissa over the table's common denominator: m * 10^(s - e).
fn scale_value(m: u64, e: usize, s: usize) -> (r: Option<u64>)
    requires
        e <= s,
    ensures
        match r {
            Option::Some(v) => v as nat == scale_to(m as nat, e as nat, s as nat),
            Option::None => scale_to(m as nat, e as nat, s as nat) > u64::MAX,
        },
{
    if m == 0 {
        return Some(0);
    }
    match pow10_u64(s - e) {
        Option::Some(p) => {
            match m.checked_mul(p) {
                Option::Some(v) => Some(v),
                Option::None => None,
            }
        },
        Option::None => {
            proof {
                let pw = pow10((s - e) as nat);
                assert(m as nat * pw >= 1 * pw) by (nonlinear_arith)
                    requires
                        m >= 1,
                        pw >= 0,
                ;
            }
            None
        },
    }
}

/// Parses the IDF artifact. Fails fast on the first malformed row; a
/// successful load yields exactly the table the rows denote.
pub fn get_idf(text: &str) -> (r: Result<IdfTable, LoadError>)
    ensures
        ({
            let rows = data_rows(text@);
            match r {
                Ok(t) => {
                    &&& idf_rows_ok(rows)
                    &&& idf_fits(rows, idf_scale(rows))
                    &&& t.scale as nat == idf_scale(rows)
                    &&& t.entries.deep_view() == idf_entries(rows, idf_scale(rows))
                },
                Err(e) => {
                    &&& !(idf_rows_ok(rows) && idf_fits(rows, idf_scale(rows)))
                    &&& (e is MissingField || e is BadWeight || e is WeightOverflow)
                    &&& (e is MissingField ==> exists|i: int|
                        0 <= i < rows.len() && row_fields(#[trigger] rows[i]).len() < 3)
                    &&& (e is BadWeight ==> exists|i: int|
                        0 <= i < rows.len() && !idf_row_ok(#[trigger] rows[i]) && row_fields(
                            rows[i],
                        ).len() >= 3)
                    &&& (e is WeightOverflow ==> exists|i: int|
                        0 <= i < rows.len() && scale_to(
                            idf_row_dec(#[trigger] rows[i]).0,
                            idf_row_dec(rows[i]).1,
                            idf_scale(rows),
                        ) > u64::MAX)
                },
            }
        }),
{
    let lines = split_lines(text);
    let ghost rows = data_rows(text@);
    let nl = lines.len();
    if nl < 2 {
        proof {
            assert(rows =~= Seq::<Seq<char>>::empty());
            assert(idf_entries(rows, 0) =~= Seq::<(Seq<char>, nat)>::empty());
        }
        return Ok(IdfTable { entries: Vec::new(), scale: 0 });
    }
    proof {
        assert(rows =~= lines.deep_view().skip(2));
    }
    let mut maxe: usize = 0;
    let mut i: usize = 2;
    while i < nl
        invariant
            2 <= i <= nl,
            nl == lines.len(),
            rows == data_rows(text@),
            rows == lines.deep_view().skip(2),
            forall|j: int| 0 <= j < i - 2 ==> idf_row_ok(#[trigger] rows[j]),
            maxe as nat == idf_scale(rows.take(i - 2)),
        decreases nl - i,
    {
        proof {
            assert(rows[i - 2] == lines.deep_view()[i as int]);
        }
        match parse_idf_row(lines[i].as_str()) {
            Ok(p) => {
                proof {
                    assert(rows.take(i - 1).drop_last() =~= rows.take(i - 2));
                    assert(rows.take(i - 1).last() == rows[i - 2]);
                }
                if p.2 > maxe {
                    maxe = p.2;
                }
            },
            Err(e) => {
                proof {
                    assert(!idf_row_ok(rows[i - 2]));
                    assert(!idf_rows_ok(rows));
                    if e is MissingField {
                        assert(row_fields(rows[i - 2]).len() < 3);
                    } else {
                        assert(!idf_row_ok(rows[i - 2]) && row_fields(rows[i - 2]).len() >= 3);
                    }
                }
                return Err(e);
            },
        }
        i += 1;
    }
    proof {
        assert(rows.take(nl - 2) =~= rows);
    }
    let mut entries: Vec<WeightEntry> = Vec::new();
    let mut k: usize = 2;
    proof {
        assert(entries.deep_view() =~= Seq::<(Seq<char>, nat)>::empty());
        assert(idf_entries(rows.take(0), maxe as nat) =~= Seq::<(Seq<char>, nat)>::empty());
    }
    while k < nl
        invariant
            2 <= k <= nl,
            nl == lines.len(),
            rows == data_rows(text@),
            rows == lines.deep_view().skip(2),
            idf_rows_ok(rows),
            maxe as nat == idf_scale(rows),
            forall|j: int|
                0 <= j < k - 2 ==> scale_to(
                    idf_row_dec(#[trigger] rows[j]).0,
                    idf_row_dec(rows[j]).1,
                    maxe as nat,
                ) <= u64::MAX,
            entries.deep_view() == idf_entries(rows.take(k - 2), maxe as nat),
        decreases nl - k,
    {
        proof {
            assert(rows[k - 2] == lines.deep_view()[k as int]);
        }
        match parse_idf_row(lines[k].as_str()) {
            Ok(p) => {
                proof {
                    lemma_idf_scale_ge(rows, k - 2);
                }
                match scale_value(p.1, p.2, maxe) {
                    Option::Some(v) => {
                        upsert_weight(&mut entries, p.0, v);
                        proof {
                            assert(rows.take(k - 1).drop_last() =~= rows.take(k - 2));
                            assert(rows.take(k - 1).last() == rows[k - 2]);
                        }
                    },
                    Option::None => {
                        proof {
                            assert(scale_to(
                                idf_row_dec(rows[k - 2]).0,
                                idf_row_dec(rows[k - 2]).1,
                                maxe as nat,
                            ) > u64::MAX);
                            assert(!idf_fits(rows, idf_scale(rows)));
                        }
                        return Err(LoadError::WeightOverflow);
                    },
                }
            },
            Err(_) => {
                return Err(LoadError::BadWeight);
            },
        }
        k += 1;
    }
    proof {
        assert(rows.take(nl - 2) =~= rows);
    }
    Ok(IdfTable { entries, scale: maxe })
}

/// The weight fields of a matrix row: everything after the term field,
/// with raw-empty padding fields dropped (they are artifact padding, not
/// zero entries).
pub open spec fn kept_vals(fs: Seq<Seq<char>>) -> Seq<Seq<char>>
    decreases fs.len(),
{
    if fs.len() == 0 {
        Seq::empty()
    } else if fs.last().len() != 0 {
        kept_vals(fs.drop_last()).push(fs.last())
    } else {
        kept_vals(fs.drop_last())
    }
}

/// Splitting a field list anywhere splits its kept values the same way.
proof fn lemma_kept_vals_prefix(fs: Seq<Seq<char>>, j: int)
    requires
        0 <= j <= fs.len(),
    ensures
        kept_vals(fs) =~= kept_vals(fs.take(j)).add(kept_vals(fs.skip(j))),
    decreases fs.len() - j,
{
    if j == fs.len() {
        assert(fs.take(j) =~= fs);
        assert(kept_vals(fs.skip(j)) =~= Seq::<Seq<char>>::empty());
    } else {
        lemma_kept_vals_prefix(fs, j + 1);
        assert(fs.take(j + 1).drop_last() =~= fs.take(j));
        assert(fs.take(j + 1).last() == fs[j]);
        assert(fs.skip(j).drop_first() =~= fs.skip(j + 1));
        let tail = fs.skip(j);
        if tail.len() > 0 {
            lemma_kept_vals_first(tail);
        }
    }
}

/// Peels the first field off a kept-value computation.
proof fn lemma_kept_vals_first(fs: Seq<Seq<char>>)
    requires
        fs.len() > 0,
    ensures
        kept_vals(fs) =~= (if fs[0].len() != 0 {
            seq![fs[0]].add(kept_vals(fs.drop_first()))
        } else {
            kept_vals(fs.drop_first())
        }),
    decreases fs.len(),
{
    if fs.len() == 1 {
        assert(fs.drop_last() =~= Seq::<Seq<char>>::empty());
        assert(fs.drop_first() =~= Seq::<Seq<char>>::empty());
        assert(fs.last() == fs[0]);
    } else {
        lemma_kept_vals_first(fs.drop_last());
        assert(fs.drop_last()[0] == fs[0]);
        assert(fs.drop_last().drop_first() =~= fs.drop_first().drop_last());
        assert(fs.drop_first().last() == fs.last());
    }
}

/// One weight field is readable and fits a machine word.
pub open spec fn mat_val_ok(v: Seq<char>) -> bool {
    &&& dec_of(trimmed(v)) is Some
    &&& dec_of(trimmed(v)).unwrap().0 <= u64::MAX
}

pub open spec fn mat_row_vals(row: Seq<char>) -> Seq<Seq<char>> {
    if row_fields(row).len() >= 2 {
        kept_vals(row_fields(row).skip(2))
    } else {
        Seq::empty()
    }
}

/// A matrix data row holds a term at field 1 and readable weights after it.
pub open spec fn mat_row_ok(row: Seq<char>) -> bool {
    &&& row_fields(row).len() >= 2
    &&& forall|k: int| 0 <= k < mat_row_vals(row).len() ==> mat_val_ok(#[trigger] mat_row_vals(row)[k])
}

pub open spec fn mat_row_term(row: Seq<char>) -> Seq<char> {
    trimmed(row_fields(row)[1])
}

pub open spec fn mat_row_dec(row: Seq<char>, k: int) -> (nat, nat) {
    dec_of(trimmed(mat_row_vals(row)[k])).unwrap()
}

pub open spec fn mat_rows_ok(rows: Seq<Seq<char>>) -> bool {
    forall|i: int| 0 <= i < rows.len() ==> mat_row_ok(#[trigger] rows[i])
}

/// The largest fractional width among a row's weights.
pub open spec fn decs_scale(vs: Seq<Seq<char>>) -> nat
    decreases vs.len(),
{
    if vs.len() == 0 {
        0
    } else {
        let r = decs_scale(vs.drop_last());
        let e = dec_of(trimmed(vs.last())).unwrap().1;
        if e > r {
            e
        } else {
            r
        }
    }
}

/// The common denominator exponent of the whole matrix.
pub open spec fn mat_scale(rows: Seq<Seq<char>>) -> nat
    decreases rows.len(),
{
    if rows.len() == 0 {
        0
    } else {
        let r = mat_scale(rows.drop_last());
        let e = decs_scale(mat_row_vals(rows.last()));
        if e > r {
            e
        } else {
            r
        }
    }
}

pub open spec fn mat_fits(rows: Seq<Seq<char>>, s: nat) -> bool {
    forall|i: int, k: int|
        0 <= i < rows.len() && 0 <= k < mat_row_vals(#[trigger] rows[i]).len() ==> scale_to(
            mat_row_dec(rows[i], k).0,
            #[trigger] mat_row_dec(rows[i], k).1,
            s,
        ) <= u64::MAX
}

/// A row's weights, put over the matrix's common denominator.
pub open spec fn mat_row_scaled(row: Seq<char>, s: nat) -> Seq<nat> {
    Seq::new(
        mat_row_vals(row).len(),
        |k: int| scale_to(mat_row_dec(row, k).0, mat_row_dec(row, k).1, s),
    )
}

/// The matrix the data rows denote, a later row for a term replacing the
/// earlier one.
pub open spec fn mat_entries(rows: Seq<Seq<char>>, s: nat) -> Seq<(Seq<char>, Seq<nat>)>
    decreases rows.len(),
{
    if rows.len() == 0 {
        Seq::empty()
    } else {
        upsert(
            mat_entries(rows.drop_last(), s),
            mat_row_term(rows.last()),
            mat_row_scaled(rows.last(), s),
        )
    }
}

pub proof fn lemma_decs_scale_ge(vs: Seq<Seq<char>>, k: int)
    requires
        0 <= k < vs.len(),
    ensures
        dec_of(trimmed(vs[k])).unwrap().1 <= decs_scale(vs),
    decreases vs.len(),
{
    if k < vs.len() - 1 {
        lemma_decs_scale_ge(vs.drop_last(), k);
    }
}

pub proof fn lemma_mat_scale_ge(rows: Seq<Seq<char>>, i: int)
    requires
        0 <= i < rows.len(),
    ensures
        decs_scale(mat_row_vals(rows[i])) <= mat_scale(rows),
    decreases rows.len(),
{
    if i < rows.len() - 1 {
        lemma_mat_scale_ge(rows.drop_last(), i);
    }
}

/// The TF-IDF term-document matrix: per term, one scaled weight per
/// document ordinal. Weights share the denominator 10^scale.
pub struct TfIdfMatrix {
    pub entries: Vec<RowEntry>,
    pub scale: usize,
}

/// Reads one matrix data row: its term, and each weight as mantissa and
/// fractional width, along with the row's largest fractional width.
fn parse_mat_row(line: &str) -> (r: Result<(String, Vec<u64>, Vec<usize>, usize), LoadError>)
    ensures
        match r {
            Ok(p) => {
                &&& mat_row_ok(line@)
                &&& p.0@ == mat_row_term(line@)
                &&& p.1@.len() == mat_row_vals(line@).len()
                &&& p.2@.len() == mat_row_vals(line@).len()
                &&& forall|k: int|
                    0 <= k < p.1@.len() ==> (#[trigger] p.1@[k] as nat, p.2@[k] as nat)
                        == mat_row_dec(line@, k)
                &&& p.3 as nat == decs_scale(mat_row_vals(line@))
            },
            Err(e) => !mat_row_ok(line@) && (e is MissingField || e is BadWeight) && (
            e is MissingField <==> row_fields(line@).len() < 2),
        },
{
    let fields = split_str(line, '|');
    if fields.len() < 2 {
        return Err(LoadError::MissingField);
    }
    let term = trim_str(fields[1].as_str());
    let ghost all = row_fields(line@).skip(2);
    let mut ms: Vec<u64> = Vec::new();
    let mut es: Vec<usize> = Vec::new();
    let mut emax: usize = 0;
    let mut k: usize = 2;
    proof {
        assert(all.take(0) =~= Seq::<Seq<char>>::empty());
    }
    while k < fields.len()
        invariant
            2 <= k <= fields.len(),
            fields.deep_view() == row_fields(line@),
            row_fields(line@).len() >= 2,
            all == row_fields(line@).skip(2),
            ms@.len() == kept_vals(all.take(k - 2)).len(),
            es@.len() == ms@.len(),
            forall|y: int|
                0 <= y < ms@.len() ==> mat_val_ok(#[trigger] kept_vals(all.take(k - 2))[y])
                    && dec_of(trimmed(kept_vals(all.take(k - 2))[y])).unwrap() == (
                ms@[y] as nat,
                es@[y] as nat,
                ),
            emax as nat == decs_scale(kept_vals(all.take(k - 2))),
        decreases fields.len() - k,
    {
        let ghost vs = kept_vals(all.take(k - 2));
        proof {
            assert(all[k - 2] == row_fields(line@)[k as int]);
            assert(all.take(k - 1).drop_last() =~= all.take(k - 2));
            assert(all.take(k - 1).last() == all[k - 2]);
        }
        let f = fields[k].as_str();
        if f.unicode_len() > 0 {
            proof {
                assert(kept_vals(all.take(k - 1)) =~= vs.push(all[k - 2]));
                assert(kept_vals(all.take(k - 1)).drop_last() =~= vs);
                assert(kept_vals(all.take(k - 1)).last() == all[k - 2]);
            }
            let t = trim_str(f);
            match parse_weight(t.as_str()) {
                Option::Some(p) => {
                    ms.push(p.0);
                    es.push(p.1);
                    if p.1 > emax {
                        emax = p.1;
                    }
                },
                Option::None => {
                    proof {
                        lemma_kept_vals_prefix(all, k - 1);
                        let vals = mat_row_vals(line@);
                        assert(vals == kept_vals(all));
                        assert(vals[vs.len() as int] == all[k - 2]);
                        assert(!mat_val_ok(vals[vs.len() as int]));
                    }
                    return Err(LoadError::BadWeight);
                },
            }
        } else {
            proof {
                assert(kept_vals(all.take(k - 1)) =~= vs);
            }
        }
        k += 1;
    }
    proof {
        assert(all.take(fields.len() - 2) =~= all);
    }
    Ok((term, ms, es, emax))
}

/// Replaces or appends the row for `term` in a matrix being built.
fn upsert_row(entries: &mut Vec<RowEntry>, term: String, values: Vec<u64>)
    ensures
        final (entries).deep_view() == upsert(
            old(entries).deep_view(),
            term@,
            values@.map_values(|v: u64| v as nat),
        ),
{
    let ghost es = entries.deep_view();
    let ghost w = values@.map_values(|v: u64| v as nat);
    let mut j: usize = 0;
    while j < entries.len()
        invariant
            j <= entries.len(),
            es == entries.deep_view(),
            es == old(entries).deep_view(),
            w == values@.map_values(|v: u64| v as nat),
            forall|i: int| 0 <= i < j ==> es[i].0 != term@,
        decreases entries.len() - j,
    {
        if entries[j].term == term {
            entries.set(j, RowEntry { term, values });
            proof {
                lemma_upsert_skip(es, term@, w, j as int);
                assert(es.skip(j as int)[0].0 == term@);
                assert(es.skip(j as int).drop_first() =~= es.skip(j + 1));
                assert(upsert(es.skip(j as int), term@, w) =~= seq![(term@, w)].add(
                    es.skip(j + 1),
                ));
                assert(entries.deep_view() =~= es.take(j as int).add(
                    seq![(term@, w)].add(es.skip(j + 1)),
                ));
                assert(entries.deep_view() =~~= upsert(es, term@, w));
            }
            return ;
        }
        j += 1;
    }
    entries.push(RowEntry { term, values });
    proof {
        lemma_upsert_skip(es, term@, w, es.len() as int);
        assert(es.skip(es.len() as int) =~= Seq::<(Seq<char>, Seq<nat>)>::empty());
        assert(entries.deep_view() =~= es.take(es.len() as int).add(seq![(term@, w)]));
        assert(es.take(es.len() as int) =~= es);
    }
}

/// Parses the TF-IDF matrix artifact, fail-fast like the IDF one.
pub fn get_tf_idf(text: &str) -> (r: Result<TfIdfMatrix, LoadError>)
    ensures
        ({
            let rows = data_rows(text@);
            match r {
                Ok(t) => {
                    &&& mat_rows_ok(rows)
                    &&& mat_fits(rows, mat_scale(rows))
                    &&& t.scale as nat == mat_scale(rows)
                    &&& t.entries.deep_view() == mat_entries(rows, mat_scale(rows))
                },
                Err(e) => {
                    &&& !(mat_rows_ok(rows) && mat_fits(rows, mat_scale(rows)))
                    &&& (e is MissingField || e is BadWeight || e is WeightOverflow)
                    &&& (e is MissingField ==> exists|i: int|
                        0 <= i < rows.len() && row_fields(#[trigger] rows[i]).len() < 2)
                    &&& (e is BadWeight ==> exists|i: int|
                        0 <= i < rows.len() && !mat_row_ok(#[trigger] rows[i]) && row_fields(
                            rows[i],
                        ).len() >= 2)
                    &&& (e is WeightOverflow ==> exists|i: int, k: int|
                        0 <= i < rows.len() && 0 <= k < mat_row_vals(#[trigger] rows[i]).len()
                            && scale_to(
                            mat_row_dec(rows[i], k).0,
                            #[trigger] mat_row_dec(rows[i], k).1,
                            mat_scale(rows),
                        ) > u64::MAX)
                },
            }
        }),
{
    let lines = split_lines(text);
    let ghost rows = data_rows(text@);
    let nl = lines.len();
    if nl < 2 {
        proof {
            assert(rows =~= Seq::<Seq<char>>::empty());
            assert(mat_entries(rows, 0) =~= Seq::<(Seq<char>, Seq<nat>)>::empty());
        }
        return Ok(TfIdfMatrix { entries: Vec::new(), scale: 0 });
    }
    proof {
        assert(rows =~= lines.deep_view().skip(2));
    }
    let mut maxe: usize = 0;
    let mut i: usize = 2;
    while i < nl
        invariant
            2 <= i <= nl,
            nl == lines.len(),
            rows == data_rows(text@),
            rows == lines.deep_view().skip(2),
            forall|j: int| 0 <= j < i - 2 ==> mat_row_ok(#[trigger] rows[j]),
            maxe as nat == mat_scale(rows.take(i - 2)),
        decreases nl - i,
    {
        proof {
            assert(rows[i - 2] == lines.deep_view()[i as int]);
        }
        match parse_mat_row(lines[i].as_str()) {
            Ok(p) => {
                proof {
                    assert(rows.take(i - 1).drop_last() =~= rows.take(i - 2));
                    assert(rows.take(i - 1).last() == rows[i - 2]);
                }
                if p.3 > maxe {
                    maxe = p.3;
                }
            },
            Err(e) => {
                proof {
                    assert(!mat_row_ok(rows[i - 2]));
                    assert(!mat_rows_ok(rows));
                    if e is MissingField {
                        assert(row_fields(rows[i - 2]).len() < 2);
                    } else {
                        assert(!mat_row_ok(rows[i - 2]) && row_fields(rows[i - 2]).len() >= 2);
                    }
                }
                return Err(e);
            },
        }
        i += 1;
    }
    proof {
        assert(rows.take(nl - 2) =~= rows);
    }
    let mut entries: Vec<RowEntry> = Vec::new();
    let mut k: usize = 2;
    proof {
        assert(entries.deep_view() =~= Seq::<(Seq<char>, Seq<nat>)>::empty());
        assert(mat_entries(rows.take(0), maxe as nat) =~= Seq::<(Seq<char>, Seq<nat>)>::empty());
    }
    while k < nl
        invariant
            2 <= k <= nl,
            nl == lines.len(),
            rows == data_rows(text@),
            rows == lines.deep_view().skip(2),
            mat_rows_ok(rows),
            maxe as nat == mat_scale(rows),
            forall|j: int, y: int|
                0 <= j < k - 2 && 0 <= y < mat_row_vals(#[trigger] rows[j]).len() ==> scale_to(
                    mat_row_dec(rows[j], y).0,
                    #[trigger] mat_row_dec(rows[j], y).1,
                    maxe as nat,
                ) <= u64::MAX,
            entries.deep_view() == mat_entries(rows.take(k - 2), maxe as nat),
        decreases nl - k,
    {
        proof {
            assert(rows[k - 2] == lines.deep_view()[k as int]);
        }
        match parse_mat_row(lines[k].as_str()) {
            Ok(p) => {
                let (term, ms, es, _emax) = p;
                let ghost row = rows[k - 2];
                proof {
                    lemma_mat_scale_ge(rows, k - 2);
                }
                let mut values: Vec<u64> = Vec::new();
                let mut x: usize = 0;
                while x < ms.len()
                    invariant
                        x <= ms.len(),
                        rows == data_rows(text@),
                        maxe as nat == mat_scale(rows),
                        0 <= k - 2 < rows.len(),
                        row == rows[k - 2],
                        mat_row_ok(row),
                        ms@.len() == mat_row_vals(row).len(),
                        es@.len() == ms@.len(),
                        forall|y: int|
                            0 <= y < ms@.len() ==> (#[trigger] ms@[y] as nat, es@[y] as nat)
                                == mat_row_dec(row, y),
                        decs_scale(mat_row_vals(row)) <= maxe as nat,
                        values@.len() == x,
                        forall|y: int|
                            0 <= y < x ==> #[trigger] values@[y] as nat == scale_to(
                                mat_row_dec(row, y).0,
                                mat_row_dec(row, y).1,
                                maxe as nat,
                            ),
                    decreases ms.len() - x,
                {
                    proof {
                        lemma_decs_scale_ge(mat_row_vals(row), x as int);
                    }
                    match scale_value(ms[x], es[x], maxe) {
                        Option::Some(v) => {
                            values.push(v);
                        },
                        Option::None => {
                            proof {
                                assert(scale_to(
                                    mat_row_dec(rows[k - 2], x as int).0,
                                    mat_row_dec(rows[k - 2], x as int).1,
                                    maxe as nat,
                                ) > u64::MAX);
                                assert(!mat_fits(rows, mat_scale(rows)));
                            }
                            return Err(LoadError::WeightOverflow);
                        },
                    }
                    x += 1;
                }
                proof {
                    assert(values@.map_values(|v: u64| v as nat) =~= mat_row_scaled(
                        row,
                        maxe as nat,
                    ));
                    assert forall|y: int| 0 <= y < mat_row_vals(row).len() implies scale_to(
                        mat_row_dec(row, y).0,
                        #[trigger] mat_row_dec(row, y).1,
                        maxe as nat,
                    ) <= u64::MAX by {
                        assert(values@[y] as nat == scale_to(
                            mat_row_dec(row, y).0,
                            mat_row_dec(row, y).1,
                            maxe as nat,
                        ));
                    }
                }
                upsert_row(&mut entries, term, values);
                proof {
                    assert(rows.take(k - 1).drop_last() =~= rows.take(k - 2));
                    assert(rows.take(k - 1).last() == rows[k - 2]);
                }
            },
            Err(_) => {
                return Err(LoadError::BadWeight);
            },
        }
        k += 1;
    }
    proof {
        assert(rows.take(nl - 2) =~= rows);
    }
    Ok(TfIdfMatrix { entries, scale: maxe })
}

/// Parses the document index artifact: one document identifier per line,
/// the line's position being the document's ordinal.
pub fn get_index(text: &str) -> (r: Vec<String>)
    ensures
        r.deep_view() == lines_of(text@),
{
    split_lines(text)
}

/// The three artifact tables, validated to agree: every matrix row holds
/// exactly one weight per indexed document.
pub struct Corpus {
    pub idf: IdfTable,
    pub matrix: TfIdfMatrix,
    pub index: Vec<String>,
}

impl Corpus {
    /// Every matrix row's weight count equals the document count.
    pub open spec fn wf(self) -> bool {
        forall|i: int|
            0 <= i < self.matrix.entries.deep_view().len()
                ==> (#[trigger] self.matrix.entries.deep_view()[i]).1.len()
                == self.index.deep_view().len()
    }
}

/// A successfully parsed IDF artifact.
pub open spec fn idf_load_ok(text: Seq<char>) -> bool {
    idf_rows_ok(data_rows(text)) && idf_fits(data_rows(text), idf_scale(data_rows(text)))
}

/// A successfully parsed matrix artifact.
pub open spec fn mat_load_ok(text: Seq<char>) -> bool {
    mat_rows_ok(data_rows(text)) && mat_fits(data_rows(text), mat_scale(data_rows(text)))
}

/// Matrix and index agree count-for-count.
pub open spec fn lens_ok(mat_text: Seq<char>, index_text: Seq<char>) -> bool {
    forall|i: int|
        0 <= i < mat_entries(data_rows(mat_text), mat_scale(data_rows(mat_text))).len()
            ==> (#[trigger] mat_entries(data_rows(mat_text), mat_scale(data_rows(mat_text)))[i]).1.len()
            == lines_of(index_text).len()
}

/// Loads and validates the whole corpus snapshot, fail-fast: a structural
/// mismatch between matrix and index aborts the load.
pub fn load_corpus(idf_text: &str, mat_text: &str, index_text: &str) -> (r: Result<
    Corpus,
    LoadError,
>)
    ensures
        match r {
            Ok(c) => {
                &&& idf_load_ok(idf_text@)
                &&& mat_load_ok(mat_text@)
                &&& lens_ok(mat_text@, index_text@)
                &&& c.idf.scale as nat == idf_scale(data_rows(idf_text@))
                &&& c.idf.entries.deep_view() == idf_entries(
                    data_rows(idf_text@),
                    idf_scale(data_rows(idf_text@)),
                )
                &&& c.matrix.scale as nat == mat_scale(data_rows(mat_text@))
                &&& c.matrix.entries.deep_view() == mat_entries(
                    data_rows(mat_text@),
                    mat_scale(data_rows(mat_text@)),
                )
                &&& c.index.deep_view() == lines_of(index_text@)
                &&& c.wf()
            },
            Err(e) => {
                &&& (e is LengthMismatch ==> idf_load_ok(idf_text@) && mat_load_ok(mat_text@)
                    && !lens_ok(mat_text@, index_text@))
                &&& (!(e is LengthMismatch) ==> !idf_load_ok(idf_text@) || !mat_load_ok(
                    mat_text@,
                ))
            },
        },
{
    let idf = match get_idf(idf_text) {
        Ok(t) => t,
        Err(e) => {
            return Err(e);
        },
    };
    let matrix = match get_tf_idf(mat_text) {
        Ok(t) => t,
        Err(e) => {
            return Err(e);
        },
    };
    let index = get_index(index_text);
    let n = index.len();
    let mut i: usize = 0;
    while i < matrix.entries.len()
        invariant
            i <= matrix.entries.len(),
            n == index.deep_view().len(),
            idf_load_ok(idf_text@),
            mat_load_ok(mat_text@),
            idf.scale as nat == idf_scale(data_rows(idf_text@)),
            idf.entries.deep_view() == idf_entries(
                data_rows(idf_text@),
                idf_scale(data_rows(idf_text@)),
            ),
            matrix.scale as nat == mat_scale(data_rows(mat_text@)),
            matrix.entries.deep_view() == mat_entries(
                data_rows(mat_text@),
                mat_scale(data_rows(mat_text@)),
            ),
            index.deep_view() == lines_of(index_text@),
            forall|j: int|
                0 <= j < i ==> (#[trigger] matrix.entries.deep_view()[j]).1.len() == n,
        decreases matrix.entries.len() - i,
    {
        if matrix.entries[i].values.len() != n {
            proof {
                assert(matrix.entries.deep_view()[i as int].1.len() != n);
                assert(!lens_ok(mat_text@, index_text@));
            }
            return Err(LoadError::LengthMismatch);
        }
        i += 1;
    }
    Ok(Corpus { idf, matrix, index })
}

} // verus!
