//! Sheets as CSV bytes: reading a file's bytes into a sheet, and the bytes that saving writes.
use vstd::prelude::*;
use crate::formula::{text_fits, text_fits_exec};
use crate::sheet::{records_view, Spreadsheet};

verus! {

/// The records that the csv crate reads from `bytes` (no header row, every record of the
/// same length), the first `limit` of them; `None` when it reports an error among those.
pub uninterp spec fn csv_read(bytes: Seq<u8>, limit: nat) -> Option<Seq<Seq<Seq<char>>>>;

/// The bytes that the csv crate writes for `recs` (no header row).
pub uninterp spec fn csv_written(recs: Seq<Seq<Seq<char>>>) -> Seq<u8>;

/// Calls csv's `ReaderBuilder::new().has_headers(false).from_reader(bytes)` and reads the
/// first `limit` records, each field as a `String`. The claim: the result is a function of
/// the bytes and the limit (`csv_read`), `None` exactly when the reader reports an error.
#[verifier::external_body]
fn read_csv_records(bytes: &[u8], limit: usize) -> (r: Option<Vec<Vec<String>>>)
    ensures
        match r {
            Some(v) => csv_read(bytes@, limit as nat) == Some(records_view(v@)),
            None => csv_read(bytes@, limit as nat) is None,
        },
{
    let mut rdr = csv::ReaderBuilder::new().has_headers(false).from_reader(bytes);
    rdr.records()
        .take(limit)
        .map(|rec| rec.map(|fields| fields.iter().map(|f| f.to_string()).collect()))
        .collect::<Result<Vec<Vec<String>>, csv::Error>>()
        .ok()
}

/// Calls csv's `WriterBuilder::new().has_headers(false).from_writer(Vec::new())`, writes each
/// record with `write_record` and takes the bytes with `into_inner`. The claim: the bytes
/// are a function of the records (`csv_written`); and the writer, which fails only on
/// records of unequal lengths or on an error of the underlying writer (a `Vec` has none),
/// gives bytes whenever all records have the same length.
#[verifier::external_body]
fn write_csv_records(recs: &Vec<Vec<String>>) -> (b: Option<Vec<u8>>)
    ensures
        b matches Some(b) ==> b@ == csv_written(records_view(recs@)),
        (forall|i: int, j: int| 0 <= i < recs.len() && 0 <= j < recs.len() ==> recs@[i].len() == recs@[j].len())
            ==> b is Some,
{
    let mut wtr = csv::WriterBuilder::new().has_headers(false).from_writer(Vec::new());
    for record in recs {
        if wtr.write_record(record).is_err() {
            return None;
        }
    }
    wtr.into_inner().ok()
}

/// Every text of `recs` that lands in a grid of `rows` × `cols` can be read without a column
/// number overflowing.
pub open spec fn records_fit(recs: Seq<Seq<Seq<char>>>, rows: nat, cols: nat) -> bool {
    forall|i: int, j: int| 0 <= i < recs.len() && i < rows && 0 <= j < recs[i].len() && j < cols
        ==> text_fits(#[trigger] recs[i][j])
}

fn records_fit_exec(recs: &Vec<Vec<String>>, rows: usize, cols: usize) -> (b: bool)
    ensures
        b == records_fit(records_view(recs@), rows as nat, cols as nat),
{
    let ghost v = records_view(recs@);
    let mut i: usize = 0;
    while i < recs.len() && i < rows
        invariant
            v == records_view(recs@),
            i <= recs.len(),
            forall|a: int, c: int| 0 <= a < i && a < rows && 0 <= c < v[a].len() && c < cols ==> text_fits(#[trigger] v[a][c]),
        decreases recs.len() - i,
    {
        let row = &recs[i];
        proof {
            assert(v[i as int].len() == row.len());
        }
        let mut j: usize = 0;
        while j < row.len() && j < cols
            invariant
                v == records_view(recs@),
                i < recs.len(),
                i < rows,
                *row == recs@[i as int],
                v[i as int].len() == row.len(),
                j <= row.len(),
                forall|a: int, c: int| 0 <= a < i && a < rows && 0 <= c < v[a].len() && c < cols ==> text_fits(#[trigger] v[a][c]),
                forall|c: int| 0 <= c < j ==> text_fits(#[trigger] v[i as int][c]),
            decreases row.len() - j,
        {
            proof {
                assert(v[i as int][j as int] == row@[j as int]@);
            }
            if !text_fits_exec(row[j].as_str()) {
                proof {
                    assert(!text_fits(v[i as int][j as int]));
                }
                return false;
            }
            j = j + 1;
        }
        i = i + 1;
    }
    true
}

impl Spreadsheet {
    /// A sheet of `max_rows` × `max_cols` read from the CSV bytes of a file (see
    /// [`Spreadsheet::from_records`]), with the circular cells of its rebuilt graph; `None`
    /// when the csv reader reports an error or a text in the grid has column letters that do
    /// not fit in `usize`.
    pub fn load_csv_bytes(bytes: &[u8], max_rows: usize, max_cols: usize, path: Option<String>)
        -> (r: Option<(Spreadsheet, Vec<(usize, usize)>)>)
        requires
            max_rows * max_cols <= usize::MAX,
        ensures
            r is Some <==> (csv_read(bytes@, max_rows as nat) matches Some(recs)
                && records_fit(recs, max_rows as nat, max_cols as nat)),
            r matches Some((s, c)) ==> {
                &&& csv_read(bytes@, max_rows as nat) matches Some(recs) && s.loaded_from(recs)
                &&& s.rows() == max_rows
                &&& s.cols() == max_cols
                &&& s.path() == match path { Some(p) => Some(p@), None => None::<Seq<char>> }
                &&& s.rebuilt_with(c@)
            },
    {
        let recs = match read_csv_records(bytes, max_rows) {
            Some(recs) => recs,
            None => return None,
        };
        if !records_fit_exec(&recs, max_rows, max_cols) {
            return None;
        }
        let ghost v = records_view(recs@);
        proof {
            assert forall|i: int, j: int| 0 <= i < recs.len() && i < max_rows && 0 <= j < recs@[i].len() && j < max_cols
                implies text_fits(#[trigger] recs@[i]@[j]@) by {
                assert(v[i].len() == recs@[i].len());
                assert(v[i][j] == recs@[i]@[j]@);
            }
        }
        Some(Spreadsheet::from_records(recs, max_rows, max_cols, path))
    }

    /// The CSV bytes that saving writes: the used rectangle of the sheet, as the csv crate
    /// writes it.
    pub fn csv_bytes(&self) -> (b: Vec<u8>)
        requires
            self.wf(),
            self.rows() >= 1,
            self.cols() >= 1,
        ensures
            b@ == csv_written(self.saved_records()),
    {
        let recs = self.csv_records();
        proof {
            let v = records_view(recs@);
            assert(v =~= self.saved_records()) by {
                assert forall|r: int| 0 <= r < v.len() implies #[trigger] v[r] =~= self.saved_records()[r] by {}
            }
            assert forall|i: int, j: int| 0 <= i < recs.len() && 0 <= j < recs.len() implies recs@[i].len() == recs@[j].len() by {
                assert(v[i].len() == recs@[i].len());
                assert(v[j].len() == recs@[j].len());
            }
        }
        match write_csv_records(&recs) {
            Some(b) => b,
            None => Vec::new(),
        }
    }

    /// Saving then reading the file back, when the csv reader gives back the records that
    /// its writer wrote, loads every cell of the grid as it was.
    pub proof fn law_file_round_trip(s: &Spreadsheet, t: &Spreadsheet, bytes: Seq<u8>)
        requires
            s.wf(),
            s.rows() >= 1,
            s.cols() >= 1,
            bytes == csv_written(s.saved_records()),
            csv_read(bytes, s.rows()) == Some(s.saved_records()),
            t.rows() == s.rows(),
            t.cols() == s.cols(),
            t.loaded_from(s.saved_records()),
        ensures
            forall|r: int, c: int| 0 <= r < s.rows() && 0 <= c < s.cols() ==> #[trigger] t.raw(r, c) == s.raw(r, c),
    {
        s.lemma_saved_records();
        Spreadsheet::law_save_then_load(s, s.saved_records(), t);
    }
}

} // verus!
