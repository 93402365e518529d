//! Reading configuration and the assembly of parsed rows into containers.
//!
//! The reader takes a whole byte stream already in memory, splits it into
//! physical lines at the configured line-delimiter byte, feeds each line to
//! the parser, and builds a container from the logical rows.

use vstd::prelude::*;
use crate::chars::{display_width, is_blank, spec_trim, string_from_chars, trim_chars};
use crate::column::ColumnModel;
use crate::error::{DcsvError, DcsvResult};
use crate::parser::{
    normalize_crlf, spec_feed, utf8_decode, utf8_decode_lossy, Parser, ParserModel,
};
use crate::value::{val_width, LimiterModel, Value, ValueModel, ValueType};
use crate::virtual_array::VirtualArray;
use crate::virtual_data::{col_max_width, VirtualData};

verus! {

/// The mathematical content of a reader option set.
pub ghost struct ReadOptModel {
    pub trim: bool,
    pub read_header: bool,
    pub consume_dquote: bool,
    pub custom_header: Seq<Seq<char>>,
    pub delimiter: Option<char>,
    pub line_delimiter: Option<char>,
    pub ignore_empty_row: bool,
    pub allow_invalid_string: bool,
}

/// Reader behaviour options.
pub struct ReaderOption {
    pub trim: bool,
    pub read_header: bool,
    pub consume_dquote: bool,
    pub custom_header: Vec<String>,
    pub delimiter: Option<char>,
    pub line_delimiter: Option<char>,
    pub ignore_empty_row: bool,
    pub allow_invalid_string: bool,
}

impl View for ReaderOption {
    type V = ReadOptModel;

    open spec fn view(&self) -> ReadOptModel {
        ReadOptModel {
            trim: self.trim,
            read_header: self.read_header,
            consume_dquote: self.consume_dquote,
            custom_header: self.custom_header@.map_values(|s: String| s@),
            delimiter: self.delimiter,
            line_delimiter: self.line_delimiter,
            ignore_empty_row: self.ignore_empty_row,
            allow_invalid_string: self.allow_invalid_string,
        }
    }
}

/// The default option set: a comma-separated file with a header row.
pub open spec fn default_options() -> ReadOptModel {
    ReadOptModel {
        trim: false,
        read_header: true,
        consume_dquote: false,
        custom_header: Seq::empty(),
        delimiter: None,
        line_delimiter: None,
        ignore_empty_row: false,
        allow_invalid_string: false,
    }
}

impl ReaderOption {
    /// The default option set.
    pub fn new() -> (r: Self)
        ensures
            r@ == default_options(),
    {
        let r = ReaderOption {
            trim: false,
            read_header: true,
            consume_dquote: false,
            custom_header: Vec::new(),
            delimiter: None,
            line_delimiter: None,
            ignore_empty_row: false,
            allow_invalid_string: false,
        };
        proof {
            assert(r@.custom_header =~= Seq::<Seq<char>>::empty());
        }
        r
    }
}

impl Default for ReaderOption {
    /// The default option set.
    fn default() -> (r: Self)
        ensures
            r@ == default_options(),
    {
        ReaderOption::new()
    }
}

/// The index of the first occurrence of a byte, or the length if none.
pub open spec fn first_byte_idx(s: Seq<u8>, b: u8) -> int
    decreases s.len(),
{
    if s.len() == 0 {
        0
    } else if s[0] == b {
        0
    } else {
        1 + first_byte_idx(s.drop_first(), b)
    }
}

pub proof fn lemma_first_byte_idx(s: Seq<u8>, b: u8)
    ensures
        0 <= first_byte_idx(s, b) <= s.len(),
        forall|i: int| 0 <= i < first_byte_idx(s, b) ==> s[i] != b,
        first_byte_idx(s, b) < s.len() ==> s[first_byte_idx(s, b)] == b,
    decreases s.len(),
{
    if s.len() > 0 && s[0] != b {
        lemma_first_byte_idx(s.drop_first(), b);
        assert(first_byte_idx(s, b) == 1 + first_byte_idx(s.drop_first(), b));
        assert forall|i: int| 0 <= i < first_byte_idx(s, b) implies s[i] != b by {
            if i >= 1 {
                assert(s.drop_first()[i - 1] != b);
                assert(s[i] == s.drop_first()[i - 1]);
            }
        }
        if first_byte_idx(s, b) < s.len() {
            assert(s[first_byte_idx(s, b)] == s.drop_first()[first_byte_idx(s.drop_first(), b)]);
        }
    }
}

#[via_fn]
proof fn split_segments_decreases(s: Seq<u8>, b: u8) {
    lemma_first_byte_idx(s, b);
}

/// The stream cut into physical lines: every segment ends with the
/// delimiter byte except possibly the last.
pub open spec fn split_segments(s: Seq<u8>, b: u8) -> Seq<Seq<u8>>
    decreases s.len(),
    via split_segments_decreases
{
    if s.len() == 0 {
        Seq::empty()
    } else {
        let k = first_byte_idx(s, b);
        if k >= s.len() {
            seq![s]
        } else {
            seq![s.take(k + 1)] + split_segments(s.skip(k + 1), b)
        }
    }
}

proof fn lemma_split_segments_chunk(t: Seq<u8>, r: Seq<u8>, b: u8)
    requires
        forall|i: int| 0 <= i < t.len() ==> t[i] != b,
    ensures
        r.len() > 0 && r[0] == b ==> split_segments(t + r, b) == seq![t.push(b)] + split_segments(
            r.drop_first(),
            b,
        ),
        r.len() == 0 && t.len() > 0 ==> split_segments(t + r, b) == seq![t],
        r.len() == 0 && t.len() == 0 ==> split_segments(t + r, b) == Seq::<Seq<u8>>::empty(),
    decreases t.len(),
{
    lemma_first_byte_concat(t, r, b);
    let s = t + r;
    if r.len() > 0 && r[0] == b {
        assert(s.len() > 0);
        assert(first_byte_idx(s, b) == t.len());
        assert(s.take(t.len() as int + 1) =~= t.push(b));
        assert(s.skip(t.len() as int + 1) =~= r.drop_first());
    } else if r.len() == 0 && t.len() > 0 {
        assert(s =~= t);
        lemma_first_byte_idx(s, b);
        assert(first_byte_idx(s, b) >= s.len());
    } else if r.len() == 0 {
        assert(s =~= Seq::<u8>::empty());
    }
}

proof fn lemma_first_byte_concat(t: Seq<u8>, r: Seq<u8>, b: u8)
    requires
        forall|i: int| 0 <= i < t.len() ==> t[i] != b,
    ensures
        r.len() > 0 && r[0] == b ==> first_byte_idx(t + r, b) == t.len(),
    decreases t.len(),
{
    if r.len() > 0 && r[0] == b {
        if t.len() == 0 {
            assert(t + r =~= r);
        } else {
            assert((t + r)[0] != b);
            assert((t + r).drop_first() =~= t.drop_first() + r);
            lemma_first_byte_concat(t.drop_first(), r, b);
        }
    }
}

/// Cut a byte stream into physical lines at a delimiter byte, keeping the
/// delimiter at the end of each line.
#[verifier::loop_isolation(false)]
#[verifier::rlimit(60)]
fn split_stream(bytes: &[u8], b: u8) -> (r: Vec<Vec<u8>>)
    ensures
        r@.map_values(|s: Vec<u8>| s@) == split_segments(bytes@, b),
{
    let n = bytes.len();
    let mut out: Vec<Vec<u8>> = Vec::new();
    let mut cur: Vec<u8> = Vec::new();
    let mut i: usize = 0;
    proof {
        assert(cur@ + bytes@.skip(0) =~= bytes@);
        assert(out@.map_values(|s: Vec<u8>| s@) =~= Seq::<Seq<u8>>::empty());
    }
    while i < n
        invariant
            i <= n,
            n == bytes@.len(),
            forall|j: int| 0 <= j < cur@.len() ==> cur@[j] != b,
            out@.map_values(|s: Vec<u8>| s@) + split_segments(cur@ + bytes@.skip(i as int), b)
                == split_segments(bytes@, b),
        decreases n - i,
    {
        let c = bytes[i];
        let ghost rest = bytes@.skip(i as int);
        let ghost rest1 = bytes@.skip(i + 1);
        proof {
            assert(rest.drop_first() =~= rest1);
        }
        if c == b {
            proof {
                lemma_split_segments_chunk(cur@, rest, b);
            }
            let ghost old_out = out@;
            let ghost old_cur = cur@;
            cur.push(c);
            out.push(cur);
            cur = Vec::new();
            proof {
                assert(out@.map_values(|s: Vec<u8>| s@) =~= old_out.map_values(
                    |s: Vec<u8>| s@,
                ) + seq![old_cur.push(b)]);
                assert(cur@ + rest1 =~= rest1);
            }
        } else {
            let ghost old_cur = cur@;
            cur.push(c);
            proof {
                assert(old_cur + rest =~= cur@ + rest1);
            }
        }
        i = i + 1;
    }
    proof {
        assert(bytes@.skip(n as int) =~= Seq::<u8>::empty());
        assert(cur@ + bytes@.skip(n as int) =~= cur@);
        lemma_split_segments_chunk(cur@, Seq::empty(), b);
        assert(cur@ + Seq::<u8>::empty() =~= cur@);
    }
    if cur.len() > 0 {
        let ghost old_out = out@;
        let ghost old_cur = cur@;
        out.push(cur);
        proof {
            assert(out@.map_values(|s: Vec<u8>| s@) =~= old_out.map_values(|s: Vec<u8>| s@)
                + seq![old_cur]);
        }
    }
    out
}

/// The synthesized name of the column at 1-based position `idx`: the
/// letter for `(idx - 1) % 26`, repeated once more for every 26 positions.
pub open spec fn synth_name(idx: int) -> Seq<char> {
    let letter = ((0x61 + ((idx - 1) % 26)) as u8) as char;
    Seq::new(((idx - 1) / 26 + 1) as nat, |j: int| letter)
}

/// The synthesized header for a headerless table of `n` columns.
pub open spec fn synth_names(n: nat) -> Seq<Seq<char>> {
    Seq::new(n, |i: int| synth_name(i + 1))
}

/// Arbitrary column names for a headerless table: `a` through `z`, then
/// `aa`, `bb`, and so on, doubling the letter every 26 columns.
#[verifier::loop_isolation(false)]
pub fn make_arbitrary_column(size: usize) -> (r: Vec<String>)
    ensures
        r@.map_values(|s: String| s@) == synth_names(size as nat),
{
    let mut column_names: Vec<String> = Vec::new();
    let mut index: usize = 0;
    proof {
        assert(column_names@.map_values(|s: String| s@) =~= synth_names(0));
    }
    while index < size
        invariant
            index <= size,
            column_names@.map_values(|s: String| s@) == synth_names(index as nat),
        decreases size - index,
    {
        let pos = index;
        let letter: char = ((0x61 + ((pos % 26) as u8)) as u8) as char;
        let count = pos / 26 + 1;
        let mut chars: Vec<char> = Vec::new();
        let mut j: usize = 0;
        while j < count
            invariant
                j <= count,
                chars@ =~= Seq::new(j as nat, |k: int| letter),
            decreases count - j,
        {
            chars.push(letter);
            proof {
                assert(chars@ =~= Seq::new((j + 1) as nat, |k: int| letter));
            }
            j = j + 1;
        }
        let name = string_from_chars(chars.as_slice());
        let ghost old_names = column_names@;
        column_names.push(name);
        proof {
            assert(name@ == synth_name(index + 1));
            assert(column_names@.map_values(|s: String| s@) =~= old_names.map_values(
                |s: String| s@,
            ).push(name@));
            assert(old_names.map_values(|s: String| s@).push(synth_name(index + 1))
                =~= synth_names((index + 1) as nat));
        }
        index = index + 1;
    }
    column_names
}

/// Two synthesized names of different positions always differ.
pub proof fn lemma_synth_names_distinct(n: nat)
    ensures
        forall|i: int, j: int|
            0 <= i < j < n ==> synth_names(n)[i] != synth_names(n)[j],
{
    assert forall|i: int, j: int| 0 <= i < j < n implies synth_names(n)[i] != synth_names(
        n,
    )[j] by {
        let a = synth_name(i + 1);
        let bn = synth_name(j + 1);
        if a.len() == bn.len() {
            assert(i / 26 == j / 26) by (nonlinear_arith)
                requires
                    0 <= i < j,
                    (i / 26 + 1) as nat == (j / 26 + 1) as nat,
            ;
            assert(i % 26 != j % 26) by (nonlinear_arith)
                requires
                    0 <= i < j,
                    i / 26 == j / 26,
            ;
            assert(a[0] != bn[0]) by {
                assert(0 <= i % 26 < 26 && 0 <= j % 26 < 26) by (nonlinear_arith)
                    requires
                        0 <= i,
                        0 <= j,
                ;
            }
        }
    }
}

/// One logical row, already parsed into fields.
pub ghost struct TableModel {
    pub names: Seq<Seq<char>>,
    pub grid: Seq<Seq<Seq<char>>>,
}

/// What assembling logical rows into a table yields: the table, or the
/// first error met.
pub ghost enum AsmOutcome {
    Table(TableModel),
    EmptyRowErr,
    HeaderLenErr,
    DupNameErr,
    RowLenErr,
}

/// Whether a header's names are pairwise distinct.
pub open spec fn distinct_names(names: Seq<Seq<char>>) -> bool {
    forall|i: int, j: int| 0 <= i < j < names.len() ==> (#[trigger] names[i]) != (
    #[trigger] names[j])
}

/// A row with every field trimmed.
pub open spec fn trim_row(row: Seq<Seq<char>>) -> Seq<Seq<char>> {
    row.map_values(|f: Seq<char>| spec_trim(f))
}

/// How logical rows build a table, one row at a time: a lone blank field is
/// an empty row, skipped or rejected by option; the first real row fixes
/// the header, from the caller's custom names, from the row itself, or by
/// synthesis; every later row must match the column count.  `dup_ok` says
/// whether duplicate column names are tolerated, as the positional
/// container does.
pub open spec fn assemble_from(
    rows: Seq<Seq<Seq<char>>>,
    i: int,
    opt: ReadOptModel,
    custom: Seq<Seq<char>>,
    t: TableModel,
    dup_ok: bool,
) -> AsmOutcome
    decreases rows.len() - i,
{
    if i < 0 || i >= rows.len() {
        AsmOutcome::Table(t)
    } else {
        let row = rows[i];
        if row.len() == 1 && is_blank(row[0]) {
            if opt.ignore_empty_row {
                assemble_from(rows, i + 1, opt, custom, t, dup_ok)
            } else {
                AsmOutcome::EmptyRowErr
            }
        } else if t.names.len() == 0 {
            if custom.len() > 0 {
                if custom.len() != row.len() {
                    AsmOutcome::HeaderLenErr
                } else if !dup_ok && !distinct_names(custom) {
                    AsmOutcome::DupNameErr
                } else {
                    let data = if opt.trim {
                        trim_row(row)
                    } else {
                        row
                    };
                    assemble_from(
                        rows,
                        i + 1,
                        opt,
                        Seq::empty(),
                        TableModel { names: custom, grid: seq![data] },
                        dup_ok,
                    )
                }
            } else if opt.read_header {
                let names = if opt.trim {
                    trim_row(row)
                } else {
                    row
                };
                if !dup_ok && !distinct_names(names) {
                    AsmOutcome::DupNameErr
                } else {
                    assemble_from(
                        rows,
                        i + 1,
                        opt,
                        custom,
                        TableModel { names, grid: Seq::empty() },
                        dup_ok,
                    )
                }
            } else {
                let names = synth_names(row.len());
                let data = if opt.trim {
                    trim_row(row)
                } else {
                    row
                };
                assemble_from(
                    rows,
                    i + 1,
                    opt,
                    custom,
                    TableModel { names, grid: seq![data] },
                    dup_ok,
                )
            }
        } else {
            if row.len() != t.names.len() {
                AsmOutcome::RowLenErr
            } else {
                let data = if opt.trim {
                    trim_row(row)
                } else {
                    row
                };
                assemble_from(
                    rows,
                    i + 1,
                    opt,
                    custom,
                    TableModel { names: t.names, grid: t.grid.push(data) },
                    dup_ok,
                )
            }
        }
    }
}

/// What a parser run over the physical lines yields: the rows emitted in
/// order, and whether an undecodable line stopped the run.
pub ghost struct ParseOutcome {
    pub state: ParserModel,
    pub rows: Seq<Seq<Seq<char>>>,
    pub failed: bool,
}

/// The parser folded over the physical lines of the stream.
pub open spec fn run_parser(
    m: ParserModel,
    segs: Seq<Seq<u8>>,
    delim: Option<char>,
    consume_dquote: bool,
    allow_invalid: bool,
) -> ParseOutcome
    decreases segs.len(),
{
    if segs.len() == 0 {
        ParseOutcome { state: m, rows: Seq::empty(), failed: false }
    } else if !allow_invalid && utf8_decode(segs[0]) is None {
        ParseOutcome { state: m, rows: Seq::empty(), failed: true }
    } else {
        let chars = if allow_invalid {
            utf8_decode_lossy(segs[0])
        } else {
            utf8_decode(segs[0])->0
        };
        let (m2, out) = spec_feed(m, normalize_crlf(chars), delim, consume_dquote);
        let rest = run_parser(m2, segs.drop_first(), delim, consume_dquote, allow_invalid);
        ParseOutcome {
            state: rest.state,
            rows: (match out {
                Some(f) => seq![f],
                None => Seq::<Seq<Seq<char>>>::empty(),
            }) + rest.rows,
            failed: rest.failed,
        }
    }
}

} // verus!

verus! {

/// The larger of two widths.
pub open spec fn nmax(a: nat, b: nat) -> nat {
    if a > b {
        a
    } else {
        b
    }
}

/// An unconstrained text column with the given name.
pub open spec fn plain_column(name: Seq<char>) -> ColumnModel {
    ColumnModel {
        name: name,
        column_type: ValueType::Text,
        limiter: LimiterModel {
            value_type: ValueType::Text,
            default: None,
            variant: None,
            pattern: None,
        },
    }
}

/// A table of parsed strings as the name-keyed container holds it.
pub open spec fn str_grid(grid: Seq<Seq<Seq<char>>>) -> Seq<Seq<ValueModel>> {
    grid.map_values(|row: Seq<Seq<char>>| row.map_values(|f: Seq<char>| ValueModel::Str(f)))
}

/// The tracked width a freshly read column has: its name, the empty
/// placeholder, and the widest cell below it.
pub open spec fn read_col_width(t: TableModel, c: int) -> nat {
    nmax(
        nmax(display_width(t.names[c]), val_width(ValueModel::Str(Seq::empty()))),
        col_max_width(str_grid(t.grid), c),
    )
}

/// The tracked width a freshly read positional column has: its name and
/// the widest cell below it.
pub open spec fn read_col_width_arr(t: TableModel, c: int) -> nat {
    nmax(display_width(t.names[c]), col_max_width(str_grid(t.grid), c))
}

/// Whether a name-keyed container holds exactly an assembled table: one
/// unconstrained text column per name, the parsed cells as text, and the
/// tracked widths that reading produces.
pub open spec fn data_matches_table(d: VirtualData, t: TableModel) -> bool {
    &&& d.wf()
    &&& d.cols().len() == t.names.len()
    &&& (forall|c: int| 0 <= c < t.names.len() ==> d.cols()[c] == plain_column(#[trigger] t.names[c]))
    &&& d.grid() == str_grid(t.grid)
    &&& d.widths().len() == t.names.len()
    &&& (forall|c: int| 0 <= c < t.names.len() ==> d.widths()[c] == read_col_width(t, c))
}

/// Whether a positional container holds exactly an assembled table.
pub open spec fn array_matches_table(d: VirtualArray, t: TableModel) -> bool {
    &&& d.wf()
    &&& d.cols().len() == t.names.len()
    &&& (forall|c: int| 0 <= c < t.names.len() ==> d.cols()[c] == plain_column(#[trigger] t.names[c]))
    &&& d.grid() == str_grid(t.grid)
    &&& d.widths().len() == t.names.len()
    &&& (forall|c: int| 0 <= c < t.names.len() ==> d.widths()[c] == read_col_width_arr(t, c))
}

/// The line-delimiter byte the stream is cut at.
pub open spec fn line_delim_byte(ld: Option<char>) -> u8 {
    (crate::parser::spec_line_delim(ld) as u32) as u8
}

/// The parser run the reader performs over a byte stream: a fresh parser
/// state folded over the physical lines.
pub open spec fn reader_run(m: ReadOptModel, pld: Option<char>, bytes: Seq<u8>) -> ParseOutcome {
    run_parser(
        ParserModel {
            container: Seq::empty(),
            remnant: Seq::empty(),
            on_quote: false,
            line_delimiter: pld,
        },
        split_segments(bytes, line_delim_byte(m.line_delimiter)),
        m.delimiter,
        m.consume_dquote,
        m.allow_invalid_string,
    )
}

/// The table the reader assembles from a byte stream, when no line fails
/// to decode.
pub open spec fn reader_assemble(
    m: ReadOptModel,
    pld: Option<char>,
    bytes: Seq<u8>,
    dup_ok: bool,
) -> AsmOutcome {
    assemble_from(
        reader_run(m, pld, bytes).rows,
        0,
        m,
        m.custom_header,
        TableModel { names: Seq::empty(), grid: Seq::empty() },
        dup_ok,
    )
}

/// The mathematical content of a reader: its options and parser state.
pub ghost struct ReaderModel {
    pub option: ReadOptModel,
    pub parser: ParserModel,
}

/// Reads whole csv byte streams into containers, under a configurable set
/// of options that persists across reads.
pub struct Reader {
    option: ReaderOption,
    parser: Parser,
}

impl View for Reader {
    type V = ReaderModel;

    closed spec fn view(&self) -> ReaderModel {
        ReaderModel { option: self.option@, parser: self.parser@ }
    }
}

impl Default for Reader {
    /// A reader with the default options.
    fn default() -> (r: Self)
        ensures
            r@.option == default_options(),
            r@.parser.line_delimiter is None,
    {
        Reader::new()
    }
}

impl Reader {
    /// A reader with the default options.
    pub fn new() -> (r: Self)
        ensures
            r@.option == default_options(),
            r@.parser.line_delimiter is None,
    {
        Self { option: ReaderOption::new(), parser: Parser::new() }
    }

    /// Replace the whole option set.
    pub fn with_option(self, option: ReaderOption) -> (r: Self)
        ensures
            r@.option == option@,
            r@.parser == self@.parser,
    {
        let mut s = self;
        s.option = option;
        s
    }

    /// Whether quote characters are dropped from field values.
    pub fn consume_dquote(self, tv: bool) -> (r: Self)
        ensures
            r@.option == (ReadOptModel { consume_dquote: tv, ..self@.option }),
            r@.parser == self@.parser,
    {
        let mut s = self;
        s.option.consume_dquote = tv;
        s
    }

    /// Whether blank rows are skipped rather than rejected.
    pub fn ignore_empty_row(self, tv: bool) -> (r: Self)
        ensures
            r@.option == (ReadOptModel { ignore_empty_row: tv, ..self@.option }),
            r@.parser == self@.parser,
    {
        let mut s = self;
        s.option.ignore_empty_row = tv;
        s
    }

    /// Whether every read value is trimmed.
    pub fn trim(self, tv: bool) -> (r: Self)
        ensures
            r@.option == (ReadOptModel { trim: tv, ..self@.option }),
            r@.parser == self@.parser,
    {
        let mut s = self;
        s.option.trim = tv;
        s
    }

    /// Whether invalid byte sequences are replaced rather than rejected.
    pub fn allow_invalid_string(self, allow: bool) -> (r: Self)
        ensures
            r@.option == (ReadOptModel { allow_invalid_string: allow, ..self@.option }),
            r@.parser == self@.parser,
    {
        let mut s = self;
        s.option.allow_invalid_string = allow;
        s
    }

    /// Whether the first row is a header rather than data.
    pub fn has_header(self, has_header: bool) -> (r: Self)
        ensures
            r@.option == (ReadOptModel { read_header: has_header, ..self@.option }),
            r@.parser == self@.parser,
    {
        let mut s = self;
        s.option.read_header = has_header;
        s
    }

    /// Supply column names, overriding any header detection.
    pub fn custom_header(self, headers: &[&str]) -> (r: Self)
        ensures
            r@.option == (ReadOptModel {
                custom_header: headers@.map_values(|s: &str| s@),
                ..self@.option
            }),
            r@.parser == self@.parser,
    {
        let mut s = self;
        let mut hs: Vec<String> = Vec::new();
        let mut i: usize = 0;
        while i < headers.len()
            invariant
                i <= headers@.len(),
                hs@.map_values(|s: String| s@) == headers@.map_values(|s: &str| s@).take(i as int),
            decreases headers@.len() - i,
        {
            let ghost old_hs = hs@;
            hs.push(headers[i].to_owned());
            proof {
                assert(hs@.map_values(|s: String| s@) =~= old_hs.map_values(|s: String| s@).push(
                    headers@[i as int]@,
                ));
                assert(headers@.map_values(|s: &str| s@).take(i + 1) =~= headers@.map_values(
                    |s: &str| s@,
                ).take(i as int).push(headers@[i as int]@));
            }
            i = i + 1;
        }
        proof {
            assert(headers@.map_values(|s: &str| s@).take(headers@.len() as int)
                =~= headers@.map_values(|s: &str| s@));
        }
        s.option.custom_header = hs;
        s
    }

    /// Reset every option to its default.
    pub fn clear_reader_option(&mut self)
        ensures
            final(self)@.option == default_options(),
            final(self)@.parser == old(self)@.parser,
    {
        self.option = ReaderOption::new();
    }

    /// Use a field delimiter other than the comma.
    pub fn use_delimiter(self, delimiter: char) -> (r: Self)
        ensures
            r@.option == (ReadOptModel { delimiter: Some(delimiter), ..self@.option }),
            r@.parser == self@.parser,
    {
        let mut s = self;
        s.option.delimiter = Some(delimiter);
        s
    }

    /// Use a line delimiter other than the newline.  Only the default
    /// detects both `\n` and `\r\n`.
    pub fn use_line_delimiter(self, delimiter: char) -> (r: Self)
        ensures
            r@.option == (ReadOptModel { line_delimiter: Some(delimiter), ..self@.option }),
            r@.parser == (ParserModel { line_delimiter: Some(delimiter), ..self@.parser }),
    {
        let mut s = self;
        s.parser.set_line_delimiter(delimiter);
        s.option.line_delimiter = Some(delimiter);
        s
    }
}

} // verus!

verus! {

/// Whether a parsed row is a lone blank field, the shape a trailing line
/// delimiter leaves behind.
fn row_is_blank(row: &Vec<String>) -> (r: bool)
    ensures
        r == (row@.len() == 1 && is_blank(row@[0]@)),
{
    if row.len() != 1 {
        return false;
    }
    let cs = crate::chars::chars_of(row[0].as_str());
    let t = trim_chars(&cs);
    proof {
        crate::chars::lemma_blank_trim(row@[0]@);
    }
    t.len() == 0
}

/// The values of one data row: each field as a text value, trimmed when
/// the option asks for it.
fn row_to_values(row: &Vec<String>, trim: bool) -> (r: Vec<Value>)
    ensures
        r@.map_values(|v: Value| v@) == ({
            let rv = row@.map_values(|s: String| s@);
            (if trim {
                trim_row(rv)
            } else {
                rv
            }).map_values(|f: Seq<char>| ValueModel::Str(f))
        }),
{
    let ghost rv = row@.map_values(|s: String| s@);
    let ghost target = (if trim {
        trim_row(rv)
    } else {
        rv
    }).map_values(|f: Seq<char>| ValueModel::Str(f));
    let mut r: Vec<Value> = Vec::new();
    let n = row.len();
    let mut i: usize = 0;
    proof {
        assert(r@.map_values(|v: Value| v@) =~= target.take(0));
    }
    while i < n
        invariant
            i <= n,
            n == row@.len() == target.len(),
            target == ({
                let rv = row@.map_values(|s: String| s@);
                (if trim {
                    trim_row(rv)
                } else {
                    rv
                }).map_values(|f: Seq<char>| ValueModel::Str(f))
            }),
            r@.map_values(|v: Value| v@) == target.take(i as int),
        decreases n - i,
    {
        let ghost old_r = r@;
        if trim {
            let cs = crate::chars::chars_of(row[i].as_str());
            let t = trim_chars(&cs);
            r.push(Value::Text(string_from_chars(t.as_slice())));
        } else {
            r.push(Value::Text(row[i].clone()));
        }
        proof {
            assert(r@.map_values(|v: Value| v@) =~= old_r.map_values(|v: Value| v@).push(
                target[i as int],
            ));
            assert(target.take(i + 1) =~= target.take(i as int).push(target[i as int]));
        }
        i = i + 1;
    }
    proof {
        assert(target.take(n as int) =~= target);
    }
    r
}

/// Add one unconstrained text column per name, in order, to an empty
/// container; duplicate names are rejected.
#[verifier::loop_isolation(false)]
fn add_multiple_columns(data: &mut VirtualData, column_names: &Vec<String>) -> (r: DcsvResult<()>)
    requires
        old(data).wf(),
        old(data).cols().len() == 0,
        old(data).grid().len() == 0,
    ensures
        final(data).wf(),
        r is Ok <==> distinct_names(column_names@.map_values(|s: String| s@)),
        r matches Err(e) ==> e is InvalidColumn,
        r is Ok ==> ({
            let names = column_names@.map_values(|s: String| s@);
            &&& final(data).cols().len() == names.len()
            &&& (forall|c: int|
                0 <= c < names.len() ==> final(data).cols()[c] == plain_column(#[trigger] names[c]))
            &&& final(data).grid() == Seq::<Seq<ValueModel>>::empty()
            &&& final(data).widths().len() == names.len()
            &&& (forall|c: int|
                0 <= c < names.len() ==> final(data).widths()[c] == nmax(
                    display_width(#[trigger] names[c]),
                    val_width(ValueModel::Str(Seq::empty())),
                ))
        }),
{
    let ghost names = column_names@.map_values(|s: String| s@);
    let n = column_names.len();
    let mut idx: usize = 0;
    while idx < n
        invariant
            idx <= n,
            n == names.len(),
            data.wf(),
            data.cols().len() == idx,
            data.grid() == Seq::<Seq<ValueModel>>::empty(),
            data.widths().len() == idx,
            forall|c: int| 0 <= c < idx ==> data.cols()[c] == plain_column(#[trigger] names[c]),
            forall|c: int|
                0 <= c < idx ==> data.widths()[c] == nmax(
                    display_width(#[trigger] names[c]),
                    val_width(ValueModel::Str(Seq::empty())),
                ),
            forall|i: int, j: int| 0 <= i < j < idx ==> (#[trigger] names[i]) != (#[trigger] names[j]),
        decreases n - idx,
    {
        let ghost pre = *data;
        match data.insert_column(idx, column_names[idx].as_str()) {
            Ok(_) => {
                proof {
                    assert(data.grid() =~= Seq::<Seq<ValueModel>>::empty());
                    assert forall|c: int|
                        0 <= c < idx + 1 implies data.cols()[c] == plain_column(
                        #[trigger] names[c],
                    ) by {
                        assert(data.cols() == pre.cols().insert(idx as int, plain_column(
                            names[idx as int],
                        )));
                    }
                    assert forall|c: int|
                        0 <= c < idx + 1 implies data.widths()[c] == nmax(
                        display_width(#[trigger] names[c]),
                        val_width(ValueModel::Str(Seq::empty())),
                    ) by {
                        assert(data.widths() == pre.widths().insert(
                            idx as int,
                            nmax(
                                display_width(names[idx as int]),
                                val_width(ValueModel::Str(Seq::empty())),
                            ),
                        ));
                    }
                    assert forall|i: int, j: int|
                        0 <= i < j < idx + 1 implies (#[trigger] names[i]) != (
                    #[trigger] names[j]) by {
                        if j == idx as int {
                            assert(pre.cols()[i].name == names[i]);
                        }
                    }
                }
            },
            Err(e) => {
                proof {
                    let i = choose|i: int|
                        0 <= i < pre.cols().len() && (#[trigger] pre.cols()[i]).name
                            == names[idx as int];
                    assert(names[i] == names[idx as int]);
                }
                return Err(e);
            },
        }
        idx = idx + 1;
    }
    Ok(())
}

/// Add one unconstrained text column per name, in order, to an empty
/// positional container; duplicates are tolerated there.
#[verifier::loop_isolation(false)]
fn add_array_columns(data: &mut VirtualArray, column_names: &Vec<String>)
    requires
        old(data).wf(),
        old(data).cols().len() == 0,
        old(data).grid().len() == 0,
    ensures
        final(data).wf(),
        ({
            let names = column_names@.map_values(|s: String| s@);
            &&& final(data).cols().len() == names.len()
            &&& (forall|c: int|
                0 <= c < names.len() ==> final(data).cols()[c] == plain_column(#[trigger] names[c]))
            &&& final(data).grid() == Seq::<Seq<ValueModel>>::empty()
            &&& final(data).widths().len() == names.len()
            &&& (forall|c: int|
                0 <= c < names.len() ==> final(data).widths()[c] == display_width(
                    #[trigger] names[c],
                ))
        }),
{
    let ghost names = column_names@.map_values(|s: String| s@);
    let n = column_names.len();
    let mut idx: usize = 0;
    while idx < n
        invariant
            idx <= n,
            n == names.len(),
            data.wf(),
            data.cols().len() == idx,
            data.grid() == Seq::<Seq<ValueModel>>::empty(),
            data.widths().len() == idx,
            forall|c: int| 0 <= c < idx ==> data.cols()[c] == plain_column(#[trigger] names[c]),
            forall|c: int|
                0 <= c < idx ==> data.widths()[c] == display_width(#[trigger] names[c]),
        decreases n - idx,
    {
        let ghost pre = *data;
        match data.insert_column(idx, column_names[idx].as_str()) {
            Ok(_) => {
                proof {
                    assert(data.grid() =~= Seq::<Seq<ValueModel>>::empty());
                    assert forall|c: int|
                        0 <= c < idx + 1 implies data.cols()[c] == plain_column(
                        #[trigger] names[c],
                    ) by {
                        assert(data.cols() == pre.cols().insert(idx as int, plain_column(
                            names[idx as int],
                        )));
                    }
                    assert forall|c: int|
                        0 <= c < idx + 1 implies data.widths()[c] == display_width(
                        #[trigger] names[c],
                    ) by {
                        assert(data.widths() == pre.widths().insert(
                            idx as int,
                            display_width(names[idx as int]),
                        ));
                    }
                }
            },
            Err(_) => {
                proof {
                    assert(false);
                }
            },
        }
        idx = idx + 1;
    }
}

} // verus!

verus! {

impl Reader {
    /// Read a whole csv byte stream into a name-keyed container: the bytes
    /// are cut into physical lines, parsed into logical rows, and assembled
    /// under the current options.  Uses a fresh parser state; a custom
    /// header is consumed by the read that uses it.
    #[verifier::loop_isolation(false)]
    #[verifier::rlimit(100)]
    pub fn data_from_bytes(&mut self, bytes: &[u8]) -> (r: DcsvResult<VirtualData>)
        ensures
            final(self)@.option == old(self)@.option || final(self)@.option == (ReadOptModel {
                custom_header: Seq::empty(),
                ..old(self)@.option
            }),
            reader_run(old(self)@.option, old(self)@.parser.line_delimiter, bytes@).failed ==> (
            r matches Err(e) && e is InvalidRowData),
            !reader_run(old(self)@.option, old(self)@.parser.line_delimiter, bytes@).failed ==> (
            match reader_assemble(
                old(self)@.option,
                old(self)@.parser.line_delimiter,
                bytes@,
                false,
            ) {
                AsmOutcome::Table(t) => r matches Ok(data) && data_matches_table(data, t),
                AsmOutcome::EmptyRowErr => r matches Err(e) && e is InvalidRowData,
                AsmOutcome::HeaderLenErr => r matches Err(e) && e is InvalidColumn,
                AsmOutcome::DupNameErr => r matches Err(e) && e is InvalidColumn,
                AsmOutcome::RowLenErr => r matches Err(e) && e is InvalidRowData,
            }),
    {
        let ghost opt0 = old(self)@.option;
        let ghost pld = old(self)@.parser.line_delimiter;
        let ld_b: u8 = match self.option.line_delimiter {
            Some(c) => (c as u32) as u8,
            None => 0x0a,
        };
        self.parser.reset();
        let mut segs: Vec<Vec<u8>> = split_stream(bytes, ld_b);
        let ghost segs_v = segs@.map_values(|s: Vec<u8>| s@);
        let ghost m0 = self@.parser;
        let ghost full = run_parser(
            m0,
            segs_v,
            opt0.delimiter,
            opt0.consume_dquote,
            opt0.allow_invalid_string,
        );
        proof {
            assert(full == reader_run(opt0, pld, bytes@));
        }

        let mut rows_acc: Vec<Vec<String>> = Vec::new();
        let nsegs = segs.len();
        let mut k: usize = 0;
        proof {
            assert(segs_v.skip(0) =~= segs_v);
            assert(rows_acc@.map_values(|row: Vec<String>| row@.map_values(|s: String| s@))
                + run_parser(
                self@.parser,
                segs_v.skip(0),
                opt0.delimiter,
                opt0.consume_dquote,
                opt0.allow_invalid_string,
            ).rows =~= full.rows);
        }
        while k < nsegs
            invariant
                k <= nsegs,
                nsegs == segs@.len() == segs_v.len(),
                self@.option == opt0,
                forall|j: int| k <= j < nsegs ==> (#[trigger] segs@[j])@ == segs_v[j],
                full.rows == rows_acc@.map_values(
                    |row: Vec<String>| row@.map_values(|s: String| s@),
                ) + run_parser(
                    self@.parser,
                    segs_v.skip(k as int),
                    opt0.delimiter,
                    opt0.consume_dquote,
                    opt0.allow_invalid_string,
                ).rows,
                full.failed == run_parser(
                    self@.parser,
                    segs_v.skip(k as int),
                    opt0.delimiter,
                    opt0.consume_dquote,
                    opt0.allow_invalid_string,
                ).failed,
            decreases nsegs - k,
        {
            let ghost rest = segs_v.skip(k as int);
            let ghost rest1 = segs_v.skip(k + 1);
            proof {
                assert(rest[0] == segs_v[k as int]);
                assert(rest.drop_first() =~= rest1);
            }
            let mut seg: Vec<u8> = Vec::new();
            {
                let slot = &mut segs[k];
                core::mem::swap(&mut seg, slot);
            }
            let ghost cur = self@.parser;
            match self.parser.feed_chunk(
                seg,
                self.option.delimiter,
                self.option.consume_dquote,
                self.option.allow_invalid_string,
            ) {
                Err(e) => {
                    proof {
                        assert(run_parser(
                            cur,
                            rest,
                            opt0.delimiter,
                            opt0.consume_dquote,
                            opt0.allow_invalid_string,
                        ).failed);
                    }
                    return Err(e);
                },
                Ok(out) => {
                    proof {
                        let chars = if opt0.allow_invalid_string {
                            utf8_decode_lossy(segs_v[k as int])
                        } else {
                            utf8_decode(segs_v[k as int])->0
                        };
                        let (m2, fields) = spec_feed(
                            cur,
                            normalize_crlf(chars),
                            opt0.delimiter,
                            opt0.consume_dquote,
                        );
                        assert(self@.parser == m2);
                        assert(crate::parser::rows_opt_view(out) == fields);
                    }
                    match out {
                        Some(row) => {
                            let ghost old_acc = rows_acc@;
                            rows_acc.push(row);
                            proof {
                                assert(rows_acc@.map_values(
                                    |row: Vec<String>| row@.map_values(|s: String| s@),
                                ) =~= old_acc.map_values(
                                    |row: Vec<String>| row@.map_values(|s: String| s@),
                                ).push(row@.map_values(|s: String| s@)));
                                assert(full.rows =~= rows_acc@.map_values(
                                    |row: Vec<String>| row@.map_values(|s: String| s@),
                                ) + run_parser(
                                    self@.parser,
                                    rest1,
                                    opt0.delimiter,
                                    opt0.consume_dquote,
                                    opt0.allow_invalid_string,
                                ).rows);
                            }
                        },
                        None => {
                            proof {
                                assert(full.rows =~= rows_acc@.map_values(
                                    |row: Vec<String>| row@.map_values(|s: String| s@),
                                ) + run_parser(
                                    self@.parser,
                                    rest1,
                                    opt0.delimiter,
                                    opt0.consume_dquote,
                                    opt0.allow_invalid_string,
                                ).rows);
                            }
                        },
                    }
                },
            }
            k = k + 1;
        }
        let ghost all_rows = rows_acc@.map_values(
            |row: Vec<String>| row@.map_values(|s: String| s@),
        );
        proof {
            assert(segs_v.skip(nsegs as int) =~= Seq::<Seq<u8>>::empty());
            assert(all_rows + Seq::<Seq<Seq<char>>>::empty() =~= all_rows);
            assert(full.rows == all_rows);
            assert(!full.failed);
        }

        let mut data = VirtualData::new();
        let ghost custom0 = opt0.custom_header;
        let ghost mut t = TableModel { names: Seq::empty(), grid: Seq::empty() };
        let ghost mut cur_custom = custom0;
        let nrows = rows_acc.len();
        let mut j: usize = 0;
        proof {
            assert(t.names =~= Seq::<Seq<char>>::empty());
            assert(data.grid() =~= str_grid(t.grid));
        }
        while j < nrows
            invariant
                j <= nrows,
                nrows == rows_acc@.len(),
                all_rows == rows_acc@.map_values(
                    |row: Vec<String>| row@.map_values(|s: String| s@),
                ),
                self@.option.custom_header == cur_custom,
                self@.option == (ReadOptModel { custom_header: cur_custom, ..opt0 }),
                cur_custom == custom0 || cur_custom == Seq::<Seq<char>>::empty(),
                data.wf(),
                data.cols().len() == t.names.len(),
                forall|c: int|
                    0 <= c < t.names.len() ==> data.cols()[c] == plain_column(
                        #[trigger] t.names[c],
                    ),
                data.grid() == str_grid(t.grid),
                data.grid().len() == t.grid.len(),
                data.widths().len() == t.names.len(),
                forall|c: int|
                    0 <= c < t.names.len() ==> data.widths()[c] == read_col_width(t, c),
                assemble_from(all_rows, 0, opt0, custom0, TableModel {
                    names: Seq::empty(),
                    grid: Seq::empty(),
                }, false) == assemble_from(all_rows, j as int, opt0, cur_custom, t, false),
            decreases nrows - j,
        {
            let ghost row_v = all_rows[j as int];
            proof {
                assert(rows_acc@[j as int]@.map_values(|s: String| s@) == row_v);
            }
            let blank = row_is_blank(&rows_acc[j]);
            if blank {
                if self.option.ignore_empty_row {
                    j = j + 1;
                    continue;
                } else {
                    return Err(
                        DcsvError::InvalidRowData("Empty row is unallowed by reader option".to_owned()),
                    );
                }
            }
            if data.get_column_count() == 0 {
                if data.get_row_count() > 0 {
                    data.drop_data();
                    proof {
                        t = TableModel { names: Seq::empty(), grid: Seq::empty() };
                        assert(data.grid() =~= str_grid(t.grid));
                    }
                }
                if self.option.custom_header.len() > 0 {
                    if self.option.custom_header.len() != rows_acc[j].len() {
                        return Err(
                            DcsvError::InvalidColumn(
                                "Custom header has different length than the row".to_owned(),
                            ),
                        );
                    }
                    let mut header: Vec<String> = Vec::new();
                    core::mem::swap(&mut header, &mut self.option.custom_header);
                    proof {
                        cur_custom = Seq::empty();
                        assert(self@.option.custom_header =~= cur_custom);
                        assert(self@.option == (ReadOptModel { custom_header: cur_custom, ..opt0 }));
                    }
                    match add_multiple_columns(&mut data, &header) {
                        Ok(_) => {},
                        Err(e) => {
                            return Err(e);
                        },
                    }
                    proof {
                        t = TableModel {
                            names: header@.map_values(|s: String| s@),
                            grid: Seq::empty(),
                        };
                        assert(data.grid() =~= str_grid(t.grid));
                        assert(forall|c: int|
                            0 <= c < t.names.len() ==> data.cols()[c] == plain_column(
                                #[trigger] t.names[c],
                            ));
                        assert forall|c: int|
                            0 <= c < t.names.len() implies data.widths()[c] == read_col_width(
                            t,
                            c,
                        ) by {
                            assert(col_max_width(str_grid(t.grid), c) == 0);
                        }
                    }
                } else if self.option.read_header {
                    let names: Vec<String> = if self.option.trim {
                        let mut trimmed: Vec<String> = Vec::new();
                        let m = rows_acc[j].len();
                        let mut c: usize = 0;
                        proof {
                            assert(trimmed@.map_values(|s: String| s@) =~= trim_row(row_v).take(0));
                        }
                        while c < m
                            invariant
                                c <= m,
                                m == rows_acc@[j as int]@.len(),
                                j < rows_acc@.len(),
                                row_v == rows_acc@[j as int]@.map_values(|s: String| s@),
                                trimmed@.map_values(|s: String| s@) == trim_row(row_v).take(
                                    c as int,
                                ),
                            decreases m - c,
                        {
                            let ghost old_t = trimmed@;
                            let row_ref = &rows_acc[j];
                            let cs = crate::chars::chars_of(row_ref[c].as_str());
                            let tc = trim_chars(&cs);
                            trimmed.push(string_from_chars(tc.as_slice()));
                            proof {
                                assert(trimmed@.map_values(|s: String| s@) =~= old_t.map_values(
                                    |s: String| s@,
                                ).push(spec_trim(row_v[c as int])));
                                assert(trim_row(row_v).take(c + 1) =~= trim_row(row_v).take(
                                    c as int,
                                ).push(spec_trim(row_v[c as int])));
                            }
                            c = c + 1;
                        }
                        proof {
                            assert(trim_row(row_v).take(m as int) =~= trim_row(row_v));
                        }
                        trimmed
                    } else {
                        rows_acc[j].clone()
                    };
                    proof {
                        if !self@.option.trim {
                            assert(names@.map_values(|s: String| s@) =~= row_v) by {
                                assert(names@.len() == rows_acc@[j as int]@.len());
                                assert forall|c: int|
                                    0 <= c < names@.len() implies names@.map_values(
                                    |s: String| s@,
                                )[c] == row_v[c] by {
                                    assert(vstd::pervasive::cloned::<String>(
                                        rows_acc@[j as int]@[c],
                                        names@[c],
                                    ));
                                    assert(names@[c] == rows_acc@[j as int]@[c]);
                                }
                            }
                        }
                    }
                    match add_multiple_columns(&mut data, &names) {
                        Ok(_) => {},
                        Err(e) => {
                            return Err(e);
                        },
                    }
                    proof {
                        t = TableModel {
                            names: names@.map_values(|s: String| s@),
                            grid: Seq::empty(),
                        };
                        assert(data.grid() =~= str_grid(t.grid));
                        assert(forall|c: int|
                            0 <= c < t.names.len() ==> data.cols()[c] == plain_column(
                                #[trigger] t.names[c],
                            ));
                        assert forall|c: int|
                            0 <= c < t.names.len() implies data.widths()[c] == read_col_width(
                            t,
                            c,
                        ) by {
                            assert(col_max_width(str_grid(t.grid), c) == 0);
                        }
                    }
                    j = j + 1;
                    continue;
                } else {
                    let names = make_arbitrary_column(rows_acc[j].len());
                    proof {
                        lemma_synth_names_distinct(rows_acc@[j as int]@.len() as nat);
                    }
                    match add_multiple_columns(&mut data, &names) {
                        Ok(_) => {},
                        Err(_) => {
                            proof {
                                assert(false);
                            }
                        },
                    }
                    proof {
                        t = TableModel { names: synth_names(row_v.len()), grid: Seq::empty() };
                        assert(names@.map_values(|s: String| s@) == t.names);
                        assert(data.grid() =~= str_grid(t.grid));
                        assert(forall|c: int|
                            0 <= c < t.names.len() ==> data.cols()[c] == plain_column(
                                #[trigger] t.names[c],
                            ));
                        assert forall|c: int|
                            0 <= c < t.names.len() implies data.widths()[c] == read_col_width(
                            t,
                            c,
                        ) by {
                            assert(col_max_width(str_grid(t.grid), c) == 0);
                        }
                    }
                }
            }
            if rows_acc[j].len() != data.get_column_count() {
                data.drop_data();
                return Err(DcsvError::InvalidRowData("Row has different length".to_owned()));
            }
            let vals = row_to_values(&rows_acc[j], self.option.trim);
            let ghost data_row = if opt0.trim {
                trim_row(row_v)
            } else {
                row_v
            };
            let rc = data.get_row_count();
            let ghost pre = data;
            proof {
                assert(vals@.map_values(|v: Value| v@).len() == row_v.len());
                assert(vals@.len() == t.names.len());
                assert forall|c: int|
                    0 <= c < vals@.len() implies crate::value::spec_qualify(
                    data.cols()[c].limiter,
                    (#[trigger] vals@[c])@,
                ) by {
                    assert(vals@[c]@ == vals@.map_values(|v: Value| v@)[c]);
                    assert(data.cols()[c] == plain_column(t.names[c]));
                }
            }
            match data.insert_row(rc, Some(vals.as_slice())) {
                Ok(_) => {},
                Err(_) => {
                    proof {
                        assert(false);
                    }
                },
            }
            proof {
                let new_t = TableModel { names: t.names, grid: t.grid.push(data_row) };
                assert(data.grid() =~= str_grid(new_t.grid)) by {
                    assert(str_grid(new_t.grid) =~= str_grid(t.grid).push(
                        data_row.map_values(|f: Seq<char>| ValueModel::Str(f)),
                    ));
                    assert(pre.grid().insert(rc as int, vals@.map_values(|v: Value| v@))
                        =~= pre.grid().push(vals@.map_values(|v: Value| v@)));
                }
                assert forall|c: int|
                    0 <= c < new_t.names.len() implies data.widths()[c] == read_col_width(
                    new_t,
                    c,
                ) by {
                    assert(str_grid(new_t.grid) =~= str_grid(t.grid).push(
                        data_row.map_values(|f: Seq<char>| ValueModel::Str(f)),
                    ));
                    assert(str_grid(new_t.grid).drop_last() =~= str_grid(t.grid));
                    assert(str_grid(new_t.grid).last() == data_row.map_values(
                        |f: Seq<char>| ValueModel::Str(f),
                    ));
                    assert(vals@.map_values(|v: Value| v@)[c] == data_row.map_values(
                        |f: Seq<char>| ValueModel::Str(f),
                    )[c]);
                    assert(pre.widths()[c] == read_col_width(t, c));
                    assert(data.widths()[c] == (if val_width(
                        vals@.map_values(|v: Value| v@)[c],
                    ) > pre.widths()[c] {
                        val_width(vals@.map_values(|v: Value| v@)[c])
                    } else {
                        pre.widths()[c]
                    }));
                }
                t = new_t;
            }
            j = j + 1;
        }
        proof {
            assert(assemble_from(all_rows, nrows as int, opt0, cur_custom, t, false)
                == AsmOutcome::Table(t));
        }
        Ok(data)
    }
}

} // verus!

verus! {

impl Reader {
    /// Read a whole csv byte stream into a positional container, under the
    /// current options; duplicate column names are tolerated here.  Uses a
    /// fresh parser state; a custom header is consumed by the read that
    /// uses it.
    #[verifier::loop_isolation(false)]
    #[verifier::rlimit(100)]
    pub fn array_from_bytes(&mut self, bytes: &[u8]) -> (r: DcsvResult<VirtualArray>)
        ensures
            final(self)@.option == old(self)@.option || final(self)@.option == (ReadOptModel {
                custom_header: Seq::empty(),
                ..old(self)@.option
            }),
            reader_run(old(self)@.option, old(self)@.parser.line_delimiter, bytes@).failed ==> (
            r matches Err(e) && e is InvalidRowData),
            !reader_run(old(self)@.option, old(self)@.parser.line_delimiter, bytes@).failed ==> (
            match reader_assemble(
                old(self)@.option,
                old(self)@.parser.line_delimiter,
                bytes@,
                true,
            ) {
                AsmOutcome::Table(t) => r matches Ok(data) && array_matches_table(data, t),
                AsmOutcome::EmptyRowErr => r matches Err(e) && e is InvalidRowData,
                AsmOutcome::HeaderLenErr => r matches Err(e) && e is InvalidColumn,
                AsmOutcome::DupNameErr => r matches Err(e) && e is InvalidColumn,
                AsmOutcome::RowLenErr => r matches Err(e) && e is InvalidRowData,
            }),
    {
        let ghost opt0 = old(self)@.option;
        let ghost pld = old(self)@.parser.line_delimiter;
        let ld_b: u8 = match self.option.line_delimiter {
            Some(c) => (c as u32) as u8,
            None => 0x0a,
        };
        self.parser.reset();
        let mut segs: Vec<Vec<u8>> = split_stream(bytes, ld_b);
        let ghost segs_v = segs@.map_values(|s: Vec<u8>| s@);
        let ghost m0 = self@.parser;
        let ghost full = run_parser(
            m0,
            segs_v,
            opt0.delimiter,
            opt0.consume_dquote,
            opt0.allow_invalid_string,
        );
        proof {
            assert(full == reader_run(opt0, pld, bytes@));
        }

        let mut rows_acc: Vec<Vec<String>> = Vec::new();
        let nsegs = segs.len();
        let mut k: usize = 0;
        proof {
            assert(segs_v.skip(0) =~= segs_v);
            assert(rows_acc@.map_values(|row: Vec<String>| row@.map_values(|s: String| s@))
                + run_parser(
                self@.parser,
                segs_v.skip(0),
                opt0.delimiter,
                opt0.consume_dquote,
                opt0.allow_invalid_string,
            ).rows =~= full.rows);
        }
        while k < nsegs
            invariant
                k <= nsegs,
                nsegs == segs@.len() == segs_v.len(),
                self@.option == opt0,
                forall|j: int| k <= j < nsegs ==> (#[trigger] segs@[j])@ == segs_v[j],
                full.rows == rows_acc@.map_values(
                    |row: Vec<String>| row@.map_values(|s: String| s@),
                ) + run_parser(
                    self@.parser,
                    segs_v.skip(k as int),
                    opt0.delimiter,
                    opt0.consume_dquote,
                    opt0.allow_invalid_string,
                ).rows,
                full.failed == run_parser(
                    self@.parser,
                    segs_v.skip(k as int),
                    opt0.delimiter,
                    opt0.consume_dquote,
                    opt0.allow_invalid_string,
                ).failed,
            decreases nsegs - k,
        {
            let ghost rest = segs_v.skip(k as int);
            let ghost rest1 = segs_v.skip(k + 1);
            proof {
                assert(rest[0] == segs_v[k as int]);
                assert(rest.drop_first() =~= rest1);
            }
            let mut seg: Vec<u8> = Vec::new();
            {
                let slot = &mut segs[k];
                core::mem::swap(&mut seg, slot);
            }
            let ghost cur = self@.parser;
            match self.parser.feed_chunk(
                seg,
                self.option.delimiter,
                self.option.consume_dquote,
                self.option.allow_invalid_string,
            ) {
                Err(e) => {
                    proof {
                        assert(run_parser(
                            cur,
                            rest,
                            opt0.delimiter,
                            opt0.consume_dquote,
                            opt0.allow_invalid_string,
                        ).failed);
                    }
                    return Err(e);
                },
                Ok(out) => {
                    proof {
                        let chars = if opt0.allow_invalid_string {
                            utf8_decode_lossy(segs_v[k as int])
                        } else {
                            utf8_decode(segs_v[k as int])->0
                        };
                        let (m2, fields) = spec_feed(
                            cur,
                            normalize_crlf(chars),
                            opt0.delimiter,
                            opt0.consume_dquote,
                        );
                        assert(self@.parser == m2);
                        assert(crate::parser::rows_opt_view(out) == fields);
                    }
                    match out {
                        Some(row) => {
                            let ghost old_acc = rows_acc@;
                            rows_acc.push(row);
                            proof {
                                assert(rows_acc@.map_values(
                                    |row: Vec<String>| row@.map_values(|s: String| s@),
                                ) =~= old_acc.map_values(
                                    |row: Vec<String>| row@.map_values(|s: String| s@),
                                ).push(row@.map_values(|s: String| s@)));
                                assert(full.rows =~= rows_acc@.map_values(
                                    |row: Vec<String>| row@.map_values(|s: String| s@),
                                ) + run_parser(
                                    self@.parser,
                                    rest1,
                                    opt0.delimiter,
                                    opt0.consume_dquote,
                                    opt0.allow_invalid_string,
                                ).rows);
                            }
                        },
                        None => {
                            proof {
                                assert(full.rows =~= rows_acc@.map_values(
                                    |row: Vec<String>| row@.map_values(|s: String| s@),
                                ) + run_parser(
                                    self@.parser,
                                    rest1,
                                    opt0.delimiter,
                                    opt0.consume_dquote,
                                    opt0.allow_invalid_string,
                                ).rows);
                            }
                        },
                    }
                },
            }
            k = k + 1;
        }
        let ghost all_rows = rows_acc@.map_values(
            |row: Vec<String>| row@.map_values(|s: String| s@),
        );
        proof {
            assert(segs_v.skip(nsegs as int) =~= Seq::<Seq<u8>>::empty());
            assert(all_rows + Seq::<Seq<Seq<char>>>::empty() =~= all_rows);
            assert(full.rows == all_rows);
            assert(!full.failed);
        }

        let mut data = VirtualArray::new();
        let ghost custom0 = opt0.custom_header;
        let ghost mut t = TableModel { names: Seq::empty(), grid: Seq::empty() };
        let ghost mut cur_custom = custom0;
        let nrows = rows_acc.len();
        let mut j: usize = 0;
        proof {
            assert(t.names =~= Seq::<Seq<char>>::empty());
            assert(data.grid() =~= str_grid(t.grid));
        }
        while j < nrows
            invariant
                j <= nrows,
                nrows == rows_acc@.len(),
                all_rows == rows_acc@.map_values(
                    |row: Vec<String>| row@.map_values(|s: String| s@),
                ),
                self@.option.custom_header == cur_custom,
                self@.option == (ReadOptModel { custom_header: cur_custom, ..opt0 }),
                cur_custom == custom0 || cur_custom == Seq::<Seq<char>>::empty(),
                data.wf(),
                data.cols().len() == t.names.len(),
                forall|c: int|
                    0 <= c < t.names.len() ==> data.cols()[c] == plain_column(
                        #[trigger] t.names[c],
                    ),
                data.grid() == str_grid(t.grid),
                data.grid().len() == t.grid.len(),
                data.widths().len() == t.names.len(),
                forall|c: int|
                    0 <= c < t.names.len() ==> data.widths()[c] == read_col_width_arr(t, c),
                assemble_from(all_rows, 0, opt0, custom0, TableModel {
                    names: Seq::empty(),
                    grid: Seq::empty(),
                }, true) == assemble_from(all_rows, j as int, opt0, cur_custom, t, true),
            decreases nrows - j,
        {
            let ghost row_v = all_rows[j as int];
            proof {
                assert(rows_acc@[j as int]@.map_values(|s: String| s@) == row_v);
            }
            let blank = row_is_blank(&rows_acc[j]);
            if blank {
                if self.option.ignore_empty_row {
                    j = j + 1;
                    continue;
                } else {
                    return Err(
                        DcsvError::InvalidRowData("Empty row is unallowed by reader option".to_owned()),
                    );
                }
            }
            if data.get_column_count() == 0 {
                if data.get_row_count() > 0 {
                    data.drop_data();
                    proof {
                        t = TableModel { names: Seq::empty(), grid: Seq::empty() };
                        assert(data.grid() =~= str_grid(t.grid));
                    }
                }
                if self.option.custom_header.len() > 0 {
                    if self.option.custom_header.len() != rows_acc[j].len() {
                        return Err(
                            DcsvError::InvalidColumn(
                                "Custom header has different length than the row".to_owned(),
                            ),
                        );
                    }
                    let mut header: Vec<String> = Vec::new();
                    core::mem::swap(&mut header, &mut self.option.custom_header);
                    proof {
                        cur_custom = Seq::empty();
                        assert(self@.option.custom_header =~= cur_custom);
                        assert(self@.option == (ReadOptModel { custom_header: cur_custom, ..opt0 }));
                    }
                    add_array_columns(&mut data, &header);
                    proof {
                        t = TableModel {
                            names: header@.map_values(|s: String| s@),
                            grid: Seq::empty(),
                        };
                        assert(data.grid() =~= str_grid(t.grid));
                        assert(forall|c: int|
                            0 <= c < t.names.len() ==> data.cols()[c] == plain_column(
                                #[trigger] t.names[c],
                            ));
                        assert forall|c: int|
                            0 <= c < t.names.len() implies data.widths()[c] == read_col_width_arr(
                            t,
                            c,
                        ) by {
                            assert(col_max_width(str_grid(t.grid), c) == 0);
                        }
                    }
                } else if self.option.read_header {
                    let names: Vec<String> = if self.option.trim {
                        let mut trimmed: Vec<String> = Vec::new();
                        let m = rows_acc[j].len();
                        let mut c: usize = 0;
                        proof {
                            assert(trimmed@.map_values(|s: String| s@) =~= trim_row(row_v).take(0));
                        }
                        while c < m
                            invariant
                                c <= m,
                                m == rows_acc@[j as int]@.len(),
                                j < rows_acc@.len(),
                                row_v == rows_acc@[j as int]@.map_values(|s: String| s@),
                                trimmed@.map_values(|s: String| s@) == trim_row(row_v).take(
                                    c as int,
                                ),
                            decreases m - c,
                        {
                            let ghost old_t = trimmed@;
                            let row_ref = &rows_acc[j];
                            let cs = crate::chars::chars_of(row_ref[c].as_str());
                            let tc = trim_chars(&cs);
                            trimmed.push(string_from_chars(tc.as_slice()));
                            proof {
                                assert(trimmed@.map_values(|s: String| s@) =~= old_t.map_values(
                                    |s: String| s@,
                                ).push(spec_trim(row_v[c as int])));
                                assert(trim_row(row_v).take(c + 1) =~= trim_row(row_v).take(
                                    c as int,
                                ).push(spec_trim(row_v[c as int])));
                            }
                            c = c + 1;
                        }
                        proof {
                            assert(trim_row(row_v).take(m as int) =~= trim_row(row_v));
                        }
                        trimmed
                    } else {
                        rows_acc[j].clone()
                    };
                    proof {
                        if !self@.option.trim {
                            assert(names@.map_values(|s: String| s@) =~= row_v) by {
                                assert(names@.len() == rows_acc@[j as int]@.len());
                                assert forall|c: int|
                                    0 <= c < names@.len() implies names@.map_values(
                                    |s: String| s@,
                                )[c] == row_v[c] by {
                                    assert(vstd::pervasive::cloned::<String>(
                                        rows_acc@[j as int]@[c],
                                        names@[c],
                                    ));
                                    assert(names@[c] == rows_acc@[j as int]@[c]);
                                }
                            }
                        }
                    }
                    add_array_columns(&mut data, &names);
                    proof {
                        t = TableModel {
                            names: names@.map_values(|s: String| s@),
                            grid: Seq::empty(),
                        };
                        assert(data.grid() =~= str_grid(t.grid));
                        assert(forall|c: int|
                            0 <= c < t.names.len() ==> data.cols()[c] == plain_column(
                                #[trigger] t.names[c],
                            ));
                        assert forall|c: int|
                            0 <= c < t.names.len() implies data.widths()[c] == read_col_width_arr(
                            t,
                            c,
                        ) by {
                            assert(col_max_width(str_grid(t.grid), c) == 0);
                        }
                    }
                    j = j + 1;
                    continue;
                } else {
                    let names = make_arbitrary_column(rows_acc[j].len());
                    add_array_columns(&mut data, &names);
                    proof {
                        t = TableModel { names: synth_names(row_v.len()), grid: Seq::empty() };
                        assert(names@.map_values(|s: String| s@) == t.names);
                        assert(data.grid() =~= str_grid(t.grid));
                        assert(forall|c: int|
                            0 <= c < t.names.len() ==> data.cols()[c] == plain_column(
                                #[trigger] t.names[c],
                            ));
                        assert forall|c: int|
                            0 <= c < t.names.len() implies data.widths()[c] == read_col_width_arr(
                            t,
                            c,
                        ) by {
                            assert(col_max_width(str_grid(t.grid), c) == 0);
                        }
                    }
                }
            }
            if rows_acc[j].len() != data.get_column_count() {
                data.drop_data();
                return Err(DcsvError::InvalidRowData("Row has different length".to_owned()));
            }
            let vals = row_to_values(&rows_acc[j], self.option.trim);
            let ghost data_row = if opt0.trim {
                trim_row(row_v)
            } else {
                row_v
            };
            let rc = data.get_row_count();
            let ghost pre = data;
            proof {
                assert(vals@.map_values(|v: Value| v@).len() == row_v.len());
                assert(vals@.len() == t.names.len());
            }
            match data.insert_row(rc, Some(vals.as_slice())) {
                Ok(_) => {},
                Err(_) => {
                    proof {
                        assert(false);
                    }
                },
            }
            proof {
                let new_t = TableModel { names: t.names, grid: t.grid.push(data_row) };
                assert(data.grid() =~= str_grid(new_t.grid)) by {
                    assert(str_grid(new_t.grid) =~= str_grid(t.grid).push(
                        data_row.map_values(|f: Seq<char>| ValueModel::Str(f)),
                    ));
                    assert(pre.grid().insert(rc as int, vals@.map_values(|v: Value| v@))
                        =~= pre.grid().push(vals@.map_values(|v: Value| v@)));
                }
                assert forall|c: int|
                    0 <= c < new_t.names.len() implies data.widths()[c] == read_col_width_arr(
                    new_t,
                    c,
                ) by {
                    assert(str_grid(new_t.grid) =~= str_grid(t.grid).push(
                        data_row.map_values(|f: Seq<char>| ValueModel::Str(f)),
                    ));
                    assert(str_grid(new_t.grid).drop_last() =~= str_grid(t.grid));
                    assert(str_grid(new_t.grid).last() == data_row.map_values(
                        |f: Seq<char>| ValueModel::Str(f),
                    ));
                    assert(vals@.map_values(|v: Value| v@)[c] == data_row.map_values(
                        |f: Seq<char>| ValueModel::Str(f),
                    )[c]);
                    assert(pre.widths()[c] == read_col_width_arr(t, c));
                    assert(data.widths()[c] == (if val_width(
                        vals@.map_values(|v: Value| v@)[c],
                    ) > pre.widths()[c] {
                        val_width(vals@.map_values(|v: Value| v@)[c])
                    } else {
                        pre.widths()[c]
                    }));
                }
                t = new_t;
            }
            j = j + 1;
        }
        proof {
            assert(assemble_from(all_rows, nrows as int, opt0, cur_custom, t, true)
                == AsmOutcome::Table(t));
        }
        Ok(data)
    }
}

} // verus!
