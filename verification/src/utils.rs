//! Helpers for splitting a single already-read CSV line.

use vstd::prelude::*;
use crate::chars::{chars_of, string_from_chars};
use crate::error::DcsvResult;
use crate::parser::{spec_delim, utf8_decode};

verus! {

/// The state of the single-line splitter: fields already flushed, the field
/// being built, the quote flag and the previous character.
pub ghost struct RowScanState {
    pub fields: Seq<Seq<char>>,
    pub chunk: Seq<char>,
    pub on_quote: bool,
    pub previous: char,
}

/// One step of the single-line splitter; unlike the streaming parser it
/// looks at quotes before the delimiter, so a quote character never acts as
/// a field delimiter.
pub open spec fn row_scan_step(
    st: RowScanState,
    ch: char,
    peek: Option<char>,
    delim: char,
) -> RowScanState {
    if ch == '"' {
        if st.previous == '"' {
            RowScanState { chunk: st.chunk.push(ch), previous: ' ', ..st }
        } else {
            let quoting = if peek == Some('"') {
                st.on_quote
            } else {
                !st.on_quote
            };
            RowScanState { on_quote: quoting, previous: ch, chunk: st.chunk.push(ch), ..st }
        }
    } else if ch == delim && !st.on_quote {
        RowScanState { fields: st.fields.push(st.chunk), chunk: Seq::empty(), previous: ch, ..st }
    } else if ch == delim {
        RowScanState { chunk: st.chunk.push(ch), ..st }
    } else {
        RowScanState { chunk: st.chunk.push(ch), previous: ch, ..st }
    }
}

/// The single-line splitter run from position `i` on.
pub open spec fn row_scan_from(chars: Seq<char>, i: int, st: RowScanState, delim: char) -> RowScanState
    decreases chars.len() - i,
{
    if i < 0 || i >= chars.len() {
        st
    } else {
        let peek = if i + 1 < chars.len() {
            Some(chars[i + 1])
        } else {
            None::<char>
        };
        row_scan_from(chars, i + 1, row_scan_step(st, chars[i], peek, delim), delim)
    }
}

/// The fields a single line splits into: every flushed field, and the last
/// chunk, which is always a field, even when empty.
pub open spec fn row_fields(line: Seq<char>, delim: char) -> Seq<Seq<char>> {
    let st0 = RowScanState {
        fields: Seq::empty(),
        chunk: Seq::empty(),
        on_quote: false,
        previous: ' ',
    };
    let st1 = row_scan_from(line, 0, st0, delim);
    st1.fields.push(st1.chunk)
}

/// Split one csv line into its fields, honouring quotes and escaped quotes.
#[verifier::loop_isolation(false)]
pub fn csv_row_to_vector(line: &str, delimiter: Option<char>) -> (r: Vec<String>)
    ensures
        r@.map_values(|s: String| s@) == row_fields(line@, spec_delim(delimiter)),
{
    let cs = chars_of(line);
    let ghost csv = cs@;
    let d: char = match delimiter {
        Some(c) => c,
        None => ',',
    };
    let ghost st0 = RowScanState {
        fields: Seq::empty(),
        chunk: Seq::empty(),
        on_quote: false,
        previous: ' ',
    };
    let mut split: Vec<String> = Vec::new();
    let mut chunk: Vec<char> = Vec::new();
    let mut on_quote: bool = false;
    let mut previous: char = ' ';
    let n = cs.len();
    let mut i: usize = 0;
    proof {
        assert(split@.map_values(|s: String| s@) =~= Seq::<Seq<char>>::empty());
        assert(chunk@ =~= Seq::<char>::empty());
    }
    while i < n
        invariant
            i <= n,
            n == csv.len(),
            row_scan_from(csv, 0, st0, d) == row_scan_from(
                csv,
                i as int,
                RowScanState {
                    fields: split@.map_values(|s: String| s@),
                    chunk: chunk@,
                    on_quote: on_quote,
                    previous: previous,
                },
                d,
            ),
        decreases n - i,
    {
        let ghost cur = RowScanState {
            fields: split@.map_values(|s: String| s@),
            chunk: chunk@,
            on_quote: on_quote,
            previous: previous,
        };
        let ch = cs[i];
        let ghost peek = if i + 1 < n {
            Some(csv[i + 1])
        } else {
            None::<char>
        };
        proof {
            assert(row_scan_from(csv, i as int, cur, d) == row_scan_from(
                csv,
                i + 1,
                row_scan_step(cur, csv[i as int], peek, d),
                d,
            ));
        }
        if ch == '"' {
            if previous == '"' {
                previous = ' ';
                chunk.push(ch);
            } else {
                let next_is_quote = i + 1 < n && cs[i + 1] == '"';
                if !next_is_quote {
                    on_quote = !on_quote;
                }
                previous = ch;
                chunk.push(ch);
            }
        } else if ch == d && !on_quote {
            let ghost old_split = split@;
            let flushed = string_from_chars(chunk.as_slice());
            split.push(flushed);
            chunk = Vec::new();
            previous = ch;
            proof {
                assert(split@.map_values(|s: String| s@) =~= old_split.map_values(
                    |s: String| s@,
                ).push(cur.chunk));
                assert(chunk@ =~= Seq::<char>::empty());
            }
        } else {
            if ch != d {
                previous = ch;
            }
            chunk.push(ch);
        }
        i = i + 1;
    }
    let ghost old_split = split@;
    let last = string_from_chars(chunk.as_slice());
    split.push(last);
    proof {
        assert(split@.map_values(|s: String| s@) =~= old_split.map_values(|s: String| s@).push(
            chunk@,
        ));
    }
    split
}

/// The bytes carried by an optional read result, when it holds any.
pub open spec fn split_view(split: Option<&std::io::Result<Vec<u8>>>) -> Option<Seq<u8>> {
    match split {
        Some(res) => match res {
            Ok(bytes) => Some(bytes@),
            Err(_) => None,
        },
        None => None,
    }
}

/// A byte-for-byte copy of a slice.
fn copy_bytes(v: &[u8]) -> (r: Vec<u8>)
    ensures
        r@ == v@,
{
    let mut r: Vec<u8> = Vec::new();
    let mut i: usize = 0;
    while i < v.len()
        invariant
            i <= v@.len(),
            r@ == v@.take(i as int),
        decreases v@.len() - i,
    {
        r.push(v[i]);
        proof {
            assert(v@.take(i + 1) =~= v@.take(i as int).push(v@[i as int]));
        }
        i = i + 1;
    }
    proof {
        assert(v@.take(v@.len() as int) =~= v@);
    }
    r
}

/// Split a csv row taken from a byte-reading iterator.  A missing entry, a
/// read failure or invalid UTF-8 all yield `None` rather than an error.
pub fn csv_row_from_split(
    split: Option<&std::io::Result<Vec<u8>>>,
    delimiter: Option<char>,
) -> (r: DcsvResult<Option<Vec<String>>>)
    ensures
        r is Ok,
        (r->Ok_0 is Some) <==> (split_view(split) matches Some(b) && utf8_decode(b) is Some),
        r->Ok_0 matches Some(fields) ==> ({
            let decoded = utf8_decode(split_view(split)->0);
            decoded is Some && fields@.map_values(|s: String| s@) == row_fields(
                decoded->0,
                spec_delim(delimiter),
            )
        }),
{
    match split {
        Some(res) => match res {
            Ok(bytes) => {
                let copied = copy_bytes(bytes.as_slice());
                match crate::parser::utf8_to_string(copied) {
                    Some(src) => Ok(Some(csv_row_to_vector(src.as_str(), delimiter))),
                    None => Ok(None),
                }
            },
            Err(_) => Ok(None),
        },
        None => Ok(None),
    }
}

} // verus!
