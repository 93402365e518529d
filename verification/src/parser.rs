//! The streaming, quote-aware field splitter.
//!
//! The parser consumes one physical line at a time, as raw bytes, and
//! assembles logical CSV rows: a quoted field may legitimately span
//! several physical lines, so a chunk need not complete a row.

use vstd::prelude::*;
use crate::chars::{chars_of, string_from_chars};
use crate::error::{DcsvError, DcsvResult};

verus! {

/// What `String::from_utf8` yields: the characters decoded from the bytes,
/// or nothing when they are not valid UTF-8; a function of the bytes alone.
pub uninterp spec fn utf8_decode(bytes: Seq<u8>) -> Option<Seq<char>>;

/// What `String::from_utf8_lossy` yields: the decoded characters, with
/// invalid sequences replaced; a function of the bytes alone.
pub uninterp spec fn utf8_decode_lossy(bytes: Seq<u8>) -> Seq<char>;

/// Relies on `String::from_utf8`: decoding succeeds exactly on valid UTF-8
/// and depends on the bytes alone.
#[verifier::external_body]
pub(crate) fn utf8_to_string(bytes: Vec<u8>) -> (r: Option<String>)
    ensures
        r matches Some(s) ==> utf8_decode(bytes@) == Some(s@),
        r is None <==> utf8_decode(bytes@) is None,
{
    match String::from_utf8(bytes) {
        Ok(s) => Some(s),
        Err(_) => None,
    }
}

/// Relies on `String::from_utf8_lossy`: the replacement result depends on
/// the bytes alone, and valid UTF-8 decodes unchanged.
#[verifier::external_body]
fn utf8_to_string_lossy(bytes: &[u8]) -> (r: String)
    ensures
        r@ == utf8_decode_lossy(bytes@),
        utf8_decode(bytes@) matches Some(s) ==> r@ == s,
{
    String::from_utf8_lossy(bytes).into_owned()
}

/// The characters with every `\r\n` pair collapsed to `\n`, the
/// normalization applied to each chunk before scanning.
pub open spec fn normalize_crlf(s: Seq<char>) -> Seq<char>
    decreases s.len(),
{
    if s.len() >= 2 && s[0] == '\r' && s[1] == '\n' {
        seq!['\n'] + normalize_crlf(s.subrange(2, s.len() as int))
    } else if s.len() > 0 {
        seq![s[0]] + normalize_crlf(s.drop_first())
    } else {
        Seq::empty()
    }
}

fn normalize_crlf_chars(v: &Vec<char>) -> (r: Vec<char>)
    ensures
        r@ == normalize_crlf(v@),
{
    let n = v.len();
    let mut r: Vec<char> = Vec::new();
    let mut i: usize = 0;
    proof {
        assert(v@.skip(0) =~= v@);
        assert(r@ + normalize_crlf(v@) =~= normalize_crlf(v@));
    }
    while i < n
        invariant
            i <= n,
            n == v@.len(),
            normalize_crlf(v@) == r@ + normalize_crlf(v@.skip(i as int)),
        decreases n - i,
    {
        let ghost rest = v@.skip(i as int);
        let ghost old_r = r@;
        if v[i] == '\r' && i + 1 < n && v[i + 1] == '\n' {
            r.push('\n');
            proof {
                assert(rest.subrange(2, rest.len() as int) =~= v@.skip(i + 2));
                assert(old_r + normalize_crlf(rest) =~= r@ + normalize_crlf(v@.skip(i + 2)));
            }
            i = i + 2;
        } else {
            r.push(v[i]);
            proof {
                assert(rest.drop_first() =~= v@.skip(i + 1));
                assert(normalize_crlf(rest) =~= seq![rest[0]] + normalize_crlf(rest.drop_first()));
                assert(old_r + normalize_crlf(rest) =~= r@ + normalize_crlf(v@.skip(i + 1)));
            }
            i = i + 1;
        }
    }
    proof {
        assert(v@.skip(n as int) =~= Seq::<char>::empty());
        assert(r@ + normalize_crlf(Seq::<char>::empty()) =~= r@);
    }
    r
}

/// The scanner's state: fields already flushed, the field being built,
/// whether a quote is open, and the previous character seen in this chunk.
pub ghost struct ScanState {
    pub container: Seq<Seq<char>>,
    pub value: Seq<char>,
    pub on_quote: bool,
    pub previous: char,
}

/// One step of the field scanner on `ch`, with `peek` the character after
/// it, if any.  A field delimiter outside quotes flushes the field; a
/// double quote toggles the quote state unless it begins or ends an escaped
/// pair, of which one literal quote is kept.
pub open spec fn scan_step(
    st: ScanState,
    ch: char,
    peek: Option<char>,
    delim: char,
    consume_dquote: bool,
) -> ScanState {
    if ch == delim && !st.on_quote {
        ScanState { container: st.container.push(st.value), value: Seq::empty(), previous: ch, ..st }
    } else if ch == delim {
        ScanState { value: st.value.push(ch), ..st }
    } else if ch == '"' {
        if st.previous == '"' {
            ScanState { value: st.value.push(ch), previous: ' ', ..st }
        } else {
            let quoting = if peek == Some('"') {
                st.on_quote
            } else {
                !st.on_quote
            };
            if consume_dquote {
                ScanState { on_quote: quoting, previous: ch, ..st }
            } else {
                ScanState { on_quote: quoting, previous: ch, value: st.value.push(ch), ..st }
            }
        }
    } else {
        ScanState { value: st.value.push(ch), previous: ch, ..st }
    }
}

/// The scanner run over the characters from position `i` on.
pub open spec fn scan_from(
    chars: Seq<char>,
    i: int,
    st: ScanState,
    delim: char,
    consume_dquote: bool,
) -> ScanState
    decreases chars.len() - i,
{
    if i < 0 || i >= chars.len() {
        st
    } else {
        let peek = if i + 1 < chars.len() {
            Some(chars[i + 1])
        } else {
            None::<char>
        };
        scan_from(
            chars,
            i + 1,
            scan_step(st, chars[i], peek, delim, consume_dquote),
            delim,
            consume_dquote,
        )
    }
}

/// The string without one trailing line-delimiter character, if present:
/// that character is an artifact of the physical-line split, not data.
pub open spec fn strip_line_delim(v: Seq<char>, ld: char) -> Seq<char> {
    if v.len() > 0 && v.last() == ld {
        v.drop_last()
    } else {
        v
    }
}

/// The completed fields of a chunk whose quotes are balanced: the flushed
/// fields, then the last field if it is non-empty or the chunk ended right
/// after a delimiter (an empty final field is still a field).
pub open spec fn finalize_fields(st: ScanState, delim: char, ld: char) -> Seq<Seq<char>> {
    if st.value.len() > 0 || st.previous == delim {
        st.container.push(strip_line_delim(st.value, ld))
    } else {
        st.container
    }
}

/// The parser's persistent state between chunks.
pub ghost struct ParserModel {
    pub container: Seq<Seq<char>>,
    pub remnant: Seq<char>,
    pub on_quote: bool,
    pub line_delimiter: Option<char>,
}

/// The field delimiter in effect: the configured one, or a comma.
pub open spec fn spec_delim(delim: Option<char>) -> char {
    match delim {
        Some(c) => c,
        None => ',',
    }
}

/// The line delimiter in effect: the configured one, or a newline.
pub open spec fn spec_line_delim(ld: Option<char>) -> char {
    match ld {
        Some(c) => c,
        None => '\n',
    }
}

/// What feeding one decoded, normalized chunk does to the parser: scan the
/// characters from the stashed state, then either stash an unterminated
/// field or emit the completed row and reset.
pub open spec fn spec_feed(
    m: ParserModel,
    chars: Seq<char>,
    delim: Option<char>,
    consume_dquote: bool,
) -> (ParserModel, Option<Seq<Seq<char>>>) {
    let d = spec_delim(delim);
    let st0 = ScanState {
        container: m.container,
        value: m.remnant,
        on_quote: m.on_quote,
        previous: '0',
    };
    let st1 = scan_from(chars, 0, st0, d, consume_dquote);
    if st1.on_quote {
        (
            ParserModel {
                container: st1.container,
                remnant: st1.value,
                on_quote: true,
                line_delimiter: m.line_delimiter,
            },
            None,
        )
    } else {
        (
            ParserModel {
                container: Seq::empty(),
                remnant: Seq::empty(),
                on_quote: false,
                line_delimiter: m.line_delimiter,
            },
            Some(finalize_fields(st1, d, spec_line_delim(m.line_delimiter))),
        )
    }
}

/// The view of an optional row of fields.
pub open spec fn rows_opt_view(out: Option<Vec<String>>) -> Option<Seq<Seq<char>>> {
    match out {
        Some(v) => Some(v@.map_values(|s: String| s@)),
        None => None,
    }
}

/// The stateful quote-aware field splitter.
pub struct Parser {
    container: Vec<String>,
    remnant: String,
    on_quote: bool,
    line_delimiter: Option<char>,
}

impl View for Parser {
    type V = ParserModel;

    closed spec fn view(&self) -> ParserModel {
        ParserModel {
            container: self.container@.map_values(|s: String| s@),
            remnant: self.remnant@,
            on_quote: self.on_quote,
            line_delimiter: self.line_delimiter,
        }
    }
}

impl Parser {
    /// A fresh parser: nothing stashed, default line delimiter.
    pub fn new() -> (r: Self)
        ensures
            r@ == (ParserModel {
                container: Seq::empty(),
                remnant: Seq::empty(),
                on_quote: false,
                line_delimiter: None,
            }),
    {
        let r = Self {
            container: Vec::new(),
            remnant: String::new(),
            on_quote: false,
            line_delimiter: None,
        };
        proof {
            assert(r@.container =~= Seq::<Seq<char>>::empty());
        }
        r
    }

    /// Forget any partially assembled row; the line delimiter stays.
    pub fn reset(&mut self)
        ensures
            final(self)@ == (ParserModel {
                container: Seq::empty(),
                remnant: Seq::empty(),
                on_quote: false,
                line_delimiter: old(self)@.line_delimiter,
            }),
    {
        self.container.clear();
        self.remnant = String::new();
        self.on_quote = false;
        proof {
            assert(self@.container =~= Seq::<Seq<char>>::empty());
        }
    }

    /// Configure the line delimiter whose trailing occurrence is stripped
    /// from a row's last field.
    pub fn set_line_delimiter(&mut self, delimiter: char)
        ensures
            final(self)@ == (ParserModel { line_delimiter: Some(delimiter), ..old(self)@ }),
    {
        self.line_delimiter = Some(delimiter);
    }

    /// Feed one physical line to the parser.  Returns the completed row
    /// once the chunk closes all quotes, and `None` while a quoted field is
    /// still open.  Bytes that are not valid UTF-8 are an error unless
    /// `allow_invalid_string` asks for replacement.
    #[verifier::loop_isolation(false)]
    pub fn feed_chunk(
        &mut self,
        chunk: Vec<u8>,
        delim: Option<char>,
        consume_dquote: bool,
        allow_invalid_string: bool,
    ) -> (r: DcsvResult<Option<Vec<String>>>)
        ensures
            r is Err <==> !allow_invalid_string && utf8_decode(chunk@) is None,
            r matches Err(e) ==> final(self)@ == old(self)@ && e is InvalidRowData,
            r matches Ok(out) ==> ({
                let chars = if allow_invalid_string {
                    utf8_decode_lossy(chunk@)
                } else {
                    utf8_decode(chunk@)->0
                };
                let (m2, fields) = spec_feed(
                    old(self)@,
                    normalize_crlf(chars),
                    delim,
                    consume_dquote,
                );
                final(self)@ == m2 && rows_opt_view(out) == fields
            }),
    {
        let line: String = if allow_invalid_string {
            utf8_to_string_lossy(chunk.as_slice())
        } else {
            match utf8_to_string(chunk) {
                Some(s) => s,
                None => {
                    return Err(
                        DcsvError::InvalidRowData(
                            "Chunk is not a valid utf-8 byte sequence".to_owned(),
                        ),
                    );
                },
            }
        };
        let raw = chars_of(line.as_str());
        let cs = normalize_crlf_chars(&raw);
        let ghost csv = cs@;

        let d: char = match delim {
            Some(c) => c,
            None => ',',
        };
        let ghost st0 = ScanState {
            container: old(self)@.container,
            value: old(self)@.remnant,
            on_quote: old(self)@.on_quote,
            previous: '0',
        };

        let mut value: Vec<char> = chars_of(self.remnant.as_str());
        self.remnant = String::new();
        let mut previous: char = '0';
        let n = cs.len();
        let mut i: usize = 0;
        while i < n
            invariant
                i <= n,
                n == csv.len(),
                self.line_delimiter == old(self)@.line_delimiter,
                self.remnant@ == Seq::<char>::empty(),
                scan_from(csv, 0, st0, d, consume_dquote) == scan_from(
                    csv,
                    i as int,
                    ScanState {
                        container: self.container@.map_values(|s: String| s@),
                        value: value@,
                        on_quote: self.on_quote,
                        previous: previous,
                    },
                    d,
                    consume_dquote,
                ),
            decreases n - i,
        {
            let ghost cur = ScanState {
                container: self.container@.map_values(|s: String| s@),
                value: value@,
                on_quote: self.on_quote,
                previous: previous,
            };
            let ch = cs[i];
            let ghost peek = if i + 1 < n {
                Some(csv[i + 1])
            } else {
                None::<char>
            };
            proof {
                assert(scan_from(csv, i as int, cur, d, consume_dquote) == scan_from(
                    csv,
                    i + 1,
                    scan_step(cur, csv[i as int], peek, d, consume_dquote),
                    d,
                    consume_dquote,
                ));
            }
            if ch == d && !self.on_quote {
                let ghost old_container = self.container@;
                let flushed = string_from_chars(value.as_slice());
                self.container.push(flushed);
                value = Vec::new();
                previous = ch;
                proof {
                    assert(self.container@.map_values(|s: String| s@) =~= old_container.map_values(
                        |s: String| s@,
                    ).push(cur.value));
                    assert(value@ =~= Seq::<char>::empty());
                }
            } else if ch == d {
                value.push(ch);
            } else if ch == '"' {
                if previous == '"' {
                    previous = ' ';
                    value.push(ch);
                } else {
                    let next_is_quote = i + 1 < n && cs[i + 1] == '"';
                    if !next_is_quote {
                        self.on_quote = !self.on_quote;
                    }
                    previous = ch;
                    if !consume_dquote {
                        value.push(ch);
                    }
                }
            } else {
                previous = ch;
                value.push(ch);
            }
            i = i + 1;
        }
        let ghost st1 = scan_from(csv, 0, st0, d, consume_dquote);
        proof {
            assert(st1 == ScanState {
                container: self.container@.map_values(|s: String| s@),
                value: value@,
                on_quote: self.on_quote,
                previous: previous,
            });
        }

        if self.on_quote {
            self.remnant = string_from_chars(value.as_slice());
            Ok(None)
        } else {
            if value.len() > 0 || previous == d {
                let ld: char = match self.line_delimiter {
                    Some(c) => c,
                    None => '\n',
                };
                if value.len() > 0 && value[value.len() - 1] == ld {
                    let _ = value.pop();
                    proof {
                        assert(value@ =~= strip_line_delim(st1.value, ld));
                    }
                }
                let ghost old_container = self.container@;
                let last = string_from_chars(value.as_slice());
                self.container.push(last);
                proof {
                    assert(self.container@.map_values(|s: String| s@) =~= old_container.map_values(
                        |s: String| s@,
                    ).push(strip_line_delim(st1.value, spec_line_delim(old(self)@.line_delimiter))));
                }
            }
            let mut out: Vec<String> = Vec::new();
            core::mem::swap(&mut out, &mut self.container);
            proof {
                assert(self.container@.map_values(|s: String| s@) =~= Seq::<Seq<char>>::empty());
                assert(out@.map_values(|s: String| s@) == finalize_fields(
                    st1,
                    d,
                    spec_line_delim(old(self)@.line_delimiter),
                ));
            }
            Ok(Some(out))
        }
    }
}

} // verus!
