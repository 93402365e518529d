//! The general properties the library states about itself, proved once
//! and for all inputs.

use vstd::prelude::*;
use crate::chars::{is_blank, join_char};
use crate::parser::{
    finalize_fields, normalize_crlf, scan_from, scan_step, spec_delim, spec_feed, spec_line_delim,
    ParserModel, ScanState,
};
use crate::reader::assemble_from;
use crate::value::{spec_qualify, val_type, LimiterModel, ValueModel};
use crate::virtual_data::{col_max_width, VirtualData};

verus! {

/// A column limited to a finite variant set accepts exactly the values of
/// that set, and only at the limiter's type: everything else is rejected.
pub proof fn lemma_variant_qualify(lim: LimiterModel, v: ValueModel)
    requires
        lim.variant is Some,
    ensures
        spec_qualify(lim, v) <==> (val_type(v) == lim.value_type && lim.variant->0.contains(v)),
{
}

/// The widest width of a grid column bounds every cell in it, and is
/// attained by one of them; so after a deletion rescans a column, the
/// tracked width is the true remaining maximum.
pub proof fn lemma_col_max_width_exact(grid: Seq<Seq<ValueModel>>, c: int)
    ensures
        forall|r: int|
            0 <= r < grid.len() ==> crate::value::val_width(#[trigger] grid[r][c])
                <= col_max_width(grid, c),
        grid.len() > 0 ==> exists|r: int|
            0 <= r < grid.len() && crate::value::val_width(#[trigger] grid[r][c]) == col_max_width(
                grid,
                c,
            ),
    decreases grid.len(),
{
    if grid.len() > 0 {
        lemma_col_max_width_exact(grid.drop_last(), c);
        assert(forall|r: int|
            0 <= r < grid.len() - 1 ==> grid[r] == (#[trigger] grid.drop_last()[r]));
        assert forall|r: int|
            0 <= r < grid.len() implies crate::value::val_width(#[trigger] grid[r][c])
            <= col_max_width(grid, c) by {
            if r < grid.len() - 1 {
                assert(grid[r] == grid.drop_last()[r]);
                assert(crate::value::val_width(grid.drop_last()[r][c]) <= col_max_width(
                    grid.drop_last(),
                    c,
                ));
            } else {
                assert(grid[r] == grid.last());
            }
        }
        if crate::value::val_width(grid.last()[c]) >= col_max_width(grid.drop_last(), c) {
            assert(col_max_width(grid, c) == crate::value::val_width(
                grid[grid.len() - 1][c],
            ));
        } else {
            assert(grid.drop_last().len() > 0) by {
                if grid.drop_last().len() == 0 {
                    assert(col_max_width(grid.drop_last(), c) == 0);
                }
            }
            let r0 = choose|r0: int|
                0 <= r0 < grid.drop_last().len() && crate::value::val_width(
                    #[trigger] grid.drop_last()[r0][c],
                ) == col_max_width(grid.drop_last(), c);
            assert(grid[r0] == grid.drop_last()[r0]);
            assert(crate::value::val_width(grid[r0][c]) == col_max_width(grid, c));
        }
    }
}

/// Whether a character can sit inside a field without quoting: it is not
/// the field delimiter, not a quote, not the line delimiter and not a
/// carriage return.
pub open spec fn plain_char(ch: char, d: char, ld: char) -> bool {
    ch != d && ch != '"' && ch != ld && ch != '\r'
}

/// Whether every character of every field is plain.
pub open spec fn plain_fields(fields: Seq<Seq<char>>, d: char, ld: char) -> bool {
    forall|i: int, j: int|
        0 <= i < fields.len() && 0 <= j < fields[i].len() ==> plain_char(
            #[trigger] fields[i][j],
            d,
            ld,
        )
}

proof fn lemma_scan_empty(st: ScanState, d: char, consume: bool)
    ensures
        scan_from(Seq::empty(), 0, st, d, consume) == st,
{
}

proof fn lemma_scan_shift(chars: Seq<char>, i: int, st: ScanState, d: char, consume: bool)
    requires
        0 <= i <= chars.len(),
    ensures
        scan_from(chars, i, st, d, consume) == scan_from(chars.skip(i), 0, st, d, consume),
    decreases chars.len() - i,
{
    if i < chars.len() {
        let rest = chars.skip(i);
        assert(rest[0] == chars[i]);
        assert(rest.len() == chars.len() - i);
        let peek_full = if i + 1 < chars.len() {
            Some(chars[i + 1])
        } else {
            None::<char>
        };
        let peek_rest = if 1 < rest.len() {
            Some(rest[1])
        } else {
            None::<char>
        };
        assert(peek_full == peek_rest);
        let st1 = scan_step(st, chars[i], peek_full, d, consume);
        lemma_scan_shift(chars, i + 1, st1, d, consume);
        assert(rest.skip(1) =~= chars.skip(i + 1));
        lemma_scan_shift(rest, 1, st1, d, consume);
    } else {
        assert(chars.skip(i) =~= Seq::<char>::empty());
    }
}

proof fn lemma_scan_plain_seg(seg: Seq<char>, rest: Seq<char>, st: ScanState, d: char, consume: bool)
    requires
        !st.on_quote,
        forall|j: int| 0 <= j < seg.len() ==> (#[trigger] seg[j]) != d && seg[j] != '"',
    ensures
        scan_from(seg + rest, 0, st, d, consume) == scan_from(
            rest,
            0,
            ScanState {
                value: st.value + seg,
                previous: if seg.len() > 0 {
                    seg.last()
                } else {
                    st.previous
                },
                ..st
            },
            d,
            consume,
        ),
    decreases seg.len(),
{
    let s = seg + rest;
    if seg.len() == 0 {
        assert(s =~= rest);
        assert(st.value + seg =~= st.value);
        assert(ScanState { value: st.value + seg, previous: st.previous, ..st } == st);
    } else {
        assert(s[0] == seg[0]);
        let peek = if 1 < s.len() {
            Some(s[1])
        } else {
            None::<char>
        };
        let st1 = scan_step(st, s[0], peek, d, consume);
        assert(st1 == ScanState { value: st.value.push(seg[0]), previous: seg[0], ..st });
        lemma_scan_shift(s, 1, st1, d, consume);
        assert(s.skip(1) =~= seg.drop_first() + rest);
        assert(forall|j: int|
            0 <= j < seg.drop_first().len() ==> (#[trigger] seg.drop_first()[j]) == seg[j + 1]);
        lemma_scan_plain_seg(seg.drop_first(), rest, st1, d, consume);
        assert(st1.value + seg.drop_first() =~= st.value + seg);
        if seg.len() > 1 {
            assert(seg.drop_first().last() == seg.last());
        }
    }
}

proof fn lemma_scan_flush(rest: Seq<char>, st: ScanState, d: char, consume: bool)
    requires
        !st.on_quote,
        d != '"',
    ensures
        scan_from(seq![d] + rest, 0, st, d, consume) == scan_from(
            rest,
            0,
            ScanState {
                container: st.container.push(st.value),
                value: Seq::empty(),
                previous: d,
                ..st
            },
            d,
            consume,
        ),
{
    let s = seq![d] + rest;
    assert(s[0] == d);
    let peek = if 1 < s.len() {
        Some(s[1])
    } else {
        None::<char>
    };
    let st1 = scan_step(st, d, peek, d, consume);
    lemma_scan_shift(s, 1, st1, d, consume);
    assert(s.skip(1) =~= rest);
}

proof fn lemma_scan_joined(
    fields: Seq<Seq<char>>,
    tail: Seq<char>,
    st: ScanState,
    d: char,
    ld: char,
    consume: bool,
)
    requires
        !st.on_quote,
        st.value.len() == 0,
        d != '"',
        plain_fields(fields, d, ld),
        fields.len() >= 1,
        forall|j: int| 0 <= j < tail.len() ==> (#[trigger] tail[j]) != d && tail[j] != '"',
    ensures
        scan_from(join_char(fields, d) + tail, 0, st, d, consume) == (ScanState {
            container: st.container + fields.drop_last(),
            value: fields.last() + tail,
            previous: if fields.last().len() + tail.len() > 0 {
                (fields.last() + tail).last()
            } else if fields.len() > 1 {
                d
            } else {
                st.previous
            },
            ..st
        }),
    decreases fields.len(),
{
    if fields.len() == 1 {
        assert(join_char(fields, d) == fields[0]);
        assert(join_char(fields, d) + tail =~= (fields[0] + tail) + Seq::<char>::empty());
        assert(forall|j: int|
            0 <= j < (fields[0] + tail).len() ==> ((#[trigger] (fields[0] + tail)[j]) != d && (
            fields[0] + tail)[j] != '"')) by {
            assert(forall|j: int|
                0 <= j < fields[0].len() ==> (#[trigger] (fields[0] + tail)[j]) == fields[0][j]
                    && plain_char(fields[0][j], d, ld));
            assert(forall|j: int|
                fields[0].len() <= j < (fields[0] + tail).len() ==> (#[trigger] (fields[0]
                    + tail)[j]) == tail[j - fields[0].len()]);
        }
        lemma_scan_plain_seg(fields[0] + tail, Seq::empty(), st, d, consume);
        assert(st.value + (fields[0] + tail) =~= fields[0] + tail);
        assert(st.container + fields.drop_last() =~= st.container);
        assert(fields.last() == fields[0]);
        let seg = fields[0] + tail;
        let stx = ScanState {
            container: st.container,
            value: st.value + seg,
            on_quote: st.on_quote,
            previous: if seg.len() > 0 {
                seg.last()
            } else {
                st.previous
            },
        };
        lemma_scan_empty(stx, d, consume);
        assert(scan_from(Seq::<char>::empty(), 0, stx, d, consume) == stx);
        let res = scan_from(join_char(fields, d) + tail, 0, st, d, consume);
        assert(res == stx);
        assert(res.container == st.container + fields.drop_last());
        assert(res.value == fields.last() + tail) by {
            assert(st.value + seg =~= fields.last() + tail);
        }
        if seg.len() > 0 {
            assert(res.previous == (fields.last() + tail).last());
        }
    } else {
        let f0 = fields[0];
        let rest_fields = fields.drop_first();
        assert(join_char(fields, d) == f0 + seq![d] + join_char(rest_fields, d));
        let after = seq![d] + (join_char(rest_fields, d) + tail);
        assert(join_char(fields, d) + tail =~= f0 + after);
        assert(forall|j: int|
            0 <= j < f0.len() ==> (#[trigger] f0[j]) != d && f0[j] != '"') by {
            assert(forall|j: int| 0 <= j < f0.len() ==> plain_char(#[trigger] fields[0][j], d, ld));
        }
        lemma_scan_plain_seg(f0, after, st, d, consume);
        let st_f = ScanState {
            value: st.value + f0,
            previous: if f0.len() > 0 {
                f0.last()
            } else {
                st.previous
            },
            ..st
        };
        lemma_scan_flush(join_char(rest_fields, d) + tail, st_f, d, consume);
        let st_d = ScanState {
            container: st_f.container.push(st_f.value),
            value: Seq::empty(),
            previous: d,
            ..st_f
        };
        assert(plain_fields(rest_fields, d, ld)) by {
            assert(forall|i: int|
                0 <= i < rest_fields.len() ==> (#[trigger] rest_fields[i]) == fields[i + 1]);
            assert forall|i: int, j: int|
                0 <= i < rest_fields.len() && 0 <= j < rest_fields[i].len() implies plain_char(
                #[trigger] rest_fields[i][j],
                d,
                ld,
            ) by {
                assert(rest_fields[i] == fields[i + 1]);
                assert(plain_char(fields[i + 1][j], d, ld));
            }
        }
        lemma_scan_joined(rest_fields, tail, st_d, d, ld, consume);
        assert(st_d.container + rest_fields.drop_last() =~= st.container + fields.drop_last()) by {
            assert(st.value + f0 =~= f0);
            assert(st_d.container =~= st.container.push(f0));
            assert(rest_fields.drop_last() =~= fields.drop_last().drop_first());
            assert(st.container.push(f0) + fields.drop_last().drop_first() =~= st.container
                + fields.drop_last());
        }
        assert(rest_fields.last() == fields.last());
        let res = scan_from(join_char(rest_fields, d) + tail, 0, st_d, d, consume);
        assert(scan_from(join_char(fields, d) + tail, 0, st, d, consume) == res);
        assert(res.container == st.container + fields.drop_last());
        assert(res.value == fields.last() + tail);
        assert(res.on_quote == st.on_quote);
        if fields.last().len() + tail.len() > 0 {
            assert(res.previous == (fields.last() + tail).last());
        } else {
            assert(res.previous == d);
        }
    }
}

/// Feeding one rendered line back to a fresh parser yields exactly the
/// fields it was rendered from: for fields free of delimiters, quotes,
/// line delimiters and carriage returns, one joined line with a trailing
/// line delimiter parses to one complete row holding those same fields.
pub proof fn lemma_row_round_trip(
    fields: Seq<Seq<char>>,
    delim: Option<char>,
    pld: Option<char>,
    consume: bool,
)
    requires
        fields.len() >= 1,
        spec_delim(delim) != '"',
        spec_line_delim(pld) != spec_delim(delim),
        spec_line_delim(pld) != '"',
        spec_line_delim(pld) != '\r',
        plain_fields(fields, spec_delim(delim), spec_line_delim(pld)),
    ensures
        ({
            let m0 = ParserModel {
                container: Seq::empty(),
                remnant: Seq::empty(),
                on_quote: false,
                line_delimiter: pld,
            };
            let line = join_char(fields, spec_delim(delim)).push(spec_line_delim(pld));
            spec_feed(m0, line, delim, consume) == (m0, Some(fields))
        }),
{
    let d = spec_delim(delim);
    let ld = spec_line_delim(pld);
    let m0 = ParserModel {
        container: Seq::empty(),
        remnant: Seq::empty(),
        on_quote: false,
        line_delimiter: pld,
    };
    let line = join_char(fields, d).push(ld);
    let st0 = ScanState {
        container: Seq::empty(),
        value: Seq::empty(),
        on_quote: false,
        previous: '0',
    };
    assert(line =~= join_char(fields, d) + seq![ld]);
    assert(forall|j: int|
        0 <= j < seq![ld].len() ==> (#[trigger] seq![ld][j]) != d && seq![ld][j] != '"');
    lemma_scan_joined(fields, seq![ld], st0, d, ld, consume);
    let st1 = scan_from(line, 0, st0, d, consume);
    assert(st1.value =~= fields.last().push(ld));
    assert(st1.value.len() > 0);
    assert(!st1.on_quote);
    assert(crate::parser::strip_line_delim(st1.value, ld) =~= fields.last());
    assert(finalize_fields(st1, d, ld) =~= fields) by {
        assert(st1.container =~= fields.drop_last());
        assert(fields.drop_last().push(fields.last()) =~= fields);
    }
    let (m2, out) = spec_feed(m0, line, delim, consume);
    assert(m2 == m0) by {
        assert(m2.container =~= Seq::<Seq<char>>::empty());
        assert(m2.remnant =~= Seq::<char>::empty());
    }
}

/// A rendered csv line holds no carriage return, so chunk normalization
/// leaves it unchanged.
pub proof fn lemma_normalize_plain(s: Seq<char>)
    requires
        forall|j: int| 0 <= j < s.len() ==> (#[trigger] s[j]) != '\r',
    ensures
        normalize_crlf(s) == s,
    decreases s.len(),
{
    if s.len() > 0 {
        assert(s[0] != '\r');
        assert(forall|j: int|
            0 <= j < s.drop_first().len() ==> (#[trigger] s.drop_first()[j]) == s[j + 1]);
        lemma_normalize_plain(s.drop_first());
        assert(normalize_crlf(s) =~= seq![s[0]] + s.drop_first());
        assert(seq![s[0]] + s.drop_first() =~= s);
    }
}

} // verus!

verus! {

/// The column names of a table, in order.
pub open spec fn col_names(d: VirtualData) -> Seq<Seq<char>> {
    Seq::new(d.cols().len(), |c: int| d.cols()[c].name)
}

/// The table's cells rendered to strings, row by row.
pub open spec fn rendered_grid(d: VirtualData) -> Seq<Seq<Seq<char>>> {
    Seq::new(
        d.grid().len(),
        |r: int| Seq::new(d.cols().len(), |c: int| crate::value::val_str(d.grid()[r][c])),
    )
}

/// The logical rows a reader sees when the serialized table comes back:
/// the header line's fields, then each data line's fields.
pub open spec fn rendered_rows(d: VirtualData) -> Seq<Seq<Seq<char>>> {
    seq![col_names(d)] + rendered_grid(d)
}

/// Whether a table serializes to unquoted csv that survives a round trip:
/// every cell is text, names and cells avoid the delimiter, quote, line
/// delimiter and carriage return, and a single-column table has no blank
/// name or cell, which an incoming reader would take for an empty row.
pub open spec fn round_trippable(d: VirtualData, d_ch: char, ld: char) -> bool {
    &&& d.cols().len() > 0
    &&& (forall|r: int, c: int|
        0 <= r < d.grid().len() && 0 <= c < d.cols().len() ==> (#[trigger] d.grid()[r][c])
            is Str)
    &&& plain_fields(col_names(d), d_ch, ld)
    &&& (forall|r: int|
        0 <= r < d.grid().len() ==> plain_fields(#[trigger] rendered_grid(d)[r], d_ch, ld))
    &&& (d.cols().len() == 1 ==> !is_blank(col_names(d)[0]) && (forall|r: int|
        0 <= r < d.grid().len() ==> !is_blank(
            #[trigger] crate::value::val_str(d.grid()[r][0]),
        )))
}

proof fn lemma_assemble_rendered(d: VirtualData, i: int)
    requires
        d.wf(),
        round_trippable(d, ',', '\n'),
        1 <= i <= rendered_rows(d).len(),
    ensures
        assemble_from(
            rendered_rows(d),
            i,
            crate::reader::default_options(),
            Seq::empty(),
            crate::reader::TableModel {
                names: col_names(d),
                grid: rendered_grid(d).take(i - 1),
            },
            false,
        ) == crate::reader::AsmOutcome::Table(
            crate::reader::TableModel { names: col_names(d), grid: rendered_grid(d) },
        ),
    decreases rendered_rows(d).len() - i,
{
    let rows = rendered_rows(d);
    let opt = crate::reader::default_options();
    let names = col_names(d);
    if i == rows.len() {
        assert(rendered_grid(d).take(i - 1) =~= rendered_grid(d));
    } else {
        let row = rows[i];
        assert(row == rendered_grid(d)[i - 1]);
        assert(row.len() == names.len());
        assert(!(row.len() == 1 && is_blank(row[0]))) by {
            if row.len() == 1 {
                assert(d.cols().len() == 1);
                assert(row[0] == crate::value::val_str(d.grid()[i - 1][0]));
            }
        }
        assert(names.len() > 0);
        let t = crate::reader::TableModel { names: names, grid: rendered_grid(d).take(i - 1) };
        assert(t.names.len() != 0);
        lemma_assemble_rendered(d, i + 1);
        assert(rendered_grid(d).take(i - 1).push(row) =~= rendered_grid(d).take(i));
    }
}

/// Serializing a table and parsing the text back rebuilds it: for a table
/// of plain text cells, each rendered line parses to exactly its fields,
/// and assembling those rows under the default options yields the same
/// column names and the same grid of values.
pub proof fn lemma_table_round_trip(d: VirtualData, consume: bool)
    requires
        d.wf(),
        round_trippable(d, ',', '\n'),
    ensures
        ({
            let m0 = ParserModel {
                container: Seq::empty(),
                remnant: Seq::empty(),
                on_quote: false,
                line_delimiter: None,
            };
            forall|i: int|
                0 <= i < rendered_rows(d).len() ==> spec_feed(
                    m0,
                    join_char(#[trigger] rendered_rows(d)[i], ',').push('\n'),
                    None,
                    consume,
                ) == (m0, Some(rendered_rows(d)[i]))
        }),
        assemble_from(
            rendered_rows(d),
            0,
            crate::reader::default_options(),
            Seq::empty(),
            crate::reader::TableModel { names: Seq::empty(), grid: Seq::empty() },
            false,
        ) == crate::reader::AsmOutcome::Table(
            crate::reader::TableModel { names: col_names(d), grid: rendered_grid(d) },
        ),
        crate::reader::str_grid(rendered_grid(d)) == d.grid(),
{
    let m0 = ParserModel {
        container: Seq::empty(),
        remnant: Seq::empty(),
        on_quote: false,
        line_delimiter: None,
    };
    let rows = rendered_rows(d);
    let names = col_names(d);
    assert forall|i: int| 0 <= i < rows.len() implies spec_feed(
        m0,
        join_char(#[trigger] rows[i], ',').push('\n'),
        None,
        consume,
    ) == (m0, Some(rows[i])) by {
        assert(rows[i].len() == names.len() >= 1);
        assert(plain_fields(rows[i], ',', '\n')) by {
            if i > 0 {
                assert(rows[i] == rendered_grid(d)[i - 1]);
            }
        }
        lemma_row_round_trip(rows[i], None, None, consume);
    }
    let opt = crate::reader::default_options();
    let row0 = rows[0];
    assert(row0 == names);
    assert(!(row0.len() == 1 && is_blank(row0[0])));
    assert(crate::reader::distinct_names(names)) by {
        assert forall|i: int, j: int|
            0 <= i < j < names.len() implies (#[trigger] names[i]) != (#[trigger] names[j]) by {
            assert(names[i] == d.cols()[i].name);
            assert(names[j] == d.cols()[j].name);
            assert(d.columns@[i]@.name != d.columns@[j]@.name);
        }
    }
    assert(assemble_from(rows, 0, opt, Seq::empty(), crate::reader::TableModel {
        names: Seq::empty(),
        grid: Seq::empty(),
    }, false) == assemble_from(rows, 1, opt, Seq::empty(), crate::reader::TableModel {
        names: names,
        grid: Seq::empty(),
    }, false)) by {
        assert(rendered_grid(d).take(0) =~= Seq::<Seq<Seq<char>>>::empty());
    }
    assert(rendered_grid(d).take(0) =~= Seq::<Seq<Seq<char>>>::empty());
    lemma_assemble_rendered(d, 1);
    assert(crate::reader::str_grid(rendered_grid(d)) =~~= d.grid()) by {
        assert forall|r: int| 0 <= r < d.grid().len() implies crate::reader::str_grid(
            rendered_grid(d),
        )[r] =~= d.grid()[r] by {
            assert forall|c: int| 0 <= c < d.cols().len() implies crate::reader::str_grid(
                rendered_grid(d),
            )[r][c] == d.grid()[r][c] by {
                assert(d.grid()[r][c] is Str);
                assert(crate::value::val_str(d.grid()[r][c]) == d.grid()[r][c]->Str_0);
            }
        }
    }
}

} // verus!

verus! {

/// The four schema attributes a limiter exports: its type name, default,
/// space-joined variants and pattern, as a schema line carries them after
/// the column name.
pub open spec fn schema_row_fields(m: LimiterModel) -> Seq<Seq<char>> {
    seq![
        crate::value::value_type_str(m.value_type),
        match m.default {
            Some(d) => crate::value::val_str(d),
            None => Seq::<char>::empty(),
        },
        match m.variant {
            Some(vs) => join_char(
                vs.map_values(|v: ValueModel| crate::value::val_str(v)),
                ' ',
            ),
            None => Seq::<char>::empty(),
        },
        match m.pattern {
            Some(p) => p,
            None => Seq::<char>::empty(),
        },
    ]
}

/// Whether a value survives the schema text: it has the limiter's type,
/// a non-empty string form, and a number stays within the machine range.
pub open spec fn schema_value_ok(v: ValueModel, t: crate::value::ValueType) -> bool {
    &&& val_type(v) == t
    &&& crate::value::val_str(v).len() > 0
    &&& (v matches ValueModel::Num(n) ==> i64::MIN <= n <= i64::MAX)
}

proof fn lemma_type_token_round_trip(t: crate::value::ValueType)
    ensures
        crate::chars::ascii_lower(crate::value::value_type_str(t)) == (match t {
            crate::value::ValueType::Number => "number"@,
            crate::value::ValueType::Text => "text"@,
        }),
        "number"@ != "text"@,
{
    reveal_strlit("Number");
    reveal_strlit("Text");
    reveal_strlit("number");
    reveal_strlit("text");
    match t {
        crate::value::ValueType::Number => {
            assert(crate::chars::ascii_lower("Number"@) =~= "number"@);
        },
        crate::value::ValueType::Text => {
            assert(crate::chars::ascii_lower("Text"@) =~= "text"@);
        },
    }
    assert("number"@.len() == 6 && "text"@.len() == 4);
}

proof fn lemma_schema_value_parse_back(v: ValueModel, t: crate::value::ValueType)
    requires
        schema_value_ok(v, t),
    ensures
        t == crate::value::ValueType::Number ==> crate::digits::is_i64_literal(
            crate::value::val_str(v),
        ),
        crate::value::spec_value_from_str(crate::value::val_str(v), t) == v,
{
    match v {
        ValueModel::Num(n) => {
            crate::digits::lemma_parse_dec_seq(n);
        },
        ValueModel::Str(_) => {},
    }
}

/// A limiter's schema attributes rebuild the limiter: exporting the type,
/// default, variants and pattern to their text fields and reading them
/// back with `from_line`'s rules yields the same limiter.  Variant members
/// must render non-empty and free of whitespace, since the schema joins
/// them with spaces; a default or pattern must render non-empty, since an
/// empty field reads back as absent.
pub proof fn lemma_schema_round_trip(m: LimiterModel)
    requires
        crate::value::lim_wf(m),
        m.default matches Some(d) ==> schema_value_ok(d, m.value_type),
        m.variant matches Some(vs) ==> vs.len() > 0 && (forall|i: int|
            0 <= i < vs.len() ==> schema_value_ok(#[trigger] vs[i], m.value_type) && (forall|
                j: int,
            |
                0 <= j < crate::value::val_str(vs[i]).len() ==> !crate::chars::is_space_char(
                    crate::value::val_str(vs[i])[j],
                ))),
        m.pattern matches Some(p) ==> p.len() > 0,
    ensures
        crate::value::spec_from_line(schema_row_fields(m)) == Some(m),
{
    let fields = schema_row_fields(m);
    assert(fields.len() == 4);
    lemma_type_token_round_trip(m.value_type);
    assert(fields[0] == crate::value::value_type_str(m.value_type));
    assert(crate::value::schema_type_ok(fields));
    let vt = m.value_type;
    match m.default {
        None => {
            assert(m.variant is None && m.pattern is None);
            assert(fields[1].len() == 0 && fields[2].len() == 0 && fields[3].len() == 0);
            assert(crate::value::spec_from_line(fields) == Some(
                crate::value::LimiterModel {
                    value_type: vt,
                    default: None,
                    variant: None,
                    pattern: None,
                },
            ));
        },
        Some(d) => {
            lemma_schema_value_parse_back(d, vt);
            assert(fields[1] == crate::value::val_str(d));
            assert(fields[1].len() > 0);
            match m.variant {
                Some(vs) => {
                    let var_strs = vs.map_values(|v: ValueModel| crate::value::val_str(v));
                    assert(fields[2] == join_char(var_strs, ' '));
                    assert(fields[2].len() > 0) by {
                        assert(var_strs[0].len() > 0);
                        if var_strs.len() == 1 {
                            assert(join_char(var_strs, ' ') == var_strs[0]);
                        } else {
                            assert(join_char(var_strs, ' ') == var_strs[0] + seq![' ']
                                + join_char(var_strs.drop_first(), ' '));
                        }
                    }
                    assert forall|i: int, j: int|
                        0 <= i < var_strs.len() && 0 <= j < var_strs[i].len()
                        implies !crate::chars::is_space_char(#[trigger] var_strs[i][j]) by {
                        assert(var_strs[i] == crate::value::val_str(vs[i]));
                    }
                    assert(forall|i: int|
                        0 <= i < var_strs.len() ==> (#[trigger] var_strs[i]).len() > 0);
                    crate::chars::lemma_split_ws_join(var_strs);
                    let tokens = crate::chars::split_ws(fields[2]);
                    assert(tokens == var_strs);
                    assert forall|i: int|
                        0 <= i < tokens.len() implies (#[trigger] tokens[i]).len() > 0 && (vt
                        == crate::value::ValueType::Number ==> crate::digits::is_i64_literal(
                        tokens[i],
                    )) by {
                        lemma_schema_value_parse_back(vs[i], vt);
                    }
                    let values = Seq::new(
                        tokens.len(),
                        |j: int| crate::value::spec_value_from_str(tokens[j], vt),
                    );
                    assert(values =~= vs) by {
                        assert forall|i: int| 0 <= i < vs.len() implies values[i] == vs[i] by {
                            lemma_schema_value_parse_back(vs[i], vt);
                        }
                    }
                    assert(values.contains(d)) by {
                        assert(vs.contains(d));
                    }
                    assert(m.pattern is None);
                    assert(crate::value::spec_from_line(fields) == Some(
                        crate::value::LimiterModel {
                            value_type: vt,
                            default: Some(d),
                            variant: Some(values),
                            pattern: None,
                        },
                    ));
                    assert(Some(crate::value::LimiterModel {
                        value_type: vt,
                        default: Some(d),
                        variant: Some(values),
                        pattern: None,
                    }) == Some(m));
                },
                None => {
                    assert(fields[2].len() == 0);
                    match m.pattern {
                        Some(p) => {
                            assert(fields[3] == p && p.len() > 0);
                            assert(crate::value::regex_valid(p));
                            assert(crate::value::regex_matches(p, crate::value::val_str(d)));
                            assert(crate::value::spec_from_line(fields) == Some(
                                crate::value::LimiterModel {
                                    value_type: vt,
                                    default: Some(d),
                                    variant: None,
                                    pattern: Some(p),
                                },
                            ));
                        },
                        None => {
                            assert(fields[3].len() == 0);
                            assert(crate::value::spec_from_line(fields) == Some(
                                crate::value::LimiterModel {
                                    value_type: vt,
                                    default: Some(d),
                                    variant: None,
                                    pattern: None,
                                },
                            ));
                        },
                    }
                },
            }
        },
    }
}

} // verus!
