//! Character and string helpers shared by the parser and the containers.

use vstd::prelude::*;
use vstd::string::StrSliceExecFns;

verus! {

/// Relies on `String::push`: appends one character at the end.
pub assume_specification[ String::push ](s: &mut String, ch: char)
    ensures
        final(s)@ == old(s)@.push(ch),
;

/// The characters of a string slice, in order.
pub fn chars_of(s: &str) -> (v: Vec<char>)
    ensures
        v@ == s@,
{
    let n = s.unicode_len();
    let mut v: Vec<char> = Vec::new();
    let mut i: usize = 0;
    while i < n
        invariant
            i <= n,
            n == s@.len(),
            v@ == s@.take(i as int),
        decreases n - i,
    {
        let c = s.get_char(i);
        v.push(c);
        proof {
            assert(s@.take(i + 1) =~= s@.take(i as int).push(s@[i as int]));
        }
        i = i + 1;
    }
    proof {
        assert(s@.take(n as int) =~= s@);
    }
    v
}

/// A string holding exactly the given characters.
pub fn string_from_chars(v: &[char]) -> (s: String)
    ensures
        s@ == v@,
{
    let mut s = String::new();
    let mut i: usize = 0;
    while i < v.len()
        invariant
            i <= v@.len(),
            s@ == v@.take(i as int),
        decreases v@.len() - i,
    {
        s.push(v[i]);
        proof {
            assert(v@.take(i + 1) =~= v@.take(i as int).push(v@[i as int]));
        }
        i = i + 1;
    }
    proof {
        assert(v@.take(v@.len() as int) =~= v@);
    }
    s
}

/// The Unicode code points that `str::trim` removes at either end.
pub open spec fn is_space_char(c: char) -> bool {
    ||| c == ' '
    ||| c == '\t'
    ||| c == '\n'
    ||| c == '\r'
    ||| c as u32 == 0x0b
    ||| c as u32 == 0x0c
    ||| c as u32 == 0x85
    ||| c as u32 == 0xa0
    ||| c as u32 == 0x1680
    ||| (0x2000 <= c as u32 && c as u32 <= 0x200a)
    ||| c as u32 == 0x2028
    ||| c as u32 == 0x2029
    ||| c as u32 == 0x202f
    ||| c as u32 == 0x205f
    ||| c as u32 == 0x3000
}

/// Whitespace test matching [`is_space_char`].
#[verifier::when_used_as_spec(is_space_char)]
pub fn is_space(c: char) -> (r: bool)
    ensures
        r == is_space_char(c),
{
    let u = c as u32;
    u == 0x20 || u == 0x09 || u == 0x0a || u == 0x0d || u == 0x0b || u == 0x0c || u == 0x85
        || u == 0xa0 || u == 0x1680 || (0x2000 <= u && u <= 0x200a) || u == 0x2028 || u == 0x2029
        || u == 0x202f || u == 0x205f || u == 0x3000
}

/// The string without its leading whitespace.
pub open spec fn trim_front(s: Seq<char>) -> Seq<char>
    decreases s.len(),
{
    if s.len() > 0 && is_space_char(s[0]) {
        trim_front(s.drop_first())
    } else {
        s
    }
}

/// The string without its trailing whitespace.
pub open spec fn trim_back(s: Seq<char>) -> Seq<char>
    decreases s.len(),
{
    if s.len() > 0 && is_space_char(s.last()) {
        trim_back(s.drop_last())
    } else {
        s
    }
}

/// The string without leading or trailing whitespace, as `str::trim` gives it.
pub open spec fn spec_trim(s: Seq<char>) -> Seq<char> {
    trim_back(trim_front(s))
}

/// Whether a string holds nothing but whitespace.
pub open spec fn is_blank(s: Seq<char>) -> bool {
    forall|i: int| 0 <= i < s.len() ==> is_space_char(s[i])
}

proof fn lemma_trim_front_range(s: Seq<char>)
    ensures
        exists|a: int|
            0 <= a <= s.len() && trim_front(s) == s.subrange(a, s.len() as int) && (forall|i: int|
                0 <= i < a ==> is_space_char(s[i])) && (a < s.len() ==> !is_space_char(s[a])),
    decreases s.len(),
{
    if s.len() > 0 && is_space_char(s[0]) {
        lemma_trim_front_range(s.drop_first());
        let a0 = choose|a0: int|
            0 <= a0 <= s.drop_first().len() && trim_front(s.drop_first()) == s.drop_first()
                .subrange(a0, s.drop_first().len() as int) && (forall|i: int|
                0 <= i < a0 ==> is_space_char(s.drop_first()[i])) && (a0 < s.drop_first().len()
                ==> !is_space_char(s.drop_first()[a0]));
        let a = a0 + 1;
        assert(s.drop_first().subrange(a0, s.drop_first().len() as int) =~= s.subrange(
            a,
            s.len() as int,
        ));
        assert(forall|i: int| 0 <= i < a ==> is_space_char(s[i])) by {
            assert(forall|i: int| 1 <= i < a ==> is_space_char(s.drop_first()[i - 1]) && s[i]
                == s.drop_first()[i - 1]);
        }
        assert(a < s.len() ==> !is_space_char(s[a]));
    } else {
        assert(trim_front(s) =~= s.subrange(0, s.len() as int));
    }
}

proof fn lemma_trim_back_range(s: Seq<char>)
    ensures
        exists|b: int|
            0 <= b <= s.len() && trim_back(s) == s.subrange(0, b) && (forall|i: int|
                b <= i < s.len() ==> is_space_char(s[i])) && (b > 0 ==> !is_space_char(s[b - 1])),
    decreases s.len(),
{
    if s.len() > 0 && is_space_char(s.last()) {
        lemma_trim_back_range(s.drop_last());
        let b = choose|b: int|
            0 <= b <= s.drop_last().len() && trim_back(s.drop_last()) == s.drop_last().subrange(
                0,
                b,
            ) && (forall|i: int| b <= i < s.drop_last().len() ==> is_space_char(s.drop_last()[i]))
                && (b > 0 ==> !is_space_char(s.drop_last()[b - 1]));
        assert(s.drop_last().subrange(0, b) =~= s.subrange(0, b));
        assert(forall|i: int|
            b <= i < s.len() ==> is_space_char(s[i])) by {
            assert(forall|i: int|
                b <= i < s.len() - 1 ==> is_space_char(s.drop_last()[i]) && s[i] == s.drop_last()[
                    i]);
        }
    } else {
        assert(trim_back(s) =~= s.subrange(0, s.len() as int));
    }
}

/// A string trims to nothing exactly when it is all whitespace.
pub proof fn lemma_blank_trim(s: Seq<char>)
    ensures
        (spec_trim(s).len() == 0) == is_blank(s),
{
    lemma_trim_front_range(s);
    let a = choose|a: int|
        0 <= a <= s.len() && trim_front(s) == s.subrange(a, s.len() as int) && (forall|i: int|
            0 <= i < a ==> is_space_char(s[i])) && (a < s.len() ==> !is_space_char(s[a]));
    let t = trim_front(s);
    lemma_trim_back_range(t);
    let b = choose|b: int|
        0 <= b <= t.len() && trim_back(t) == t.subrange(0, b) && (forall|i: int|
            b <= i < t.len() ==> is_space_char(t[i])) && (b > 0 ==> !is_space_char(t[b - 1]));
    if is_blank(s) {
        if t.len() > 0 {
            assert(t[0] == s[a]);
            assert(!is_space_char(s[a]));
        }
        assert(t.len() == 0);
        assert(spec_trim(s).len() == 0);
    } else {
        if spec_trim(s).len() == 0 {
            assert(b == 0);
            assert(forall|i: int| 0 <= i < t.len() ==> is_space_char(#[trigger] t[i]));
            assert(forall|i: int| a <= i < s.len() ==> s[i] == t[i - a] && is_space_char(t[i - a]));
            assert(forall|i: int| 0 <= i < s.len() ==> is_space_char(#[trigger] s[i])) by {
                assert(forall|i: int| 0 <= i < a ==> is_space_char(#[trigger] s[i]));
                assert(forall|i: int|
                    a <= i < s.len() ==> is_space_char(#[trigger] s[i]) == is_space_char(
                        t[i - a],
                    ));
            }
            assert(is_blank(s));
        }
    }
}

/// A trimmed copy of the characters, as `str::trim` would give.
pub fn trim_chars(v: &Vec<char>) -> (r: Vec<char>)
    ensures
        r@ == spec_trim(v@),
{
    let n = v.len();
    let mut a: usize = 0;
    while a < n && is_space(v[a])
        invariant
            a <= n,
            n == v@.len(),
            forall|i: int| 0 <= i < a ==> is_space_char(v@[i]),
        decreases n - a,
    {
        a = a + 1;
    }
    let mut b: usize = n;
    while b > a && is_space(v[b - 1])
        invariant
            a <= b <= n,
            n == v@.len(),
            forall|i: int| b <= i < n ==> is_space_char(v@[i]),
        decreases b,
    {
        b = b - 1;
    }
    let mut r: Vec<char> = Vec::new();
    let mut i: usize = a;
    while i < b
        invariant
            a <= i <= b <= n,
            n == v@.len(),
            r@ == v@.subrange(a as int, i as int),
        decreases b - i,
    {
        r.push(v[i]);
        proof {
            assert(v@.subrange(a as int, i + 1) =~= v@.subrange(a as int, i as int).push(
                v@[i as int],
            ));
        }
        i = i + 1;
    }
    proof {
        lemma_trim_front_range(v@);
        let a0 = choose|a0: int|
            0 <= a0 <= v@.len() && trim_front(v@) == v@.subrange(a0, v@.len() as int) && (forall|
                i: int,
            |
                0 <= i < a0 ==> is_space_char(v@[i])) && (a0 < v@.len() ==> !is_space_char(
                v@[a0],
            ));
        assert(a0 == a as int);
        let t = trim_front(v@);
        lemma_trim_back_range(t);
        let b0 = choose|b0: int|
            0 <= b0 <= t.len() && trim_back(t) == t.subrange(0, b0) && (forall|i: int|
                b0 <= i < t.len() ==> is_space_char(t[i])) && (b0 > 0 ==> !is_space_char(
                t[b0 - 1],
            ));
        assert(forall|i: int| 0 <= i < t.len() ==> t[i] == v@[a + i]);
        assert(b0 == b - a) by {
            if b0 < b - a {
                assert(is_space_char(t[b - a - 1]));
                assert(!is_space_char(v@[b - 1]));
            }
            if b0 > b - a {
                assert(!is_space_char(t[b0 - 1]));
                assert(is_space_char(v@[a + b0 - 1]));
            }
        }
        assert(t.subrange(0, b0) =~= v@.subrange(a as int, b as int));
    }
    r
}

/// What `unicode_width::UnicodeWidthStr::width` returns: the display width
/// of a string, a function of its characters alone.
pub uninterp spec fn display_width(s: Seq<char>) -> nat;

/// Relies on `unicode_width::UnicodeWidthStr::width`: the display width of a
/// string; an empty string has width zero.
#[verifier::external_body]
pub fn str_display_width(s: &str) -> (r: usize)
    ensures
        r as nat == display_width(s@),
        s@.len() == 0 ==> r == 0,
{
    unicode_width::UnicodeWidthStr::width(s)
}

/// The given strings joined by a single separator character.
pub open spec fn join_char(items: Seq<Seq<char>>, sep: char) -> Seq<char>
    decreases items.len(),
{
    if items.len() == 0 {
        Seq::empty()
    } else if items.len() == 1 {
        items[0]
    } else {
        items[0] + seq![sep] + join_char(items.drop_first(), sep)
    }
}

pub proof fn lemma_join_char_push(items: Seq<Seq<char>>, x: Seq<char>, sep: char)
    ensures
        join_char(items.push(x), sep) == (if items.len() == 0 {
            x
        } else {
            join_char(items, sep) + seq![sep] + x
        }),
    decreases items.len(),
{
    let p = items.push(x);
    if items.len() == 0 {
        assert(p.len() == 1);
        assert(p[0] == x);
    } else if items.len() == 1 {
        assert(p.len() == 2);
        assert(p[0] == items[0]);
        assert(p.drop_first() =~= seq![x]);
        assert(join_char(p.drop_first(), sep) == x);
    } else {
        assert(p[0] == items[0]);
        assert(p.drop_first() =~= items.drop_first().push(x));
        lemma_join_char_push(items.drop_first(), x, sep);
        assert(join_char(p, sep) == p[0] + seq![sep] + join_char(items.drop_first().push(x), sep));
        assert(p[0] + seq![sep] + (join_char(items.drop_first(), sep) + seq![sep] + x) =~= (items[0]
            + seq![sep] + join_char(items.drop_first(), sep)) + seq![sep] + x);
    }
}

/// The given strings joined by a separator string.
pub open spec fn join_seq(items: Seq<Seq<char>>, sep: Seq<char>) -> Seq<char>
    decreases items.len(),
{
    if items.len() == 0 {
        Seq::empty()
    } else if items.len() == 1 {
        items[0]
    } else {
        items[0] + sep + join_seq(items.drop_first(), sep)
    }
}

pub proof fn lemma_join_seq_push(items: Seq<Seq<char>>, x: Seq<char>, sep: Seq<char>)
    ensures
        join_seq(items.push(x), sep) == (if items.len() == 0 {
            x
        } else {
            join_seq(items, sep) + sep + x
        }),
    decreases items.len(),
{
    let p = items.push(x);
    if items.len() == 0 {
        assert(p.len() == 1);
        assert(p[0] == x);
    } else if items.len() == 1 {
        assert(p.len() == 2);
        assert(p[0] == items[0]);
        assert(p.drop_first() =~= seq![x]);
        assert(join_seq(p.drop_first(), sep) == x);
    } else {
        assert(p[0] == items[0]);
        assert(p.drop_first() =~= items.drop_first().push(x));
        lemma_join_seq_push(items.drop_first(), x, sep);
        assert(join_seq(p, sep) == p[0] + sep + join_seq(items.drop_first().push(x), sep));
        assert(p[0] + sep + (join_seq(items.drop_first(), sep) + sep + x) =~= (items[0] + sep
            + join_seq(items.drop_first(), sep)) + sep + x);
    }
}

/// The index of the first whitespace character, or the length if none.
pub open spec fn first_space_idx(s: Seq<char>) -> int
    decreases s.len(),
{
    if s.len() == 0 {
        0
    } else if is_space_char(s[0]) {
        0
    } else {
        1 + first_space_idx(s.drop_first())
    }
}

pub proof fn lemma_first_space_idx(s: Seq<char>)
    ensures
        0 <= first_space_idx(s) <= s.len(),
        forall|i: int| 0 <= i < first_space_idx(s) ==> !is_space_char(s[i]),
        first_space_idx(s) < s.len() ==> is_space_char(s[first_space_idx(s)]),
    decreases s.len(),
{
    if s.len() > 0 && !is_space_char(s[0]) {
        lemma_first_space_idx(s.drop_first());
        assert(forall|i: int|
            1 <= i < first_space_idx(s) ==> s[i] == s.drop_first()[i - 1] && !is_space_char(
                s.drop_first()[i - 1],
            ));
    }
}

#[via_fn]
proof fn split_ws_decreases(s: Seq<char>) {
    lemma_first_space_idx(s);
}

/// The maximal runs of non-whitespace characters, in order, as
/// `str::split_whitespace` yields them.
pub open spec fn split_ws(s: Seq<char>) -> Seq<Seq<char>>
    decreases s.len(),
    via split_ws_decreases
{
    if s.len() == 0 {
        Seq::empty()
    } else if is_space_char(s[0]) {
        split_ws(s.drop_first())
    } else {
        let k = first_space_idx(s);
        seq![s.subrange(0, k)] + split_ws(s.subrange(k, s.len() as int))
    }
}

proof fn lemma_split_ws_skip_space(s: Seq<char>)
    requires
        s.len() > 0,
        is_space_char(s[0]),
    ensures
        split_ws(s) == split_ws(s.drop_first()),
{
}

proof fn lemma_first_space_concat(t: Seq<char>, r: Seq<char>)
    requires
        forall|i: int| 0 <= i < t.len() ==> !is_space_char(t[i]),
        r.len() > 0 ==> is_space_char(r[0]),
    ensures
        first_space_idx(t + r) == t.len(),
    decreases t.len(),
{
    if t.len() == 0 {
        assert(t + r =~= r);
        if r.len() > 0 {
        }
    } else {
        assert(!is_space_char((t + r)[0]));
        assert((t + r).drop_first() =~= t.drop_first() + r);
        lemma_first_space_concat(t.drop_first(), r);
    }
}

/// A non-empty run of non-whitespace followed by whitespace (or the end)
/// contributes exactly one token.
proof fn lemma_split_ws_token(t: Seq<char>, r: Seq<char>)
    requires
        t.len() > 0,
        forall|i: int| 0 <= i < t.len() ==> !is_space_char(t[i]),
        r.len() > 0 ==> is_space_char(r[0]),
    ensures
        split_ws(t + r) == seq![t] + split_ws(r),
{
    lemma_first_space_concat(t, r);
    let s = t + r;
    assert(!is_space_char(s[0]));
    assert(s.subrange(0, t.len() as int) =~= t);
    assert(s.subrange(t.len() as int, s.len() as int) =~= r);
}

/// Joining non-empty whitespace-free strings with single spaces and
/// splitting on whitespace again yields the same strings: the
/// space-joined variant field of a schema row survives its round trip.
pub proof fn lemma_split_ws_join(items: Seq<Seq<char>>)
    requires
        forall|i: int, j: int|
            0 <= i < items.len() && 0 <= j < items[i].len() ==> !is_space_char(
                #[trigger] items[i][j],
            ),
        forall|i: int| 0 <= i < items.len() ==> (#[trigger] items[i]).len() > 0,
    ensures
        split_ws(join_char(items, ' ')) == items,
    decreases items.len(),
{
    if items.len() == 0 {
        assert(split_ws(join_char(items, ' ')) =~= items);
    } else if items.len() == 1 {
        assert(join_char(items, ' ') == items[0]);
        lemma_split_ws_token(items[0], Seq::empty());
        assert(items[0] + Seq::<char>::empty() =~= items[0]);
        assert(split_ws(Seq::<char>::empty()) =~= Seq::<Seq<char>>::empty());
        assert(seq![items[0]] + Seq::<Seq<char>>::empty() =~= items);
    } else {
        let rest = items.drop_first();
        assert(join_char(items, ' ') == items[0] + seq![' '] + join_char(rest, ' '));
        let r = seq![' '] + join_char(rest, ' ');
        assert(join_char(items, ' ') =~= items[0] + r);
        assert(r[0] == ' ');
        lemma_split_ws_token(items[0], r);
        assert(r.drop_first() =~= join_char(rest, ' '));
        lemma_split_ws_skip_space(r);
        assert(forall|i: int| 0 <= i < rest.len() ==> (#[trigger] rest[i]) == items[i + 1]);
        assert forall|i: int, j: int|
            0 <= i < rest.len() && 0 <= j < rest[i].len() implies !is_space_char(
            #[trigger] rest[i][j],
        ) by {
            assert(rest[i] == items[i + 1]);
            assert(!is_space_char(items[i + 1][j]));
        }
        lemma_split_ws_join(rest);
        assert(seq![items[0]] + rest =~= items);
    }
}

/// Split on whitespace, keeping only the non-empty runs between.
pub fn split_whitespace_chars(v: &Vec<char>) -> (r: Vec<String>)
    ensures
        r@.map_values(|s: String| s@) == split_ws(v@),
{
    let n = v.len();
    let mut out: Vec<String> = Vec::new();
    let mut cur: Vec<char> = Vec::new();
    let mut i: usize = 0;
    proof {
        assert(cur@ + v@.skip(0) =~= v@);
        assert(out@.map_values(|s: String| s@) =~= Seq::<Seq<char>>::empty());
    }
    while i < n
        invariant
            i <= n,
            n == v@.len(),
            forall|j: int| 0 <= j < cur@.len() ==> !is_space_char(cur@[j]),
            out@.map_values(|s: String| s@) + split_ws(cur@ + v@.skip(i as int)) == split_ws(v@),
        decreases n - i,
    {
        let c = v[i];
        let ghost rest = v@.skip(i as int);
        let ghost rest1 = v@.skip(i + 1);
        proof {
            assert(rest.drop_first() =~= rest1);
        }
        if is_space(c) {
            if cur.len() > 0 {
                proof {
                    lemma_split_ws_token(cur@, rest);
                    lemma_split_ws_skip_space(rest);
                }
                let ghost old_out = out@;
                let token = string_from_chars(cur.as_slice());
                out.push(token);
                proof {
                    assert(out@.map_values(|s: String| s@) =~= old_out.map_values(
                        |s: String| s@,
                    ).push(cur@));
                    assert(old_out.map_values(|s: String| s@).push(cur@) =~= old_out.map_values(
                        |s: String| s@,
                    ) + seq![cur@]);
                }
                cur = Vec::new();
                proof {
                    assert(cur@ + rest1 =~= rest1);
                }
            } else {
                proof {
                    assert(cur@ + rest =~= rest);
                    assert(cur@ + rest1 =~= rest1);
                    lemma_split_ws_skip_space(rest);
                }
            }
        } else {
            let ghost old_cur = cur@;
            cur.push(c);
            proof {
                assert(old_cur + rest =~= cur@ + rest1);
            }
        }
        i = i + 1;
    }
    proof {
        assert(v@.skip(n as int) =~= Seq::<char>::empty());
        assert(cur@ + v@.skip(n as int) =~= cur@);
    }
    if cur.len() > 0 {
        proof {
            lemma_split_ws_token(cur@, Seq::empty());
            assert(cur@ + Seq::<char>::empty() =~= cur@);
            assert(split_ws(Seq::<char>::empty()) =~= Seq::<Seq<char>>::empty());
        }
        let ghost old_out = out@;
        let token = string_from_chars(cur.as_slice());
        out.push(token);
        proof {
            assert(out@.map_values(|s: String| s@) =~= old_out.map_values(|s: String| s@) + seq![
                cur@,
            ]);
            assert(seq![cur@] + Seq::<Seq<char>>::empty() =~= seq![cur@]);
        }
    }
    out
}

/// The lower-case form of an ASCII letter; other characters are unchanged.
pub open spec fn ascii_lower_char(c: char) -> char {
    if 'A' <= c && c <= 'Z' {
        ((c as u8) + 0x20) as char
    } else {
        c
    }
}

/// Case folding of ASCII letters over a whole string.
pub open spec fn ascii_lower(s: Seq<char>) -> Seq<char> {
    s.map_values(|c: char| ascii_lower_char(c))
}

/// Whether a string consists of the given ASCII letters, ignoring ASCII case.
pub fn eq_ignore_ascii_case(s: &str, t: &str) -> (r: bool)
    ensures
        r == (ascii_lower(s@) == ascii_lower(t@)),
{
    let sv = chars_of(s);
    let tv = chars_of(t);
    if sv.len() != tv.len() {
        proof {
            assert(ascii_lower(s@).len() == s@.len());
            assert(ascii_lower(t@).len() == t@.len());
        }
        return false;
    }
    let n = sv.len();
    let mut i: usize = 0;
    while i < n
        invariant
            i <= n,
            n == sv@.len() == tv@.len(),
            sv@ == s@,
            tv@ == t@,
            forall|j: int| 0 <= j < i ==> ascii_lower_char(s@[j]) == ascii_lower_char(t@[j]),
        decreases n - i,
    {
        let a = sv[i];
        let b = tv[i];
        let la = if 'A' <= a && a <= 'Z' {
            ((a as u8) + 0x20) as char
        } else {
            a
        };
        let lb = if 'A' <= b && b <= 'Z' {
            ((b as u8) + 0x20) as char
        } else {
            b
        };
        if la != lb {
            proof {
                assert(ascii_lower(s@)[i as int] != ascii_lower(t@)[i as int]);
            }
            return false;
        }
        i = i + 1;
    }
    proof {
        assert(ascii_lower(s@) =~= ascii_lower(t@));
    }
    true
}

} // verus!
