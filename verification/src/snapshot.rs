//! The persisted snapshot document: a small JSON codec of the crate's own
//! format, written and read by verified code.
//!
//! A snapshot is stored as `{"records":[{"name":...,"comment":...,"stars":...},...]}`,
//! where `comment` and `stars` are present only when the record carries
//! them. On read, whitespace between tokens, `null` for either optional
//! field, and the legacy shape `{"djs":["name",...]}` (bare names, upgraded
//! in memory to records with absent comment and rating) are also accepted.

use vstd::prelude::*;
use crate::extract;
use crate::record::{Record, RecordSet, RecView};
use crate::text;

verus! {

/// One hexadecimal digit, lower case.
pub open spec fn hex_digit(d: nat) -> char {
    if d == 0 {
        '0'
    } else if d == 1 {
        '1'
    } else if d == 2 {
        '2'
    } else if d == 3 {
        '3'
    } else if d == 4 {
        '4'
    } else if d == 5 {
        '5'
    } else if d == 6 {
        '6'
    } else if d == 7 {
        '7'
    } else if d == 8 {
        '8'
    } else if d == 9 {
        '9'
    } else if d == 10 {
        'a'
    } else if d == 11 {
        'b'
    } else if d == 12 {
        'c'
    } else if d == 13 {
        'd'
    } else if d == 14 {
        'e'
    } else {
        'f'
    }
}

/// The decimal digit character for `d < 10`.
pub open spec fn digit_char(d: nat) -> char {
    hex_digit(if d < 10 {
        d
    } else {
        0
    })
}

/// The decimal digits of `n`, most significant first.
pub open spec fn dec_digits(n: nat) -> Seq<char>
    decreases n,
{
    if n < 10 {
        seq![digit_char(n)]
    } else {
        dec_digits(n / 10).push(digit_char(n % 10))
    }
}

/// How one character is written inside a JSON string: quote and backslash
/// are escaped, control characters take the four-digit escape, everything
/// else stands as itself.
pub open spec fn esc_char(c: char) -> Seq<char> {
    if c == '"' {
        seq!['\\', '"']
    } else if c == '\\' {
        seq!['\\', '\\']
    } else if (c as u32) < 32 {
        seq!['\\', 'u', '0', '0', hex_digit(((c as u32) / 16) as nat), hex_digit(
            ((c as u32) % 16) as nat,
        )]
    } else {
        seq![c]
    }
}

/// A whole string escaped.
pub open spec fn esc_str(s: Seq<char>) -> Seq<char>
    decreases s.len(),
{
    if s.len() == 0 {
        Seq::<char>::empty()
    } else {
        esc_char(s[0]) + esc_str(s.drop_first())
    }
}

/// One record as JSON text.
pub open spec fn rec_json(r: RecView) -> Seq<char> {
    "{\"name\":\""@ + esc_str(r.name) + "\""@ + (match r.comment {
        Option::Some(c) => ",\"comment\":\""@ + esc_str(c) + "\""@,
        Option::None => Seq::<char>::empty(),
    }) + (match r.rating {
        Option::Some(n) => ",\"stars\":"@ + dec_digits(n as nat),
        Option::None => Seq::<char>::empty(),
    }) + "}"@
}

/// The records after the first, each preceded by a comma.
pub open spec fn recs_json_rest(rs: Seq<RecView>) -> Seq<char>
    decreases rs.len(),
{
    if rs.len() == 0 {
        Seq::<char>::empty()
    } else {
        seq![','] + rec_json(rs[0]) + recs_json_rest(rs.drop_first())
    }
}

/// A record list as JSON text, without the brackets.
pub open spec fn recs_json(rs: Seq<RecView>) -> Seq<char> {
    if rs.len() == 0 {
        Seq::<char>::empty()
    } else {
        rec_json(rs[0]) + recs_json_rest(rs.drop_first())
    }
}

/// A whole snapshot as JSON text.
pub open spec fn snapshot_json(rs: Seq<RecView>) -> Seq<char> {
    "{\"records\":["@ + recs_json(rs) + "]}"@
}

/// Position `i` carries a whitespace character.
pub open spec fn ws_at(s: Seq<char>, i: int) -> bool {
    0 <= i < s.len() && text::is_space(s[i])
}

/// The first position at or after `i` that carries no whitespace.
pub open spec fn skip_ws(s: Seq<char>, i: int) -> int
    decreases s.len() - i,
{
    if ws_at(s, i) {
        skip_ws(s, i + 1)
    } else {
        i
    }
}

/// The value of a hexadecimal digit; 16 for any other character.
pub open spec fn hex_val(c: char) -> nat {
    if '0' <= c && c <= '9' {
        ((c as u32) - 48) as nat
    } else if 'a' <= c && c <= 'f' {
        ((c as u32) - 87) as nat
    } else if 'A' <= c && c <= 'F' {
        ((c as u32) - 55) as nat
    } else {
        16
    }
}

/// Whether `c` is a hexadecimal digit.
pub open spec fn is_hex(c: char) -> bool {
    hex_val(c) < 16
}

/// Prepends a character to a string-parse result.
pub open spec fn cons_str(c: char, r: Option<(Seq<char>, int)>) -> Option<(Seq<char>, int)> {
    match r {
        Option::None => Option::None,
        Option::Some((t, j)) => Option::Some((seq![c] + t, j)),
    }
}

/// Parses a JSON string body starting just after the opening quote:
/// characters up to the closing quote, with the short escapes and
/// four-digit escapes of code points under 128 understood.
pub open spec fn parse_string(s: Seq<char>, i: int) -> Option<(Seq<char>, int)>
    decreases s.len() - i,
{
    if !(0 <= i < s.len()) {
        Option::None
    } else if s[i] == '"' {
        Option::Some((Seq::<char>::empty(), i + 1))
    } else if s[i] == '\\' {
        if i + 1 < s.len() {
            let e = s[i + 1];
            if e == '"' || e == '\\' || e == '/' {
                cons_str(e, parse_string(s, i + 2))
            } else if e == 'b' {
                cons_str('\u{8}', parse_string(s, i + 2))
            } else if e == 'f' {
                cons_str('\u{c}', parse_string(s, i + 2))
            } else if e == 'n' {
                cons_str('\n', parse_string(s, i + 2))
            } else if e == 'r' {
                cons_str('\r', parse_string(s, i + 2))
            } else if e == 't' {
                cons_str('\t', parse_string(s, i + 2))
            } else if e == 'u' {
                if i + 5 < s.len() && is_hex(s[i + 2]) && is_hex(s[i + 3]) && is_hex(s[i + 4])
                    && is_hex(s[i + 5]) {
                    let v = hex_val(s[i + 2]) * 4096 + hex_val(s[i + 3]) * 256 + hex_val(s[i + 4])
                        * 16 + hex_val(s[i + 5]);
                    if v < 128 {
                        cons_str((v as u8) as char, parse_string(s, i + 6))
                    } else {
                        Option::None
                    }
                } else {
                    Option::None
                }
            } else {
                Option::None
            }
        } else {
            Option::None
        }
    } else {
        cons_str(s[i], parse_string(s, i + 1))
    }
}

/// Whether `c` is a decimal digit.
pub open spec fn is_digit(c: char) -> bool {
    '0' <= c && c <= '9'
}

/// The value of a decimal digit.
pub open spec fn digit_val(c: char) -> nat {
    if is_digit(c) {
        ((c as u32) - 48) as nat
    } else {
        0
    }
}

/// The first position at or after `i` that carries no decimal digit.
pub open spec fn digits_end(s: Seq<char>, i: int) -> int
    decreases s.len() - i,
{
    if 0 <= i < s.len() && is_digit(s[i]) {
        digits_end(s, i + 1)
    } else {
        i
    }
}

/// The number a digit string denotes.
pub open spec fn num_val(d: Seq<char>) -> nat
    decreases d.len(),
{
    if d.len() == 0 {
        0
    } else {
        num_val(d.drop_last()) * 10 + digit_val(d.last())
    }
}

/// Parses a rating number: at least one digit, value at most 255.
pub open spec fn parse_stars(s: Seq<char>, i: int) -> Option<(u8, int)> {
    let j = digits_end(s, i);
    if j == i {
        Option::None
    } else {
        let v = num_val(s.subrange(i, j));
        if v > 255 {
            Option::None
        } else {
            Option::Some((v as u8, j))
        }
    }
}

/// Parses the value of the comment field: a string or `null`.
pub open spec fn parse_comment_val(s: Seq<char>, i: int) -> Option<(Option<Seq<char>>, int)> {
    let j = skip_ws(s, i);
    if 0 <= j < s.len() && s[j] == ':' {
        let k = skip_ws(s, j + 1);
        if 0 <= k < s.len() && s[k] == '"' {
            match parse_string(s, k + 1) {
                Option::None => Option::None,
                Option::Some((c, m)) => Option::Some((Option::Some(c), m)),
            }
        } else if text::starts_at(s, "null"@, k) {
            Option::Some((Option::None, k + "null"@.len()))
        } else {
            Option::None
        }
    } else {
        Option::None
    }
}

/// Parses the value of the stars field: a number or `null`.
pub open spec fn parse_stars_val(s: Seq<char>, i: int) -> Option<(Option<u8>, int)> {
    let j = skip_ws(s, i);
    if 0 <= j < s.len() && s[j] == ':' {
        let k = skip_ws(s, j + 1);
        if text::starts_at(s, "null"@, k) {
            Option::Some((Option::None, k + "null"@.len()))
        } else {
            match parse_stars(s, k) {
                Option::None => Option::None,
                Option::Some((v, m)) => Option::Some((Option::Some(v), m)),
            }
        }
    } else {
        Option::None
    }
}

/// Parses what follows a record's name: an optional comment field, an
/// optional stars field, and the closing brace.
pub open spec fn parse_tail(s: Seq<char>, i: int) -> Option<((Option<Seq<char>>, Option<u8>), int)> {
    let j = skip_ws(s, i);
    if !(0 <= j < s.len()) {
        Option::None
    } else if s[j] == '}' {
        Option::Some(((Option::None, Option::None), j + 1))
    } else if s[j] == ',' {
        let k = skip_ws(s, j + 1);
        if text::starts_at(s, "\"comment\""@, k) {
            match parse_comment_val(s, k + "\"comment\""@.len()) {
                Option::None => Option::None,
                Option::Some((cmt, m)) => match parse_tail2(s, m) {
                    Option::None => Option::None,
                    Option::Some((st, e)) => Option::Some(((cmt, st), e)),
                },
            }
        } else if text::starts_at(s, "\"stars\""@, k) {
            match parse_stars_val(s, k + "\"stars\""@.len()) {
                Option::None => Option::None,
                Option::Some((st, m)) => {
                    let e = skip_ws(s, m);
                    if 0 <= e < s.len() && s[e] == '}' {
                        Option::Some(((Option::None, st), e + 1))
                    } else {
                        Option::None
                    }
                },
            }
        } else {
            Option::None
        }
    } else {
        Option::None
    }
}

/// Parses what may follow a record's comment: an optional stars field and
/// the closing brace.
pub open spec fn parse_tail2(s: Seq<char>, i: int) -> Option<(Option<u8>, int)> {
    let j = skip_ws(s, i);
    if !(0 <= j < s.len()) {
        Option::None
    } else if s[j] == '}' {
        Option::Some((Option::None, j + 1))
    } else if s[j] == ',' {
        let k = skip_ws(s, j + 1);
        if text::starts_at(s, "\"stars\""@, k) {
            match parse_stars_val(s, k + "\"stars\""@.len()) {
                Option::None => Option::None,
                Option::Some((st, m)) => {
                    let e = skip_ws(s, m);
                    if 0 <= e < s.len() && s[e] == '}' {
                        Option::Some((st, e + 1))
                    } else {
                        Option::None
                    }
                },
            }
        } else {
            Option::None
        }
    } else {
        Option::None
    }
}

/// Parses one record object.
pub open spec fn parse_rec(s: Seq<char>, i: int) -> Option<(RecView, int)> {
    let a = skip_ws(s, i);
    if 0 <= a < s.len() && s[a] == '{' {
        let b = skip_ws(s, a + 1);
        if text::starts_at(s, "\"name\""@, b) {
            let c0 = skip_ws(s, b + "\"name\""@.len());
            if 0 <= c0 < s.len() && s[c0] == ':' {
                let d = skip_ws(s, c0 + 1);
                if 0 <= d < s.len() && s[d] == '"' {
                    match parse_string(s, d + 1) {
                        Option::None => Option::None,
                        Option::Some((name, e)) => match parse_tail(s, e) {
                            Option::None => Option::None,
                            Option::Some(((cmt, st), f)) => Option::Some(
                                (RecView { name, comment: cmt, rating: st }, f),
                            ),
                        },
                    }
                } else {
                    Option::None
                }
            } else {
                Option::None
            }
        } else {
            Option::None
        }
    } else {
        Option::None
    }
}

/// Parses the records after the first one: comma-separated objects up to
/// the closing bracket. The fuel bounds the recursion; the executable
/// parser carries the same fuel, so the two agree exactly.
pub open spec fn parse_recs_rest(s: Seq<char>, i: int, fuel: nat) -> Option<(Seq<RecView>, int)>
    decreases fuel,
{
    let j = skip_ws(s, i);
    if !(0 <= j < s.len()) {
        Option::None
    } else if s[j] == ']' {
        Option::Some((Seq::<RecView>::empty(), j + 1))
    } else if s[j] == ',' && fuel > 0 {
        match parse_rec(s, j + 1) {
            Option::None => Option::None,
            Option::Some((r, m)) => match parse_recs_rest(s, m, (fuel - 1) as nat) {
                Option::None => Option::None,
                Option::Some((rest, e)) => Option::Some((seq![r] + rest, e)),
            },
        }
    } else {
        Option::None
    }
}

/// Parses a record list, starting just after the opening bracket.
pub open spec fn parse_recs(s: Seq<char>, i: int) -> Option<(Seq<RecView>, int)> {
    let j = skip_ws(s, i);
    if 0 <= j < s.len() && s[j] == ']' {
        Option::Some((Seq::<RecView>::empty(), j + 1))
    } else {
        match parse_rec(s, i) {
            Option::None => Option::None,
            Option::Some((r, m)) => match parse_recs_rest(s, m, s.len() as nat) {
                Option::None => Option::None,
                Option::Some((rest, e)) => Option::Some((seq![r] + rest, e)),
            },
        }
    }
}

/// Parses one bare name of a legacy list.
pub open spec fn parse_name(s: Seq<char>, i: int) -> Option<(Seq<char>, int)> {
    let j = skip_ws(s, i);
    if 0 <= j < s.len() && s[j] == '"' {
        parse_string(s, j + 1)
    } else {
        Option::None
    }
}

/// Parses the names after the first one in a legacy list.
pub open spec fn parse_names_rest(s: Seq<char>, i: int, fuel: nat) -> Option<(Seq<Seq<char>>, int)>
    decreases fuel,
{
    let j = skip_ws(s, i);
    if !(0 <= j < s.len()) {
        Option::None
    } else if s[j] == ']' {
        Option::Some((Seq::<Seq<char>>::empty(), j + 1))
    } else if s[j] == ',' && fuel > 0 {
        match parse_name(s, j + 1) {
            Option::None => Option::None,
            Option::Some((nm, m)) => match parse_names_rest(s, m, (fuel - 1) as nat) {
                Option::None => Option::None,
                Option::Some((rest, e)) => Option::Some((seq![nm] + rest, e)),
            },
        }
    } else {
        Option::None
    }
}

/// Parses a legacy name list, starting just after the opening bracket.
pub open spec fn parse_names(s: Seq<char>, i: int) -> Option<(Seq<Seq<char>>, int)> {
    let j = skip_ws(s, i);
    if 0 <= j < s.len() && s[j] == ']' {
        Option::Some((Seq::<Seq<char>>::empty(), j + 1))
    } else {
        match parse_name(s, i) {
            Option::None => Option::None,
            Option::Some((nm, m)) => match parse_names_rest(s, m, s.len() as nat) {
                Option::None => Option::None,
                Option::Some((rest, e)) => Option::Some((seq![nm] + rest, e)),
            },
        }
    }
}

/// Bare names upgraded to records with absent comment and rating.
pub open spec fn names_to_recs(ns: Seq<Seq<char>>) -> Seq<RecView> {
    Seq::new(ns.len(), |i: int| RecView { name: ns[i], comment: Option::None, rating: Option::None })
}

proof fn lemma_names_to_recs_cons(nm: Seq<char>, rest: Seq<Seq<char>>)
    ensures
        names_to_recs(seq![nm] + rest) == seq![
            RecView { name: nm, comment: Option::None, rating: Option::None },
        ] + names_to_recs(rest),
{
    assert(names_to_recs(seq![nm] + rest) =~= seq![
        RecView { name: nm, comment: Option::None, rating: Option::None },
    ] + names_to_recs(rest));
}

/// Parses a whole stored document: the current shape under the key
/// `records`, or the legacy shape under the key `djs`, followed by the end
/// of the text.
pub open spec fn parse_snapshot_spec(s: Seq<char>) -> Option<Seq<RecView>> {
    let a = skip_ws(s, 0);
    if 0 <= a < s.len() && s[a] == '{' {
        let b = skip_ws(s, a + 1);
        if text::starts_at(s, "\"records\""@, b) {
            match parse_list_value(s, b + "\"records\""@.len(), false) {
                Option::None => Option::None,
                Option::Some(rs) => Option::Some(rs),
            }
        } else if text::starts_at(s, "\"djs\""@, b) {
            parse_list_value(s, b + "\"djs\""@.len(), true)
        } else {
            Option::None
        }
    } else {
        Option::None
    }
}

/// Parses `: [ ... ] }` to the end of the document, as records or as legacy
/// names.
pub open spec fn parse_list_value(s: Seq<char>, i: int, legacy: bool) -> Option<Seq<RecView>> {
    let c = skip_ws(s, i);
    if 0 <= c < s.len() && s[c] == ':' {
        let d = skip_ws(s, c + 1);
        if 0 <= d < s.len() && s[d] == '[' {
            let parsed: Option<(Seq<RecView>, int)> = if legacy {
                match parse_names(s, d + 1) {
                    Option::None => Option::None,
                    Option::Some((ns, m)) => Option::Some((names_to_recs(ns), m)),
                }
            } else {
                parse_recs(s, d + 1)
            };
            match parsed {
                Option::None => Option::None,
                Option::Some((rs, m)) => {
                    let e = skip_ws(s, m);
                    if 0 <= e < s.len() && s[e] == '}' {
                        if skip_ws(s, e + 1) == s.len() {
                            Option::Some(rs)
                        } else {
                            Option::None
                        }
                    } else {
                        Option::None
                    }
                },
            }
        } else {
            Option::None
        }
    } else {
        Option::None
    }
}

/// Appends the decimal digits of `n` to `out`.
fn push_dec(out: &mut Vec<char>, n: u8)
    ensures
        final(out)@ == old(out)@ + dec_digits(n as nat),
{
    if n < 10 {
        out.push(digit_of(n));
    } else if n < 100 {
        out.push(digit_of(n / 10));
        out.push(digit_of(n % 10));
        proof {
            assert(dec_digits((n / 10) as nat) =~= seq![digit_char((n / 10) as nat)]);
        }
    } else {
        out.push(digit_of(n / 100));
        out.push(digit_of((n / 10) % 10));
        out.push(digit_of(n % 10));
        proof {
            assert((n as nat) / 10 / 10 == (n as nat) / 100);
            assert(dec_digits((n as nat) / 100) =~= seq![digit_char((n as nat) / 100)]);
            assert(dec_digits((n as nat) / 10) =~= seq![
                digit_char((n as nat) / 100),
                digit_char((n as nat) / 10 % 10),
            ]);
        }
    }
}

/// Appends the decimal digits of `n` to `out`, for any 64-bit count.
pub fn push_dec_u64(out: &mut Vec<char>, n: u64)
    ensures
        final(out)@ == old(out)@ + dec_digits(n as nat),
    decreases n,
{
    if n < 10 {
        out.push(digit_of(n as u8));
    } else {
        push_dec_u64(out, n / 10);
        out.push(digit_of((n % 10) as u8));
        proof {
            assert(out@ =~= old(out)@ + dec_digits(n as nat));
        }
    }
}

/// The decimal digit character of `d < 10`, executable.
fn digit_of(d: u8) -> (c: char)
    requires
        d < 10,
    ensures
        c == digit_char(d as nat),
{
    if d == 0 {
        '0'
    } else if d == 1 {
        '1'
    } else if d == 2 {
        '2'
    } else if d == 3 {
        '3'
    } else if d == 4 {
        '4'
    } else if d == 5 {
        '5'
    } else if d == 6 {
        '6'
    } else if d == 7 {
        '7'
    } else if d == 8 {
        '8'
    } else {
        '9'
    }
}

/// The hexadecimal digit character of `d < 16`, executable.
fn hex_of(d: u32) -> (c: char)
    requires
        d < 16,
    ensures
        c == hex_digit(d as nat),
{
    if d < 10 {
        digit_of(d as u8)
    } else if d == 10 {
        'a'
    } else if d == 11 {
        'b'
    } else if d == 12 {
        'c'
    } else if d == 13 {
        'd'
    } else if d == 14 {
        'e'
    } else {
        'f'
    }
}

/// Appends the escaped form of the string `s` to `out`.
fn push_escaped(out: &mut Vec<char>, s: &str)
    ensures
        final(out)@ == old(out)@ + esc_str(s@),
{
    let cs = text::chars_of(s);
    let n = cs.len();
    let mut i: usize = 0;
    proof {
        assert(s@.skip(0) =~= s@);
    }
    while i < n
        invariant
            n == cs.len(),
            cs@ == s@,
            i <= n,
            out@ + esc_str(s@.skip(i as int)) =~= old(out)@ + esc_str(s@),
        decreases n - i,
    {
        let c = cs[i];
        proof {
            assert(s@.skip(i as int)[0] == s@[i as int]);
            assert(s@.skip(i as int).drop_first() =~= s@.skip(i as int + 1));
        }
        let code = c as u32;
        if c == '"' {
            out.push('\\');
            out.push('"');
        } else if c == '\\' {
            out.push('\\');
            out.push('\\');
        } else if code < 32 {
            out.push('\\');
            out.push('u');
            out.push('0');
            out.push('0');
            out.push(hex_of(code / 16));
            out.push(hex_of(code % 16));
        } else {
            out.push(c);
        }
        i += 1;
        proof {
            assert(out@ + esc_str(s@.skip(i as int)) =~= old(out)@ + esc_str(s@));
        }
    }
    proof {
        assert(esc_str(s@.skip(n as int)) =~= Seq::<char>::empty());
        assert(out@ =~= old(out)@ + esc_str(s@));
    }
}

/// Appends one record's JSON text to `out`.
fn push_rec(out: &mut Vec<char>, r: &Record)
    ensures
        final(out)@ == old(out)@ + rec_json(r@),
{
    text::append_str(out, "{\"name\":\"");
    push_escaped(out, r.name.as_str());
    text::append_str(out, "\"");
    match &r.comment {
        Option::Some(c) => {
            text::append_str(out, ",\"comment\":\"");
            push_escaped(out, c.as_str());
            text::append_str(out, "\"");
        },
        Option::None => {},
    }
    match r.rating {
        Option::Some(nr) => {
            text::append_str(out, ",\"stars\":");
            push_dec(out, nr);
        },
        Option::None => {},
    }
    text::append_str(out, "}");
    proof {
        assert(out@ =~= old(out)@ + rec_json(r@));
    }
}

proof fn lemma_recs_json_rest_push(rs: Seq<RecView>, x: RecView)
    ensures
        recs_json_rest(rs.push(x)) == recs_json_rest(rs) + seq![','] + rec_json(x),
    decreases rs.len(),
{
    if rs.len() == 0 {
        assert(rs.push(x)[0] == x);
        assert(rs.push(x).drop_first() =~= Seq::<RecView>::empty());
        assert(recs_json_rest(Seq::<RecView>::empty()) =~= Seq::<char>::empty());
        assert(recs_json_rest(rs.push(x)) =~= recs_json_rest(rs) + seq![','] + rec_json(x));
    } else {
        assert(rs.push(x)[0] == rs[0]);
        assert(rs.push(x).drop_first() =~= rs.drop_first().push(x));
        lemma_recs_json_rest_push(rs.drop_first(), x);
        assert(recs_json_rest(rs.push(x)) =~= recs_json_rest(rs) + seq![','] + rec_json(x));
    }
}

proof fn lemma_recs_json_push(rs: Seq<RecView>, x: RecView)
    ensures
        recs_json(rs.push(x)) == if rs.len() == 0 {
            rec_json(x)
        } else {
            recs_json(rs) + seq![','] + rec_json(x)
        },
{
    if rs.len() == 0 {
        assert(rs.push(x)[0] == x);
        assert(rs.push(x).drop_first() =~= Seq::<RecView>::empty());
        assert(recs_json_rest(Seq::<RecView>::empty()) =~= Seq::<char>::empty());
        assert(recs_json(rs.push(x)) =~= rec_json(x));
    } else {
        assert(rs.push(x)[0] == rs[0]);
        assert(rs.push(x).drop_first() =~= rs.drop_first().push(x));
        lemma_recs_json_rest_push(rs.drop_first(), x);
        assert(recs_json(rs.push(x)) =~= recs_json(rs) + seq![','] + rec_json(x));
    }
}

/// Executable counterpart of `skip_ws`.
fn skip_ws_exec(v: &Vec<char>, i: usize) -> (r: usize)
    requires
        i <= v.len(),
    ensures
        r == skip_ws(v@, i as int),
        i <= r <= v.len(),
{
    let mut j = i;
    while j < v.len() && text::space(v[j])
        invariant
            i <= j <= v.len(),
            skip_ws(v@, i as int) == skip_ws(v@, j as int),
        decreases v.len() - j,
    {
        j += 1;
    }
    j
}

/// `seq![c] + t`, executable.
fn prepend_char(c: char, t: Vec<char>) -> (r: Vec<char>)
    ensures
        r@ == seq![c] + t@,
{
    let ghost tv = t@;
    let mut r = t;
    r.insert(0, c);
    proof {
        assert(r@ =~= seq![c] + tv);
    }
    r
}

/// Executable counterpart of `hex_val`.
fn hex_val_exec(c: char) -> (r: u32)
    ensures
        r == hex_val(c),
{
    if c >= '0' && c <= '9' {
        (c as u32) - 48
    } else if c >= 'a' && c <= 'f' {
        (c as u32) - 87
    } else if c >= 'A' && c <= 'F' {
        (c as u32) - 55
    } else {
        16
    }
}

/// Executable counterpart of `parse_string`.
fn parse_string_exec(v: &Vec<char>, i: usize) -> (r: Option<(Vec<char>, usize)>)
    requires
        i <= v.len(),
    ensures
        match r {
            Option::Some(p) => p.1 <= v.len() && parse_string(v@, i as int) == Option::Some(
                (p.0@, p.1 as int),
            ),
            Option::None => parse_string(v@, i as int) is None,
        },
    decreases v.len() - i,
{
    if i >= v.len() {
        return None;
    }
    let c = v[i];
    if c == '"' {
        let empty: Vec<char> = Vec::new();
        proof {
            assert(empty@ =~= Seq::<char>::empty());
        }
        return Some((empty, i + 1));
    }
    if c == '\\' {
        if i + 1 >= v.len() {
            return None;
        }
        let e = v[i + 1];
        if e == '"' || e == '\\' || e == '/' || e == 'b' || e == 'f' || e == 'n' || e == 'r'
            || e == 't' {
            let ch: char = if e == 'b' {
                '\u{8}'
            } else if e == 'f' {
                '\u{c}'
            } else if e == 'n' {
                '\n'
            } else if e == 'r' {
                '\r'
            } else if e == 't' {
                '\t'
            } else {
                e
            };
            match parse_string_exec(v, i + 2) {
                None => None,
                Some((t, j)) => Some((prepend_char(ch, t), j)),
            }
        } else if e == 'u' {
            if v.len() - i > 5 && hex_val_exec(v[i + 2]) < 16 && hex_val_exec(v[i + 3]) < 16
                && hex_val_exec(v[i + 4]) < 16 && hex_val_exec(v[i + 5]) < 16 {
                let val = hex_val_exec(v[i + 2]) * 4096 + hex_val_exec(v[i + 3]) * 256
                    + hex_val_exec(v[i + 4]) * 16 + hex_val_exec(v[i + 5]);
                if val < 128 {
                    let ch = (val as u8) as char;
                    match parse_string_exec(v, i + 6) {
                        None => None,
                        Some((t, j)) => Some((prepend_char(ch, t), j)),
                    }
                } else {
                    None
                }
            } else {
                None
            }
        } else {
            None
        }
    } else {
        match parse_string_exec(v, i + 1) {
            None => None,
            Some((t, j)) => Some((prepend_char(c, t), j)),
        }
    }
}

/// Executable counterpart of `parse_stars`.
fn parse_stars_exec(v: &Vec<char>, i: usize) -> (r: Option<(u8, usize)>)
    requires
        i <= v.len(),
    ensures
        match r {
            Option::Some(p) => p.1 <= v.len() && parse_stars(v@, i as int) == Option::Some(
                (p.0, p.1 as int),
            ),
            Option::None => parse_stars(v@, i as int) is None,
        },
{
    let mut j = i;
    let mut acc: u32 = 0;
    while j < v.len() && v[j] >= '0' && v[j] <= '9'
        invariant
            i <= j <= v.len(),
            digits_end(v@, i as int) == digits_end(v@, j as int),
            num_val(v@.subrange(i as int, j as int)) <= 255 ==> acc == num_val(
                v@.subrange(i as int, j as int),
            ),
            num_val(v@.subrange(i as int, j as int)) > 255 ==> acc == 256,
            acc <= 256,
        decreases v.len() - j,
    {
        let d = (v[j] as u32) - 48;
        proof {
            assert(v@.subrange(i as int, j as int + 1).drop_last() =~= v@.subrange(
                i as int,
                j as int,
            ));
            assert(v@.subrange(i as int, j as int + 1).last() == v@[j as int]);
        }
        if acc <= 255 {
            let next = acc * 10 + d;
            acc = if next > 255 {
                256
            } else {
                next
            };
        }
        j += 1;
    }
    proof {
        assert(digits_end(v@, j as int) == j as int);
    }
    if j == i {
        return None;
    }
    if acc > 255 {
        return None;
    }
    Some((acc as u8, j))
}

/// Executable counterpart of `parse_comment_val`.
fn parse_comment_val_exec(v: &Vec<char>, i: usize) -> (r: Option<(Option<Vec<char>>, usize)>)
    requires
        i <= v.len(),
    ensures
        match r {
            Option::Some(p) => p.1 <= v.len() && parse_comment_val(v@, i as int) == Option::Some(
                (
                    match p.0 {
                        Option::Some(c) => Option::Some(c@),
                        Option::None => Option::None,
                    },
                    p.1 as int,
                ),
            ),
            Option::None => parse_comment_val(v@, i as int) is None,
        },
{
    let j = skip_ws_exec(v, i);
    if j < v.len() && v[j] == ':' {
        let k = skip_ws_exec(v, j + 1);
        if k < v.len() && v[k] == '"' {
            match parse_string_exec(v, k + 1) {
                None => None,
                Some((c, m)) => Some((Some(c), m)),
            }
        } else if text::starts_with_at(v, "null", k) {
            let nl = "null".unicode_len();
            Some((None, k + nl))
        } else {
            None
        }
    } else {
        None
    }
}

/// Executable counterpart of `parse_stars_val`.
fn parse_stars_val_exec(v: &Vec<char>, i: usize) -> (r: Option<(Option<u8>, usize)>)
    requires
        i <= v.len(),
    ensures
        match r {
            Option::Some(p) => p.1 <= v.len() && parse_stars_val(v@, i as int) == Option::Some(
                (p.0, p.1 as int),
            ),
            Option::None => parse_stars_val(v@, i as int) is None,
        },
{
    let j = skip_ws_exec(v, i);
    if j < v.len() && v[j] == ':' {
        let k = skip_ws_exec(v, j + 1);
        if text::starts_with_at(v, "null", k) {
            let nl = "null".unicode_len();
            Some((None, k + nl))
        } else {
            match parse_stars_exec(v, k) {
                None => None,
                Some((n, m)) => Some((Some(n), m)),
            }
        }
    } else {
        None
    }
}

/// Executable counterpart of `parse_tail2`.
fn parse_tail2_exec(v: &Vec<char>, i: usize) -> (r: Option<(Option<u8>, usize)>)
    requires
        i <= v.len(),
    ensures
        match r {
            Option::Some(p) => p.1 <= v.len() && parse_tail2(v@, i as int) == Option::Some(
                (p.0, p.1 as int),
            ),
            Option::None => parse_tail2(v@, i as int) is None,
        },
{
    let j = skip_ws_exec(v, i);
    if j >= v.len() {
        return None;
    }
    if v[j] == '}' {
        return Some((None, j + 1));
    }
    if v[j] == ',' {
        let k = skip_ws_exec(v, j + 1);
        if text::starts_with_at(v, "\"stars\"", k) {
            let kl = "\"stars\"".unicode_len();
            match parse_stars_val_exec(v, k + kl) {
                None => None,
                Some((st, m)) => {
                    let e = skip_ws_exec(v, m);
                    if e < v.len() && v[e] == '}' {
                        Some((st, e + 1))
                    } else {
                        None
                    }
                },
            }
        } else {
            None
        }
    } else {
        None
    }
}

/// Executable counterpart of `parse_tail`.
fn parse_tail_exec(v: &Vec<char>, i: usize) -> (r: Option<((Option<Vec<char>>, Option<u8>), usize)>)
    requires
        i <= v.len(),
    ensures
        match r {
            Option::Some(p) => p.1 <= v.len() && parse_tail(v@, i as int) == Option::Some(
                (
                    (
                        match p.0.0 {
                            Option::Some(c) => Option::Some(c@),
                            Option::None => Option::None,
                        },
                        p.0.1,
                    ),
                    p.1 as int,
                ),
            ),
            Option::None => parse_tail(v@, i as int) is None,
        },
{
    let j = skip_ws_exec(v, i);
    if j >= v.len() {
        return None;
    }
    if v[j] == '}' {
        return Some(((None, None), j + 1));
    }
    if v[j] == ',' {
        let k = skip_ws_exec(v, j + 1);
        if text::starts_with_at(v, "\"comment\"", k) {
            let kl = "\"comment\"".unicode_len();
            match parse_comment_val_exec(v, k + kl) {
                None => None,
                Some((cmt, m)) => match parse_tail2_exec(v, m) {
                    None => None,
                    Some((st, e)) => Some(((cmt, st), e)),
                },
            }
        } else if text::starts_with_at(v, "\"stars\"", k) {
            let kl = "\"stars\"".unicode_len();
            match parse_stars_val_exec(v, k + kl) {
                None => None,
                Some((st, m)) => {
                    let e = skip_ws_exec(v, m);
                    if e < v.len() && v[e] == '}' {
                        Some(((None, st), e + 1))
                    } else {
                        None
                    }
                },
            }
        } else {
            None
        }
    } else {
        None
    }
}

/// Executable counterpart of `parse_rec`.
fn parse_rec_exec(v: &Vec<char>, i: usize) -> (r: Option<(Record, usize)>)
    requires
        i <= v.len(),
    ensures
        match r {
            Option::Some(p) => p.1 <= v.len() && parse_rec(v@, i as int) == Option::Some(
                (p.0@, p.1 as int),
            ),
            Option::None => parse_rec(v@, i as int) is None,
        },
{
    let a = skip_ws_exec(v, i);
    if !(a < v.len() && v[a] == '{') {
        return None;
    }
    let b = skip_ws_exec(v, a + 1);
    if !text::starts_with_at(v, "\"name\"", b) {
        return None;
    }
    let bl = "\"name\"".unicode_len();
    let c0 = skip_ws_exec(v, b + bl);
    if !(c0 < v.len() && v[c0] == ':') {
        return None;
    }
    let d = skip_ws_exec(v, c0 + 1);
    if !(d < v.len() && v[d] == '"') {
        return None;
    }
    match parse_string_exec(v, d + 1) {
        None => None,
        Some((name_chars, e)) => match parse_tail_exec(v, e) {
            None => None,
            Some(((cmt, st), f)) => {
                let name = text::string_of(&name_chars);
                let comment = match cmt {
                    Some(c) => Some(text::string_of(&c)),
                    None => None,
                };
                let rec = Record { name, comment, rating: st };
                proof {
                    assert(rec@ =~= parse_rec(v@, i as int)->Some_0.0);
                }
                Some((rec, f))
            },
        },
    }
}

/// Executable counterpart of `parse_recs_rest`; the fuel matches the
/// specification's.
fn parse_recs_rest_exec(v: &Vec<char>, i: usize, fuel: usize) -> (r: Option<(Vec<Record>, usize)>)
    requires
        i <= v.len(),
    ensures
        match r {
            Option::Some(p) => p.1 <= v.len() && parse_recs_rest(v@, i as int, fuel as nat)
                == Option::Some((crate::record::rec_views(p.0@), p.1 as int)),
            Option::None => parse_recs_rest(v@, i as int, fuel as nat) is None,
        },
    decreases fuel,
{
    let j = skip_ws_exec(v, i);
    if j >= v.len() {
        return None;
    }
    if v[j] == ']' {
        let empty: Vec<Record> = Vec::new();
        proof {
            assert(crate::record::rec_views(empty@) =~= Seq::<RecView>::empty());
        }
        return Some((empty, j + 1));
    }
    if v[j] == ',' && fuel > 0 {
        match parse_rec_exec(v, j + 1) {
            None => None,
            Some((rec, m)) => match parse_recs_rest_exec(v, m, fuel - 1) {
                None => None,
                Some((rest, e)) => {
                    let mut out = rest;
                    out.insert(0, rec);
                    proof {
                        assert(crate::record::rec_views(out@) =~= seq![
                            parse_rec(v@, j as int + 1)->Some_0.0,
                        ] + parse_recs_rest(v@, m as int, (fuel - 1) as nat)->Some_0.0);
                    }
                    Some((out, e))
                },
            },
        }
    } else {
        None
    }
}

/// Executable counterpart of `parse_recs`.
fn parse_recs_exec(v: &Vec<char>, i: usize) -> (r: Option<(Vec<Record>, usize)>)
    requires
        i <= v.len(),
    ensures
        match r {
            Option::Some(p) => p.1 <= v.len() && parse_recs(v@, i as int) == Option::Some(
                (crate::record::rec_views(p.0@), p.1 as int),
            ),
            Option::None => parse_recs(v@, i as int) is None,
        },
{
    let j = skip_ws_exec(v, i);
    if j < v.len() && v[j] == ']' {
        let empty: Vec<Record> = Vec::new();
        proof {
            assert(crate::record::rec_views(empty@) =~= Seq::<RecView>::empty());
        }
        return Some((empty, j + 1));
    }
    match parse_rec_exec(v, i) {
        None => None,
        Some((rec, m)) => match parse_recs_rest_exec(v, m, v.len()) {
            None => None,
            Some((rest, e)) => {
                let mut out = rest;
                out.insert(0, rec);
                proof {
                    assert(crate::record::rec_views(out@) =~= seq![parse_rec(v@, i as int)->Some_0.0]
                        + parse_recs_rest(v@, m as int, v@.len() as nat)->Some_0.0);
                }
                Some((out, e))
            },
        },
    }
}

/// Executable counterpart of `parse_name`.
fn parse_name_exec(v: &Vec<char>, i: usize) -> (r: Option<(Vec<char>, usize)>)
    requires
        i <= v.len(),
    ensures
        match r {
            Option::Some(p) => p.1 <= v.len() && parse_name(v@, i as int) == Option::Some(
                (p.0@, p.1 as int),
            ),
            Option::None => parse_name(v@, i as int) is None,
        },
{
    let j = skip_ws_exec(v, i);
    if j < v.len() && v[j] == '"' {
        parse_string_exec(v, j + 1)
    } else {
        None
    }
}

/// Executable counterpart of `parse_names_rest`.
fn parse_names_rest_exec(v: &Vec<char>, i: usize, fuel: usize) -> (r: Option<(Vec<Record>, usize)>)
    requires
        i <= v.len(),
    ensures
        match r {
            Option::Some(p) => p.1 <= v.len() && (match parse_names_rest(
                v@,
                i as int,
                fuel as nat,
            ) {
                Option::Some(q) => crate::record::rec_views(p.0@) == names_to_recs(q.0) && q.1
                    == p.1 as int,
                Option::None => false,
            }),
            Option::None => parse_names_rest(v@, i as int, fuel as nat) is None,
        },
    decreases fuel,
{
    let j = skip_ws_exec(v, i);
    if j >= v.len() {
        return None;
    }
    if v[j] == ']' {
        let empty: Vec<Record> = Vec::new();
        proof {
            assert(crate::record::rec_views(empty@) =~= names_to_recs(Seq::<Seq<char>>::empty()));
        }
        return Some((empty, j + 1));
    }
    if v[j] == ',' && fuel > 0 {
        match parse_name_exec(v, j + 1) {
            None => None,
            Some((nm, m)) => match parse_names_rest_exec(v, m, fuel - 1) {
                None => None,
                Some((rest, e)) => {
                    let name = text::string_of(&nm);
                    let nrec = Record { name, comment: None, rating: None };
                    let ghost nrecv = nrec@;
                    let ghost restv = rest@;
                    let mut out = rest;
                    out.insert(0, nrec);
                    proof {
                        let ghost nmv = parse_name(v@, j as int + 1)->Some_0.0;
                        let ghost rest_ns = parse_names_rest(v@, m as int, (fuel - 1) as nat)->Some_0.0;
                        assert(crate::record::rec_views(out@) =~= seq![nrecv]
                            + crate::record::rec_views(restv));
                        lemma_names_to_recs_cons(nmv, rest_ns);
                        assert(nrecv == RecView {
                            name: nmv,
                            comment: Option::None,
                            rating: Option::None,
                        });
                        assert(crate::record::rec_views(out@) == names_to_recs(seq![nmv] + rest_ns));
                    }
                    Some((out, e))
                },
            },
        }
    } else {
        None
    }
}

/// Executable counterpart of `parse_names`.
fn parse_names_exec(v: &Vec<char>, i: usize) -> (r: Option<(Vec<Record>, usize)>)
    requires
        i <= v.len(),
    ensures
        match r {
            Option::Some(p) => p.1 <= v.len() && (match parse_names(v@, i as int) {
                Option::Some(q) => crate::record::rec_views(p.0@) == names_to_recs(q.0) && q.1
                    == p.1 as int,
                Option::None => false,
            }),
            Option::None => parse_names(v@, i as int) is None,
        },
{
    let j = skip_ws_exec(v, i);
    if j < v.len() && v[j] == ']' {
        let empty: Vec<Record> = Vec::new();
        proof {
            assert(crate::record::rec_views(empty@) =~= names_to_recs(Seq::<Seq<char>>::empty()));
        }
        return Some((empty, j + 1));
    }
    match parse_name_exec(v, i) {
        None => None,
        Some((nm, m)) => match parse_names_rest_exec(v, m, v.len()) {
            None => None,
            Some((rest, e)) => {
                let name = text::string_of(&nm);
                let nrec = Record { name, comment: None, rating: None };
                let ghost nrecv = nrec@;
                let ghost restv = rest@;
                let mut out = rest;
                out.insert(0, nrec);
                proof {
                    let ghost nmv = parse_name(v@, i as int)->Some_0.0;
                    let ghost rest_ns = parse_names_rest(v@, m as int, v@.len() as nat)->Some_0.0;
                    assert(crate::record::rec_views(out@) =~= seq![nrecv]
                        + crate::record::rec_views(restv));
                    lemma_names_to_recs_cons(nmv, rest_ns);
                    assert(nrecv == RecView {
                        name: nmv,
                        comment: Option::None,
                        rating: Option::None,
                    });
                    assert(crate::record::rec_views(out@) == names_to_recs(seq![nmv] + rest_ns));
                }
                Some((out, e))
            },
        },
    }
}

/// Why a stored snapshot document cannot be read.
#[derive(Clone, Copy, Debug, PartialEq, Eq, Structural)]
pub enum StoreError {
    /// The document matches neither the current nor the legacy shape.
    MalformedSnapshot,
}

/// Parses a stored snapshot document. Succeeds exactly on documents the
/// accepted grammar describes; the members are deduplicated by structural
/// equality, so the result is a well-formed set.
pub fn parse_snapshot(s: &str) -> (r: Result<RecordSet, StoreError>)
    ensures
        match r {
            Result::Ok(rs) => parse_snapshot_spec(s@) is Some && rs@ == extract::fold_records(
                Seq::<RecView>::empty(),
                parse_snapshot_spec(s@)->Some_0,
            ) && rs.wf(),
            Result::Err(e) => parse_snapshot_spec(s@) is None && e
                == StoreError::MalformedSnapshot,
        },
{
    let v = text::chars_of(s);
    let a = skip_ws_exec(&v, 0);
    if !(a < v.len() && v[a] == '{') {
        return Err(StoreError::MalformedSnapshot);
    }
    let b = skip_ws_exec(&v, a + 1);
    let parsed: Option<(Vec<Record>, usize)> = if text::starts_with_at(&v, "\"records\"", b) {
        let kl = "\"records\"".unicode_len();
        parse_list_value_exec(&v, b + kl, false)
    } else if text::starts_with_at(&v, "\"djs\"", b) {
        let kl = "\"djs\"".unicode_len();
        parse_list_value_exec(&v, b + kl, true)
    } else {
        return Err(StoreError::MalformedSnapshot);
    };
    match parsed {
        None => Err(StoreError::MalformedSnapshot),
        Some((recs, _end)) => {
            let ghost parsed_views = parse_snapshot_spec(s@)->Some_0;
            proof {
                assert(crate::record::rec_views(recs@) == parsed_views);
            }
            let mut rs = RecordSet::new();
            let n = recs.len();
            let mut i: usize = 0;
            proof {
                assert(parsed_views.take(0) =~= Seq::<RecView>::empty());
            }
            while i < n
                invariant
                    n == recs.len(),
                    i <= n,
                    crate::record::rec_views(recs@) == parsed_views,
                    parsed_views.len() == n,
                    rs@ == extract::fold_records(
                        Seq::<RecView>::empty(),
                        parsed_views.take(i as int),
                    ),
                    rs.wf(),
                decreases n - i,
            {
                let rec = recs[i].clone();
                proof {
                    assert(rec@ == parsed_views[i as int]);
                }
                rs.insert(rec);
                i += 1;
                proof {
                    extract::lemma_fold_records_step(
                        Seq::<RecView>::empty(),
                        parsed_views,
                        i as int,
                    );
                }
            }
            proof {
                assert(parsed_views.take(n as int) =~= parsed_views);
            }
            Ok(rs)
        },
    }
}

/// Executable counterpart of `parse_list_value`; the end position is the
/// text's length on success.
fn parse_list_value_exec(v: &Vec<char>, i: usize, legacy: bool) -> (r: Option<(Vec<Record>, usize)>)
    requires
        i <= v.len(),
    ensures
        match r {
            Option::Some(p) => (match parse_list_value(v@, i as int, legacy) {
                Option::Some(rs) => crate::record::rec_views(p.0@) == rs,
                Option::None => false,
            }),
            Option::None => parse_list_value(v@, i as int, legacy) is None,
        },
{
    let c = skip_ws_exec(v, i);
    if !(c < v.len() && v[c] == ':') {
        return None;
    }
    let d = skip_ws_exec(v, c + 1);
    if !(d < v.len() && v[d] == '[') {
        return None;
    }
    let parsed: Option<(Vec<Record>, usize)> = if legacy {
        parse_names_exec(v, d + 1)
    } else {
        parse_recs_exec(v, d + 1)
    };
    match parsed {
        None => None,
        Some((recs, m)) => {
            let e = skip_ws_exec(v, m);
            if !(e < v.len() && v[e] == '}') {
                return None;
            }
            if skip_ws_exec(v, e + 1) != v.len() {
                return None;
            }
            Some((recs, e + 1))
        },
    }
}

/// Serializes a snapshot to its canonical JSON text.
pub fn serialize_snapshot(rs: &RecordSet) -> (r: String)
    ensures
        r@ == snapshot_json(rs@),
{
    let mut out: Vec<char> = Vec::new();
    text::append_str(&mut out, "{\"records\":[");
    let n = rs.records.len();
    let mut i: usize = 0;
    proof {
        assert(rs@.take(0) =~= Seq::<RecView>::empty());
        assert(out@ =~= "{\"records\":["@ + recs_json(rs@.take(0)));
    }
    while i < n
        invariant
            n == rs.records.len(),
            n == rs@.len(),
            i <= n,
            out@ =~= "{\"records\":["@ + recs_json(rs@.take(i as int)),
        decreases n - i,
    {
        if i > 0 {
            text::append_str(&mut out, ",");
        }
        proof {
            assert(rs.records@[i as int]@ == rs@[i as int]);
        }
        push_rec(&mut out, &rs.records[i]);
        proof {
            lemma_recs_json_push(rs@.take(i as int), rs@[i as int]);
            assert(rs@.take(i as int).push(rs@[i as int]) =~= rs@.take(i as int + 1));
            if i > 0 {
                reveal_strlit(",");
                assert(","@ =~= seq![',']);
            }
            assert(out@ =~= "{\"records\":["@ + recs_json(rs@.take(i as int + 1)));
        }
        i += 1;
    }
    text::append_str(&mut out, "]}");
    proof {
        assert(rs@.take(n as int) =~= rs@);
        assert(out@ =~= snapshot_json(rs@));
    }
    text::string_of(&out)
}

proof fn lemma_digit_char_val(d: nat)
    requires
        d < 10,
    ensures
        is_digit(digit_char(d)),
        digit_val(digit_char(d)) == d,
{
}

proof fn lemma_hex_digit_val(d: nat)
    requires
        d < 16,
    ensures
        is_hex(hex_digit(d)),
        hex_val(hex_digit(d)) == d,
{
}

proof fn lemma_dec_digits_are_digits(n: nat)
    ensures
        dec_digits(n).len() >= 1,
        forall|k: int| 0 <= k < dec_digits(n).len() ==> is_digit(#[trigger] dec_digits(n)[k]),
    decreases n,
{
    if n < 10 {
        lemma_digit_char_val(n);
    } else {
        lemma_dec_digits_are_digits(n / 10);
        lemma_digit_char_val(n % 10);
    }
}

proof fn lemma_num_val_dec_digits(n: nat)
    ensures
        num_val(dec_digits(n)) == n,
    decreases n,
{
    if n < 10 {
        lemma_digit_char_val(n);
        assert(num_val(Seq::<char>::empty()) == 0);
        assert(dec_digits(n).drop_last() =~= Seq::<char>::empty());
        assert(dec_digits(n).last() == digit_char(n));
    } else {
        lemma_num_val_dec_digits(n / 10);
        lemma_digit_char_val(n % 10);
        assert(dec_digits(n).drop_last() =~= dec_digits(n / 10));
        assert(dec_digits(n).last() == digit_char(n % 10));
        assert(num_val(dec_digits(n)) == num_val(dec_digits(n / 10)) * 10 + digit_val(
            digit_char(n % 10),
        ));
        assert((n / 10) * 10 + n % 10 == n);
    }
}

proof fn lemma_digits_end_at(s: Seq<char>, i: int, j: int)
    requires
        0 <= i <= j <= s.len(),
        forall|k: int| i <= k < j ==> is_digit(s[k]),
        j == s.len() || !is_digit(s[j]),
    ensures
        digits_end(s, i) == j,
    decreases j - i,
{
    if i < j {
        lemma_digits_end_at(s, i + 1, j);
    }
}

proof fn lemma_parse_dec(s: Seq<char>, i: int, n: nat, j: int)
    requires
        n <= 255,
        0 <= i <= j <= s.len(),
        j == i + dec_digits(n).len(),
        s.subrange(i, j) == dec_digits(n),
        j == s.len() || !is_digit(s[j]),
    ensures
        parse_stars(s, i) == Option::Some((n as u8, j)),
{
    lemma_dec_digits_are_digits(n);
    assert forall|k: int| i <= k < j implies is_digit(s[k]) by {
        assert(s[k] == dec_digits(n)[k - i]);
    }
    lemma_digits_end_at(s, i, j);
    lemma_num_val_dec_digits(n);
}

proof fn lemma_skip_ws_still(s: Seq<char>, i: int)
    requires
        !ws_at(s, i),
    ensures
        skip_ws(s, i) == i,
{
}

/// Parsing inverts escaping: from position `i`, the text carries the
/// escaped form of `name` followed by a closing quote.
proof fn lemma_parse_esc(s: Seq<char>, i: int, name: Seq<char>, j: int)
    requires
        0 <= i <= j,
        j == i + esc_str(name).len(),
        j < s.len(),
        s.subrange(i, j) == esc_str(name),
        s[j] == '"',
    ensures
        parse_string(s, i) == Option::Some((name, j + 1)),
    decreases name.len(),
{
    if name.len() == 0 {
        assert(esc_str(name).len() == 0);
    } else {
        let c = name[0];
        let rest = name.drop_first();
        let e = esc_char(c);
        assert(esc_str(name) == e + esc_str(rest));
        let i2 = i + e.len();
        assert forall|k: int| 0 <= k < e.len() implies s[i + k] == e[k] by {
            assert(s[i + k] == s.subrange(i, j)[k]);
        }
        assert(s.subrange(i2, j) =~= esc_str(rest)) by {
            assert forall|k: int| 0 <= k < j - i2 implies s.subrange(i2, j)[k] == esc_str(rest)[k] by {
                assert(s.subrange(i2, j)[k] == s.subrange(i, j)[k + e.len()]);
            }
        }
        lemma_parse_esc(s, i2, rest, j);
        assert(seq![c] + rest =~= name);
        if c == '"' {
            assert(s[i] == '\\' && s[i + 1] == '"');
        } else if c == '\\' {
            assert(s[i] == '\\' && s[i + 1] == '\\');
        } else if (c as u32) < 32 {
            assert(s[i] == '\\' && s[i + 1] == 'u' && s[i + 2] == '0' && s[i + 3] == '0');
            let hi = ((c as u32) / 16) as nat;
            let lo = ((c as u32) % 16) as nat;
            lemma_hex_digit_val(hi);
            lemma_hex_digit_val(lo);
            lemma_hex_digit_val(0);
            assert(s[i + 4] == hex_digit(hi) && s[i + 5] == hex_digit(lo));
            let v = hex_val(s[i + 2]) * 4096 + hex_val(s[i + 3]) * 256 + hex_val(s[i + 4]) * 16
                + hex_val(s[i + 5]);
            assert(v == c as u32);
            assert(v < 32);
            let u: u32 = c as u32;
            vstd::utf8::char_u32_cast(c, u);
            assert((u as char) == c);
            assert((v as u8) as char == (u as char));
        } else {
            assert(s[i] == c);
        }
    }
}

proof fn lemma_seg(s: Seq<char>, i: int, j: int, whole: Seq<char>, a: int, b: int)
    requires
        0 <= i <= j <= s.len(),
        j == i + whole.len(),
        s.subrange(i, j) == whole,
        0 <= a <= b <= whole.len(),
    ensures
        s.subrange(i + a, i + b) == whole.subrange(a, b),
{
    assert(s.subrange(i + a, i + b) =~= whole.subrange(a, b)) by {
        assert forall|k: int|
            0 <= k < b - a implies s.subrange(i + a, i + b)[k] == whole.subrange(a, b)[k] by {
            assert(s.subrange(i, j)[a + k] == whole[a + k]);
        }
    }
}

proof fn lemma_char_at(s: Seq<char>, i: int, j: int, whole: Seq<char>, k: int)
    requires
        0 <= i <= j <= s.len(),
        j == i + whole.len(),
        s.subrange(i, j) == whole,
        0 <= k < whole.len(),
    ensures
        s[i + k] == whole[k],
{
    assert(s.subrange(i, j)[k] == s[i + k]);
}

/// What follows a record's comment in the canonical text: the stars field
/// if the rating is present, then the closing brace.
spec fn tail2_json(rating: Option<u8>) -> Seq<char> {
    (match rating {
        Option::Some(n) => ",\"stars\":"@ + dec_digits(n as nat),
        Option::None => Seq::<char>::empty(),
    }) + "}"@
}

/// What follows a record's name in the canonical text.
spec fn tail_json(cmt: Option<Seq<char>>, rating: Option<u8>) -> Seq<char> {
    (match cmt {
        Option::Some(c) => ",\"comment\":\""@ + esc_str(c) + "\""@,
        Option::None => Seq::<char>::empty(),
    }) + tail2_json(rating)
}

proof fn lemma_parse_tail2_json(s: Seq<char>, i: int, rating: Option<u8>, j: int)
    requires
        0 <= i <= j <= s.len(),
        j == i + tail2_json(rating).len(),
        s.subrange(i, j) == tail2_json(rating),
    ensures
        parse_tail2(s, i) == Option::Some((rating, j)),
{
    reveal_strlit(",\"stars\":");
    reveal_strlit("\"stars\"");
    reveal_strlit("}");
    reveal_strlit("null");
    let w = tail2_json(rating);
    match rating {
        Option::None => {
            assert(w =~= "}"@);
            lemma_char_at(s, i, j, w, 0);
            assert(s[i] == '}');
            lemma_skip_ws_still(s, i);
        },
        Option::Some(n) => {
            let digits = dec_digits(n as nat);
            let dl = digits.len() as int;
            assert(w =~= ",\"stars\":"@ + (digits + "}"@));
            lemma_char_at(s, i, j, w, 0);
            lemma_char_at(s, i, j, w, 1);
            lemma_char_at(s, i, j, w, 8);
            lemma_char_at(s, i, j, w, 9);
            lemma_char_at(s, i, j, w, 9 + dl);
            assert(s[i] == ',');
            lemma_skip_ws_still(s, i);
            assert(s[i + 1] == '"');
            lemma_skip_ws_still(s, i + 1);
            lemma_seg(s, i, j, w, 1, 8);
            assert(w.subrange(1, 8) =~= "\"stars\""@);
            assert(text::starts_at(s, "\"stars\""@, i + 1));
            assert(s[i + 8] == ':');
            lemma_skip_ws_still(s, i + 8);
            lemma_dec_digits_are_digits(n as nat);
            assert(s[i + 9] == digits[0]);
            lemma_skip_ws_still(s, i + 9);
            assert(!text::starts_at(s, "null"@, i + 9)) by {
                if text::starts_at(s, "null"@, i + 9) {
                    assert(s.subrange(i + 9, i + 9 + 4)[0] == 'n');
                    assert(is_digit(s[i + 9]));
                }
            }
            lemma_seg(s, i, j, w, 9, 9 + dl);
            assert(w.subrange(9, 9 + dl) =~= digits);
            assert(s[i + 9 + dl] == '}');
            lemma_parse_dec(s, i + 9, n as nat, i + 9 + dl);
            lemma_skip_ws_still(s, i + 9 + dl);
            assert(parse_stars_val(s, i + 8) == Option::Some((Option::Some(n), i + 9 + dl)));
            assert(j == i + 9 + dl + 1);
        },
    }
}

proof fn lemma_parse_tail_json(
    s: Seq<char>,
    i: int,
    cmt: Option<Seq<char>>,
    rating: Option<u8>,
    j: int,
)
    requires
        0 <= i <= j <= s.len(),
        j == i + tail_json(cmt, rating).len(),
        s.subrange(i, j) == tail_json(cmt, rating),
    ensures
        parse_tail(s, i) == Option::Some(((cmt, rating), j)),
{
    reveal_strlit(",\"comment\":\"");
    reveal_strlit("\"comment\"");
    reveal_strlit(",\"stars\":");
    reveal_strlit("\"stars\"");
    reveal_strlit("}");
    reveal_strlit("\"");
    let w = tail_json(cmt, rating);
    match cmt {
        Option::None => {
            match rating {
                Option::None => {
                    assert(w =~= "}"@);
                    lemma_char_at(s, i, j, w, 0);
                    assert(s[i] == '}');
                    lemma_skip_ws_still(s, i);
                },
                Option::Some(n) => {
                    let digits = dec_digits(n as nat);
                    let dl = digits.len() as int;
                    assert(w =~= ",\"stars\":"@ + (digits + "}"@));
                    lemma_char_at(s, i, j, w, 0);
                    lemma_char_at(s, i, j, w, 1);
                    lemma_char_at(s, i, j, w, 2);
                    lemma_char_at(s, i, j, w, 8);
                    lemma_char_at(s, i, j, w, 9);
                    lemma_char_at(s, i, j, w, 9 + dl);
                    assert(s[i] == ',');
                    lemma_skip_ws_still(s, i);
                    assert(s[i + 1] == '"');
                    lemma_skip_ws_still(s, i + 1);
                    assert(!text::starts_at(s, "\"comment\""@, i + 1)) by {
                        if text::starts_at(s, "\"comment\""@, i + 1) {
                            assert(s.subrange(i + 1, i + 1 + 9)[1] == 'c');
                            assert(s[i + 2] == 's');
                        }
                    }
                    lemma_seg(s, i, j, w, 1, 8);
                    assert(w.subrange(1, 8) =~= "\"stars\""@);
                    assert(text::starts_at(s, "\"stars\""@, i + 1));
                    assert(s[i + 8] == ':');
                    lemma_skip_ws_still(s, i + 8);
                    lemma_dec_digits_are_digits(n as nat);
                    assert(s[i + 9] == digits[0]);
                    lemma_skip_ws_still(s, i + 9);
                    reveal_strlit("null");
                    assert(!text::starts_at(s, "null"@, i + 9)) by {
                        if text::starts_at(s, "null"@, i + 9) {
                            assert(s.subrange(i + 9, i + 9 + 4)[0] == 'n');
                            assert(is_digit(s[i + 9]));
                        }
                    }
                    lemma_seg(s, i, j, w, 9, 9 + dl);
                    assert(w.subrange(9, 9 + dl) =~= digits);
                    assert(s[i + 9 + dl] == '}');
                    lemma_parse_dec(s, i + 9, n as nat, i + 9 + dl);
                    lemma_skip_ws_still(s, i + 9 + dl);
                    assert(j == i + 9 + dl + 1);
                },
            }
        },
        Option::Some(c) => {
            let e = esc_str(c);
            let el = e.len() as int;
            let t2 = tail2_json(rating);
            let w2 = ",\"comment\":\""@ + (e + ("\""@ + t2));
            assert(w =~= w2);
            assert(s.subrange(i, j) == w2);
            lemma_char_at(s, i, j, w2, 0);
            lemma_char_at(s, i, j, w2, 1);
            lemma_char_at(s, i, j, w2, 10);
            lemma_char_at(s, i, j, w2, 11);
            lemma_char_at(s, i, j, w2, 12 + el);
            assert(s[i] == ',');
            lemma_skip_ws_still(s, i);
            assert(s[i + 1] == '"');
            lemma_skip_ws_still(s, i + 1);
            lemma_seg(s, i, j, w2, 1, 10);
            assert(w2.subrange(1, 10) =~= "\"comment\""@);
            assert(text::starts_at(s, "\"comment\""@, i + 1));
            assert(s[i + 10] == ':');
            lemma_skip_ws_still(s, i + 10);
            assert(s[i + 11] == '"');
            lemma_skip_ws_still(s, i + 11);
            lemma_seg(s, i, j, w2, 12, 12 + el);
            assert(w2.subrange(12, 12 + el) =~= e);
            assert(s[i + 12 + el] == '"');
            lemma_parse_esc(s, i + 12, c, i + 12 + el);
            assert(parse_comment_val(s, i + 10) == Option::Some(
                (Option::Some(c), i + 12 + el + 1),
            ));
            let m = i + 12 + el + 1;
            lemma_seg(s, i, j, w2, 13 + el, w2.len() as int);
            assert(w2.subrange(13 + el, w2.len() as int) =~= t2);
            lemma_parse_tail2_json(s, m, rating, j);
        },
    }
}

#[verifier::rlimit(100)]
proof fn lemma_parse_rec_json(s: Seq<char>, i: int, r: RecView, j: int)
    requires
        0 <= i <= j <= s.len(),
        j == i + rec_json(r).len(),
        s.subrange(i, j) == rec_json(r),
    ensures
        parse_rec(s, i) == Option::Some((r, j)),
{
    reveal_strlit("{\"name\":\"");
    reveal_strlit("\"name\"");
    reveal_strlit("\"");
    let e = esc_str(r.name);
    let el = e.len() as int;
    let tl = tail_json(r.comment, r.rating);
    let w = "{\"name\":\""@ + (e + ("\""@ + tl));
    assert(rec_json(r) =~= w);
    assert(s.subrange(i, j) == w);
    lemma_char_at(s, i, j, w, 0);
    lemma_char_at(s, i, j, w, 1);
    lemma_char_at(s, i, j, w, 7);
    lemma_char_at(s, i, j, w, 8);
    lemma_char_at(s, i, j, w, 9 + el);
    assert(s[i] == '{');
    lemma_skip_ws_still(s, i);
    assert(s[i + 1] == '"');
    lemma_skip_ws_still(s, i + 1);
    lemma_seg(s, i, j, w, 1, 7);
    assert(w.subrange(1, 7) =~= "\"name\""@);
    assert(text::starts_at(s, "\"name\""@, i + 1));
    assert(s[i + 7] == ':');
    lemma_skip_ws_still(s, i + 7);
    assert(s[i + 8] == '"');
    lemma_skip_ws_still(s, i + 8);
    lemma_seg(s, i, j, w, 9, 9 + el);
    assert(w.subrange(9, 9 + el) =~= e);
    assert(s[i + 9 + el] == '"');
    lemma_parse_esc(s, i + 9, r.name, i + 9 + el);
    let m = i + 9 + el + 1;
    lemma_seg(s, i, j, w, 10 + el, w.len() as int);
    assert(w.subrange(10 + el, w.len() as int) =~= tl);
    lemma_parse_tail_json(s, m, r.comment, r.rating, j);
    assert(r =~= RecView { name: r.name, comment: r.comment, rating: r.rating });
}

proof fn lemma_recs_json_rest_len(rs: Seq<RecView>)
    ensures
        recs_json_rest(rs).len() >= rs.len(),
    decreases rs.len(),
{
    if rs.len() > 0 {
        lemma_recs_json_rest_len(rs.drop_first());
    }
}

#[verifier::rlimit(100)]
proof fn lemma_parse_recs_rest_json(s: Seq<char>, i: int, rs: Seq<RecView>, j: int, fuel: nat)
    requires
        0 <= i <= j <= s.len(),
        j == i + recs_json_rest(rs).len() + 1,
        s.subrange(i, j) == recs_json_rest(rs) + seq![']'],
        fuel >= rs.len(),
    ensures
        parse_recs_rest(s, i, fuel) == Option::Some((rs, j)),
    decreases rs.len(),
{
    let w0 = recs_json_rest(rs) + seq![']'];
    if rs.len() == 0 {
        assert(w0 =~= seq![']']);
        lemma_char_at(s, i, j, w0, 0);
        assert(s[i] == ']');
        lemma_skip_ws_still(s, i);
        assert(parse_recs_rest(s, i, fuel) == Option::Some((Seq::<RecView>::empty(), i + 1)));
        assert(Seq::<RecView>::empty() =~= rs);
    } else {
        let r0 = rs[0];
        let rest = rs.drop_first();
        let rj = rec_json(r0);
        let rl = rj.len() as int;
        let w = seq![','] + (rj + (recs_json_rest(rest) + seq![']']));
        assert(w0 =~= w);
        assert(s.subrange(i, j) == w);
        lemma_char_at(s, i, j, w, 0);
        assert(s[i] == ',');
        lemma_skip_ws_still(s, i);
        assert(s[i] != ']');
        lemma_seg(s, i, j, w, 1, 1 + rl);
        assert(w.subrange(1, 1 + rl) =~= rj);
        lemma_parse_rec_json(s, i + 1, r0, i + 1 + rl);
        let m = i + 1 + rl;
        lemma_seg(s, i, j, w, 1 + rl, w.len() as int);
        assert(w.subrange(1 + rl, w.len() as int) =~= recs_json_rest(rest) + seq![']']);
        lemma_parse_recs_rest_json(s, m, rest, j, (fuel - 1) as nat);
        assert(seq![r0] + rest =~= rs);
    }
}

#[verifier::rlimit(100)]
proof fn lemma_parse_recs_json(s: Seq<char>, i: int, rs: Seq<RecView>, j: int)
    requires
        0 <= i <= j <= s.len(),
        j == i + recs_json(rs).len() + 1,
        s.subrange(i, j) == recs_json(rs) + seq![']'],
    ensures
        parse_recs(s, i) == Option::Some((rs, j)),
{
    let w0 = recs_json(rs) + seq![']'];
    if rs.len() == 0 {
        assert(w0 =~= seq![']']);
        lemma_char_at(s, i, j, w0, 0);
        assert(s[i] == ']');
        lemma_skip_ws_still(s, i);
        assert(Seq::<RecView>::empty() =~= rs);
    } else {
        reveal_strlit("{\"name\":\"");
        let r0 = rs[0];
        let rest = rs.drop_first();
        let rj = rec_json(r0);
        let rl = rj.len() as int;
        let w = rj + (recs_json_rest(rest) + seq![']']);
        assert(w0 =~= w);
        assert(s.subrange(i, j) == w);
        assert(rj =~= "{\"name\":\""@ + (esc_str(r0.name) + ("\""@ + tail_json(
            r0.comment,
            r0.rating,
        ))));
        lemma_char_at(s, i, j, w, 0);
        assert(w[0] == rj[0]);
        assert(s[i] == '{');
        lemma_skip_ws_still(s, i);
        assert(s[i] != ']');
        lemma_seg(s, i, j, w, 0, rl);
        assert(w.subrange(0, rl) =~= rj);
        lemma_parse_rec_json(s, i, r0, i + rl);
        let m = i + rl;
        lemma_seg(s, i, j, w, rl, w.len() as int);
        assert(w.subrange(rl, w.len() as int) =~= recs_json_rest(rest) + seq![']']);
        lemma_recs_json_rest_len(rest);
        assert(s.len() >= rest.len());
        lemma_parse_recs_rest_json(s, m, rest, j, s.len() as nat);
        assert(seq![r0] + rest =~= rs);
    }
}

/// Saving a snapshot and parsing the saved text yields exactly the same
/// record sequence, whatever the records hold.
#[verifier::spinoff_prover]
#[verifier::rlimit(100)]
pub proof fn lemma_snapshot_round_trip(rs: Seq<RecView>)
    ensures
        parse_snapshot_spec(snapshot_json(rs)) == Option::Some(rs),
{
    reveal_strlit("{\"records\":[");
    reveal_strlit("\"records\"");
    reveal_strlit("]}");
    let s = snapshot_json(rs);
    let body = recs_json(rs);
    let bl = body.len() as int;
    let w = "{\"records\":["@ + ((body + seq![']']) + seq!['}']);
    assert(s =~= w);
    let sl = s.len() as int;
    assert(s.subrange(0, sl) =~= w);
    lemma_char_at(s, 0, sl, w, 0);
    lemma_char_at(s, 0, sl, w, 1);
    lemma_char_at(s, 0, sl, w, 10);
    lemma_char_at(s, 0, sl, w, 11);
    lemma_char_at(s, 0, sl, w, 13 + bl);
    assert(s[0] == '{');
    lemma_skip_ws_still(s, 0);
    assert(s[1] == '"');
    lemma_skip_ws_still(s, 1);
    lemma_seg(s, 0, sl, w, 1, 10);
    assert(w.subrange(1, 10) =~= "\"records\""@);
    assert(text::starts_at(s, "\"records\""@, 1));
    assert(s[10] == ':');
    lemma_skip_ws_still(s, 10);
    assert(s[11] == '[');
    lemma_skip_ws_still(s, 11);
    lemma_seg(s, 0, sl, w, 12, 13 + bl);
    assert(w.subrange(12, 13 + bl) =~= body + seq![']']);
    lemma_parse_recs_json(s, 12, rs, 13 + bl);
    let m = 13 + bl;
    assert(s[m] == '}');
    lemma_skip_ws_still(s, m);
    assert(m + 1 == s.len());
    lemma_skip_ws_still(s, m + 1);
    assert(parse_list_value(s, 10, false) == Option::Some(rs));
}

/// Saving a well-formed snapshot and loading it back yields the very same
/// set, member for member.
pub proof fn lemma_round_trip_loaded(rs: Seq<RecView>)
    requires
        crate::diff::distinct(rs),
    ensures
        extract::fold_records(
            Seq::<RecView>::empty(),
            parse_snapshot_spec(snapshot_json(rs))->Some_0,
        ) == rs,
{
    lemma_snapshot_round_trip(rs);
    assert(Seq::<RecView>::empty() + rs =~= rs);
    extract::lemma_fold_records_distinct(Seq::<RecView>::empty(), rs);
}

/// The tail of the canonical legacy document: bare names, each preceded by
/// a comma.
pub open spec fn names_json_rest(ns: Seq<Seq<char>>) -> Seq<char>
    decreases ns.len(),
{
    if ns.len() == 0 {
        Seq::<char>::empty()
    } else {
        seq![','] + (seq!['"'] + esc_str(ns[0]) + seq!['"']) + names_json_rest(ns.drop_first())
    }
}

/// The names of a legacy list, without the brackets.
pub open spec fn names_json(ns: Seq<Seq<char>>) -> Seq<char> {
    if ns.len() == 0 {
        Seq::<char>::empty()
    } else {
        seq!['"'] + esc_str(ns[0]) + seq!['"'] + names_json_rest(ns.drop_first())
    }
}

/// A whole legacy document.
pub open spec fn legacy_json(ns: Seq<Seq<char>>) -> Seq<char> {
    "{\"djs\":["@ + names_json(ns) + "]}"@
}

proof fn lemma_parse_name_json(s: Seq<char>, i: int, nm: Seq<char>, j: int)
    requires
        0 <= i <= j <= s.len(),
        j == i + esc_str(nm).len() + 2,
        s.subrange(i, j) == seq!['"'] + esc_str(nm) + seq!['"'],
    ensures
        parse_name(s, i) == Option::Some((nm, j)),
{
    let e = esc_str(nm);
    let el = e.len() as int;
    let w = seq!['"'] + (e + seq!['"']);
    assert(seq!['"'] + e + seq!['"'] =~= w);
    assert(s.subrange(i, j) == w);
    lemma_char_at(s, i, j, w, 0);
    lemma_char_at(s, i, j, w, 1 + el);
    assert(s[i] == '"');
    lemma_skip_ws_still(s, i);
    lemma_seg(s, i, j, w, 1, 1 + el);
    assert(w.subrange(1, 1 + el) =~= e);
    assert(s[i + 1 + el] == '"');
    lemma_parse_esc(s, i + 1, nm, i + 1 + el);
}

proof fn lemma_names_json_rest_len(ns: Seq<Seq<char>>)
    ensures
        names_json_rest(ns).len() >= ns.len(),
    decreases ns.len(),
{
    if ns.len() > 0 {
        lemma_names_json_rest_len(ns.drop_first());
    }
}

#[verifier::rlimit(100)]
proof fn lemma_parse_names_rest_json(s: Seq<char>, i: int, ns: Seq<Seq<char>>, j: int, fuel: nat)
    requires
        0 <= i <= j <= s.len(),
        j == i + names_json_rest(ns).len() + 1,
        s.subrange(i, j) == names_json_rest(ns) + seq![']'],
        fuel >= ns.len(),
    ensures
        parse_names_rest(s, i, fuel) == Option::Some((ns, j)),
    decreases ns.len(),
{
    let w0 = names_json_rest(ns) + seq![']'];
    if ns.len() == 0 {
        assert(w0 =~= seq![']']);
        lemma_char_at(s, i, j, w0, 0);
        assert(s[i] == ']');
        lemma_skip_ws_still(s, i);
        assert(Seq::<Seq<char>>::empty() =~= ns);
    } else {
        let n0 = ns[0];
        let rest = ns.drop_first();
        let e = esc_str(n0);
        let el = e.len() as int;
        let w = seq![','] + ((seq!['"'] + (e + seq!['"'])) + (names_json_rest(rest) + seq![']']));
        assert(w0 =~= w);
        assert(s.subrange(i, j) == w);
        lemma_char_at(s, i, j, w, 0);
        assert(s[i] == ',');
        lemma_skip_ws_still(s, i);
        assert(s[i] != ']');
        lemma_seg(s, i, j, w, 1, 3 + el);
        assert(w.subrange(1, 3 + el) =~= seq!['"'] + esc_str(n0) + seq!['"']);
        lemma_parse_name_json(s, i + 1, n0, i + 3 + el);
        let m = i + 3 + el;
        lemma_seg(s, i, j, w, 3 + el, w.len() as int);
        assert(w.subrange(3 + el, w.len() as int) =~= names_json_rest(rest) + seq![']']);
        lemma_parse_names_rest_json(s, m, rest, j, (fuel - 1) as nat);
        assert(seq![n0] + rest =~= ns);
    }
}

#[verifier::rlimit(100)]
proof fn lemma_parse_names_json(s: Seq<char>, i: int, ns: Seq<Seq<char>>, j: int)
    requires
        0 <= i <= j <= s.len(),
        j == i + names_json(ns).len() + 1,
        s.subrange(i, j) == names_json(ns) + seq![']'],
    ensures
        parse_names(s, i) == Option::Some((ns, j)),
{
    let w0 = names_json(ns) + seq![']'];
    if ns.len() == 0 {
        assert(w0 =~= seq![']']);
        lemma_char_at(s, i, j, w0, 0);
        assert(s[i] == ']');
        lemma_skip_ws_still(s, i);
        assert(Seq::<Seq<char>>::empty() =~= ns);
    } else {
        let n0 = ns[0];
        let rest = ns.drop_first();
        let e = esc_str(n0);
        let el = e.len() as int;
        let w = (seq!['"'] + (e + seq!['"'])) + (names_json_rest(rest) + seq![']']);
        assert(w0 =~= w);
        assert(s.subrange(i, j) == w);
        lemma_char_at(s, i, j, w, 0);
        assert(s[i] == '"');
        lemma_skip_ws_still(s, i);
        assert(s[i] != ']');
        lemma_seg(s, i, j, w, 0, 2 + el);
        assert(w.subrange(0, 2 + el) =~= seq!['"'] + esc_str(n0) + seq!['"']);
        lemma_parse_name_json(s, i, n0, i + 2 + el);
        let m = i + 2 + el;
        lemma_seg(s, i, j, w, 2 + el, w.len() as int);
        assert(w.subrange(2 + el, w.len() as int) =~= names_json_rest(rest) + seq![']']);
        lemma_names_json_rest_len(rest);
        assert(s.len() >= rest.len());
        lemma_parse_names_rest_json(s, m, rest, j, s.len() as nat);
        assert(seq![n0] + rest =~= ns);
    }
}

/// A stored legacy document of bare names loads as records with absent
/// comment and rating, every name kept in order.
#[verifier::spinoff_prover]
#[verifier::rlimit(100)]
pub proof fn lemma_legacy_round_trip(ns: Seq<Seq<char>>)
    ensures
        parse_snapshot_spec(legacy_json(ns)) == Option::Some(names_to_recs(ns)),
{
    reveal_strlit("{\"djs\":[");
    reveal_strlit("\"djs\"");
    reveal_strlit("\"records\"");
    reveal_strlit("]}");
    let s = legacy_json(ns);
    let body = names_json(ns);
    let bl = body.len() as int;
    let w = "{\"djs\":["@ + ((body + seq![']']) + seq!['}']);
    assert(s =~= w);
    let sl = s.len() as int;
    assert(s.subrange(0, sl) =~= w);
    lemma_char_at(s, 0, sl, w, 0);
    lemma_char_at(s, 0, sl, w, 1);
    lemma_char_at(s, 0, sl, w, 2);
    lemma_char_at(s, 0, sl, w, 6);
    lemma_char_at(s, 0, sl, w, 7);
    lemma_char_at(s, 0, sl, w, 9 + bl);
    assert(s[0] == '{');
    lemma_skip_ws_still(s, 0);
    assert(s[1] == '"');
    lemma_skip_ws_still(s, 1);
    assert(!text::starts_at(s, "\"records\""@, 1)) by {
        if text::starts_at(s, "\"records\""@, 1) {
            assert(s.subrange(1, 10)[1] == 'r');
            assert(s[2] == 'd');
        }
    }
    lemma_seg(s, 0, sl, w, 1, 6);
    assert(w.subrange(1, 6) =~= "\"djs\""@);
    assert(text::starts_at(s, "\"djs\""@, 1));
    assert(s[6] == ':');
    lemma_skip_ws_still(s, 6);
    assert(s[7] == '[');
    lemma_skip_ws_still(s, 7);
    lemma_seg(s, 0, sl, w, 8, 9 + bl);
    assert(w.subrange(8, 9 + bl) =~= body + seq![']']);
    lemma_parse_names_json(s, 8, ns, 9 + bl);
    let m = 9 + bl;
    assert(s[m] == '}');
    lemma_skip_ws_still(s, m);
    assert(m + 1 == s.len());
    lemma_skip_ws_still(s, m + 1);
    assert(parse_list_value(s, 6, true) == Option::Some(names_to_recs(ns)));
}

} // verus!
