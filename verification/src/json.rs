//! The store's file format: a JSON object with one `projector` field
//! holding an object of path objects of string pairs.
//!
//! The renderer produces the pretty-printed document (two-space indent);
//! the parser accepts any whitespace between tokens and the usual string
//! escapes, and rejects everything outside the expected shape — the
//! caller treats a rejected document as an empty store.

use crate::kvmap::KvMap;
use crate::kvmap::lemma_map_of_pairs_cons_fold;
use crate::kvmap::map_of_pairs;
use crate::store::StoreData;
use vstd::prelude::*;

verus! {

// ---------------------------------------------------------------- text

/// JSON inter-token whitespace.
pub open spec fn is_ws(c: char) -> bool {
    c == ' ' || c == '\n' || c == '\t' || c == '\r'
}

/// `n` space characters.
pub open spec fn spaces(n: nat) -> Seq<char>
    decreases n,
{
    if n == 0 {
        Seq::empty()
    } else {
        spaces((n - 1) as nat).push(' ')
    }
}

pub proof fn lemma_spaces_ws(n: nat)
    ensures
        spaces(n).len() == n,
        forall|k: int| 0 <= k < n ==> is_ws(#[trigger] spaces(n)[k]),
    decreases n,
{
    if n > 0 {
        lemma_spaces_ws((n - 1) as nat);
    }
}

// ------------------------------------------------------------ renderer

/// How one character appears inside a JSON string literal.
pub open spec fn escape_char(c: char) -> Seq<char> {
    if c == '"' {
        seq!['\\', '"']
    } else if c == '\\' {
        seq!['\\', '\\']
    } else if c == '\n' {
        seq!['\\', 'n']
    } else if c == '\t' {
        seq!['\\', 't']
    } else if c == '\r' {
        seq!['\\', 'r']
    } else if c == '\u{8}' {
        seq!['\\', 'b']
    } else if c == '\u{c}' {
        seq!['\\', 'f']
    } else if (c as u32) < 32 {
        seq![
            '\\',
            'u',
            '0',
            '0',
            hex_digit_char(((c as u32) / 16) as nat),
            hex_digit_char(((c as u32) % 16) as nat),
        ]
    } else {
        seq![c]
    }
}

/// The body of a JSON string literal for the text `t`.
pub open spec fn escape_string(t: Seq<char>) -> Seq<char>
    decreases t.len(),
{
    if t.len() == 0 {
        Seq::empty()
    } else {
        escape_char(t[0]) + escape_string(t.drop_first())
    }
}

/// The full string literal for the text `t`.
pub open spec fn quoted(t: Seq<char>) -> Seq<char> {
    seq!['"'] + escape_string(t) + seq!['"']
}

/// The member lines of a key-value object, each at indent `ind`.
pub open spec fn render_kv_members(ms: Seq<(Seq<char>, Seq<char>)>, ind: nat) -> Seq<char>
    decreases ms.len(),
{
    if ms.len() == 0 {
        Seq::empty()
    } else {
        let line = seq!['\n'] + spaces(ind) + quoted(ms[0].0) + seq![':', ' '] + quoted(ms[0].1);
        if ms.len() == 1 {
            line
        } else {
            line + seq![','] + render_kv_members(ms.drop_first(), ind)
        }
    }
}

/// A key-value object whose closing brace sits at indent `ind`.
pub open spec fn render_strmap(ms: Seq<(Seq<char>, Seq<char>)>, ind: nat) -> Seq<char> {
    if ms.len() == 0 {
        seq!['{', '}']
    } else {
        seq!['{'] + render_kv_members(ms, ind + 2) + seq!['\n'] + spaces(ind) + seq!['}']
    }
}

/// The member lines of the path object, each at indent `ind`.
pub open spec fn render_path_members(
    es: Seq<(Seq<char>, Seq<(Seq<char>, Seq<char>)>)>,
    ind: nat,
) -> Seq<char>
    decreases es.len(),
{
    if es.len() == 0 {
        Seq::empty()
    } else {
        let line = seq!['\n'] + spaces(ind) + quoted(es[0].0) + seq![':', ' '] + render_strmap(
            es[0].1,
            ind,
        );
        if es.len() == 1 {
            line
        } else {
            line + seq![','] + render_path_members(es.drop_first(), ind)
        }
    }
}

/// The path object whose closing brace sits at indent `ind`.
pub open spec fn render_pathmap(
    es: Seq<(Seq<char>, Seq<(Seq<char>, Seq<char>)>)>,
    ind: nat,
) -> Seq<char> {
    if es.len() == 0 {
        seq!['{', '}']
    } else {
        seq!['{'] + render_path_members(es, ind + 2) + seq!['\n'] + spaces(ind) + seq!['}']
    }
}

/// The whole pretty-printed store document.
pub open spec fn render_store_text(es: Seq<(Seq<char>, Seq<(Seq<char>, Seq<char>)>)>) -> Seq<
    char,
> {
    seq!['{', '\n', ' ', ' '] + quoted("projector"@) + seq![':', ' '] + render_pathmap(es, 2)
        + seq!['\n', '}']
}

// -------------------------------------------------------------- parser

/// The first position at or after `i` holding no whitespace.
pub open spec fn skip_ws(s: Seq<char>, i: int) -> int
    decreases s.len() - i,
{
    if 0 <= i < s.len() && is_ws(s[i]) {
        skip_ws(s, i + 1)
    } else {
        i
    }
}

pub proof fn lemma_skip_ws_bounds(s: Seq<char>, i: int)
    requires
        0 <= i <= s.len(),
    ensures
        i <= skip_ws(s, i) <= s.len(),
        skip_ws(s, i) < s.len() ==> !is_ws(s[skip_ws(s, i)]),
    decreases s.len() - i,
{
    if i < s.len() && is_ws(s[i]) {
        lemma_skip_ws_bounds(s, i + 1);
    }
}

/// Skipping runs to the end of a whitespace region.
pub proof fn lemma_skip_ws_over(s: Seq<char>, i: int, j: int)
    requires
        0 <= i <= j <= s.len(),
        forall|k: int| i <= k < j ==> is_ws(#[trigger] s[k]),
    ensures
        skip_ws(s, i) == skip_ws(s, j),
    decreases j - i,
{
    if i < j {
        lemma_skip_ws_over(s, i + 1, j);
    }
}

/// The value of one hexadecimal digit, or `-1`.
pub open spec fn hex_val(c: char) -> int {
    let u = c as u32;
    if 48 <= u <= 57 {
        u - 48
    } else if 97 <= u <= 102 {
        u - 87
    } else if 65 <= u <= 70 {
        u - 55
    } else {
        -1
    }
}

/// `c` is the character with code `v`.
pub open spec fn has_code(c: char, v: int) -> bool {
    c as u32 == v
}

/// The character with code `v` (meaningful for valid scalar values).
pub open spec fn char_of(v: int) -> char {
    choose|c: char| has_code(c, v)
}

pub proof fn lemma_char_of(c: char)
    ensures
        char_of(c as u32 as int) == c,
{
    let v = c as u32 as int;
    assert(has_code(c, v));
    assert(exists|x: char| has_code(x, v));
    let cc = char_of(v);
    assert(has_code(cc, v));
    assert(cc as u32 == c as u32);
}

/// The lowercase digit character for a hexadecimal value.
pub open spec fn hex_digit_char(d: nat) -> char {
    if d < 10 {
        ((48 + d) as u8) as char
    } else {
        ((87 + d) as u8) as char
    }
}

pub proof fn lemma_hex_digit_char_val(d: nat)
    requires
        d < 16,
    ensures
        hex_val(hex_digit_char(d)) == d,
{
}

/// What a single-character escape stands for.
pub open spec fn unescape_char(e: char) -> Option<char> {
    if e == '"' {
        Some('"')
    } else if e == '\\' {
        Some('\\')
    } else if e == '/' {
        Some('/')
    } else if e == 'n' {
        Some('\n')
    } else if e == 't' {
        Some('\t')
    } else if e == 'r' {
        Some('\r')
    } else if e == 'b' {
        Some('\u{8}')
    } else if e == 'f' {
        Some('\u{c}')
    } else {
        None
    }
}

/// Parses a string literal body starting just after the opening quote;
/// yields the text and the position just after the closing quote.
pub open spec fn parse_str_body(s: Seq<char>, i: int) -> Option<(Seq<char>, int)>
    decreases s.len() - i,
{
    if i < 0 || i >= s.len() {
        None
    } else if s[i] == '"' {
        Some((Seq::empty(), i + 1))
    } else if s[i] == '\\' {
        if i + 1 >= s.len() {
            None
        } else if s[i + 1] == 'u' {
            if i + 5 >= s.len() {
                None
            } else {
                let v = 4096 * hex_val(s[i + 2]) + 256 * hex_val(s[i + 3]) + 16 * hex_val(
                    s[i + 4],
                ) + hex_val(s[i + 5]);
                if hex_val(s[i + 2]) < 0 || hex_val(s[i + 3]) < 0 || hex_val(s[i + 4]) < 0
                    || hex_val(s[i + 5]) < 0 {
                    None
                } else if 0xD800 <= v < 0xDC00 {
                    // a high surrogate: a low-surrogate escape must follow
                    if i + 11 >= s.len() || s[i + 6] != '\\' || s[i + 7] != 'u' {
                        None
                    } else {
                        let w = 4096 * hex_val(s[i + 8]) + 256 * hex_val(s[i + 9]) + 16 * hex_val(
                            s[i + 10],
                        ) + hex_val(s[i + 11]);
                        if hex_val(s[i + 8]) < 0 || hex_val(s[i + 9]) < 0 || hex_val(s[i + 10]) < 0
                            || hex_val(s[i + 11]) < 0 || w < 0xDC00 || w >= 0xE000 {
                            None
                        } else {
                            match parse_str_body(s, i + 12) {
                                None => None,
                                Some((rest, j)) => Some(
                                    (
                                        seq![
                                            char_of(
                                                0x10000 + (v - 0xD800) * 0x400 + (w - 0xDC00),
                                            )
                                        ] + rest,
                                        j,
                                    ),
                                ),
                            }
                        }
                    }
                } else if 0xDC00 <= v < 0xE000 {
                    // a lone low surrogate is no scalar value
                    None
                } else {
                    match parse_str_body(s, i + 6) {
                        None => None,
                        Some((rest, j)) => Some((seq![char_of(v)] + rest, j)),
                    }
                }
            }
        } else {
            match unescape_char(s[i + 1]) {
                None => None,
                Some(c) => match parse_str_body(s, i + 2) {
                    None => None,
                    Some((rest, j)) => Some((seq![c] + rest, j)),
                },
            }
        }
    } else {
        match parse_str_body(s, i + 1) {
            None => None,
            Some((rest, j)) => Some((seq![s[i]] + rest, j)),
        }
    }
}

/// Parses a string literal starting at its opening quote.
pub open spec fn parse_string(s: Seq<char>, i: int) -> Option<(Seq<char>, int)> {
    if 0 <= i < s.len() && s[i] == '"' {
        parse_str_body(s, i + 1)
    } else {
        None
    }
}

pub proof fn lemma_parse_str_body_advances(s: Seq<char>, i: int)
    ensures
        parse_str_body(s, i) is Some ==> i < (parse_str_body(s, i)->0).1 <= s.len(),
    decreases s.len() - i,
{
    if 0 <= i < s.len() {
        lemma_parse_str_body_advances(s, i + 1);
        if i + 2 <= s.len() {
            lemma_parse_str_body_advances(s, i + 2);
        }
        if i + 6 <= s.len() {
            lemma_parse_str_body_advances(s, i + 6);
        }
        if i + 12 <= s.len() {
            lemma_parse_str_body_advances(s, i + 12);
        }
    }
}

pub proof fn lemma_parse_string_advances(s: Seq<char>, i: int)
    ensures
        parse_string(s, i) is Some ==> i < (parse_string(s, i)->0).1 <= s.len(),
{
    lemma_parse_str_body_advances(s, i + 1);
}

/// Parses the members of a non-empty key-value object, starting just
/// after the opening brace; consumes the closing brace.
pub open spec fn parse_kv_members(s: Seq<char>, i: int) -> Option<
    (Seq<(Seq<char>, Seq<char>)>, int),
>
    decreases s.len() - i,
        when 0 <= i
        via parse_kv_members_dec
{
    let j = skip_ws(s, i);
    match parse_string(s, j) {
        None => None,
        Some((k, j1)) => {
            let j2 = skip_ws(s, j1);
            if j2 >= s.len() || s[j2] != ':' {
                None
            } else {
                let j3 = skip_ws(s, j2 + 1);
                match parse_string(s, j3) {
                    None => None,
                    Some((v, j4)) => {
                        let j5 = skip_ws(s, j4);
                        if j5 >= s.len() {
                            None
                        } else if s[j5] == ',' {
                            match parse_kv_members(s, j5 + 1) {
                                None => None,
                                Some((rest, j6)) => Some((seq![(k, v)] + rest, j6)),
                            }
                        } else if s[j5] == '}' {
                            Some((seq![(k, v)], j5 + 1))
                        } else {
                            None
                        }
                    },
                }
            }
        },
    }
}

#[via_fn]
proof fn parse_kv_members_dec(s: Seq<char>, i: int) {
    if 0 <= i <= s.len() {
        lemma_skip_ws_bounds(s, i);
        let j = skip_ws(s, i);
        lemma_parse_string_advances(s, j);
        if parse_string(s, j) is Some {
            let j1 = (parse_string(s, j)->0).1;
            lemma_skip_ws_bounds(s, j1);
            let j2 = skip_ws(s, j1);
            if j2 < s.len() {
                lemma_skip_ws_bounds(s, j2 + 1);
                let j3 = skip_ws(s, j2 + 1);
                lemma_parse_string_advances(s, j3);
                if parse_string(s, j3) is Some {
                    let j4 = (parse_string(s, j3)->0).1;
                    lemma_skip_ws_bounds(s, j4);
                }
            }
        }
    }
}

pub proof fn lemma_parse_kv_members_advances(s: Seq<char>, i: int)
    requires
        0 <= i,
    ensures
        parse_kv_members(s, i) is Some ==> i < (parse_kv_members(s, i)->0).1 <= s.len(),
    decreases s.len() - i,
{
    if i <= s.len() {
        lemma_skip_ws_bounds(s, i);
        let j = skip_ws(s, i);
        lemma_parse_string_advances(s, j);
        if parse_string(s, j) is Some {
            let j1 = (parse_string(s, j)->0).1;
            lemma_skip_ws_bounds(s, j1);
            let j2 = skip_ws(s, j1);
            if j2 < s.len() {
                lemma_skip_ws_bounds(s, j2 + 1);
                let j3 = skip_ws(s, j2 + 1);
                lemma_parse_string_advances(s, j3);
                if parse_string(s, j3) is Some {
                    let j4 = (parse_string(s, j3)->0).1;
                    lemma_skip_ws_bounds(s, j4);
                    let j5 = skip_ws(s, j4);
                    if j5 < s.len() && s[j5] == ',' {
                        lemma_parse_kv_members_advances(s, j5 + 1);
                    }
                }
            }
        }
    }
}

/// Parses a key-value object starting at its opening brace.
pub open spec fn parse_strmap(s: Seq<char>, i: int) -> Option<(Seq<(Seq<char>, Seq<char>)>, int)> {
    if 0 <= i < s.len() && s[i] == '{' {
        let j = skip_ws(s, i + 1);
        if j < s.len() && s[j] == '}' {
            Some((Seq::empty(), j + 1))
        } else {
            parse_kv_members(s, i + 1)
        }
    } else {
        None
    }
}

pub proof fn lemma_parse_strmap_advances(s: Seq<char>, i: int)
    ensures
        parse_strmap(s, i) is Some ==> i < (parse_strmap(s, i)->0).1 <= s.len(),
{
    if 0 <= i < s.len() && s[i] == '{' {
        lemma_skip_ws_bounds(s, i + 1);
        lemma_parse_kv_members_advances(s, i + 1);
    }
}

/// Parses the members of a non-empty path object, starting just after
/// the opening brace; consumes the closing brace.
pub open spec fn parse_path_members(s: Seq<char>, i: int) -> Option<
    (Seq<(Seq<char>, Seq<(Seq<char>, Seq<char>)>)>, int),
>
    decreases s.len() - i,
        when 0 <= i
        via parse_path_members_dec
{
    let j = skip_ws(s, i);
    match parse_string(s, j) {
        None => None,
        Some((k, j1)) => {
            let j2 = skip_ws(s, j1);
            if j2 >= s.len() || s[j2] != ':' {
                None
            } else {
                let j3 = skip_ws(s, j2 + 1);
                match parse_strmap(s, j3) {
                    None => None,
                    Some((m, j4)) => {
                        let j5 = skip_ws(s, j4);
                        if j5 >= s.len() {
                            None
                        } else if s[j5] == ',' {
                            match parse_path_members(s, j5 + 1) {
                                None => None,
                                Some((rest, j6)) => Some((seq![(k, m)] + rest, j6)),
                            }
                        } else if s[j5] == '}' {
                            Some((seq![(k, m)], j5 + 1))
                        } else {
                            None
                        }
                    },
                }
            }
        },
    }
}

#[via_fn]
proof fn parse_path_members_dec(s: Seq<char>, i: int) {
    if 0 <= i <= s.len() {
        lemma_skip_ws_bounds(s, i);
        let j = skip_ws(s, i);
        lemma_parse_string_advances(s, j);
        if parse_string(s, j) is Some {
            let j1 = (parse_string(s, j)->0).1;
            lemma_skip_ws_bounds(s, j1);
            let j2 = skip_ws(s, j1);
            if j2 < s.len() {
                lemma_skip_ws_bounds(s, j2 + 1);
                let j3 = skip_ws(s, j2 + 1);
                lemma_parse_strmap_advances(s, j3);
                if parse_strmap(s, j3) is Some {
                    let j4 = (parse_strmap(s, j3)->0).1;
                    lemma_skip_ws_bounds(s, j4);
                }
            }
        }
    }
}

/// Parses the path object starting at its opening brace.
pub open spec fn parse_pathmap(s: Seq<char>, i: int) -> Option<
    (Seq<(Seq<char>, Seq<(Seq<char>, Seq<char>)>)>, int),
> {
    if 0 <= i < s.len() && s[i] == '{' {
        let j = skip_ws(s, i + 1);
        if j < s.len() && s[j] == '}' {
            Some((Seq::empty(), j + 1))
        } else {
            parse_path_members(s, i + 1)
        }
    } else {
        None
    }
}

/// Parses a whole store document; `None` on any shape violation.
pub open spec fn parse_store_text(s: Seq<char>) -> Option<
    Seq<(Seq<char>, Seq<(Seq<char>, Seq<char>)>)>,
> {
    let i = skip_ws(s, 0);
    if i < s.len() && s[i] == '{' {
        match parse_string(s, skip_ws(s, i + 1)) {
            None => None,
            Some((key, j1)) => {
                if key != "projector"@ {
                    None
                } else {
                    let j2 = skip_ws(s, j1);
                    if j2 >= s.len() || s[j2] != ':' {
                        None
                    } else {
                        match parse_pathmap(s, skip_ws(s, j2 + 1)) {
                            None => None,
                            Some((es, j3)) => {
                                let j4 = skip_ws(s, j3);
                                if j4 < s.len() && s[j4] == '}' && skip_ws(s, j4 + 1) == s.len() {
                                    Some(es)
                                } else {
                                    None
                                }
                            },
                        }
                    }
                }
            },
        }
    } else {
        None
    }
}

// ---------------------------------------------- renderer/parser inversion

/// Parsing an escaped text followed by the closing quote gives the text
/// back.
pub proof fn lemma_parse_escaped(s: Seq<char>, i: int, t: Seq<char>)
    requires
        0 <= i,
        i + escape_string(t).len() + 1 <= s.len(),
        s.subrange(i, i + escape_string(t).len()) == escape_string(t),
        s[i + escape_string(t).len()] == '"',
    ensures
        parse_str_body(s, i) == Some((t, i + escape_string(t).len() + 1)),
    decreases t.len(),
{
    let e = escape_string(t);
    assert forall|k: int| 0 <= k < e.len() implies s[i + k] == e[k] by {
        assert(s.subrange(i, i + e.len())[k] == s[i + k]);
    }
    if t.len() == 0 {
    } else {
        let c = t[0];
        let ec = escape_char(c);
        let rest = t.drop_first();
        let er = escape_string(rest);
        assert(e == ec + er);
        assert(forall|k: int| 0 <= k < ec.len() ==> e[k] == ec[k]);
        assert(forall|k: int| 0 <= k < er.len() ==> e[ec.len() + k] == er[k]);
        let i2 = i + ec.len();
        assert forall|k: int| 0 <= k < er.len() implies s.subrange(i2, i2 + er.len())[k]
            == er[k] by {
            assert(s.subrange(i2, i2 + er.len())[k] == s[i2 + k]);
        }
        assert(s.subrange(i2, i2 + er.len()) =~= er);
        lemma_parse_escaped(s, i2, rest);
        assert(seq![c] + rest =~= t);
        if c == '"' || c == '\\' || c == '\n' || c == '\t' || c == '\r' || c == '\u{8}' || c
            == '\u{c}' {
            assert(s[i] == '\\');
            assert(s[i + 1] == ec[1]);
            assert(ec[1] != 'u');
            assert(unescape_char(ec[1]) == Some(c));
        } else if (c as u32) < 32 {
            let code = c as u32 as int;
            let hi = (code / 16) as nat;
            let lo = (code % 16) as nat;
            assert(s[i] == '\\');
            assert(s[i + 1] == 'u');
            assert(s[i + 2] == '0');
            assert(s[i + 3] == '0');
            assert(s[i + 4] == hex_digit_char(hi));
            assert(s[i + 5] == hex_digit_char(lo));
            lemma_hex_digit_char_val(hi);
            lemma_hex_digit_char_val(lo);
            assert(hex_val('0') == 0);
            assert(4096 * hex_val(s[i + 2]) + 256 * hex_val(s[i + 3]) + 16 * hex_val(s[i + 4])
                + hex_val(s[i + 5]) == code);
            lemma_char_of(c);
            assert(char_of(code) == c);
        } else {
            assert(s[i] == c);
        }
    }
}

/// Parsing a rendered string literal gives the text back.
pub proof fn lemma_parse_quoted(s: Seq<char>, i: int, t: Seq<char>)
    requires
        0 <= i,
        i + quoted(t).len() <= s.len(),
        s.subrange(i, i + quoted(t).len()) == quoted(t),
    ensures
        parse_string(s, i) == Some((t, i + quoted(t).len())),
{
    let q = quoted(t);
    let e = escape_string(t);
    assert(q[0] == '"');
    assert(s.subrange(i, i + q.len())[0] == s[i]);
    assert(s[i] == '"');
    assert forall|k: int| 0 <= k < e.len() implies s.subrange(i + 1, i + 1 + e.len())[k]
        == e[k] by {
        assert(s.subrange(i + 1, i + 1 + e.len())[k] == s[i + 1 + k]);
        assert(s.subrange(i, i + q.len())[1 + k] == s[i + 1 + k]);
        assert(q[1 + k] == e[k]);
    }
    assert(s.subrange(i + 1, i + 1 + e.len()) =~= e);
    assert(q[1 + e.len() as int] == '"');
    assert(s.subrange(i, i + q.len())[1 + e.len() as int] == s[i + 1 + e.len()]);
    assert(s[i + 1 + e.len()] == '"');
    lemma_parse_escaped(s, i + 1, t);
}

/// Parsing rendered members, followed by the line break, closing indent
/// and closing brace, gives the members back and stops after the brace.
#[verifier::rlimit(60)]
pub proof fn lemma_parse_kv_members_inv(
    s: Seq<char>,
    i: int,
    ms: Seq<(Seq<char>, Seq<char>)>,
    ind: nat,
    cind: nat,
)
    requires
        ms.len() >= 1,
        0 <= i,
        i + render_kv_members(ms, ind).len() + 2 + cind <= s.len(),
        s.subrange(i, i + render_kv_members(ms, ind).len() + 2 + cind) == render_kv_members(
            ms,
            ind,
        ) + seq!['\n'] + spaces(cind) + seq!['}'],
    ensures
        parse_kv_members(s, i) == Some((ms, i + render_kv_members(ms, ind).len() + 2 + cind)),
    decreases ms.len(),
{
    lemma_spaces_ws(ind);
    lemma_spaces_ws(cind);
    let rkm = render_kv_members(ms, ind);
    let text = rkm + seq!['\n'] + spaces(cind) + seq!['}'];
    let k = ms[0].0;
    let v = ms[0].1;
    let line = seq!['\n'] + spaces(ind) + quoted(k) + seq![':', ' '] + quoted(v);
    assert(forall|m: int| 0 <= m < rkm.len() ==> #[trigger] text[m] == rkm[m]);
    assert(forall|m: int| 0 <= m < line.len() ==> #[trigger] rkm[m] == line[m]);
    assert forall|m: int| 0 <= m < text.len() implies s[i + m] == text[m] by {
        assert(s.subrange(i, i + text.len())[m] == s[i + m]);
    }
    // leading whitespace run, then the key's opening quote
    assert(s.subrange(i, i + text.len())[0] == s[i]);
    assert(text[0] == line[0]);
    assert(s[i] == '\n');
    assert forall|m: int| 0 <= m < ind implies is_ws(#[trigger] s[i + 1 + m]) by {
        assert(s.subrange(i, i + text.len())[1 + m] == s[i + 1 + m]);
        assert(text[1 + m] == line[1 + m]);
        assert(line[1 + m] == spaces(ind)[m]);
        assert(is_ws(spaces(ind)[m]));
    }
    let jq = i + 1 + ind;
    assert forall|m: int| i <= m < jq implies is_ws(s[m]) by {
        if m > i {
            assert(is_ws(s[i + 1 + (m - i - 1)]));
        }
    }
    assert(s.subrange(i, i + text.len())[1 + ind as int] == s[i + 1 + ind]);
    assert(text[1 + ind as int] == line[1 + ind as int]);
    assert(line[1 + ind as int] == quoted(k)[0]);
    assert(s[jq] == '"');
    lemma_skip_ws_over(s, i, jq);
    assert(skip_ws(s, jq) == jq);
    assert(skip_ws(s, i) == jq);
    // the key literal
    assert forall|m: int| 0 <= m < quoted(k).len() implies s.subrange(jq, jq + quoted(k).len())[m]
        == quoted(k)[m] by {
        assert(s.subrange(jq, jq + quoted(k).len())[m] == s[jq + m]);
        assert(s.subrange(i, i + text.len())[1 + ind as int + m] == s[i + 1 + ind + m]);
        assert(text[1 + ind as int + m] == line[1 + ind as int + m]);
        assert(line[1 + ind as int + m] == quoted(k)[m]);
    }
    assert(s.subrange(jq, jq + quoted(k).len()) =~= quoted(k));
    lemma_parse_quoted(s, jq, k);
    let j1 = jq + quoted(k).len();
    // colon, space, then the value literal
    assert(s.subrange(i, i + text.len())[1 + ind as int + quoted(k).len()] == s[i + 1 + ind + quoted(
        k,
    ).len()]);
    assert(text[1 + ind as int + quoted(k).len()] == line[1 + ind as int + quoted(k).len()]);
    assert(line[1 + ind as int + quoted(k).len()] == ':');
    assert(s[j1] == ':');
    assert(s.subrange(i, i + text.len())[1 + ind as int + quoted(k).len() + 1] == s[i + 1 + ind + quoted(
        k,
    ).len() + 1]);
    assert(text[1 + ind as int + quoted(k).len() + 1] == line[1 + ind as int + quoted(k).len() + 1]);
    assert(line[1 + ind as int + quoted(k).len() + 1] == ' ');
    assert(s[j1 + 1] == ' ');
    assert(skip_ws(s, j1) == j1);
    let j3 = j1 + 2;
    assert forall|m: int| 0 <= m < quoted(v).len() implies s.subrange(j3, j3 + quoted(v).len())[m]
        == quoted(v)[m] by {
        assert(s.subrange(j3, j3 + quoted(v).len())[m] == s[j3 + m]);
        assert(s.subrange(i, i + text.len())[1 + ind as int + quoted(k).len() + 2 + m] == s[i + 1 + ind
            + quoted(k).len() + 2 + m]);
        assert(text[1 + ind as int + quoted(k).len() + 2 + m] == line[1 + ind as int + quoted(k).len() + 2 + m]);
        assert(line[1 + ind as int + quoted(k).len() + 2 + m] == quoted(v)[m]);
    }
    assert(s.subrange(j3, j3 + quoted(v).len()) =~= quoted(v));
    assert(s[j3] == quoted(v)[0]);
    assert(s[j3] == '"');
    lemma_skip_ws_over(s, j1 + 1, j3);
    assert(skip_ws(s, j1 + 1) == j3);
    lemma_parse_quoted(s, j3, v);
    let j4 = j3 + quoted(v).len();
    assert(j4 == i + line.len());
    if ms.len() == 1 {
        assert(rkm == line);
        // after the only member: the closing run and brace
        assert(s.subrange(i, i + text.len())[line.len() as int] == s[i + line.len()]);
        assert(text[line.len() as int] == '\n');
        assert(s[j4] == '\n');
        assert forall|m: int| 0 <= m < cind implies is_ws(#[trigger] s[j4 + 1 + m]) by {
            assert(s.subrange(i, i + text.len())[line.len() as int + 1 + m] == s[i + line.len() + 1 + m]);
            assert(text[line.len() as int + 1 + m] == spaces(cind)[m]);
            assert(is_ws(spaces(cind)[m]));
        }
        let jb = j4 + 1 + cind;
        assert forall|m: int| j4 <= m < jb implies is_ws(s[m]) by {
            if m > j4 {
                assert(is_ws(s[j4 + 1 + (m - j4 - 1)]));
            }
        }
        assert(s.subrange(i, i + text.len())[line.len() as int + 1 + cind] == s[i + line.len() + 1
            + cind]);
        assert(text[line.len() as int + 1 + cind] == '}');
        assert(s[jb] == '}');
        lemma_skip_ws_over(s, j4, jb);
        assert(skip_ws(s, jb) == jb);
        assert(skip_ws(s, j4) == jb);
        assert(seq![(k, v)] =~= ms);
    } else {
        let rest = ms.drop_first();
        let rrest = render_kv_members(rest, ind);
        assert(rkm == line + seq![','] + rrest);
        assert(s.subrange(i, i + text.len())[line.len() as int] == s[i + line.len()]);
        assert(text[line.len() as int] == rkm[line.len() as int]);
        assert(rkm[line.len() as int] == ',');
        assert(s[j4] == ',');
        assert(skip_ws(s, j4) == j4);
        let i2 = j4 + 1;
        let rtext = rrest + seq!['\n'] + spaces(cind) + seq!['}'];
        assert forall|m: int| 0 <= m < rtext.len() implies s.subrange(i2, i2 + rtext.len())[m]
            == rtext[m] by {
            assert(s.subrange(i2, i2 + rtext.len())[m] == s[i2 + m]);
            assert(s.subrange(i, i + text.len())[line.len() as int + 1 + m] == s[i + line.len() + 1 + m]);
            if m < rrest.len() {
                assert(text[line.len() as int + 1 + m] == rkm[line.len() as int + 1 + m]);
                assert(rkm[line.len() as int + 1 + m] == rrest[m]);
                assert(rtext[m] == rrest[m]);
            } else {
                assert(text[line.len() as int + 1 + m] == rtext[m]);
            }
        }
        assert(s.subrange(i2, i2 + rtext.len()) =~= rtext);
        lemma_parse_kv_members_inv(s, i2, rest, ind, cind);
        assert(seq![(k, v)] + rest =~= ms);
    }
}

/// Parsing a rendered key-value object gives the members back.
pub proof fn lemma_parse_strmap_inv(s: Seq<char>, i: int, ms: Seq<(Seq<char>, Seq<char>)>, ind: nat)
    requires
        0 <= i,
        i + render_strmap(ms, ind).len() <= s.len(),
        s.subrange(i, i + render_strmap(ms, ind).len()) == render_strmap(ms, ind),
    ensures
        parse_strmap(s, i) == Some((ms, i + render_strmap(ms, ind).len())),
{
    lemma_spaces_ws(ind);
    lemma_spaces_ws((ind + 2) as nat);
    let r = render_strmap(ms, ind);
    if ms.len() == 0 {
        assert(r == seq!['{', '}']);
        assert(s.subrange(i, i + r.len())[0] == s[i]);
        assert(r[0] == '{');
        assert(s[i] == '{');
        assert(s.subrange(i, i + r.len())[1] == s[i + 1]);
        assert(r[1] == '}');
        assert(s[i + 1] == '}');
        assert(skip_ws(s, i + 1) == i + 1);
        assert(Seq::<(Seq<char>, Seq<char>)>::empty() =~= ms);
    } else {
        let rkm = render_kv_members(ms, (ind + 2) as nat);
        let rtext = rkm + seq!['\n'] + spaces(ind) + seq!['}'];
        assert(r == seq!['{'] + rkm + seq!['\n'] + spaces(ind) + seq!['}']);
        assert(s.subrange(i, i + r.len())[0] == s[i]);
        assert(r[0] == '{');
        assert(s[i] == '{');
        let i2 = i + 1;
        assert forall|m: int| 0 <= m < rtext.len() implies s.subrange(i2, i2 + rtext.len())[m]
            == rtext[m] by {
            assert(s.subrange(i2, i2 + rtext.len())[m] == s[i2 + m]);
            assert(s.subrange(i, i + r.len())[1 + m] == s[i + 1 + m]);
            assert(r[1 + m] == rtext[m]);
        }
        assert(s.subrange(i2, i2 + rtext.len()) =~= rtext);
        lemma_parse_kv_members_inv(s, i2, ms, (ind + 2) as nat, ind);
        // the first non-blank after the brace is the first key's quote
        let line0 = seq!['\n'] + spaces((ind + 2) as nat) + quoted(ms[0].0) + seq![':', ' ']
            + quoted(ms[0].1);
        assert(forall|m: int| 0 <= m < rkm.len() ==> #[trigger] rtext[m] == rkm[m]);
        assert(forall|m: int| 0 <= m < line0.len() ==> #[trigger] rkm[m] == line0[m]);
        assert forall|m: int| 0 <= m < rtext.len() implies s[i2 + m] == rtext[m] by {
            assert(s.subrange(i2, i2 + rtext.len())[m] == s[i2 + m]);
        }
        assert(s.subrange(i2, i2 + rtext.len())[0] == s[i2]);
        assert(rtext[0] == line0[0]);
        assert(s[i2] == '\n');
        assert forall|m: int| 0 <= m < ind + 2 implies is_ws(#[trigger] s[i2 + 1 + m]) by {
            assert(s.subrange(i2, i2 + rtext.len())[1 + m] == s[i2 + 1 + m]);
            assert(rtext[1 + m] == line0[1 + m]);
            assert(line0[1 + m] == spaces((ind + 2) as nat)[m]);
            assert(is_ws(spaces((ind + 2) as nat)[m]));
        }
        let jq = i2 + 1 + ind + 2;
        assert forall|m: int| i2 <= m < jq implies is_ws(s[m]) by {
            if m > i2 {
                assert(is_ws(s[i2 + 1 + (m - i2 - 1)]));
            }
        }
        assert(s.subrange(i2, i2 + rtext.len())[1 + ind as int + 2] == s[i2 + 1 + ind + 2]);
        assert(rtext[1 + ind as int + 2] == line0[1 + ind as int + 2]);
        assert(line0[1 + ind as int + 2] == quoted(ms[0].0)[0]);
        assert(s[jq] == '"');
        lemma_skip_ws_over(s, i2, jq);
        assert(skip_ws(s, jq) == jq);
        assert(skip_ws(s, i2) == jq);
    }
}


/// Parsing rendered path members, followed by the line break, closing
/// indent and closing brace, gives the members back.
#[verifier::rlimit(100)]
pub proof fn lemma_parse_path_members_inv(
    s: Seq<char>,
    i: int,
    es: Seq<(Seq<char>, Seq<(Seq<char>, Seq<char>)>)>,
    ind: nat,
    cind: nat,
)
    requires
        es.len() >= 1,
        0 <= i,
        i + render_path_members(es, ind).len() + 2 + cind <= s.len(),
        s.subrange(i, i + render_path_members(es, ind).len() + 2 + cind) == render_path_members(
            es,
            ind,
        ) + seq!['\n'] + spaces(cind) + seq!['}'],
    ensures
        parse_path_members(s, i) == Some((es, i + render_path_members(es, ind).len() + 2 + cind)),
    decreases es.len(),
{
    lemma_spaces_ws(ind);
    lemma_spaces_ws(cind);
    let rpm = render_path_members(es, ind);
    let text = rpm + seq!['\n'] + spaces(cind) + seq!['}'];
    let k = es[0].0;
    let v = es[0].1;
    let rsm = render_strmap(v, ind);
    let line = seq!['\n'] + spaces(ind) + quoted(k) + seq![':', ' '] + rsm;
    assert(forall|m: int| 0 <= m < rpm.len() ==> #[trigger] text[m] == rpm[m]);
    assert(forall|m: int| 0 <= m < line.len() ==> #[trigger] rpm[m] == line[m]);
    assert forall|m: int| 0 <= m < text.len() implies s[i + m] == text[m] by {
        assert(s.subrange(i, i + text.len())[m] == s[i + m]);
    }
    // leading whitespace run, then the path's opening quote
    assert(s.subrange(i, i + text.len())[0] == s[i]);
    assert(text[0] == line[0]);
    assert(s[i] == '\n');
    assert forall|m: int| 0 <= m < ind implies is_ws(#[trigger] s[i + 1 + m]) by {
        assert(s.subrange(i, i + text.len())[1 + m] == s[i + 1 + m]);
        assert(text[1 + m] == line[1 + m]);
        assert(line[1 + m] == spaces(ind)[m]);
        assert(is_ws(spaces(ind)[m]));
    }
    let jq = i + 1 + ind;
    assert forall|m: int| i <= m < jq implies is_ws(s[m]) by {
        if m > i {
            assert(is_ws(s[i + 1 + (m - i - 1)]));
        }
    }
    assert(s.subrange(i, i + text.len())[1 + ind as int] == s[i + 1 + ind]);
    assert(text[1 + ind as int] == line[1 + ind as int]);
    assert(line[1 + ind as int] == quoted(k)[0]);
    assert(s[jq] == '"');
    lemma_skip_ws_over(s, i, jq);
    assert(skip_ws(s, jq) == jq);
    assert(skip_ws(s, i) == jq);
    // the path literal
    assert forall|m: int| 0 <= m < quoted(k).len() implies s.subrange(jq, jq + quoted(k).len())[m]
        == quoted(k)[m] by {
        assert(s.subrange(jq, jq + quoted(k).len())[m] == s[jq + m]);
        assert(s.subrange(i, i + text.len())[1 + ind as int + m] == s[i + 1 + ind + m]);
        assert(text[1 + ind as int + m] == line[1 + ind as int + m]);
        assert(line[1 + ind as int + m] == quoted(k)[m]);
    }
    assert(s.subrange(jq, jq + quoted(k).len()) =~= quoted(k));
    lemma_parse_quoted(s, jq, k);
    let j1 = jq + quoted(k).len();
    // colon, space, then the per-path object
    assert(s.subrange(i, i + text.len())[1 + ind as int + quoted(k).len()] == s[i + 1 + ind
        + quoted(k).len()]);
    assert(text[1 + ind as int + quoted(k).len()] == line[1 + ind as int + quoted(k).len()]);
    assert(line[1 + ind as int + quoted(k).len()] == ':');
    assert(s[j1] == ':');
    assert(s.subrange(i, i + text.len())[1 + ind as int + quoted(k).len() + 1] == s[i + 1 + ind
        + quoted(k).len() + 1]);
    assert(text[1 + ind as int + quoted(k).len() + 1] == line[1 + ind as int + quoted(k).len()
        + 1]);
    assert(line[1 + ind as int + quoted(k).len() + 1] == ' ');
    assert(s[j1 + 1] == ' ');
    assert(skip_ws(s, j1) == j1);
    let j3 = j1 + 2;
    assert forall|m: int| 0 <= m < rsm.len() implies s.subrange(j3, j3 + rsm.len())[m]
        == rsm[m] by {
        assert(s.subrange(j3, j3 + rsm.len())[m] == s[j3 + m]);
        assert(s.subrange(i, i + text.len())[1 + ind as int + quoted(k).len() + 2 + m] == s[i + 1
            + ind + quoted(k).len() + 2 + m]);
        assert(text[1 + ind as int + quoted(k).len() + 2 + m] == line[1 + ind as int + quoted(
            k,
        ).len() + 2 + m]);
        assert(line[1 + ind as int + quoted(k).len() + 2 + m] == rsm[m]);
    }
    assert(s.subrange(j3, j3 + rsm.len()) =~= rsm);
    assert(s[j3] == rsm[0]);
    assert(s[j3] == '{');
    lemma_skip_ws_over(s, j1 + 1, j3);
    assert(skip_ws(s, j1 + 1) == j3);
    lemma_parse_strmap_inv(s, j3, v, ind);
    let j4 = j3 + rsm.len();
    assert(j4 == i + line.len());
    if es.len() == 1 {
        assert(rpm == line);
        assert(s.subrange(i, i + text.len())[line.len() as int] == s[i + line.len()]);
        assert(text[line.len() as int] == '\n');
        assert(s[j4] == '\n');
        assert forall|m: int| 0 <= m < cind implies is_ws(#[trigger] s[j4 + 1 + m]) by {
            assert(s.subrange(i, i + text.len())[line.len() as int + 1 + m] == s[i + line.len() + 1
                + m]);
            assert(text[line.len() as int + 1 + m] == spaces(cind)[m]);
            assert(is_ws(spaces(cind)[m]));
        }
        let jb = j4 + 1 + cind;
        assert forall|m: int| j4 <= m < jb implies is_ws(s[m]) by {
            if m > j4 {
                assert(is_ws(s[j4 + 1 + (m - j4 - 1)]));
            }
        }
        assert(s.subrange(i, i + text.len())[line.len() as int + 1 + cind] == s[i + line.len() + 1
            + cind]);
        assert(text[line.len() as int + 1 + cind] == '}');
        assert(s[jb] == '}');
        lemma_skip_ws_over(s, j4, jb);
        assert(skip_ws(s, jb) == jb);
        assert(skip_ws(s, j4) == jb);
        assert(seq![(k, v)] =~= es);
    } else {
        let rest = es.drop_first();
        let rrest = render_path_members(rest, ind);
        assert(rpm == line + seq![','] + rrest);
        assert(s.subrange(i, i + text.len())[line.len() as int] == s[i + line.len()]);
        assert(text[line.len() as int] == rpm[line.len() as int]);
        assert(rpm[line.len() as int] == ',');
        assert(s[j4] == ',');
        assert(skip_ws(s, j4) == j4);
        let i2 = j4 + 1;
        let rtext = rrest + seq!['\n'] + spaces(cind) + seq!['}'];
        assert forall|m: int| 0 <= m < rtext.len() implies s.subrange(i2, i2 + rtext.len())[m]
            == rtext[m] by {
            assert(s.subrange(i2, i2 + rtext.len())[m] == s[i2 + m]);
            assert(s.subrange(i, i + text.len())[line.len() as int + 1 + m] == s[i + line.len() + 1
                + m]);
            if m < rrest.len() {
                assert(text[line.len() as int + 1 + m] == rpm[line.len() as int + 1 + m]);
                assert(rpm[line.len() as int + 1 + m] == rrest[m]);
                assert(rtext[m] == rrest[m]);
            } else {
                assert(text[line.len() as int + 1 + m] == rtext[m]);
            }
        }
        assert(s.subrange(i2, i2 + rtext.len()) =~= rtext);
        lemma_parse_path_members_inv(s, i2, rest, ind, cind);
        assert(seq![(k, v)] + rest =~= es);
    }
}

/// Parsing a rendered path object gives the members back.
pub proof fn lemma_parse_pathmap_inv(
    s: Seq<char>,
    i: int,
    es: Seq<(Seq<char>, Seq<(Seq<char>, Seq<char>)>)>,
    ind: nat,
)
    requires
        0 <= i,
        i + render_pathmap(es, ind).len() <= s.len(),
        s.subrange(i, i + render_pathmap(es, ind).len()) == render_pathmap(es, ind),
    ensures
        parse_pathmap(s, i) == Some((es, i + render_pathmap(es, ind).len())),
{
    lemma_spaces_ws(ind);
    lemma_spaces_ws((ind + 2) as nat);
    let r = render_pathmap(es, ind);
    if es.len() == 0 {
        assert(r == seq!['{', '}']);
        assert(s.subrange(i, i + r.len())[0] == s[i]);
        assert(r[0] == '{');
        assert(s[i] == '{');
        assert(s.subrange(i, i + r.len())[1] == s[i + 1]);
        assert(r[1] == '}');
        assert(s[i + 1] == '}');
        assert(skip_ws(s, i + 1) == i + 1);
        assert(Seq::<(Seq<char>, Seq<(Seq<char>, Seq<char>)>)>::empty() =~= es);
    } else {
        let rpm = render_path_members(es, (ind + 2) as nat);
        let rtext = rpm + seq!['\n'] + spaces(ind) + seq!['}'];
        assert(r == seq!['{'] + rpm + seq!['\n'] + spaces(ind) + seq!['}']);
        assert(s.subrange(i, i + r.len())[0] == s[i]);
        assert(r[0] == '{');
        assert(s[i] == '{');
        let i2 = i + 1;
        assert forall|m: int| 0 <= m < rtext.len() implies s.subrange(i2, i2 + rtext.len())[m]
            == rtext[m] by {
            assert(s.subrange(i2, i2 + rtext.len())[m] == s[i2 + m]);
            assert(s.subrange(i, i + r.len())[1 + m] == s[i + 1 + m]);
            assert(r[1 + m] == rtext[m]);
        }
        assert(s.subrange(i2, i2 + rtext.len()) =~= rtext);
        lemma_parse_path_members_inv(s, i2, es, (ind + 2) as nat, ind);
        // the first non-blank after the brace is the first path's quote
        let line0 = seq!['\n'] + spaces((ind + 2) as nat) + quoted(es[0].0) + seq![':', ' ']
            + render_strmap(es[0].1, (ind + 2) as nat);
        assert(forall|m: int| 0 <= m < rpm.len() ==> #[trigger] rtext[m] == rpm[m]);
        assert(forall|m: int| 0 <= m < line0.len() ==> #[trigger] rpm[m] == line0[m]);
        assert forall|m: int| 0 <= m < rtext.len() implies s[i2 + m] == rtext[m] by {
            assert(s.subrange(i2, i2 + rtext.len())[m] == s[i2 + m]);
        }
        assert(s.subrange(i2, i2 + rtext.len())[0] == s[i2]);
        assert(rtext[0] == line0[0]);
        assert(s[i2] == '\n');
        assert forall|m: int| 0 <= m < ind + 2 implies is_ws(#[trigger] s[i2 + 1 + m]) by {
            assert(s.subrange(i2, i2 + rtext.len())[1 + m] == s[i2 + 1 + m]);
            assert(rtext[1 + m] == line0[1 + m]);
            assert(line0[1 + m] == spaces((ind + 2) as nat)[m]);
            assert(is_ws(spaces((ind + 2) as nat)[m]));
        }
        let jq = i2 + 1 + ind + 2;
        assert forall|m: int| i2 <= m < jq implies is_ws(s[m]) by {
            if m > i2 {
                assert(is_ws(s[i2 + 1 + (m - i2 - 1)]));
            }
        }
        assert(s.subrange(i2, i2 + rtext.len())[1 + ind as int + 2] == s[i2 + 1 + ind + 2]);
        assert(rtext[1 + ind as int + 2] == line0[1 + ind as int + 2]);
        assert(line0[1 + ind as int + 2] == quoted(es[0].0)[0]);
        assert(s[jq] == '"');
        lemma_skip_ws_over(s, i2, jq);
        assert(skip_ws(s, jq) == jq);
        assert(skip_ws(s, i2) == jq);
    }
}

/// Where each piece of the rendered store document sits.
proof fn lemma_store_text_shape(es: Seq<(Seq<char>, Seq<(Seq<char>, Seq<char>)>)>)
    ensures
        ({
            let s = render_store_text(es);
            let qp = quoted("projector"@);
            let rp = render_pathmap(es, 2);
            let j1 = 4 + qp.len() as int;
            let j3 = j1 + 2;
            let j4 = j3 + rp.len() as int;
            &&& s.len() == j4 + 2
            &&& s[0] == '{'
            &&& s[1] == '\n'
            &&& s[2] == ' '
            &&& s[3] == ' '
            &&& s[4] == '"'
            &&& s.subrange(4, 4 + qp.len() as int) == qp
            &&& s[j1] == ':'
            &&& s[j1 + 1] == ' '
            &&& s[j3] == '{'
            &&& s.subrange(j3, j3 + rp.len() as int) == rp
            &&& s[j4] == '\n'
            &&& s[j4 + 1] == '}'
        }),
{
    let s = render_store_text(es);
    let a = seq!['{', '\n', ' ', ' '];
    let qp = quoted("projector"@);
    let b = seq![':', ' '];
    let rp = render_pathmap(es, 2);
    let c = seq!['\n', '}'];
    assert(s == a + qp + b + rp + c);
    let j1 = 4 + qp.len() as int;
    let j3 = j1 + 2;
    let j4 = j3 + rp.len() as int;
    assert(s[4] == qp[0]);
    assert(qp[0] == '"');
    assert forall|m: int| 0 <= m < qp.len() implies s.subrange(4, 4 + qp.len() as int)[m]
        == qp[m] by {
        assert(s.subrange(4, 4 + qp.len() as int)[m] == s[4 + m]);
        assert(s[4 + m] == qp[m]);
    }
    assert(s.subrange(4, 4 + qp.len() as int) =~= qp);
    if es.len() == 0 {
        assert(rp == seq!['{', '}']);
        assert(s[j3] == rp[0]);
    } else {
        assert(rp == seq!['{'] + render_path_members(es, 4) + seq!['\n'] + spaces(2) + seq!['}']);
        assert(s[j3] == rp[0]);
    }
    assert forall|m: int| 0 <= m < rp.len() implies s.subrange(j3, j3 + rp.len() as int)[m]
        == rp[m] by {
        assert(s.subrange(j3, j3 + rp.len() as int)[m] == s[j3 + m]);
        assert(s[j3 + m] == rp[m]);
    }
    assert(s.subrange(j3, j3 + rp.len() as int) =~= rp);
}

/// Round trip: parsing a rendered store document yields exactly the
/// entries that were rendered — saving and reloading loses nothing.
#[verifier::rlimit(100)]
#[verifier::spinoff_prover]
pub proof fn lemma_store_text_round_trip(es: Seq<(Seq<char>, Seq<(Seq<char>, Seq<char>)>)>)
    ensures
        parse_store_text(render_store_text(es)) == Some(es),
{
    lemma_store_text_shape(es);
    let s = render_store_text(es);
    let qp = quoted("projector"@);
    let rp = render_pathmap(es, 2);
    let j1 = 4 + qp.len() as int;
    let j3 = j1 + 2;
    let j4 = j3 + rp.len() as int;
    assert(!is_ws('{'));
    assert(skip_ws(s, 0) == 0);
    assert forall|m: int| 1 <= m < 4 implies is_ws(s[m]) by {}
    lemma_skip_ws_over(s, 1, 4);
    assert(skip_ws(s, 4) == 4);
    assert(skip_ws(s, 1) == 4);
    lemma_parse_quoted(s, 4, "projector"@);
    assert(skip_ws(s, j1) == j1);
    lemma_skip_ws_over(s, j1 + 1, j3);
    assert(skip_ws(s, j3) == j3);
    assert(skip_ws(s, j1 + 1) == j3);
    lemma_parse_pathmap_inv(s, j3, es, 2);
    lemma_skip_ws_over(s, j4, j4 + 1);
    assert(skip_ws(s, j4 + 1) == j4 + 1);
    assert(skip_ws(s, j4) == j4 + 1);
    assert(j4 + 2 == s.len());
    assert(skip_ws(s, j4 + 2) == s.len());
}

// ------------------------------------------------- executable renderer

/// The nested mapping a parsed entry list denotes: later entries and
/// later pairs win, as when the pairs are inserted in file order.
pub open spec fn path_pairs_to_maps(es: Seq<(Seq<char>, Seq<(Seq<char>, Seq<char>)>)>) -> Seq<
    (Seq<char>, Map<Seq<char>, Seq<char>>),
> {
    es.map_values(|e: (Seq<char>, Seq<(Seq<char>, Seq<char>)>)| (e.0, map_of_pairs(e.1)))
}

/// The nested mapping of a parsed document.
pub open spec fn store_map_of(es: Seq<(Seq<char>, Seq<(Seq<char>, Seq<char>)>)>) -> Map<
    Seq<char>,
    Map<Seq<char>, Seq<char>>,
> {
    map_of_pairs(path_pairs_to_maps(es))
}

proof fn lemma_escape_string_push(a: Seq<char>, c: char)
    ensures
        escape_string(a.push(c)) == escape_string(a) + escape_char(c),
    decreases a.len(),
{
    if a.len() == 0 {
        let t = a.push(c);
        assert(t =~= seq![c]);
        assert(t[0] == c);
        assert(t.drop_first() =~= Seq::<char>::empty());
        assert(escape_string(t.drop_first()) =~= Seq::<char>::empty());
        assert(escape_string(t) =~= escape_char(c) + Seq::<char>::empty());
        assert(escape_char(c) + Seq::<char>::empty() =~= escape_char(c));
        assert(escape_string(a) + escape_char(c) =~= escape_char(c));
    } else {
        assert(a.push(c).drop_first() =~= a.drop_first().push(c));
        lemma_escape_string_push(a.drop_first(), c);
        assert(escape_string(a.push(c)) == escape_char(a[0]) + (escape_string(a.drop_first())
            + escape_char(c)));
        assert(escape_char(a[0]) + (escape_string(a.drop_first()) + escape_char(c)) =~= (
        escape_char(a[0]) + escape_string(a.drop_first())) + escape_char(c));
    }
}

fn push_char(out: &mut Vec<char>, c: char)
    ensures
        final(out)@ == old(out)@ + seq![c],
{
    out.push(c);
    proof {
        assert(out@ =~= old(out)@ + seq![c]);
    }
}

fn push_spaces(out: &mut Vec<char>, n: usize)
    ensures
        final(out)@ == old(out)@ + spaces(n as nat),
{
    let mut i: usize = 0;
    proof {
        assert(out@ =~= old(out)@ + spaces(0));
    }
    while i < n
        invariant
            i <= n,
            out@ == old(out)@ + spaces(i as nat),
        decreases n - i,
    {
        out.push(' ');
        proof {
            assert(out@ =~= old(out)@ + spaces((i + 1) as nat));
        }
        i = i + 1;
    }
}

fn hex_digit_char_exec(d: u8) -> (c: char)
    requires
        d < 16,
    ensures
        c == hex_digit_char(d as nat),
{
    if d < 10 {
        (48 + d) as char
    } else {
        (87 + d) as char
    }
}

fn push_escaped_char(out: &mut Vec<char>, c: char)
    ensures
        final(out)@ == old(out)@ + escape_char(c),
{
    if c == '"' {
        out.push('\\');
        out.push('"');
    } else if c == '\\' {
        out.push('\\');
        out.push('\\');
    } else if c == '\n' {
        out.push('\\');
        out.push('n');
    } else if c == '\t' {
        out.push('\\');
        out.push('t');
    } else if c == '\r' {
        out.push('\\');
        out.push('r');
    } else if c == '\u{8}' {
        out.push('\\');
        out.push('b');
    } else if c == '\u{c}' {
        out.push('\\');
        out.push('f');
    } else if (c as u32) < 32 {
        let code = c as u32;
        out.push('\\');
        out.push('u');
        out.push('0');
        out.push('0');
        out.push(hex_digit_char_exec((code / 16) as u8));
        out.push(hex_digit_char_exec((code % 16) as u8));
    } else {
        out.push(c);
    }
    proof {
        assert(out@ =~= old(out)@ + escape_char(c));
    }
}

fn push_quoted(out: &mut Vec<char>, t: &str)
    ensures
        final(out)@ == old(out)@ + quoted(t@),
{
    let n = t.unicode_len();
    out.push('"');
    let mut i: usize = 0;
    proof {
        assert(t@.subrange(0, 0) =~= Seq::<char>::empty());
        assert(out@ =~= old(out)@ + seq!['"'] + escape_string(t@.subrange(0, 0)));
    }
    while i < n
        invariant
            i <= n,
            n == t@.len(),
            out@ == old(out)@ + seq!['"'] + escape_string(t@.subrange(0, i as int)),
        decreases n - i,
    {
        push_escaped_char(out, t.get_char(i));
        proof {
            assert(t@.subrange(0, i + 1) =~= t@.subrange(0, i as int).push(t@[i as int]));
            lemma_escape_string_push(t@.subrange(0, i as int), t@[i as int]);
            assert(out@ =~= old(out)@ + seq!['"'] + escape_string(t@.subrange(0, i + 1)));
        }
        i = i + 1;
    }
    out.push('"');
    proof {
        assert(t@.subrange(0, n as int) =~= t@);
        assert(out@ =~= old(out)@ + quoted(t@));
    }
}

fn push_kv_members(out: &mut Vec<char>, m: &KvMap, idx: usize, ind: usize)
    requires
        idx < m.pairs@.len(),
        ind <= 1000,
    ensures
        final(out)@ == old(out)@ + render_kv_members(m.seq().skip(idx as int), ind as nat),
    decreases m.pairs@.len() - idx,
{
    let ghost sq = m.seq().skip(idx as int);
    push_char(out, '\n');
    push_spaces(out, ind);
    push_quoted(out, m.pairs[idx].0.as_str());
    push_char(out, ':');
    push_char(out, ' ');
    push_quoted(out, m.pairs[idx].1.as_str());
    proof {
        assert(sq[0] == m.seq()[idx as int]);
    }
    if idx < m.pairs.len() - 1 {
        push_char(out, ',');
        push_kv_members(out, m, idx + 1, ind);
        proof {
            assert(sq.drop_first() =~= m.seq().skip(idx + 1));
            assert(sq.len() > 1);
            assert(out@ =~= old(out)@ + render_kv_members(sq, ind as nat));
        }
    } else {
        proof {
            assert(sq.len() == 1);
            assert(out@ =~= old(out)@ + render_kv_members(sq, ind as nat));
        }
    }
}

fn push_strmap(out: &mut Vec<char>, m: &KvMap, ind: usize)
    requires
        ind <= 900,
    ensures
        final(out)@ == old(out)@ + render_strmap(m.seq(), ind as nat),
{
    push_char(out, '{');
    if m.pairs.len() == 0 {
        push_char(out, '}');
        proof {
            assert(out@ =~= old(out)@ + render_strmap(m.seq(), ind as nat));
        }
    } else {
        push_kv_members(out, m, 0, ind + 2);
        push_char(out, '\n');
        push_spaces(out, ind);
        push_char(out, '}');
        proof {
            assert(m.seq().skip(0) =~= m.seq());
            assert(out@ =~= old(out)@ + render_strmap(m.seq(), ind as nat));
        }
    }
}

fn push_path_members(out: &mut Vec<char>, sd: &StoreData, idx: usize, ind: usize)
    requires
        idx < sd.entries@.len(),
        ind <= 800,
    ensures
        final(out)@ == old(out)@ + render_path_members(sd.seq().skip(idx as int), ind as nat),
    decreases sd.entries@.len() - idx,
{
    let ghost sq = sd.seq().skip(idx as int);
    push_char(out, '\n');
    push_spaces(out, ind);
    push_quoted(out, sd.entries[idx].0.as_str());
    push_char(out, ':');
    push_char(out, ' ');
    push_strmap(out, &sd.entries[idx].1, ind);
    proof {
        assert(sq[0] == sd.seq()[idx as int]);
    }
    if idx < sd.entries.len() - 1 {
        push_char(out, ',');
        push_path_members(out, sd, idx + 1, ind);
        proof {
            assert(sq.drop_first() =~= sd.seq().skip(idx + 1));
            assert(sq.len() > 1);
            assert(out@ =~= old(out)@ + render_path_members(sq, ind as nat));
        }
    } else {
        proof {
            assert(sq.len() == 1);
            assert(out@ =~= old(out)@ + render_path_members(sq, ind as nat));
        }
    }
}

fn push_pathmap(out: &mut Vec<char>, sd: &StoreData, ind: usize)
    requires
        ind <= 700,
    ensures
        final(out)@ == old(out)@ + render_pathmap(sd.seq(), ind as nat),
{
    push_char(out, '{');
    if sd.entries.len() == 0 {
        push_char(out, '}');
        proof {
            assert(out@ =~= old(out)@ + render_pathmap(sd.seq(), ind as nat));
        }
    } else {
        push_path_members(out, sd, 0, ind + 2);
        push_char(out, '\n');
        push_spaces(out, ind);
        push_char(out, '}');
        proof {
            assert(sd.seq().skip(0) =~= sd.seq());
            assert(out@ =~= old(out)@ + render_pathmap(sd.seq(), ind as nat));
        }
    }
}

/// The pretty-printed document for the store's entries.
pub fn render_store(sd: &StoreData) -> (r: String)
    ensures
        r@ == render_store_text(sd.seq()),
{
    let mut out: Vec<char> = Vec::new();
    push_char(&mut out, '{');
    push_char(&mut out, '\n');
    push_char(&mut out, ' ');
    push_char(&mut out, ' ');
    push_quoted(&mut out, "projector");
    push_char(&mut out, ':');
    push_char(&mut out, ' ');
    push_pathmap(&mut out, sd, 2);
    push_char(&mut out, '\n');
    push_char(&mut out, '}');
    proof {
        assert(out@ =~= render_store_text(sd.seq()));
    }
    crate::strings::chars_to_string(&out)
}

/// The pretty-printed JSON object for one key-value map, as the
/// print-everything output shows it.
pub fn render_map(m: &KvMap) -> (r: String)
    ensures
        r@ == render_strmap(m.seq(), 0),
{
    let mut out: Vec<char> = Vec::new();
    push_strmap(&mut out, m, 0);
    proof {
        assert(out@ =~= render_strmap(m.seq(), 0));
    }
    crate::strings::chars_to_string(&out)
}

// --------------------------------------------------- executable parser

fn is_ws_exec(c: char) -> (r: bool)
    ensures
        r == is_ws(c),
{
    c == ' ' || c == '\n' || c == '\t' || c == '\r'
}

fn skip_ws_exec(s: &Vec<char>, i: usize) -> (j: usize)
    requires
        i <= s@.len(),
    ensures
        j as int == skip_ws(s@, i as int),
        i <= j <= s@.len(),
{
    let mut j = i;
    while j < s.len() && is_ws_exec(s[j])
        invariant
            i <= j <= s@.len(),
            skip_ws(s@, i as int) == skip_ws(s@, j as int),
        decreases s@.len() - j,
    {
        j = j + 1;
    }
    j
}

fn hex_val_exec(c: char) -> (r: Option<u8>)
    ensures
        match r {
            Some(d) => hex_val(c) == d as int && d < 16,
            None => hex_val(c) < 0,
        },
{
    let u = c as u32;
    if 48 <= u && u <= 57 {
        Some((u - 48) as u8)
    } else if 97 <= u && u <= 102 {
        Some((u - 87) as u8)
    } else if 65 <= u && u <= 70 {
        Some((u - 55) as u8)
    } else {
        None
    }
}

fn unescape_char_exec(e: char) -> (r: Option<char>)
    ensures
        r == unescape_char(e),
{
    if e == '"' {
        Some('"')
    } else if e == '\\' {
        Some('\\')
    } else if e == '/' {
        Some('/')
    } else if e == 'n' {
        Some('\n')
    } else if e == 't' {
        Some('\t')
    } else if e == 'r' {
        Some('\r')
    } else if e == 'b' {
        Some('\u{8}')
    } else if e == 'f' {
        Some('\u{c}')
    } else {
        None
    }
}

fn parse_str_body_exec(s: &Vec<char>, i: usize) -> (r: Option<(Vec<char>, usize)>)
    ensures
        match r {
            Some(p) => parse_str_body(s@, i as int) == Some((p.0@, p.1 as int)) && p.1 <= s@.len(),
            None => parse_str_body(s@, i as int) is None,
        },
    decreases s@.len() - i,
{
    if i >= s.len() {
        return None;
    }
    let c = s[i];
    if c == '"' {
        let empty: Vec<char> = Vec::new();
        proof {
            assert(empty@ =~= Seq::<char>::empty());
        }
        return Some((empty, i + 1));
    }
    if c == '\\' {
        if i + 1 >= s.len() {
            return None;
        }
        let e = s[i + 1];
        if e == 'u' {
            if s.len() - (i + 1) < 5 {
                return None;
            }
            let d0 = match hex_val_exec(s[i + 2]) {
                Some(d) => d,
                None => {
                    return None;
                },
            };
            let d1 = match hex_val_exec(s[i + 3]) {
                Some(d) => d,
                None => {
                    return None;
                },
            };
            let d2 = match hex_val_exec(s[i + 4]) {
                Some(d) => d,
                None => {
                    return None;
                },
            };
            let d3 = match hex_val_exec(s[i + 5]) {
                Some(d) => d,
                None => {
                    return None;
                },
            };
            let v: u32 = 4096 * (d0 as u32) + 256 * (d1 as u32) + 16 * (d2 as u32) + (d3 as u32);
            if 0xD800 <= v && v < 0xDC00 {
                if s.len() - (i + 1) < 11 {
                    return None;
                }
                if s[i + 6] != '\\' || s[i + 7] != 'u' {
                    return None;
                }
                let e0 = match hex_val_exec(s[i + 8]) {
                    Some(d) => d,
                    None => {
                        return None;
                    },
                };
                let e1 = match hex_val_exec(s[i + 9]) {
                    Some(d) => d,
                    None => {
                        return None;
                    },
                };
                let e2 = match hex_val_exec(s[i + 10]) {
                    Some(d) => d,
                    None => {
                        return None;
                    },
                };
                let e3 = match hex_val_exec(s[i + 11]) {
                    Some(d) => d,
                    None => {
                        return None;
                    },
                };
                let w: u32 = 4096 * (e0 as u32) + 256 * (e1 as u32) + 16 * (e2 as u32) + (
                e3 as u32);
                if w < 0xDC00 || w >= 0xE000 {
                    return None;
                }
                let code: u32 = 0x10000 + (v - 0xD800) * 0x400 + (w - 0xDC00);
                let c2 = match crate::strings::char_from_u32(code) {
                    Some(c2) => c2,
                    None => {
                        proof {
                            assert(false);
                        }
                        return None;
                    },
                };
                proof {
                    lemma_char_of(c2);
                    assert(char_of(code as int) == c2);
                }
                match parse_str_body_exec(s, i + 12) {
                    None => None,
                    Some((mut rest, j)) => {
                        let ghost prev = rest@;
                        rest.insert(0, c2);
                        proof {
                            assert(rest@ =~= seq![c2] + prev);
                        }
                        Some((rest, j))
                    },
                }
            } else if 0xDC00 <= v && v < 0xE000 {
                None
            } else {
                let c2 = match crate::strings::char_from_u32(v) {
                    Some(c2) => c2,
                    None => {
                        proof {
                            assert(false);
                        }
                        return None;
                    },
                };
                proof {
                    lemma_char_of(c2);
                    assert(char_of(v as int) == c2);
                }
                match parse_str_body_exec(s, i + 6) {
                    None => None,
                    Some((mut rest, j)) => {
                        let ghost prev = rest@;
                        rest.insert(0, c2);
                        proof {
                            assert(rest@ =~= seq![c2] + prev);
                        }
                        Some((rest, j))
                    },
                }
            }
        } else {
            let cc = match unescape_char_exec(e) {
                Some(cc) => cc,
                None => {
                    return None;
                },
            };
            match parse_str_body_exec(s, i + 2) {
                None => None,
                Some((mut rest, j)) => {
                    let ghost prev = rest@;
                    rest.insert(0, cc);
                    proof {
                        assert(rest@ =~= seq![cc] + prev);
                    }
                    Some((rest, j))
                },
            }
        }
    } else {
        match parse_str_body_exec(s, i + 1) {
            None => None,
            Some((mut rest, j)) => {
                let ghost prev = rest@;
                rest.insert(0, c);
                proof {
                    assert(rest@ =~= seq![c] + prev);
                }
                Some((rest, j))
            },
        }
    }
}

fn parse_string_exec(s: &Vec<char>, i: usize) -> (r: Option<(Vec<char>, usize)>)
    ensures
        match r {
            Some(p) => parse_string(s@, i as int) == Some((p.0@, p.1 as int)) && i < p.1
                <= s@.len(),
            None => parse_string(s@, i as int) is None,
        },
{
    if i < s.len() && s[i] == '"' {
        proof {
            lemma_parse_str_body_advances(s@, i + 1);
        }
        parse_str_body_exec(s, i + 1)
    } else {
        None
    }
}

fn parse_kv_members_exec(s: &Vec<char>, i: usize, acc: &mut KvMap) -> (r: Option<usize>)
    requires
        i <= s@.len(),
        old(acc).wf(),
    ensures
        match r {
            Some(j) => {
                &&& parse_kv_members(s@, i as int) is Some
                &&& (parse_kv_members(s@, i as int)->0).1 == j as int
                &&& j <= s@.len()
                &&& final(acc).wf()
                &&& final(acc).as_map() == old(acc).as_map().union_prefer_right(
                    map_of_pairs((parse_kv_members(s@, i as int)->0).0),
                )
            },
            None => parse_kv_members(s@, i as int) is None,
        },
    decreases s@.len() - i,
{
    let j = skip_ws_exec(s, i);
    let (k, j1) = match parse_string_exec(s, j) {
        None => {
            return None;
        },
        Some(p) => p,
    };
    let j2 = skip_ws_exec(s, j1);
    if j2 >= s.len() || s[j2] != ':' {
        return None;
    }
    let j3 = skip_ws_exec(s, j2 + 1);
    let (v, j4) = match parse_string_exec(s, j3) {
        None => {
            return None;
        },
        Some(p) => p,
    };
    let j5 = skip_ws_exec(s, j4);
    if j5 >= s.len() {
        return None;
    }
    let c = s[j5];
    let ks = crate::strings::chars_to_string(&k);
    let vs = crate::strings::chars_to_string(&v);
    let ghost pair = (k@, v@);
    if c == ',' {
        acc.insert(ks, vs);
        match parse_kv_members_exec(s, j5 + 1, acc) {
            None => None,
            Some(j6) => {
                proof {
                    let rest = (parse_kv_members(s@, j5 + 1 as int)->0).0;
                    lemma_map_of_pairs_cons_fold(old(acc).as_map(), pair, rest);
                }
                Some(j6)
            },
        }
    } else if c == '}' {
        acc.insert(ks, vs);
        proof {
            lemma_map_of_pairs_cons_fold(
                old(acc).as_map(),
                pair,
                Seq::<(Seq<char>, Seq<char>)>::empty(),
            );
            assert(seq![pair] + Seq::<(Seq<char>, Seq<char>)>::empty() =~= seq![pair]);
            assert((parse_kv_members(s@, i as int)->0).0 == seq![pair]);
        }
        Some(j5 + 1)
    } else {
        None
    }
}

fn parse_strmap_exec(s: &Vec<char>, i: usize) -> (r: Option<(KvMap, usize)>)
    requires
        i <= s@.len(),
    ensures
        match r {
            Some(p) => {
                &&& parse_strmap(s@, i as int) is Some
                &&& (parse_strmap(s@, i as int)->0).1 == p.1 as int
                &&& i < p.1 <= s@.len()
                &&& p.0.wf()
                &&& p.0.as_map() == map_of_pairs((parse_strmap(s@, i as int)->0).0)
            },
            None => parse_strmap(s@, i as int) is None,
        },
{
    if i >= s.len() || s[i] != '{' {
        return None;
    }
    let j = skip_ws_exec(s, i + 1);
    if j < s.len() && s[j] == '}' {
        let m = KvMap::new();
        proof {
            assert(m.as_map() =~= map_of_pairs(Seq::<(Seq<char>, Seq<char>)>::empty()));
        }
        return Some((m, j + 1));
    }
    let mut m = KvMap::new();
    match parse_kv_members_exec(s, i + 1, &mut m) {
        None => None,
        Some(j2) => {
            proof {
                lemma_parse_kv_members_advances(s@, i + 1 as int);
                assert(Map::<Seq<char>, Seq<char>>::empty().union_prefer_right(
                    map_of_pairs((parse_kv_members(s@, i + 1 as int)->0).0),
                ) =~= map_of_pairs((parse_kv_members(s@, i + 1 as int)->0).0));
            }
            Some((m, j2))
        },
    }
}

fn parse_path_members_exec(s: &Vec<char>, i: usize, acc: &mut StoreData) -> (r: Option<usize>)
    requires
        i <= s@.len(),
        old(acc).wf(),
    ensures
        match r {
            Some(j) => {
                &&& parse_path_members(s@, i as int) is Some
                &&& (parse_path_members(s@, i as int)->0).1 == j as int
                &&& j <= s@.len()
                &&& final(acc).wf()
                &&& final(acc).as_map() == old(acc).as_map().union_prefer_right(
                    store_map_of((parse_path_members(s@, i as int)->0).0),
                )
            },
            None => parse_path_members(s@, i as int) is None,
        },
    decreases s@.len() - i,
{
    let j = skip_ws_exec(s, i);
    let (k, j1) = match parse_string_exec(s, j) {
        None => {
            return None;
        },
        Some(p) => p,
    };
    let j2 = skip_ws_exec(s, j1);
    if j2 >= s.len() || s[j2] != ':' {
        return None;
    }
    let j3 = skip_ws_exec(s, j2 + 1);
    let (m, j4) = match parse_strmap_exec(s, j3) {
        None => {
            return None;
        },
        Some(p) => p,
    };
    let j5 = skip_ws_exec(s, j4);
    if j5 >= s.len() {
        return None;
    }
    let c = s[j5];
    let ks = crate::strings::chars_to_string(&k);
    let ghost inner = (parse_strmap(s@, j3 as int)->0).0;
    let ghost mpair = (k@, map_of_pairs(inner));
    if c == ',' {
        acc.insert_entry(ks, m);
        match parse_path_members_exec(s, j5 + 1, acc) {
            None => None,
            Some(j6) => {
                proof {
                    let rest = (parse_path_members(s@, j5 + 1 as int)->0).0;
                    assert(path_pairs_to_maps(seq![(k@, inner)] + rest) =~= seq![mpair]
                        + path_pairs_to_maps(rest));
                    lemma_map_of_pairs_cons_fold(
                        old(acc).as_map(),
                        mpair,
                        path_pairs_to_maps(rest),
                    );
                }
                Some(j6)
            },
        }
    } else if c == '}' {
        acc.insert_entry(ks, m);
        proof {
            assert(path_pairs_to_maps(seq![(k@, inner)]) =~= seq![mpair]);
            lemma_map_of_pairs_cons_fold(
                old(acc).as_map(),
                mpair,
                Seq::<(Seq<char>, Map<Seq<char>, Seq<char>>)>::empty(),
            );
            assert(seq![mpair] + Seq::<(Seq<char>, Map<Seq<char>, Seq<char>>)>::empty()
                =~= seq![mpair]);
            assert((parse_path_members(s@, i as int)->0).0 == seq![(k@, inner)]);
        }
        Some(j5 + 1)
    } else {
        None
    }
}

fn parse_pathmap_exec(s: &Vec<char>, i: usize) -> (r: Option<(StoreData, usize)>)
    requires
        i <= s@.len(),
    ensures
        match r {
            Some(p) => {
                &&& parse_pathmap(s@, i as int) is Some
                &&& (parse_pathmap(s@, i as int)->0).1 == p.1 as int
                &&& p.1 <= s@.len()
                &&& p.0.wf()
                &&& p.0.as_map() == store_map_of((parse_pathmap(s@, i as int)->0).0)
            },
            None => parse_pathmap(s@, i as int) is None,
        },
{
    if i >= s.len() || s[i] != '{' {
        return None;
    }
    let j = skip_ws_exec(s, i + 1);
    if j < s.len() && s[j] == '}' {
        let sd = StoreData::new();
        proof {
            assert(path_pairs_to_maps(Seq::<(Seq<char>, Seq<(Seq<char>, Seq<char>)>)>::empty())
                =~= Seq::<(Seq<char>, Map<Seq<char>, Seq<char>>)>::empty());
            assert(sd.as_map() =~= store_map_of(
                Seq::<(Seq<char>, Seq<(Seq<char>, Seq<char>)>)>::empty(),
            ));
        }
        return Some((sd, j + 1));
    }
    let mut sd = StoreData::new();
    match parse_path_members_exec(s, i + 1, &mut sd) {
        None => None,
        Some(j2) => {
            proof {
                assert(Map::<Seq<char>, Map<Seq<char>, Seq<char>>>::empty().union_prefer_right(
                    store_map_of((parse_path_members(s@, i + 1 as int)->0).0),
                ) =~= store_map_of((parse_path_members(s@, i + 1 as int)->0).0));
            }
            Some((sd, j2))
        },
    }
}

/// Parses a whole store document into store data; `None` exactly when
/// the text is not a well-shaped store document.
pub fn parse_store(s: &Vec<char>) -> (r: Option<StoreData>)
    ensures
        match r {
            Some(sd) => parse_store_text(s@) is Some && sd.wf() && sd.as_map() == store_map_of(
                parse_store_text(s@)->0,
            ),
            None => parse_store_text(s@) is None,
        },
{
    let i = skip_ws_exec(s, 0);
    if i >= s.len() || s[i] != '{' {
        return None;
    }
    let j0 = skip_ws_exec(s, i + 1);
    let (key, j1) = match parse_string_exec(s, j0) {
        None => {
            return None;
        },
        Some(p) => p,
    };
    let keys = crate::strings::chars_to_string(&key);
    if !crate::strings::str_matches(&keys, "projector") {
        return None;
    }
    let j2 = skip_ws_exec(s, j1);
    if j2 >= s.len() || s[j2] != ':' {
        return None;
    }
    let j3 = skip_ws_exec(s, j2 + 1);
    let (sd, j4) = match parse_pathmap_exec(s, j3) {
        None => {
            return None;
        },
        Some(p) => p,
    };
    let j5 = skip_ws_exec(s, j4);
    if j5 < s.len() && s[j5] == '}' {
        let j6 = skip_ws_exec(s, j5 + 1);
        if j6 == s.len() {
            return Some(sd);
        }
    }
    None
}

} // verus!
