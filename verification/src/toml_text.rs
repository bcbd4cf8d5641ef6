//! The text form of configuration tables: a TOML-like format with comments,
//! `key = value` lines, one level of `[section]` headers, and inline lists
//! and tables, written and parsed by verified code.
//!
//! A document is a root table. A root value of table shape is written as a
//! `[section]` of its own; lists and tables inside a section are written
//! inline. Strings are quoted with backslash escapes; integers are decimal;
//! floats keep their literal text; booleans are `true` and `false`.

use vstd::prelude::*;

use crate::config::{ConfigItem, ItemV, emitted_value, entries_v, is_scalar, item_v, items_v, lemma_tbl_get_absent, lemma_tbl_get_found, lemma_tbl_get_push_last, lemma_tbl_get_push_other, tbl_distinct, tbl_get, tbl_has};

verus! {

broadcast use vstd::std_specs::vec::group_vec_axioms;

/// Horizontal whitespace.
pub open spec fn is_ws(c: char) -> bool {
    c == ' ' || c == '\t'
}

/// Characters allowed in a bare (unquoted) key.
pub open spec fn is_bare_char(c: char) -> bool {
    (97 <= c as u32 && c as u32 <= 122) || (65 <= c as u32 && c as u32 <= 90) || (48 <= c as u32
        && c as u32 <= 57) || c == '_' || c == '-'
}

/// Decimal digits.
pub open spec fn is_digit(c: char) -> bool {
    48 <= c as u32 && c as u32 <= 57
}

/// Characters that may occur in a number token.
pub open spec fn is_num_char(c: char) -> bool {
    is_digit(c) || c == '+' || c == '-' || c == '.' || c == 'e' || c == 'E' || c == 'i' || c == 'n'
        || c == 'f' || c == 'a'
}

/// Characters that end a plain (unquoted) token.
pub open spec fn is_tok_end(c: char) -> bool {
    is_ws(c) || c == ',' || c == ']' || c == '}'
}

/// The literal text of a float value: nonempty, number characters only, a
/// plausible first character, and at least one character that no integer
/// literal contains, so the two never collide.
pub open spec fn float_lit_wf(s: Seq<char>) -> bool {
    &&& s.len() > 0
    &&& forall|i: int| 0 <= i < s.len() ==> is_num_char(#[trigger] s[i])
    &&& (is_digit(s[0]) || s[0] == '-' || s[0] == '+' || s[0] == 'i' || s[0] == 'n')
    &&& exists|i: int|
        0 <= i < s.len() && ((#[trigger] s[i]) == '.' || s[i] == 'e' || s[i] == 'E' || s[i] == 'i'
            || s[i] == 'n')
}

/// The text of an integer literal: an optional minus sign, then digits.
pub open spec fn int_lit_wf(s: Seq<char>) -> bool {
    if s.len() > 0 && s[0] == '-' {
        s.len() > 1 && forall|i: int| 1 <= i < s.len() ==> is_digit(#[trigger] s[i])
    } else {
        s.len() > 0 && forall|i: int| 0 <= i < s.len() ==> is_digit(#[trigger] s[i])
    }
}

/// The escape sequence that stands for one character inside a quoted
/// string, or the character itself when none is needed.
pub open spec fn esc_char(c: char) -> Seq<char> {
    if c == '"' {
        seq!['\\', '"']
    } else if c == '\\' {
        seq!['\\', '\\']
    } else if c == '\n' {
        seq!['\\', 'n']
    } else if c == '\r' {
        seq!['\\', 'r']
    } else if c == '\t' {
        seq!['\\', 't']
    } else {
        seq![c]
    }
}

/// A string's characters with every quote, backslash, newline, carriage
/// return and tab escaped.
pub open spec fn esc_str(s: Seq<char>) -> Seq<char>
    decreases s.len(),
{
    if s.len() == 0 {
        Seq::empty()
    } else {
        esc_str(s.drop_last()) + esc_char(s.last())
    }
}

/// The character an escape letter stands for.
pub open spec fn unesc(c: char) -> Option<char> {
    if c == '"' {
        Option::Some('"')
    } else if c == '\\' {
        Option::Some('\\')
    } else if c == 'n' {
        Option::Some('\n')
    } else if c == 'r' {
        Option::Some('\r')
    } else if c == 't' {
        Option::Some('\t')
    } else {
        Option::None
    }
}

/// Read a quoted string's body: `s` starts right after the opening quote;
/// the result is the decoded content and what follows the closing quote.
pub open spec fn parse_qstr(s: Seq<char>) -> Option<(Seq<char>, Seq<char>)>
    decreases s.len(),
{
    if s.len() == 0 {
        Option::None
    } else if s[0] == '"' {
        Option::Some((Seq::empty(), s.subrange(1, s.len() as int)))
    } else if s[0] == '\\' {
        if s.len() < 2 {
            Option::None
        } else {
            match unesc(s[1]) {
                Option::None => Option::None,
                Option::Some(c) => match parse_qstr(s.subrange(2, s.len() as int)) {
                    Option::None => Option::None,
                    Option::Some((content, rest)) => Option::Some(
                        (seq![c] + content, rest),
                    ),
                },
            }
        }
    } else if s[0] == '\n' || s[0] == '\r' {
        Option::None
    } else {
        match parse_qstr(s.subrange(1, s.len() as int)) {
            Option::None => Option::None,
            Option::Some((content, rest)) => Option::Some((seq![s[0]] + content, rest)),
        }
    }
}

/// Reading a quoted body always consumes at least the closing quote.
pub proof fn lemma_parse_qstr_consumes(s: Seq<char>)
    ensures
        parse_qstr(s) matches Option::Some(p) ==> p.1.len() < s.len(),
    decreases s.len(),
{
    if s.len() > 0 && s[0] != '"' {
        if s[0] == '\\' {
            if s.len() >= 2 {
                lemma_parse_qstr_consumes(s.subrange(2, s.len() as int));
            }
        } else if s[0] != '\n' && s[0] != '\r' {
            lemma_parse_qstr_consumes(s.subrange(1, s.len() as int));
        }
    }
}

/// Reading back an escaped string yields the original characters and leaves
/// exactly what followed the closing quote.
pub proof fn lemma_qstr_round_trip(s: Seq<char>, rest: Seq<char>)
    ensures
        parse_qstr(esc_str(s) + seq!['"'] + rest) == Option::Some((s, rest)),
    decreases s.len(),
{
    let input = esc_str(s) + seq!['"'] + rest;
    if s.len() == 0 {
        assert(esc_str(s) =~= Seq::<char>::empty());
        assert(input[0] == '"');
        assert(input.subrange(1, input.len() as int) =~= rest);
    } else {
        // peel the first character of s off the front of the escaped text
        let c0 = s[0];
        let tail = s.subrange(1, s.len() as int);
        lemma_esc_str_unfold_front(s);
        assert(esc_str(s) == esc_char(c0) + esc_str(tail));
        lemma_qstr_round_trip(tail, rest);
        if c0 == '"' || c0 == '\\' || c0 == '\n' || c0 == '\r' || c0 == '\t' {
            assert(esc_char(c0).len() == 2);
            assert(input[0] == '\\');
            assert(input.len() >= 2);
            assert(unesc(input[1]) == Option::Some(c0));
            assert(input.subrange(2, input.len() as int) =~= esc_str(tail) + seq!['"'] + rest);
            assert(seq![c0] + tail =~= s);
        } else {
            assert(esc_char(c0) =~= seq![c0]);
            assert(input[0] == c0);
            assert(input[0] != '"' && input[0] != '\\' && input[0] != '\n' && input[0] != '\r');
            assert(input.subrange(1, input.len() as int) =~= esc_str(tail) + seq!['"'] + rest);
            assert(seq![c0] + tail =~= s);
        }
    }
}

/// Escaping a string is the same whether done from the front or the back.
pub proof fn lemma_esc_str_unfold_front(s: Seq<char>)
    requires
        s.len() > 0,
    ensures
        esc_str(s) == esc_char(s[0]) + esc_str(s.subrange(1, s.len() as int)),
    decreases s.len(),
{
    let tail = s.subrange(1, s.len() as int);
    if s.len() == 1 {
        assert(s.drop_last() =~= Seq::<char>::empty());
        assert(tail =~= Seq::<char>::empty());
        assert(esc_str(s) =~= esc_char(s[0]) + esc_str(tail));
    } else {
        assert(s.drop_last()[0] == s[0]);
        lemma_esc_str_unfold_front(s.drop_last());
        assert(tail.drop_last() =~= s.drop_last().subrange(1, s.len() - 1));
        assert(tail.last() == s.last());
        assert(esc_str(s) == esc_str(s.drop_last()) + esc_char(s.last()));
        assert(esc_str(s.drop_last()) == esc_char(s[0]) + esc_str(tail.drop_last()));
        assert(esc_str(tail) == esc_str(tail.drop_last()) + esc_char(tail.last()));
        assert(esc_str(s) =~= esc_char(s[0]) + esc_str(tail));
    }
}

/// The numeric value of one digit character.
pub open spec fn digit_val(c: char) -> nat {
    if is_digit(c) {
        (c as u32 - 48) as nat
    } else {
        0
    }
}

/// The value of a digit string, most significant digit first.
pub open spec fn digits_val(s: Seq<char>) -> nat
    decreases s.len(),
{
    if s.len() == 0 {
        0
    } else {
        digits_val(s.drop_last()) * 10 + digit_val(s.last())
    }
}

/// The value of an integer literal.
pub open spec fn int_val(s: Seq<char>) -> int {
    if s.len() > 0 && s[0] == '-' {
        -(digits_val(s.subrange(1, s.len() as int)) as int)
    } else {
        digits_val(s) as int
    }
}

/// Printing a number gives digits, and reading them back gives the number.
pub proof fn lemma_dec_digits(n: nat)
    ensures
        crate::strutil::dec_digits(n).len() > 0,
        forall|i: int|
            0 <= i < crate::strutil::dec_digits(n).len() ==> is_digit(
                #[trigger] crate::strutil::dec_digits(n)[i],
            ),
        digits_val(crate::strutil::dec_digits(n)) == n,
    decreases n,
{
    let d = crate::strutil::dec_digits(n);
    if n < 10 {
        assert(d =~= seq![crate::strutil::digit_char(n)]);
        assert(d.drop_last() =~= Seq::<char>::empty());
        assert(digits_val(Seq::<char>::empty()) == 0);
        assert(d.last() == crate::strutil::digit_char(n));
        assert(digits_val(d) == digit_val(crate::strutil::digit_char(n)));
        assert(digit_val(crate::strutil::digit_char(n)) == n);
    } else {
        lemma_dec_digits(n / 10);
        let dd = crate::strutil::dec_digits(n / 10);
        assert(d =~= dd + seq![crate::strutil::digit_char(n % 10)]);
        assert(d.drop_last() =~= dd);
        assert(d.last() == crate::strutil::digit_char(n % 10));
        assert(digit_val(crate::strutil::digit_char(n % 10)) == n % 10);
        assert(digits_val(d) == (n / 10) * 10 + n % 10);
        assert((n / 10) * 10 + n % 10 == n) by (nonlinear_arith);
    }
}

/// Printing an integer gives an integer literal that reads back to it.
pub proof fn lemma_dec_int_str(i: int)
    ensures
        int_lit_wf(crate::strutil::dec_int_str(i)),
        int_val(crate::strutil::dec_int_str(i)) == i,
        forall|j: int|
            0 <= j < crate::strutil::dec_int_str(i).len() ==> is_digit(
                #[trigger] crate::strutil::dec_int_str(i)[j],
            ) || crate::strutil::dec_int_str(i)[j] == '-',
{
    let s = crate::strutil::dec_int_str(i);
    if i < 0 {
        lemma_dec_digits((-i) as nat);
        let d = crate::strutil::dec_digits((-i) as nat);
        assert(s =~= seq!['-'] + d);
        assert(s[0] == '-');
        assert(s.subrange(1, s.len() as int) =~= d);
        assert(!is_digit('-'));
    } else {
        lemma_dec_digits(i as nat);
        assert(s =~= crate::strutil::dec_digits(i as nat));
        assert(is_digit(s[0]));
        assert(s[0] != '-');
    }
}

/// The keyword `true`.
pub open spec fn is_kw_true(t: Seq<char>) -> bool {
    t.len() == 4 && t[0] == 't' && t[1] == 'r' && t[2] == 'u' && t[3] == 'e'
}

/// The keyword `false`.
pub open spec fn is_kw_false(t: Seq<char>) -> bool {
    t.len() == 5 && t[0] == 'f' && t[1] == 'a' && t[2] == 'l' && t[3] == 's' && t[4] == 'e'
}

/// The value a plain token stands for: a keyword, an integer that fits a
/// 64-bit signed machine word, or a float literal.
pub open spec fn token_value(t: Seq<char>) -> Option<ItemV> {
    if is_kw_true(t) {
        Option::Some(ItemV::Bool(true))
    } else if is_kw_false(t) {
        Option::Some(ItemV::Bool(false))
    } else if int_lit_wf(t) {
        if i64::MIN <= int_val(t) <= i64::MAX {
            Option::Some(ItemV::I64(int_val(t)))
        } else {
            Option::None
        }
    } else if float_lit_wf(t) {
        Option::Some(ItemV::F64(t))
    } else {
        Option::None
    }
}

/// How many characters the plain token at the front of `s` spans.
pub open spec fn tok_len(s: Seq<char>) -> int
    decreases s.len(),
{
    if s.len() == 0 || is_tok_end(s[0]) {
        0
    } else {
        1 + tok_len(s.subrange(1, s.len() as int))
    }
}

pub proof fn lemma_tok_len_bounds(s: Seq<char>)
    ensures
        0 <= tok_len(s) <= s.len(),
        forall|i: int| 0 <= i < tok_len(s) ==> !is_tok_end(#[trigger] s[i]),
        tok_len(s) < s.len() ==> is_tok_end(s[tok_len(s)]),
    decreases s.len(),
{
    if s.len() > 0 && !is_tok_end(s[0]) {
        let tail = s.subrange(1, s.len() as int);
        lemma_tok_len_bounds(tail);
        assert forall|i: int| 0 <= i < tok_len(s) implies !is_tok_end(#[trigger] s[i]) by {
            if i > 0 {
                assert(tail[i - 1] == s[i]);
                assert(!is_tok_end(tail[i - 1]));
            }
        }
        if tok_len(s) < s.len() {
            assert(tail[tok_len(s) - 1] == s[tok_len(s)]);
        }
    }
}

/// A token made of non-ending characters, followed by an ending character
/// (or nothing), spans exactly itself.
pub proof fn lemma_tok_len_exact(t: Seq<char>, rest: Seq<char>)
    requires
        forall|i: int| 0 <= i < t.len() ==> !is_tok_end(#[trigger] t[i]),
        rest.len() == 0 || is_tok_end(rest[0]),
    ensures
        tok_len(t + rest) == t.len(),
    decreases t.len(),
{
    let s = t + rest;
    if t.len() == 0 {
        assert(s =~= rest);
    } else {
        assert(s[0] == t[0]);
        assert(!is_tok_end(s[0]));
        let t1 = t.subrange(1, t.len() as int);
        assert(s.subrange(1, s.len() as int) =~= t1 + rest);
        assert(forall|i: int| 0 <= i < t1.len() ==> t1[i] == t[i + 1]);
        lemma_tok_len_exact(t1, rest);
    }
}

/// Read one scalar value from the front of `s`: a quoted string, or a plain
/// token. Returns the value and what follows it.
pub open spec fn parse_scalar(s: Seq<char>) -> Option<(ItemV, Seq<char>)> {
    if s.len() == 0 {
        Option::None
    } else if s[0] == '"' {
        match parse_qstr(s.subrange(1, s.len() as int)) {
            Option::None => Option::None,
            Option::Some((content, rest)) => Option::Some((ItemV::Str(content), rest)),
        }
    } else {
        let n = tok_len(s);
        if n == 0 {
            Option::None
        } else {
            match token_value(s.subrange(0, n)) {
                Option::None => Option::None,
                Option::Some(v) => Option::Some((v, s.subrange(n, s.len() as int))),
            }
        }
    }
}

/// Reading a scalar consumes at least one character.
pub proof fn lemma_parse_scalar_consumes(s: Seq<char>)
    ensures
        parse_scalar(s) matches Option::Some(p) ==> p.1.len() < s.len(),
{
    if s.len() > 0 {
        if s[0] == '"' {
            lemma_parse_qstr_consumes(s.subrange(1, s.len() as int));
        } else {
            lemma_tok_len_bounds(s);
        }
    }
}

/// The scalars the writer can print: strings, machine-range integers,
/// well-formed float literals, and booleans.
pub open spec fn scalar_ok(v: ItemV) -> bool {
    match v {
        ItemV::Str(_) => true,
        ItemV::I64(i) => i64::MIN <= i <= i64::MAX,
        ItemV::F64(t) => float_lit_wf(t),
        ItemV::Bool(_) => true,
        _ => false,
    }
}

/// The text of one scalar value.
pub open spec fn scalar_text(v: ItemV) -> Seq<char> {
    match v {
        ItemV::Str(x) => seq!['"'] + esc_str(x) + seq!['"'],
        ItemV::I64(i) => crate::strutil::dec_int_str(i),
        ItemV::F64(t) => t,
        ItemV::Bool(b) => if b {
            seq!['t', 'r', 'u', 'e']
        } else {
            seq!['f', 'a', 'l', 's', 'e']
        },
        _ => Seq::empty(),
    }
}

/// A printed scalar reads back as itself, leaving exactly what followed it,
/// as long as what follows cannot extend the token.
pub proof fn lemma_scalar_round_trip(v: ItemV, rest: Seq<char>)
    requires
        scalar_ok(v),
        rest.len() == 0 || is_tok_end(rest[0]),
    ensures
        parse_scalar(scalar_text(v) + rest) == Option::Some((v, rest)),
{
    let s = scalar_text(v) + rest;
    match v {
        ItemV::Str(x) => {
            assert(s[0] == '"');
            assert(s.subrange(1, s.len() as int) =~= esc_str(x) + seq!['"'] + rest);
            lemma_qstr_round_trip(x, rest);
        },
        ItemV::I64(i) => {
            let t = crate::strutil::dec_int_str(i);
            lemma_dec_int_str(i);
            assert(forall|j: int| 0 <= j < t.len() ==> !is_tok_end(#[trigger] t[j]));
            lemma_tok_len_exact(t, rest);
            assert(s[0] == t[0]);
            assert(s[0] != '"');
            assert(tok_len(s) == t.len());
            assert(s.subrange(0, t.len() as int) =~= t);
            assert(s.subrange(t.len() as int, s.len() as int) =~= rest);
            // the token is an integer literal, not a keyword
            assert(!is_kw_true(t) && !is_kw_false(t)) by {
                assert(is_digit(t[0]) || t[0] == '-');
            }
        },
        ItemV::F64(t) => {
            assert(forall|j: int| 0 <= j < t.len() ==> !is_tok_end(#[trigger] t[j]));
            lemma_tok_len_exact(t, rest);
            assert(s[0] == t[0]);
            assert(s[0] != '"');
            assert(tok_len(s) == t.len());
            assert(s.subrange(0, t.len() as int) =~= t);
            assert(s.subrange(t.len() as int, s.len() as int) =~= rest);
            assert(!is_kw_true(t) && !is_kw_false(t)) by {
                assert(is_digit(t[0]) || t[0] == '-' || t[0] == '+' || t[0] == 'i' || t[0] == 'n');
            }
            assert(!int_lit_wf(t)) by {
                let i = choose|i: int|
                    0 <= i < t.len() && ((#[trigger] t[i]) == '.' || t[i] == 'e' || t[i] == 'E'
                        || t[i] == 'i' || t[i] == 'n');
                if int_lit_wf(t) {
                    if t[0] == '-' {
                        if i == 0 {
                            assert(false);
                        } else {
                            assert(is_digit(t[i]));
                            assert(false);
                        }
                    } else {
                        assert(is_digit(t[i]));
                        assert(false);
                    }
                }
            }
        },
        ItemV::Bool(b) => {
            let t = scalar_text(v);
            assert(forall|j: int| 0 <= j < t.len() ==> !is_tok_end(#[trigger] t[j]));
            lemma_tok_len_exact(t, rest);
            assert(s[0] == t[0]);
            assert(s[0] != '"');
            assert(tok_len(s) == t.len());
            assert(s.subrange(0, t.len() as int) =~= t);
            assert(s.subrange(t.len() as int, s.len() as int) =~= rest);
        },
        _ => {
            assert(false);
        },
    }
}

/// How many leading characters of `s` are bare-key characters.
pub open spec fn bare_len(s: Seq<char>) -> int
    decreases s.len(),
{
    if s.len() == 0 || !is_bare_char(s[0]) {
        0
    } else {
        1 + bare_len(s.subrange(1, s.len() as int))
    }
}

pub proof fn lemma_bare_len_bounds(s: Seq<char>)
    ensures
        0 <= bare_len(s) <= s.len(),
        forall|i: int| 0 <= i < bare_len(s) ==> is_bare_char(#[trigger] s[i]),
        bare_len(s) < s.len() ==> !is_bare_char(s[bare_len(s)]),
    decreases s.len(),
{
    if s.len() > 0 && is_bare_char(s[0]) {
        let tail = s.subrange(1, s.len() as int);
        lemma_bare_len_bounds(tail);
        assert forall|i: int| 0 <= i < bare_len(s) implies is_bare_char(#[trigger] s[i]) by {
            if i > 0 {
                assert(tail[i - 1] == s[i]);
                assert(is_bare_char(tail[i - 1]));
            }
        }
        if bare_len(s) < s.len() {
            assert(tail[bare_len(s) - 1] == s[bare_len(s)]);
        }
    }
}

pub proof fn lemma_bare_len_exact(t: Seq<char>, rest: Seq<char>)
    requires
        forall|i: int| 0 <= i < t.len() ==> is_bare_char(#[trigger] t[i]),
        rest.len() == 0 || !is_bare_char(rest[0]),
    ensures
        bare_len(t + rest) == t.len(),
    decreases t.len(),
{
    let s = t + rest;
    if t.len() == 0 {
        assert(s =~= rest);
    } else {
        assert(s[0] == t[0]);
        let t1 = t.subrange(1, t.len() as int);
        assert(s.subrange(1, s.len() as int) =~= t1 + rest);
        assert(forall|i: int| 0 <= i < t1.len() ==> t1[i] == t[i + 1]);
        lemma_bare_len_exact(t1, rest);
    }
}

/// Read a key from the front of `s`: bare or quoted. Returns the key and
/// what follows it.
pub open spec fn parse_key(s: Seq<char>) -> Option<(Seq<char>, Seq<char>)> {
    if s.len() == 0 {
        Option::None
    } else if s[0] == '"' {
        parse_qstr(s.subrange(1, s.len() as int))
    } else {
        let n = bare_len(s);
        if n == 0 {
            Option::None
        } else {
            Option::Some((s.subrange(0, n), s.subrange(n, s.len() as int)))
        }
    }
}

/// Whether a key can be written without quotes.
pub open spec fn key_is_bare(k: Seq<char>) -> bool {
    k.len() > 0 && forall|i: int| 0 <= i < k.len() ==> is_bare_char(#[trigger] k[i])
}

/// The written form of a key: bare when possible, quoted otherwise.
pub open spec fn key_text(k: Seq<char>) -> Seq<char> {
    if key_is_bare(k) {
        k
    } else {
        seq!['"'] + esc_str(k) + seq!['"']
    }
}

/// Reading a key consumes at least one character.
pub proof fn lemma_parse_key_consumes(s: Seq<char>)
    ensures
        parse_key(s) matches Option::Some(p) ==> p.1.len() < s.len(),
{
    if s.len() > 0 {
        if s[0] == '"' {
            lemma_parse_qstr_consumes(s.subrange(1, s.len() as int));
        } else {
            lemma_bare_len_bounds(s);
        }
    }
}

/// A printed key reads back as itself, as long as what follows cannot
/// extend a bare key.
pub proof fn lemma_key_round_trip(k: Seq<char>, rest: Seq<char>)
    requires
        rest.len() == 0 || !is_bare_char(rest[0]),
    ensures
        parse_key(key_text(k) + rest) == Option::Some((k, rest)),
{
    let s = key_text(k) + rest;
    if key_is_bare(k) {
        assert(s[0] == k[0]);
        assert(is_bare_char(s[0]));
        assert(s[0] != '"');
        lemma_bare_len_exact(k, rest);
        assert(s.subrange(0, k.len() as int) =~= k);
        assert(s.subrange(k.len() as int, s.len() as int) =~= rest);
    } else {
        assert(s[0] == '"');
        assert(s.subrange(1, s.len() as int) =~= esc_str(k) + seq!['"'] + rest);
        lemma_qstr_round_trip(k, rest);
    }
}

/// How many leading characters of `s` are horizontal whitespace.
pub open spec fn ws_len(s: Seq<char>) -> int
    decreases s.len(),
{
    if s.len() == 0 || !is_ws(s[0]) {
        0
    } else {
        1 + ws_len(s.subrange(1, s.len() as int))
    }
}

/// `s` without its leading whitespace.
pub open spec fn skip_ws(s: Seq<char>) -> Seq<char> {
    s.subrange(ws_len(s), s.len() as int)
}

pub proof fn lemma_ws_len_bounds(s: Seq<char>)
    ensures
        0 <= ws_len(s) <= s.len(),
        skip_ws(s).len() <= s.len(),
        skip_ws(s).len() > 0 ==> !is_ws(skip_ws(s)[0]),
    decreases s.len(),
{
    if s.len() > 0 && is_ws(s[0]) {
        let tail = s.subrange(1, s.len() as int);
        lemma_ws_len_bounds(tail);
        assert(skip_ws(s) =~= skip_ws(tail));
    } else {
        assert(skip_ws(s) =~= s);
    }
}

/// Skipping whitespace after whitespace-only padding lands right on what
/// follows, as long as it does not itself start with whitespace.
pub proof fn lemma_skip_ws_exact(pre: Seq<char>, rest: Seq<char>)
    requires
        forall|i: int| 0 <= i < pre.len() ==> is_ws(#[trigger] pre[i]),
        rest.len() == 0 || !is_ws(rest[0]),
    ensures
        skip_ws(pre + rest) == rest,
    decreases pre.len(),
{
    let s = pre + rest;
    if pre.len() == 0 {
        assert(s =~= rest);
        assert(skip_ws(s) =~= rest);
    } else {
        assert(s[0] == pre[0]);
        let p1 = pre.subrange(1, pre.len() as int);
        assert(s.subrange(1, s.len() as int) =~= p1 + rest);
        assert(forall|i: int| 0 <= i < p1.len() ==> p1[i] == pre[i + 1]);
        lemma_skip_ws_exact(p1, rest);
        lemma_ws_len_bounds(s);
        lemma_ws_len_bounds(p1 + rest);
        assert(ws_len(s) == 1 + ws_len(p1 + rest));
        assert(skip_ws(s) =~= skip_ws(p1 + rest));
    }
}

/// Read the elements of an inline list, after the opening bracket: scalars
/// separated by commas, closed by a bracket; a trailing comma is allowed.
pub open spec fn parse_list_elems(s: Seq<char>) -> Option<(Seq<ItemV>, Seq<char>)>
    decreases s.len(),
    via parse_list_elems_dec
{
    let s1 = skip_ws(s);
    if s1.len() == 0 {
        Option::None
    } else if s1[0] == ']' {
        Option::Some((Seq::empty(), s1.subrange(1, s1.len() as int)))
    } else {
        match parse_scalar(s1) {
            Option::None => Option::None,
            Option::Some((v, after)) => {
                let r1 = skip_ws(after);
                if r1.len() == 0 {
                    Option::None
                } else if r1[0] == ',' {
                    match parse_list_elems(r1.subrange(1, r1.len() as int)) {
                        Option::None => Option::None,
                        Option::Some((tail, rest)) => Option::Some((seq![v] + tail, rest)),
                    }
                } else if r1[0] == ']' {
                    Option::Some((seq![v], r1.subrange(1, r1.len() as int)))
                } else {
                    Option::None
                }
            },
        }
    }
}

#[via_fn]
proof fn parse_list_elems_dec(s: Seq<char>) {
    lemma_ws_len_bounds(s);
    let s1 = skip_ws(s);
    if s1.len() > 0 && s1[0] != ']' {
        lemma_parse_scalar_consumes(s1);
        if let Option::Some((v, after)) = parse_scalar(s1) {
            lemma_ws_len_bounds(after);
        }
    }
}

/// Read the entries of an inline table, after the opening brace:
/// `key = scalar` pairs separated by commas, closed by a brace; a repeated
/// key is an error.
pub open spec fn parse_dict_elems(s: Seq<char>) -> Option<
    (Seq<(Seq<char>, ItemV)>, Seq<char>),
>
    decreases s.len(),
    via parse_dict_elems_dec
{
    let s1 = skip_ws(s);
    if s1.len() == 0 {
        Option::None
    } else if s1[0] == '}' {
        Option::Some((Seq::empty(), s1.subrange(1, s1.len() as int)))
    } else {
        match parse_key(s1) {
            Option::None => Option::None,
            Option::Some((k, kr)) => {
                let r1 = skip_ws(kr);
                if r1.len() == 0 || r1[0] != '=' {
                    Option::None
                } else {
                    let r2 = skip_ws(r1.subrange(1, r1.len() as int));
                    match parse_scalar(r2) {
                        Option::None => Option::None,
                        Option::Some((v, after)) => {
                            let r3 = skip_ws(after);
                            if r3.len() == 0 {
                                Option::None
                            } else if r3[0] == ',' {
                                match parse_dict_elems(r3.subrange(1, r3.len() as int)) {
                                    Option::None => Option::None,
                                    Option::Some((tail, rest)) => if tbl_has(tail, k) {
                                        Option::None
                                    } else {
                                        Option::Some((seq![(k, v)] + tail, rest))
                                    },
                                }
                            } else if r3[0] == '}' {
                                Option::Some(
                                    (seq![(k, v)], r3.subrange(1, r3.len() as int)),
                                )
                            } else {
                                Option::None
                            }
                        },
                    }
                }
            },
        }
    }
}

#[via_fn]
proof fn parse_dict_elems_dec(s: Seq<char>) {
    lemma_ws_len_bounds(s);
    let s1 = skip_ws(s);
    if s1.len() > 0 && s1[0] != '}' {
        lemma_parse_key_consumes(s1);
        if let Option::Some((k, kr)) = parse_key(s1) {
            lemma_ws_len_bounds(kr);
            let r1 = skip_ws(kr);
            if r1.len() > 0 && r1[0] == '=' {
                let r1t = r1.subrange(1, r1.len() as int);
                lemma_ws_len_bounds(r1t);
                let r2 = skip_ws(r1t);
                lemma_parse_scalar_consumes(r2);
                if let Option::Some((v, after)) = parse_scalar(r2) {
                    lemma_ws_len_bounds(after);
                }
            }
        }
    }
}

/// Read one whole value: an inline list, an inline table, or a scalar. The
/// entire input must be consumed.
pub open spec fn parse_value(s: Seq<char>) -> Option<ItemV> {
    if s.len() == 0 {
        Option::None
    } else if s[0] == '[' {
        match parse_list_elems(s.subrange(1, s.len() as int)) {
            Option::None => Option::None,
            Option::Some((items, rest)) => if skip_ws(rest).len() == 0 {
                Option::Some(ItemV::List(items))
            } else {
                Option::None
            },
        }
    } else if s[0] == '{' {
        match parse_dict_elems(s.subrange(1, s.len() as int)) {
            Option::None => Option::None,
            Option::Some((entries, rest)) => if skip_ws(rest).len() == 0 {
                Option::Some(ItemV::Dict(entries))
            } else {
                Option::None
            },
        }
    } else {
        match parse_scalar(s) {
            Option::None => Option::None,
            Option::Some((v, rest)) => if skip_ws(rest).len() == 0 {
                Option::Some(v)
            } else {
                Option::None
            },
        }
    }
}

/// The text of a list's elements, comma separated.
pub open spec fn elems_text(items: Seq<ItemV>) -> Seq<char>
    decreases items.len(),
{
    if items.len() == 0 {
        Seq::empty()
    } else if items.len() == 1 {
        scalar_text(items[0])
    } else {
        scalar_text(items[0]) + seq![',', ' '] + elems_text(items.subrange(1, items.len() as int))
    }
}

/// The text of an inline table's entries, comma separated.
pub open spec fn dentries_text(entries: Seq<(Seq<char>, ItemV)>) -> Seq<char>
    decreases entries.len(),
{
    if entries.len() == 0 {
        Seq::empty()
    } else if entries.len() == 1 {
        key_text(entries[0].0) + seq![' ', '=', ' '] + scalar_text(entries[0].1)
    } else {
        key_text(entries[0].0) + seq![' ', '=', ' '] + scalar_text(entries[0].1) + seq![',', ' ']
            + dentries_text(entries.subrange(1, entries.len() as int))
    }
}

/// The text of one whole value.
pub open spec fn value_text(v: ItemV) -> Seq<char> {
    match v {
        ItemV::List(items) => seq!['['] + elems_text(items) + seq![']'],
        ItemV::Dict(entries) => seq!['{'] + dentries_text(entries) + seq!['}'],
        _ => scalar_text(v),
    }
}

/// The values the writer can print as one value: scalars of printable
/// shape, and lists and tables of them, table keys distinct.
pub open spec fn value_ok(v: ItemV) -> bool {
    match v {
        ItemV::List(items) => forall|i: int| 0 <= i < items.len() ==> scalar_ok(#[trigger] items[i]),
        ItemV::Dict(entries) => (forall|i: int|
            0 <= i < entries.len() ==> scalar_ok((#[trigger] entries[i]).1)) && tbl_distinct(
            entries,
        ),
        _ => scalar_ok(v),
    }
}

/// Whether one scalar is printable: integers fit the machine word and
/// float literals are well formed.
pub open spec fn sc_ok(v: ItemV) -> bool {
    match v {
        ItemV::I64(i) => i64::MIN <= i <= i64::MAX,
        ItemV::F64(t) => float_lit_wf(t),
        _ => true,
    }
}

/// Whether a value's scalars are printable and its tables have distinct
/// keys, at every level the supported shape can hold.
pub open spec fn tv_ok(v: ItemV) -> bool {
    sc_ok(v) && match v {
        ItemV::List(items) => forall|i: int| 0 <= i < items.len() ==> sc_ok(#[trigger] items[i]),
        ItemV::Dict(es) => tbl_distinct(es) && forall|i: int|
            0 <= i < es.len() ==> sc_ok((#[trigger] es[i]).1),
        _ => true,
    }
}

/// Whether every value of a table is printable.
pub open spec fn table_values_ok(t: Seq<(Seq<char>, ItemV)>) -> bool {
    forall|i: int| 0 <= i < t.len() ==> tv_ok((#[trigger] t[i]).1)
}

/// A printed list body reads back as its elements.
#[verifier::rlimit(60)]
proof fn lemma_list_elems_round_trip(items: Seq<ItemV>, rest: Seq<char>)
    requires
        forall|i: int| 0 <= i < items.len() ==> scalar_ok(#[trigger] items[i]),
        rest.len() == 0 || !is_ws(rest[0]),
    ensures
        parse_list_elems(elems_text(items) + seq![']'] + rest) == Option::Some((items, rest)),
    decreases items.len(),
{
    let input = elems_text(items) + seq![']'] + rest;
    if items.len() == 0 {
        assert(input =~= seq![']'] + rest);
        assert(input[0] == ']');
        assert(!is_ws(input[0]));
        assert(skip_ws(input) =~= input);
        assert(input.subrange(1, input.len() as int) =~= rest);
    } else {
        let v0 = items[0];
        let t0 = scalar_text(v0);
        assert(scalar_ok(v0));
        // the first character of a printed scalar is never whitespace
        lemma_scalar_text_first(v0);
        if items.len() == 1 {
            assert(input =~= t0 + (seq![']'] + rest));
            lemma_scalar_round_trip(v0, seq![']'] + rest);
            assert(skip_ws(input) =~= input) by {
                assert(input[0] == t0[0]);
            }
            let after = seq![']'] + rest;
            assert(skip_ws(after) =~= after);
            assert(after[0] == ']');
            assert(after.subrange(1, after.len() as int) =~= rest);
            assert(seq![v0] =~= items);
        } else {
            let tail = items.subrange(1, items.len() as int);
            let after = seq![',', ' '] + elems_text(tail) + seq![']'] + rest;
            assert(input =~= t0 + after);
            lemma_scalar_round_trip(v0, after);
            assert(skip_ws(input) =~= input) by {
                assert(input[0] == t0[0]);
            }
            assert(skip_ws(after) =~= after);
            assert(after[0] == ',');
            let after1 = after.subrange(1, after.len() as int);
            assert(after1 =~= seq![' '] + (elems_text(tail) + seq![']'] + rest));
            assert(forall|i: int| 0 <= i < tail.len() ==> tail[i] == items[i + 1]);
            lemma_list_elems_round_trip(tail, rest);
            let inner = elems_text(tail) + seq![']'] + rest;
            lemma_elems_text_first(tail);
            lemma_skip_ws_exact(seq![' '], inner);
            assert(skip_ws(after1) == inner);
            assert(inner[0] == ']' || !is_ws(inner[0])) by {
                if elems_text(tail).len() > 0 {
                    assert(inner[0] == elems_text(tail)[0]);
                } else {
                    assert(inner =~= seq![']'] + rest);
                }
            }
            assert(skip_ws(inner) =~= inner);
            // one whitespace skip happens inside the recursive call
            lemma_parse_list_elems_skip(after1, inner);
            assert(seq![v0] + tail =~= items);
        }
    }
}

/// Skipping leading whitespace does not change what a list body parses to.
proof fn lemma_parse_list_elems_skip(s: Seq<char>, t: Seq<char>)
    requires
        skip_ws(s) == skip_ws(t),
    ensures
        parse_list_elems(s) == parse_list_elems(t),
{
}

proof fn lemma_parse_dict_elems_skip(s: Seq<char>, t: Seq<char>)
    requires
        skip_ws(s) == skip_ws(t),
    ensures
        parse_dict_elems(s) == parse_dict_elems(t),
{
}

/// The first character of a printed scalar: a quote, digit, sign or letter,
/// never whitespace, a bracket or a comma.
proof fn lemma_scalar_text_first(v: ItemV)
    requires
        scalar_ok(v),
    ensures
        scalar_text(v).len() > 0,
        !is_ws(scalar_text(v)[0]),
        scalar_text(v)[0] != ']',
        scalar_text(v)[0] != ',',
        scalar_text(v)[0] != '}',
{
    match v {
        ItemV::Str(_) => {},
        ItemV::I64(i) => {
            lemma_dec_int_str(i);
        },
        ItemV::F64(_) => {},
        ItemV::Bool(_) => {},
        _ => {},
    }
}

/// The first character of a printed list body, when there is one.
proof fn lemma_elems_text_first(items: Seq<ItemV>)
    requires
        forall|i: int| 0 <= i < items.len() ==> scalar_ok(#[trigger] items[i]),
    ensures
        elems_text(items).len() > 0 ==> !is_ws(elems_text(items)[0]),
{
    if items.len() > 0 {
        lemma_scalar_text_first(items[0]);
        if items.len() == 1 {
        } else {
            assert(elems_text(items)[0] == scalar_text(items[0])[0]);
        }
    }
}

/// A printed inline table body reads back as its entries.
#[verifier::rlimit(60)]
proof fn lemma_dict_elems_round_trip(entries: Seq<(Seq<char>, ItemV)>, rest: Seq<char>)
    requires
        forall|i: int| 0 <= i < entries.len() ==> scalar_ok((#[trigger] entries[i]).1),
        tbl_distinct(entries),
        rest.len() == 0 || !is_ws(rest[0]),
    ensures
        parse_dict_elems(dentries_text(entries) + seq!['}'] + rest) == Option::Some(
            (entries, rest),
        ),
    decreases entries.len(),
{
    let input = dentries_text(entries) + seq!['}'] + rest;
    if entries.len() == 0 {
        assert(input =~= seq!['}'] + rest);
        assert(input[0] == '}');
        assert(!is_ws(input[0]));
        assert(skip_ws(input) =~= input);
        assert(input.subrange(1, input.len() as int) =~= rest);
    } else {
        let k0 = entries[0].0;
        let v0 = entries[0].1;
        let kt = key_text(k0);
        lemma_key_text_first(k0);
        lemma_scalar_text_first(v0);
        let vt = scalar_text(v0);
        if entries.len() == 1 {
            let after_key = seq![' ', '=', ' '] + vt + seq!['}'] + rest;
            assert(input =~= kt + after_key);
            lemma_key_round_trip(k0, after_key);
            assert(skip_ws(input) =~= input) by {
                assert(input[0] == kt[0]);
            }
            let r1in = seq!['='] + (seq![' '] + (vt + (seq!['}'] + rest)));
            assert(after_key =~= seq![' '] + r1in);
            lemma_skip_ws_exact(seq![' '], r1in);
            assert(skip_ws(after_key) == r1in);
            assert(r1in[0] == '=');
            let r2pre = r1in.subrange(1, r1in.len() as int);
            assert(r2pre =~= seq![' '] + (vt + (seq!['}'] + rest)));
            let vin = vt + (seq!['}'] + rest);
            lemma_skip_ws_exact(seq![' '], vin);
            assert(skip_ws(r2pre) == vin);
            lemma_scalar_round_trip(v0, seq!['}'] + rest);
            assert(vin =~= vt + (seq!['}'] + rest));
            let after_v = seq!['}'] + rest;
            assert(skip_ws(after_v) =~= after_v);
            assert(after_v[0] == '}');
            assert(after_v.subrange(1, after_v.len() as int) =~= rest);
            assert(seq![(k0, v0)] =~= entries);
        } else {
            let tail = entries.subrange(1, entries.len() as int);
            assert(forall|i: int| 0 <= i < tail.len() ==> tail[i] == entries[i + 1]);
            let inner = dentries_text(tail) + seq!['}'] + rest;
            let after_key = seq![' ', '=', ' '] + vt + seq![',', ' '] + inner;
            assert(input =~= kt + after_key) by {
                assert(dentries_text(entries) =~= kt + seq![' ', '=', ' '] + vt + seq![',', ' ']
                    + dentries_text(tail));
            }
            lemma_key_round_trip(k0, after_key);
            assert(skip_ws(input) =~= input) by {
                assert(input[0] == kt[0]);
            }
            let r1in = seq!['='] + (seq![' '] + (vt + (seq![',', ' '] + inner)));
            assert(after_key =~= seq![' '] + r1in);
            lemma_skip_ws_exact(seq![' '], r1in);
            assert(skip_ws(after_key) == r1in);
            assert(r1in[0] == '=');
            let r2pre = r1in.subrange(1, r1in.len() as int);
            assert(r2pre =~= seq![' '] + (vt + (seq![',', ' '] + inner)));
            let vin = vt + (seq![',', ' '] + inner);
            lemma_skip_ws_exact(seq![' '], vin);
            assert(skip_ws(r2pre) == vin);
            lemma_scalar_round_trip(v0, seq![',', ' '] + inner);
            let after_v = seq![',', ' '] + inner;
            assert(skip_ws(after_v) =~= after_v);
            assert(after_v[0] == ',');
            let after_c = after_v.subrange(1, after_v.len() as int);
            assert(after_c =~= seq![' '] + inner);
            assert(tbl_distinct(tail));
            lemma_dict_elems_round_trip(tail, rest);
            lemma_dentries_text_first(tail);
            assert(inner[0] == '}' || !is_ws(inner[0])) by {
                if dentries_text(tail).len() > 0 {
                    assert(inner[0] == dentries_text(tail)[0]);
                } else {
                    assert(inner =~= seq!['}'] + rest);
                }
            }
            lemma_skip_ws_exact(seq![' '], inner);
            assert(skip_ws(after_c) == inner);
            assert(skip_ws(inner) =~= inner);
            lemma_parse_dict_elems_skip(after_c, inner);
            // the first entry's key is absent from the tail
            assert forall|j: int| 0 <= j < tail.len() implies (#[trigger] tail[j]).0 != k0 by {
                assert(tail[j] == entries[j + 1]);
            }
            lemma_tbl_get_absent(tail, k0);
            assert(seq![(k0, v0)] + tail =~= entries);
        }
    }
}

/// The first character of a printed key is a quote or a bare character.
proof fn lemma_key_text_first(k: Seq<char>)
    ensures
        key_text(k).len() > 0,
        key_text(k)[0] == '"' || is_bare_char(key_text(k)[0]),
        !is_ws(key_text(k)[0]),
        key_text(k)[0] != '[',
        key_text(k)[0] != '#',
        key_text(k)[0] != '{',
{
}

/// The first character of a printed inline-table body, when there is one.
proof fn lemma_dentries_text_first(entries: Seq<(Seq<char>, ItemV)>)
    ensures
        dentries_text(entries).len() > 0 ==> !is_ws(dentries_text(entries)[0]),
{
    if entries.len() > 0 {
        lemma_key_text_first(entries[0].0);
        assert(dentries_text(entries)[0] == key_text(entries[0].0)[0]);
    }
}

/// A printed value reads back as itself.
pub proof fn lemma_value_round_trip(v: ItemV)
    requires
        value_ok(v),
    ensures
        parse_value(value_text(v)) == Option::Some(v),
{
    let s = value_text(v);
    match v {
        ItemV::List(items) => {
            assert(s[0] == '[');
            assert(s.subrange(1, s.len() as int) =~= elems_text(items) + seq![']']
                + Seq::<char>::empty());
            lemma_list_elems_round_trip(items, Seq::empty());
            assert(skip_ws(Seq::<char>::empty()) =~= Seq::<char>::empty());
        },
        ItemV::Dict(entries) => {
            assert(s[0] == '{');
            assert(s.subrange(1, s.len() as int) =~= dentries_text(entries) + seq!['}']
                + Seq::<char>::empty());
            lemma_dict_elems_round_trip(entries, Seq::empty());
            assert(skip_ws(Seq::<char>::empty()) =~= Seq::<char>::empty());
        },
        _ => {
            lemma_scalar_text_first(v);
            assert(s[0] != '[' && s[0] != '{') by {
                match v {
                    ItemV::Str(_) => {},
                    ItemV::I64(i) => {
                        lemma_dec_int_str(i);
                    },
                    _ => {},
                }
            }
            lemma_scalar_round_trip(v, Seq::empty());
            assert(scalar_text(v) + Seq::<char>::empty() =~= s);
            assert(skip_ws(Seq::<char>::empty()) =~= Seq::<char>::empty());
        },
    }
}

/// `s` without its trailing whitespace.
pub open spec fn trim_end(s: Seq<char>) -> Seq<char>
    decreases s.len(),
{
    if s.len() > 0 && is_ws(s.last()) {
        trim_end(s.drop_last())
    } else {
        s
    }
}

/// `s` without leading or trailing whitespace.
pub open spec fn trim(s: Seq<char>) -> Seq<char> {
    trim_end(skip_ws(s))
}

/// A sequence without trailing whitespace is unchanged by trimming its end.
pub proof fn lemma_trim_end_id(s: Seq<char>)
    requires
        s.len() == 0 || !is_ws(s.last()),
    ensures
        trim_end(s) == s,
{
}

/// What one line of a document means.
pub enum LineP {
    /// Empty, whitespace, or a comment.
    Blank,
    /// A `[section]` header.
    Header(Seq<char>),
    /// A `key = value` binding.
    Pair(Seq<char>, ItemV),
    /// Anything else.
    Bad,
}

/// Classify and read one line.
pub open spec fn parse_line(l: Seq<char>) -> LineP {
    let t = trim(l);
    if t.len() == 0 {
        LineP::Blank
    } else if t[0] == '#' {
        LineP::Blank
    } else if t[0] == '[' {
        if t.last() == ']' {
            match parse_key(t.subrange(1, t.len() - 1)) {
                Option::Some((k, kr)) => if kr.len() == 0 {
                    LineP::Header(k)
                } else {
                    LineP::Bad
                },
                Option::None => LineP::Bad,
            }
        } else {
            LineP::Bad
        }
    } else {
        match parse_key(t) {
            Option::None => LineP::Bad,
            Option::Some((k, kr)) => {
                let r1 = skip_ws(kr);
                if r1.len() == 0 || r1[0] != '=' {
                    LineP::Bad
                } else {
                    match parse_value(skip_ws(r1.subrange(1, r1.len() as int))) {
                        Option::None => LineP::Bad,
                        Option::Some(v) => LineP::Pair(k, v),
                    }
                }
            },
        }
    }
}

/// The written form of one binding.
pub open spec fn pair_line(k: Seq<char>, v: ItemV) -> Seq<char> {
    key_text(k) + seq![' ', '=', ' '] + value_text(v)
}

/// The written form of one section header.
pub open spec fn header_line(k: Seq<char>) -> Seq<char> {
    seq!['['] + key_text(k) + seq![']']
}

/// The last character of a printed value is never whitespace.
proof fn lemma_value_text_last(v: ItemV)
    requires
        value_ok(v),
    ensures
        value_text(v).len() > 0,
        !is_ws(value_text(v).last()),
        value_text(v).last() != '\n',
{
    match v {
        ItemV::List(_) => {},
        ItemV::Dict(_) => {},
        ItemV::Str(_) => {},
        ItemV::I64(i) => {
            lemma_dec_int_str(i);
            let t = crate::strutil::dec_int_str(i);
            assert(is_digit(t.last()) || t.last() == '-');
        },
        ItemV::F64(t) => {
            assert(is_num_char(t.last()));
        },
        ItemV::Bool(_) => {},
        _ => {},
    }
}

/// A printed binding line reads back as that binding.
pub proof fn lemma_pair_line_round_trip(k: Seq<char>, v: ItemV)
    requires
        value_ok(v),
    ensures
        parse_line(pair_line(k, v)) == LineP::Pair(k, v),
{
    let l = pair_line(k, v);
    let kt = key_text(k);
    let vt = value_text(v);
    lemma_key_text_first(k);
    lemma_value_text_last(v);
    assert(l[0] == kt[0]);
    assert(!is_ws(l[0]));
    assert(skip_ws(l) =~= l);
    assert(l.last() == vt.last());
    lemma_trim_end_id(l);
    assert(trim(l) == l);
    assert(l[0] != '#' && l[0] != '[');
    let after_key = seq![' ', '=', ' '] + vt;
    assert(l =~= kt + after_key);
    lemma_key_round_trip(k, after_key);
    let r1in = seq!['='] + (seq![' '] + vt);
    assert(after_key =~= seq![' '] + r1in);
    lemma_skip_ws_exact(seq![' '], r1in);
    assert(skip_ws(after_key) == r1in);
    assert(r1in[0] == '=');
    let r2pre = r1in.subrange(1, r1in.len() as int);
    assert(r2pre =~= seq![' '] + vt);
    assert(!is_ws(vt[0])) by {
        match v {
            ItemV::List(_) => {},
            ItemV::Dict(_) => {},
            _ => {
                lemma_scalar_text_first(v);
            },
        }
    }
    lemma_skip_ws_exact(seq![' '], vt);
    assert(skip_ws(r2pre) == vt);
    lemma_value_round_trip(v);
}

/// A printed header line reads back as that header.
pub proof fn lemma_header_line_round_trip(k: Seq<char>)
    ensures
        parse_line(header_line(k)) == LineP::Header(k),
{
    let l = header_line(k);
    lemma_key_text_first(k);
    assert(l[0] == '[');
    assert(!is_ws(l[0]));
    assert(skip_ws(l) =~= l);
    assert(l.last() == ']');
    lemma_trim_end_id(l);
    assert(trim(l) == l);
    assert(l.subrange(1, l.len() - 1) =~= key_text(k) + Seq::<char>::empty());
    lemma_key_round_trip(k, Seq::empty());
    assert(key_text(k) + Seq::<char>::empty() =~= key_text(k));
}

/// No printed binding or header line contains a newline or carriage return.
pub proof fn lemma_printed_lines_single(k: Seq<char>, v: ItemV)
    requires
        value_ok(v),
    ensures
        forall|i: int|
            0 <= i < pair_line(k, v).len() ==> (#[trigger] pair_line(k, v)[i]) != '\n',
        forall|i: int|
            0 <= i < header_line(k).len() ==> (#[trigger] header_line(k)[i]) != '\n',
{
    lemma_key_text_no_nl(k);
    lemma_value_text_no_nl(v);
    let pl = pair_line(k, v);
    assert forall|i: int| 0 <= i < pl.len() implies (#[trigger] pl[i]) != '\n' by {
        let kt = key_text(k);
        if i < kt.len() {
            assert(pl[i] == kt[i]);
        } else if i < kt.len() + 3 {
        } else {
            assert(pl[i] == value_text(v)[i - kt.len() - 3]);
        }
    }
    let hl = header_line(k);
    assert forall|i: int| 0 <= i < hl.len() implies (#[trigger] hl[i]) != '\n' by {
        if 1 <= i < 1 + key_text(k).len() {
            assert(hl[i] == key_text(k)[i - 1]);
        }
    }
}

/// Escaped text never contains a newline.
proof fn lemma_esc_str_no_nl(s: Seq<char>)
    ensures
        forall|i: int| 0 <= i < esc_str(s).len() ==> (#[trigger] esc_str(s)[i]) != '\n',
    decreases s.len(),
{
    if s.len() > 0 {
        lemma_esc_str_no_nl(s.drop_last());
        let e = esc_str(s);
        let ed = esc_str(s.drop_last());
        let ec = esc_char(s.last());
        assert forall|i: int| 0 <= i < e.len() implies (#[trigger] e[i]) != '\n' by {
            if i < ed.len() {
                assert(e[i] == ed[i]);
            } else {
                assert(e[i] == ec[i - ed.len()]);
                assert(ec[0] != '\n' && (ec.len() > 1 ==> ec[1] != '\n'));
            }
        }
    }
}

/// A printed key never contains a newline.
proof fn lemma_key_text_no_nl(k: Seq<char>)
    ensures
        forall|i: int| 0 <= i < key_text(k).len() ==> (#[trigger] key_text(k)[i]) != '\n',
{
    if key_is_bare(k) {
    } else {
        lemma_esc_str_no_nl(k);
        let kt = key_text(k);
        assert forall|i: int| 0 <= i < kt.len() implies (#[trigger] kt[i]) != '\n' by {
            if 1 <= i < 1 + esc_str(k).len() {
                assert(kt[i] == esc_str(k)[i - 1]);
            }
        }
    }
}

/// A printed scalar never contains a newline.
proof fn lemma_scalar_text_no_nl(v: ItemV)
    requires
        scalar_ok(v),
    ensures
        forall|i: int|
            0 <= i < scalar_text(v).len() ==> (#[trigger] scalar_text(v)[i]) != '\n',
{
    match v {
        ItemV::Str(x) => {
            lemma_esc_str_no_nl(x);
            let t = scalar_text(v);
            assert forall|i: int| 0 <= i < t.len() implies (#[trigger] t[i]) != '\n' by {
                if 1 <= i < 1 + esc_str(x).len() {
                    assert(t[i] == esc_str(x)[i - 1]);
                }
            }
        },
        ItemV::I64(i) => {
            lemma_dec_int_str(i);
        },
        ItemV::F64(_) => {},
        ItemV::Bool(_) => {},
        _ => {},
    }
}

/// A printed value never contains a newline.
proof fn lemma_value_text_no_nl(v: ItemV)
    requires
        value_ok(v),
    ensures
        forall|i: int|
            0 <= i < value_text(v).len() ==> (#[trigger] value_text(v)[i]) != '\n',
{
    match v {
        ItemV::List(items) => {
            lemma_elems_text_no_nl(items);
            let t = value_text(v);
            assert forall|i: int| 0 <= i < t.len() implies (#[trigger] t[i]) != '\n' by {
                if 1 <= i < 1 + elems_text(items).len() {
                    assert(t[i] == elems_text(items)[i - 1]);
                }
            }
        },
        ItemV::Dict(entries) => {
            lemma_dentries_text_no_nl(entries);
            let t = value_text(v);
            assert forall|i: int| 0 <= i < t.len() implies (#[trigger] t[i]) != '\n' by {
                if 1 <= i < 1 + dentries_text(entries).len() {
                    assert(t[i] == dentries_text(entries)[i - 1]);
                }
            }
        },
        _ => {
            lemma_scalar_text_no_nl(v);
        },
    }
}

proof fn lemma_elems_text_no_nl(items: Seq<ItemV>)
    requires
        forall|i: int| 0 <= i < items.len() ==> scalar_ok(#[trigger] items[i]),
    ensures
        forall|i: int|
            0 <= i < elems_text(items).len() ==> (#[trigger] elems_text(items)[i]) != '\n',
    decreases items.len(),
{
    if items.len() == 1 {
        lemma_scalar_text_no_nl(items[0]);
    } else if items.len() > 1 {
        lemma_scalar_text_no_nl(items[0]);
        let tail = items.subrange(1, items.len() as int);
        assert(forall|i: int| 0 <= i < tail.len() ==> tail[i] == items[i + 1]);
        lemma_elems_text_no_nl(tail);
        let t = elems_text(items);
        let h = scalar_text(items[0]);
        assert forall|i: int| 0 <= i < t.len() implies (#[trigger] t[i]) != '\n' by {
            if i < h.len() {
                assert(t[i] == h[i]);
            } else if i >= h.len() + 2 {
                assert(t[i] == elems_text(tail)[i - h.len() - 2]);
            }
        }
    }
}

proof fn lemma_dentries_text_no_nl(entries: Seq<(Seq<char>, ItemV)>)
    requires
        forall|i: int| 0 <= i < entries.len() ==> scalar_ok((#[trigger] entries[i]).1),
    ensures
        forall|i: int|
            0 <= i < dentries_text(entries).len() ==> (#[trigger] dentries_text(entries)[i])
                != '\n',
    decreases entries.len(),
{
    if entries.len() >= 1 {
        lemma_key_text_no_nl(entries[0].0);
        lemma_scalar_text_no_nl(entries[0].1);
        let kt = key_text(entries[0].0);
        let vt = scalar_text(entries[0].1);
        let t = dentries_text(entries);
        if entries.len() == 1 {
            assert forall|i: int| 0 <= i < t.len() implies (#[trigger] t[i]) != '\n' by {
                if i < kt.len() {
                    assert(t[i] == kt[i]);
                } else if i >= kt.len() + 3 {
                    assert(t[i] == vt[i - kt.len() - 3]);
                }
            }
        } else {
            let tail = entries.subrange(1, entries.len() as int);
            assert(forall|i: int| 0 <= i < tail.len() ==> tail[i] == entries[i + 1]);
            lemma_dentries_text_no_nl(tail);
            assert forall|i: int| 0 <= i < t.len() implies (#[trigger] t[i]) != '\n' by {
                if i < kt.len() {
                    assert(t[i] == kt[i]);
                } else if kt.len() + 3 <= i < kt.len() + 3 + vt.len() {
                    assert(t[i] == vt[i - kt.len() - 3]);
                } else if i >= kt.len() + 3 + vt.len() + 2 {
                    assert(t[i] == dentries_text(tail)[i - kt.len() - 3 - vt.len() - 2]);
                }
            }
        }
    }
}

/// Lines joined into one text, a newline after each.
pub open spec fn join_lines(ls: Seq<Seq<char>>) -> Seq<char>
    decreases ls.len(),
{
    if ls.len() == 0 {
        Seq::empty()
    } else {
        ls[0] + seq!['\n'] + join_lines(ls.subrange(1, ls.len() as int))
    }
}

/// How many leading characters of `s` come before the first newline.
pub open spec fn first_line_len(s: Seq<char>) -> int
    decreases s.len(),
{
    if s.len() == 0 || s[0] == '\n' {
        0
    } else {
        1 + first_line_len(s.subrange(1, s.len() as int))
    }
}

pub proof fn lemma_first_line_len_bounds(s: Seq<char>)
    ensures
        0 <= first_line_len(s) <= s.len(),
    decreases s.len(),
{
    if s.len() > 0 && s[0] != '\n' {
        lemma_first_line_len_bounds(s.subrange(1, s.len() as int));
    }
}

proof fn lemma_first_line_len_exact(t: Seq<char>, rest: Seq<char>)
    requires
        forall|i: int| 0 <= i < t.len() ==> (#[trigger] t[i]) != '\n',
        rest.len() == 0 || rest[0] == '\n',
    ensures
        first_line_len(t + rest) == t.len(),
    decreases t.len(),
{
    let s = t + rest;
    if t.len() == 0 {
        assert(s =~= rest);
    } else {
        assert(s[0] == t[0]);
        let t1 = t.subrange(1, t.len() as int);
        assert(s.subrange(1, s.len() as int) =~= t1 + rest);
        assert(forall|i: int| 0 <= i < t1.len() ==> t1[i] == t[i + 1]);
        lemma_first_line_len_exact(t1, rest);
    }
}

/// A text cut at each newline.
pub open spec fn line_split(s: Seq<char>) -> Seq<Seq<char>>
    decreases s.len(),
    via line_split_dec
{
    if s.len() == 0 {
        Seq::empty()
    } else {
        let n = first_line_len(s);
        if n == s.len() {
            seq![s]
        } else {
            seq![s.subrange(0, n)] + line_split(s.subrange(n + 1, s.len() as int))
        }
    }
}

#[via_fn]
proof fn line_split_dec(s: Seq<char>) {
    lemma_first_line_len_bounds(s);
}

/// Splitting joined newline-free lines gives the lines back.
pub proof fn lemma_split_join(ls: Seq<Seq<char>>)
    requires
        forall|i: int, j: int|
            0 <= i < ls.len() && 0 <= j < ls[i].len() ==> #[trigger] ls[i][j] != '\n',
    ensures
        line_split(join_lines(ls)) == ls,
    decreases ls.len(),
{
    if ls.len() == 0 {
        assert(line_split(join_lines(ls)) =~= ls);
    } else {
        let l0 = ls[0];
        let tail = ls.subrange(1, ls.len() as int);
        let rest_text = join_lines(tail);
        let s = join_lines(ls);
        assert(s == l0 + seq!['\n'] + rest_text);
        assert(s =~= l0 + (seq!['\n'] + rest_text));
        lemma_first_line_len_exact(l0, seq!['\n'] + rest_text);
        assert(first_line_len(s) == l0.len());
        assert(first_line_len(s) < s.len());
        assert(s.subrange(0, l0.len() as int) =~= l0);
        assert(s.subrange(l0.len() as int + 1, s.len() as int) =~= rest_text);
        assert(forall|i: int| 0 <= i < tail.len() ==> tail[i] == ls[i + 1]);
        lemma_split_join(tail);
        assert(line_split(s) =~= ls);
    }
}

/// One step of reading a document: fold each line into a root table and a
/// current-section marker. A repeated key, a repeated section, or an
/// unreadable line stops the read.
pub open spec fn parse_doc_lines(
    lines: Seq<Seq<char>>,
    acc: Seq<(Seq<char>, ItemV)>,
    cur: Option<Seq<char>>,
) -> Option<(Seq<(Seq<char>, ItemV)>, Option<Seq<char>>)>
    decreases lines.len(),
{
    if lines.len() == 0 {
        Option::Some((acc, cur))
    } else {
        let rest = lines.subrange(1, lines.len() as int);
        match parse_line(lines[0]) {
            LineP::Blank => parse_doc_lines(rest, acc, cur),
            LineP::Bad => Option::None,
            LineP::Header(k) => if tbl_has(acc, k) {
                Option::None
            } else {
                parse_doc_lines(rest, acc.push((k, ItemV::Dict(Seq::empty()))), Option::Some(k))
            },
            LineP::Pair(k, v) => match cur {
                Option::None => if tbl_has(acc, k) {
                    Option::None
                } else {
                    parse_doc_lines(rest, acc.push((k, v)), Option::None)
                },
                Option::Some(sk) => match tbl_get(acc, sk) {
                    Option::Some(ItemV::Dict(es)) => if tbl_has(es, k) {
                        Option::None
                    } else {
                        parse_doc_lines(
                            rest,
                            crate::config::tbl_upsert(acc, sk, ItemV::Dict(es.push((k, v)))),
                            cur,
                        )
                    },
                    _ => Option::None,
                },
            },
        }
    }
}

/// The root table a document's text stands for, if it reads cleanly.
pub open spec fn parse_doc(s: Seq<char>) -> Option<Seq<(Seq<char>, ItemV)>> {
    match parse_doc_lines(line_split(s), Seq::empty(), Option::None) {
        Option::Some((t, _)) => Option::Some(t),
        Option::None => Option::None,
    }
}

/// Reading a concatenation of line groups reads the groups in order.
pub proof fn lemma_pdl_append(
    ls1: Seq<Seq<char>>,
    ls2: Seq<Seq<char>>,
    acc: Seq<(Seq<char>, ItemV)>,
    cur: Option<Seq<char>>,
)
    ensures
        parse_doc_lines(ls1 + ls2, acc, cur) == match parse_doc_lines(ls1, acc, cur) {
            Option::None => Option::None,
            Option::Some((a2, c2)) => parse_doc_lines(ls2, a2, c2),
        },
    decreases ls1.len(),
{
    let all = ls1 + ls2;
    if ls1.len() == 0 {
        assert(all =~= ls2);
    } else {
        assert(all[0] == ls1[0]);
        let rest1 = ls1.subrange(1, ls1.len() as int);
        assert(all.subrange(1, all.len() as int) =~= rest1 + ls2);
        match parse_line(ls1[0]) {
            LineP::Blank => {
                lemma_pdl_append(rest1, ls2, acc, cur);
            },
            LineP::Bad => {},
            LineP::Header(k) => {
                if !tbl_has(acc, k) {
                    lemma_pdl_append(
                        rest1,
                        ls2,
                        acc.push((k, ItemV::Dict(Seq::empty()))),
                        Option::Some(k),
                    );
                }
            },
            LineP::Pair(k, v) => {
                match cur {
                    Option::None => {
                        if !tbl_has(acc, k) {
                            lemma_pdl_append(rest1, ls2, acc.push((k, v)), Option::None);
                        }
                    },
                    Option::Some(sk) => {
                        match tbl_get(acc, sk) {
                            Option::Some(ItemV::Dict(es)) => {
                                if !tbl_has(es, k) {
                                    lemma_pdl_append(
                                        rest1,
                                        ls2,
                                        crate::config::tbl_upsert(
                                            acc,
                                            sk,
                                            ItemV::Dict(es.push((k, v))),
                                        ),
                                        cur,
                                    );
                                }
                            },
                            _ => {},
                        }
                    },
                }
            },
        }
    }
}

/// The binding lines of a flat table, one per entry.
pub open spec fn pair_lines_of(t: Seq<(Seq<char>, ItemV)>) -> Seq<Seq<char>>
    decreases t.len(),
{
    if t.len() == 0 {
        Seq::empty()
    } else {
        seq![pair_line(t[0].0, t[0].1)] + pair_lines_of(t.subrange(1, t.len() as int))
    }
}

/// Reading a run of binding lines at the root appends those bindings.
proof fn lemma_pdl_root_pairs(t: Seq<(Seq<char>, ItemV)>, acc: Seq<(Seq<char>, ItemV)>)
    requires
        forall|i: int| 0 <= i < t.len() ==> value_ok((#[trigger] t[i]).1),
        tbl_distinct(t),
        forall|i: int| 0 <= i < t.len() ==> !tbl_has(acc, (#[trigger] t[i]).0),
    ensures
        parse_doc_lines(pair_lines_of(t), acc, Option::None) == Option::Some(
            (acc + t, Option::<Seq<char>>::None),
        ),
    decreases t.len(),
{
    if t.len() == 0 {
        assert(pair_lines_of(t) =~= Seq::<Seq<char>>::empty());
        assert(acc + t =~= acc);
    } else {
        let e0 = t[0];
        let rest = t.subrange(1, t.len() as int);
        let lines = pair_lines_of(t);
        assert(lines[0] == pair_line(e0.0, e0.1));
        assert(lines.subrange(1, lines.len() as int) =~= pair_lines_of(rest));
        lemma_pair_line_round_trip(e0.0, e0.1);
        assert(!tbl_has(acc, e0.0));
        let acc1 = acc.push(e0);
        assert(forall|i: int| 0 <= i < rest.len() ==> rest[i] == t[i + 1]);
        assert(tbl_distinct(rest));
        assert forall|i: int| 0 <= i < rest.len() implies !tbl_has(acc1, (#[trigger] rest[i]).0) by {
            assert(rest[i] == t[i + 1]);
            assert(t[i + 1].0 != e0.0);
            lemma_tbl_get_push_other(acc, e0, rest[i].0);
        }
        lemma_pdl_root_pairs(rest, acc1);
        assert(acc1 + rest =~= acc + t);
    }
}

/// Writing into a section twice keeps only the second write.
proof fn lemma_tbl_upsert_twice<T>(t: Seq<(Seq<char>, T)>, k: Seq<char>, v1: T, v2: T)
    requires
        tbl_distinct(t),
    ensures
        crate::config::tbl_upsert(crate::config::tbl_upsert(t, k, v1), k, v2)
            == crate::config::tbl_upsert(t, k, v2),
    decreases t.len(),
{
    let u1 = crate::config::tbl_upsert(t, k, v1);
    if t.len() == 0 {
        assert(u1 =~= seq![(k, v1)]);
        assert(crate::config::tbl_upsert(u1, k, v2) =~= crate::config::tbl_upsert(t, k, v2));
    } else if t[0].0 == k {
        let rest = t.subrange(1, t.len() as int);
        assert(u1 =~= seq![(k, v1)] + rest);
        assert(u1[0].0 == k);
        assert(u1.subrange(1, u1.len() as int) =~= rest);
        assert(crate::config::tbl_upsert(u1, k, v2) =~= seq![(k, v2)] + rest);
        assert(crate::config::tbl_upsert(t, k, v2) =~= seq![(k, v2)] + rest);
    } else {
        let rest = t.subrange(1, t.len() as int);
        assert(tbl_distinct(rest)) by {
            assert(forall|i: int| 0 <= i < rest.len() ==> rest[i] == t[i + 1]);
        }
        lemma_tbl_upsert_twice(rest, k, v1, v2);
        let ur1 = crate::config::tbl_upsert(rest, k, v1);
        assert(u1 =~= seq![t[0]] + ur1);
        assert(u1[0] == t[0]);
        assert(u1.subrange(1, u1.len() as int) =~= ur1);
        assert(crate::config::tbl_upsert(u1, k, v2) =~= seq![t[0]] + crate::config::tbl_upsert(
            ur1,
            k,
            v2,
        ));
        assert(crate::config::tbl_upsert(t, k, v2) =~= seq![t[0]] + crate::config::tbl_upsert(
            rest,
            k,
            v2,
        ));
    }
}

/// Reading a run of binding lines inside a section extends that section's
/// table with those bindings.
proof fn lemma_pdl_section_pairs(
    es: Seq<(Seq<char>, ItemV)>,
    acc: Seq<(Seq<char>, ItemV)>,
    sk: Seq<char>,
    cur_es: Seq<(Seq<char>, ItemV)>,
)
    requires
        tbl_distinct(acc),
        tbl_get(acc, sk) == Option::Some(ItemV::Dict(cur_es)),
        forall|i: int| 0 <= i < es.len() ==> value_ok((#[trigger] es[i]).1),
        tbl_distinct(es),
        forall|i: int| 0 <= i < es.len() ==> !tbl_has(cur_es, (#[trigger] es[i]).0),
    ensures
        parse_doc_lines(pair_lines_of(es), acc, Option::Some(sk)) == Option::Some(
            (crate::config::tbl_upsert(acc, sk, ItemV::Dict(cur_es + es)), Option::Some(sk)),
        ),
    decreases es.len(),
{
    if es.len() == 0 {
        assert(pair_lines_of(es) =~= Seq::<Seq<char>>::empty());
        assert(cur_es + es =~= cur_es);
        // writing back the unchanged section is the identity
        lemma_tbl_upsert_get_same(acc, sk, ItemV::Dict(cur_es));
    } else {
        let e0 = es[0];
        let rest = es.subrange(1, es.len() as int);
        let lines = pair_lines_of(es);
        assert(lines[0] == pair_line(e0.0, e0.1));
        assert(lines.subrange(1, lines.len() as int) =~= pair_lines_of(rest));
        lemma_pair_line_round_trip(e0.0, e0.1);
        assert(!tbl_has(cur_es, e0.0));
        let cur1 = cur_es.push(e0);
        let acc1 = crate::config::tbl_upsert(acc, sk, ItemV::Dict(cur1));
        crate::config::lemma_tbl_upsert(acc, sk, ItemV::Dict(cur1));
        assert(forall|i: int| 0 <= i < rest.len() ==> rest[i] == es[i + 1]);
        assert(tbl_distinct(rest));
        assert forall|i: int| 0 <= i < rest.len() implies !tbl_has(cur1, (#[trigger] rest[i]).0) by {
            assert(rest[i] == es[i + 1]);
            assert(es[i + 1].0 != e0.0);
            lemma_tbl_get_push_other(cur_es, e0, rest[i].0);
        }
        lemma_pdl_section_pairs(rest, acc1, sk, cur1);
        lemma_tbl_upsert_twice(acc, sk, ItemV::Dict(cur1), ItemV::Dict(cur1 + rest));
        assert(cur1 + rest =~= cur_es + es);
    }
}

/// Writing a section's unchanged value back is the identity.
proof fn lemma_tbl_upsert_get_same<T>(t: Seq<(Seq<char>, T)>, k: Seq<char>, v: T)
    requires
        tbl_get(t, k) == Option::Some(v),
    ensures
        crate::config::tbl_upsert(t, k, v) == t,
    decreases t.len(),
{
    if t.len() > 0 {
        let rest = t.subrange(1, t.len() as int);
        if t[0].0 == k {
            assert(crate::config::tbl_upsert(t, k, v) =~= t);
        } else {
            lemma_tbl_upsert_get_same(rest, k, v);
            assert(crate::config::tbl_upsert(t, k, v) =~= t);
        }
    }
}

/// A lookup that fails means no entry has that key.
pub proof fn lemma_tbl_get_none_keys<T>(t: Seq<(Seq<char>, T)>, k: Seq<char>)
    requires
        tbl_get(t, k) is None,
    ensures
        forall|j: int| 0 <= j < t.len() ==> (#[trigger] t[j]).0 != k,
    decreases t.len(),
{
    if t.len() > 0 {
        let rest = t.subrange(1, t.len() as int);
        lemma_tbl_get_none_keys(rest, k);
        assert forall|j: int| 0 <= j < t.len() implies (#[trigger] t[j]).0 != k by {
            if j > 0 {
                assert(rest[j - 1] == t[j]);
            }
        }
    }
}

/// Looking a key up in a concatenation searches the front first.
pub proof fn lemma_tbl_get_concat<T>(a: Seq<(Seq<char>, T)>, b: Seq<(Seq<char>, T)>, k: Seq<char>)
    ensures
        tbl_get(a + b, k) == if tbl_has(a, k) {
            tbl_get(a, k)
        } else {
            tbl_get(b, k)
        },
    decreases a.len(),
{
    let ab = a + b;
    if a.len() == 0 {
        assert(ab =~= b);
    } else {
        assert(ab[0] == a[0]);
        let arest = a.subrange(1, a.len() as int);
        assert(ab.subrange(1, ab.len() as int) =~= arest + b);
        lemma_tbl_get_concat(arest, b, k);
    }
}

/// The entries of a table whose values are not tables, in order.
pub open spec fn ndp(t: Seq<(Seq<char>, ItemV)>) -> Seq<(Seq<char>, ItemV)>
    decreases t.len(),
{
    if t.len() == 0 {
        Seq::empty()
    } else if t[0].1 is Dict {
        ndp(t.subrange(1, t.len() as int))
    } else {
        seq![t[0]] + ndp(t.subrange(1, t.len() as int))
    }
}

/// The entries of a table whose values are tables, in order.
pub open spec fn dp(t: Seq<(Seq<char>, ItemV)>) -> Seq<(Seq<char>, ItemV)>
    decreases t.len(),
{
    if t.len() == 0 {
        Seq::empty()
    } else if t[0].1 is Dict {
        seq![t[0]] + dp(t.subrange(1, t.len() as int))
    } else {
        dp(t.subrange(1, t.len() as int))
    }
}

/// Every entry of either part is an entry of the table.
pub proof fn lemma_partition_members(t: Seq<(Seq<char>, ItemV)>)
    ensures
        forall|i: int|
            0 <= i < ndp(t).len() ==> exists|j: int|
                0 <= j < t.len() && (#[trigger] ndp(t)[i]) == t[j],
        forall|i: int|
            0 <= i < dp(t).len() ==> exists|j: int|
                0 <= j < t.len() && (#[trigger] dp(t)[i]) == t[j],
    decreases t.len(),
{
    if t.len() > 0 {
        let rest = t.subrange(1, t.len() as int);
        lemma_partition_members(rest);
        assert forall|i: int|
            0 <= i < ndp(t).len() implies exists|j: int|
                0 <= j < t.len() && (#[trigger] ndp(t)[i]) == t[j] by {
            if t[0].1 is Dict {
                let j = choose|j: int| 0 <= j < rest.len() && ndp(rest)[i] == rest[j];
                assert(t[j + 1] == rest[j]);
            } else {
                if i == 0 {
                    assert(ndp(t)[0] == t[0]);
                } else {
                    assert(ndp(t)[i] == ndp(rest)[i - 1]);
                    let j = choose|j: int| 0 <= j < rest.len() && ndp(rest)[i - 1] == rest[j];
                    assert(t[j + 1] == rest[j]);
                }
            }
        }
        assert forall|i: int|
            0 <= i < dp(t).len() implies exists|j: int|
                0 <= j < t.len() && (#[trigger] dp(t)[i]) == t[j] by {
            if t[0].1 is Dict {
                if i == 0 {
                    assert(dp(t)[0] == t[0]);
                } else {
                    assert(dp(t)[i] == dp(rest)[i - 1]);
                    let j = choose|j: int| 0 <= j < rest.len() && dp(rest)[i - 1] == rest[j];
                    assert(t[j + 1] == rest[j]);
                }
            } else {
                let j = choose|j: int| 0 <= j < rest.len() && dp(rest)[i] == rest[j];
                assert(t[j + 1] == rest[j]);
            }
        }
    }
}

/// Both parts keep the table's key distinctness.
pub proof fn lemma_partition_distinct(t: Seq<(Seq<char>, ItemV)>)
    requires
        tbl_distinct(t),
    ensures
        tbl_distinct(ndp(t)),
        tbl_distinct(dp(t)),
    decreases t.len(),
{
    if t.len() > 0 {
        let rest = t.subrange(1, t.len() as int);
        assert(tbl_distinct(rest)) by {
            assert(forall|i: int| 0 <= i < rest.len() ==> rest[i] == t[i + 1]);
        }
        lemma_partition_distinct(rest);
        lemma_partition_members(rest);
        assert(forall|i: int| 0 <= i < rest.len() ==> rest[i] == t[i + 1]);
        if t[0].1 is Dict {
            let d = dp(t);
            assert(d[0] == t[0]);
            assert(d.subrange(1, d.len() as int) =~= dp(rest));
            assert forall|i: int, j: int| 0 <= i < j < d.len() implies (#[trigger] d[i]).0 != (
            #[trigger] d[j]).0 by {
                if i == 0 {
                    assert(d[j] == dp(rest)[j - 1]);
                    let j2 = choose|j2: int| 0 <= j2 < rest.len() && dp(rest)[j - 1] == rest[j2];
                    assert(t[0].0 != t[j2 + 1].0);
                } else {
                    assert(d[i] == dp(rest)[i - 1] && d[j] == dp(rest)[j - 1]);
                }
            }
        } else {
            let n = ndp(t);
            assert(n[0] == t[0]);
            assert(n.subrange(1, n.len() as int) =~= ndp(rest));
            assert forall|i: int, j: int| 0 <= i < j < n.len() implies (#[trigger] n[i]).0 != (
            #[trigger] n[j]).0 by {
                if i == 0 {
                    assert(n[j] == ndp(rest)[j - 1]);
                    let j2 = choose|j2: int| 0 <= j2 < rest.len() && ndp(rest)[j - 1] == rest[j2];
                    assert(t[0].0 != t[j2 + 1].0);
                } else {
                    assert(n[i] == ndp(rest)[i - 1] && n[j] == ndp(rest)[j - 1]);
                }
            }
        }
    }
}

/// Looking keys up across the partition agrees with the table itself.
pub proof fn lemma_partition_get(t: Seq<(Seq<char>, ItemV)>, k: Seq<char>)
    requires
        tbl_distinct(t),
    ensures
        tbl_get(ndp(t) + dp(t), k) == tbl_get(t, k),
    decreases t.len(),
{
    if t.len() == 0 {
        assert(ndp(t) + dp(t) =~= t);
    } else {
        let rest = t.subrange(1, t.len() as int);
        assert(tbl_distinct(rest)) by {
            assert(forall|i: int| 0 <= i < rest.len() ==> rest[i] == t[i + 1]);
        }
        lemma_partition_get(rest, k);
        lemma_partition_members(rest);
        lemma_tbl_get_concat(ndp(rest), dp(rest), k);
        if t[0].1 is Dict {
            assert(ndp(t) + dp(t) =~= ndp(rest) + (seq![t[0]] + dp(rest)));
            lemma_tbl_get_concat(ndp(rest), seq![t[0]] + dp(rest), k);
            if k == t[0].0 {
                assert(!tbl_has(ndp(rest), k)) by {
                    assert forall|j: int| 0 <= j < ndp(rest).len() implies (#[trigger] ndp(
                        rest,
                    )[j]).0 != k by {
                        let j2 = choose|j2: int|
                            0 <= j2 < rest.len() && ndp(rest)[j] == rest[j2];
                        assert(rest[j2] == t[j2 + 1]);
                        assert(t[0].0 != t[j2 + 1].0);
                    }
                    lemma_tbl_get_absent(ndp(rest), k);
                }
                assert(tbl_get(seq![t[0]] + dp(rest), k) == Option::Some(t[0].1)) by {
                    let one = seq![t[0]] + dp(rest);
                    assert(one[0] == t[0]);
                }
            } else {
                let one = seq![t[0]] + dp(rest);
                assert(one[0] == t[0]);
                assert(one.subrange(1, one.len() as int) =~= dp(rest));
                assert(tbl_get(one, k) == tbl_get(dp(rest), k));
            }
        } else {
            assert(ndp(t) + dp(t) =~= seq![t[0]] + (ndp(rest) + dp(rest)));
            let all = seq![t[0]] + (ndp(rest) + dp(rest));
            assert(all[0] == t[0]);
            assert(all.subrange(1, all.len() as int) =~= ndp(rest) + dp(rest));
        }
    }
}

/// The written lines of a run of sections: a blank line, a header, then the
/// section's bindings, for each section in order.
pub open spec fn sections_of(d: Seq<(Seq<char>, ItemV)>) -> Seq<Seq<char>>
    decreases d.len(),
{
    if d.len() == 0 {
        Seq::empty()
    } else {
        seq![Seq::<char>::empty()] + seq![header_line(d[0].0)] + pair_lines_of(d[0].1->Dict_0)
            + sections_of(d.subrange(1, d.len() as int))
    }
}

/// The written lines of a whole document: root bindings first, then one
/// section per table-valued entry.
pub open spec fn doc_lines(t: Seq<(Seq<char>, ItemV)>) -> Seq<Seq<char>> {
    pair_lines_of(ndp(t)) + sections_of(dp(t))
}

/// The written text of a whole document.
pub open spec fn doc_text(t: Seq<(Seq<char>, ItemV)>) -> Seq<char> {
    join_lines(doc_lines(t))
}

/// The tables the writer can print as documents: distinct keys; every
/// table-valued entry a section of printable values with distinct keys;
/// every other value printable.
pub open spec fn doc_ok(t: Seq<(Seq<char>, ItemV)>) -> bool {
    &&& tbl_distinct(t)
    &&& forall|i: int|
        0 <= i < t.len() ==> match (#[trigger] t[i]).1 {
            ItemV::Dict(es) => tbl_distinct(es) && forall|j: int|
                0 <= j < es.len() ==> value_ok((#[trigger] es[j]).1),
            v => value_ok(v),
        }
}

/// An empty line reads as blank.
proof fn lemma_parse_line_empty()
    ensures
        parse_line(Seq::<char>::empty()) == LineP::Blank,
{
    let e = Seq::<char>::empty();
    assert(skip_ws(e) =~= e);
    assert(trim_end(e) == e);
}

/// Reading a run of printed sections appends those sections to the root.
proof fn lemma_pdl_sections(
    d: Seq<(Seq<char>, ItemV)>,
    acc: Seq<(Seq<char>, ItemV)>,
    cur: Option<Seq<char>>,
)
    requires
        tbl_distinct(acc),
        tbl_distinct(d),
        forall|i: int| 0 <= i < d.len() ==> !tbl_has(acc, (#[trigger] d[i]).0),
        forall|i: int|
            0 <= i < d.len() ==> (#[trigger] d[i]).1 is Dict && tbl_distinct(d[i].1->Dict_0)
                && forall|j: int|
                0 <= j < d[i].1->Dict_0.len() ==> value_ok((#[trigger] d[i].1->Dict_0[j]).1),
    ensures
        parse_doc_lines(sections_of(d), acc, cur) matches Option::Some(r) && r.0 == acc + d,
    decreases d.len(),
{
    if d.len() == 0 {
        assert(sections_of(d) =~= Seq::<Seq<char>>::empty());
        assert(acc + d =~= acc);
    } else {
        let d0 = d[0];
        let es0 = d0.1->Dict_0;
        let rest = d.subrange(1, d.len() as int);
        assert(forall|i: int| 0 <= i < rest.len() ==> rest[i] == d[i + 1]);
        let lines = sections_of(d);
        let group = seq![Seq::<char>::empty()] + seq![header_line(d0.0)] + pair_lines_of(es0);
        assert(lines =~= group + sections_of(rest));
        lemma_pdl_append(group, sections_of(rest), acc, cur);
        // the blank line
        lemma_parse_line_empty();
        assert(group[0] =~= Seq::<char>::empty());
        let g1 = group.subrange(1, group.len() as int);
        assert(g1 =~= seq![header_line(d0.0)] + pair_lines_of(es0));
        // the header line
        lemma_header_line_round_trip(d0.0);
        assert(g1[0] == header_line(d0.0));
        assert(!tbl_has(acc, d0.0));
        let acc1 = acc.push((d0.0, ItemV::Dict(Seq::empty())));
        let g2 = g1.subrange(1, g1.len() as int);
        assert(g2 =~= pair_lines_of(es0));
        // distinctness of the extended root
        lemma_tbl_get_none_keys(acc, d0.0);
        assert(tbl_distinct(acc1)) by {
            assert forall|i: int, j: int| 0 <= i < j < acc1.len() implies (#[trigger] acc1[i]).0
                != (#[trigger] acc1[j]).0 by {
                if j < acc.len() {
                    assert(acc1[i] == acc[i] && acc1[j] == acc[j]);
                } else {
                    assert(acc1[i] == acc[i]);
                    assert(acc1[j].0 == d0.0);
                }
            }
        }
        lemma_tbl_get_push_last(acc, (d0.0, ItemV::Dict(Seq::empty())));
        // fill the section
        lemma_pdl_section_pairs(es0, acc1, d0.0, Seq::empty());
        let filled = crate::config::tbl_upsert(acc1, d0.0, ItemV::Dict(Seq::empty() + es0));
        assert(Seq::empty() + es0 =~= es0);
        assert(ItemV::Dict(es0) == d0.1);
        // the upsert lands on the pushed entry, so it is a plain push
        assert(filled =~= acc.push(d0)) by {
            crate::config::lemma_tbl_upsert(acc1, d0.0, ItemV::Dict(es0));
            lemma_upsert_push_back(acc, d0.0, ItemV::Dict(Seq::empty()), ItemV::Dict(es0));
        }
        // the remaining sections
        let acc2 = acc.push(d0);
        assert(tbl_distinct(acc2)) by {
            assert forall|i: int, j: int| 0 <= i < j < acc2.len() implies (#[trigger] acc2[i]).0
                != (#[trigger] acc2[j]).0 by {
                if j < acc.len() {
                    assert(acc2[i] == acc[i] && acc2[j] == acc[j]);
                } else {
                    assert(acc2[i] == acc[i]);
                    assert(acc2[j].0 == d0.0);
                }
            }
        }
        assert(tbl_distinct(rest));
        assert forall|i: int| 0 <= i < rest.len() implies !tbl_has(acc2, (#[trigger] rest[i]).0) by {
            assert(rest[i] == d[i + 1]);
            assert(d[i + 1].0 != d0.0);
            lemma_tbl_get_push_other(acc, d0, rest[i].0);
        }
        lemma_pdl_sections(rest, acc2, Option::Some(d0.0));
        assert(acc2 + rest =~= acc + d);
        // stitch the groups together
        lemma_pdl_append(seq![Seq::<char>::empty()], g1, acc, cur);
        assert(seq![Seq::<char>::empty()] + g1 =~= group);
        lemma_pdl_append(seq![header_line(d0.0)], g2, acc, cur);
        assert(seq![header_line(d0.0)] + g2 =~= g1);
        assert(parse_doc_lines(Seq::<Seq<char>>::empty(), acc, cur) == Option::Some((acc, cur)));
        assert(parse_doc_lines(
            Seq::<Seq<char>>::empty(),
            acc1,
            Option::Some(d0.0),
        ) == Option::Some((acc1, Option::Some(d0.0))));
        assert(parse_doc_lines(seq![Seq::<char>::empty()], acc, cur) == Option::Some((acc, cur)))
            by {
            assert(seq![Seq::<char>::empty()][0] =~= Seq::<char>::empty());
            assert(seq![Seq::<char>::empty()].subrange(1, 1) =~= Seq::<Seq<char>>::empty());
        }
        assert(parse_doc_lines(seq![header_line(d0.0)], acc, cur) == Option::Some(
            (acc1, Option::Some(d0.0)),
        )) by {
            assert(seq![header_line(d0.0)][0] == header_line(d0.0));
            assert(seq![header_line(d0.0)].subrange(1, 1) =~= Seq::<Seq<char>>::empty());
        }
    }
}

/// Writing into an entry just pushed replaces its value in place.
proof fn lemma_upsert_push_back<T>(t: Seq<(Seq<char>, T)>, k: Seq<char>, v1: T, v2: T)
    requires
        forall|j: int| 0 <= j < t.len() ==> (#[trigger] t[j]).0 != k,
    ensures
        crate::config::tbl_upsert(t.push((k, v1)), k, v2) == t.push((k, v2)),
    decreases t.len(),
{
    let tp = t.push((k, v1));
    if t.len() == 0 {
        assert(tp[0] == (k, v1));
        assert(crate::config::tbl_upsert(tp, k, v2) =~= t.push((k, v2)));
    } else {
        assert(tp[0] == t[0]);
        assert(t[0].0 != k);
        let rest = t.subrange(1, t.len() as int);
        assert(tp.subrange(1, tp.len() as int) =~= rest.push((k, v1)));
        assert(forall|j: int| 0 <= j < rest.len() ==> rest[j] == t[j + 1]);
        lemma_upsert_push_back(rest, k, v1, v2);
        assert(crate::config::tbl_upsert(tp, k, v2) =~= t.push((k, v2)));
    }
}

/// No printed line of a document contains a newline.
proof fn lemma_pair_lines_of_no_nl(t: Seq<(Seq<char>, ItemV)>)
    requires
        forall|i: int| 0 <= i < t.len() ==> value_ok((#[trigger] t[i]).1),
    ensures
        forall|i: int, j: int|
            0 <= i < pair_lines_of(t).len() && 0 <= j < pair_lines_of(t)[i].len()
                ==> #[trigger] pair_lines_of(t)[i][j] != '\n',
    decreases t.len(),
{
    if t.len() > 0 {
        let rest = t.subrange(1, t.len() as int);
        assert(forall|i: int| 0 <= i < rest.len() ==> rest[i] == t[i + 1]);
        lemma_pair_lines_of_no_nl(rest);
        lemma_printed_lines_single(t[0].0, t[0].1);
        let ls = pair_lines_of(t);
        assert forall|i: int, j: int|
            0 <= i < ls.len() && 0 <= j < ls[i].len() implies #[trigger] ls[i][j] != '\n' by {
            if i == 0 {
                assert(ls[0] == pair_line(t[0].0, t[0].1));
            } else {
                assert(ls[i] == pair_lines_of(rest)[i - 1]);
            }
        }
    }
}

proof fn lemma_sections_of_no_nl(d: Seq<(Seq<char>, ItemV)>)
    requires
        forall|i: int|
            0 <= i < d.len() ==> (#[trigger] d[i]).1 is Dict && forall|j: int|
                0 <= j < d[i].1->Dict_0.len() ==> value_ok((#[trigger] d[i].1->Dict_0[j]).1),
    ensures
        forall|i: int, j: int|
            0 <= i < sections_of(d).len() && 0 <= j < sections_of(d)[i].len()
                ==> #[trigger] sections_of(d)[i][j] != '\n',
    decreases d.len(),
{
    if d.len() > 0 {
        let rest = d.subrange(1, d.len() as int);
        assert(forall|i: int| 0 <= i < rest.len() ==> rest[i] == d[i + 1]);
        lemma_sections_of_no_nl(rest);
        let es0 = d[0].1->Dict_0;
        lemma_pair_lines_of_no_nl(es0);
        lemma_printed_lines_single(d[0].0, ItemV::Bool(true));
        let ls = sections_of(d);
        let head = seq![Seq::<char>::empty()] + seq![header_line(d[0].0)] + pair_lines_of(es0);
        assert(ls =~= head + sections_of(rest));
        assert forall|i: int, j: int|
            0 <= i < ls.len() && 0 <= j < ls[i].len() implies #[trigger] ls[i][j] != '\n' by {
            if i == 0 {
                assert(ls[0] =~= Seq::<char>::empty());
            } else if i == 1 {
                assert(ls[1] == header_line(d[0].0));
            } else if i < head.len() {
                assert(ls[i] == pair_lines_of(es0)[i - 2]);
            } else {
                assert(ls[i] == sections_of(rest)[i - head.len()]);
            }
        }
    }
}

/// The whole-document round trip: a printable table's text reads back to a
/// table that answers every lookup exactly as the original does.
pub proof fn lemma_doc_round_trip(t: Seq<(Seq<char>, ItemV)>)
    requires
        doc_ok(t),
    ensures
        parse_doc(doc_text(t)) matches Option::Some(t2) && forall|k: Seq<char>|
            tbl_get(t2, k) == tbl_get(t, k),
{
    let nd = ndp(t);
    let dd = dp(t);
    lemma_partition_members(t);
    lemma_partition_distinct(t);
    // every part entry satisfies the printable conditions
    assert forall|i: int| 0 <= i < nd.len() implies value_ok((#[trigger] nd[i]).1) && !(nd[i].1
        is Dict) by {
        let j = choose|j: int| 0 <= j < t.len() && nd[i] == t[j];
        lemma_ndp_shape(t, i);
    }
    assert forall|i: int|
        0 <= i < dd.len() implies (#[trigger] dd[i]).1 is Dict && tbl_distinct(dd[i].1->Dict_0)
        && forall|j: int|
        0 <= j < dd[i].1->Dict_0.len() ==> value_ok((#[trigger] dd[i].1->Dict_0[j]).1) by {
        let j = choose|j: int| 0 <= j < t.len() && dd[i] == t[j];
        lemma_dp_shape(t, i);
    }
    // the printed lines split back into themselves
    lemma_pair_lines_of_no_nl(nd);
    lemma_sections_of_no_nl(dd);
    let ls = doc_lines(t);
    assert forall|i: int, j: int|
        0 <= i < ls.len() && 0 <= j < ls[i].len() implies #[trigger] ls[i][j] != '\n' by {
        if i < pair_lines_of(nd).len() {
            assert(ls[i] == pair_lines_of(nd)[i]);
        } else {
            assert(ls[i] == sections_of(dd)[i - pair_lines_of(nd).len()]);
        }
    }
    lemma_split_join(ls);
    // fold the root bindings, then the sections
    lemma_pdl_append(pair_lines_of(nd), sections_of(dd), Seq::empty(), Option::None);
    assert(forall|i: int|
        0 <= i < nd.len() ==> !tbl_has(Seq::<(Seq<char>, ItemV)>::empty(), (#[trigger] nd[i]).0));
    lemma_pdl_root_pairs(nd, Seq::empty());
    assert(Seq::<(Seq<char>, ItemV)>::empty() + nd =~= nd);
    assert forall|i: int| 0 <= i < dd.len() implies !tbl_has(nd, (#[trigger] dd[i]).0) by {
        let j1 = choose|j1: int| 0 <= j1 < t.len() && dd[i] == t[j1];
        assert forall|m: int| 0 <= m < nd.len() implies (#[trigger] nd[m]).0 != dd[i].0 by {
            let j2 = choose|j2: int| 0 <= j2 < t.len() && nd[m] == t[j2];
            if j1 == j2 {
                lemma_ndp_shape(t, m);
                lemma_dp_shape(t, i);
            } else {
                assert(t[j1].0 != t[j2].0);
            }
        }
        lemma_tbl_get_absent(nd, dd[i].0);
    }
    lemma_pdl_sections(dd, nd, Option::None);
    // and lookups across the rebuilt table agree with the original
    assert forall|k: Seq<char>| tbl_get(nd + dd, k) == #[trigger] tbl_get(t, k) by {
        lemma_partition_get(t, k);
    }
}

/// The shape of the entries each part keeps.
proof fn lemma_ndp_shape(t: Seq<(Seq<char>, ItemV)>, i: int)
    requires
        doc_ok(t),
        0 <= i < ndp(t).len(),
    ensures
        !(ndp(t)[i].1 is Dict),
        value_ok(ndp(t)[i].1),
    decreases t.len(),
{
    if t.len() > 0 {
        let rest = t.subrange(1, t.len() as int);
        assert(doc_ok(rest)) by {
            assert(forall|j: int| 0 <= j < rest.len() ==> rest[j] == t[j + 1]);
        }
        if t[0].1 is Dict {
            lemma_ndp_shape(rest, i);
        } else {
            if i == 0 {
                assert(ndp(t)[0] == t[0]);
            } else {
                assert(ndp(t)[i] == ndp(rest)[i - 1]);
                lemma_ndp_shape(rest, i - 1);
            }
        }
    }
}

proof fn lemma_dp_shape(t: Seq<(Seq<char>, ItemV)>, i: int)
    requires
        doc_ok(t),
        0 <= i < dp(t).len(),
    ensures
        dp(t)[i].1 is Dict,
        tbl_distinct(dp(t)[i].1->Dict_0),
        forall|j: int| 0 <= j < dp(t)[i].1->Dict_0.len() ==> value_ok(
            (#[trigger] dp(t)[i].1->Dict_0[j]).1,
        ),
    decreases t.len(),
{
    if t.len() > 0 {
        let rest = t.subrange(1, t.len() as int);
        assert(doc_ok(rest)) by {
            assert(forall|j: int| 0 <= j < rest.len() ==> rest[j] == t[j + 1]);
        }
        if t[0].1 is Dict {
            if i == 0 {
                assert(dp(t)[0] == t[0]);
            } else {
                assert(dp(t)[i] == dp(rest)[i - 1]);
                lemma_dp_shape(rest, i - 1);
            }
        } else {
            lemma_dp_shape(rest, i);
        }
    }
}

/// Exec twin of `is_ws`.
fn ws_char(c: char) -> (r: bool)
    ensures
        r == is_ws(c),
{
    c == ' ' || c == '\t'
}

/// Exec twin of `is_bare_char`.
fn bare_char(c: char) -> (r: bool)
    ensures
        r == is_bare_char(c),
{
    let u = c as u32;
    (97 <= u && u <= 122) || (65 <= u && u <= 90) || (48 <= u && u <= 57) || c == '_' || c == '-'
}

/// Exec twin of `is_digit`.
fn digit_char_p(c: char) -> (r: bool)
    ensures
        r == is_digit(c),
{
    let u = c as u32;
    48 <= u && u <= 57
}

/// Exec twin of `is_num_char`.
fn num_char(c: char) -> (r: bool)
    ensures
        r == is_num_char(c),
{
    digit_char_p(c) || c == '+' || c == '-' || c == '.' || c == 'e' || c == 'E' || c == 'i' || c
        == 'n' || c == 'f' || c == 'a'
}

/// Exec twin of `is_tok_end`.
fn tok_end_char(c: char) -> (r: bool)
    ensures
        r == is_tok_end(c),
{
    ws_char(c) || c == ',' || c == ']' || c == '}'
}

/// Append a string's characters in escaped form.
fn push_escaped(out: &mut String, s: &str)
    ensures
        final(out)@ == old(out)@ + esc_str(s@),
{
    let n = s.unicode_len();
    let mut i: usize = 0;
    while i < n
        invariant
            n == s@.len(),
            i <= n,
            out@ == old(out)@ + esc_str(s@.subrange(0, i as int)),
        decreases n - i,
    {
        let c = s.get_char(i);
        let ghost pre = s@.subrange(0, i as int);
        let ghost cur = s@.subrange(0, i + 1 as int);
        proof {
            assert(cur.drop_last() =~= pre);
            assert(cur.last() == s@[i as int]);
        }
        if c == '"' {
            out.push('\\');
            out.push('"');
        } else if c == '\\' {
            out.push('\\');
            out.push('\\');
        } else if c == '\n' {
            out.push('\\');
            out.push('n');
        } else if c == '\r' {
            out.push('\\');
            out.push('r');
        } else if c == '\t' {
            out.push('\\');
            out.push('t');
        } else {
            out.push(c);
        }
        proof {
            assert(out@ =~= old(out)@ + esc_str(cur));
        }
        i = i + 1;
    }
    proof {
        assert(s@.subrange(0, n as int) =~= s@);
    }
}

/// Append a key, bare when possible, quoted otherwise.
fn push_key(out: &mut String, k: &str)
    ensures
        final(out)@ == old(out)@ + key_text(k@),
{
    let n = k.unicode_len();
    let mut bare = n > 0;
    let mut i: usize = 0;
    while i < n
        invariant
            n == k@.len(),
            i <= n,
            bare == (n > 0 && forall|j: int| 0 <= j < i ==> is_bare_char(#[trigger] k@[j])),
            out@ == old(out)@,
        decreases n - i,
    {
        if !bare_char(k.get_char(i)) {
            bare = false;
        }
        i = i + 1;
    }
    if bare {
        assert(key_is_bare(k@));
        crate::strutil::push_str(out, k);
    } else {
        assert(!key_is_bare(k@));
        out.push('"');
        push_escaped(out, k);
        out.push('"');
        proof {
            assert(final(out)@ =~= old(out)@ + key_text(k@));
        }
    }
}

/// Append one scalar value's text.
fn push_scalar(out: &mut String, v: &crate::config::ConfigItem)
    requires
        scalar_ok(v@),
    ensures
        final(out)@ == old(out)@ + scalar_text(v@),
{
    match v {
        crate::config::ConfigItem::Str(x) => {
            out.push('"');
            push_escaped(out, x.as_str());
            out.push('"');
            proof {
                assert(final(out)@ =~= old(out)@ + scalar_text(v@));
            }
        },
        crate::config::ConfigItem::I64(i) => {
            crate::strutil::push_i64(out, *i);
        },
        crate::config::ConfigItem::F64(t) => {
            crate::strutil::push_str(out, t.as_str());
        },
        crate::config::ConfigItem::Bool(b) => {
            if *b {
                crate::strutil::push_str(out, "true");
                proof {
                    reveal_strlit("true");
                    assert("true"@ =~= seq!['t', 'r', 'u', 'e']);
                }
            } else {
                crate::strutil::push_str(out, "false");
                proof {
                    reveal_strlit("false");
                    assert("false"@ =~= seq!['f', 'a', 'l', 's', 'e']);
                }
            }
        },
        _ => {
            proof {
                assert(false);
            }
        },
    }
}

/// The text a list gains when one more element is appended.
proof fn lemma_elems_text_push(items: Seq<ItemV>, x: ItemV)
    ensures
        elems_text(items.push(x)) == if items.len() == 0 {
            scalar_text(x)
        } else {
            elems_text(items) + seq![',', ' '] + scalar_text(x)
        },
    decreases items.len(),
{
    let p = items.push(x);
    if items.len() == 0 {
        assert(p.len() == 1);
        assert(p[0] == x);
        assert(elems_text(p) =~= scalar_text(x));
    } else {
        assert(p[0] == items[0]);
        let rest = items.subrange(1, items.len() as int);
        assert(p.subrange(1, p.len() as int) =~= rest.push(x));
        lemma_elems_text_push(rest, x);
        if items.len() == 1 {
            assert(rest.len() == 0);
            assert(elems_text(p) =~= elems_text(items) + seq![',', ' '] + scalar_text(x));
        } else {
            assert(elems_text(p) =~= elems_text(items) + seq![',', ' '] + scalar_text(x));
        }
    }
}

/// The text an inline table gains when one more entry is appended.
proof fn lemma_dentries_text_push(entries: Seq<(Seq<char>, ItemV)>, k: Seq<char>, x: ItemV)
    ensures
        dentries_text(entries.push((k, x))) == if entries.len() == 0 {
            key_text(k) + seq![' ', '=', ' '] + scalar_text(x)
        } else {
            dentries_text(entries) + seq![',', ' '] + key_text(k) + seq![' ', '=', ' ']
                + scalar_text(x)
        },
    decreases entries.len(),
{
    let p = entries.push((k, x));
    if entries.len() == 0 {
        assert(p.len() == 1);
        assert(p[0] == (k, x));
        assert(dentries_text(p) =~= key_text(k) + seq![' ', '=', ' '] + scalar_text(x));
    } else {
        assert(p[0] == entries[0]);
        let rest = entries.subrange(1, entries.len() as int);
        assert(p.subrange(1, p.len() as int) =~= rest.push((k, x)));
        lemma_dentries_text_push(rest, k, x);
        if entries.len() == 1 {
            assert(rest.len() == 0);
            assert(dentries_text(p) =~= dentries_text(entries) + seq![',', ' '] + key_text(k)
                + seq![' ', '=', ' '] + scalar_text(x));
        } else {
            assert(dentries_text(p) =~= dentries_text(entries) + seq![',', ' '] + key_text(k)
                + seq![' ', '=', ' '] + scalar_text(x));
        }
    }
}

/// Append one whole value's text: a scalar, an inline list, or an inline
/// table.
fn push_value(out: &mut String, v: &crate::config::ConfigItem)
    requires
        value_ok(v@),
    ensures
        final(out)@ == old(out)@ + value_text(v@),
{
    match v {
        crate::config::ConfigItem::List(items) => {
            proof {
                crate::config::lemma_items_v(items@);
                assert(v@ == ItemV::List(items_v(items@)));
                assert(value_ok(ItemV::List(items_v(items@))));
                assert forall|j: int|
                    0 <= j < items_v(items@).len() implies scalar_ok(
                    #[trigger] items_v(items@)[j],
                ) by {
                    assert(ItemV::List(items_v(items@))->List_0 == items_v(items@));
                }
            }
            out.push('[');
            let mut i: usize = 0;
            while i < items.len()
                invariant
                    i <= items@.len(),
                    items_v(items@).len() == items@.len(),
                    forall|j: int|
                        0 <= j < items@.len() ==> items_v(items@)[j] == item_v(
                            #[trigger] items@[j],
                        ),
                    forall|j: int|
                        0 <= j < items@.len() ==> scalar_ok(#[trigger] items_v(items@)[j]),
                    out@ == old(out)@ + seq!['['] + elems_text(
                        items_v(items@).subrange(0, i as int),
                    ),
                decreases items@.len() - i,
            {
                if i > 0 {
                    crate::strutil::push_str(out, ", ");
                    proof {
                        reveal_strlit(", ");
                        assert(", "@ =~= seq![',', ' ']);
                    }
                }
                let ghost pre = items_v(items@).subrange(0, i as int);
                let ghost cur = items_v(items@).subrange(0, i + 1 as int);
                proof {
                    assert(cur =~= pre.push(item_v(items@[i as int])));
                    lemma_elems_text_push(pre, item_v(items@[i as int]));
                }
                push_scalar(out, &items[i]);
                proof {
                    assert(out@ =~= old(out)@ + seq!['['] + elems_text(cur));
                }
                i = i + 1;
            }
            out.push(']');
            proof {
                assert(items_v(items@).subrange(0, items@.len() as int) =~= items_v(items@));
                assert(final(out)@ =~= old(out)@ + value_text(v@));
            }
        },
        crate::config::ConfigItem::Dict(entries) => {
            proof {
                crate::config::lemma_entries_v(entries@);
                assert(v@ == ItemV::Dict(entries_v(entries@)));
                assert(value_ok(ItemV::Dict(entries_v(entries@))));
                assert forall|j: int|
                    0 <= j < entries_v(entries@).len() implies scalar_ok(
                    (#[trigger] entries_v(entries@)[j]).1,
                ) by {
                    assert(ItemV::Dict(entries_v(entries@))->Dict_0 == entries_v(entries@));
                }
            }
            out.push('{');
            let mut i: usize = 0;
            while i < entries.len()
                invariant
                    i <= entries@.len(),
                    entries_v(entries@).len() == entries@.len(),
                    forall|j: int|
                        0 <= j < entries@.len() ==> entries_v(entries@)[j] == ((
                        #[trigger] entries@[j]).0@, item_v(entries@[j].1)),
                    forall|j: int|
                        0 <= j < entries@.len() ==> scalar_ok(
                            (#[trigger] entries_v(entries@)[j]).1,
                        ),
                    out@ == old(out)@ + seq!['{'] + dentries_text(
                        entries_v(entries@).subrange(0, i as int),
                    ),
                decreases entries@.len() - i,
            {
                if i > 0 {
                    crate::strutil::push_str(out, ", ");
                    proof {
                        reveal_strlit(", ");
                        assert(", "@ =~= seq![',', ' ']);
                    }
                }
                let ghost pre = entries_v(entries@).subrange(0, i as int);
                let ghost cur = entries_v(entries@).subrange(0, i + 1 as int);
                proof {
                    assert(cur =~= pre.push(
                        (entries@[i as int].0@, item_v(entries@[i as int].1)),
                    ));
                    lemma_dentries_text_push(
                        pre,
                        entries@[i as int].0@,
                        item_v(entries@[i as int].1),
                    );
                }
                let (k, ev) = &entries[i];
                push_key(out, k.as_str());
                crate::strutil::push_str(out, " = ");
                proof {
                    reveal_strlit(" = ");
                    assert(" = "@ =~= seq![' ', '=', ' ']);
                }
                push_scalar(out, ev);
                proof {
                    assert(out@ =~= old(out)@ + seq!['{'] + dentries_text(cur));
                }
                i = i + 1;
            }
            out.push('}');
            proof {
                assert(entries_v(entries@).subrange(0, entries@.len() as int) =~= entries_v(
                    entries@,
                ));
                assert(final(out)@ =~= old(out)@ + value_text(v@));
            }
        },
        other => {
            push_scalar(out, other);
        },
    }
}

/// Joining distributes over appending line groups.
pub proof fn lemma_join_append(ls1: Seq<Seq<char>>, ls2: Seq<Seq<char>>)
    ensures
        join_lines(ls1 + ls2) == join_lines(ls1) + join_lines(ls2),
    decreases ls1.len(),
{
    let all = ls1 + ls2;
    if ls1.len() == 0 {
        assert(all =~= ls2);
        assert(join_lines(ls1) =~= Seq::<char>::empty());
        assert(join_lines(ls1) + join_lines(ls2) =~= join_lines(ls2));
    } else {
        assert(all[0] == ls1[0]);
        let rest1 = ls1.subrange(1, ls1.len() as int);
        assert(all.subrange(1, all.len() as int) =~= rest1 + ls2);
        lemma_join_append(rest1, ls2);
        assert(join_lines(all) =~= join_lines(ls1) + join_lines(ls2));
    }
}

/// What each part gains when an entry is appended to the table.
proof fn lemma_partition_push(t: Seq<(Seq<char>, ItemV)>, e: (Seq<char>, ItemV))
    ensures
        ndp(t.push(e)) == if e.1 is Dict {
            ndp(t)
        } else {
            ndp(t).push(e)
        },
        dp(t.push(e)) == if e.1 is Dict {
            dp(t).push(e)
        } else {
            dp(t)
        },
    decreases t.len(),
{
    let p = t.push(e);
    if t.len() == 0 {
        assert(p[0] == e);
        assert(p.subrange(1, p.len() as int) =~= Seq::<(Seq<char>, ItemV)>::empty());
        assert(ndp(Seq::<(Seq<char>, ItemV)>::empty()) =~= Seq::<(Seq<char>, ItemV)>::empty());
        assert(dp(Seq::<(Seq<char>, ItemV)>::empty()) =~= Seq::<(Seq<char>, ItemV)>::empty());
        if e.1 is Dict {
            assert(ndp(p) =~= ndp(t));
            assert(dp(p) =~= dp(t).push(e));
        } else {
            assert(ndp(p) =~= ndp(t).push(e));
            assert(dp(p) =~= dp(t));
        }
    } else {
        assert(p[0] == t[0]);
        let rest = t.subrange(1, t.len() as int);
        assert(p.subrange(1, p.len() as int) =~= rest.push(e));
        lemma_partition_push(rest, e);
        if e.1 is Dict {
            assert(ndp(p) =~= ndp(t));
            assert(dp(p) =~= dp(t).push(e));
        } else {
            assert(ndp(p) =~= ndp(t).push(e));
            assert(dp(p) =~= dp(t));
        }
    }
}

/// The line a flat table gains when an entry is appended.
proof fn lemma_pair_lines_push(t: Seq<(Seq<char>, ItemV)>, e: (Seq<char>, ItemV))
    ensures
        pair_lines_of(t.push(e)) == pair_lines_of(t).push(pair_line(e.0, e.1)),
    decreases t.len(),
{
    let p = t.push(e);
    if t.len() == 0 {
        assert(p[0] == e);
        assert(p.subrange(1, p.len() as int) =~= Seq::<(Seq<char>, ItemV)>::empty());
        assert(pair_lines_of(Seq::<(Seq<char>, ItemV)>::empty()) =~= Seq::<Seq<char>>::empty());
        assert(pair_lines_of(p) =~= pair_lines_of(t).push(pair_line(e.0, e.1)));
    } else {
        assert(p[0] == t[0]);
        let rest = t.subrange(1, t.len() as int);
        assert(p.subrange(1, p.len() as int) =~= rest.push(e));
        lemma_pair_lines_push(rest, e);
        assert(pair_lines_of(p) =~= pair_lines_of(t).push(pair_line(e.0, e.1)));
    }
}

/// The lines a run of sections gains when a section is appended.
proof fn lemma_sections_push(d: Seq<(Seq<char>, ItemV)>, e: (Seq<char>, ItemV))
    requires
        e.1 is Dict,
    ensures
        sections_of(d.push(e)) == sections_of(d) + seq![Seq::<char>::empty()] + seq![
            header_line(e.0),
        ] + pair_lines_of(e.1->Dict_0),
    decreases d.len(),
{
    let p = d.push(e);
    if d.len() == 0 {
        assert(p[0] == e);
        assert(p.subrange(1, p.len() as int) =~= Seq::<(Seq<char>, ItemV)>::empty());
        assert(sections_of(Seq::<(Seq<char>, ItemV)>::empty()) =~= Seq::<Seq<char>>::empty());
        assert(sections_of(p) =~= sections_of(d) + seq![Seq::<char>::empty()] + seq![
            header_line(e.0),
        ] + pair_lines_of(e.1->Dict_0));
    } else {
        assert(p[0] == d[0]);
        let rest = d.subrange(1, d.len() as int);
        assert(p.subrange(1, p.len() as int) =~= rest.push(e));
        lemma_sections_push(rest, e);
        assert(sections_of(p) =~= sections_of(d) + seq![Seq::<char>::empty()] + seq![
            header_line(e.0),
        ] + pair_lines_of(e.1->Dict_0));
    }
}

/// The text a line group gains when a line is appended.
proof fn lemma_join_push(ls: Seq<Seq<char>>, l: Seq<char>)
    ensures
        join_lines(ls.push(l)) == join_lines(ls) + l + seq!['\n'],
{
    lemma_join_append(ls, seq![l]);
    assert(ls.push(l) =~= ls + seq![l]);
    assert(join_lines(seq![l]) =~= l + seq!['\n']) by {
        assert(seq![l][0] == l);
        assert(seq![l].subrange(1, 1) =~= Seq::<Seq<char>>::empty());
        assert(join_lines(Seq::<Seq<char>>::empty()) =~= Seq::<char>::empty());
    }
}

/// Append one `key = value` line, newline included.
fn push_pair_line(out: &mut String, k: &str, v: &crate::config::ConfigItem)
    requires
        value_ok(v@),
    ensures
        final(out)@ == old(out)@ + pair_line(k@, v@) + seq!['\n'],
{
    push_key(out, k);
    crate::strutil::push_str(out, " = ");
    proof {
        reveal_strlit(" = ");
        assert(" = "@ =~= seq![' ', '=', ' ']);
    }
    push_value(out, v);
    out.push('\n');
    proof {
        assert(final(out)@ =~= old(out)@ + pair_line(k@, v@) + seq!['\n']);
    }
}

/// Write a whole table as text: root bindings first, then one `[section]`
/// per table-valued entry.
pub fn table_to_text(t: &Vec<(String, crate::config::ConfigItem)>) -> (r: String)
    requires
        doc_ok(entries_v(t@)),
    ensures
        r@ == doc_text(entries_v(t@)),
{
    proof {
        crate::config::lemma_entries_v(t@);
    }
    let ghost full = entries_v(t@);
    let mut out = String::new();
    let mut i: usize = 0;
    while i < t.len()
        invariant
            i <= t@.len(),
            full == entries_v(t@),
            doc_ok(full),
            full.len() == t@.len(),
            forall|j: int|
                0 <= j < t@.len() ==> full[j] == ((#[trigger] t@[j]).0@, item_v(t@[j].1)),
            out@ == join_lines(pair_lines_of(ndp(full.subrange(0, i as int)))),
        decreases t@.len() - i,
    {
        let ghost pre = full.subrange(0, i as int);
        let ghost cur = full.subrange(0, i + 1 as int);
        proof {
            assert(cur =~= pre.push(full[i as int]));
            lemma_partition_push(pre, full[i as int]);
        }
        let (k, v) = &t[i];
        let is_dict = match v {
            crate::config::ConfigItem::Dict(_) => true,
            _ => false,
        };
        if !is_dict {
            proof {
                assert(value_ok(full[i as int].1)) by {
                    assert(full[i as int] == cur[i as int]);
                }
                lemma_pair_lines_push(ndp(pre), full[i as int]);
                lemma_join_push(pair_lines_of(ndp(pre)), pair_line(
                    full[i as int].0,
                    full[i as int].1,
                ));
            }
            push_pair_line(&mut out, k.as_str(), v);
        }
        i = i + 1;
    }
    proof {
        assert(full.subrange(0, t@.len() as int) =~= full);
    }
    // the sections
    let mut i: usize = 0;
    let ghost root_text = join_lines(pair_lines_of(ndp(full)));
    while i < t.len()
        invariant
            i <= t@.len(),
            full == entries_v(t@),
            doc_ok(full),
            full.len() == t@.len(),
            forall|j: int|
                0 <= j < t@.len() ==> full[j] == ((#[trigger] t@[j]).0@, item_v(t@[j].1)),
            root_text == join_lines(pair_lines_of(ndp(full))),
            out@ == root_text + join_lines(sections_of(dp(full.subrange(0, i as int)))),
        decreases t@.len() - i,
    {
        let ghost pre = full.subrange(0, i as int);
        let ghost cur = full.subrange(0, i + 1 as int);
        proof {
            assert(cur =~= pre.push(full[i as int]));
            lemma_partition_push(pre, full[i as int]);
        }
        let (k, v) = &t[i];
        match v {
            crate::config::ConfigItem::Dict(entries) => {
                proof {
                    crate::config::lemma_entries_v(entries@);
                    assert(full[i as int].1 == ItemV::Dict(entries_v(entries@)));
                    lemma_sections_push(dp(pre), full[i as int]);
                    lemma_join_append(
                        sections_of(dp(pre)),
                        seq![Seq::<char>::empty()] + seq![
                            header_line(full[i as int].0),
                        ] + pair_lines_of(entries_v(entries@)),
                    );
                    assert(sections_of(dp(cur)) =~= sections_of(dp(pre)) + (seq![
                        Seq::<char>::empty(),
                    ] + seq![header_line(full[i as int].0)] + pair_lines_of(
                        entries_v(entries@),
                    )));
                }
                out.push('\n');
                out.push('[');
                push_key(&mut out, k.as_str());
                crate::strutil::push_str(&mut out, "]\n");
                proof {
                    reveal_strlit("]\n");
                    assert("]\n"@ =~= seq![']', '\n']);
                }
                let ghost sect_start = out@;
                let mut j: usize = 0;
                while j < entries.len()
                    invariant
                        j <= entries@.len(),
                        entries_v(entries@).len() == entries@.len(),
                        forall|m: int|
                            0 <= m < entries@.len() ==> entries_v(entries@)[m] == ((
                            #[trigger] entries@[m]).0@, item_v(entries@[m].1)),
                        forall|m: int|
                            0 <= m < entries_v(entries@).len() ==> value_ok(
                                (#[trigger] entries_v(entries@)[m]).1,
                            ),
                        out@ == sect_start + join_lines(
                            pair_lines_of(entries_v(entries@).subrange(0, j as int)),
                        ),
                    decreases entries@.len() - j,
                {
                    let ghost epre = entries_v(entries@).subrange(0, j as int);
                    let ghost ecur = entries_v(entries@).subrange(0, j + 1 as int);
                    proof {
                        assert(ecur =~= epre.push(entries_v(entries@)[j as int]));
                        lemma_pair_lines_push(epre, entries_v(entries@)[j as int]);
                        lemma_join_push(pair_lines_of(epre), pair_line(
                            entries_v(entries@)[j as int].0,
                            entries_v(entries@)[j as int].1,
                        ));
                    }
                    let (ek, ev) = &entries[j];
                    push_pair_line(&mut out, ek.as_str(), ev);
                    j = j + 1;
                }
                proof {
                    assert(entries_v(entries@).subrange(0, entries@.len() as int) =~= entries_v(
                        entries@,
                    ));
                    // the blank line, header line, and pair lines joined
                    let grp = seq![Seq::<char>::empty()] + seq![
                        header_line(full[i as int].0),
                    ] + pair_lines_of(entries_v(entries@));
                    lemma_join_append(
                        seq![Seq::<char>::empty()] + seq![header_line(full[i as int].0)],
                        pair_lines_of(entries_v(entries@)),
                    );
                    assert((seq![Seq::<char>::empty()] + seq![header_line(full[i as int].0)])
                        + pair_lines_of(entries_v(entries@)) =~= grp);
                    lemma_join_append(
                        seq![Seq::<char>::empty()],
                        seq![header_line(full[i as int].0)],
                    );
                    assert(seq![Seq::<char>::empty()] + seq![header_line(full[i as int].0)] =~= (
                    seq![Seq::<char>::empty()] + seq![header_line(full[i as int].0)]));
                    assert(join_lines(seq![Seq::<char>::empty()]) =~= seq!['\n']) by {
                        assert(seq![Seq::<char>::empty()][0] =~= Seq::<char>::empty());
                        assert(seq![Seq::<char>::empty()].subrange(1, 1)
                            =~= Seq::<Seq<char>>::empty());
                        assert(join_lines(Seq::<Seq<char>>::empty()) =~= Seq::<char>::empty());
                    }
                    assert(join_lines(seq![header_line(full[i as int].0)]) =~= header_line(
                        full[i as int].0,
                    ) + seq!['\n']) by {
                        assert(seq![header_line(full[i as int].0)][0] == header_line(
                            full[i as int].0,
                        ));
                        assert(seq![header_line(full[i as int].0)].subrange(1, 1)
                            =~= Seq::<Seq<char>>::empty());
                        assert(join_lines(Seq::<Seq<char>>::empty()) =~= Seq::<char>::empty());
                    }
                    assert(sect_start =~= root_text + join_lines(sections_of(dp(pre))) + seq![
                        '\n',
                    ] + seq!['['] + key_text(full[i as int].0) + seq![']', '\n']);
                    assert(header_line(full[i as int].0) =~= seq!['['] + key_text(
                        full[i as int].0,
                    ) + seq![']']);
                    assert(out@ =~= root_text + join_lines(sections_of(dp(cur))));
                }
            },
            _ => {
                proof {
                    assert(sections_of(dp(cur)) == sections_of(dp(pre)));
                }
            },
        }
        i = i + 1;
    }
    proof {
        assert(full.subrange(0, t@.len() as int) =~= full);
        lemma_join_append(pair_lines_of(ndp(full)), sections_of(dp(full)));
        assert(out@ =~= doc_text(full));
    }
    out
}

/// Advance past horizontal whitespace.
fn skip_ws_at(s: &Vec<char>, pos: usize) -> (r: usize)
    requires
        pos <= s@.len(),
    ensures
        pos <= r <= s@.len(),
        s@.subrange(r as int, s@.len() as int) == skip_ws(
            s@.subrange(pos as int, s@.len() as int),
        ),
{
    let mut i = pos;
    while i < s.len() && ws_char(s[i])
        invariant
            pos <= i <= s@.len(),
            forall|j: int| pos <= j < i ==> is_ws(#[trigger] s@[j]),
        decreases s@.len() - i,
    {
        i = i + 1;
    }
    proof {
        let suffix = s@.subrange(pos as int, s@.len() as int);
        let pre = s@.subrange(pos as int, i as int);
        let rest = s@.subrange(i as int, s@.len() as int);
        assert(suffix =~= pre + rest);
        assert(forall|j: int| 0 <= j < pre.len() ==> is_ws(#[trigger] pre[j]));
        lemma_skip_ws_exact(pre, rest);
    }
    i
}

/// Read a quoted string body starting right after the opening quote.
fn qstr_at(s: &Vec<char>, pos: usize) -> (r: Option<(Vec<char>, usize)>)
    requires
        pos <= s@.len(),
    ensures
        match r {
            Option::Some((content, p2)) => {
                &&& pos <= p2 <= s@.len()
                &&& parse_qstr(s@.subrange(pos as int, s@.len() as int)) == Option::Some(
                    (content@, s@.subrange(p2 as int, s@.len() as int)),
                )
            },
            Option::None => parse_qstr(s@.subrange(pos as int, s@.len() as int)) is None,
        },
    decreases s@.len() - pos,
{
    let ghost suffix = s@.subrange(pos as int, s@.len() as int);
    if pos == s.len() {
        return None;
    }
    let c = s[pos];
    assert(c == suffix[0]);
    if c == '"' {
        proof {
            assert(suffix.subrange(1, suffix.len() as int) =~= s@.subrange(
                pos + 1,
                s@.len() as int,
            ));
        }
        return Some((Vec::new(), pos + 1));
    }
    if c == '\\' {
        if pos + 1 == s.len() {
            assert(suffix.len() < 2);
            return None;
        }
        let e = s[pos + 1];
        assert(e == suffix[1]);
        let dec: Option<char> = if e == '"' {
            Some('"')
        } else if e == '\\' {
            Some('\\')
        } else if e == 'n' {
            Some('\n')
        } else if e == 'r' {
            Some('\r')
        } else if e == 't' {
            Some('\t')
        } else {
            None
        };
        assert(dec == unesc(suffix[1]));
        match dec {
            None => {
                return None;
            },
            Some(d) => {
                proof {
                    assert(suffix.subrange(2, suffix.len() as int) =~= s@.subrange(
                        pos + 2,
                        s@.len() as int,
                    ));
                }
                match qstr_at(s, pos + 2) {
                    None => {
                        return None;
                    },
                    Some((mut content, p2)) => {
                        content.insert(0, d);
                        proof {
                            let tail_content = content@.subrange(1, content@.len() as int);
                            assert(content@ =~= seq![d] + tail_content);
                        }
                        return Some((content, p2));
                    },
                }
            },
        }
    }
    if c == '\n' || c == '\r' {
        return None;
    }
    proof {
        assert(suffix.subrange(1, suffix.len() as int) =~= s@.subrange(
            pos + 1,
            s@.len() as int,
        ));
    }
    match qstr_at(s, pos + 1) {
        None => None,
        Some((mut content, p2)) => {
            content.insert(0, c);
            proof {
                let tail_content = content@.subrange(1, content@.len() as int);
                assert(content@ =~= seq![c] + tail_content);
            }
            Some((content, p2))
        },
    }
}

/// The length of the plain token starting at `pos`.
fn tok_len_at(s: &Vec<char>, pos: usize) -> (r: usize)
    requires
        pos <= s@.len(),
    ensures
        r == tok_len(s@.subrange(pos as int, s@.len() as int)),
        pos + r <= s@.len(),
{
    let mut i = pos;
    while i < s.len() && !tok_end_char(s[i])
        invariant
            pos <= i <= s@.len(),
            forall|j: int| pos <= j < i ==> !is_tok_end(#[trigger] s@[j]),
        decreases s@.len() - i,
    {
        i = i + 1;
    }
    proof {
        let suffix = s@.subrange(pos as int, s@.len() as int);
        let pre = s@.subrange(pos as int, i as int);
        let rest = s@.subrange(i as int, s@.len() as int);
        assert(suffix =~= pre + rest);
        assert(forall|j: int| 0 <= j < pre.len() ==> !is_tok_end(#[trigger] pre[j]));
        lemma_tok_len_exact(pre, rest);
    }
    i - pos
}

/// The length of the bare key starting at `pos`.
fn bare_len_at(s: &Vec<char>, pos: usize) -> (r: usize)
    requires
        pos <= s@.len(),
    ensures
        r == bare_len(s@.subrange(pos as int, s@.len() as int)),
        pos + r <= s@.len(),
{
    let mut i = pos;
    while i < s.len() && bare_char(s[i])
        invariant
            pos <= i <= s@.len(),
            forall|j: int| pos <= j < i ==> is_bare_char(#[trigger] s@[j]),
        decreases s@.len() - i,
    {
        i = i + 1;
    }
    proof {
        let suffix = s@.subrange(pos as int, s@.len() as int);
        let pre = s@.subrange(pos as int, i as int);
        let rest = s@.subrange(i as int, s@.len() as int);
        assert(suffix =~= pre + rest);
        assert(forall|j: int| 0 <= j < pre.len() ==> is_bare_char(#[trigger] pre[j]));
        lemma_bare_len_exact(pre, rest);
    }
    i - pos
}

/// Earlier digits never make the number smaller.
proof fn lemma_digits_val_grows(s: Seq<char>, i: int)
    requires
        0 <= i <= s.len(),
    ensures
        digits_val(s.subrange(0, i)) <= digits_val(s),
    decreases s.len() - i,
{
    if i < s.len() {
        let a = s.subrange(0, i);
        let b = s.subrange(0, i + 1);
        assert(b.drop_last() =~= a);
        assert(digits_val(b) == digits_val(a) * 10 + digit_val(b.last()));
        assert(digits_val(a) * 10 >= digits_val(a)) by (nonlinear_arith);
        lemma_digits_val_grows(s, i + 1);
    } else {
        assert(s.subrange(0, i) =~= s);
    }
}

/// Read the digits of `t` from `from` on as a number, failing on values
/// beyond `limit`.
fn digits_to_u64(t: &Vec<char>, from: usize, limit: u64) -> (r: Option<u64>)
    requires
        limit >= 9,
        from <= t@.len(),
        forall|j: int| from <= j < t@.len() ==> is_digit(#[trigger] t@[j]),
    ensures
        match r {
            Option::Some(v) => v == digits_val(t@.subrange(from as int, t@.len() as int)) && v
                <= limit,
            Option::None => digits_val(t@.subrange(from as int, t@.len() as int)) > limit,
        },
{
    let ghost digits = t@.subrange(from as int, t@.len() as int);
    let mut acc: u64 = 0;
    let mut i = from;
    while i < t.len()
        invariant
            limit >= 9,
            from <= i <= t@.len(),
            digits == t@.subrange(from as int, t@.len() as int),
            forall|j: int| from <= j < t@.len() ==> is_digit(#[trigger] t@[j]),
            acc == digits_val(digits.subrange(0, i - from)),
            acc <= limit,
        decreases t@.len() - i,
    {
        let c = t[i];
        assert(is_digit(c));
        let d: u64 = (c as u32 as u64) - 48;
        assert(d <= 9);
        let ghost pre = digits.subrange(0, i - from);
        let ghost cur = digits.subrange(0, i + 1 - from);
        proof {
            assert(cur.drop_last() =~= pre);
            assert(cur.last() == t@[i as int]);
            assert(digit_val(c) == d);
        }
        if acc > (limit - d) / 10 {
            proof {
                assert(acc * 10 + d > limit) by (nonlinear_arith)
                    requires
                        acc > (limit - d) / 10,
                        d <= limit,
                        limit <= u64::MAX,
                ;
                assert(digits_val(cur) == acc * 10 + d);
                lemma_digits_val_grows(digits, i + 1 - from);
                assert(cur =~= digits.subrange(0, i + 1 - from));
            }
            return None;
        }
        proof {
            assert(acc * 10 + d <= limit) by (nonlinear_arith)
                requires
                    acc <= (limit - d) / 10,
                    d <= limit,
                    limit <= u64::MAX,
            ;
        }
        acc = acc * 10 + d;
        i = i + 1;
    }
    proof {
        assert(digits.subrange(0, t@.len() - from) =~= digits);
    }
    Some(acc)
}

/// The value a plain token stands for, as a configuration value.
fn classify_token(t: &Vec<char>) -> (r: Option<ConfigItem>)
    ensures
        match r {
            Option::Some(c) => token_value(t@) == Option::Some(item_v(c)) && scalar_ok(
                item_v(c),
            ),
            Option::None => token_value(t@) is None,
        },
{
    // keywords
    if t.len() == 4 && t[0] == 't' && t[1] == 'r' && t[2] == 'u' && t[3] == 'e' {
        assert(is_kw_true(t@));
        return Some(ConfigItem::Bool(true));
    }
    assert(!is_kw_true(t@));
    if t.len() == 5 && t[0] == 'f' && t[1] == 'a' && t[2] == 'l' && t[3] == 's' && t[4] == 'e' {
        assert(is_kw_false(t@));
        return Some(ConfigItem::Bool(false));
    }
    assert(!is_kw_false(t@));
    // integer literal?
    let neg = t.len() > 0 && t[0] == '-';
    let digits_from: usize = if neg {
        1
    } else {
        0
    };
    let mut all_digits = t.len() > digits_from;
    let mut i = digits_from;
    while i < t.len()
        invariant
            digits_from <= i <= t@.len(),
            all_digits == (t@.len() > digits_from && forall|j: int|
                digits_from <= j < i ==> is_digit(#[trigger] t@[j])),
        decreases t@.len() - i,
    {
        if !digit_char_p(t[i]) {
            all_digits = false;
        }
        i = i + 1;
    }
    if all_digits {
        assert(int_lit_wf(t@));
        let limit: u64 = if neg {
            9223372036854775808u64
        } else {
            9223372036854775807u64
        };
        match digits_to_u64(t, digits_from, limit) {
            None => {
                proof {
                    if neg {
                        assert(t@.subrange(1, t@.len() as int) =~= t@.subrange(
                            digits_from as int,
                            t@.len() as int,
                        ));
                        assert(int_val(t@) < i64::MIN);
                    } else {
                        assert(t@.subrange(0, t@.len() as int) =~= t@);
                        assert(int_val(t@) > i64::MAX);
                    }
                }
                return None;
            },
            Some(mag) => {
                let value: i64 = if !neg {
                    mag as i64
                } else if mag == 9223372036854775808u64 {
                    i64::MIN
                } else {
                    -(mag as i64)
                };
                proof {
                    if neg {
                        assert(t@.subrange(1, t@.len() as int) =~= t@.subrange(
                            digits_from as int,
                            t@.len() as int,
                        ));
                        assert(int_val(t@) == -(mag as int));
                    } else {
                        assert(t@.subrange(0, t@.len() as int) =~= t@);
                        assert(int_val(t@) == mag as int);
                    }
                    assert(value as int == int_val(t@));
                }
                return Some(ConfigItem::I64(value));
            },
        }
    }
    assert(!int_lit_wf(t@)) by {
        if int_lit_wf(t@) {
            if t@.len() > 0 && t@[0] == '-' {
                assert(t@.len() > digits_from);
            } else {
                assert(t@.len() > digits_from);
            }
        }
    }
    // float literal?
    if t.len() == 0 {
        assert(!float_lit_wf(t@));
        return None;
    }
    let c0 = t[0];
    let first_ok = digit_char_p(c0) || c0 == '-' || c0 == '+' || c0 == 'i' || c0 == 'n';
    if !first_ok {
        assert(!float_lit_wf(t@));
        return None;
    }
    let mut all_num = true;
    let mut has_marker = false;
    let mut i: usize = 0;
    while i < t.len()
        invariant
            i <= t@.len(),
            all_num == (forall|j: int| 0 <= j < i ==> is_num_char(#[trigger] t@[j])),
            has_marker == (exists|j: int|
                0 <= j < i && ((#[trigger] t@[j]) == '.' || t@[j] == 'e' || t@[j] == 'E'
                    || t@[j] == 'i' || t@[j] == 'n')),
        decreases t@.len() - i,
    {
        let c = t[i];
        if !num_char(c) {
            all_num = false;
        }
        if c == '.' || c == 'e' || c == 'E' || c == 'i' || c == 'n' {
            proof {
                assert((t@[i as int]) == '.' || t@[i as int] == 'e' || t@[i as int] == 'E'
                    || t@[i as int] == 'i' || t@[i as int] == 'n');
            }
            has_marker = true;
        }
        i = i + 1;
    }
    if all_num && has_marker {
        assert(float_lit_wf(t@));
        let lit = crate::strutil::chars_to_string(t);
        return Some(ConfigItem::F64(lit));
    }
    assert(!float_lit_wf(t@));
    None
}

/// Read one scalar value starting at `pos`.
fn scalar_at(s: &Vec<char>, pos: usize) -> (r: Option<(ConfigItem, usize)>)
    requires
        pos <= s@.len(),
    ensures
        match r {
            Option::Some((c, p2)) => {
                &&& pos < p2 <= s@.len()
                &&& parse_scalar(s@.subrange(pos as int, s@.len() as int)) == Option::Some(
                    (item_v(c), s@.subrange(p2 as int, s@.len() as int)),
                )
                &&& scalar_ok(item_v(c))
            },
            Option::None => parse_scalar(s@.subrange(pos as int, s@.len() as int)) is None,
        },
{
    let ghost suffix = s@.subrange(pos as int, s@.len() as int);
    proof {
        lemma_parse_scalar_consumes(suffix);
    }
    if pos == s.len() {
        return None;
    }
    let c = s[pos];
    assert(c == suffix[0]);
    if c == '"' {
        proof {
            assert(suffix.subrange(1, suffix.len() as int) =~= s@.subrange(
                pos + 1,
                s@.len() as int,
            ));
        }
        match qstr_at(s, pos + 1) {
            None => None,
            Some((content, p2)) => {
                let text = crate::strutil::chars_to_string(&content);
                Some((ConfigItem::Str(text), p2))
            },
        }
    } else {
        let n = tok_len_at(s, pos);
        if n == 0 {
            return None;
        }
        let mut token: Vec<char> = Vec::new();
        let mut i = pos;
        while i < pos + n
            invariant
                pos <= i <= pos + n,
                pos + n <= s@.len(),
                s@.len() <= usize::MAX,
                token@ == s@.subrange(pos as int, i as int),
            decreases pos + n - i,
        {
            token.push(s[i]);
            proof {
                assert(token@ =~= s@.subrange(pos as int, i + 1 as int));
            }
            i = i + 1;
        }
        proof {
            assert(token@ =~= suffix.subrange(0, n as int));
        }
        match classify_token(&token) {
            None => None,
            Some(v) => {
                proof {
                    assert(suffix.subrange(n as int, suffix.len() as int) =~= s@.subrange(
                        pos + n,
                        s@.len() as int,
                    ));
                }
                Some((v, pos + n))
            },
        }
    }
}

/// Read an inline list's elements, after the opening bracket.
fn list_elems_at(s: &Vec<char>, pos: usize) -> (r: Option<(Vec<ConfigItem>, usize)>)
    requires
        pos <= s@.len(),
    ensures
        match r {
            Option::Some((items, p2)) => {
                &&& pos <= p2 <= s@.len()
                &&& parse_list_elems(s@.subrange(pos as int, s@.len() as int)) == Option::Some(
                    (items_v(items@), s@.subrange(p2 as int, s@.len() as int)),
                )
                &&& value_ok(ItemV::List(items_v(items@)))
            },
            Option::None => parse_list_elems(s@.subrange(pos as int, s@.len() as int)) is None,
        },
    decreases s@.len() - pos,
{
    let ghost suffix = s@.subrange(pos as int, s@.len() as int);
    let p1 = skip_ws_at(s, pos);
    let ghost s1 = skip_ws(suffix);
    proof {
        assert(s1 == s@.subrange(p1 as int, s@.len() as int));
    }
    if p1 == s.len() {
        return None;
    }
    let c = s[p1];
    assert(c == s1[0]);
    if c == ']' {
        proof {
            assert(s1.subrange(1, s1.len() as int) =~= s@.subrange(p1 + 1, s@.len() as int));
            crate::config::lemma_items_v(Seq::<ConfigItem>::empty());
            assert(items_v(Seq::<ConfigItem>::empty()) =~= Seq::<ItemV>::empty());
        }
        let items: Vec<ConfigItem> = Vec::new();
        proof {
            assert(items_v(items@) =~= Seq::<ItemV>::empty());
            assert(value_ok(ItemV::List(items_v(items@))));
        }
        return Some((items, p1 + 1));
    }
    match scalar_at(s, p1) {
        None => None,
        Some((v, pa)) => {
            let ghost after = s@.subrange(pa as int, s@.len() as int);
            let pr1 = skip_ws_at(s, pa);
            let ghost r1 = skip_ws(after);
            proof {
                assert(r1 == s@.subrange(pr1 as int, s@.len() as int));
            }
            if pr1 == s.len() {
                return None;
            }
            let c2 = s[pr1];
            assert(c2 == r1[0]);
            if c2 == ',' {
                proof {
                    assert(r1.subrange(1, r1.len() as int) =~= s@.subrange(
                        pr1 + 1,
                        s@.len() as int,
                    ));
                }
                match list_elems_at(s, pr1 + 1) {
                    None => None,
                    Some((mut tail, p2)) => {
                        let ghost old_tail = tail@;
                        tail.insert(0, v);
                        proof {
                            let tv = tail@.subrange(1, tail@.len() as int);
                            assert(tv =~= old_tail);
                            assert(tail@[0] == v);
                            assert(tail@ =~= seq![tail@[0]] + tv);
                            crate::config::lemma_items_v(tail@);
                            crate::config::lemma_items_v(tv);
                            assert forall|j: int|
                                0 <= j < tail@.len() implies items_v(tail@)[j] == (seq![
                                item_v(tail@[0]),
                            ] + items_v(tv))[j] by {
                                if j > 0 {
                                    assert(tv[j - 1] == tail@[j]);
                                }
                            }
                            assert(items_v(tail@) =~= seq![item_v(tail@[0])] + items_v(tv));
                            assert forall|j: int|
                                0 <= j < items_v(tail@).len() implies scalar_ok(
                                #[trigger] items_v(tail@)[j],
                            ) by {
                                if j == 0 {
                                    assert(items_v(tail@)[0] == item_v(tail@[0]));
                                    assert(scalar_ok(item_v(v)));
                                    assert(item_v(tail@[0]) == item_v(v));
                                } else {
                                    assert(items_v(tail@)[j] == items_v(tv)[j - 1]);
                                    assert(items_v(tv) == items_v(old_tail));
                                    assert(value_ok(ItemV::List(items_v(tv))));
                                    assert(ItemV::List(items_v(tv))->List_0 == items_v(tv));
                                    assert(scalar_ok(items_v(tv)[j - 1]));
                                }
                            }
                        }
                        Some((tail, p2))
                    },
                }
            } else if c2 == ']' {
                proof {
                    assert(r1.subrange(1, r1.len() as int) =~= s@.subrange(
                        pr1 + 1,
                        s@.len() as int,
                    ));
                }
                let mut items: Vec<ConfigItem> = Vec::new();
                items.push(v);
                proof {
                    crate::config::lemma_items_v(items@);
                    assert(items_v(items@) =~= seq![item_v(items@[0])]);
                    assert forall|j: int|
                        0 <= j < items_v(items@).len() implies scalar_ok(
                        #[trigger] items_v(items@)[j],
                    ) by {
                        assert(items_v(items@)[j] == item_v(items@[0]));
                    }
                }
                Some((items, pr1 + 1))
            } else {
                None
            }
        },
    }
}

/// Read a key starting at `pos`: bare or quoted.
fn key_at(s: &Vec<char>, pos: usize) -> (r: Option<(String, usize)>)
    requires
        pos <= s@.len(),
    ensures
        match r {
            Option::Some((k, p2)) => {
                &&& pos < p2 <= s@.len()
                &&& parse_key(s@.subrange(pos as int, s@.len() as int)) == Option::Some(
                    (k@, s@.subrange(p2 as int, s@.len() as int)),
                )
            },
            Option::None => parse_key(s@.subrange(pos as int, s@.len() as int)) is None,
        },
{
    let ghost suffix = s@.subrange(pos as int, s@.len() as int);
    proof {
        lemma_parse_key_consumes(suffix);
    }
    if pos == s.len() {
        return None;
    }
    let c = s[pos];
    assert(c == suffix[0]);
    if c == '"' {
        proof {
            assert(suffix.subrange(1, suffix.len() as int) =~= s@.subrange(
                pos + 1,
                s@.len() as int,
            ));
        }
        match qstr_at(s, pos + 1) {
            None => None,
            Some((content, p2)) => Some((crate::strutil::chars_to_string(&content), p2)),
        }
    } else {
        let n = bare_len_at(s, pos);
        if n == 0 {
            return None;
        }
        let mut key: Vec<char> = Vec::new();
        let mut i = pos;
        while i < pos + n
            invariant
                pos <= i <= pos + n,
                pos + n <= s@.len(),
                s@.len() <= usize::MAX,
                key@ == s@.subrange(pos as int, i as int),
            decreases pos + n - i,
        {
            key.push(s[i]);
            proof {
                assert(key@ =~= s@.subrange(pos as int, i + 1 as int));
            }
            i = i + 1;
        }
        proof {
            assert(key@ =~= suffix.subrange(0, n as int));
            assert(suffix.subrange(n as int, suffix.len() as int) =~= s@.subrange(
                pos + n,
                s@.len() as int,
            ));
        }
        Some((crate::strutil::chars_to_string(&key), pos + n))
    }
}

/// Read an inline table's entries, after the opening brace.
fn dict_elems_at(s: &Vec<char>, pos: usize) -> (r: Option<
    (Vec<(String, ConfigItem)>, usize),
>)
    requires
        pos <= s@.len(),
    ensures
        match r {
            Option::Some((entries, p2)) => {
                &&& pos <= p2 <= s@.len()
                &&& parse_dict_elems(s@.subrange(pos as int, s@.len() as int)) == Option::Some(
                    (entries_v(entries@), s@.subrange(p2 as int, s@.len() as int)),
                )
                &&& value_ok(ItemV::Dict(entries_v(entries@)))
            },
            Option::None => parse_dict_elems(s@.subrange(pos as int, s@.len() as int)) is None,
        },
    decreases s@.len() - pos,
{
    let ghost suffix = s@.subrange(pos as int, s@.len() as int);
    let p1 = skip_ws_at(s, pos);
    let ghost s1 = skip_ws(suffix);
    proof {
        assert(s1 == s@.subrange(p1 as int, s@.len() as int));
    }
    if p1 == s.len() {
        return None;
    }
    let c = s[p1];
    assert(c == s1[0]);
    if c == '}' {
        proof {
            assert(s1.subrange(1, s1.len() as int) =~= s@.subrange(p1 + 1, s@.len() as int));
        }
        let entries: Vec<(String, ConfigItem)> = Vec::new();
        proof {
            crate::config::lemma_entries_v(entries@);
            assert(entries_v(entries@) =~= Seq::<(Seq<char>, ItemV)>::empty());
            assert(value_ok(ItemV::Dict(entries_v(entries@))));
        }
        return Some((entries, p1 + 1));
    }
    match key_at(s, p1) {
        None => None,
        Some((k, pk)) => {
            let ghost kr = s@.subrange(pk as int, s@.len() as int);
            let pr1 = skip_ws_at(s, pk);
            let ghost r1 = skip_ws(kr);
            proof {
                assert(r1 == s@.subrange(pr1 as int, s@.len() as int));
            }
            if pr1 == s.len() {
                return None;
            }
            let ce = s[pr1];
            assert(ce == r1[0]);
            if ce != '=' {
                return None;
            }
            proof {
                assert(r1.subrange(1, r1.len() as int) =~= s@.subrange(
                    pr1 + 1,
                    s@.len() as int,
                ));
            }
            let pv0 = skip_ws_at(s, pr1 + 1);
            let ghost r2 = skip_ws(r1.subrange(1, r1.len() as int));
            proof {
                assert(r2 == s@.subrange(pv0 as int, s@.len() as int));
            }
            match scalar_at(s, pv0) {
                None => None,
                Some((v, pa)) => {
                    let ghost after = s@.subrange(pa as int, s@.len() as int);
                    let pr3 = skip_ws_at(s, pa);
                    let ghost r3 = skip_ws(after);
                    proof {
                        assert(r3 == s@.subrange(pr3 as int, s@.len() as int));
                    }
                    if pr3 == s.len() {
                        return None;
                    }
                    let c3 = s[pr3];
                    assert(c3 == r3[0]);
                    if c3 == ',' {
                        proof {
                            assert(r3.subrange(1, r3.len() as int) =~= s@.subrange(
                                pr3 + 1,
                                s@.len() as int,
                            ));
                        }
                        match dict_elems_at(s, pr3 + 1) {
                            None => None,
                            Some((mut tail, p2)) => {
                                let dup = match crate::config::table_get(&tail, k.as_str()) {
                                    Some(_) => true,
                                    None => false,
                                };
                                if dup {
                                    return None;
                                }
                                let ghost old_tail = tail@;
                                let ghost kv = (k@, item_v(v));
                                tail.insert(0, (k, v));
                                proof {
                                    let tv = tail@.subrange(1, tail@.len() as int);
                                    assert(tv =~= old_tail);
                                    assert(tail@[0].0@ == kv.0 && item_v(tail@[0].1) == kv.1);
                                    assert(tail@ =~= seq![tail@[0]] + tv);
                                    crate::config::lemma_entries_v(tail@);
                                    crate::config::lemma_entries_v(tv);
                                    assert forall|j: int|
                                        0 <= j < tail@.len() implies entries_v(tail@)[j] == (seq![
                                        (tail@[0].0@, item_v(tail@[0].1)),
                                    ] + entries_v(tv))[j] by {
                                        if j > 0 {
                                            assert(tv[j - 1] == tail@[j]);
                                        }
                                    }
                                    assert(entries_v(tail@) =~= seq![
                                        (tail@[0].0@, item_v(tail@[0].1)),
                                    ] + entries_v(tv));
                                    assert(value_ok(ItemV::Dict(entries_v(tv))));
                                    assert forall|j: int|
                                        0 <= j < entries_v(tail@).len() implies scalar_ok(
                                        (#[trigger] entries_v(tail@)[j]).1,
                                    ) by {
                                        if j == 0 {
                                            assert(entries_v(tail@)[0].1 == item_v(tail@[0].1));
                                        } else {
                                            assert(entries_v(tail@)[j] == entries_v(tv)[j - 1]);
                                        }
                                    }
                                    assert forall|a: int, b: int|
                                        0 <= a < b < entries_v(tail@).len() implies (
                                    #[trigger] entries_v(tail@)[a]).0 != (#[trigger] entries_v(
                                        tail@,
                                    )[b]).0 by {
                                        if a == 0 {
                                            assert(entries_v(tail@)[b] == entries_v(tv)[b - 1]);
                                            lemma_tbl_get_none_keys(entries_v(tv), tail@[0].0@);
                                        } else {
                                            assert(entries_v(tail@)[a] == entries_v(tv)[a - 1]);
                                            assert(entries_v(tail@)[b] == entries_v(tv)[b - 1]);
                                        }
                                    }
                                }
                                Some((tail, p2))
                            },
                        }
                    } else if c3 == '}' {
                        proof {
                            assert(r3.subrange(1, r3.len() as int) =~= s@.subrange(
                                pr3 + 1,
                                s@.len() as int,
                            ));
                        }
                        let mut entries: Vec<(String, ConfigItem)> = Vec::new();
                        entries.push((k, v));
                        proof {
                            crate::config::lemma_entries_v(entries@);
                            assert(entries_v(entries@) =~= seq![
                                (entries@[0].0@, item_v(entries@[0].1)),
                            ]);
                            assert forall|j: int|
                                0 <= j < entries_v(entries@).len() implies scalar_ok(
                                (#[trigger] entries_v(entries@)[j]).1,
                            ) by {
                                assert(entries_v(entries@)[j].1 == item_v(entries@[0].1));
                            }
                        }
                        Some((entries, pr3 + 1))
                    } else {
                        None
                    }
                },
            }
        },
    }
}

/// Read one whole value starting at `pos`; the rest of the input may hold
/// only whitespace.
fn value_at(s: &Vec<char>, pos: usize) -> (r: Option<ConfigItem>)
    requires
        pos <= s@.len(),
    ensures
        match r {
            Option::Some(c) => parse_value(s@.subrange(pos as int, s@.len() as int))
                == Option::Some(item_v(c)) && value_ok(item_v(c)),
            Option::None => parse_value(s@.subrange(pos as int, s@.len() as int)) is None,
        },
{
    let ghost suffix = s@.subrange(pos as int, s@.len() as int);
    if pos == s.len() {
        return None;
    }
    let c = s[pos];
    assert(c == suffix[0]);
    if c == '[' {
        proof {
            assert(suffix.subrange(1, suffix.len() as int) =~= s@.subrange(
                pos + 1,
                s@.len() as int,
            ));
        }
        match list_elems_at(s, pos + 1) {
            None => None,
            Some((items, p2)) => {
                let pe = skip_ws_at(s, p2);
                if pe == s.len() {
                    Some(ConfigItem::List(items))
                } else {
                    proof {
                        assert(skip_ws(s@.subrange(p2 as int, s@.len() as int)).len() > 0);
                    }
                    None
                }
            },
        }
    } else if c == '{' {
        proof {
            assert(suffix.subrange(1, suffix.len() as int) =~= s@.subrange(
                pos + 1,
                s@.len() as int,
            ));
        }
        match dict_elems_at(s, pos + 1) {
            None => None,
            Some((entries, p2)) => {
                let pe = skip_ws_at(s, p2);
                if pe == s.len() {
                    Some(ConfigItem::Dict(entries))
                } else {
                    proof {
                        assert(skip_ws(s@.subrange(p2 as int, s@.len() as int)).len() > 0);
                    }
                    None
                }
            },
        }
    } else {
        match scalar_at(s, pos) {
            None => None,
            Some((v, p2)) => {
                let pe = skip_ws_at(s, p2);
                if pe == s.len() {
                    Some(v)
                } else {
                    proof {
                        assert(skip_ws(s@.subrange(p2 as int, s@.len() as int)).len() > 0);
                    }
                    None
                }
            },
        }
    }
}

/// Trimming the end removes exactly the trailing whitespace run.
proof fn lemma_trim_end_exact(x: Seq<char>, m: int)
    requires
        0 <= m <= x.len(),
        forall|j: int| m <= j < x.len() ==> is_ws(#[trigger] x[j]),
        m == 0 || !is_ws(x[m - 1]),
    ensures
        trim_end(x) == x.subrange(0, m),
    decreases x.len(),
{
    if x.len() == m {
        assert(x.subrange(0, m) =~= x);
    } else {
        assert(is_ws(x.last()));
        let xd = x.drop_last();
        assert(forall|j: int| m <= j < xd.len() ==> xd[j] == x[j]);
        lemma_trim_end_exact(xd, m);
        assert(xd.subrange(0, m) =~= x.subrange(0, m));
    }
}

/// What one line of a document means, as executable data.
pub enum LineExec {
    /// Empty, whitespace, or a comment.
    Blank,
    /// A `[section]` header.
    Header(String),
    /// A `key = value` binding.
    Pair(String, ConfigItem),
    /// Anything else.
    Bad,
}

/// Classify and read one line.
#[verifier::rlimit(80)]
fn line_parse(line: &Vec<char>) -> (r: LineExec)
    ensures
        match r {
            LineExec::Blank => parse_line(line@) == LineP::Blank,
            LineExec::Header(k) => parse_line(line@) == LineP::Header(k@),
            LineExec::Pair(k, v) => parse_line(line@) == LineP::Pair(k@, item_v(v))
                && value_ok(item_v(v)),
            LineExec::Bad => parse_line(line@) == LineP::Bad,
        },
{
    // trim both ends
    let a = skip_ws_at(line, 0);
    proof {
        assert(line@.subrange(0, line@.len() as int) =~= line@);
    }
    let mut b = line.len();
    while b > a && ws_char(line[b - 1])
        invariant
            a <= b <= line@.len(),
            forall|j: int| b <= j < line@.len() ==> is_ws(#[trigger] line@[j]),
        decreases b,
    {
        b = b - 1;
    }
    let ghost sw = skip_ws(line@);
    let ghost t = trim(line@);
    proof {
        assert(sw == line@.subrange(a as int, line@.len() as int));
        assert(forall|j: int| 0 <= j < sw.len() ==> sw[j] == line@[a + j]);
        lemma_trim_end_exact(sw, b - a);
        assert(t == sw.subrange(0, b - a));
        assert(t =~= line@.subrange(a as int, b as int));
    }
    // copy the trimmed segment
    let mut tv: Vec<char> = Vec::new();
    let mut i = a;
    while i < b
        invariant
            a <= i <= b <= line@.len(),
            tv@ == line@.subrange(a as int, i as int),
        decreases b - i,
    {
        tv.push(line[i]);
        proof {
            assert(tv@ =~= line@.subrange(a as int, i + 1 as int));
        }
        i = i + 1;
    }
    proof {
        assert(tv@ =~= t);
    }
    if tv.len() == 0 {
        return LineExec::Blank;
    }
    let c0 = tv[0];
    assert(c0 == t[0]);
    if c0 == '#' {
        return LineExec::Blank;
    }
    if c0 == '[' {
        if tv[tv.len() - 1] != ']' {
            return LineExec::Bad;
        }
        assert(t.last() == ']');
        // copy the header's inside
        let mut inner: Vec<char> = Vec::new();
        let mut i: usize = 1;
        while i < tv.len() - 1
            invariant
                tv@.len() >= 2,
                1 <= i <= tv@.len() - 1,
                inner@ == tv@.subrange(1, i as int),
            decreases tv@.len() - i,
        {
            inner.push(tv[i]);
            proof {
                assert(inner@ =~= tv@.subrange(1, i + 1 as int));
            }
            i = i + 1;
        }
        proof {
            assert(inner@ =~= t.subrange(1, t.len() - 1));
        }
        match key_at(&inner, 0) {
            None => {
                proof {
                    assert(inner@.subrange(0, inner@.len() as int) =~= inner@);
                }
                return LineExec::Bad;
            },
            Some((k, p2)) => {
                proof {
                    assert(inner@.subrange(0, inner@.len() as int) =~= inner@);
                }
                if p2 == inner.len() {
                    proof {
                        assert(inner@.subrange(p2 as int, inner@.len() as int)
                            =~= Seq::<char>::empty());
                    }
                    return LineExec::Header(k);
                } else {
                    proof {
                        assert(inner@.subrange(p2 as int, inner@.len() as int).len() > 0);
                    }
                    return LineExec::Bad;
                }
            },
        }
    }
    // a binding line
    proof {
        assert(tv@.subrange(0, tv@.len() as int) =~= tv@);
    }
    match key_at(&tv, 0) {
        None => LineExec::Bad,
        Some((k, pk)) => {
            let ghost kr = tv@.subrange(pk as int, tv@.len() as int);
            let p1 = skip_ws_at(&tv, pk);
            let ghost r1 = skip_ws(kr);
            proof {
                assert(r1 == tv@.subrange(p1 as int, tv@.len() as int));
            }
            if p1 == tv.len() {
                return LineExec::Bad;
            }
            let ce = tv[p1];
            assert(ce == r1[0]);
            if ce != '=' {
                return LineExec::Bad;
            }
            proof {
                assert(r1.subrange(1, r1.len() as int) =~= tv@.subrange(
                    p1 + 1,
                    tv@.len() as int,
                ));
            }
            let pv = skip_ws_at(&tv, p1 + 1);
            proof {
                assert(skip_ws(r1.subrange(1, r1.len() as int)) == tv@.subrange(
                    pv as int,
                    tv@.len() as int,
                ));
            }
            match value_at(&tv, pv) {
                None => LineExec::Bad,
                Some(v) => LineExec::Pair(k, v),
            }
        },
    }
}

/// The abstract lines of a vector of line buffers.
pub open spec fn vlines_v(s: Seq<Vec<char>>) -> Seq<Seq<char>>
    decreases s,
{
    if s.len() == 0 {
        Seq::empty()
    } else {
        vlines_v(s.drop_last()).push(s.last()@)
    }
}

pub broadcast proof fn lemma_vlines_v(s: Seq<Vec<char>>)
    ensures
        (#[trigger] vlines_v(s)).len() == s.len(),
        forall|i: int| 0 <= i < s.len() ==> vlines_v(s)[i] == (#[trigger] s[i])@,
    decreases s,
{
    if s.len() > 0 {
        lemma_vlines_v(s.drop_last());
        assert forall|i: int| 0 <= i < s.len() implies vlines_v(s)[i] == (#[trigger] s[i])@ by {
            if i < s.len() - 1 {
                assert(s.drop_last()[i] == s[i]);
            } else {
                assert(s[i] == s.last());
            }
        }
    }
}

/// Cut a text into its lines.
fn split_text_lines(chars: &Vec<char>) -> (r: Vec<Vec<char>>)
    ensures
        vlines_v(r@) == line_split(chars@),
{
    let mut lines: Vec<Vec<char>> = Vec::new();
    let mut pos: usize = 0;
    proof {
        lemma_vlines_v(lines@);
        assert(vlines_v(lines@) =~= Seq::<Seq<char>>::empty());
        assert(chars@.subrange(0, chars@.len() as int) =~= chars@);
    }
    while pos < chars.len()
        invariant
            pos <= chars@.len(),
            line_split(chars@) == vlines_v(lines@) + line_split(
                chars@.subrange(pos as int, chars@.len() as int),
            ),
        decreases chars@.len() - pos,
    {
        let ghost suffix = chars@.subrange(pos as int, chars@.len() as int);
        // find the end of this line
        let mut e = pos;
        while e < chars.len() && chars[e] != '\n'
            invariant
                pos <= e <= chars@.len(),
                forall|j: int| pos <= j < e ==> (#[trigger] chars@[j]) != '\n',
            decreases chars@.len() - e,
        {
            e = e + 1;
        }
        let ghost head = chars@.subrange(pos as int, e as int);
        proof {
            let rest = chars@.subrange(e as int, chars@.len() as int);
            assert(suffix =~= head + rest);
            assert(forall|j: int| 0 <= j < head.len() ==> (#[trigger] head[j]) != '\n');
            lemma_first_line_len_exact(head, rest);
            assert(first_line_len(suffix) == head.len());
        }
        // copy the line
        let mut lv: Vec<char> = Vec::new();
        let mut i = pos;
        while i < e
            invariant
                pos <= i <= e <= chars@.len(),
                lv@ == chars@.subrange(pos as int, i as int),
            decreases e - i,
        {
            lv.push(chars[i]);
            proof {
                assert(lv@ =~= chars@.subrange(pos as int, i + 1 as int));
            }
            i = i + 1;
        }
        proof {
            assert(lv@ =~= head);
        }
        let ghost old_lines = lines@;
        lines.push(lv);
        proof {
            lemma_vlines_v(lines@);
            lemma_vlines_v(old_lines);
            assert(lines@.drop_last() =~= old_lines);
            assert(vlines_v(lines@) =~= vlines_v(old_lines).push(head));
        }
        if e == chars.len() {
            proof {
                assert(suffix.subrange(0, first_line_len(suffix)) =~= head);
                assert(line_split(suffix) =~= seq![head]);
                assert(vlines_v(old_lines) + line_split(suffix) =~= vlines_v(old_lines).push(
                    head,
                ));
                assert(chars@.subrange(chars@.len() as int, chars@.len() as int)
                    =~= Seq::<char>::empty());
                assert(line_split(Seq::<char>::empty()) =~= Seq::<Seq<char>>::empty());
                assert(vlines_v(lines@) + line_split(Seq::<char>::empty()) =~= vlines_v(
                    lines@,
                ));
            }
            pos = e;
        } else {
            proof {
                assert(first_line_len(suffix) < suffix.len());
                assert(suffix.subrange(0, first_line_len(suffix)) =~= head);
                assert(suffix.subrange(
                    first_line_len(suffix) + 1,
                    suffix.len() as int,
                ) =~= chars@.subrange(e + 1, chars@.len() as int));
                assert(line_split(suffix) =~= seq![head] + line_split(
                    chars@.subrange(e + 1, chars@.len() as int),
                ));
                assert(vlines_v(old_lines) + line_split(suffix) =~= vlines_v(lines@)
                    + line_split(chars@.subrange(e + 1, chars@.len() as int)));
            }
            pos = e + 1;
        }
    }
    proof {
        assert(chars@.subrange(pos as int, chars@.len() as int) =~= Seq::<char>::empty());
        assert(line_split(Seq::<char>::empty()) =~= Seq::<Seq<char>>::empty());
        assert(line_split(chars@) =~= vlines_v(lines@));
    }
    lines
}

/// Where a document failed to read.
#[derive(Debug, Clone, PartialEq, Eq, Structural)]
pub struct TomlParseError {
    /// The one-based number of the line that stopped the read.
    pub line: usize,
}

/// Read a whole document into a root table.
///
/// Succeeds exactly when the abstract grammar accepts the text, and then
/// returns exactly the table the grammar assigns to it, keys distinct.
pub fn parse_table(text: &str) -> (r: Result<Vec<(String, ConfigItem)>, TomlParseError>)
    ensures
        match r {
            Result::Ok(t) => parse_doc(text@) == Option::Some(entries_v(t@)) && doc_ok(
                entries_v(t@),
            ),
            Result::Err(_) => parse_doc(text@) is None,
        },
{
    let chars = crate::strutil::str_chars(text);
    let lines = split_text_lines(&chars);
    let ghost all_lines = line_split(text@);
    proof {
        lemma_vlines_v(lines@);
    }
    let mut tbl: Vec<(String, ConfigItem)> = Vec::new();
    let mut open_section = false;
    let mut i: usize = 0;
    proof {
        crate::config::lemma_entries_v(tbl@);
        assert(entries_v(tbl@) =~= Seq::<(Seq<char>, ItemV)>::empty());
        assert(all_lines.subrange(0, all_lines.len() as int) =~= all_lines);
    }
    while i < lines.len()
        invariant
            i <= lines@.len(),
            all_lines == line_split(text@),
            all_lines == vlines_v(lines@),
            all_lines.len() == lines@.len(),
            forall|j: int| 0 <= j < lines@.len() ==> all_lines[j] == (#[trigger] lines@[j])@,
            tbl_distinct(entries_v(tbl@)),
            forall|j: int|
                0 <= j < entries_v(tbl@).len() ==> root_entry_ok(
                    (#[trigger] entries_v(tbl@)[j]).1,
                ),
            open_section ==> tbl@.len() > 0 && entries_v(tbl@).len() > 0 && entries_v(
                tbl@,
            ).last().1 is Dict,
            entries_v(tbl@).len() == tbl@.len(),
            parse_doc_lines(all_lines, Seq::empty(), Option::None) == parse_doc_lines(
                all_lines.subrange(i as int, all_lines.len() as int),
                entries_v(tbl@),
                if open_section {
                    Option::Some(entries_v(tbl@).last().0)
                } else {
                    Option::None
                },
            ),
        decreases lines@.len() - i,
    {
        let ghost acc = entries_v(tbl@);
        let ghost cur: Option<Seq<char>> = if open_section {
            Option::Some(entries_v(tbl@).last().0)
        } else {
            Option::None
        };
        let ghost lsuf = all_lines.subrange(i as int, all_lines.len() as int);
        proof {
            assert(lsuf[0] == all_lines[i as int]);
            assert(lsuf.subrange(1, lsuf.len() as int) =~= all_lines.subrange(
                i + 1,
                all_lines.len() as int,
            ));
        }
        let step = line_parse(&lines[i]);
        match step {
            LineExec::Blank => {
            },
            LineExec::Bad => {
                proof {
                    assert(parse_doc_lines(lsuf, acc, cur) is None);
                }
                return Err(TomlParseError { line: i + 1 });
            },
            LineExec::Header(k) => {
                let dup = match crate::config::table_get(&tbl, k.as_str()) {
                    Some(hit) => {
                        proof {
                            assert(tbl_get(acc, k@) == Option::Some(hit@));
                        }
                        true
                    },
                    None => false,
                };
                if dup {
                    return Err(TomlParseError { line: i + 1 });
                }
                proof {
                    lemma_tbl_get_none_keys(acc, k@);
                }
                let ghost old_tbl = tbl@;
                tbl.push((k, ConfigItem::Dict(Vec::new())));
                proof {
                    crate::config::lemma_entries_v(tbl@);
                    crate::config::lemma_entries_v(old_tbl);
                    assert(tbl@.drop_last() =~= old_tbl);
                    assert(entries_v(tbl@) =~= acc.push(
                        (tbl@.last().0@, item_v(tbl@.last().1)),
                    ));
                    assert(item_v(tbl@.last().1) == ItemV::Dict(Seq::empty())) by {
                        assert(entries_v(Seq::<(String, ConfigItem)>::empty())
                            =~= Seq::<(Seq<char>, ItemV)>::empty());
                        assert(item_v(tbl@.last().1) == ItemV::Dict(
                            entries_v(Seq::<(String, ConfigItem)>::empty()),
                        ));
                    }
                    assert forall|a: int, b: int|
                        0 <= a < b < entries_v(tbl@).len() implies (#[trigger] entries_v(
                        tbl@,
                    )[a]).0 != (#[trigger] entries_v(tbl@)[b]).0 by {
                        if b < acc.len() {
                            assert(entries_v(tbl@)[a] == acc[a] && entries_v(tbl@)[b] == acc[b]);
                        } else {
                            assert(entries_v(tbl@)[a] == acc[a]);
                            assert(entries_v(tbl@)[b].0 == tbl@.last().0@);
                        }
                    }
                    assert forall|j: int|
                        0 <= j < entries_v(tbl@).len() implies root_entry_ok(
                        (#[trigger] entries_v(tbl@)[j]).1,
                    ) by {
                        if j < acc.len() {
                            assert(entries_v(tbl@)[j] == acc[j]);
                        } else {
                            assert(entries_v(tbl@)[j].1 == ItemV::Dict(Seq::empty()));
                        }
                    }
                }
                open_section = true;
            },
            LineExec::Pair(k, v) => {
                let ghost vv = item_v(v);
                if !open_section {
                    let dup = match crate::config::table_get(&tbl, k.as_str()) {
                        Some(hit) => {
                            proof {
                                assert(tbl_get(acc, k@) == Option::Some(hit@));
                            }
                            true
                        },
                        None => false,
                    };
                    if dup {
                        return Err(TomlParseError { line: i + 1 });
                    }
                    proof {
                        lemma_tbl_get_none_keys(acc, k@);
                    }
                    let ghost old_tbl = tbl@;
                    tbl.push((k, v));
                    proof {
                        crate::config::lemma_entries_v(tbl@);
                        crate::config::lemma_entries_v(old_tbl);
                        assert(tbl@.drop_last() =~= old_tbl);
                        assert(entries_v(tbl@) =~= acc.push(
                            (tbl@.last().0@, item_v(tbl@.last().1)),
                        ));
                        assert forall|a: int, b: int|
                            0 <= a < b < entries_v(tbl@).len() implies (#[trigger] entries_v(
                            tbl@,
                        )[a]).0 != (#[trigger] entries_v(tbl@)[b]).0 by {
                            if b < acc.len() {
                                assert(entries_v(tbl@)[a] == acc[a] && entries_v(tbl@)[b]
                                    == acc[b]);
                            } else {
                                assert(entries_v(tbl@)[a] == acc[a]);
                                assert(entries_v(tbl@)[b].0 == tbl@.last().0@);
                            }
                        }
                        assert forall|j: int|
                            0 <= j < entries_v(tbl@).len() implies root_entry_ok(
                            (#[trigger] entries_v(tbl@)[j]).1,
                        ) by {
                            if j < acc.len() {
                                assert(entries_v(tbl@)[j] == acc[j]);
                            } else {
                                assert(entries_v(tbl@)[j].1 == item_v(tbl@.last().1));
                                assert(item_v(tbl@.last().1) == vv);
                                lemma_value_ok_root_entry(vv);
                            }
                        }
                    }
                } else {
                    // bind inside the open section, which is the last entry
                    let ghost sk = acc.last().0;
                    let ghost es_spec = acc.last().1->Dict_0;
                    let last_idx = tbl.len() - 1;
                    proof {
                        assert(acc[last_idx as int] == acc.last());
                        assert(forall|j: int| 0 <= j < last_idx ==> (#[trigger] acc[j]).0 != sk);
                        crate::config::lemma_tbl_get_found(acc, sk, last_idx as int);
                        assert(tbl_get(acc, sk) == Option::Some(ItemV::Dict(es_spec)));
                        crate::config::lemma_entries_v(tbl@);
                    }
                    let ghost pre_pop = tbl@;
                    let popped = tbl.pop();
                    let (sk_name, item) = match popped {
                        Some(p) => p,
                        None => {
                            proof {
                                assert(false);
                            }
                            return Err(TomlParseError { line: i + 1 });
                        },
                    };
                    proof {
                        assert(tbl@ =~= pre_pop.drop_last());
                        assert(sk_name@ == sk);
                        assert(item_v(item) == ItemV::Dict(es_spec));
                    }
                    match item {
                        ConfigItem::Dict(mut es) => {
                            proof {
                                assert(ItemV::Dict(entries_v(es@)) == ItemV::Dict(es_spec));
                                assert(entries_v(es@) == es_spec);
                            }
                            let dup = match crate::config::table_get(&es, k.as_str()) {
                                Some(hit) => {
                                    proof {
                                        assert(tbl_get(es_spec, k@) == Option::Some(hit@));
                                    }
                                    true
                                },
                                None => false,
                            };
                            if dup {
                                return Err(TomlParseError { line: i + 1 });
                            }
                            let ghost old_es = es@;
                            es.push((k, v));
                            proof {
                                crate::config::lemma_entries_v(es@);
                                crate::config::lemma_entries_v(old_es);
                                assert(es@.drop_last() =~= old_es);
                                assert(entries_v(es@) =~= es_spec.push((es@.last().0@, vv)));
                            }
                            let ghost new_es_v = entries_v(es@);
                            tbl.push((sk_name, ConfigItem::Dict(es)));
                            proof {
                                crate::config::lemma_entries_v(tbl@);
                                assert(tbl@.drop_last() =~= pre_pop.drop_last());
                                let newacc = entries_v(tbl@);
                                crate::config::lemma_tbl_upsert_update(acc, sk, last_idx as int);
                                let want = acc.update(
                                    last_idx as int,
                                    (sk, ItemV::Dict(new_es_v)),
                                );
                                assert forall|j: int|
                                    0 <= j < newacc.len() implies newacc[j] == want[j] by {
                                    assert(newacc[j] == ((#[trigger] tbl@[j]).0@,
                                    item_v(tbl@[j].1)));
                                    if j < last_idx {
                                        assert(tbl@[j] == pre_pop[j]);
                                        assert(acc[j] == ((pre_pop[j]).0@, item_v(
                                            pre_pop[j].1,
                                        )));
                                    } else {
                                        assert(tbl@[j] == tbl@.last());
                                        assert(item_v(tbl@.last().1) == ItemV::Dict(new_es_v));
                                    }
                                }
                                assert(newacc =~= want);
                                assert(newacc == crate::config::tbl_upsert(
                                    acc,
                                    sk,
                                    ItemV::Dict(es_spec.push((k@, vv))),
                                ));
                                assert forall|a: int, b: int|
                                    0 <= a < b < newacc.len() implies (#[trigger] newacc[a]).0
                                    != (#[trigger] newacc[b]).0 by {
                                    assert(want[a].0 == acc[a].0 && want[b].0 == acc[b].0);
                                }
                                assert(newacc.last().1 is Dict);
                                assert(newacc.last().0 == sk);
                                assert(root_entry_ok(acc.last().1));
                                assert forall|j: int|
                                    0 <= j < newacc.len() implies root_entry_ok(
                                    (#[trigger] newacc[j]).1,
                                ) by {
                                    if j < last_idx {
                                        assert(newacc[j] == acc[j]);
                                    } else {
                                        assert(newacc[j].1 == ItemV::Dict(new_es_v));
                                        assert(new_es_v == es_spec.push((k@, vv)));
                                        assert forall|m: int|
                                            0 <= m < new_es_v.len() implies value_ok(
                                            (#[trigger] new_es_v[m]).1,
                                        ) by {
                                            if m < es_spec.len() {
                                                assert(new_es_v[m] == es_spec[m]);
                                                assert(ItemV::Dict(es_spec) == acc.last().1);
                                                assert(acc.last().1->Dict_0 == es_spec);
                                            } else {
                                                assert(new_es_v[m].1 == vv);
                                            }
                                        }
                                        assert forall|a: int, b: int|
                                            0 <= a < b < new_es_v.len() implies (
                                        #[trigger] new_es_v[a]).0 != (#[trigger] new_es_v[b]).0
                                            by {
                                            if b < es_spec.len() {
                                                assert(new_es_v[a] == es_spec[a] && new_es_v[b]
                                                    == es_spec[b]);
                                                assert(root_entry_ok(ItemV::Dict(es_spec)));
                                            } else {
                                                assert(new_es_v[a] == es_spec[a]);
                                                assert(new_es_v[b].0 == k@);
                                                lemma_tbl_get_none_keys(es_spec, k@);
                                            }
                                        }
                                    }
                                }
                            }
                            open_section = true;
                        },
                        _ => {
                            proof {
                                assert(false);
                            }
                            return Err(TomlParseError { line: i + 1 });
                        },
                    }
                }
            },
        }
        i = i + 1;
        proof {
            assert(all_lines.subrange(i as int, all_lines.len() as int) =~= lsuf.subrange(
                1,
                lsuf.len() as int,
            ));
        }
    }
    proof {
        assert(all_lines.subrange(lines@.len() as int, all_lines.len() as int)
            =~= Seq::<Seq<char>>::empty());
    }
    Ok(tbl)
}

/// The shape a parsed root value always has, and the shape the writer
/// needs of one: a section with distinct keys and printable values, or a
/// printable value.
pub open spec fn root_entry_ok(v: ItemV) -> bool {
    match v {
        ItemV::Dict(es) => tbl_distinct(es) && forall|j: int|
            0 <= j < es.len() ==> value_ok((#[trigger] es[j]).1),
        _ => value_ok(v),
    }
}

/// A table is printable as a document exactly when its keys are distinct
/// and each entry has the root shape.
pub proof fn lemma_doc_ok_from_entries(t: Seq<(Seq<char>, ItemV)>)
    requires
        tbl_distinct(t),
        forall|i: int| 0 <= i < t.len() ==> root_entry_ok((#[trigger] t[i]).1),
    ensures
        doc_ok(t),
{
}

/// A printable value is a recordable one.
pub proof fn lemma_value_ok_tv_ok(v: ItemV)
    requires
        value_ok(v),
    ensures
        tv_ok(v),
{
}

/// A root value of a parsed document is recordable.
pub proof fn lemma_root_entry_tv_ok(v: ItemV)
    requires
        root_entry_ok(v),
    ensures
        tv_ok(v),
{
}

/// A printable value has the root shape.
pub proof fn lemma_value_ok_root_entry(v: ItemV)
    requires
        value_ok(v),
    ensures
        root_entry_ok(v),
{
}

/// Keeping only scalar entries keeps key distinctness.
pub proof fn lemma_keep_scalar_entries_distinct(s: Seq<(Seq<char>, ItemV)>)
    requires
        tbl_distinct(s),
    ensures
        tbl_distinct(crate::config::keep_scalar_entries(s)),
        forall|i: int|
            0 <= i < crate::config::keep_scalar_entries(s).len() ==> exists|j: int|
                0 <= j < s.len() && (#[trigger] crate::config::keep_scalar_entries(s)[i])
                    == s[j],
    decreases s.len(),
{
    let k = crate::config::keep_scalar_entries(s);
    if s.len() > 0 {
        let sd = s.drop_last();
        assert(tbl_distinct(sd));
        lemma_keep_scalar_entries_distinct(sd);
        let kd = crate::config::keep_scalar_entries(sd);
        if is_scalar(s.last().1) {
            assert(k == kd.push(s.last()));
            assert forall|i: int|
                0 <= i < k.len() implies exists|j: int|
                    0 <= j < s.len() && (#[trigger] k[i]) == s[j] by {
                if i < kd.len() {
                    assert(k[i] == kd[i]);
                    let j = choose|j: int| 0 <= j < sd.len() && kd[i] == sd[j];
                    assert(s[j] == sd[j]);
                } else {
                    assert(k[i] == s[s.len() - 1]);
                }
            }
            assert forall|a: int, b: int| 0 <= a < b < k.len() implies (#[trigger] k[a]).0 != (
            #[trigger] k[b]).0 by {
                if b < kd.len() {
                    assert(k[a] == kd[a] && k[b] == kd[b]);
                } else {
                    assert(k[b] == s.last());
                    assert(k[a] == kd[a]);
                    let j = choose|j: int| 0 <= j < sd.len() && kd[a] == sd[j];
                    assert(s[j] == sd[j]);
                    assert(s[j].0 != s[s.len() - 1].0);
                }
            }
        } else {
            assert forall|i: int|
                0 <= i < k.len() implies exists|j: int|
                    0 <= j < s.len() && (#[trigger] k[i]) == s[j] by {
                let j = choose|j: int| 0 <= j < sd.len() && kd[i] == sd[j];
                assert(s[j] == sd[j]);
            }
        }
    }
}

/// Keeping only present list members keeps them printable.
proof fn lemma_keep_present_members(s: Seq<ItemV>)
    requires
        forall|i: int| 0 <= i < s.len() ==> sc_ok(#[trigger] s[i]),
    ensures
        forall|i: int|
            0 <= i < crate::config::keep_present(s).len() ==> sc_ok(
                #[trigger] crate::config::keep_present(s)[i],
            ),
    decreases s.len(),
{
    let k = crate::config::keep_present(s);
    if s.len() > 0 {
        let sd = s.drop_last();
        lemma_keep_present_members(sd);
        let kd = crate::config::keep_present(sd);
        if is_scalar(s.last()) && s.last() != ItemV::Null {
            assert forall|i: int| 0 <= i < k.len() implies sc_ok(#[trigger] k[i]) by {
                if i < kd.len() {
                    assert(k[i] == kd[i]);
                } else {
                    assert(k[i] == s.last());
                }
            }
        }
    }
}

/// Keeping only present table entries keeps them printable.
proof fn lemma_keep_present_entries_members(s: Seq<(Seq<char>, ItemV)>)
    requires
        forall|i: int| 0 <= i < s.len() ==> sc_ok((#[trigger] s[i]).1),
    ensures
        forall|i: int|
            0 <= i < crate::config::keep_present_entries(s).len() ==> sc_ok(
                (#[trigger] crate::config::keep_present_entries(s)[i]).1,
            ),
    decreases s.len(),
{
    let k = crate::config::keep_present_entries(s);
    if s.len() > 0 {
        let sd = s.drop_last();
        lemma_keep_present_entries_members(sd);
        let kd = crate::config::keep_present_entries(sd);
        if is_scalar(s.last().1) && s.last().1 != ItemV::Null {
            assert forall|i: int| 0 <= i < k.len() implies sc_ok((#[trigger] k[i]).1) by {
                if i < kd.len() {
                    assert(k[i] == kd[i]);
                } else {
                    assert(k[i] == s.last());
                }
            }
        }
    }
}

/// Keeping only present table entries keeps key distinctness.
proof fn lemma_keep_present_entries_distinct(s: Seq<(Seq<char>, ItemV)>)
    requires
        tbl_distinct(s),
    ensures
        tbl_distinct(crate::config::keep_present_entries(s)),
        forall|i: int|
            0 <= i < crate::config::keep_present_entries(s).len() ==> exists|j: int|
                0 <= j < s.len() && (#[trigger] crate::config::keep_present_entries(s)[i])
                    == s[j],
    decreases s.len(),
{
    let k = crate::config::keep_present_entries(s);
    if s.len() > 0 {
        let sd = s.drop_last();
        assert(tbl_distinct(sd));
        lemma_keep_present_entries_distinct(sd);
        let kd = crate::config::keep_present_entries(sd);
        if is_scalar(s.last().1) && s.last().1 != ItemV::Null {
            assert(k == kd.push(s.last()));
            assert forall|i: int|
                0 <= i < k.len() implies exists|j: int|
                    0 <= j < s.len() && (#[trigger] k[i]) == s[j] by {
                if i < kd.len() {
                    assert(k[i] == kd[i]);
                    let j = choose|j: int| 0 <= j < sd.len() && kd[i] == sd[j];
                    assert(s[j] == sd[j]);
                } else {
                    assert(k[i] == s[s.len() - 1]);
                }
            }
            assert forall|a: int, b: int| 0 <= a < b < k.len() implies (#[trigger] k[a]).0 != (
            #[trigger] k[b]).0 by {
                if b < kd.len() {
                    assert(k[a] == kd[a] && k[b] == kd[b]);
                } else {
                    assert(k[b] == s.last());
                    assert(k[a] == kd[a]);
                    let j = choose|j: int| 0 <= j < sd.len() && kd[a] == sd[j];
                    assert(s[j] == sd[j]);
                    assert(s[j].0 != s[s.len() - 1].0);
                }
            }
        } else {
            assert forall|i: int|
                0 <= i < k.len() implies exists|j: int|
                    0 <= j < s.len() && (#[trigger] k[i]) == s[j] by {
                let j = choose|j: int| 0 <= j < sd.len() && kd[i] == sd[j];
                assert(s[j] == sd[j]);
            }
        }
    }
}

/// A recordable, non-absent value is written out in root shape.
pub proof fn lemma_emitted_entry_ok(v: ItemV)
    requires
        tv_ok(v),
        v != ItemV::Null,
    ensures
        root_entry_ok(emitted_value(v)),
        value_ok(emitted_value(v)),
{
    match v {
        ItemV::List(items) => {
            crate::config::lemma_emitted_wf(v);
            lemma_keep_present_members(items);
            let kp = crate::config::keep_present(items);
            assert(emitted_value(v) == ItemV::List(kp));
            assert forall|i: int| 0 <= i < kp.len() implies scalar_ok(#[trigger] kp[i]) by {
                assert(is_scalar(kp[i]) && kp[i] != ItemV::Null && sc_ok(kp[i]));
            }
        },
        ItemV::Dict(es) => {
            crate::config::lemma_emitted_wf(v);
            lemma_keep_present_entries_members(es);
            lemma_keep_present_entries_distinct(es);
            let kp = crate::config::keep_present_entries(es);
            assert(emitted_value(v) == ItemV::Dict(kp));
            assert forall|i: int|
                0 <= i < kp.len() implies value_ok((#[trigger] kp[i]).1) && scalar_ok(
                kp[i].1,
            ) by {
                assert(is_scalar(kp[i].1) && kp[i].1 != ItemV::Null && sc_ok(kp[i].1));
            }
        },
        _ => {
            assert(emitted_value(v) == v);
        },
    }
}

/// Exec twin of `float_lit_wf`.
pub fn float_lit_ok(t: &str) -> (r: bool)
    ensures
        r == float_lit_wf(t@),
{
    let n = t.unicode_len();
    if n == 0 {
        return false;
    }
    let c0 = t.get_char(0);
    if !(digit_char_p(c0) || c0 == '-' || c0 == '+' || c0 == 'i' || c0 == 'n') {
        return false;
    }
    let mut all_num = true;
    let mut has_marker = false;
    let mut i: usize = 0;
    while i < n
        invariant
            n == t@.len(),
            i <= n,
            all_num == (forall|j: int| 0 <= j < i ==> is_num_char(#[trigger] t@[j])),
            has_marker == (exists|j: int|
                0 <= j < i && ((#[trigger] t@[j]) == '.' || t@[j] == 'e' || t@[j] == 'E'
                    || t@[j] == 'i' || t@[j] == 'n')),
        decreases n - i,
    {
        let c = t.get_char(i);
        if !num_char(c) {
            all_num = false;
        }
        if c == '.' || c == 'e' || c == 'E' || c == 'i' || c == 'n' {
            proof {
                assert((t@[i as int]) == '.' || t@[i as int] == 'e' || t@[i as int] == 'E'
                    || t@[i as int] == 'i' || t@[i as int] == 'n');
            }
            has_marker = true;
        }
        i = i + 1;
    }
    all_num && has_marker
}

/// Whether one scalar is printable.
fn scalar_admissible(c: &ConfigItem) -> (r: bool)
    ensures
        r == sc_ok(item_v(*c)),
{
    match c {
        ConfigItem::F64(t) => float_lit_ok(t.as_str()),
        _ => true,
    }
}

/// Whether a value can be recorded in a section: its scalars printable and
/// its table keys distinct.
pub fn value_admissible(c: &ConfigItem) -> (r: bool)
    ensures
        r == tv_ok(item_v(*c)),
{
    match c {
        ConfigItem::List(items) => {
            proof {
                crate::config::lemma_items_v(items@);
                assert(item_v(*c) == ItemV::List(items_v(items@)));
            }
            let mut i: usize = 0;
            while i < items.len()
                invariant
                    i <= items@.len(),
                    item_v(*c) == ItemV::List(items_v(items@)),
                    items_v(items@).len() == items@.len(),
                    forall|j: int|
                        0 <= j < items@.len() ==> items_v(items@)[j] == item_v(
                            #[trigger] items@[j],
                        ),
                    forall|j: int| 0 <= j < i ==> sc_ok(#[trigger] items_v(items@)[j]),
                decreases items@.len() - i,
            {
                if !scalar_admissible(&items[i]) {
                    proof {
                        assert(!sc_ok(items_v(items@)[i as int]));
                        assert(!tv_ok(ItemV::List(items_v(items@)))) by {
                            if tv_ok(ItemV::List(items_v(items@))) {
                                assert(ItemV::List(items_v(items@))->List_0 == items_v(items@));
                                assert(sc_ok(items_v(items@)[i as int]));
                            }
                        }
                    }
                    return false;
                }
                i = i + 1;
            }
            true
        },
        ConfigItem::Dict(entries) => {
            proof {
                crate::config::lemma_entries_v(entries@);
                assert(item_v(*c) == ItemV::Dict(entries_v(entries@)));
            }
            let mut i: usize = 0;
            while i < entries.len()
                invariant
                    i <= entries@.len(),
                    item_v(*c) == ItemV::Dict(entries_v(entries@)),
                    entries_v(entries@).len() == entries@.len(),
                    forall|j: int|
                        0 <= j < entries@.len() ==> entries_v(entries@)[j] == ((
                        #[trigger] entries@[j]).0@, item_v(entries@[j].1)),
                    forall|j: int| 0 <= j < i ==> sc_ok((#[trigger] entries_v(entries@)[j]).1),
                    forall|a: int, b: int|
                        0 <= a < b < i ==> (#[trigger] entries_v(entries@)[a]).0 != (
                        #[trigger] entries_v(entries@)[b]).0,
                decreases entries@.len() - i,
            {
                let (k, v) = &entries[i];
                if !scalar_admissible(v) {
                    proof {
                        assert(!sc_ok((entries_v(entries@)[i as int]).1));
                    }
                    return false;
                }
                let mut j: usize = 0;
                while j < i
                    invariant
                        j <= i < entries@.len(),
                        item_v(*c) == ItemV::Dict(entries_v(entries@)),
                        k@ == entries_v(entries@)[i as int].0,
                        entries_v(entries@).len() == entries@.len(),
                        forall|m: int|
                            0 <= m < entries@.len() ==> entries_v(entries@)[m] == ((
                            #[trigger] entries@[m]).0@, item_v(entries@[m].1)),
                        forall|m: int|
                            0 <= m < j ==> (#[trigger] entries_v(entries@)[m]).0 != entries_v(
                                entries@,
                            )[i as int].0,
                    decreases i - j,
                {
                    let (k2, _) = &entries[j];
                    if crate::strutil::str_eq(k2.as_str(), k.as_str()) {
                        proof {
                            assert(entries_v(entries@)[j as int].0 == k2@);
                            assert(entries_v(entries@)[j as int].0 == entries_v(
                                entries@,
                            )[i as int].0);
                            assert(!tbl_distinct(entries_v(entries@)));
                        }
                        return false;
                    }
                    proof {
                        assert(entries_v(entries@)[j as int].0 == k2@);
                    }
                    j = j + 1;
                }
                i = i + 1;
            }
            true
        },
        other => scalar_admissible(other),
    }
}

/// Reducing a recordable value to the supported shape keeps it recordable.
pub proof fn lemma_sanitized_tv_ok(v: ItemV)
    requires
        tv_ok(v),
    ensures
        tv_ok(crate::config::sanitized(v)),
{
    match v {
        ItemV::List(items) => {
            lemma_keep_scalars_sc_ok(items);
        },
        ItemV::Dict(es) => {
            lemma_keep_scalar_entries_distinct(es);
            lemma_keep_scalar_entries_sc_ok(es);
        },
        _ => (),
    }
}

proof fn lemma_keep_scalars_sc_ok(s: Seq<ItemV>)
    requires
        forall|i: int| 0 <= i < s.len() ==> sc_ok(#[trigger] s[i]),
    ensures
        forall|i: int|
            0 <= i < crate::config::keep_scalars(s).len() ==> sc_ok(
                #[trigger] crate::config::keep_scalars(s)[i],
            ),
    decreases s.len(),
{
    let k = crate::config::keep_scalars(s);
    if s.len() > 0 {
        let sd = s.drop_last();
        lemma_keep_scalars_sc_ok(sd);
        let kd = crate::config::keep_scalars(sd);
        if is_scalar(s.last()) {
            assert forall|i: int| 0 <= i < k.len() implies sc_ok(#[trigger] k[i]) by {
                if i < kd.len() {
                    assert(k[i] == kd[i]);
                } else {
                    assert(k[i] == s.last());
                }
            }
        }
    }
}

proof fn lemma_keep_scalar_entries_sc_ok(s: Seq<(Seq<char>, ItemV)>)
    requires
        forall|i: int| 0 <= i < s.len() ==> sc_ok((#[trigger] s[i]).1),
    ensures
        forall|i: int|
            0 <= i < crate::config::keep_scalar_entries(s).len() ==> sc_ok(
                (#[trigger] crate::config::keep_scalar_entries(s)[i]).1,
            ),
    decreases s.len(),
{
    let k = crate::config::keep_scalar_entries(s);
    if s.len() > 0 {
        let sd = s.drop_last();
        lemma_keep_scalar_entries_sc_ok(sd);
        let kd = crate::config::keep_scalar_entries(sd);
        if is_scalar(s.last().1) {
            assert forall|i: int| 0 <= i < k.len() implies sc_ok((#[trigger] k[i]).1) by {
                if i < kd.len() {
                    assert(k[i] == kd[i]);
                } else {
                    assert(k[i] == s.last());
                }
            }
        }
    }
}

/// Whether every key of a section holds recordable values.
pub open spec fn slots_ok(keys: Seq<(Seq<char>, crate::config::SlotV)>) -> bool {
    forall|i: int|
        0 <= i < keys.len() ==> tv_ok((#[trigger] keys[i]).1.default_value) && match keys[i].1.item {
            Option::Some(v) => tv_ok(v),
            Option::None => true,
        }
}

/// What a section writes out is a printable document.
pub proof fn lemma_as_toml_doc_ok(keys: Seq<(Seq<char>, crate::config::SlotV)>, use_default: bool)
    requires
        tbl_distinct(keys),
        slots_ok(keys),
    ensures
        doc_ok(crate::config::as_toml_keys(keys, use_default)),
{
    crate::config::lemma_as_toml_keys(keys, use_default);
    lemma_as_toml_root_entries(keys, use_default);
    lemma_doc_ok_from_entries(crate::config::as_toml_keys(keys, use_default));
}

proof fn lemma_as_toml_root_entries(
    keys: Seq<(Seq<char>, crate::config::SlotV)>,
    use_default: bool,
)
    requires
        slots_ok(keys),
    ensures
        forall|i: int|
            0 <= i < crate::config::as_toml_keys(keys, use_default).len() ==> root_entry_ok(
                (#[trigger] crate::config::as_toml_keys(keys, use_default)[i]).1,
            ),
    decreases keys.len(),
{
    let r = crate::config::as_toml_keys(keys, use_default);
    if keys.len() > 0 {
        let kd = keys.drop_last();
        assert(slots_ok(kd)) by {
            assert(forall|i: int| 0 <= i < kd.len() ==> kd[i] == keys[i]);
        }
        lemma_as_toml_root_entries(kd, use_default);
        let rest = crate::config::as_toml_keys(kd, use_default);
        match crate::config::emitted_entry(keys.last().0, keys.last().1, use_default) {
            Option::None => {},
            Option::Some(p) => {
                let chosen = if use_default {
                    keys.last().1.default_value
                } else {
                    keys.last().1.item->0
                };
                assert(tv_ok(chosen)) by {
                    assert(keys[keys.len() - 1] == keys.last());
                }
                lemma_emitted_entry_ok(chosen);
                assert forall|i: int|
                    0 <= i < r.len() implies root_entry_ok((#[trigger] r[i]).1) by {
                    if i < rest.len() {
                        assert(r[i] == rest[i]);
                    } else {
                        assert(r[i] == p);
                    }
                }
            },
        }
    }
}

/// Every value a section writes out is printable.
pub proof fn lemma_as_toml_values_ok(keys: Seq<(Seq<char>, crate::config::SlotV)>, use_default: bool)
    requires
        slots_ok(keys),
    ensures
        forall|i: int|
            0 <= i < crate::config::as_toml_keys(keys, use_default).len() ==> value_ok(
                (#[trigger] crate::config::as_toml_keys(keys, use_default)[i]).1,
            ),
    decreases keys.len(),
{
    let r = crate::config::as_toml_keys(keys, use_default);
    if keys.len() > 0 {
        let kd = keys.drop_last();
        assert(slots_ok(kd)) by {
            assert(forall|i: int| 0 <= i < kd.len() ==> kd[i] == keys[i]);
        }
        lemma_as_toml_values_ok(kd, use_default);
        let rest = crate::config::as_toml_keys(kd, use_default);
        match crate::config::emitted_entry(keys.last().0, keys.last().1, use_default) {
            Option::None => {},
            Option::Some(p) => {
                let chosen = if use_default {
                    keys.last().1.default_value
                } else {
                    keys.last().1.item->0
                };
                assert(tv_ok(chosen)) by {
                    assert(keys[keys.len() - 1] == keys.last());
                }
                lemma_emitted_entry_ok(chosen);
                assert forall|i: int|
                    0 <= i < r.len() implies value_ok((#[trigger] r[i]).1) by {
                    if i < rest.len() {
                        assert(r[i] == rest[i]);
                    } else {
                        assert(r[i] == p);
                    }
                }
            },
        }
    }
}

/// Lines that read as blank, at the front of a document, change nothing.
pub proof fn lemma_pdl_blank_prefix(
    ls1: Seq<Seq<char>>,
    ls2: Seq<Seq<char>>,
    acc: Seq<(Seq<char>, ItemV)>,
    cur: Option<Seq<char>>,
)
    requires
        forall|i: int| 0 <= i < ls1.len() ==> parse_line(#[trigger] ls1[i]) == LineP::Blank,
    ensures
        parse_doc_lines(ls1 + ls2, acc, cur) == parse_doc_lines(ls2, acc, cur),
    decreases ls1.len(),
{
    let all = ls1 + ls2;
    if ls1.len() == 0 {
        assert(all =~= ls2);
    } else {
        assert(all[0] == ls1[0]);
        let rest1 = ls1.subrange(1, ls1.len() as int);
        assert(all.subrange(1, all.len() as int) =~= rest1 + ls2);
        assert(forall|i: int| 0 <= i < rest1.len() ==> rest1[i] == ls1[i + 1]);
        lemma_pdl_blank_prefix(rest1, ls2, acc, cur);
    }
}

/// No written line of a printable document holds a newline.
pub proof fn lemma_doc_lines_no_nl_all(t: Seq<(Seq<char>, ItemV)>)
    requires
        doc_ok(t),
    ensures
        forall|i: int, j: int|
            0 <= i < doc_lines(t).len() && 0 <= j < doc_lines(t)[i].len()
                ==> #[trigger] doc_lines(t)[i][j] != '\n',
{
    let nd = ndp(t);
    let dd = dp(t);
    lemma_partition_members(t);
    lemma_partition_distinct(t);
    assert forall|i: int| 0 <= i < nd.len() implies value_ok((#[trigger] nd[i]).1) && !(nd[i].1
        is Dict) by {
        let j = choose|j: int| 0 <= j < t.len() && nd[i] == t[j];
        lemma_ndp_shape(t, i);
    }
    assert forall|i: int|
        0 <= i < dd.len() implies (#[trigger] dd[i]).1 is Dict && forall|j: int|
        0 <= j < dd[i].1->Dict_0.len() ==> value_ok((#[trigger] dd[i].1->Dict_0[j]).1) by {
        let j = choose|j: int| 0 <= j < t.len() && dd[i] == t[j];
        lemma_dp_shape(t, i);
    }
    lemma_pair_lines_of_no_nl(nd);
    lemma_sections_of_no_nl(dd);
    let ls = doc_lines(t);
    assert forall|i: int, j: int|
        0 <= i < ls.len() && 0 <= j < ls[i].len() implies #[trigger] ls[i][j] != '\n' by {
        if i < pair_lines_of(nd).len() {
            assert(ls[i] == pair_lines_of(nd)[i]);
        } else {
            assert(ls[i] == sections_of(dd)[i - pair_lines_of(nd).len()]);
        }
    }
}

} // verus!
