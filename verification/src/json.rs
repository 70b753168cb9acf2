//! The JSON values that a dynamic-inventory document carries, and the
//! canonical JSON text rendered for them.
//!
//! `Json` is the executable value; `JsonVal` is its mathematical form. The
//! spec function [`json_text`] fixes one canonical rendering (no whitespace,
//! fields in stored order), and [`write_json`] is proved to emit exactly it.

use vstd::prelude::*;

verus! {

/// Relies on std's `String::push`: appends the given character to the end of
/// the string.
pub assume_specification[ String::push ](s: &mut String, ch: char)
    ensures
        final(s)@ == old(s)@.push(ch),
;

/// A JSON value: what a group or host variable can hold.
pub enum Json {
    Null,
    Bool(bool),
    Int(i64),
    Str(String),
    Arr(Vec<Json>),
    Obj(Vec<(String, Json)>),
}

/// The mathematical form of a [`Json`] value.
pub enum JsonVal {
    Null,
    Bool(bool),
    Int(int),
    Str(Seq<char>),
    Arr(Seq<JsonVal>),
    Obj(Seq<(Seq<char>, JsonVal)>),
}

/// The mathematical form of an executable [`Json`] value.
pub open spec fn json_view(j: Json) -> JsonVal
    decreases j,
    via json_view_decreases
{
    match j {
        Json::Null => JsonVal::Null,
        Json::Bool(b) => JsonVal::Bool(b),
        Json::Int(n) => JsonVal::Int(n as int),
        Json::Str(s) => JsonVal::Str(s@),
        Json::Arr(v) => JsonVal::Arr(json_views(v@)),
        Json::Obj(v) => JsonVal::Obj(json_field_views(v@)),
    }
}

/// The mathematical forms of a sequence of executable values, elementwise.
pub open spec fn json_views(s: Seq<Json>) -> Seq<JsonVal>
    decreases s,
    via json_views_decreases
{
    if s.len() == 0 {
        Seq::empty()
    } else {
        json_views(s.drop_last()).push(json_view(s.last()))
    }
}

/// The mathematical forms of a sequence of executable fields, elementwise.
pub open spec fn json_field_views(s: Seq<(String, Json)>) -> Seq<(Seq<char>, JsonVal)>
    decreases s,
    via json_field_views_decreases
{
    if s.len() == 0 {
        Seq::empty()
    } else {
        json_field_views(s.drop_last()).push((s.last().0@, json_view(s.last().1)))
    }
}

#[via_fn]
proof fn json_view_decreases(j: Json) {
    match j {
        Json::Arr(v) => {
            assert(decreases_to!(j => v));
            assert(decreases_to!(v => v@));
        },
        Json::Obj(v) => {
            assert(decreases_to!(j => v));
            assert(decreases_to!(v => v@));
        },
        _ => {},
    }
}

#[via_fn]
proof fn json_views_decreases(s: Seq<Json>) {
    if s.len() != 0 {
        assert(decreases_to!(s => s.drop_last()));
        assert(decreases_to!(s => s.last()));
    }
}

#[via_fn]
proof fn json_field_views_decreases(s: Seq<(String, Json)>) {
    if s.len() != 0 {
        assert(decreases_to!(s => s.drop_last()));
        assert(decreases_to!(s => s.last()));
        assert(decreases_to!(s.last() => s.last().1));
    }
}

/// `json_views` maps its sequence elementwise.
pub proof fn lemma_json_views(s: Seq<Json>)
    ensures
        json_views(s).len() == s.len(),
        forall|i: int| 0 <= i < s.len() ==> json_views(s)[i] == json_view(s[i]),
    decreases s.len(),
{
    if s.len() > 0 {
        lemma_json_views(s.drop_last());
        assert forall|i: int| 0 <= i < s.len() implies json_views(s)[i] == json_view(s[i]) by {
            if i < s.len() - 1 {
                assert(json_views(s)[i] == json_views(s.drop_last())[i]);
                assert(s.drop_last()[i] == s[i]);
            }
        }
    }
}

/// `json_field_views` maps its sequence elementwise.
pub proof fn lemma_json_field_views(s: Seq<(String, Json)>)
    ensures
        json_field_views(s).len() == s.len(),
        forall|i: int| 0 <= i < s.len() ==> json_field_views(s)[i] == (s[i].0@, json_view(s[i].1)),
    decreases s.len(),
{
    if s.len() > 0 {
        lemma_json_field_views(s.drop_last());
        assert forall|i: int| 0 <= i < s.len() implies json_field_views(s)[i] == (
        s[i].0@,
        json_view(s[i].1),
        ) by {
            if i < s.len() - 1 {
                assert(json_field_views(s)[i] == json_field_views(s.drop_last())[i]);
                assert(s.drop_last()[i] == s[i]);
            }
        }
    }
}

impl DeepView for Json {
    type V = JsonVal;

    open spec fn deep_view(&self) -> JsonVal {
        json_view(*self)
    }
}

/// The character for the digit `n`, in lower-case hexadecimal.
pub open spec fn digit_char(n: int) -> char {
    if n == 0 {
        '0'
    } else if n == 1 {
        '1'
    } else if n == 2 {
        '2'
    } else if n == 3 {
        '3'
    } else if n == 4 {
        '4'
    } else if n == 5 {
        '5'
    } else if n == 6 {
        '6'
    } else if n == 7 {
        '7'
    } else if n == 8 {
        '8'
    } else if n == 9 {
        '9'
    } else if n == 10 {
        'a'
    } else if n == 11 {
        'b'
    } else if n == 12 {
        'c'
    } else if n == 13 {
        'd'
    } else if n == 14 {
        'e'
    } else {
        'f'
    }
}

/// How one character appears inside a JSON string literal: quotes and
/// backslashes are escaped, control characters become `\u00XX`, and
/// everything else stands for itself.
pub open spec fn escape_char(c: char) -> Seq<char> {
    if c == '"' {
        seq!['\\', '"']
    } else if c == '\\' {
        seq!['\\', '\\']
    } else if 0 <= (c as int) && (c as int) < 32 {
        seq!['\\', 'u', '0', '0', digit_char(c as int / 16), digit_char(c as int % 16)]
    } else {
        seq![c]
    }
}

/// The body of a JSON string literal for `s`: each character escaped.
pub open spec fn escape_str(s: Seq<char>) -> Seq<char>
    decreases s.len(),
{
    if s.len() == 0 {
        Seq::empty()
    } else {
        escape_str(s.drop_last()) + escape_char(s.last())
    }
}

/// The JSON string literal for `s`, quotes included.
pub open spec fn quoted(s: Seq<char>) -> Seq<char> {
    seq!['"'] + escape_str(s) + seq!['"']
}

/// The decimal digits of a non-negative `n`, most significant first.
pub open spec fn dec_rep(n: int) -> Seq<char>
    recommends
        n >= 0,
    decreases n,
{
    if n < 10 {
        seq![digit_char(n)]
    } else {
        dec_rep(n / 10).push(digit_char(n % 10))
    }
}

/// The decimal form of `n`, with a leading minus sign when negative.
pub open spec fn int_rep(n: int) -> Seq<char> {
    if n < 0 {
        seq!['-'] + dec_rep(-n)
    } else {
        dec_rep(n)
    }
}

/// The canonical JSON text of `v`: no whitespace, object fields in stored
/// order, strings escaped as [`escape_char`] says.
pub open spec fn json_text(v: JsonVal) -> Seq<char>
    decreases v,
{
    match v {
        JsonVal::Null => "null"@,
        JsonVal::Bool(b) => if b {
            "true"@
        } else {
            "false"@
        },
        JsonVal::Int(n) => int_rep(n),
        JsonVal::Str(s) => quoted(s),
        JsonVal::Arr(elems) => seq!['['] + elems_text(elems) + seq![']'],
        JsonVal::Obj(fields) => seq!['{'] + fields_text(fields) + seq!['}'],
    }
}

/// The comma-separated canonical texts of `elems`.
pub open spec fn elems_text(elems: Seq<JsonVal>) -> Seq<char>
    decreases elems,
{
    if elems.len() == 0 {
        Seq::empty()
    } else if elems.len() == 1 {
        json_text(elems[0])
    } else {
        elems_text(elems.drop_last()) + seq![','] + json_text(elems.last())
    }
}

/// The canonical `"key":value` text of one object field.
pub open spec fn field_text(f: (Seq<char>, JsonVal)) -> Seq<char>
    decreases f,
{
    quoted(f.0) + seq![':'] + json_text(f.1)
}

/// The comma-separated canonical texts of `fields`.
pub open spec fn fields_text(fields: Seq<(Seq<char>, JsonVal)>) -> Seq<char>
    decreases fields,
{
    if fields.len() == 0 {
        Seq::empty()
    } else if fields.len() == 1 {
        field_text(fields[0])
    } else {
        fields_text(fields.drop_last()) + seq![','] + field_text(fields.last())
    }
}

/// Escaping distributes over concatenation.
pub proof fn lemma_escape_str_append(a: Seq<char>, b: Seq<char>)
    ensures
        escape_str(a + b) == escape_str(a) + escape_str(b),
    decreases b.len(),
{
    if b.len() == 0 {
        assert(a + b =~= a);
        assert(escape_str(a) + escape_str(b) =~= escape_str(a));
    } else {
        lemma_escape_str_append(a, b.drop_last());
        assert((a + b).drop_last() =~= a + b.drop_last());
        assert((a + b).last() == b.last());
        assert(escape_str(a + b) =~= escape_str(a) + escape_str(b));
    }
}

/// Escaping a string starts with the escape of its first character.
pub proof fn lemma_escape_str_front(s: Seq<char>)
    requires
        s.len() > 0,
    ensures
        escape_str(s) == escape_char(s[0]) + escape_str(s.drop_first()),
{
    assert(s =~= seq![s[0]] + s.drop_first());
    lemma_escape_str_append(seq![s[0]], s.drop_first());
    let single = seq![s[0]];
    assert(single.drop_last() =~= Seq::<char>::empty());
    assert(escape_str(Seq::<char>::empty()) == Seq::<char>::empty());
    assert(escape_str(single) == escape_str(single.drop_last()) + escape_char(single.last()));
    assert(single.last() == s[0]);
    assert(escape_str(single) =~= escape_char(s[0]));
}

/// The value of a lower-case hexadecimal digit character; 16 for any other
/// character.
pub open spec fn digit_val(c: char) -> int {
    if c == '0' {
        0
    } else if c == '1' {
        1
    } else if c == '2' {
        2
    } else if c == '3' {
        3
    } else if c == '4' {
        4
    } else if c == '5' {
        5
    } else if c == '6' {
        6
    } else if c == '7' {
        7
    } else if c == '8' {
        8
    } else if c == '9' {
        9
    } else if c == 'a' {
        10
    } else if c == 'b' {
        11
    } else if c == 'c' {
        12
    } else if c == 'd' {
        13
    } else if c == 'e' {
        14
    } else if c == 'f' {
        15
    } else {
        16
    }
}

/// Reads the body of a JSON string literal up to its closing quote: the
/// string that the escapes stand for, and the text after the quote. `None`
/// when no closing quote comes, or an escape is malformed.
pub open spec fn parse_jstring_body(t: Seq<char>) -> Option<(Seq<char>, Seq<char>)>
    decreases t.len(),
{
    if t.len() == 0 {
        Option::None
    } else if t[0] == '"' {
        Option::Some((Seq::empty(), t.drop_first()))
    } else if t[0] == '\\' {
        if t.len() >= 2 && t[1] == '"' {
            match parse_jstring_body(t.skip(2)) {
                Option::Some((s, rest)) => Option::Some((seq!['"'] + s, rest)),
                Option::None => Option::None,
            }
        } else if t.len() >= 2 && t[1] == '\\' {
            match parse_jstring_body(t.skip(2)) {
                Option::Some((s, rest)) => Option::Some((seq!['\\'] + s, rest)),
                Option::None => Option::None,
            }
        } else if t.len() >= 6 && t[1] == 'u' && t[2] == '0' && t[3] == '0' && digit_val(t[4]) < 16
            && digit_val(t[5]) < 16 {
            match parse_jstring_body(t.skip(6)) {
                Option::Some((s, rest)) => Option::Some(
                    (seq![((16 * digit_val(t[4]) + digit_val(t[5])) as char)] + s, rest),
                ),
                Option::None => Option::None,
            }
        } else {
            Option::None
        }
    } else {
        match parse_jstring_body(t.drop_first()) {
            Option::Some((s, rest)) => Option::Some((seq![t[0]] + s, rest)),
            Option::None => Option::None,
        }
    }
}

/// Law (string layer of re-serialization, parse direction): reading back a
/// string literal this serializer wrote yields exactly the original string,
/// whatever text follows the closing quote.
pub proof fn lemma_parse_jstring_round_trip(s: Seq<char>, rest: Seq<char>)
    ensures
        parse_jstring_body(escape_str(s) + seq!['"'] + rest) == Option::Some((s, rest)),
    decreases s.len(),
{
    let t = escape_str(s) + seq!['"'] + rest;
    if s.len() == 0 {
        assert(escape_str(s) == Seq::<char>::empty());
        assert(t =~= seq!['"'] + rest);
        assert(t[0] == '"');
        assert(t.drop_first() =~= rest);
    } else {
        lemma_escape_str_front(s);
        let c = s[0];
        let e = escape_char(c);
        let t2 = escape_str(s.drop_first()) + seq!['"'] + rest;
        assert(t =~= e + t2);
        lemma_parse_jstring_round_trip(s.drop_first(), rest);
        if c == '"' {
            assert(e == seq!['\\', '"']);
            assert(t[0] == '\\' && t[1] == '"' && t.len() >= 2);
            assert(t.skip(2) =~= t2);
            assert(seq!['"'] + s.drop_first() =~= s);
        } else if c == '\\' {
            assert(e == seq!['\\', '\\']);
            assert(t[0] == '\\' && t[1] == '\\' && t.len() >= 2);
            assert(t.skip(2) =~= t2);
            assert(seq!['\\'] + s.drop_first() =~= s);
        } else if 0 <= (c as int) && (c as int) < 32 {
            assert(e == seq!['\\', 'u', '0', '0', digit_char(c as int / 16), digit_char(
                c as int % 16,
            )]);
            assert(t[0] == '\\' && t[1] == 'u' && t[2] == '0' && t[3] == '0' && t.len() >= 6);
            assert(t[4] == digit_char(c as int / 16) && t[5] == digit_char(c as int % 16));
            assert(digit_val(digit_char(c as int / 16)) == c as int / 16);
            assert(digit_val(digit_char(c as int % 16)) == c as int % 16);
            assert(16 * digit_val(t[4]) + digit_val(t[5]) == c as int);
            assert(((c as int) as char) == c);
            assert(t.skip(6) =~= t2);
            assert(seq![c] + s.drop_first() =~= s);
        } else {
            assert(e == seq![c]);
            assert(t[0] == c && c != '"' && c != '\\');
            assert(t.drop_first() =~= t2);
            assert(seq![c] + s.drop_first() =~= s);
        }
    }
}

/// Whether `c` is a decimal digit character.
pub open spec fn is_dec_digit(c: char) -> bool {
    digit_val(c) < 10
}

/// The longest run of decimal digits at the front of `t`.
pub open spec fn digit_run(t: Seq<char>) -> Seq<char>
    decreases t.len(),
{
    if t.len() == 0 || !is_dec_digit(t[0]) {
        Seq::empty()
    } else {
        seq![t[0]] + digit_run(t.drop_first())
    }
}

/// The number a string of decimal digits stands for.
pub open spec fn digits_val(ds: Seq<char>) -> int
    decreases ds.len(),
{
    if ds.len() == 0 {
        0
    } else {
        digits_val(ds.drop_last()) * 10 + digit_val(ds.last())
    }
}

/// Reads a JSON integer: an optional minus sign, then its decimal digits,
/// greedily. `None` when no digit comes first.
pub open spec fn parse_jint(t: Seq<char>) -> Option<(int, Seq<char>)> {
    if t.len() >= 1 && t[0] == '-' {
        let ds = digit_run(t.drop_first());
        if ds.len() == 0 {
            Option::None
        } else {
            Option::Some((-digits_val(ds), t.drop_first().skip(ds.len() as int)))
        }
    } else {
        let ds = digit_run(t);
        if ds.len() == 0 {
            Option::None
        } else {
            Option::Some((digits_val(ds), t.skip(ds.len() as int)))
        }
    }
}

/// Every character of a non-negative number's decimal form is a digit.
proof fn lemma_dec_rep_digits(n: int)
    requires
        n >= 0,
    ensures
        dec_rep(n).len() >= 1,
        forall|i: int| 0 <= i < dec_rep(n).len() ==> is_dec_digit(#[trigger] dec_rep(n)[i]),
    decreases n,
{
    if n < 10 {
        assert(dec_rep(n) == seq![digit_char(n)]);
        assert(is_dec_digit(digit_char(n)));
    } else {
        lemma_dec_rep_digits(n / 10);
        assert(dec_rep(n) == dec_rep(n / 10).push(digit_char(n % 10)));
        assert(is_dec_digit(digit_char(n % 10)));
        assert forall|i: int| 0 <= i < dec_rep(n).len() implies is_dec_digit(
            #[trigger] dec_rep(n)[i],
        ) by {
            if i < dec_rep(n / 10).len() {
                assert(dec_rep(n)[i] == dec_rep(n / 10)[i]);
            }
        }
    }
}

/// The digit run of an all-digit string followed by a non-digit is exactly
/// that string.
proof fn lemma_digit_run_exact(a: Seq<char>, rest: Seq<char>)
    requires
        forall|i: int| 0 <= i < a.len() ==> is_dec_digit(#[trigger] a[i]),
        rest.len() == 0 || !is_dec_digit(rest[0]),
    ensures
        digit_run(a + rest) == a,
    decreases a.len(),
{
    let t = a + rest;
    if a.len() == 0 {
        assert(t =~= rest);
        assert(digit_run(rest) =~= a);
    } else {
        assert(t[0] == a[0]);
        assert(t.drop_first() =~= a.drop_first() + rest);
        lemma_digit_run_exact(a.drop_first(), rest);
        assert(digit_run(t) =~= seq![a[0]] + a.drop_first());
        assert(seq![a[0]] + a.drop_first() =~= a);
    }
}

/// Reading the decimal form of a non-negative number back gives the number.
proof fn lemma_digits_val_dec_rep(n: int)
    requires
        n >= 0,
    ensures
        digits_val(dec_rep(n)) == n,
    decreases n,
{
    if n < 10 {
        assert(dec_rep(n) == seq![digit_char(n)]);
        assert(dec_rep(n).len() == 1);
        assert(dec_rep(n).drop_last() =~= Seq::<char>::empty());
        assert(dec_rep(n).last() == digit_char(n));
        assert(digits_val(dec_rep(n)) == digits_val(dec_rep(n).drop_last()) * 10 + digit_val(
            dec_rep(n).last(),
        ));
        assert(digits_val(dec_rep(n).drop_last()) == 0);
        assert(digit_val(digit_char(n)) == n);
    } else {
        lemma_digits_val_dec_rep(n / 10);
        assert(dec_rep(n) == dec_rep(n / 10).push(digit_char(n % 10)));
        assert(dec_rep(n).len() >= 1);
        assert(dec_rep(n).drop_last() =~= dec_rep(n / 10));
        assert(dec_rep(n).last() == digit_char(n % 10));
        assert(digits_val(dec_rep(n)) == digits_val(dec_rep(n).drop_last()) * 10 + digit_val(
            dec_rep(n).last(),
        ));
        assert(digits_val(dec_rep(n).drop_last()) == n / 10);
        assert(digit_val(digit_char(n % 10)) == n % 10);
        assert(n / 10 * 10 + n % 10 == n);
    }
}

/// Law (integer layer of re-serialization, parse direction): reading back an
/// integer this serializer wrote yields exactly the original number, whatever
/// non-digit text follows it.
pub proof fn lemma_parse_jint_round_trip(n: int, rest: Seq<char>)
    requires
        rest.len() == 0 || !is_dec_digit(rest[0]),
    ensures
        parse_jint(int_rep(n) + rest) == Option::Some((n, rest)),
{
    let t = int_rep(n) + rest;
    if n >= 0 {
        lemma_dec_rep_digits(n);
        lemma_digit_run_exact(dec_rep(n), rest);
        lemma_digits_val_dec_rep(n);
        assert(t =~= dec_rep(n) + rest);
        assert(t.len() >= 1 && t[0] == dec_rep(n)[0]);
        lemma_dec_rep_first_digit(n);
        assert(t[0] != '-');
        assert(digit_run(t) == dec_rep(n));
        assert(t.skip(dec_rep(n).len() as int) =~= rest);
    } else {
        lemma_dec_rep_digits(-n);
        lemma_digit_run_exact(dec_rep(-n), rest);
        lemma_digits_val_dec_rep(-n);
        assert(t =~= seq!['-'] + (dec_rep(-n) + rest));
        assert(t[0] == '-');
        assert(t.drop_first() =~= dec_rep(-n) + rest);
        assert(digit_run(t.drop_first()) == dec_rep(-n));
        assert(t.drop_first().skip(dec_rep(-n).len() as int) =~= rest);
    }
}

/// Reads one JSON value in the canonical form this serializer writes: the
/// value and the text after it.
pub open spec fn parse_jvalue(t: Seq<char>) -> Option<(JsonVal, Seq<char>)>
    decreases t.len(), 0int,
{
    if t.len() == 0 {
        Option::None
    } else if t[0] == 'n' {
        if t.len() >= 4 && t[1] == 'u' && t[2] == 'l' && t[3] == 'l' {
            Option::Some((JsonVal::Null, t.skip(4)))
        } else {
            Option::None
        }
    } else if t[0] == 't' {
        if t.len() >= 4 && t[1] == 'r' && t[2] == 'u' && t[3] == 'e' {
            Option::Some((JsonVal::Bool(true), t.skip(4)))
        } else {
            Option::None
        }
    } else if t[0] == 'f' {
        if t.len() >= 5 && t[1] == 'a' && t[2] == 'l' && t[3] == 's' && t[4] == 'e' {
            Option::Some((JsonVal::Bool(false), t.skip(5)))
        } else {
            Option::None
        }
    } else if t[0] == '"' {
        match parse_jstring_body(t.drop_first()) {
            Option::Some((s, rest)) => Option::Some((JsonVal::Str(s), rest)),
            Option::None => Option::None,
        }
    } else if t[0] == '[' {
        if t.len() >= 2 && t[1] == ']' {
            Option::Some((JsonVal::Arr(Seq::empty()), t.skip(2)))
        } else {
            match parse_jelems(t.drop_first()) {
                Option::Some((es, rest)) => Option::Some((JsonVal::Arr(es), rest)),
                Option::None => Option::None,
            }
        }
    } else if t[0] == '{' {
        if t.len() >= 2 && t[1] == '}' {
            Option::Some((JsonVal::Obj(Seq::empty()), t.skip(2)))
        } else {
            match parse_jfields(t.drop_first()) {
                Option::Some((fs, rest)) => Option::Some((JsonVal::Obj(fs), rest)),
                Option::None => Option::None,
            }
        }
    } else {
        match parse_jint(t) {
            Option::Some((n, rest)) => Option::Some((JsonVal::Int(n), rest)),
            Option::None => Option::None,
        }
    }
}

/// Reads the comma-separated elements of a non-empty JSON array, the closing
/// bracket included.
pub open spec fn parse_jelems(t: Seq<char>) -> Option<(Seq<JsonVal>, Seq<char>)>
    decreases t.len(), 1int,
{
    match parse_jvalue(t) {
        Option::Some((v, r)) => {
            if r.len() < t.len() {
                if r.len() >= 1 && r[0] == ',' {
                    match parse_jelems(r.drop_first()) {
                        Option::Some((es, rest)) => Option::Some((seq![v] + es, rest)),
                        Option::None => Option::None,
                    }
                } else if r.len() >= 1 && r[0] == ']' {
                    Option::Some((seq![v], r.drop_first()))
                } else {
                    Option::None
                }
            } else {
                Option::None
            }
        },
        Option::None => Option::None,
    }
}

/// Reads the comma-separated `"key":value` fields of a non-empty JSON
/// object, the closing brace included.
pub open spec fn parse_jfields(t: Seq<char>) -> Option<(Seq<(Seq<char>, JsonVal)>, Seq<char>)>
    decreases t.len(), 1int,
{
    if t.len() >= 1 && t[0] == '"' {
        match parse_jstring_body(t.drop_first()) {
            Option::Some((k, r1)) => {
                if r1.len() < t.len() && r1.len() >= 1 && r1[0] == ':' {
                    match parse_jvalue(r1.drop_first()) {
                        Option::Some((v, r2)) => {
                            if r2.len() < r1.len() {
                                if r2.len() >= 1 && r2[0] == ',' {
                                    match parse_jfields(r2.drop_first()) {
                                        Option::Some((fs, rest)) => Option::Some(
                                            (seq![(k, v)] + fs, rest),
                                        ),
                                        Option::None => Option::None,
                                    }
                                } else if r2.len() >= 1 && r2[0] == '}' {
                                    Option::Some((seq![(k, v)], r2.drop_first()))
                                } else {
                                    Option::None
                                }
                            } else {
                                Option::None
                            }
                        },
                        Option::None => Option::None,
                    }
                } else {
                    Option::None
                }
            },
            Option::None => Option::None,
        }
    } else {
        Option::None
    }
}

/// The canonical text of a non-empty element list starts with its first
/// element's text.
proof fn lemma_elems_text_front(es: Seq<JsonVal>)
    requires
        es.len() >= 1,
    ensures
        elems_text(es) == json_text(es[0]) + (if es.len() == 1 {
            Seq::<char>::empty()
        } else {
            seq![','] + elems_text(es.drop_first())
        }),
    decreases es.len(),
{
    if es.len() == 1 {
        assert(elems_text(es) =~= json_text(es[0]) + Seq::<char>::empty());
    } else {
        let dl = es.drop_last();
        lemma_elems_text_front(dl);
        assert(dl[0] == es[0]);
        assert(es.drop_first().drop_last() =~= dl.drop_first());
        assert(es.drop_first().last() == es.last());
        assert(elems_text(es) == elems_text(dl) + seq![','] + json_text(es.last()));
        if es.len() == 2 {
            assert(elems_text(dl) == json_text(es[0]) + Seq::<char>::empty());
            assert(elems_text(es.drop_first()) == json_text(es.drop_first()[0]));
            assert(es.drop_first()[0] == es.last());
            assert(elems_text(es) =~= json_text(es[0]) + (seq![','] + elems_text(
                es.drop_first(),
            )));
        } else {
            assert(elems_text(dl) == json_text(es[0]) + (seq![','] + elems_text(dl.drop_first())));
            assert(elems_text(es.drop_first()) == elems_text(es.drop_first().drop_last())
                + seq![','] + json_text(es.drop_first().last()));
            assert(elems_text(es.drop_first().drop_last()) == elems_text(dl.drop_first()));
            assert(elems_text(es) =~= json_text(es[0]) + (seq![','] + elems_text(
                es.drop_first(),
            )));
        }
    }
}

/// The canonical text of a non-empty field list starts with its first
/// field's text.
pub proof fn lemma_fields_text_front(fs: Seq<(Seq<char>, JsonVal)>)
    requires
        fs.len() >= 1,
    ensures
        fields_text(fs) == field_text(fs[0]) + (if fs.len() == 1 {
            Seq::<char>::empty()
        } else {
            seq![','] + fields_text(fs.drop_first())
        }),
    decreases fs.len(),
{
    if fs.len() == 1 {
        assert(fields_text(fs) =~= field_text(fs[0]) + Seq::<char>::empty());
    } else {
        let dl = fs.drop_last();
        lemma_fields_text_front(dl);
        assert(dl[0] == fs[0]);
        assert(fs.drop_first().drop_last() =~= dl.drop_first());
        assert(fs.drop_first().last() == fs.last());
        assert(fields_text(fs) == fields_text(dl) + seq![','] + field_text(fs.last()));
        if fs.len() == 2 {
            assert(fields_text(dl) == field_text(fs[0]) + Seq::<char>::empty());
            assert(fields_text(fs.drop_first()) == field_text(fs.drop_first()[0]));
            assert(fs.drop_first()[0] == fs.last());
            assert(fields_text(fs) =~= field_text(fs[0]) + (seq![','] + fields_text(
                fs.drop_first(),
            )));
        } else {
            assert(fields_text(dl) == field_text(fs[0]) + (seq![','] + fields_text(
                dl.drop_first(),
            )));
            assert(fields_text(fs.drop_first()) == fields_text(fs.drop_first().drop_last())
                + seq![','] + field_text(fs.drop_first().last()));
            assert(fields_text(fs.drop_first().drop_last()) == fields_text(dl.drop_first()));
            assert(fields_text(fs) =~= field_text(fs[0]) + (seq![','] + fields_text(
                fs.drop_first(),
            )));
        }
    }
}

/// Whether `t` begins with `p`; parsing then continues after it.
pub open spec fn strip_prefix(p: Seq<char>, t: Seq<char>) -> Option<Seq<char>> {
    if p.len() <= t.len() && t.take(p.len() as int) == p {
        Option::Some(t.skip(p.len() as int))
    } else {
        Option::None
    }
}

/// Stripping a prefix off text that starts with it leaves the tail.
pub proof fn lemma_strip_prefix(p: Seq<char>, rest: Seq<char>)
    ensures
        strip_prefix(p, p + rest) == Option::Some(rest),
{
    let t = p + rest;
    assert(t.take(p.len() as int) =~= p);
    assert(t.skip(p.len() as int) =~= rest);
}

/// A value's canonical text is non-empty and never starts with a closing
/// bracket, closing brace, or comma.
proof fn lemma_json_text_head(v: JsonVal)
    ensures
        json_text(v).len() >= 1,
        json_text(v)[0] != ']',
        json_text(v)[0] != '}',
        json_text(v)[0] != ',',
{
    reveal_strlit("null");
    reveal_strlit("true");
    reveal_strlit("false");
    match v {
        JsonVal::Null => {
            assert("null"@ =~= seq!['n', 'u', 'l', 'l']);
        },
        JsonVal::Bool(b) => {
            if b {
                assert("true"@ =~= seq!['t', 'r', 'u', 'e']);
            } else {
                assert("false"@ =~= seq!['f', 'a', 'l', 's', 'e']);
            }
        },
        JsonVal::Int(n) => {
            if n < 0 {
                assert(json_text(v)[0] == '-');
            } else {
                lemma_dec_rep_digits(n);
                assert(json_text(v)[0] == dec_rep(n)[0]);
                assert(is_dec_digit(dec_rep(n)[0]));
            }
        },
        JsonVal::Str(s) => {
            assert(json_text(v)[0] == '"');
        },
        JsonVal::Arr(es) => {
            assert(json_text(v)[0] == '[');
        },
        JsonVal::Obj(fs) => {
            assert(json_text(v)[0] == '{');
        },
    }
}

/// Law (value layer of re-serialization): reading back the canonical text of
/// any JSON value yields exactly that value, whatever non-digit text follows.
#[verifier::rlimit(50)]
pub proof fn lemma_parse_jvalue_round_trip(v: JsonVal, rest: Seq<char>)
    requires
        rest.len() == 0 || !is_dec_digit(rest[0]),
    ensures
        parse_jvalue(json_text(v) + rest) == Option::Some((v, rest)),
    decreases v,
{
    let t = json_text(v) + rest;
    reveal_strlit("null");
    reveal_strlit("true");
    reveal_strlit("false");
    match v {
        JsonVal::Null => {
            assert("null"@ =~= seq!['n', 'u', 'l', 'l']);
            assert(t.len() >= 4 && t[0] == 'n' && t[1] == 'u' && t[2] == 'l' && t[3] == 'l');
            assert(t.skip(4) =~= rest);
        },
        JsonVal::Bool(b) => {
            if b {
                assert("true"@ =~= seq!['t', 'r', 'u', 'e']);
                assert(t.len() >= 4 && t[0] == 't' && t[1] == 'r' && t[2] == 'u' && t[3] == 'e');
                assert(t.skip(4) =~= rest);
            } else {
                assert("false"@ =~= seq!['f', 'a', 'l', 's', 'e']);
                assert(t.len() >= 5 && t[0] == 'f' && t[1] == 'a' && t[2] == 'l' && t[3] == 's'
                    && t[4] == 'e');
                assert(t.skip(5) =~= rest);
            }
        },
        JsonVal::Int(n) => {
            if n < 0 {
                assert(t[0] == '-');
            } else {
                lemma_dec_rep_digits(n);
                assert(t[0] == dec_rep(n)[0]);
                assert(is_dec_digit(t[0]));
            }
            assert(t[0] != 'n' && t[0] != 't' && t[0] != 'f' && t[0] != '"' && t[0] != '['
                && t[0] != '{');
            lemma_parse_jint_round_trip(n, rest);
        },
        JsonVal::Str(s) => {
            assert(t[0] == '"');
            assert(t.drop_first() =~= escape_str(s) + seq!['"'] + rest);
            lemma_parse_jstring_round_trip(s, rest);
        },
        JsonVal::Arr(es) => {
            assert(t[0] == '[');
            if es.len() == 0 {
                assert(elems_text(es) == Seq::<char>::empty());
                assert(t =~= seq!['[', ']'] + rest);
                assert(t.len() >= 2 && t[1] == ']');
                assert(t.skip(2) =~= rest);
                assert(es =~= Seq::<JsonVal>::empty());
            } else {
                lemma_elems_text_front(es);
                assert(decreases_to!(v => es));
                assert(decreases_to!(es => es[0]));
                lemma_json_text_head(es[0]);
                assert(elems_text(es)[0] == json_text(es[0])[0]);
                assert(t.len() >= 2 && t[1] == elems_text(es)[0]);
                assert(t[1] != ']');
                assert(t.drop_first() =~= elems_text(es) + seq![']'] + rest);
                lemma_parse_jelems_round_trip(es, rest);
            }
        },
        JsonVal::Obj(fs) => {
            assert(t[0] == '{');
            if fs.len() == 0 {
                assert(fields_text(fs) == Seq::<char>::empty());
                assert(t =~= seq!['{', '}'] + rest);
                assert(t.len() >= 2 && t[1] == '}');
                assert(t.skip(2) =~= rest);
                assert(fs =~= Seq::<(Seq<char>, JsonVal)>::empty());
            } else {
                lemma_fields_text_front(fs);
                assert(decreases_to!(v => fs));
                assert(field_text(fs[0])[0] == '"');
                assert(fields_text(fs)[0] == '"');
                assert(t.len() >= 2 && t[1] == '"');
                assert(t[1] != '}');
                assert(t.drop_first() =~= fields_text(fs) + seq!['}'] + rest);
                lemma_parse_jfields_round_trip(fs, rest);
            }
        },
    }
}

/// Law (array layer of re-serialization): reading back a non-empty element
/// list, closing bracket included, yields exactly those elements.
pub proof fn lemma_parse_jelems_round_trip(es: Seq<JsonVal>, rest: Seq<char>)
    requires
        es.len() >= 1,
    ensures
        parse_jelems(elems_text(es) + seq![']'] + rest) == Option::Some((es, rest)),
    decreases es,
{
    let t = elems_text(es) + seq![']'] + rest;
    lemma_elems_text_front(es);
    assert(decreases_to!(es => es[0]));
    lemma_json_text_head(es[0]);
    if es.len() == 1 {
        let tail = seq![']'] + rest;
        assert(t =~= json_text(es[0]) + tail);
        assert(!is_dec_digit(']'));
        lemma_parse_jvalue_round_trip(es[0], tail);
        assert(parse_jvalue(t) == Option::Some((es[0], tail)));
        assert(tail.len() < t.len());
        assert(tail[0] == ']');
        assert(tail.drop_first() =~= rest);
        assert(seq![es[0]] =~= es);
    } else {
        let tail = seq![','] + elems_text(es.drop_first()) + seq![']'] + rest;
        assert(t =~= json_text(es[0]) + tail);
        assert(!is_dec_digit(','));
        lemma_parse_jvalue_round_trip(es[0], tail);
        assert(parse_jvalue(t) == Option::Some((es[0], tail)));
        assert(tail.len() < t.len());
        assert(tail[0] == ',');
        assert(tail.drop_first() =~= elems_text(es.drop_first()) + seq![']'] + rest);
        lemma_parse_jelems_round_trip(es.drop_first(), rest);
        assert(seq![es[0]] + es.drop_first() =~= es);
    }
}

/// Law (object layer of re-serialization): reading back a non-empty field
/// list, closing brace included, yields exactly those fields.
#[verifier::rlimit(50)]
pub proof fn lemma_parse_jfields_round_trip(fs: Seq<(Seq<char>, JsonVal)>, rest: Seq<char>)
    requires
        fs.len() >= 1,
    ensures
        parse_jfields(fields_text(fs) + seq!['}'] + rest) == Option::Some((fs, rest)),
    decreases fs,
{
    let t = fields_text(fs) + seq!['}'] + rest;
    lemma_fields_text_front(fs);
    let k = fs[0].0;
    let v0 = fs[0].1;
    let tail = if fs.len() == 1 {
        seq!['}'] + rest
    } else {
        seq![','] + fields_text(fs.drop_first()) + seq!['}'] + rest
    };
    let r1 = seq![':'] + json_text(v0) + tail;
    assert(t =~= seq!['"'] + (escape_str(k) + seq!['"'] + r1));
    assert(t[0] == '"');
    assert(t.drop_first() =~= escape_str(k) + seq!['"'] + r1);
    lemma_parse_jstring_round_trip(k, r1);
    assert(parse_jstring_body(t.drop_first()) == Option::Some((k, r1)));
    assert(r1.len() < t.len());
    assert(r1[0] == ':');
    assert(r1.drop_first() =~= json_text(v0) + tail);
    assert(tail.len() >= 1 && !is_dec_digit(tail[0]));
    assert(decreases_to!(fs => fs[0]));
    assert(decreases_to!(fs[0] => fs[0].1));
    lemma_parse_jvalue_round_trip(v0, tail);
    assert(parse_jvalue(r1.drop_first()) == Option::Some((v0, tail)));
    lemma_json_text_head(v0);
    assert(tail.len() < r1.len());
    if fs.len() == 1 {
        assert(tail[0] == '}');
        assert(tail.drop_first() =~= rest);
        assert(seq![(k, v0)] =~= fs);
    } else {
        assert(tail[0] == ',');
        assert(tail.drop_first() =~= fields_text(fs.drop_first()) + seq!['}'] + rest);
        lemma_parse_jfields_round_trip(fs.drop_first(), rest);
        assert(seq![(k, v0)] + fs.drop_first() =~= fs);
    }
}

/// A non-negative number's decimal form starts with a digit, never a sign.
proof fn lemma_dec_rep_first_digit(n: int)
    requires
        n >= 0,
    ensures
        dec_rep(n)[0] != '-',
        dec_rep(n).len() >= 1,
    decreases n,
{
    if n < 10 {
        assert(dec_rep(n) == seq![digit_char(n)]);
        assert(digit_char(n) != '-');
    } else {
        lemma_dec_rep_first_digit(n / 10);
        assert(dec_rep(n)[0] == dec_rep(n / 10)[0]);
    }
}

/// Appends the character for digit `n` to `out`.
fn write_digit(n: u8, out: &mut String)
    requires
        n < 16,
    ensures
        final(out)@ == old(out)@.push(digit_char(n as int)),
{
    let c: char = if n == 0 {
        '0'
    } else if n == 1 {
        '1'
    } else if n == 2 {
        '2'
    } else if n == 3 {
        '3'
    } else if n == 4 {
        '4'
    } else if n == 5 {
        '5'
    } else if n == 6 {
        '6'
    } else if n == 7 {
        '7'
    } else if n == 8 {
        '8'
    } else if n == 9 {
        '9'
    } else if n == 10 {
        'a'
    } else if n == 11 {
        'b'
    } else if n == 12 {
        'c'
    } else if n == 13 {
        'd'
    } else if n == 14 {
        'e'
    } else {
        'f'
    };
    out.push(c);
}

/// Appends the decimal digits of `n` to `out`.
fn write_uint(n: u64, out: &mut String)
    ensures
        final(out)@ == old(out)@ + dec_rep(n as int),
    decreases n,
{
    if n < 10 {
        write_digit(n as u8, out);
        proof {
            assert(final(out)@ =~= old(out)@ + dec_rep(n as int));
        }
    } else {
        write_uint(n / 10, out);
        write_digit((n % 10) as u8, out);
        proof {
            assert(final(out)@ =~= old(out)@ + dec_rep(n as int));
        }
    }
}

/// Appends the decimal form of `n` to `out`, minus sign included.
fn write_int(n: i64, out: &mut String)
    ensures
        final(out)@ == old(out)@ + int_rep(n as int),
{
    if n < 0 {
        out.push('-');
        let mag: u64 = (-(n as i128)) as u64;
        write_uint(mag, out);
        proof {
            assert(final(out)@ =~= old(out)@ + int_rep(n as int));
        }
    } else {
        write_uint(n as u64, out);
    }
}

/// Appends the escaped body of a JSON string literal for `s` to `out`.
fn write_escaped(s: &str, out: &mut String)
    ensures
        final(out)@ == old(out)@ + escape_str(s@),
{
    let len = s.unicode_len();
    let mut i: usize = 0;
    while i < len
        invariant
            len == s@.len(),
            i <= len,
            out@ == old(out)@ + escape_str(s@.take(i as int)),
        decreases len - i,
    {
        let ghost prefix = s@.take(i as int);
        let c = s.get_char(i);
        if c == '"' {
            out.push('\\');
            out.push('"');
        } else if c == '\\' {
            out.push('\\');
            out.push('\\');
        } else if (c as u32) < 32 {
            out.push('\\');
            out.push('u');
            out.push('0');
            out.push('0');
            let v = c as u32;
            write_digit((v / 16) as u8, out);
            write_digit((v % 16) as u8, out);
        } else {
            out.push(c);
        }
        proof {
            let next = s@.take(i as int + 1);
            assert(next.drop_last() =~= prefix);
            assert(next.last() == c);
            assert(out@ =~= old(out)@ + escape_str(next));
        }
        i += 1;
    }
    proof {
        assert(s@.take(len as int) =~= s@);
    }
}

/// Appends the JSON string literal for `s`, quotes included, to `out`.
pub fn write_quoted(s: &str, out: &mut String)
    ensures
        final(out)@ == old(out)@ + quoted(s@),
{
    out.push('"');
    write_escaped(s, out);
    out.push('"');
    proof {
        assert(final(out)@ =~= old(out)@ + quoted(s@));
    }
}

/// Appends the canonical JSON text of `v` to `out`.
#[verifier::loop_isolation(false)]
pub fn write_json(v: &Json, out: &mut String)
    ensures
        final(out)@ == old(out)@ + json_text(v.deep_view()),
    decreases *v,
{
    match v {
        Json::Null => {
            out.append("null");
        },
        Json::Bool(b) => {
            if *b {
                out.append("true");
            } else {
                out.append("false");
            }
        },
        Json::Int(n) => {
            write_int(*n, out);
        },
        Json::Str(s) => {
            write_quoted(s.as_str(), out);
        },
        Json::Arr(elems) => {
            proof {
                assert(*v == Json::Arr(*elems));
                assert(decreases_to!(Json::Arr(*elems) => *elems));
            }
            out.push('[');
            write_elems(elems, out);
            out.push(']');
            proof {
                assert(final(out)@ =~= old(out)@ + json_text(v.deep_view()));
            }
        },
        Json::Obj(fields) => {
            proof {
                assert(*v == Json::Obj(*fields));
                assert(decreases_to!(Json::Obj(*fields) => *fields));
            }
            out.push('{');
            write_fields(fields, out);
            out.push('}');
            proof {
                assert(final(out)@ =~= old(out)@ + json_text(v.deep_view()));
            }
        },
    }
}

/// Appends the comma-separated canonical texts of `elems` to `out`.
#[verifier::loop_isolation(false)]
pub fn write_elems(elems: &Vec<Json>, out: &mut String)
    ensures
        final(out)@ == old(out)@ + elems_text(json_views(elems@)),
    decreases *elems,
{
    let ghost dv = json_views(elems@);
    proof {
        lemma_json_views(elems@);
    }
    let mut i: usize = 0;
    while i < elems.len()
        invariant
            i <= elems.len(),
            out@ == old(out)@ + elems_text(dv.take(i as int)),
        decreases elems.len() - i,
    {
        if i > 0 {
            out.push(',');
        }
        proof {
            assert(decreases_to!(*elems => elems@));
            assert(decreases_to!(elems@ => elems@[i as int]));
        }
        write_json(&elems[i], out);
        proof {
            let next = dv.take(i as int + 1);
            assert(next.drop_last() =~= dv.take(i as int));
            assert(next.last() == json_view(elems@[i as int]));
            assert(out@ =~= old(out)@ + elems_text(next));
        }
        i += 1;
    }
    proof {
        assert(dv.take(elems@.len() as int) =~= dv);
    }
}

/// Appends the comma-separated canonical `"key":value` texts of `fields` to
/// `out`.
#[verifier::loop_isolation(false)]
pub fn write_fields(fields: &Vec<(String, Json)>, out: &mut String)
    ensures
        final(out)@ == old(out)@ + fields_text(json_field_views(fields@)),
    decreases *fields,
{
    let ghost dv = json_field_views(fields@);
    proof {
        lemma_json_field_views(fields@);
    }
    let mut i: usize = 0;
    while i < fields.len()
        invariant
            i <= fields.len(),
            out@ == old(out)@ + fields_text(dv.take(i as int)),
        decreases fields.len() - i,
    {
        if i > 0 {
            out.push(',');
        }
        write_quoted(fields[i].0.as_str(), out);
        out.push(':');
        proof {
            assert(decreases_to!(*fields => fields@));
            assert(decreases_to!(fields@ => fields@[i as int]));
            assert(decreases_to!(fields@[i as int] => fields@[i as int].1));
        }
        write_json(&fields[i].1, out);
        proof {
            let next = dv.take(i as int + 1);
            assert(next.drop_last() =~= dv.take(i as int));
            assert(next.last() == (fields@[i as int].0@, json_view(fields@[i as int].1)));
            assert(field_text(next.last()) == quoted(fields@[i as int].0@) + seq![':']
                + json_text(json_view(fields@[i as int].1)));
            if i > 0 {
                assert(fields_text(next) == fields_text(next.drop_last()) + seq![',']
                    + field_text(next.last()));
            } else {
                assert(fields_text(next) == field_text(next[0]));
            }
            assert(out@ =~= old(out)@ + fields_text(next));
        }
        i += 1;
    }
    proof {
        assert(dv.take(fields@.len() as int) =~= dv);
    }
}

} // verus!
