//! JSON values and their canonical byte-level serialization.
//!
//! The bridge protocol carries message bodies as arbitrary JSON values.  This
//! module models them as a tree without floating-point numbers, prints them
//! in a canonical compact form (no whitespace, members in insertion order),
//! and parses text in that shape back, tolerating whitespace between tokens.
//! [`lemma_parse_print`] proves that parsing inverts printing.

use vstd::prelude::*;

verus! {

/// A JSON value.  Numbers are restricted to signed 64-bit integers.
#[derive(Debug, PartialEq)]
pub enum JsonValue {
    Null,
    Bool(bool),
    Int(i64),
    Str(String),
    Arr(Vec<JsonValue>),
    Obj(Vec<(String, JsonValue)>),
}

/// The mathematical model of a [`JsonValue`].
pub enum JsonVal {
    Null,
    Bool(bool),
    Int(int),
    Str(Seq<char>),
    Arr(Seq<JsonVal>),
    Obj(Seq<(Seq<char>, JsonVal)>),
}

impl JsonValue {
    /// The model of this value: strings become character sequences,
    /// containers become sequences of models.
    pub open spec fn model(self) -> JsonVal
        decreases self,
    {
        match self {
            JsonValue::Null => JsonVal::Null,
            JsonValue::Bool(b) => JsonVal::Bool(b),
            JsonValue::Int(n) => JsonVal::Int(n as int),
            JsonValue::Str(s) => JsonVal::Str(s@),
            JsonValue::Arr(items) => JsonVal::Arr(model_list(items@)),
            JsonValue::Obj(members) => JsonVal::Obj(model_members(members@)),
        }
    }
}

/// Models of a sequence of values, element by element.
pub open spec fn model_list(items: Seq<JsonValue>) -> Seq<JsonVal>
    decreases items,
{
    if items.len() == 0 {
        Seq::empty()
    } else {
        seq![items[0].model()] + model_list(items.drop_first())
    }
}

/// Models of a sequence of object members, member by member.
pub open spec fn model_members(members: Seq<(String, JsonValue)>) -> Seq<(Seq<char>, JsonVal)>
    decreases members,
{
    if members.len() == 0 {
        Seq::empty()
    } else {
        seq![(members[0].0@, members[0].1.model())] + model_members(members.drop_first())
    }
}

/// One hexadecimal digit, lower case.
pub open spec fn hex_digit(n: u8) -> u8
    recommends
        n < 16,
{
    if n < 10 {
        (0x30 + n) as u8
    } else {
        (0x57 + n) as u8
    }
}

/// The escape sequence emitted for one byte of string content.
pub open spec fn escape_byte(b: u8) -> Seq<u8> {
    if b == 0x22 {
        seq![0x5c, 0x22]
    } else if b == 0x5c {
        seq![0x5c, 0x5c]
    } else if b == 0x08 {
        seq![0x5c, 0x62]
    } else if b == 0x09 {
        seq![0x5c, 0x74]
    } else if b == 0x0a {
        seq![0x5c, 0x6e]
    } else if b == 0x0c {
        seq![0x5c, 0x66]
    } else if b == 0x0d {
        seq![0x5c, 0x72]
    } else if b < 0x20 {
        seq![0x5c, 0x75, 0x30, 0x30, hex_digit(b / 16), hex_digit(b % 16)]
    } else {
        seq![b]
    }
}

/// Escaped form of a whole byte sequence of string content.
pub open spec fn escape_bytes(bs: Seq<u8>) -> Seq<u8>
    decreases bs,
{
    if bs.len() == 0 {
        Seq::empty()
    } else {
        escape_byte(bs[0]) + escape_bytes(bs.drop_first())
    }
}

/// Printed form of a JSON string: quote, escaped UTF-8 content, quote.
pub open spec fn print_str(s: Seq<char>) -> Seq<u8> {
    seq![0x22u8] + escape_bytes(vstd::utf8::encode_utf8(s)) + seq![0x22u8]
}

/// Decimal digits of a nonnegative integer, most significant first.
pub open spec fn print_nat(n: nat) -> Seq<u8>
    decreases n,
{
    if n < 10 {
        seq![(0x30 + n) as u8]
    } else {
        print_nat(n / 10) + seq![(0x30 + n % 10) as u8]
    }
}

/// Printed form of an integer: optional minus sign, then digits.
pub open spec fn print_int(n: int) -> Seq<u8> {
    if n < 0 {
        seq![0x2du8] + print_nat((-n) as nat)
    } else {
        print_nat(n as nat)
    }
}

/// Canonical printed form of a JSON value: compact, no whitespace,
/// object members in their stored order.
pub open spec fn print_json(v: JsonVal) -> Seq<u8>
    decreases v,
{
    match v {
        JsonVal::Null => seq![0x6eu8, 0x75, 0x6c, 0x6c],
        JsonVal::Bool(b) => if b {
            seq![0x74u8, 0x72, 0x75, 0x65]
        } else {
            seq![0x66u8, 0x61, 0x6c, 0x73, 0x65]
        },
        JsonVal::Int(n) => print_int(n),
        JsonVal::Str(s) => print_str(s),
        JsonVal::Arr(items) => seq![0x5bu8] + print_list(items) + seq![0x5du8],
        JsonVal::Obj(members) => seq![0x7bu8] + print_members(members) + seq![0x7du8],
    }
}

/// Printed forms of array elements, separated by commas.
pub open spec fn print_list(items: Seq<JsonVal>) -> Seq<u8>
    decreases items,
{
    if items.len() == 0 {
        Seq::empty()
    } else if items.len() == 1 {
        print_json(items[0])
    } else {
        print_json(items[0]) + seq![0x2cu8] + print_list(items.drop_first())
    }
}

/// Printed forms of object members, `"key":value`, separated by commas.
pub open spec fn print_members(members: Seq<(Seq<char>, JsonVal)>) -> Seq<u8>
    decreases members,
{
    if members.len() == 0 {
        Seq::empty()
    } else if members.len() == 1 {
        print_str(members[0].0) + seq![0x3au8] + print_json(members[0].1)
    } else {
        print_str(members[0].0) + seq![0x3au8] + print_json(members[0].1) + seq![0x2cu8]
            + print_members(members.drop_first())
    }
}

/// Appending one byte appends its escape sequence to the escaped form.
proof fn lemma_escape_bytes_push(bs: Seq<u8>, b: u8)
    ensures
        escape_bytes(bs.push(b)) == escape_bytes(bs) + escape_byte(b),
    decreases bs,
{
    if bs.len() == 0 {
        assert(bs.push(b).drop_first() =~= Seq::<u8>::empty());
        assert(bs.push(b)[0] == b);
        assert(escape_bytes(Seq::<u8>::empty()) =~= Seq::<u8>::empty());
        assert(escape_bytes(bs.push(b)) =~= escape_byte(b));
        assert(escape_bytes(bs) + escape_byte(b) =~= escape_byte(b));
    } else {
        assert(bs.push(b).drop_first() =~= bs.drop_first().push(b));
        lemma_escape_bytes_push(bs.drop_first(), b);
        assert(escape_bytes(bs.push(b)) =~= escape_bytes(bs) + escape_byte(b));
    }
}

/// Writes the escaped form of one byte of string content.
fn write_escaped_byte(b: u8, out: &mut Vec<u8>)
    ensures
        final(out)@ == old(out)@ + escape_byte(b),
{
    if b == 0x22 {
        out.push(0x5c);
        out.push(0x22);
    } else if b == 0x5c {
        out.push(0x5c);
        out.push(0x5c);
    } else if b == 0x08 {
        out.push(0x5c);
        out.push(0x62);
    } else if b == 0x09 {
        out.push(0x5c);
        out.push(0x74);
    } else if b == 0x0a {
        out.push(0x5c);
        out.push(0x6e);
    } else if b == 0x0c {
        out.push(0x5c);
        out.push(0x66);
    } else if b == 0x0d {
        out.push(0x5c);
        out.push(0x72);
    } else if b < 0x20 {
        out.push(0x5c);
        out.push(0x75);
        out.push(0x30);
        out.push(0x30);
        let hi = b / 16;
        let lo = b % 16;
        out.push(if hi < 10 { 0x30 + hi } else { 0x57 + hi });
        out.push(if lo < 10 { 0x30 + lo } else { 0x57 + lo });
    } else {
        out.push(b);
    }
    assert(out@ =~= old(out)@ + escape_byte(b));
}

/// Writes a quoted, escaped JSON string.
fn write_string(s: &str, out: &mut Vec<u8>)
    ensures
        final(out)@ == old(out)@ + print_str(s@),
{
    out.push(0x22);
    let bytes = s.as_bytes();
    let n = bytes.len();
    let mut i: usize = 0;
    while i < n
        invariant
            n == bytes@.len(),
            i <= n,
            bytes@ == vstd::utf8::encode_utf8(s@),
            out@ == old(out)@ + seq![0x22u8] + escape_bytes(bytes@.take(i as int)),
        decreases n - i,
    {
        let b = bytes[i];
        proof {
            lemma_escape_bytes_push(bytes@.take(i as int), b);
            assert(bytes@.take(i as int).push(b) =~= bytes@.take(i as int + 1));
        }
        write_escaped_byte(b, out);
        i = i + 1;
    }
    proof {
        assert(bytes@.take(n as int) =~= bytes@);
    }
    out.push(0x22);
    assert(out@ =~= old(out)@ + print_str(s@));
}

/// Writes the decimal digits of a nonnegative number.
fn write_u64_digits(n: u64, out: &mut Vec<u8>)
    ensures
        final(out)@ == old(out)@ + print_nat(n as nat),
    decreases n,
{
    if n < 10 {
        out.push(0x30 + (n as u8));
        assert(out@ =~= old(out)@ + print_nat(n as nat));
    } else {
        write_u64_digits(n / 10, out);
        out.push(0x30 + ((n % 10) as u8));
        assert(out@ =~= old(out)@ + print_nat(n as nat));
    }
}

/// Writes a signed integer in decimal.
fn write_int(n: i64, out: &mut Vec<u8>)
    ensures
        final(out)@ == old(out)@ + print_int(n as int),
{
    if n >= 0 {
        write_u64_digits(n as u64, out);
    } else {
        out.push(0x2d);
        let mag: u64 = ((-(n + 1)) as u64) + 1;
        assert(mag as nat == (-(n as int)) as nat);
        write_u64_digits(mag, out);
        assert(out@ =~= old(out)@ + print_int(n as int));
    }
}

/// Writes the canonical printed form of a value.
pub fn write_json(v: &JsonValue, out: &mut Vec<u8>)
    ensures
        final(out)@ == old(out)@ + print_json(v.model()),
    decreases v, 0int,
{
    match v {
        JsonValue::Null => {
            out.push(0x6e);
            out.push(0x75);
            out.push(0x6c);
            out.push(0x6c);
            assert(out@ =~= old(out)@ + print_json(v.model()));
        },
        JsonValue::Bool(b) => {
            if *b {
                out.push(0x74);
                out.push(0x72);
                out.push(0x75);
                out.push(0x65);
            } else {
                out.push(0x66);
                out.push(0x61);
                out.push(0x6c);
                out.push(0x73);
                out.push(0x65);
            }
            assert(out@ =~= old(out)@ + print_json(v.model()));
        },
        JsonValue::Int(n) => {
            write_int(*n, out);
        },
        JsonValue::Str(s) => {
            write_string(s.as_str(), out);
        },
        JsonValue::Arr(items) => {
            out.push(0x5b);
            write_list(items, 0, out);
            out.push(0x5d);
            proof {
                assert(items@.skip(0) =~= items@);
            }
            assert(out@ =~= old(out)@ + print_json(v.model()));
        },
        JsonValue::Obj(members) => {
            out.push(0x7b);
            write_members(members, 0, out);
            out.push(0x7d);
            proof {
                assert(members@.skip(0) =~= members@);
            }
            assert(out@ =~= old(out)@ + print_json(v.model()));
        },
    }
}

/// Writes the elements of `items` from index `i` on, comma-separated.
fn write_list(items: &Vec<JsonValue>, i: usize, out: &mut Vec<u8>)
    requires
        i <= items@.len(),
    ensures
        final(out)@ == old(out)@ + print_list(model_list(items@.skip(i as int))),
    decreases items, items@.len() - i,
{
    if i < items.len() {
        write_json(&items[i], out);
        if i + 1 < items.len() {
            out.push(0x2c);
            write_list(items, i + 1, out);
        }
        proof {
            let rest = items@.skip(i as int);
            assert(rest[0] == items@[i as int]);
            assert(rest.drop_first() =~= items@.skip(i as int + 1));
            lemma_model_list_len(items@.skip(i as int + 1));
            assert(model_list(rest).drop_first() =~= model_list(rest.drop_first())) by {
                lemma_model_list_first(rest);
            }
            assert(model_list(rest)[0] == items@[i as int].model()) by {
                lemma_model_list_first(rest);
            }
            assert(out@ =~= old(out)@ + print_list(model_list(items@.skip(i as int))));
        }
    } else {
        proof {
            assert(items@.skip(i as int) =~= Seq::<JsonValue>::empty());
        }
    }
}

/// Writes the members of `members` from index `i` on, comma-separated.
fn write_members(members: &Vec<(String, JsonValue)>, i: usize, out: &mut Vec<u8>)
    requires
        i <= members@.len(),
    ensures
        final(out)@ == old(out)@ + print_members(model_members(members@.skip(i as int))),
    decreases members, members@.len() - i,
{
    if i < members.len() {
        let member = &members[i];
        write_string(member.0.as_str(), out);
        out.push(0x3a);
        write_json(&member.1, out);
        if i + 1 < members.len() {
            out.push(0x2c);
            write_members(members, i + 1, out);
        }
        proof {
            let rest = members@.skip(i as int);
            assert(rest[0] == members@[i as int]);
            assert(rest.drop_first() =~= members@.skip(i as int + 1));
            lemma_model_members_len(members@.skip(i as int + 1));
            assert(model_members(rest).drop_first() =~= model_members(rest.drop_first())) by {
                lemma_model_members_first(rest);
            }
            assert(model_members(rest)[0] == (members@[i as int].0@, members@[i as int].1.model()))
                by {
                lemma_model_members_first(rest);
            }
            assert(out@ =~= old(out)@ + print_members(model_members(members@.skip(i as int))));
        }
    } else {
        proof {
            assert(members@.skip(i as int) =~= Seq::<(String, JsonValue)>::empty());
        }
    }
}

/// A model list has the same length as the list it models.
pub proof fn lemma_model_list_len(items: Seq<JsonValue>)
    ensures
        model_list(items).len() == items.len(),
    decreases items,
{
    if items.len() > 0 {
        lemma_model_list_len(items.drop_first());
    }
}

/// The model of a nonempty list starts with the model of its first element.
pub proof fn lemma_model_list_first(items: Seq<JsonValue>)
    requires
        items.len() > 0,
    ensures
        model_list(items).len() == items.len(),
        model_list(items)[0] == items[0].model(),
        model_list(items).drop_first() == model_list(items.drop_first()),
{
    lemma_model_list_len(items);
    lemma_model_list_len(items.drop_first());
    assert(model_list(items).drop_first() =~= model_list(items.drop_first()));
}

/// A model member list has the same length as the list it models.
pub proof fn lemma_model_members_len(members: Seq<(String, JsonValue)>)
    ensures
        model_members(members).len() == members.len(),
    decreases members,
{
    if members.len() > 0 {
        lemma_model_members_len(members.drop_first());
    }
}

/// The model of a nonempty member list starts with its first member's model.
pub proof fn lemma_model_members_first(members: Seq<(String, JsonValue)>)
    requires
        members.len() > 0,
    ensures
        model_members(members).len() == members.len(),
        model_members(members)[0] == (members[0].0@, members[0].1.model()),
        model_members(members).drop_first() == model_members(members.drop_first()),
{
    lemma_model_members_len(members);
    lemma_model_members_len(members.drop_first());
    assert(model_members(members).drop_first() =~= model_members(members.drop_first()));
}

/// Canonical serialization of a value as bytes.
pub fn to_bytes(v: &JsonValue) -> (r: Vec<u8>)
    ensures
        r@ == print_json(v.model()),
{
    let mut out: Vec<u8> = Vec::new();
    write_json(v, &mut out);
    out
}

/// True for an ASCII decimal digit.
pub open spec fn is_digit(b: u8) -> bool {
    0x30 <= b <= 0x39
}

/// Value of an ASCII decimal digit.
pub open spec fn digit_val(b: u8) -> nat
    recommends
        is_digit(b),
{
    (b - 0x30) as nat
}

/// True for an ASCII hexadecimal digit, either case.
pub open spec fn is_hex(b: u8) -> bool {
    (0x30 <= b <= 0x39) || (0x41 <= b <= 0x46) || (0x61 <= b <= 0x66)
}

/// Value of an ASCII hexadecimal digit.
pub open spec fn hex_val(b: u8) -> nat
    recommends
        is_hex(b),
{
    if 0x30 <= b <= 0x39 {
        (b - 0x30) as nat
    } else if 0x41 <= b <= 0x46 {
        (b - 0x37) as nat
    } else {
        (b - 0x57) as nat
    }
}

/// Index of the first byte at or after `pos` that is not a decimal digit.
pub open spec fn digits_end(s: Seq<u8>, pos: int) -> int
    decreases s.len() - pos,
{
    if pos < 0 || pos >= s.len() {
        pos
    } else if is_digit(s[pos]) {
        digits_end(s, pos + 1)
    } else {
        pos
    }
}

/// Numeric value of a digit sequence, most significant first.
pub open spec fn digits_val(ds: Seq<u8>) -> nat
    decreases ds,
{
    if ds.len() == 0 {
        0
    } else {
        digits_val(ds.drop_last()) * 10 + digit_val(ds.last())
    }
}

/// Parses string content after an opening quote: returns the unescaped
/// content bytes and the position just past the closing quote.
pub open spec fn parse_string(s: Seq<u8>, pos: int) -> Option<(Seq<u8>, int)>
    decreases s.len() - pos,
{
    if pos < 0 || pos >= s.len() {
        None
    } else if s[pos] == 0x22 {
        Some((Seq::empty(), pos + 1))
    } else if s[pos] == 0x5c {
        if pos + 1 >= s.len() {
            None
        } else {
            let e = s[pos + 1];
            if e == 0x22 || e == 0x5c || e == 0x2f {
                match parse_string(s, pos + 2) {
                    Some((rest, p)) => Some((seq![e] + rest, p)),
                    None => None,
                }
            } else if e == 0x62 || e == 0x66 || e == 0x6e || e == 0x72 || e == 0x74 {
                let c: u8 = if e == 0x62 {
                    0x08
                } else if e == 0x66 {
                    0x0c
                } else if e == 0x6e {
                    0x0a
                } else if e == 0x72 {
                    0x0d
                } else {
                    0x09
                };
                match parse_string(s, pos + 2) {
                    Some((rest, p)) => Some((seq![c] + rest, p)),
                    None => None,
                }
            } else if e == 0x75 {
                if pos + 6 > s.len() {
                    None
                } else if !(is_hex(s[pos + 2]) && is_hex(s[pos + 3]) && is_hex(s[pos + 4])
                    && is_hex(s[pos + 5])) {
                    None
                } else {
                    let code = hex_val(s[pos + 2]) * 4096 + hex_val(s[pos + 3]) * 256 + hex_val(
                        s[pos + 4],
                    ) * 16 + hex_val(s[pos + 5]);
                    if 0xd800 <= code <= 0xdfff {
                        None
                    } else {
                        match parse_string(s, pos + 6) {
                            Some((rest, p)) => Some(
                                (vstd::utf8::encode_scalar(code as u32) + rest, p),
                            ),
                            None => None,
                        }
                    }
                }
            } else {
                None
            }
        }
    } else if s[pos] < 0x20 {
        None
    } else {
        match parse_string(s, pos + 1) {
            Some((rest, p)) => Some((seq![s[pos]] + rest, p)),
            None => None,
        }
    }
}

/// True for a JSON whitespace byte.
pub open spec fn is_ws(b: u8) -> bool {
    b == 0x20 || b == 0x09 || b == 0x0a || b == 0x0d
}

/// Index of the first byte at or after `pos` that is not whitespace.
pub open spec fn ws_end(s: Seq<u8>, pos: int) -> int
    decreases s.len() - pos,
{
    if pos < 0 || pos >= s.len() {
        pos
    } else if is_ws(s[pos]) {
        ws_end(s, pos + 1)
    } else {
        pos
    }
}

/// Parses one JSON value starting at `pos`, after any whitespace: returns
/// the value and the position just past it (not past trailing
/// whitespace).
pub open spec fn parse_value(s: Seq<u8>, pos: int) -> Option<(JsonVal, int)>
    decreases s.len() - pos, 0int,
{
    let pos1 = ws_end(s, pos);
    if pos1 < pos || pos1 >= s.len() {
        None
    } else {
        let b = s[pos1];
        if b == 0x6e {
            if pos1 + 4 <= s.len() && s[pos1 + 1] == 0x75 && s[pos1 + 2] == 0x6c && s[pos1 + 3]
                == 0x6c {
                Some((JsonVal::Null, pos1 + 4))
            } else {
                None
            }
        } else if b == 0x74 {
            if pos1 + 4 <= s.len() && s[pos1 + 1] == 0x72 && s[pos1 + 2] == 0x75 && s[pos1 + 3]
                == 0x65 {
                Some((JsonVal::Bool(true), pos1 + 4))
            } else {
                None
            }
        } else if b == 0x66 {
            if pos1 + 5 <= s.len() && s[pos1 + 1] == 0x61 && s[pos1 + 2] == 0x6c && s[pos1 + 3]
                == 0x73 && s[pos1 + 4] == 0x65 {
                Some((JsonVal::Bool(false), pos1 + 5))
            } else {
                None
            }
        } else if b == 0x22 {
            match parse_string(s, pos1 + 1) {
                Some((content, p)) => if vstd::utf8::valid_utf8(content) {
                    Some((JsonVal::Str(vstd::utf8::decode_utf8(content)), p))
                } else {
                    None
                },
                None => None,
            }
        } else if b == 0x2d {
            let e = digits_end(s, pos1 + 1);
            if e == pos1 + 1 {
                None
            } else {
                let v = digits_val(s.subrange(pos1 + 1, e));
                if v <= 0x8000_0000_0000_0000 {
                    Some((JsonVal::Int(-(v as int)), e))
                } else {
                    None
                }
            }
        } else if is_digit(b) {
            let e = digits_end(s, pos1);
            let v = digits_val(s.subrange(pos1, e));
            if v <= 0x7fff_ffff_ffff_ffff {
                Some((JsonVal::Int(v as int), e))
            } else {
                None
            }
        } else if b == 0x5b {
            let q = ws_end(s, pos1 + 1);
            if q < pos1 + 1 {
                None
            } else if q < s.len() && s[q] == 0x5d {
                Some((JsonVal::Arr(Seq::empty()), q + 1))
            } else {
                match parse_items(s, pos1 + 1) {
                    Some((items, p)) => Some((JsonVal::Arr(items), p)),
                    None => None,
                }
            }
        } else if b == 0x7b {
            let q = ws_end(s, pos1 + 1);
            if q < pos1 + 1 {
                None
            } else if q < s.len() && s[q] == 0x7d {
                Some((JsonVal::Obj(Seq::empty()), q + 1))
            } else {
                match parse_members(s, pos1 + 1) {
                    Some((members, p)) => Some((JsonVal::Obj(members), p)),
                    None => None,
                }
            }
        } else {
            None
        }
    }
}

/// Parses `value (',' value)* ']'` starting at `pos`, whitespace allowed
/// around values and separators.
pub open spec fn parse_items(s: Seq<u8>, pos: int) -> Option<(Seq<JsonVal>, int)>
    decreases s.len() - pos, 1int,
{
    match parse_value(s, pos) {
        Some((v, p)) => if !(pos < p && p <= s.len()) {
            None
        } else {
            let p1 = ws_end(s, p);
            if p1 < p || p1 >= s.len() {
                None
            } else if s[p1] == 0x2c {
                match parse_items(s, p1 + 1) {
                    Some((rest, p2)) => Some((seq![v] + rest, p2)),
                    None => None,
                }
            } else if s[p1] == 0x5d {
                Some((seq![v], p1 + 1))
            } else {
                None
            }
        },
        None => None,
    }
}

/// Parses `string ':' value (',' member)* '}'` starting at `pos`,
/// whitespace allowed around keys, values and separators.
pub open spec fn parse_members(s: Seq<u8>, pos: int) -> Option<(Seq<(Seq<char>, JsonVal)>, int)>
    decreases s.len() - pos, 1int,
{
    let pos1 = ws_end(s, pos);
    if pos1 < pos || pos1 >= s.len() {
        None
    } else if s[pos1] != 0x22 {
        None
    } else {
        match parse_string(s, pos1 + 1) {
            Some((kbytes, p)) => if !(pos1 + 1 < p && p <= s.len()) {
                None
            } else if !vstd::utf8::valid_utf8(kbytes) {
                None
            } else {
                let p1 = ws_end(s, p);
                if p1 < p || p1 >= s.len() {
                    None
                } else if s[p1] != 0x3a {
                    None
                } else {
                    match parse_value(s, p1 + 1) {
                        Some((v, p2)) => if !(p1 + 1 < p2 && p2 <= s.len()) {
                            None
                        } else {
                            let p3 = ws_end(s, p2);
                            if p3 < p2 || p3 >= s.len() {
                                None
                            } else if s[p3] == 0x2c {
                                match parse_members(s, p3 + 1) {
                                    Some((rest, p4)) => Some(
                                        (seq![(vstd::utf8::decode_utf8(kbytes), v)] + rest, p4),
                                    ),
                                    None => None,
                                }
                            } else if s[p3] == 0x7d {
                                Some((seq![(vstd::utf8::decode_utf8(kbytes), v)], p3 + 1))
                            } else {
                                None
                            }
                        },
                        None => None,
                    }
                }
            },
            None => None,
        }
    }
}

/// Parses a whole byte sequence as one JSON value, with only whitespace
/// around it.
pub open spec fn parse_json(s: Seq<u8>) -> Option<JsonVal> {
    match parse_value(s, 0) {
        Some((v, p)) => if ws_end(s, p) == s.len() {
            Some(v)
        } else {
            None
        },
        None => None,
    }
}

/// Appending one value appends its model to the model list.
pub proof fn lemma_model_list_push(items: Seq<JsonValue>, v: JsonValue)
    ensures
        model_list(items.push(v)) == model_list(items) + seq![v.model()],
    decreases items,
{
    if items.len() == 0 {
        assert(items.push(v).drop_first() =~= Seq::<JsonValue>::empty());
        assert(items.push(v)[0] == v);
        assert(model_list(Seq::<JsonValue>::empty()) =~= Seq::<JsonVal>::empty());
        assert(model_list(items.push(v)) =~= model_list(items) + seq![v.model()]);
    } else {
        assert(items.push(v).drop_first() =~= items.drop_first().push(v));
        lemma_model_list_push(items.drop_first(), v);
        assert(model_list(items.push(v)) =~= model_list(items) + seq![v.model()]);
    }
}

/// Appending one member appends its model to the model member list.
pub proof fn lemma_model_members_push(members: Seq<(String, JsonValue)>, m: (String, JsonValue))
    ensures
        model_members(members.push(m)) == model_members(members) + seq![(m.0@, m.1.model())],
    decreases members,
{
    if members.len() == 0 {
        assert(members.push(m).drop_first() =~= Seq::<(String, JsonValue)>::empty());
        assert(members.push(m)[0] == m);
        assert(model_members(Seq::<(String, JsonValue)>::empty()) =~= Seq::<
            (Seq<char>, JsonVal),
        >::empty());
        assert(model_members(members.push(m)) =~= model_members(members) + seq![
            (m.0@, m.1.model()),
        ]);
    } else {
        assert(members.push(m).drop_first() =~= members.drop_first().push(m));
        lemma_model_members_push(members.drop_first(), m);
        assert(model_members(members.push(m)) =~= model_members(members) + seq![
            (m.0@, m.1.model()),
        ]);
    }
}

/// Relies on std's String::from_utf8: it returns the decoded string exactly
/// when the bytes are valid UTF-8, so the result's encoding is the input.
#[verifier::external_body]
fn utf8_to_string(v: Vec<u8>) -> (r: Option<String>)
    ensures
        r matches Some(s) ==> v@ == vstd::utf8::encode_utf8(s@),
        r is Some <==> vstd::utf8::valid_utf8(v@),
{
    String::from_utf8(v).ok()
}

/// Index of the first non-digit byte at or after `pos`.
fn scan_digits(s: &[u8], pos: usize) -> (e: usize)
    requires
        pos <= s@.len(),
    ensures
        e == digits_end(s@, pos as int),
        pos <= e <= s@.len(),
        forall|i: int| pos <= i < e ==> is_digit(s@[i]),
    decreases s@.len() - pos,
{
    if pos < s.len() && 0x30 <= s[pos] && s[pos] <= 0x39 {
        scan_digits(s, pos + 1)
    } else {
        pos
    }
}

/// Index of the first non-whitespace byte at or after `pos`.
fn skip_ws(s: &[u8], pos: usize) -> (r: usize)
    requires
        pos <= s@.len(),
    ensures
        r as int == ws_end(s@, pos as int),
        pos <= r <= s@.len(),
    decreases s@.len() - pos,
{
    if pos < s.len() && (s[pos] == 0x20 || s[pos] == 0x09 || s[pos] == 0x0a || s[pos] == 0x0d) {
        skip_ws(s, pos + 1)
    } else {
        pos
    }
}

/// Numeric value of the digit run `s[start..end]`, or nothing when it does
/// not fit in 64 bits.
fn digits_value(s: &[u8], start: usize, end: usize) -> (r: Option<u64>)
    requires
        start <= end <= s@.len(),
        forall|i: int| start <= i < end ==> is_digit(s@[i]),
    ensures
        r matches Some(v) ==> v as nat == digits_val(s@.subrange(start as int, end as int)),
        r is None ==> digits_val(s@.subrange(start as int, end as int)) > u64::MAX,
{
    let mut acc: u64 = 0;
    let mut big: bool = false;
    let mut i: usize = start;
    while i < end
        invariant
            start <= i <= end <= s@.len(),
            forall|j: int| start <= j < end ==> is_digit(s@[j]),
            !big ==> acc as nat == digits_val(s@.subrange(start as int, i as int)),
            big ==> digits_val(s@.subrange(start as int, i as int)) > u64::MAX,
        decreases end - i,
    {
        let d: u64 = (s[i] - 0x30) as u64;
        proof {
            let pre = s@.subrange(start as int, i as int);
            let cur = s@.subrange(start as int, i as int + 1);
            assert(cur.drop_last() =~= pre);
            assert(cur.last() == s@[i as int]);
            assert(digits_val(cur) == digits_val(pre) * 10 + digit_val(s@[i as int]));
        }
        if big {
            proof {
                let pre = digits_val(s@.subrange(start as int, i as int));
                assert(pre * 10 + digit_val(s@[i as int]) >= pre) by (nonlinear_arith)
                    requires
                        pre >= 0,
                ;
            }
        } else {
            let limit: u64 = (u64::MAX - d) / 10;
            if acc <= limit {
                proof {
                    assert((((u64::MAX - d) as u64 / 10) as int) * 10 <= u64::MAX - d)
                        by (nonlinear_arith);
                    assert(acc as int * 10 <= (((u64::MAX - d) as u64 / 10) as int) * 10)
                        by (nonlinear_arith)
                        requires
                            0 <= acc as int <= ((u64::MAX - d) as u64 / 10) as int,
                    ;
                }
                acc = acc * 10 + d;
            } else {
                proof {
                    assert(u64::MAX - d < ((((u64::MAX - d) as u64 / 10) as int) + 1) * 10)
                        by (nonlinear_arith);
                    assert(acc as int * 10 >= (((u64::MAX - d) as u64 / 10) as int + 1) * 10)
                        by (nonlinear_arith)
                        requires
                            acc as int >= ((u64::MAX - d) as u64 / 10) as int + 1,
                    ;
                }
                big = true;
            }
        }
        i = i + 1;
    }
    if big {
        None
    } else {
        Some(acc)
    }
}

/// Parses string content after an opening quote, returning the unescaped
/// bytes and the position just past the closing quote.
fn parse_string_exec(s: &[u8], pos: usize) -> (r: Option<(Vec<u8>, usize)>)
    requires
        pos <= s@.len(),
    ensures
        r matches Some(x) ==> parse_string(s@, pos as int) == Some((x.0@, x.1 as int)) && pos < x.1
            <= s@.len(),
        r is None ==> parse_string(s@, pos as int) is None,
{
    let mut acc: Vec<u8> = Vec::new();
    let mut cur: usize = pos;
    proof {
        if let Some((rest, p)) = parse_string(s@, pos as int) {
            assert(Seq::<u8>::empty() + rest =~= rest);
        }
    }
    loop
        invariant
            pos <= cur <= s@.len(),
            (match parse_string(s@, cur as int) {
                Some((rest, p)) => parse_string(s@, pos as int) == Some((acc@ + rest, p)),
                None => parse_string(s@, pos as int) is None,
            }),
        decreases s@.len() - cur,
    {
        if cur >= s.len() {
            return None;
        }
        let b = s[cur];
        if b == 0x22 {
            proof {
                assert(acc@ + Seq::<u8>::empty() =~= acc@);
            }
            return Some((acc, cur + 1));
        } else if b == 0x5c {
            if cur + 1 >= s.len() {
                return None;
            }
            let e = s[cur + 1];
            if e == 0x22 || e == 0x5c || e == 0x2f {
                proof {
                    if let Some((rest2, p2)) = parse_string(s@, cur as int + 2) {
                        assert(acc@ + (seq![e] + rest2) =~= acc@.push(e) + rest2);
                    }
                }
                acc.push(e);
                cur = cur + 2;
            } else if e == 0x62 || e == 0x66 || e == 0x6e || e == 0x72 || e == 0x74 {
                let c: u8 = if e == 0x62 {
                    0x08
                } else if e == 0x66 {
                    0x0c
                } else if e == 0x6e {
                    0x0a
                } else if e == 0x72 {
                    0x0d
                } else {
                    0x09
                };
                proof {
                    if let Some((rest2, p2)) = parse_string(s@, cur as int + 2) {
                        assert(acc@ + (seq![c] + rest2) =~= acc@.push(c) + rest2);
                    }
                }
                acc.push(c);
                cur = cur + 2;
            } else if e == 0x75 {
                if s.len() - cur < 6 {
                    return None;
                }
                let h1 = hex_digit_value(s[cur + 2]);
                let h2 = hex_digit_value(s[cur + 3]);
                let h3 = hex_digit_value(s[cur + 4]);
                let h4 = hex_digit_value(s[cur + 5]);
                match (h1, h2, h3, h4) {
                    (Some(v1), Some(v2), Some(v3), Some(v4)) => {
                        let code: u32 = (v1 as u32) * 4096 + (v2 as u32) * 256 + (v3 as u32) * 16
                            + (v4 as u32);
                        if 0xd800 <= code && code <= 0xdfff {
                            return None;
                        }
                        let ghost acc0 = acc@;
                        push_scalar_utf8(code, &mut acc);
                        proof {
                            if let Some((rest2, p2)) = parse_string(s@, cur as int + 6) {
                                assert(acc0 + (vstd::utf8::encode_scalar(code) + rest2) =~= acc@
                                    + rest2);
                            }
                        }
                        cur = cur + 6;
                    },
                    _ => {
                        return None;
                    },
                }
            } else {
                return None;
            }
        } else if b < 0x20 {
            return None;
        } else {
            proof {
                if let Some((rest2, p2)) = parse_string(s@, cur as int + 1) {
                    assert(acc@ + (seq![b] + rest2) =~= acc@.push(b) + rest2);
                }
            }
            acc.push(b);
            cur = cur + 1;
        }
    }
}

/// Value of one hexadecimal digit byte, if it is one.
fn hex_digit_value(b: u8) -> (r: Option<u8>)
    ensures
        r matches Some(v) ==> is_hex(b) && v as nat == hex_val(b),
        r is None ==> !is_hex(b),
{
    if 0x30 <= b && b <= 0x39 {
        Some(b - 0x30)
    } else if 0x41 <= b && b <= 0x46 {
        Some(b - 0x37)
    } else if 0x61 <= b && b <= 0x66 {
        Some(b - 0x57)
    } else {
        None
    }
}

/// Appends the UTF-8 encoding of a scalar value below 0x10000.
fn push_scalar_utf8(code: u32, out: &mut Vec<u8>)
    requires
        code <= 0xffff,
        !(0xd800 <= code <= 0xdfff),
    ensures
        final(out)@ == old(out)@ + vstd::utf8::encode_scalar(code),
{
    if code <= 0x7f {
        out.push((code & 0x7f) as u8);
    } else if code <= 0x7ff {
        out.push(0xc0 | ((code >> 6) & 0x1f) as u8);
        out.push(0x80 | (code & 0x3f) as u8);
    } else {
        out.push(0xe0 | ((code >> 12) & 0x0f) as u8);
        out.push(0x80 | ((code >> 6) & 0x3f) as u8);
        out.push(0x80 | (code & 0x3f) as u8);
    }
    assert(out@ =~= old(out)@ + vstd::utf8::encode_scalar(code));
}

/// The first non-digit index lies between `pos` and the end of `s`.
proof fn lemma_digits_end_bounds(s: Seq<u8>, pos: int)
    requires
        0 <= pos <= s.len(),
    ensures
        pos <= digits_end(s, pos) <= s.len(),
    decreases s.len() - pos,
{
    if pos < s.len() && is_digit(s[pos]) {
        lemma_digits_end_bounds(s, pos + 1);
    }
}

/// Parses one JSON value starting at `pos`, mirroring [`parse_value`].
pub fn parse_value_exec(s: &[u8], pos: usize) -> (r: Option<(JsonValue, usize)>)
    requires
        pos <= s@.len(),
    ensures
        r matches Some(x) ==> parse_value(s@, pos as int) == Some((x.0.model(), x.1 as int)) && pos
            < x.1 <= s@.len(),
        r is None ==> parse_value(s@, pos as int) is None,
    decreases s@.len() - pos, 0int,
{
    let pos1 = skip_ws(s, pos);
    if pos1 >= s.len() {
        return None;
    }
    let b = s[pos1];
    if b == 0x6e {
        if s.len() - pos1 >= 4 && s[pos1 + 1] == 0x75 && s[pos1 + 2] == 0x6c && s[pos1 + 3]
            == 0x6c {
            Some((JsonValue::Null, pos1 + 4))
        } else {
            None
        }
    } else if b == 0x74 {
        if s.len() - pos1 >= 4 && s[pos1 + 1] == 0x72 && s[pos1 + 2] == 0x75 && s[pos1 + 3]
            == 0x65 {
            Some((JsonValue::Bool(true), pos1 + 4))
        } else {
            None
        }
    } else if b == 0x66 {
        if s.len() - pos1 >= 5 && s[pos1 + 1] == 0x61 && s[pos1 + 2] == 0x6c && s[pos1 + 3] == 0x73
            && s[pos1 + 4] == 0x65 {
            Some((JsonValue::Bool(false), pos1 + 5))
        } else {
            None
        }
    } else if b == 0x22 {
        match parse_string_exec(s, pos1 + 1) {
            Some((content, p)) => {
                let ghost cbytes = content@;
                match utf8_to_string(content) {
                    Some(st) => {
                        proof {
                            vstd::utf8::encode_utf8_valid_utf8(st@);
                            vstd::utf8::encode_utf8_decode_utf8(st@);
                        }
                        Some((JsonValue::Str(st), p))
                    },
                    None => None,
                }
            },
            None => None,
        }
    } else if b == 0x2d {
        proof {
            lemma_digits_end_bounds(s@, pos1 as int + 1);
        }
        let e = scan_digits(s, pos1 + 1);
        if e == pos1 + 1 {
            return None;
        }
        match digits_value(s, pos1 + 1, e) {
            Some(v) => if v <= 0x8000_0000_0000_0000u64 {
                let n: i64 = if v == 0x8000_0000_0000_0000u64 {
                    i64::MIN
                } else {
                    -(v as i64)
                };
                Some((JsonValue::Int(n), e))
            } else {
                None
            },
            None => None,
        }
    } else if 0x30 <= b && b <= 0x39 {
        proof {
            lemma_digits_end_bounds(s@, pos1 as int + 1);
        }
        let e = scan_digits(s, pos1);
        match digits_value(s, pos1, e) {
            Some(v) => if v <= 0x7fff_ffff_ffff_ffffu64 {
                Some((JsonValue::Int(v as i64), e))
            } else {
                None
            },
            None => None,
        }
    } else if b == 0x5b {
        let q = skip_ws(s, pos1 + 1);
        if q < s.len() && s[q] == 0x5d {
            let items: Vec<JsonValue> = Vec::new();
            proof {
                assert(model_list(items@) =~= Seq::<JsonVal>::empty());
            }
            return Some((JsonValue::Arr(items), q + 1));
        }
        let mut acc: Vec<JsonValue> = Vec::new();
        let mut cur: usize = pos1 + 1;
        proof {
            if let Some((rest, p)) = parse_items(s@, pos1 as int + 1) {
                assert(model_list(acc@) =~= Seq::<JsonVal>::empty());
                assert(model_list(acc@) + rest =~= rest);
            }
        }
        loop
            invariant
                pos <= pos1,
                pos1 + 1 <= cur <= s@.len(),
                pos1 < s@.len(),
                pos1 as int == ws_end(s@, pos as int),
                s@[pos1 as int] == 0x5b,
                q as int == ws_end(s@, pos1 as int + 1),
                pos1 + 1 <= q <= s@.len(),
                !(q < s@.len() && s@[q as int] == 0x5d),
                (match parse_items(s@, cur as int) {
                    Some((rest, p)) => parse_items(s@, pos1 as int + 1) == Some(
                        (model_list(acc@) + rest, p),
                    ),
                    None => parse_items(s@, pos1 as int + 1) is None,
                }),
            decreases s@.len() - cur,
        {
            match parse_value_exec(s, cur) {
                None => {
                    return None;
                },
                Some((v, p)) => {
                    let p1 = skip_ws(s, p);
                    if p1 < s.len() && s[p1] == 0x2c {
                        proof {
                            lemma_model_list_push(acc@, v);
                            if let Some((rest2, p2)) = parse_items(s@, p1 as int + 1) {
                                assert(model_list(acc@) + (seq![v.model()] + rest2) =~= model_list(
                                    acc@.push(v),
                                ) + rest2);
                            }
                        }
                        acc.push(v);
                        cur = p1 + 1;
                    } else if p1 < s.len() && s[p1] == 0x5d {
                        proof {
                            lemma_model_list_push(acc@, v);
                            assert(model_list(acc@) + seq![v.model()] =~= model_list(acc@.push(v)));
                        }
                        acc.push(v);
                        return Some((JsonValue::Arr(acc), p1 + 1));
                    } else {
                        return None;
                    }
                },
            }
        }
    } else if b == 0x7b {
        let q = skip_ws(s, pos1 + 1);
        if q < s.len() && s[q] == 0x7d {
            let members: Vec<(String, JsonValue)> = Vec::new();
            proof {
                assert(model_members(members@) =~= Seq::<(Seq<char>, JsonVal)>::empty());
            }
            return Some((JsonValue::Obj(members), q + 1));
        }
        let mut acc: Vec<(String, JsonValue)> = Vec::new();
        let mut cur: usize = pos1 + 1;
        proof {
            if let Some((rest, p)) = parse_members(s@, pos1 as int + 1) {
                assert(model_members(acc@) =~= Seq::<(Seq<char>, JsonVal)>::empty());
                assert(model_members(acc@) + rest =~= rest);
            }
        }
        loop
            invariant
                pos <= pos1,
                pos1 + 1 <= cur <= s@.len(),
                pos1 < s@.len(),
                pos1 as int == ws_end(s@, pos as int),
                s@[pos1 as int] == 0x7b,
                q as int == ws_end(s@, pos1 as int + 1),
                pos1 + 1 <= q <= s@.len(),
                !(q < s@.len() && s@[q as int] == 0x7d),
                (match parse_members(s@, cur as int) {
                    Some((rest, p)) => parse_members(s@, pos1 as int + 1) == Some(
                        (model_members(acc@) + rest, p),
                    ),
                    None => parse_members(s@, pos1 as int + 1) is None,
                }),
            decreases s@.len() - cur,
        {
            let cur1 = skip_ws(s, cur);
            if cur1 >= s.len() {
                return None;
            }
            if s[cur1] != 0x22 {
                return None;
            }
            match parse_string_exec(s, cur1 + 1) {
                None => {
                    return None;
                },
                Some((kbytes, p)) => {
                    let ghost kb = kbytes@;
                    let kopt = utf8_to_string(kbytes);
                    match kopt {
                        None => {
                            return None;
                        },
                        Some(key) => {
                            proof {
                                vstd::utf8::encode_utf8_valid_utf8(key@);
                                vstd::utf8::encode_utf8_decode_utf8(key@);
                            }
                            let p1 = skip_ws(s, p);
                            if p1 >= s.len() {
                                return None;
                            }
                            if s[p1] != 0x3a {
                                return None;
                            }
                            match parse_value_exec(s, p1 + 1) {
                                None => {
                                    return None;
                                },
                                Some((v, p2)) => {
                                    let p3 = skip_ws(s, p2);
                                    if p3 < s.len() && s[p3] == 0x2c {
                                        proof {
                                            lemma_model_members_push(acc@, (key, v));
                                            if let Some((rest2, p4)) = parse_members(
                                                s@,
                                                p3 as int + 1,
                                            ) {
                                                assert(model_members(acc@) + (seq![
                                                    (key@, v.model()),
                                                ] + rest2) =~= model_members(acc@.push((key, v)))
                                                    + rest2);
                                            }
                                        }
                                        acc.push((key, v));
                                        cur = p3 + 1;
                                    } else if p3 < s.len() && s[p3] == 0x7d {
                                        proof {
                                            lemma_model_members_push(acc@, (key, v));
                                            assert(model_members(acc@) + seq![(key@, v.model())]
                                                =~= model_members(acc@.push((key, v))));
                                        }
                                        acc.push((key, v));
                                        return Some((JsonValue::Obj(acc), p3 + 1));
                                    } else {
                                        return None;
                                    }
                                },
                            }
                        },
                    }
                },
            }
        }
    } else {
        None
    }
}

/// Parses a whole byte slice as one JSON value, mirroring [`parse_json`].
pub fn from_bytes(s: &[u8]) -> (r: Option<JsonValue>)
    ensures
        r matches Some(v) ==> parse_json(s@) == Some(v.model()),
        r is None ==> parse_json(s@) is None,
{
    match parse_value_exec(s, 0) {
        Some((v, p)) => {
            let t = skip_ws(s, p);
            if t == s.len() {
                Some(v)
            } else {
                None
            }
        },
        None => None,
    }
}

/// A segment equality gives pointwise byte equalities.
proof fn lemma_seg_index(s: Seq<u8>, pos: int, seg: Seq<u8>)
    requires
        0 <= pos,
        pos + seg.len() <= s.len(),
        s.subrange(pos, pos + seg.len()) == seg,
    ensures
        forall|i: int|
            #![trigger s[pos + i]]
            #![trigger seg[i]]
            0 <= i < seg.len() ==> s[pos + i] == seg[i],
{
    assert forall|i: int| 0 <= i < seg.len() implies s[pos + i] == seg[i] by {
        assert(s.subrange(pos, pos + seg.len())[i] == s[pos + i]);
    }
}

/// A segment of one byte pins that byte.
proof fn lemma_seg_byte(s: Seq<u8>, pos: int, b: u8)
    requires
        0 <= pos,
        pos + 1 <= s.len(),
        s.subrange(pos, pos + 1) == seq![b],
    ensures
        s[pos] == b,
{
    assert(s.subrange(pos, pos + 1)[0] == s[pos]);
}

/// A segment that is a concatenation splits into two adjacent segments.
proof fn lemma_seg_split(s: Seq<u8>, pos: int, a: Seq<u8>, b: Seq<u8>)
    requires
        0 <= pos,
        pos + a.len() + b.len() <= s.len(),
        s.subrange(pos, pos + a.len() + b.len()) == a + b,
    ensures
        s.subrange(pos, pos + a.len()) == a,
        s.subrange(pos + a.len(), pos + a.len() + b.len()) == b,
{
    lemma_seg_index(s, pos, a + b);
    assert(s.subrange(pos, pos + a.len()) =~= a);
    assert forall|i: int| 0 <= i < b.len() implies s.subrange(
        pos + a.len(),
        pos + a.len() + b.len(),
    )[i] == b[i] by {
        assert(s[pos + (a.len() + i)] == (a + b)[a.len() + i]);
    }
    assert(s.subrange(pos + a.len(), pos + a.len() + b.len()) =~= b);
}

/// Every byte printed for a nonnegative number is a decimal digit.
proof fn lemma_print_nat_digits(n: nat)
    ensures
        print_nat(n).len() >= 1,
        forall|i: int| 0 <= i < print_nat(n).len() ==> is_digit(#[trigger] print_nat(n)[i]),
    decreases n,
{
    if n >= 10 {
        lemma_print_nat_digits(n / 10);
    }
}

/// Reading back the printed digits of a number gives the number.
proof fn lemma_digits_val_print_nat(n: nat)
    ensures
        digits_val(print_nat(n)) == n,
    decreases n,
{
    if n < 10 {
        assert(print_nat(n).drop_last() =~= Seq::<u8>::empty());
        assert(digits_val(Seq::<u8>::empty()) == 0);
        assert(print_nat(n).last() == (0x30 + n) as u8);
    } else {
        lemma_digits_val_print_nat(n / 10);
        assert(print_nat(n).drop_last() =~= print_nat(n / 10));
        assert(print_nat(n).last() == (0x30 + n % 10) as u8);
    }
}

/// A run of digits ending at the first non-digit is scanned exactly.
proof fn lemma_digits_end_of_run(s: Seq<u8>, pos: int, k: int)
    requires
        0 <= pos <= k <= s.len(),
        forall|i: int| pos <= i < k ==> is_digit(#[trigger] s[i]),
        k == s.len() || !is_digit(s[k]),
    ensures
        digits_end(s, pos) == k,
    decreases k - pos,
{
    if pos < k {
        lemma_digits_end_of_run(s, pos + 1, k);
    }
}

/// Parsing the escaped form of string content, followed by a closing
/// quote, yields the content back.
proof fn lemma_parse_print_string(bs: Seq<u8>, s: Seq<u8>, pos: int)
    requires
        0 <= pos,
        pos + escape_bytes(bs).len() + 1 <= s.len(),
        s.subrange(pos, pos + escape_bytes(bs).len()) == escape_bytes(bs),
        s[pos + escape_bytes(bs).len()] == 0x22,
    ensures
        parse_string(s, pos) == Some((bs, pos + escape_bytes(bs).len() + 1)),
    decreases bs,
{
    if bs.len() == 0 {
        assert(escape_bytes(bs).len() == 0);
    } else {
        let b = bs[0];
        let eb = escape_byte(b);
        let rest = escape_bytes(bs.drop_first());
        assert(escape_bytes(bs) == eb + rest);
        lemma_seg_split(s, pos, eb, rest);
        lemma_seg_index(s, pos, eb);
        let pos2 = pos + eb.len();
        assert(s.subrange(pos2, pos2 + rest.len()) == rest);
        assert(s[pos2 + rest.len()] == 0x22);
        lemma_parse_print_string(bs.drop_first(), s, pos2);
        if b == 0x22 || b == 0x5c {
            assert(eb[0] == 0x5c);
            assert(s[pos] == 0x5c);
            assert(s[pos + 1] == b);
            assert(seq![b] + bs.drop_first() =~= bs);
        } else if b == 0x08 || b == 0x09 || b == 0x0a || b == 0x0c || b == 0x0d {
            assert(eb[0] == 0x5c);
            assert(s[pos] == 0x5c);
            assert(s[pos + 1] == eb[1]);
            assert(seq![b] + bs.drop_first() =~= bs);
        } else if b < 0x20 {
            assert(eb[0] == 0x5c);
            assert(s[pos] == 0x5c);
            assert(s[pos + 1] == 0x75);
            assert(s[pos + 2] == 0x30);
            assert(s[pos + 3] == 0x30);
            assert(s[pos + 4] == hex_digit(b / 16));
            assert(s[pos + 5] == hex_digit(b % 16));
            assert(is_hex(hex_digit(b / 16)));
            assert(is_hex(hex_digit(b % 16)));
            assert(hex_val(hex_digit(b / 16)) == b / 16);
            assert(hex_val(hex_digit(b % 16)) == b % 16);
            let code = hex_val(s[pos + 2]) * 4096 + hex_val(s[pos + 3]) * 256 + hex_val(s[pos + 4])
                * 16 + hex_val(s[pos + 5]);
            assert(code == (b / 16) * 16 + b % 16);
            assert(code == b);
            assert(vstd::utf8::encode_scalar(code as u32) =~= seq![b]) by {
                assert((b as u32) & 0x7f == b as u32) by (bit_vector)
                    requires
                        b < 0x20,
                ;
            }
            assert(vstd::utf8::encode_scalar(code as u32) + bs.drop_first() =~= bs);
        } else {
            assert(eb[0] == b);
            assert(s[pos] == b);
            assert(!(b == 0x22 || b == 0x5c || b < 0x20));
            assert(seq![b] + bs.drop_first() =~= bs);
        }
    }
}

/// True when a model value can be held by a [`JsonValue`]: every number
/// fits in a signed 64-bit integer.
pub open spec fn wf_val(v: JsonVal) -> bool
    decreases v,
{
    match v {
        JsonVal::Null => true,
        JsonVal::Bool(_) => true,
        JsonVal::Int(n) => i64::MIN <= n <= i64::MAX,
        JsonVal::Str(_) => true,
        JsonVal::Arr(items) => wf_list(items),
        JsonVal::Obj(members) => wf_members(members),
    }
}

/// Well-formedness of every element of a list.
pub open spec fn wf_list(items: Seq<JsonVal>) -> bool
    decreases items,
{
    items.len() == 0 || (wf_val(items[0]) && wf_list(items.drop_first()))
}

/// Well-formedness of every value of a member list.
pub open spec fn wf_members(members: Seq<(Seq<char>, JsonVal)>) -> bool
    decreases members,
{
    members.len() == 0 || (wf_val(members[0].1) && wf_members(members.drop_first()))
}

/// The model of any value is well-formed.
pub proof fn lemma_model_wf(v: JsonValue)
    ensures
        wf_val(v.model()),
    decreases v, 0int,
{
    match v {
        JsonValue::Arr(items) => {
            lemma_model_list_wf(items@);
        },
        JsonValue::Obj(members) => {
            lemma_model_members_wf(members@);
        },
        _ => {},
    }
}

/// The model of any list of values is well-formed.
pub proof fn lemma_model_list_wf(items: Seq<JsonValue>)
    ensures
        wf_list(model_list(items)),
    decreases items, 1int,
{
    if items.len() > 0 {
        lemma_model_wf(items[0]);
        lemma_model_list_wf(items.drop_first());
        assert(model_list(items)[0] == items[0].model());
        assert(model_list(items).drop_first() =~= model_list(items.drop_first()));
    }
}

/// The model of any list of members is well-formed.
pub proof fn lemma_model_members_wf(members: Seq<(String, JsonValue)>)
    ensures
        wf_members(model_members(members)),
    decreases members, 1int,
{
    if members.len() > 0 {
        lemma_model_wf(members[0].1);
        lemma_model_members_wf(members.drop_first());
        assert(model_members(members)[0] == (members[0].0@, members[0].1.model()));
        assert(model_members(members).drop_first() =~= model_members(members.drop_first()));
    }
}

/// The printed form of a value is nonempty, and its first byte is never a
/// closing bracket, closing brace, or comma.
proof fn lemma_print_first_byte(v: JsonVal)
    ensures
        print_json(v).len() >= 1,
        print_json(v)[0] != 0x5d,
        print_json(v)[0] != 0x7d,
        print_json(v)[0] != 0x2c,
        !is_ws(print_json(v)[0]),
{
    match v {
        JsonVal::Int(n) => {
            if n < 0 {
                lemma_print_nat_digits((-n) as nat);
            } else {
                lemma_print_nat_digits(n as nat);
                assert(print_json(v)[0] == print_nat(n as nat)[0]);
            }
        },
        _ => {},
    }
}

/// Parsing the printed form of a well-formed value, when no digit follows
/// it, yields the value back.
#[verifier::rlimit(80)]
proof fn lemma_parse_print_value(v: JsonVal, s: Seq<u8>, pos: int)
    requires
        wf_val(v),
        0 <= pos,
        pos + print_json(v).len() <= s.len(),
        s.subrange(pos, pos + print_json(v).len()) == print_json(v),
        pos + print_json(v).len() == s.len() || !is_digit(s[pos + print_json(v).len()]),
    ensures
        parse_value(s, pos) == Some((v, pos + print_json(v).len())),
    decreases v, 0int,
{
    let seg = print_json(v);
    lemma_seg_index(s, pos, seg);
    match v {
        JsonVal::Null => {
            assert(s[pos] == 0x6e) by {
                assert(seg[0] == 0x6e);
            }
            assert(ws_end(s, pos) == pos);
        },
        JsonVal::Bool(b) => {
            if b {
                assert(s[pos] == 0x74) by {
                    assert(seg[0] == 0x74);
                }
            } else {
                assert(s[pos] == 0x66) by {
                    assert(seg[0] == 0x66);
                }
            }
            assert(ws_end(s, pos) == pos);
        },
        JsonVal::Int(n) => {
            if n >= 0 {
                lemma_print_nat_digits(n as nat);
                assert(seg == print_nat(n as nat));
                assert forall|i: int| pos <= i < pos + seg.len() implies is_digit(
                    #[trigger] s[i],
                ) by {
                    assert(s[pos + (i - pos)] == seg[i - pos]);
                    assert(is_digit(print_nat(n as nat)[i - pos]));
                }
                assert(is_digit(s[pos])) by {
                    assert(s[pos + 0] == seg[0]);
                    assert(is_digit(print_nat(n as nat)[0]));
                }
                lemma_digits_end_of_run(s, pos, pos + seg.len());
                lemma_digits_val_print_nat(n as nat);
                assert(ws_end(s, pos) == pos);
                assert(s.subrange(pos, pos + seg.len()) == print_nat(n as nat));
            } else {
                let mag = (-n) as nat;
                lemma_print_nat_digits(mag);
                lemma_seg_split(s, pos, seq![0x2du8], print_nat(mag));
                lemma_seg_byte(s, pos, 0x2d);
                lemma_seg_index(s, pos + 1, print_nat(mag));
                assert forall|i: int| pos + 1 <= i < pos + seg.len() implies is_digit(
                    #[trigger] s[i],
                ) by {
                    assert(s[pos + 1 + (i - pos - 1)] == print_nat(mag)[i - pos - 1]);
                    assert(is_digit(print_nat(mag)[i - pos - 1]));
                }
                lemma_digits_end_of_run(s, pos + 1, pos + seg.len());
                lemma_digits_val_print_nat(mag);
                assert(s[pos] == 0x2d);
                assert(ws_end(s, pos) == pos);
                assert(digits_end(s, pos + 1) == pos + seg.len());
                assert(digits_end(s, pos + 1) != pos + 1);
                assert(s.subrange(pos + 1, pos + seg.len()) == print_nat(mag));
                assert(digits_val(s.subrange(pos + 1, digits_end(s, pos + 1))) == mag);
                assert(mag <= 0x8000_0000_0000_0000);
            }
        },
        JsonVal::Str(cs) => {
            let content = vstd::utf8::encode_utf8(cs);
            let esc = escape_bytes(content);
            assert(seg == seq![0x22u8] + (esc + seq![0x22u8])) by {
                assert(seq![0x22u8] + esc + seq![0x22u8] =~= seq![0x22u8] + (esc + seq![0x22u8]));
            }
            lemma_seg_split(s, pos, seq![0x22u8], esc + seq![0x22u8]);
            lemma_seg_split(s, pos + 1, esc, seq![0x22u8]);
            lemma_seg_byte(s, pos, 0x22);
            lemma_seg_byte(s, pos + 1 + esc.len(), 0x22);
            assert(ws_end(s, pos) == pos);
            lemma_parse_print_string(content, s, pos + 1);
            vstd::utf8::encode_utf8_valid_utf8(cs);
            vstd::utf8::encode_utf8_decode_utf8(cs);
        },
        JsonVal::Arr(items) => {
            if items.len() == 0 {
                assert(seg == seq![0x5bu8] + seq![0x5du8]) by {
                    assert(print_list(items) =~= Seq::<u8>::empty());
                    assert(seq![0x5bu8] + print_list(items) + seq![0x5du8] =~= seq![0x5bu8] + seq![
                        0x5du8,
                    ]);
                }
                lemma_seg_split(s, pos, seq![0x5bu8], seq![0x5du8]);
                lemma_seg_byte(s, pos, 0x5b);
                lemma_seg_byte(s, pos + 1, 0x5d);
                assert(ws_end(s, pos) == pos);
                assert(ws_end(s, pos + 1) == pos + 1);
                assert(items =~= Seq::<JsonVal>::empty());
            } else {
                let inner = print_list(items);
                assert(seg == seq![0x5bu8] + (inner + seq![0x5du8])) by {
                    assert(seq![0x5bu8] + inner + seq![0x5du8] =~= seq![0x5bu8] + (inner + seq![
                        0x5du8,
                    ]));
                }
                lemma_seg_split(s, pos, seq![0x5bu8], inner + seq![0x5du8]);
                lemma_seg_byte(s, pos, 0x5b);
                lemma_print_first_byte(items[0]);
                assert(inner[0] == print_json(items[0])[0]);
                assert(s[pos + 1] == inner[0]) by {
                    lemma_seg_index(s, pos + 1, inner + seq![0x5du8]);
                    assert((inner + seq![0x5du8])[0] == inner[0]);
                }
                assert(s[pos + 1] != 0x5d);
                assert(!is_ws(s[pos + 1]));
                assert(ws_end(s, pos) == pos);
                assert(ws_end(s, pos + 1) == pos + 1);
                lemma_parse_print_items(items, s, pos + 1);
            }
        },
        JsonVal::Obj(members) => {
            if members.len() == 0 {
                assert(seg == seq![0x7bu8] + seq![0x7du8]) by {
                    assert(print_members(members) =~= Seq::<u8>::empty());
                    assert(seq![0x7bu8] + print_members(members) + seq![0x7du8] =~= seq![0x7bu8]
                        + seq![0x7du8]);
                }
                lemma_seg_split(s, pos, seq![0x7bu8], seq![0x7du8]);
                lemma_seg_byte(s, pos, 0x7b);
                lemma_seg_byte(s, pos + 1, 0x7d);
                assert(ws_end(s, pos) == pos);
                assert(ws_end(s, pos + 1) == pos + 1);
                assert(members =~= Seq::<(Seq<char>, JsonVal)>::empty());
            } else {
                let inner = print_members(members);
                assert(seg == seq![0x7bu8] + (inner + seq![0x7du8])) by {
                    assert(seq![0x7bu8] + inner + seq![0x7du8] =~= seq![0x7bu8] + (inner + seq![
                        0x7du8,
                    ]));
                }
                lemma_seg_split(s, pos, seq![0x7bu8], inner + seq![0x7du8]);
                lemma_seg_byte(s, pos, 0x7b);
                assert(inner[0] == 0x22) by {
                    assert(print_str(members[0].0)[0] == 0x22);
                }
                assert(s[pos + 1] == inner[0]) by {
                    lemma_seg_index(s, pos + 1, inner + seq![0x7du8]);
                    assert((inner + seq![0x7du8])[0] == inner[0]);
                }
                assert(s[pos + 1] != 0x7d);
                assert(s[pos + 1] == 0x22);
                assert(ws_end(s, pos) == pos);
                assert(ws_end(s, pos + 1) == pos + 1);
                lemma_parse_print_members(members, s, pos + 1);
            }
        },
    }
}

/// Parsing printed list elements followed by a closing bracket yields the
/// elements back.
proof fn lemma_parse_print_items(items: Seq<JsonVal>, s: Seq<u8>, pos: int)
    requires
        wf_list(items),
        items.len() >= 1,
        0 <= pos,
        pos + print_list(items).len() + 1 <= s.len(),
        s.subrange(pos, pos + print_list(items).len() + 1) == print_list(items) + seq![0x5du8],
    ensures
        parse_items(s, pos) == Some((items, pos + print_list(items).len() + 1)),
    decreases items, 1int,
{
    let first = print_json(items[0]);
    lemma_print_first_byte(items[0]);
    if items.len() == 1 {
        assert(print_list(items) + seq![0x5du8] == first + seq![0x5du8]);
        lemma_seg_split(s, pos, first, seq![0x5du8]);
        lemma_seg_byte(s, pos + first.len(), 0x5d);
        lemma_parse_print_value(items[0], s, pos);
        assert(ws_end(s, pos + first.len()) == pos + first.len());
        assert(seq![items[0]] =~= items);
    } else {
        let rest = print_list(items.drop_first());
        assert(print_list(items) + seq![0x5du8] == first + (seq![0x2cu8] + (rest + seq![0x5du8])))
            by {
            assert(first + seq![0x2cu8] + rest + seq![0x5du8] =~= first + (seq![0x2cu8] + (rest
                + seq![0x5du8])));
        }
        lemma_seg_split(s, pos, first, seq![0x2cu8] + (rest + seq![0x5du8]));
        lemma_seg_split(s, pos + first.len(), seq![0x2cu8], rest + seq![0x5du8]);
        lemma_seg_byte(s, pos + first.len(), 0x2c);
        lemma_parse_print_value(items[0], s, pos);
        assert(ws_end(s, pos + first.len()) == pos + first.len());
        lemma_parse_print_items(items.drop_first(), s, pos + first.len() + 1);
        assert(seq![items[0]] + items.drop_first() =~= items);
    }
}

/// Parsing printed object members followed by a closing brace yields the
/// members back.
proof fn lemma_parse_print_members(members: Seq<(Seq<char>, JsonVal)>, s: Seq<u8>, pos: int)
    requires
        wf_members(members),
        members.len() >= 1,
        0 <= pos,
        pos + print_members(members).len() + 1 <= s.len(),
        s.subrange(pos, pos + print_members(members).len() + 1) == print_members(members) + seq![
            0x7du8,
        ],
    ensures
        parse_members(s, pos) == Some((members, pos + print_members(members).len() + 1)),
    decreases members, 1int,
{
    let key = members[0].0;
    let v = members[0].1;
    let kseg = print_str(key);
    let vseg = print_json(v);
    let content = vstd::utf8::encode_utf8(key);
    let esc = escape_bytes(content);
    let head = kseg + seq![0x3au8] + vseg;
    lemma_print_first_byte(v);
    if members.len() == 1 {
        assert(print_members(members) + seq![0x7du8] == (kseg + seq![0x3au8]) + (vseg + seq![
            0x7du8,
        ])) by {
            assert(kseg + seq![0x3au8] + vseg + seq![0x7du8] =~= (kseg + seq![0x3au8]) + (vseg
                + seq![0x7du8]));
        }
        lemma_seg_split(s, pos, kseg + seq![0x3au8], vseg + seq![0x7du8]);
        lemma_seg_split(s, pos + kseg.len() + 1, vseg, seq![0x7du8]);
        lemma_seg_index(s, pos + kseg.len() + 1 + vseg.len(), seq![0x7du8]);
        assert(s.subrange(pos, pos + kseg.len() + 1) == kseg + seq![0x3au8]);
        assert(kseg + seq![0x3au8] == seq![0x22u8] + ((esc + seq![0x22u8]) + seq![0x3au8])) by {
            assert(seq![0x22u8] + esc + seq![0x22u8] + seq![0x3au8] =~= seq![0x22u8] + ((esc + seq![
                0x22u8,
            ]) + seq![0x3au8]));
        }
        lemma_seg_split(s, pos, seq![0x22u8], (esc + seq![0x22u8]) + seq![0x3au8]);
        lemma_seg_split(s, pos + 1, esc + seq![0x22u8], seq![0x3au8]);
        lemma_seg_split(s, pos + 1, esc, seq![0x22u8]);
        lemma_seg_byte(s, pos, 0x22);
        lemma_seg_byte(s, pos + 1 + esc.len(), 0x22);
        lemma_seg_byte(s, pos + 1 + esc.len() + 1, 0x3a);
        assert(ws_end(s, pos) == pos);
        assert(ws_end(s, pos + 1 + esc.len() + 1) == pos + 1 + esc.len() + 1);
        lemma_parse_print_string(content, s, pos + 1);
        vstd::utf8::encode_utf8_valid_utf8(key);
        vstd::utf8::encode_utf8_decode_utf8(key);
        lemma_seg_byte(s, pos + kseg.len() + 1 + vseg.len(), 0x7d);
        assert(ws_end(s, pos + kseg.len() + 1 + vseg.len()) == pos + kseg.len() + 1 + vseg.len());
        lemma_parse_print_value(v, s, pos + kseg.len() + 1);
        assert(seq![(key, v)] =~= members);
    } else {
        let rest = print_members(members.drop_first());
        assert(print_members(members) + seq![0x7du8] == (kseg + seq![0x3au8]) + (vseg + (seq![
            0x2cu8,
        ] + (rest + seq![0x7du8])))) by {
            assert(kseg + seq![0x3au8] + vseg + seq![0x2cu8] + rest + seq![0x7du8] =~= (kseg + seq![
                0x3au8,
            ]) + (vseg + (seq![0x2cu8] + (rest + seq![0x7du8]))));
        }
        lemma_seg_split(s, pos, kseg + seq![0x3au8], vseg + (seq![0x2cu8] + (rest + seq![0x7du8])));
        lemma_seg_split(s, pos + kseg.len() + 1, vseg, seq![0x2cu8] + (rest + seq![0x7du8]));
        lemma_seg_split(s, pos + kseg.len() + 1 + vseg.len(), seq![0x2cu8], rest + seq![0x7du8]);
        lemma_seg_byte(s, pos + kseg.len() + 1 + vseg.len(), 0x2c);
        assert(kseg + seq![0x3au8] == seq![0x22u8] + ((esc + seq![0x22u8]) + seq![0x3au8])) by {
            assert(seq![0x22u8] + esc + seq![0x22u8] + seq![0x3au8] =~= seq![0x22u8] + ((esc + seq![
                0x22u8,
            ]) + seq![0x3au8]));
        }
        lemma_seg_split(s, pos, seq![0x22u8], (esc + seq![0x22u8]) + seq![0x3au8]);
        lemma_seg_split(s, pos + 1, esc + seq![0x22u8], seq![0x3au8]);
        lemma_seg_split(s, pos + 1, esc, seq![0x22u8]);
        lemma_seg_byte(s, pos, 0x22);
        lemma_seg_byte(s, pos + 1 + esc.len(), 0x22);
        lemma_seg_byte(s, pos + 1 + esc.len() + 1, 0x3a);
        assert(ws_end(s, pos) == pos);
        assert(ws_end(s, pos + 1 + esc.len() + 1) == pos + 1 + esc.len() + 1);
        lemma_parse_print_string(content, s, pos + 1);
        vstd::utf8::encode_utf8_valid_utf8(key);
        vstd::utf8::encode_utf8_decode_utf8(key);
        assert(ws_end(s, pos + kseg.len() + 1 + vseg.len()) == pos + kseg.len() + 1 + vseg.len());
        lemma_parse_print_value(v, s, pos + kseg.len() + 1);
        lemma_parse_print_members(members.drop_first(), s, pos + kseg.len() + 1 + vseg.len() + 1);
        assert(seq![(key, v)] + members.drop_first() =~= members);
    }
}

/// Round trip: parsing the canonical printed form of any well-formed value
/// yields exactly that value.
pub proof fn lemma_parse_print(v: JsonVal)
    requires
        wf_val(v),
    ensures
        parse_json(print_json(v)) == Some(v),
{
    let s = print_json(v);
    assert(s.subrange(0, s.len() as int) =~= s);
    lemma_parse_print_value(v, s, 0);
    assert(ws_end(s, s.len() as int) == s.len());
}

} // verus!
