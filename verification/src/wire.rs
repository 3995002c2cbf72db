//! The ingestion wire format: a batch of access records as a JSON array.
//!
//! The grammar is given constructively by spec functions; the encoder is
//! proved to produce exactly that text. All output characters are ASCII:
//! characters outside the printable ASCII range are escaped with `\u`.

use vstd::prelude::*;
use vstd::string::StringExecFns;
use vstd::string::StrSliceExecFns;
use crate::access::{Access, AccessView, IpAddress};

verus! {

/// The decimal digit character for `d` in `0..=9`.
pub open spec fn digit_char(d: int) -> char {
    if d == 0 { '0' } else if d == 1 { '1' } else if d == 2 { '2' }
    else if d == 3 { '3' } else if d == 4 { '4' } else if d == 5 { '5' }
    else if d == 6 { '6' } else if d == 7 { '7' } else if d == 8 { '8' }
    else { '9' }
}

/// The lowercase hexadecimal digit character for `d` in `0..=15`.
pub open spec fn hex_char(d: int) -> char {
    if d < 10 { digit_char(d) }
    else if d == 10 { 'a' } else if d == 11 { 'b' } else if d == 12 { 'c' }
    else if d == 13 { 'd' } else if d == 14 { 'e' } else { 'f' }
}

/// Decimal representation of `n`, most significant digit first, no sign and
/// no leading zeros (`0` is written as one digit).
pub open spec fn dec_digits(n: nat) -> Seq<char>
    decreases n,
{
    if n < 10 { seq![digit_char(n as int)] }
    else { dec_digits(n / 10).push(digit_char((n % 10) as int)) }
}

/// Hexadecimal representation of `n` without leading zeros, lowercase.
pub open spec fn hex_digits(n: nat) -> Seq<char>
    decreases n,
{
    if n < 16 { seq![hex_char(n as int)] }
    else { hex_digits(n / 16).push(hex_char((n % 16) as int)) }
}

/// Exactly four hexadecimal digits of `n`, most significant first.
pub open spec fn hex4(n: int) -> Seq<char> {
    seq![
        hex_char(n / 0x1000 % 16),
        hex_char(n / 0x100 % 16),
        hex_char(n / 0x10 % 16),
        hex_char(n % 16),
    ]
}

/// A JSON integer: decimal digits with a leading `-` when negative.
pub open spec fn int_chars(n: int) -> Seq<char> {
    if n >= 0 { dec_digits(n as nat) } else { seq!['-'] + dec_digits((-n) as nat) }
}

/// How one character appears inside a JSON string: printable ASCII stands
/// for itself, `"` and `\` gain a backslash, everything else is written as
/// `\u` escapes (a surrogate pair above `0xFFFF`).
pub open spec fn escape_char(c: char) -> Seq<char> {
    if c == '"' { seq!['\\', '"'] }
    else if c == '\\' { seq!['\\', '\\'] }
    else if 0x20 <= c as u32 && c as u32 <= 0x7e { seq![c] }
    else if c as u32 <= 0xffff { seq!['\\', 'u'] + hex4(c as u32 as int) }
    else {
        seq!['\\', 'u'] + hex4(0xd800 + (c as u32 - 0x10000) as int / 0x400)
            + seq!['\\', 'u'] + hex4(0xdc00 + (c as u32 - 0x10000) as int % 0x400)
    }
}

/// The escaped body of a JSON string.
pub open spec fn string_chars(s: Seq<char>) -> Seq<char>
    decreases s.len(),
{
    if s.len() == 0 { Seq::empty() }
    else { string_chars(s.drop_last()) + escape_char(s.last()) }
}

/// A JSON string: the escaped body between double quotes.
pub open spec fn json_string(s: Seq<char>) -> Seq<char> {
    seq!['"'] + string_chars(s) + seq!['"']
}

/// The textual form of an IP address: dotted decimal for v4; eight
/// lowercase hexadecimal groups separated by `:` for v6, without zero
/// compression.
pub open spec fn ip_chars(ip: IpAddress) -> Seq<char> {
    match ip {
        IpAddress::V4 { a, b, c, d } => dec_digits(a as nat) + seq!['.'] + dec_digits(b as nat)
            + seq!['.'] + dec_digits(c as nat) + seq!['.'] + dec_digits(d as nat),
        IpAddress::V6 { g0, g1, g2, g3, g4, g5, g6, g7 } => hex_digits(g0 as nat) + seq![':']
            + hex_digits(g1 as nat) + seq![':'] + hex_digits(g2 as nat) + seq![':']
            + hex_digits(g3 as nat) + seq![':'] + hex_digits(g4 as nat) + seq![':']
            + hex_digits(g5 as nat) + seq![':'] + hex_digits(g6 as nat) + seq![':']
            + hex_digits(g7 as nat),
    }
}

/// An optional IP address: its textual form between double quotes, or
/// `null`. The textual form holds only digits, dots and colons, so no
/// character of it needs escaping.
pub open spec fn opt_ip_json(ip: Option<IpAddress>) -> Seq<char> {
    match ip {
        Some(v) => seq!['"'] + ip_chars(v) + seq!['"'],
        None => "null"@,
    }
}

/// An optional string: a JSON string, or `null`.
pub open spec fn opt_string_json(s: Option<Seq<char>>) -> Seq<char> {
    match s {
        Some(v) => json_string(v),
        None => "null"@,
    }
}

/// One access record as a JSON object, fields in wire order.
pub open spec fn access_json(a: AccessView) -> Seq<char> {
    "{\"date\":"@ + int_chars(a.date)
        + ",\"peer_addr\":"@ + opt_ip_json(a.peer_addr)
        + ",\"user_agent\":"@ + opt_string_json(a.user_agent)
        + ",\"referer\":"@ + opt_string_json(a.referer)
        + ",\"method\":"@ + json_string(a.method)
        + ",\"uri\":"@ + json_string(a.uri)
        + "}"@
}

/// The comma-separated items of the array, in order.
pub open spec fn access_items_json(s: Seq<AccessView>) -> Seq<char>
    decreases s.len(),
{
    if s.len() == 0 { Seq::empty() }
    else if s.len() == 1 { access_json(s[0]) }
    else { access_items_json(s.drop_last()) + seq![','] + access_json(s.last()) }
}

/// A whole batch as a JSON array, elements in buffer order.
pub open spec fn access_array_json(s: Seq<AccessView>) -> Seq<char> {
    seq!['['] + access_items_json(s) + seq![']']
}

/// The views of a sequence of access records, in order.
pub open spec fn access_views(s: Seq<Access>) -> Seq<AccessView> {
    s.map_values(|a: Access| a@)
}

/// Relies on `String::push`: appends the given character to the end of the
/// string.
#[verifier::external_body]
pub(crate) fn push_char(out: &mut String, c: char)
    ensures
        final(out)@ == old(out)@.push(c),
{
    out.push(c);
}

/// The decimal digit character for `d`.
pub(crate) fn dec_digit(d: u8) -> (c: char)
    requires
        d < 10,
    ensures
        c == digit_char(d as int),
{
    match d {
        0 => '0', 1 => '1', 2 => '2', 3 => '3', 4 => '4',
        5 => '5', 6 => '6', 7 => '7', 8 => '8', _ => '9',
    }
}

/// The lowercase hexadecimal digit character for `d`.
pub(crate) fn hex_digit(d: u8) -> (c: char)
    requires
        d < 16,
    ensures
        c == hex_char(d as int),
{
    match d {
        0 => '0', 1 => '1', 2 => '2', 3 => '3', 4 => '4',
        5 => '5', 6 => '6', 7 => '7', 8 => '8', 9 => '9',
        10 => 'a', 11 => 'b', 12 => 'c', 13 => 'd', 14 => 'e', _ => 'f',
    }
}

/// Appends the decimal representation of `n`.
pub(crate) fn push_dec_u64(out: &mut String, n: u64)
    ensures
        final(out)@ == old(out)@ + dec_digits(n as nat),
    decreases n,
{
    if n >= 10 {
        push_dec_u64(out, n / 10);
    }
    push_char(out, dec_digit((n % 10) as u8));
    assert(final(out)@ =~= old(out)@ + dec_digits(n as nat));
}

/// Appends the hexadecimal representation of `n`, lowercase, no leading
/// zeros.
pub(crate) fn push_hex_u16(out: &mut String, n: u16)
    ensures
        final(out)@ == old(out)@ + hex_digits(n as nat),
    decreases n,
{
    if n >= 16 {
        push_hex_u16(out, n / 16);
    }
    push_char(out, hex_digit((n % 16) as u8));
    assert(final(out)@ =~= old(out)@ + hex_digits(n as nat));
}

/// Appends exactly four hexadecimal digits of `n`.
pub(crate) fn push_hex4(out: &mut String, n: u16)
    ensures
        final(out)@ == old(out)@ + hex4(n as int),
{
    push_char(out, hex_digit((n / 0x1000 % 16) as u8));
    push_char(out, hex_digit((n / 0x100 % 16) as u8));
    push_char(out, hex_digit((n / 0x10 % 16) as u8));
    push_char(out, hex_digit((n % 16) as u8));
    assert(final(out)@ =~= old(out)@ + hex4(n as int));
}

/// Appends a JSON integer.
pub(crate) fn push_i64(out: &mut String, n: i64)
    ensures
        final(out)@ == old(out)@ + int_chars(n as int),
{
    if n >= 0 {
        push_dec_u64(out, n as u64);
    } else {
        push_char(out, '-');
        let mag: u64 = ((-(n + 1)) as u64) + 1;
        assert(mag as nat == (-(n as int)) as nat);
        push_dec_u64(out, mag);
        assert(final(out)@ =~= old(out)@ + int_chars(n as int));
    }
}

/// Appends one character in its escaped form.
pub(crate) fn push_escaped_char(out: &mut String, c: char)
    ensures
        final(out)@ == old(out)@ + escape_char(c),
{
    if c == '"' {
        push_char(out, '\\');
        push_char(out, '"');
    } else if c == '\\' {
        push_char(out, '\\');
        push_char(out, '\\');
    } else {
        let u = c as u32;
        if 0x20 <= u && u <= 0x7e {
            push_char(out, c);
        } else if u <= 0xffff {
            push_char(out, '\\');
            push_char(out, 'u');
            push_hex4(out, u as u16);
        } else {
            let v = u - 0x10000;
            let hi = 0xd800 + v / 0x400;
            let lo = 0xdc00 + v % 0x400;
            push_char(out, '\\');
            push_char(out, 'u');
            push_hex4(out, hi as u16);
            push_char(out, '\\');
            push_char(out, 'u');
            push_hex4(out, lo as u16);
        }
    }
    assert(final(out)@ =~= old(out)@ + escape_char(c));
}

/// Appends a JSON string holding the characters of `s`.
pub(crate) fn push_json_string(out: &mut String, s: &str)
    ensures
        final(out)@ == old(out)@ + json_string(s@),
{
    push_char(out, '"');
    let len = s.unicode_len();
    let mut i: usize = 0;
    while i < len
        invariant
            i <= len,
            len == s@.len(),
            out@ == old(out)@.push('"') + string_chars(s@.take(i as int)),
        decreases len - i,
    {
        let c = s.get_char(i);
        push_escaped_char(out, c);
        proof {
            assert(s@.take(i + 1 as int).drop_last() =~= s@.take(i as int));
            assert(s@.take(i + 1 as int).last() == s@[i as int]);
        }
        i += 1;
    }
    proof {
        assert(s@.take(len as int) =~= s@);
    }
    push_char(out, '"');
    assert(final(out)@ =~= old(out)@ + json_string(s@));
}

/// Appends the textual form of an IP address.
pub(crate) fn push_ip(out: &mut String, ip: &IpAddress)
    ensures
        final(out)@ == old(out)@ + ip_chars(*ip),
{
    match *ip {
        IpAddress::V4 { a, b, c, d } => {
            push_dec_u64(out, a as u64);
            push_char(out, '.');
            push_dec_u64(out, b as u64);
            push_char(out, '.');
            push_dec_u64(out, c as u64);
            push_char(out, '.');
            push_dec_u64(out, d as u64);
        }
        IpAddress::V6 { g0, g1, g2, g3, g4, g5, g6, g7 } => {
            push_hex_u16(out, g0);
            push_char(out, ':');
            push_hex_u16(out, g1);
            push_char(out, ':');
            push_hex_u16(out, g2);
            push_char(out, ':');
            push_hex_u16(out, g3);
            push_char(out, ':');
            push_hex_u16(out, g4);
            push_char(out, ':');
            push_hex_u16(out, g5);
            push_char(out, ':');
            push_hex_u16(out, g6);
            push_char(out, ':');
            push_hex_u16(out, g7);
        }
    }
    assert(final(out)@ =~= old(out)@ + ip_chars(*ip));
}

/// Appends an optional string field: a JSON string or `null`.
pub(crate) fn push_opt_string(out: &mut String, s: &Option<String>)
    ensures
        final(out)@ == old(out)@ + opt_string_json(crate::access::view_of_opt_string(*s)),
{
    match s {
        Some(v) => push_json_string(out, v.as_str()),
        None => out.append("null"),
    }
}

/// Appends an optional IP field: a JSON string or `null`.
pub(crate) fn push_opt_ip(out: &mut String, ip: &Option<IpAddress>)
    ensures
        final(out)@ == old(out)@ + opt_ip_json(*ip),
{
    match ip {
        Some(v) => {
            push_char(out, '"');
            push_ip(out, v);
            push_char(out, '"');
            assert(final(out)@ =~= old(out)@ + opt_ip_json(*ip));
        }
        None => out.append("null"),
    }
}

/// Appends one access record as a JSON object.
pub(crate) fn push_access(out: &mut String, a: &Access)
    ensures
        final(out)@ == old(out)@ + access_json(a@),
{
    out.append("{\"date\":");
    push_i64(out, a.date);
    out.append(",\"peer_addr\":");
    push_opt_ip(out, &a.peer_addr);
    out.append(",\"user_agent\":");
    push_opt_string(out, &a.user_agent);
    out.append(",\"referer\":");
    push_opt_string(out, &a.referer);
    out.append(",\"method\":");
    push_json_string(out, a.method.as_str());
    out.append(",\"uri\":");
    push_json_string(out, a.uri.as_str());
    out.append("}");
    assert(final(out)@ =~= old(out)@ + access_json(a@));
}

/// Encodes a whole batch as the JSON array the ingestion endpoint takes,
/// elements in buffer order.
pub fn encode_accesses(list: &Vec<Access>) -> (r: String)
    ensures
        r@ == access_array_json(access_views(list@)),
{
    let ghost views = access_views(list@);
    let mut out = String::new();
    push_char(&mut out, '[');
    let mut i: usize = 0;
    while i < list.len()
        invariant
            i <= list.len(),
            views == access_views(list@),
            views.len() == list@.len(),
            out@ == seq!['['] + access_items_json(views.take(i as int)),
        decreases list.len() - i,
    {
        if i > 0 {
            push_char(&mut out, ',');
        }
        push_access(&mut out, &list[i]);
        proof {
            assert(views.take(i + 1 as int).drop_last() =~= views.take(i as int));
            assert(views.take(i + 1 as int).last() == views[i as int]);
            assert(views[i as int] == list@[i as int]@);
            assert(out@ =~= seq!['['] + access_items_json(views.take(i + 1 as int)));
        }
        i += 1;
    }
    proof {
        assert(views.take(list@.len() as int) =~= views);
    }
    push_char(&mut out, ']');
    assert(out@ =~= access_array_json(views));
    out
}

} // verus!
