//! The reading side of the ingestion wire format: turns the canonical JSON
//! array text back into access records.
//!
//! The decoder accepts exactly the texts the encoder produces for
//! well-formed batches. Both directions are proved: every canonical text
//! of well-formed records decodes — the parsing helpers carry ghost
//! expectations stating that the announced value is read exactly — and
//! whatever is accepted re-encodes, character for character, to the
//! input, which a verified re-encoding comparison checks.

use vstd::prelude::*;
use vstd::string::StrSliceExecFns;
use vstd::string::StringExecFns;
use crate::access::{Access, IpAddress};
use crate::wire::{access_array_json, access_items_json, access_json, access_views, dec_digits,
    digit_char, encode_accesses, escape_char, hex4, hex_char, hex_digits, int_chars, ip_chars,
    json_string, opt_ip_json, opt_string_json, push_char, string_chars};
use crate::access::AccessView;

verus! {

// --- Facts about the grammar, used by the completeness proofs below. ---

/// A decimal digit character.
pub(crate) open spec fn is_dec_char(c: char) -> bool {
    48 <= (c as u32) && (c as u32) <= 57
}

/// A lowercase hexadecimal digit character.
pub(crate) open spec fn is_hex_char(c: char) -> bool {
    is_dec_char(c) || (97 <= (c as u32) && (c as u32) <= 102)
}

/// The numeric value of a hexadecimal digit character.
pub(crate) open spec fn hex_char_value(c: char) -> int {
    if is_dec_char(c) {
        (c as u32) - 48
    } else {
        (c as u32) - 87
    }
}

/// The number read from a digit sequence, most significant first.
pub(crate) open spec fn dec_seq_value(s: Seq<char>) -> int
    decreases s.len(),
{
    if s.len() == 0 {
        0
    } else {
        dec_seq_value(s.drop_last()) * 10 + ((s.last() as u32) - 48)
    }
}

/// The number read from a hexadecimal digit sequence, most significant
/// first.
pub(crate) open spec fn hex_seq_value(s: Seq<char>) -> int
    decreases s.len(),
{
    if s.len() == 0 {
        0
    } else {
        hex_seq_value(s.drop_last()) * 16 + hex_char_value(s.last())
    }
}

proof fn lemma_digit_char_code(d: int)
    requires
        0 <= d < 10,
    ensures
        digit_char(d) as u32 == 48 + d,
        is_dec_char(digit_char(d)),
{
}

proof fn lemma_hex_char_code(d: int)
    requires
        0 <= d < 16,
    ensures
        is_hex_char(hex_char(d)),
        hex_char_value(hex_char(d)) == d,
        hex_char(d) != '.',
        hex_char(d) != ':',
        hex_char(d) != '"',
{
    lemma_digit_char_code(if d < 10 { d } else { 0 });
}

/// The decimal text of `n` is non-empty, all digits, and reads back as
/// `n`; digit sequences also never hold a separator.
proof fn lemma_dec_digits_value(n: nat)
    ensures
        dec_digits(n).len() >= 1,
        forall|i: int| 0 <= i < dec_digits(n).len() ==> is_dec_char(#[trigger] dec_digits(n)[i]),
        forall|i: int| 0 <= i < dec_digits(n).len() ==> #[trigger] dec_digits(n)[i] != '.'
            && dec_digits(n)[i] != ':' && dec_digits(n)[i] != '"',
        dec_seq_value(dec_digits(n)) == n,
    decreases n,
{
    if n < 10 {
        lemma_digit_char_code(n as int);
        assert(dec_digits(n) == seq![digit_char(n as int)]);
        assert(dec_digits(n).drop_last() =~= Seq::<char>::empty());
        assert(dec_seq_value(Seq::<char>::empty()) == 0);
        assert(dec_digits(n).last() == digit_char(n as int));
        assert(dec_seq_value(dec_digits(n)) == n);
    } else {
        lemma_dec_digits_value(n / 10);
        lemma_digit_char_code((n % 10) as int);
        let s = dec_digits(n);
        let head = dec_digits(n / 10);
        assert(s == head.push(digit_char((n % 10) as int)));
        assert(s.drop_last() =~= head);
        assert(s.last() == digit_char((n % 10) as int));
        assert(dec_seq_value(s) == dec_seq_value(head) * 10 + ((s.last() as u32) - 48));
        assert(dec_seq_value(s) == (n / 10) * 10 + (n % 10));
        assert(forall|i: int| 0 <= i < s.len() ==> #[trigger] s[i] == if i < head.len() {
            head[i]
        } else {
            digit_char((n % 10) as int)
        });
    }
}

/// The hexadecimal text of `n` is non-empty, all hex digits, and reads
/// back as `n`.
proof fn lemma_hex_digits_value(n: nat)
    ensures
        hex_digits(n).len() >= 1,
        forall|i: int| 0 <= i < hex_digits(n).len() ==> is_hex_char(#[trigger] hex_digits(n)[i]),
        forall|i: int| 0 <= i < hex_digits(n).len() ==> #[trigger] hex_digits(n)[i] != '.'
            && hex_digits(n)[i] != ':' && hex_digits(n)[i] != '"',
        hex_seq_value(hex_digits(n)) == n,
    decreases n,
{
    if n < 16 {
        lemma_hex_char_code(n as int);
        assert(hex_digits(n) == seq![hex_char(n as int)]);
        assert(hex_digits(n).drop_last() =~= Seq::<char>::empty());
        assert(hex_seq_value(Seq::<char>::empty()) == 0);
        assert(hex_digits(n).last() == hex_char(n as int));
        assert(hex_seq_value(hex_digits(n)) == n);
    } else {
        lemma_hex_digits_value(n / 16);
        lemma_hex_char_code((n % 16) as int);
        let s = hex_digits(n);
        let head = hex_digits(n / 16);
        assert(s == head.push(hex_char((n % 16) as int)));
        assert(s.drop_last() =~= head);
        assert(s.last() == hex_char((n % 16) as int));
        assert(hex_seq_value(s) == hex_seq_value(head) * 16 + hex_char_value(s.last()));
        assert(hex_seq_value(s) == (n / 16) * 16 + (n % 16));
        assert(forall|i: int| 0 <= i < s.len() ==> #[trigger] s[i] == if i < head.len() {
            head[i]
        } else {
            hex_char((n % 16) as int)
        });
    }
}

/// Reading one more digit multiplies the value read so far by the base.
proof fn lemma_dec_seq_step(s: Seq<char>, k: int)
    requires
        0 <= k < s.len(),
    ensures
        dec_seq_value(s.take(k + 1)) == dec_seq_value(s.take(k)) * 10 + ((s[k] as u32) - 48),
{
    assert(s.take(k + 1).drop_last() =~= s.take(k));
    assert(s.take(k + 1).last() == s[k]);
}

proof fn lemma_dec_seq_nonneg(s: Seq<char>, k: int)
    requires
        0 <= k <= s.len(),
        forall|i: int| 0 <= i < s.len() ==> is_dec_char(#[trigger] s[i]),
    ensures
        dec_seq_value(s.take(k)) >= 0,
    decreases k,
{
    if k == 0 {
        assert(s.take(0) =~= Seq::<char>::empty());
    } else {
        lemma_dec_seq_nonneg(s, k - 1);
        lemma_dec_seq_step(s, k - 1);
    }
}

/// A prefix of a digit run never reads above the whole run.
proof fn lemma_dec_seq_bounds(s: Seq<char>, k: int)
    requires
        0 <= k <= s.len(),
        forall|i: int| 0 <= i < s.len() ==> is_dec_char(#[trigger] s[i]),
    ensures
        0 <= dec_seq_value(s.take(k)) <= dec_seq_value(s),
    decreases s.len() - k,
{
    lemma_dec_seq_nonneg(s, k);
    if k == s.len() {
        assert(s.take(k) =~= s);
    } else {
        lemma_dec_seq_step(s, k);
        lemma_dec_seq_bounds(s, k + 1);
    }
}

proof fn lemma_hex_seq_step(s: Seq<char>, k: int)
    requires
        0 <= k < s.len(),
    ensures
        hex_seq_value(s.take(k + 1)) == hex_seq_value(s.take(k)) * 16 + hex_char_value(s[k]),
{
    assert(s.take(k + 1).drop_last() =~= s.take(k));
    assert(s.take(k + 1).last() == s[k]);
}

proof fn lemma_hex_seq_nonneg(s: Seq<char>, k: int)
    requires
        0 <= k <= s.len(),
        forall|i: int| 0 <= i < s.len() ==> is_hex_char(#[trigger] s[i]),
    ensures
        hex_seq_value(s.take(k)) >= 0,
    decreases k,
{
    if k == 0 {
        assert(s.take(0) =~= Seq::<char>::empty());
    } else {
        lemma_hex_seq_nonneg(s, k - 1);
        lemma_hex_seq_step(s, k - 1);
    }
}

/// A prefix of a hexadecimal run never reads above the whole run.
proof fn lemma_hex_seq_bounds(s: Seq<char>, k: int)
    requires
        0 <= k <= s.len(),
        forall|i: int| 0 <= i < s.len() ==> is_hex_char(#[trigger] s[i]),
    ensures
        0 <= hex_seq_value(s.take(k)) <= hex_seq_value(s),
    decreases s.len() - k,
{
    lemma_hex_seq_nonneg(s, k);
    if k == s.len() {
        assert(s.take(k) =~= s);
    } else {
        lemma_hex_seq_step(s, k);
        lemma_hex_seq_bounds(s, k + 1);
    }
}

/// Escaping distributes over concatenation.
proof fn lemma_string_chars_app(a: Seq<char>, b: Seq<char>)
    ensures
        string_chars(a + b) == string_chars(a) + string_chars(b),
    decreases b.len(),
{
    if b.len() == 0 {
        assert(a + b =~= a);
        assert(string_chars(b) == Seq::<char>::empty());
        assert(string_chars(a) + string_chars(b) =~= string_chars(a));
    } else {
        lemma_string_chars_app(a, b.drop_last());
        assert((a + b).drop_last() =~= a + b.drop_last());
        assert((a + b).last() == b.last());
        assert(string_chars(a + b) == string_chars(a + b.drop_last()) + escape_char(b.last()));
        assert(string_chars(b) == string_chars(b.drop_last()) + escape_char(b.last()));
        assert(string_chars(a) + string_chars(b) =~= (string_chars(a) + string_chars(
            b.drop_last(),
        )) + escape_char(b.last()));
    }
}

/// The escaped body starts with the first character's escape.
proof fn lemma_string_chars_head(s: Seq<char>, k: int)
    requires
        0 <= k < s.len(),
    ensures
        string_chars(s.skip(k)) == escape_char(s[k]) + string_chars(s.skip(k + 1)),
{
    assert(s.skip(k) =~= seq![s[k]] + s.skip(k + 1));
    lemma_string_chars_app(seq![s[k]], s.skip(k + 1));
    assert(seq![s[k]].drop_last() =~= Seq::<char>::empty());
    assert(string_chars(seq![s[k]]) == string_chars(Seq::<char>::empty()) + escape_char(s[k]));
    assert(string_chars(Seq::<char>::empty()) == Seq::<char>::empty());
    assert(string_chars(seq![s[k]]) =~= escape_char(s[k]));
}

/// The escaped body splits at any character count.
proof fn lemma_string_chars_split(s: Seq<char>, k: int)
    requires
        0 <= k <= s.len(),
    ensures
        string_chars(s) == string_chars(s.take(k)) + string_chars(s.skip(k)),
{
    assert(s =~= s.take(k) + s.skip(k));
    lemma_string_chars_app(s.take(k), s.skip(k));
}

/// The array items split at the front: the first object, then — when more
/// follow — a comma and the rest.
proof fn lemma_items_head(s: Seq<AccessView>)
    requires
        s.len() >= 1,
    ensures
        s.len() == 1 ==> access_items_json(s) == access_json(s[0]),
        s.len() > 1 ==> access_items_json(s) == access_json(s[0]) + (seq![',']
            + access_items_json(s.drop_first())),
    decreases s.len(),
{
    if s.len() == 1 {
    } else {
        let dl = s.drop_last();
        lemma_items_head(dl);
        assert(access_items_json(s) == access_items_json(dl) + seq![','] + access_json(s.last()));
        if s.len() == 2 {
            assert(access_items_json(dl) == access_json(s[0]));
            let df = s.drop_first();
            assert(df.len() == 1);
            assert(df[0] == s.last());
            assert(access_items_json(df) == access_json(df[0]));
            assert(access_json(s[0]) + (seq![','] + access_items_json(df)) =~= access_items_json(
                dl,
            ) + seq![','] + access_json(s.last()));
        } else {
            let df = s.drop_first();
            assert(access_items_json(dl) == access_json(dl[0]) + (seq![','] + access_items_json(
                dl.drop_first(),
            )));
            assert(df.drop_last() =~= dl.drop_first());
            assert(df.len() >= 2);
            assert(df.last() == s.last());
            assert(access_items_json(df) == access_items_json(df.drop_last()) + seq![',']
                + access_json(df.last()));
            assert(access_json(s[0]) + (seq![','] + access_items_json(df)) =~= access_items_json(
                dl,
            ) + seq![','] + access_json(s.last()));
        }
    }
}

/// The peel: a slice equal to a concatenation splits at the first part's
/// length.
proof fn lemma_concat_peel(t: Seq<char>, p: int, j: int, a: Seq<char>, b: Seq<char>)
    requires
        0 <= p <= j <= t.len(),
        t.subrange(p, j) == a + b,
    ensures
        p + a.len() + b.len() == j,
        t.subrange(p, p + a.len()) =~= a,
        t.subrange(p + a.len(), j) =~= b,
{
    let slice = t.subrange(p, j);
    assert(slice.len() == j - p);
    assert((a + b).len() == a.len() + b.len());
    assert(forall|i: int| 0 <= i < j - p ==> t[p + i] == #[trigger] slice[i]);
    assert(forall|i: int| 0 <= i < a.len() ==> #[trigger] a[i] == slice[i]);
    assert(forall|i: int| 0 <= i < b.len() ==> #[trigger] b[i] == slice[a.len() + i]);
}

/// A slice equality, read off character by character.
proof fn lemma_slice_index(t: Seq<char>, p: int, j: int, a: Seq<char>)
    requires
        0 <= p <= j <= t.len(),
        t.subrange(p, j) == a,
    ensures
        a.len() == j - p,
        forall|i: int| 0 <= i < a.len() ==> #[trigger] a[i] == t[p + i],
{
    assert(forall|i: int| 0 <= i < a.len() ==> #[trigger] a[i] == t.subrange(p, j)[i]);
}

/// Relies on `char::from_u32`: `Some` exactly on Unicode scalar values —
/// everything up to `0x10FFFF` except the surrogate range — returning the
/// character with that value.
#[verifier::external_body]
fn char_from_u32(u: u32) -> (r: Option<char>)
    ensures
        r matches Some(c) ==> c as u32 == u,
        r is Some <==> (u <= 0x10FFFF && !(0xD800 <= u <= 0xDFFF)),
{
    char::from_u32(u)
}

/// The character under the cursor, if any.
fn peek(cs: &Vec<char>, pos: usize) -> (r: Option<char>)
    ensures
        r is Some <==> (pos as int) < cs@.len(),
        r matches Some(c) ==> c == cs@[pos as int],
{
    if pos < cs.len() {
        Some(cs[pos])
    } else {
        None
    }
}

/// Moves past the character under the cursor.
fn advance(cs: &Vec<char>, pos: &mut usize)
    requires
        *old(pos) < cs@.len(),
    ensures
        *final(pos) == *old(pos) + 1,
        *final(pos) <= cs@.len(),
{
    let n = cs.len();
    *pos += 1;
}

/// Consumes the given literal text, character for character; the cursor
/// never moves backwards and never passes the end. When the text under
/// the cursor is known to be that literal, the match is certain.
fn eat_lit(cs: &Vec<char>, pos: &mut usize, lit: &str, Ghost(expect): Ghost<bool>) -> (r: bool)
    requires
        *old(pos) <= cs@.len(),
        expect ==> *old(pos) + lit@.len() <= cs@.len() && (forall|q: int| 0 <= q < lit@.len()
            ==> #[trigger] cs@[*old(pos) + q] == lit@[q]),
    ensures
        *old(pos) <= *final(pos) <= cs@.len(),
        expect ==> (r && *final(pos) == *old(pos) + lit@.len()),
{
    let n = lit.unicode_len();
    let mut i: usize = 0;
    while i < n
        invariant
            i <= n,
            n == lit@.len(),
            *old(pos) <= *pos <= cs@.len(),
            *pos == *old(pos) + i,
            expect ==> *old(pos) + lit@.len() <= cs@.len() && (forall|q: int| 0 <= q
                < lit@.len() ==> #[trigger] cs@[*old(pos) + q] == lit@[q]),
        decreases n - i,
    {
        proof {
            if expect {
                assert(cs@[*old(pos) + (i as int)] == lit@[i as int]);
            }
        }
        match peek(cs, *pos) {
            Some(c) => {
                if c != lit.get_char(i) {
                    return false;
                }
            }
            None => {
                return false;
            }
        }
        advance(cs, pos);
        i += 1;
    }
    true
}

/// Parses a JSON integer into an `i64`, rejecting values out of range.
/// When the text under the cursor is known to be the canonical form of a
/// representable value ending at `j` (with no digit following), exactly
/// that value is read and the cursor stops at `j`.
fn parse_i64(cs: &Vec<char>, pos: &mut usize, Ghost(exp): Ghost<Option<(int, int)>>) -> (r:
    Option<i64>)
    requires
        *old(pos) <= cs@.len(),
        exp matches Some((v, j)) ==> {
            &&& *old(pos) <= j <= cs@.len()
            &&& i64::MIN <= v <= i64::MAX
            &&& cs@.subrange(*old(pos) as int, j) == int_chars(v)
            &&& (j == cs@.len() || !is_dec_char(cs@[j]))
        },
    ensures
        r is Some ==> *old(pos) < *final(pos),
        *old(pos) <= *final(pos) <= cs@.len(),
        exp matches Some((v, j)) ==> (r matches Some(x) && x as int == v && *final(pos) == j),
{
    let ghost p0 = *old(pos) as int;
    // The digit run the expectation announces.
    let ghost digits: Seq<char> = match exp {
        Some((v, j)) => if v < 0 { dec_digits((-v) as nat) } else { dec_digits(v as nat) },
        None => Seq::empty(),
    };
    proof {
        if let Some((v, j)) = exp {
            lemma_dec_digits_value(if v < 0 { (-v) as nat } else { v as nat });
            if v < 0 {
                assert(int_chars(v) == seq!['-'] + digits);
                lemma_concat_peel(cs@, p0, j, seq!['-'], digits);
                assert(cs@[p0] == cs@.subrange(p0, p0 + 1)[0]);
                assert(cs@[p0] == '-');
                let dseg = cs@.subrange(p0 + 1, j);
                assert(forall|i: int| 0 <= i < digits.len() ==> #[trigger] dseg[i] == cs@[p0 + 1
                    + i]);
                assert(forall|i: int| 0 <= i < digits.len() ==> #[trigger] cs@[p0 + 1 + i]
                    == digits[i]);
                assert(j == p0 + 1 + digits.len());
            } else {
                assert(int_chars(v) == digits);
                let dseg = cs@.subrange(p0, j);
                assert(forall|i: int| 0 <= i < digits.len() ==> #[trigger] dseg[i] == cs@[p0 + i]);
                assert(forall|i: int| 0 <= i < digits.len() ==> #[trigger] cs@[p0 + i]
                    == digits[i]);
                assert(cs@[p0] == digits[0]);
                assert(is_dec_char(digits[0]));
                assert(!(cs@[p0] == '-'));
                assert(j == p0 + digits.len());
            }
        }
    }
    let negative = match peek(cs, *pos) {
        Some('-') => {
            advance(cs, pos);
            true
        }
        _ => false,
    };
    proof {
        if let Some((v, j)) = exp {
            assert(negative == (v < 0));
        }
    }
    let ghost dstart: int = *pos as int;
    let mut magnitude: u64 = 0;
    let mut saw_digit = false;
    loop
        invariant_except_break
            *old(pos) <= *pos <= cs@.len(),
            saw_digit ==> *old(pos) < *pos,
            exp matches Some((v, j)) ==> {
                &&& i64::MIN <= v <= i64::MAX
                &&& digits.len() >= 1
                &&& dstart <= *pos <= dstart + digits.len()
                &&& dstart + digits.len() == j <= cs@.len()
                &&& (forall|i: int| 0 <= i < digits.len() ==> #[trigger] cs@[dstart + i]
                    == digits[i])
                &&& (forall|i: int| 0 <= i < digits.len() ==> is_dec_char(#[trigger] digits[i]))
                &&& (j == cs@.len() || !is_dec_char(cs@[j]))
                &&& magnitude == dec_seq_value(digits.take(*pos - dstart))
                &&& dec_seq_value(digits) == (if v < 0 { -v } else { v })
                &&& saw_digit == (*pos > dstart)
                &&& dstart >= *old(pos)
            },
        ensures
            *old(pos) <= *pos <= cs@.len(),
            saw_digit ==> *old(pos) < *pos,
            exp matches Some((v, j)) ==> {
                &&& i64::MIN <= v <= i64::MAX
                &&& *pos == j
                &&& digits.len() >= 1
                &&& magnitude == dec_seq_value(digits)
                &&& dec_seq_value(digits) == (if v < 0 { -v } else { v })
                &&& saw_digit
            },
        decreases cs@.len() - *pos,
    {
        proof {
            if let Some((v, j)) = exp {
                if *pos < j {
                    assert(cs@[dstart + (*pos - dstart)] == digits[*pos - dstart]);
                    assert(is_dec_char(cs@[*pos as int]));
                }
            }
        }
        let c = match peek(cs, *pos) {
            Some(c) => c,
            None => {
                proof {
                    if let Some((v, j)) = exp {
                        assert(*pos == cs@.len());
                        assert(*pos == j);
                        assert(digits.take(*pos - dstart) =~= digits);
                    }
                }
                break;
            }
        };
        let u = c as u32;
        if !(48 <= u && u <= 57) {
            proof {
                if let Some((v, j)) = exp {
                    assert(!is_dec_char(c));
                    assert(*pos == j);
                    assert(digits.take(*pos - dstart) =~= digits);
                }
            }
            break;
        }
        proof {
            if let Some((v, j)) = exp {
                assert(is_dec_char(c));
                assert(*pos < j);
                let k = *pos - dstart;
                assert(c == digits[k]);
                lemma_dec_seq_step(digits, k);
                lemma_dec_seq_bounds(digits, k + 1);
                assert(dec_seq_value(digits.take(k + 1)) == magnitude * 10 + ((c as u32) - 48));
                assert(dec_seq_value(digits.take(k + 1)) <= dec_seq_value(digits));
                assert(dec_seq_value(digits) <= 0x8000000000000000);
            }
        }
        let d = (u - 48) as u64;
        if magnitude > (u64::MAX - d) / 10 {
            proof {
                if let Some((v, j)) = exp {
                    assert(magnitude * 10 + d <= 0x8000000000000000 < u64::MAX);
                    assert(magnitude * 10 <= u64::MAX - d);
                    assert(magnitude <= (u64::MAX - d) / 10) by {
                        assert(((u64::MAX - d) / 10) * 10 + (u64::MAX - d) % 10 == u64::MAX - d);
                    }
                    assert(false);
                }
            }
            return None;
        }
        magnitude = magnitude * 10 + d;
        advance(cs, pos);
        saw_digit = true;
        proof {
            if let Some((v, j)) = exp {
                assert(digits.take(*pos - dstart) == digits.take((*pos - dstart - 1) + 1));
            }
        }
    }
    if !saw_digit {
        return None;
    }
    if negative {
        if magnitude > 0x8000000000000000 {
            proof {
                if let Some((v, j)) = exp {
                    assert(false);
                }
            }
            None
        } else if magnitude == 0x8000000000000000 {
            Some(i64::MIN)
        } else {
            Some(-(magnitude as i64))
        }
    } else {
        if magnitude > 0x7fffffffffffffff {
            proof {
                if let Some((v, j)) = exp {
                    assert(false);
                }
            }
            None
        } else {
            Some(magnitude as i64)
        }
    }
}

/// Collects the characters up to the closing quote, consuming it. When
/// the quote-free body and the closing quote's place are known, exactly
/// that body comes back.
fn take_until_quote(cs: &Vec<char>, pos: &mut usize, Ghost(exp): Ghost<Option<(Seq<char>, int)>>)
    -> (r: Option<Vec<char>>)
    requires
        *old(pos) <= cs@.len(),
        exp matches Some((body, j)) ==> {
            &&& *old(pos) <= j < cs@.len()
            &&& cs@.subrange(*old(pos) as int, j) == body
            &&& (forall|i: int| 0 <= i < body.len() ==> #[trigger] body[i] != '"')
            &&& cs@[j] == '"'
        },
    ensures
        r is Some ==> *old(pos) < *final(pos),
        *old(pos) <= *final(pos) <= cs@.len(),
        exp matches Some((body, j)) ==> (r matches Some(chunk) && chunk@ == body && *final(pos)
            == j + 1),
{
    let mut out: Vec<char> = Vec::new();
    loop
        invariant
            *old(pos) <= *pos <= cs@.len(),
            exp matches Some((body, j)) ==> {
                &&& *old(pos) <= j < cs@.len()
                &&& *pos <= j
                &&& cs@[j] == '"'
                &&& (forall|i: int| 0 <= i < body.len() ==> #[trigger] body[i] != '"')
                &&& (forall|i: int| 0 <= i < body.len() ==> #[trigger] cs@[*old(pos) + i]
                    == body[i])
                &&& body.len() == j - *old(pos)
                &&& out@ == body.take(*pos - *old(pos))
            },
        decreases cs@.len() - *pos,
    {
        proof {
            if let Some((body, j)) = exp {
                if *pos < j {
                    assert(cs@[*old(pos) + (*pos - *old(pos))] == body[*pos - *old(pos)]);
                }
            }
        }
        match peek(cs, *pos) {
            Some('"') => {
                proof {
                    if let Some((body, j)) = exp {
                        assert(*pos == j);
                        assert(body.take(j - *old(pos)) =~= body);
                    }
                }
                advance(cs, pos);
                return Some(out);
            }
            Some(c) => {
                out.push(c);
                advance(cs, pos);
                proof {
                    if let Some((body, j)) = exp {
                        assert(out@ =~= body.take(*pos - *old(pos)));
                    }
                }
            }
            None => {
                proof {
                    if let Some((body, j)) = exp {
                        assert(false);
                    }
                }
                return None;
            }
        }
    }
}

fn hex_value(c: char) -> (r: Option<u32>)
    ensures
        r is Some <==> is_hex_char(c),
        is_hex_char(c) ==> (r matches Some(v) && v == hex_char_value(c)),
        r matches Some(v) ==> v <= 15,
{
    let u = c as u32;
    if 48 <= u && u <= 57 {
        Some(u - 48)
    } else if 97 <= u && u <= 102 {
        Some(u - 87)
    } else {
        None
    }
}

/// Consumes one known character.
fn eat_char(cs: &Vec<char>, pos: &mut usize, c: char, Ghost(expect): Ghost<bool>) -> (r: bool)
    requires
        *old(pos) <= cs@.len(),
        expect ==> *old(pos) < cs@.len() && cs@[*old(pos) as int] == c,
    ensures
        *old(pos) <= *final(pos) <= cs@.len(),
        expect ==> (r && *final(pos) == *old(pos) + 1),
        r ==> *final(pos) == *old(pos) + 1,
{
    match peek(cs, *pos) {
        Some(x) => {
            if x == c {
                advance(cs, pos);
                true
            } else {
                false
            }
        }
        None => false,
    }
}

/// Parses a lowercase hexadecimal run into a `u16`. When the text under
/// the cursor is known to be the canonical run of a group ending at `j`
/// (with no hexadecimal digit following), exactly that group is read.
fn parse_hex_u16(cs: &Vec<char>, pos: &mut usize, Ghost(exp): Ghost<Option<(int, int)>>) -> (r:
    Option<u16>)
    requires
        *old(pos) <= cs@.len(),
        exp matches Some((g, j)) ==> {
            &&& *old(pos) <= j <= cs@.len()
            &&& 0 <= g <= 0xffff
            &&& cs@.subrange(*old(pos) as int, j) == hex_digits(g as nat)
            &&& (j == cs@.len() || !is_hex_char(cs@[j]))
        },
    ensures
        r is Some ==> *old(pos) < *final(pos),
        *old(pos) <= *final(pos) <= cs@.len(),
        exp matches Some((g, j)) ==> (r matches Some(x) && x == g && *final(pos) == j),
{
    let ghost dstart = *old(pos) as int;
    let ghost digits: Seq<char> = match exp {
        Some((g, j)) => hex_digits(g as nat),
        None => Seq::empty(),
    };
    proof {
        if let Some((g, j)) = exp {
            lemma_hex_digits_value(g as nat);
            let dseg = cs@.subrange(dstart, j);
            assert(forall|i: int| 0 <= i < digits.len() ==> #[trigger] dseg[i] == cs@[dstart + i]);
            assert(forall|i: int| 0 <= i < digits.len() ==> #[trigger] cs@[dstart + i]
                == digits[i]);
        }
    }
    let mut acc: u32 = 0;
    let mut saw_digit = false;
    loop
        invariant_except_break
            *old(pos) <= *pos <= cs@.len(),
            saw_digit ==> *old(pos) < *pos,
            acc <= 0xffff,
            exp matches Some((g, j)) ==> {
                &&& 0 <= g <= 0xffff
                &&& digits.len() >= 1
                &&& dstart == *old(pos)
                &&& dstart <= *pos <= dstart + digits.len()
                &&& dstart + digits.len() == j <= cs@.len()
                &&& (forall|i: int| 0 <= i < digits.len() ==> #[trigger] cs@[dstart + i]
                    == digits[i])
                &&& (forall|i: int| 0 <= i < digits.len() ==> is_hex_char(#[trigger] digits[i]))
                &&& (j == cs@.len() || !is_hex_char(cs@[j]))
                &&& acc == hex_seq_value(digits.take(*pos - dstart))
                &&& hex_seq_value(digits) == g
                &&& saw_digit == (*pos > dstart)
            },
        ensures
            *old(pos) <= *pos <= cs@.len(),
            saw_digit ==> *old(pos) < *pos,
            acc <= 0xffff,
            exp matches Some((g, j)) ==> (*pos == j && acc == g && saw_digit),
        decreases cs@.len() - *pos,
    {
        proof {
            if let Some((g, j)) = exp {
                if *pos < j {
                    assert(cs@[dstart + (*pos - dstart)] == digits[*pos - dstart]);
                    assert(is_hex_char(cs@[*pos as int]));
                }
            }
        }
        let c = match peek(cs, *pos) {
            Some(c) => c,
            None => {
                proof {
                    if let Some((g, j)) = exp {
                        assert(*pos == j);
                        assert(digits.take(j - dstart) =~= digits);
                    }
                }
                break;
            }
        };
        let d = match hex_value(c) {
            Some(d) => d,
            None => {
                proof {
                    if let Some((g, j)) = exp {
                        assert(!is_hex_char(c));
                        assert(*pos == j);
                        assert(digits.take(j - dstart) =~= digits);
                    }
                }
                break;
            }
        };
        proof {
            if let Some((g, j)) = exp {
                assert(*pos < j);
                let k = *pos - dstart;
                assert(c == digits[k]);
                assert(is_hex_char(c));
                assert(d == hex_char_value(c));
                lemma_hex_seq_step(digits, k);
                lemma_hex_seq_bounds(digits, k + 1);
                assert(hex_seq_value(digits.take(k + 1)) == acc * 16 + hex_char_value(c));
                assert(hex_seq_value(digits.take(k + 1)) <= g);
            }
        }
        if acc > 0xfff || (acc * 16 + d) > 0xffff {
            proof {
                if let Some((g, j)) = exp {
                    assert(acc * 16 + d <= 0xffff);
                    assert(acc <= 0xfff) by {
                        assert(acc * 16 <= 0xffff);
                    }
                    assert(false);
                }
            }
            return None;
        }
        acc = acc * 16 + d;
        advance(cs, pos);
        saw_digit = true;
        proof {
            if let Some((g, j)) = exp {
                assert(digits.take(*pos - dstart) == digits.take((*pos - dstart - 1) + 1));
            }
        }
    }
    if !saw_digit {
        return None;
    }
    Some(acc as u16)
}

/// Parses a dotted-decimal IPv4 address from the collected text. When
/// the text is known to be an address's canonical form, exactly that
/// address comes back.
#[verifier::rlimit(100)]
#[verifier::spinoff_prover]
fn parse_ipv4(chunk: &Vec<char>, Ghost(exp): Ghost<Option<IpAddress>>) -> (r: Option<IpAddress>)
    requires
        exp matches Some(ip) ==> (ip matches IpAddress::V4 { .. } && chunk@ == ip_chars(ip)),
    ensures
        exp matches Some(ip) ==> r == Some(ip),
{
    let ghost t = chunk@;
    let ghost (ja, jb, jc): (int, int, int) = match exp {
        Some(ip) => match ip {
            IpAddress::V4 { a, b, c, d } => {
                let da = dec_digits(a as nat);
                let db = dec_digits(b as nat);
                let dc = dec_digits(c as nat);
                (
                    da.len() as int,
                    (da.len() + 1 + db.len()) as int,
                    (da.len() + 1 + db.len() + 1 + dc.len()) as int,
                )
            }
            _ => (0, 0, 0),
        },
        None => (0, 0, 0),
    };
    proof {
        if let Some(ip) = exp {
            if let IpAddress::V4 { a, b, c, d } = ip {
                let da = dec_digits(a as nat);
                let db = dec_digits(b as nat);
                let dc = dec_digits(c as nat);
                let dd = dec_digits(d as nat);
                lemma_dec_digits_value(a as nat);
                lemma_dec_digits_value(b as nat);
                lemma_dec_digits_value(c as nat);
                lemma_dec_digits_value(d as nat);
                assert(t =~= da + (seq!['.'] + (db + (seq!['.'] + (dc + (seq!['.'] + dd))))));
                assert(t.subrange(0, t.len() as int) =~= t);
                lemma_concat_peel(t, 0, t.len() as int, da, seq!['.'] + (db + (seq!['.'] + (dc
                    + (seq!['.'] + dd)))));
                lemma_concat_peel(t, ja, t.len() as int, seq!['.'], db + (seq!['.'] + (dc + (
                seq!['.'] + dd))));
                lemma_concat_peel(t, ja + 1, t.len() as int, db, seq!['.'] + (dc + (seq!['.']
                    + dd)));
                lemma_concat_peel(t, jb, t.len() as int, seq!['.'], dc + (seq!['.'] + dd));
                lemma_concat_peel(t, jb + 1, t.len() as int, dc, seq!['.'] + dd);
                lemma_concat_peel(t, jc, t.len() as int, seq!['.'], dd);
                lemma_concat_peel(t, jc + 1, t.len() as int, dd, Seq::empty());
                assert(t[ja] == t.subrange(ja, ja + 1)[0]);
                assert(t[jb] == t.subrange(jb, jb + 1)[0]);
                assert(t[jc] == t.subrange(jc, jc + 1)[0]);
                assert(int_chars(a as int) == da);
                assert(int_chars(b as int) == db);
                assert(int_chars(c as int) == dc);
                assert(int_chars(d as int) == dd);
                assert(!is_dec_char('.'));
                assert(t.subrange(jc + 1, t.len() as int) =~= t.subrange(
                    jc + 1,
                    jc + 1 + dd.len(),
                ));
            }
        }
    }
    let mut pos: usize = 0;
    let ghost exp_a: Option<(int, int)> = match exp {
        Some(ip) => match ip {
            IpAddress::V4 { a, .. } => Some((a as int, ja)),
            _ => None,
        },
        None => None,
    };
    let a = match parse_i64(chunk, &mut pos, Ghost(exp_a)) {
        Some(x) => x,
        None => { return None; }
    };
    if !(0 <= a && a <= 255) {
        return None;
    }
    if !eat_char(chunk, &mut pos, '.', Ghost(exp is Some)) {
        return None;
    }
    let ghost exp_b: Option<(int, int)> = match exp {
        Some(ip) => match ip {
            IpAddress::V4 { b, .. } => Some((b as int, jb)),
            _ => None,
        },
        None => None,
    };
    let b = match parse_i64(chunk, &mut pos, Ghost(exp_b)) {
        Some(x) => x,
        None => { return None; }
    };
    if !(0 <= b && b <= 255) {
        return None;
    }
    if !eat_char(chunk, &mut pos, '.', Ghost(exp is Some)) {
        return None;
    }
    let ghost exp_c: Option<(int, int)> = match exp {
        Some(ip) => match ip {
            IpAddress::V4 { c, .. } => Some((c as int, jc)),
            _ => None,
        },
        None => None,
    };
    let c = match parse_i64(chunk, &mut pos, Ghost(exp_c)) {
        Some(x) => x,
        None => { return None; }
    };
    if !(0 <= c && c <= 255) {
        return None;
    }
    if !eat_char(chunk, &mut pos, '.', Ghost(exp is Some)) {
        return None;
    }
    let ghost exp_d: Option<(int, int)> = match exp {
        Some(ip) => match ip {
            IpAddress::V4 { d, .. } => Some((d as int, t.len() as int)),
            _ => None,
        },
        None => None,
    };
    let d = match parse_i64(chunk, &mut pos, Ghost(exp_d)) {
        Some(x) => x,
        None => { return None; }
    };
    if !(0 <= d && d <= 255) {
        return None;
    }
    if pos != chunk.len() {
        return None;
    }
    Some(IpAddress::V4 { a: a as u8, b: b as u8, c: c as u8, d: d as u8 })
}

/// Where each group and separator of a v6 text stands.
#[verifier::rlimit(100)]
#[verifier::spinoff_prover]
proof fn lemma_ipv6_layout(t: Seq<char>, g0: u16, g1: u16, g2: u16, g3: u16, g4: u16, g5: u16,
    g6: u16, g7: u16)
    requires
        t == ip_chars(IpAddress::V6 { g0, g1, g2, g3, g4, g5, g6, g7 }),
    ensures
        ({
            let h0 = hex_digits(g0 as nat);
            let h1 = hex_digits(g1 as nat);
            let h2 = hex_digits(g2 as nat);
            let h3 = hex_digits(g3 as nat);
            let h4 = hex_digits(g4 as nat);
            let h5 = hex_digits(g5 as nat);
            let h6 = hex_digits(g6 as nat);
            let h7 = hex_digits(g7 as nat);
            let e0 = h0.len() as int;
            let e1 = e0 + 1 + h1.len();
            let e2 = e1 + 1 + h2.len();
            let e3 = e2 + 1 + h3.len();
            let e4 = e3 + 1 + h4.len();
            let e5 = e4 + 1 + h5.len();
            let e6 = e5 + 1 + h6.len();
            &&& t.len() == e6 + 1 + h7.len()
            &&& t.subrange(0, e0) == h0
            &&& t.subrange(e0 + 1, e1) == h1
            &&& t.subrange(e1 + 1, e2) == h2
            &&& t.subrange(e2 + 1, e3) == h3
            &&& t.subrange(e3 + 1, e4) == h4
            &&& t.subrange(e4 + 1, e5) == h5
            &&& t.subrange(e5 + 1, e6) == h6
            &&& t.subrange(e6 + 1, t.len() as int) == h7
            &&& t[e0] == ':' && t[e1] == ':' && t[e2] == ':' && t[e3] == ':' && t[e4] == ':'
                && t[e5] == ':' && t[e6] == ':'
        }),
{
    let h0 = hex_digits(g0 as nat);
    let h1 = hex_digits(g1 as nat);
    let h2 = hex_digits(g2 as nat);
    let h3 = hex_digits(g3 as nat);
    let h4 = hex_digits(g4 as nat);
    let h5 = hex_digits(g5 as nat);
    let h6 = hex_digits(g6 as nat);
    let h7 = hex_digits(g7 as nat);
    let e0 = h0.len() as int;
    let e1 = e0 + 1 + h1.len();
    let e2 = e1 + 1 + h2.len();
    let e3 = e2 + 1 + h3.len();
    let e4 = e3 + 1 + h4.len();
    let e5 = e4 + 1 + h5.len();
    let e6 = e5 + 1 + h6.len();
    let sep = seq![':'];
    assert(t =~= h0 + (sep + (h1 + (sep + (h2 + (sep + (h3 + (sep + (h4 + (sep + (h5 + (sep + (h6
        + (sep + h7))))))))))))));
    assert(t.subrange(0, t.len() as int) =~= t);
    lemma_concat_peel(t, 0, t.len() as int, h0, sep + (h1 + (sep + (h2 + (sep + (h3 + (sep + (h4
        + (sep + (h5 + (sep + (h6 + (sep + h7)))))))))))));
    lemma_concat_peel(t, e0, t.len() as int, sep, h1 + (sep + (h2 + (sep + (h3 + (sep + (h4 + (sep
        + (h5 + (sep + (h6 + (sep + h7))))))))))));
    lemma_concat_peel(t, e0 + 1, t.len() as int, h1, sep + (h2 + (sep + (h3 + (sep + (h4 + (sep
        + (h5 + (sep + (h6 + (sep + h7)))))))))));
    lemma_concat_peel(t, e1, t.len() as int, sep, h2 + (sep + (h3 + (sep + (h4 + (sep + (h5 + (sep
        + (h6 + (sep + h7))))))))));
    lemma_concat_peel(t, e1 + 1, t.len() as int, h2, sep + (h3 + (sep + (h4 + (sep + (h5 + (sep
        + (h6 + (sep + h7)))))))));
    lemma_concat_peel(t, e2, t.len() as int, sep, h3 + (sep + (h4 + (sep + (h5 + (sep + (h6 + (sep
        + h7))))))));
    lemma_concat_peel(t, e2 + 1, t.len() as int, h3, sep + (h4 + (sep + (h5 + (sep + (h6 + (sep
        + h7)))))));
    lemma_concat_peel(t, e3, t.len() as int, sep, h4 + (sep + (h5 + (sep + (h6 + (sep + h7))))));
    lemma_concat_peel(t, e3 + 1, t.len() as int, h4, sep + (h5 + (sep + (h6 + (sep + h7)))));
    lemma_concat_peel(t, e4, t.len() as int, sep, h5 + (sep + (h6 + (sep + h7))));
    lemma_concat_peel(t, e4 + 1, t.len() as int, h5, sep + (h6 + (sep + h7)));
    lemma_concat_peel(t, e5, t.len() as int, sep, h6 + (sep + h7));
    lemma_concat_peel(t, e5 + 1, t.len() as int, h6, sep + h7);
    lemma_concat_peel(t, e6, t.len() as int, sep, h7);
    lemma_concat_peel(t, e6 + 1, t.len() as int, h7, Seq::empty());
    assert(t[e0] == t.subrange(e0, e0 + 1)[0]);
    assert(t[e1] == t.subrange(e1, e1 + 1)[0]);
    assert(t[e2] == t.subrange(e2, e2 + 1)[0]);
    assert(t[e3] == t.subrange(e3, e3 + 1)[0]);
    assert(t[e4] == t.subrange(e4, e4 + 1)[0]);
    assert(t[e5] == t.subrange(e5, e5 + 1)[0]);
    assert(t[e6] == t.subrange(e6, e6 + 1)[0]);
    assert(t.subrange(e6 + 1, t.len() as int) =~= t.subrange(e6 + 1, e6 + 1 + h7.len()));
}

/// Parses a colon-separated full-form IPv6 address from the collected
/// text. When the text is known to be an address's canonical form,
/// exactly that address comes back.
#[verifier::rlimit(60)]
fn parse_ipv6(chunk: &Vec<char>, Ghost(exp): Ghost<Option<IpAddress>>) -> (r: Option<IpAddress>)
    requires
        exp matches Some(ip) ==> (ip matches IpAddress::V6 { .. } && chunk@ == ip_chars(ip)),
    ensures
        exp matches Some(ip) ==> r == Some(ip),
{
    let ghost t = chunk@;
    let ghost (w0, w1, w2, w3, w4, w5, w6, w7): (int, int, int, int, int, int, int, int) =
        match exp {
        Some(ip) => match ip {
            IpAddress::V6 { g0, g1, g2, g3, g4, g5, g6, g7 } => (
                g0 as int, g1 as int, g2 as int, g3 as int,
                g4 as int, g5 as int, g6 as int, g7 as int,
            ),
            _ => (0, 0, 0, 0, 0, 0, 0, 0),
        },
        None => (0, 0, 0, 0, 0, 0, 0, 0),
    };
    let ghost e0 = hex_digits(w0 as nat).len() as int;
    let ghost e1 = e0 + 1 + hex_digits(w1 as nat).len();
    let ghost e2 = e1 + 1 + hex_digits(w2 as nat).len();
    let ghost e3 = e2 + 1 + hex_digits(w3 as nat).len();
    let ghost e4 = e3 + 1 + hex_digits(w4 as nat).len();
    let ghost e5 = e4 + 1 + hex_digits(w5 as nat).len();
    let ghost e6 = e5 + 1 + hex_digits(w6 as nat).len();
    proof {
        if let Some(ip) = exp {
            if let IpAddress::V6 { g0, g1, g2, g3, g4, g5, g6, g7 } = ip {
                lemma_ipv6_layout(t, g0, g1, g2, g3, g4, g5, g6, g7);
                lemma_hex_digits_value(w0 as nat);
                lemma_hex_digits_value(w1 as nat);
                lemma_hex_digits_value(w2 as nat);
                lemma_hex_digits_value(w3 as nat);
                lemma_hex_digits_value(w4 as nat);
                lemma_hex_digits_value(w5 as nat);
                lemma_hex_digits_value(w6 as nat);
                lemma_hex_digits_value(w7 as nat);
                assert(!is_hex_char(':'));
            }
        }
    }
    let ghost on = exp is Some;
    let mut pos: usize = 0;
    let g0 = match parse_hex_u16(chunk, &mut pos, Ghost(if on { Some((w0, e0)) } else { None })) {
        Some(x) => x,
        None => { return None; }
    };
    if !eat_char(chunk, &mut pos, ':', Ghost(on)) {
        return None;
    }
    let g1 = match parse_hex_u16(chunk, &mut pos, Ghost(if on { Some((w1, e1)) } else { None })) {
        Some(x) => x,
        None => { return None; }
    };
    if !eat_char(chunk, &mut pos, ':', Ghost(on)) {
        return None;
    }
    let g2 = match parse_hex_u16(chunk, &mut pos, Ghost(if on { Some((w2, e2)) } else { None })) {
        Some(x) => x,
        None => { return None; }
    };
    if !eat_char(chunk, &mut pos, ':', Ghost(on)) {
        return None;
    }
    let g3 = match parse_hex_u16(chunk, &mut pos, Ghost(if on { Some((w3, e3)) } else { None })) {
        Some(x) => x,
        None => { return None; }
    };
    if !eat_char(chunk, &mut pos, ':', Ghost(on)) {
        return None;
    }
    let g4 = match parse_hex_u16(chunk, &mut pos, Ghost(if on { Some((w4, e4)) } else { None })) {
        Some(x) => x,
        None => { return None; }
    };
    if !eat_char(chunk, &mut pos, ':', Ghost(on)) {
        return None;
    }
    let g5 = match parse_hex_u16(chunk, &mut pos, Ghost(if on { Some((w5, e5)) } else { None })) {
        Some(x) => x,
        None => { return None; }
    };
    if !eat_char(chunk, &mut pos, ':', Ghost(on)) {
        return None;
    }
    let g6 = match parse_hex_u16(chunk, &mut pos, Ghost(if on { Some((w6, e6)) } else { None })) {
        Some(x) => x,
        None => { return None; }
    };
    if !eat_char(chunk, &mut pos, ':', Ghost(on)) {
        return None;
    }
    let g7 = match parse_hex_u16(
        chunk,
        &mut pos,
        Ghost(if on { Some((w7, t.len() as int)) } else { None }),
    ) {
        Some(x) => x,
        None => { return None; }
    };
    if pos != chunk.len() {
        return None;
    }
    Some(IpAddress::V6 { g0, g1, g2, g3, g4, g5, g6, g7 })
}

/// The textual form of an address holds neither quotes nor anything a
/// string escape could start with; a v4 text has no colon and a v6 text
/// shows one right after its first group.
proof fn lemma_ip_chars_class(ip: IpAddress)
    ensures
        forall|i: int| 0 <= i < ip_chars(ip).len() ==> #[trigger] ip_chars(ip)[i] != '"',
        ip matches IpAddress::V4 { .. } ==> (forall|i: int| 0 <= i < ip_chars(ip).len()
            ==> #[trigger] ip_chars(ip)[i] != ':'),
        ip matches IpAddress::V6 { g0, .. } ==> (0 <= hex_digits(g0 as nat).len()
            < ip_chars(ip).len() && ip_chars(ip)[hex_digits(g0 as nat).len() as int] == ':'),
{
    match ip {
        IpAddress::V4 { a, b, c, d } => {
            lemma_dec_digits_value(a as nat);
            lemma_dec_digits_value(b as nat);
            lemma_dec_digits_value(c as nat);
            lemma_dec_digits_value(d as nat);
        }
        IpAddress::V6 { g0, g1, g2, g3, g4, g5, g6, g7 } => {
            lemma_hex_digits_value(g0 as nat);
            lemma_hex_digits_value(g1 as nat);
            lemma_hex_digits_value(g2 as nat);
            lemma_hex_digits_value(g3 as nat);
            lemma_hex_digits_value(g4 as nat);
            lemma_hex_digits_value(g5 as nat);
            lemma_hex_digits_value(g6 as nat);
            lemma_hex_digits_value(g7 as nat);
            assert(ip_chars(ip)[hex_digits(g0 as nat).len() as int] == ':');
        }
    }
}

/// Parses a quoted IP address or `null`. When the optional address's
/// canonical text ending at `j` is known, exactly that value comes back.
fn parse_opt_ip(
    cs: &Vec<char>,
    pos: &mut usize,
    Ghost(exp): Ghost<Option<(Option<IpAddress>, int)>>,
) -> (r: Option<Option<IpAddress>>)
    requires
        *old(pos) <= cs@.len(),
        exp matches Some((val, j)) ==> {
            &&& *old(pos) <= j <= cs@.len()
            &&& cs@.subrange(*old(pos) as int, j) == opt_ip_json(val)
        },
    ensures
        *old(pos) <= *final(pos) <= cs@.len(),
        exp matches Some((val, j)) ==> (r == Some(val) && *final(pos) == j),
{
    let ghost p0 = *old(pos) as int;
    proof {
        reveal_strlit("null");
        if let Some((val, j)) = exp {
            match val {
                None => {
                    assert(opt_ip_json(val) == "null"@);
                    assert("null"@.len() == 4);
                    assert(cs@[p0] == cs@.subrange(p0, j)[0]);
                    assert(cs@[p0] == 'n');
                    assert(j == p0 + 4);
                    lemma_slice_index(cs@, p0, j, "null"@);
                }
                Some(ip) => {
                    let body = ip_chars(ip);
                    assert(opt_ip_json(val) == seq!['"'] + body + seq!['"']);
                    assert(cs@.subrange(p0, j) =~= seq!['"'] + (body + seq!['"']));
                    lemma_concat_peel(cs@, p0, j, seq!['"'], body + seq!['"']);
                    lemma_concat_peel(cs@, p0 + 1, j, body, seq!['"']);
                    assert(cs@[p0] == cs@.subrange(p0, p0 + 1)[0]);
                    assert(cs@[p0] == '"');
                    assert(cs@[j - 1] == cs@.subrange(j - 1, j)[0]);
                    assert(cs@[j - 1] == '"');
                    lemma_ip_chars_class(ip);
                }
            }
        }
    }
    match peek(cs, *pos) {
        Some('"') => {
            advance(cs, pos);
            let ghost chunk_exp: Option<(Seq<char>, int)> = match exp {
                Some((val, j)) => match val {
                    Some(ip) => Some((ip_chars(ip), j - 1)),
                    None => None,
                },
                None => None,
            };
            let chunk = match take_until_quote(cs, pos, Ghost(chunk_exp)) {
                Some(chunk) => chunk,
                None => {
                    return None;
                }
            };
            let ghost ip_exp: Option<IpAddress> = match exp {
                Some((val, j)) => val,
                None => None,
            };
            let mut has_colon = false;
            let mut i: usize = 0;
            let n = chunk.len();
            while i < n
                invariant
                    i <= n,
                    n == chunk@.len(),
                    has_colon == (exists|q: int| 0 <= q < i && chunk@[q] == ':'),
                decreases n - i,
            {
                if chunk[i] == ':' {
                    has_colon = true;
                }
                i += 1;
            }
            proof {
                if let Some((val, j)) = exp {
                    if let Some(ip) = val {
                        lemma_ip_chars_class(ip);
                        match ip {
                            IpAddress::V4 { .. } => {
                                assert(!has_colon);
                            }
                            IpAddress::V6 { g0, .. } => {
                                assert(chunk@[hex_digits(g0 as nat).len() as int] == ':');
                                assert(has_colon);
                            }
                        }
                    }
                }
            }
            let parsed = if has_colon {
                parse_ipv6(&chunk, Ghost(ip_exp))
            } else {
                parse_ipv4(&chunk, Ghost(ip_exp))
            };
            match parsed {
                Some(ip) => Some(Some(ip)),
                None => None,
            }
        }
        Some(_) => {
            let ghost null_expected = match exp {
                Some((val, j)) => val is None,
                None => false,
            };
            if eat_lit(cs, pos, "null", Ghost(null_expected)) {
                Some(None)
            } else {
                None
            }
        }
        None => None,
    }
}

/// Parses exactly four hexadecimal digits. When they are known to be the
/// four-digit form of `n`, exactly `n` comes back.
fn parse_hex4(cs: &Vec<char>, pos: &mut usize, Ghost(exp): Ghost<Option<int>>) -> (r: Option<u32>)
    requires
        *old(pos) <= cs@.len(),
        exp matches Some(n) ==> (0 <= n <= 0xffff && *old(pos) + 4 <= cs@.len() && (forall|q: int|
            0 <= q < 4 ==> #[trigger] cs@[*old(pos) + q] == hex4(n)[q])),
    ensures
        r matches Some(v) ==> v <= 0xffff,
        *old(pos) <= *final(pos) <= cs@.len(),
        exp matches Some(n) ==> (r == Some(n as u32) && *final(pos) == *old(pos) + 4),
{
    let ghost p0 = *old(pos) as int;
    proof {
        if let Some(n) = exp {
            lemma_hex_char_code(n / 0x1000 % 16);
            lemma_hex_char_code(n / 0x100 % 16);
            lemma_hex_char_code(n / 0x10 % 16);
            lemma_hex_char_code(n % 16);
            assert(cs@[p0 + 0] == hex4(n)[0]);
            assert(cs@[p0 + 1] == hex4(n)[1]);
            assert(cs@[p0 + 2] == hex4(n)[2]);
            assert(cs@[p0 + 3] == hex4(n)[3]);
            assert(cs@[p0] == hex_char(n / 0x1000 % 16));
            assert(cs@[p0 + 1] == hex_char(n / 0x100 % 16));
            assert(cs@[p0 + 2] == hex_char(n / 0x10 % 16));
            assert(cs@[p0 + 3] == hex_char(n % 16));
        }
    }
    let mut value: u32 = 0;
    let mut i: usize = 0;
    while i < 4
        invariant
            i <= 4,
            value < 0x10000,
            i == 0 ==> value == 0,
            i == 1 ==> value < 0x10,
            i == 2 ==> value < 0x100,
            i == 3 ==> value < 0x1000,
            *old(pos) <= *pos <= cs@.len(),
            *pos == *old(pos) + i,
            exp matches Some(n) ==> {
                &&& 0 <= n <= 0xffff
                &&& p0 == *old(pos)
                &&& p0 + 4 <= cs@.len()
                &&& cs@[p0] == hex_char(n / 0x1000 % 16)
                &&& cs@[p0 + 1] == hex_char(n / 0x100 % 16)
                &&& cs@[p0 + 2] == hex_char(n / 0x10 % 16)
                &&& cs@[p0 + 3] == hex_char(n % 16)
                &&& (i == 1 ==> value == n / 0x1000 % 16)
                &&& (i == 2 ==> value == (n / 0x1000 % 16) * 16 + n / 0x100 % 16)
                &&& (i == 3 ==> value == ((n / 0x1000 % 16) * 16 + n / 0x100 % 16) * 16 + n
                    / 0x10 % 16)
                &&& (i == 4 ==> value == (((n / 0x1000 % 16) * 16 + n / 0x100 % 16) * 16 + n
                    / 0x10 % 16) * 16 + n % 16)
            },
        decreases 4 - i,
    {
        let c = match peek(cs, *pos) {
            Some(c) => c,
            None => {
                proof {
                    if let Some(n) = exp {
                        assert(false);
                    }
                }
                return None;
            }
        };
        let d = match hex_value(c) {
            Some(d) => d,
            None => {
                proof {
                    if let Some(n) = exp {
                        lemma_hex_char_code(n / 0x1000 % 16);
                        lemma_hex_char_code(n / 0x100 % 16);
                        lemma_hex_char_code(n / 0x10 % 16);
                        lemma_hex_char_code(n % 16);
                        assert(false);
                    }
                }
                return None;
            }
        };
        proof {
            if let Some(n) = exp {
                lemma_hex_char_code(n / 0x1000 % 16);
                lemma_hex_char_code(n / 0x100 % 16);
                lemma_hex_char_code(n / 0x10 % 16);
                lemma_hex_char_code(n % 16);
            }
        }
        value = value * 16 + d;
        advance(cs, pos);
        i += 1;
    }
    proof {
        if let Some(n) = exp {
            let n32 = n as u32;
            assert((((n32 / 0x1000 % 16) * 16 + n32 / 0x100 % 16) * 16 + n32 / 0x10 % 16) * 16
                + n32 % 16 == n32) by (bit_vector)
                requires
                    n32 <= 0xffff,
            ;
            assert(value == n32);
        }
    }
    Some(value)
}

/// The escape of one string character, spelled out per case: what the
/// decoder meets at a unit boundary.
proof fn lemma_escape_shape(ch: char)
    ensures
        ch == '"' ==> escape_char(ch) == seq!['\\', '"'],
        ch == '\\' ==> escape_char(ch) == seq!['\\', '\\'],
        (ch != '"' && ch != '\\' && 0x20 <= ch as u32 <= 0x7e) ==> escape_char(ch) == seq![ch],
        (ch as u32) <= 0x10FFFF && !(0xD800 <= (ch as u32) <= 0xDFFF),
        escape_char(ch)[0] != '"',
        escape_char(ch).len() >= 1,
{
    vstd::utf8::char_is_scalar(ch);
    if !(ch as u32 <= 0x10FFFF && !(0xD800 <= (ch as u32) <= 0xDFFF)) {
        assert(!vstd::utf8::is_scalar(ch as u32));
    }
    if ch != '"' && ch != '\\' && !(0x20 <= ch as u32 && ch as u32 <= 0x7e) {
        if ch as u32 <= 0xffff {
            assert(escape_char(ch) == seq!['\\', 'u'] + hex4(ch as u32 as int));
            assert(escape_char(ch)[0] == '\\');
        } else {
            assert(escape_char(ch)[0] == '\\');
        }
    }
}

/// Parses what follows a `\\u`: four hexadecimal digits, and for a high
/// surrogate the paired low half, giving back the encoded character. When
/// the text from the unit's backslash on is known to be the canonical
/// escape of `ch`, exactly `ch` comes back and the whole escape is
/// consumed.
#[verifier::rlimit(100)]
#[verifier::spinoff_prover]
fn parse_u_escape(cs: &Vec<char>, pos: &mut usize, Ghost(exp): Ghost<Option<(char, int)>>) -> (r:
    Option<char>)
    requires
        *old(pos) <= cs@.len(),
        exp matches Some((ch, us)) ==> {
            &&& 0 <= us
            &&& *old(pos) == us + 2
            &&& us + escape_char(ch).len() <= cs@.len()
            &&& (forall|q: int| 0 <= q < escape_char(ch).len() ==> #[trigger] cs@[us + q]
                == escape_char(ch)[q])
            &&& !(0x20 <= (ch as u32) <= 0x7e)
            &&& ch != '"'
            &&& ch != '\\'
        },
    ensures
        *old(pos) <= *final(pos) <= cs@.len(),
        exp matches Some((ch, us)) ==> (r == Some(ch) && *final(pos) == us + escape_char(
            ch,
        ).len()),
{
    let ghost hexp: Option<int> = match exp {
        Some((ch, us)) => {
            let u = ch as u32;
            if u <= 0xffff {
                Some(u as int)
            } else {
                Some(0xd800 + ((u - 0x10000) as int) / 0x400)
            }
        },
        None => None,
    };
    proof {
        if let Some((ch, us)) = exp {
            lemma_escape_shape(ch);
            let u = ch as u32;
            let esc = escape_char(ch);
            if u <= 0xffff {
                assert(esc == seq!['\\', 'u'] + hex4(u as int));
                assert forall|q: int| 0 <= q < 4 implies #[trigger] cs@[*old(pos) + q] == hex4(
                    u as int,
                )[q] by {
                    assert(cs@[us + (2 + q)] == esc[2 + q]);
                    assert(esc[2 + q] == hex4(u as int)[q]);
                }
            } else {
                let hi = 0xd800 + ((u - 0x10000) as int) / 0x400;
                let lo = 0xdc00 + ((u - 0x10000) as int) % 0x400;
                assert(esc == seq!['\\', 'u'] + hex4(hi) + seq!['\\', 'u'] + hex4(lo));
                assert(0 <= ((u - 0x10000) as int) / 0x400 <= 0x3ff);
                assert forall|q: int| 0 <= q < 4 implies #[trigger] cs@[*old(pos) + q] == hex4(
                    hi,
                )[q] by {
                    assert(cs@[us + (2 + q)] == esc[2 + q]);
                    assert(esc[2 + q] == hex4(hi)[q]);
                }
            }
        }
    }
    let code = match parse_hex4(cs, pos, Ghost(hexp)) {
        Some(code) => code,
        None => {
            proof {
                if let Some((ch, us)) = exp {
                    assert(false);
                }
            }
            return None;
        }
    };
    if 0xd800 <= code && code <= 0xdbff {
        // A surrogate pair: the low half must follow.
        let ghost pair = match exp {
            Some((ch, us)) => (ch as u32) > 0xffff,
            None => false,
        };
        proof {
            reveal_strlit("\\u");
            assert("\\u"@ =~= seq!['\\', 'u']);
            if let Some((ch, us)) = exp {
                let u = ch as u32;
                assert(u > 0xffff);
                let esc = escape_char(ch);
                assert forall|q: int| 0 <= q < "\\u"@.len() implies #[trigger] cs@[*pos + q]
                    == "\\u"@[q] by {
                    assert(cs@[us + (6 + q)] == esc[6 + q]);
                    assert(esc[6 + q] == (seq!['\\', 'u'])[q]);
                }
            }
        }
        if !eat_lit(cs, pos, "\\u", Ghost(pair)) {
            proof {
                if let Some((ch, us)) = exp {
                    assert(false);
                }
            }
            return None;
        }
        let ghost lexp: Option<int> = match exp {
            Some((ch, us)) => {
                let u = ch as u32;
                Some(0xdc00 + ((u - 0x10000) as int) % 0x400)
            },
            None => None,
        };
        proof {
            if let Some((ch, us)) = exp {
                let u = ch as u32;
                let esc = escape_char(ch);
                let lo = 0xdc00 + ((u - 0x10000) as int) % 0x400;
                assert forall|q: int| 0 <= q < 4 implies #[trigger] cs@[*pos + q] == hex4(
                    lo,
                )[q] by {
                    assert(cs@[us + (8 + q)] == esc[8 + q]);
                    assert(esc[8 + q] == hex4(lo)[q]);
                }
            }
        }
        let low = match parse_hex4(cs, pos, Ghost(lexp)) {
            Some(low) => low,
            None => {
                proof {
                    if let Some((ch, us)) = exp {
                        assert(false);
                    }
                }
                return None;
            }
        };
        if !(0xdc00 <= low && low <= 0xdfff) {
            proof {
                if let Some((ch, us)) = exp {
                    assert(false);
                }
            }
            return None;
        }
        let combined = 0x10000 + (code - 0xd800) * 0x400 + (low - 0xdc00);
        proof {
            if let Some((ch, us)) = exp {
                let u = ch as u32;
                assert(((u - 0x10000) as int) / 0x400 * 0x400 + ((u - 0x10000) as int) % 0x400
                    == (u - 0x10000) as int);
                assert(combined == u);
            }
        }
        match char_from_u32(combined) {
            Some(decoded) => {
                proof {
                    if let Some((ch, us)) = exp {
                        vstd::utf8::char_u32_cast(ch, combined);
                        vstd::utf8::char_u32_cast(decoded, combined);
                        assert(decoded == ch);
                    }
                }
                Some(decoded)
            }
            None => {
                proof {
                    if let Some((ch, us)) = exp {
                        lemma_escape_shape(ch);
                        assert(false);
                    }
                }
                None
            }
        }
    } else {
        proof {
            if let Some((ch, us)) = exp {
                assert((ch as u32) <= 0xffff);
                assert(code == ch as u32);
                lemma_escape_shape(ch);
            }
        }
        match char_from_u32(code) {
            Some(decoded) => {
                proof {
                    if let Some((ch, us)) = exp {
                        vstd::utf8::char_u32_cast(ch, code);
                        vstd::utf8::char_u32_cast(decoded, code);
                        assert(decoded == ch);
                    }
                }
                Some(decoded)
            }
            None => {
                proof {
                    if let Some((ch, us)) = exp {
                        lemma_escape_shape(ch);
                        assert(false);
                    }
                }
                None
            }
        }
    }
}

/// Where the escape of character `k` stands in a quoted string's text,
/// and how consuming it moves the cursor.
#[verifier::rlimit(100)]
#[verifier::spinoff_prover]
proof fn lemma_unit_facts(t: Seq<char>, p0: int, j: int, sv: Seq<char>, k: int, pos: int)
    requires
        p0 + 2 + string_chars(sv).len() == j <= t.len(),
        forall|i: int| 0 <= i < string_chars(sv).len() ==> #[trigger] t[p0 + 1 + i]
            == string_chars(sv)[i],
        0 <= k < sv.len(),
        pos == p0 + 1 + string_chars(sv.take(k)).len(),
    ensures
        ({
            let esc = escape_char(sv[k]);
            &&& string_chars(sv.take(k + 1)) == string_chars(sv.take(k)) + esc
            &&& string_chars(sv.take(k + 1)).len() <= string_chars(sv).len()
            &&& p0 + 1 <= pos
            &&& pos + esc.len() <= p0 + 1 + string_chars(sv).len()
            &&& (forall|q: int| 0 <= q < esc.len() ==> #[trigger] t[pos + q] == esc[q])
        }),
{
    lemma_string_chars_split(sv, k);
    lemma_string_chars_head(sv, k);
    let esc = escape_char(sv[k]);
    let off = string_chars(sv.take(k)).len() as int;
    assert(string_chars(sv) =~= string_chars(sv.take(k)) + (esc + string_chars(sv.skip(k + 1))));
    assert(sv.take(k + 1).drop_last() =~= sv.take(k));
    assert(sv.take(k + 1).last() == sv[k]);
    assert(string_chars(sv.take(k + 1)) == string_chars(sv.take(k)) + esc);
    assert forall|q: int| 0 <= q < esc.len() implies #[trigger] t[pos + q] == esc[q] by {
        assert(string_chars(sv)[off + q] == esc[q]);
        assert(t[p0 + 1 + (off + q)] == string_chars(sv)[off + q]);
    }
}

/// Parses a quoted JSON string, resolving escapes. When the text under
/// the cursor is known to be the canonical quoted form of `sv` ending at
/// `j`, exactly `sv` comes back.
#[verifier::rlimit(100)]
#[verifier::spinoff_prover]
fn parse_string(cs: &Vec<char>, pos: &mut usize, Ghost(exp): Ghost<Option<(Seq<char>, int)>>)
    -> (r: Option<String>)
    requires
        *old(pos) <= cs@.len(),
        exp matches Some((sv, j)) ==> (*old(pos) <= j <= cs@.len() && cs@.subrange(
            *old(pos) as int,
            j,
        ) == json_string(sv)),
    ensures
        r is Some ==> *old(pos) < *final(pos),
        *old(pos) <= *final(pos) <= cs@.len(),
        exp matches Some((sv, j)) ==> (r matches Some(out) && out@ == sv && *final(pos) == j),
{
    let ghost p0 = *old(pos) as int;
    proof {
        if let Some((sv, j)) = exp {
            let body = string_chars(sv);
            assert(cs@.subrange(p0, j) =~= seq!['"'] + (body + seq!['"']));
            lemma_concat_peel(cs@, p0, j, seq!['"'], body + seq!['"']);
            lemma_concat_peel(cs@, p0 + 1, j, body, seq!['"']);
            assert(cs@[p0] == cs@.subrange(p0, p0 + 1)[0]);
            assert(cs@[p0] == '"');
            assert(cs@[j - 1] == cs@.subrange(j - 1, j)[0]);
            assert(cs@[j - 1] == '"');
        }
    }
    match peek(cs, *pos) {
        Some('"') => {
            advance(cs, pos);
        }
        _ => {
            proof {
                if let Some((sv, j)) = exp {
                    assert(false);
                }
            }
            return None;
        }
    }
    let mut out = String::new();
    loop
        invariant
            p0 == *old(pos),
            p0 < *pos <= cs@.len(),
            exp matches Some((sv, j)) ==> {
                &&& p0 + 2 + string_chars(sv).len() == j <= cs@.len()
                &&& (forall|i: int| 0 <= i < string_chars(sv).len() ==> #[trigger] cs@[p0 + 1 + i]
                    == string_chars(sv)[i])
                &&& cs@[j - 1] == '"'
                &&& out@.len() <= sv.len()
                &&& out@ == sv.take(out@.len() as int)
                &&& *pos == p0 + 1 + string_chars(sv.take(out@.len() as int)).len()
                &&& string_chars(sv.take(out@.len() as int)).len() <= string_chars(sv).len()
            },
        decreases cs@.len() - *pos,
    {
        let ghost k = out@.len() as int;
        let ghost unit_start = *pos as int;
        proof {
            if let Some((sv, j)) = exp {
                if k < sv.len() {
                    lemma_unit_facts(cs@, p0, j, sv, k, unit_start);
                    lemma_escape_shape(sv[k]);
                    let esc = escape_char(sv[k]);
                    assert(cs@[unit_start + 0] == esc[0]);
                    assert(cs@[unit_start] == esc[0]);
                    if esc.len() >= 2 {
                        assert(cs@[unit_start + 1] == esc[1]);
                    }
                } else {
                    assert(sv.take(k) =~= sv);
                    assert(*pos == j - 1);
                }
            }
        }
        let c = match peek(cs, *pos) {
            Some(c) => c,
            None => {
                proof {
                    if let Some((sv, j)) = exp {
                        assert(false);
                    }
                }
                return None;
            }
        };
        advance(cs, pos);
        if c == '"' {
            proof {
                if let Some((sv, j)) = exp {
                    assert(k == sv.len());
                    assert(out@ =~= sv);
                }
            }
            return Some(out);
        }
        if c != '\\' {
            push_char(&mut out, c);
            proof {
                if let Some((sv, j)) = exp {
                    assert(c == sv[k]);
                    assert(out@ =~= sv.take(k + 1));
                }
            }
            continue;
        }
        let esc = match peek(cs, *pos) {
            Some(c) => c,
            None => {
                proof {
                    if let Some((sv, j)) = exp {
                        assert(false);
                    }
                }
                return None;
            }
        };
        advance(cs, pos);
        match esc {
            '"' => {
                push_char(&mut out, '"');
                proof {
                    if let Some((sv, j)) = exp {
                        assert(sv[k] == '"');
                        assert(out@ =~= sv.take(k + 1));
                    }
                }
            }
            '\\' => {
                push_char(&mut out, '\\');
                proof {
                    if let Some((sv, j)) = exp {
                        assert(sv[k] == '\\');
                        assert(out@ =~= sv.take(k + 1));
                    }
                }
            }
            'u' => {
                let ghost uexp: Option<(char, int)> = match exp {
                    Some((sv, j)) => if k < sv.len() {
                        Some((sv[k], unit_start))
                    } else {
                        None
                    },
                    None => None,
                };
                proof {
                    if let Some((sv, j)) = exp {
                        if k < sv.len() {
                            lemma_escape_shape(sv[k]);
                            assert(cs@[unit_start] == escape_char(sv[k])[0]);
                            assert(cs@[unit_start + 1] == escape_char(sv[k])[1]);
                        } else {
                            assert(cs@[unit_start] == '"');
                        }
                    }
                }
                match parse_u_escape(cs, pos, Ghost(uexp)) {
                    Some(decoded) => {
                        push_char(&mut out, decoded);
                        proof {
                            if let Some((sv, j)) = exp {
                                assert(decoded == sv[k]);
                                assert(out@ =~= sv.take(k + 1));
                            }
                        }
                    }
                    None => {
                        proof {
                            if let Some((sv, j)) = exp {
                                assert(false);
                            }
                        }
                        return None;
                    }
                }
            }
            _ => {
                proof {
                    if let Some((sv, j)) = exp {
                        lemma_escape_shape(sv[k]);
                        assert(false);
                    }
                }
                return None;
            }
        }
    }
}

/// Parses a quoted string or `null`. When the optional string's
/// canonical text ending at `j` is known, exactly that value comes back.
fn parse_opt_string(
    cs: &Vec<char>,
    pos: &mut usize,
    Ghost(exp): Ghost<Option<(Option<Seq<char>>, int)>>,
) -> (r: Option<Option<String>>)
    requires
        *old(pos) <= cs@.len(),
        exp matches Some((val, j)) ==> (*old(pos) <= j <= cs@.len() && cs@.subrange(
            *old(pos) as int,
            j,
        ) == opt_string_json(val)),
    ensures
        *old(pos) <= *final(pos) <= cs@.len(),
        exp matches Some((val, j)) ==> {
            &&& *final(pos) == j
            &&& match val {
                Some(sv) => r matches Some(ov) && ov matches Some(out) && out@ == sv,
                None => r matches Some(ov) && ov is None,
            }
        },
{
    let ghost p0 = *old(pos) as int;
    proof {
        reveal_strlit("null");
        if let Some((val, j)) = exp {
            match val {
                None => {
                    assert(opt_string_json(val) == "null"@);
                    assert("null"@.len() == 4);
                    assert(cs@[p0] == cs@.subrange(p0, j)[0]);
                    assert(cs@[p0] == 'n');
                    assert(j == p0 + 4);
                    lemma_slice_index(cs@, p0, j, "null"@);
                }
                Some(sv) => {
                    assert(opt_string_json(val) == json_string(sv));
                    assert(json_string(sv).len() >= 2);
                    assert(cs@[p0] == cs@.subrange(p0, j)[0]);
                    assert(cs@[p0] == '"');
                }
            }
        }
    }
    match peek(cs, *pos) {
        Some('"') => {
            let ghost sexp: Option<(Seq<char>, int)> = match exp {
                Some((val, j)) => match val {
                    Some(sv) => Some((sv, j)),
                    None => None,
                },
                None => None,
            };
            match parse_string(cs, pos, Ghost(sexp)) {
                Some(out) => Some(Some(out)),
                None => None,
            }
        }
        Some(_) => {
            let ghost null_expected = match exp {
                Some((val, j)) => val is None,
                None => false,
            };
            if eat_lit(cs, pos, "null", Ghost(null_expected)) {
                Some(None)
            } else {
                None
            }
        }
        None => None,
    }
}

/// Where the first half of an access object's fields stand in its text,
/// and what the tail after them is.
#[verifier::rlimit(100)]
#[verifier::spinoff_prover]
proof fn lemma_access_layout_front(t: Seq<char>, p0: int, j: int, av: AccessView)
    requires
        0 <= p0 <= j <= t.len(),
        t.subrange(p0, j) == access_json(av),
    ensures
        ({
            let l1 = "{\"date\":"@;
            let v1 = int_chars(av.date);
            let l2 = ",\"peer_addr\":"@;
            let v2 = opt_ip_json(av.peer_addr);
            let l3 = ",\"user_agent\":"@;
            let v3 = opt_string_json(av.user_agent);
            let b1 = p0 + l1.len();
            let b2 = b1 + v1.len();
            let b3 = b2 + l2.len();
            let b4 = b3 + v2.len();
            let b5 = b4 + l3.len();
            let b6 = b5 + v3.len();
            &&& b6 <= j
            &&& t.subrange(p0, b1) == l1
            &&& t.subrange(b1, b2) == v1
            &&& t.subrange(b2, b3) == l2
            &&& t.subrange(b3, b4) == v2
            &&& t.subrange(b4, b5) == l3
            &&& t.subrange(b5, b6) == v3
            &&& t.subrange(b6, j) == ",\"referer\":"@ + (opt_string_json(av.referer) + (
            ",\"method\":"@ + (json_string(av.method) + (",\"uri\":"@ + (json_string(av.uri)
                + "}"@)))))
        }),
{
    let l1 = "{\"date\":"@;
    let v1 = int_chars(av.date);
    let l2 = ",\"peer_addr\":"@;
    let v2 = opt_ip_json(av.peer_addr);
    let l3 = ",\"user_agent\":"@;
    let v3 = opt_string_json(av.user_agent);
    let tail = ",\"referer\":"@ + (opt_string_json(av.referer) + (",\"method\":"@ + (json_string(
        av.method,
    ) + (",\"uri\":"@ + (json_string(av.uri) + "}"@)))));
    let b1 = p0 + l1.len();
    let b2 = b1 + v1.len();
    let b3 = b2 + l2.len();
    let b4 = b3 + v2.len();
    let b5 = b4 + l3.len();
    let b6 = b5 + v3.len();
    assert(t.subrange(p0, j) =~= l1 + (v1 + (l2 + (v2 + (l3 + (v3 + tail))))));
    lemma_concat_peel(t, p0, j, l1, v1 + (l2 + (v2 + (l3 + (v3 + tail)))));
    lemma_concat_peel(t, b1, j, v1, l2 + (v2 + (l3 + (v3 + tail))));
    lemma_concat_peel(t, b2, j, l2, v2 + (l3 + (v3 + tail)));
    lemma_concat_peel(t, b3, j, v2, l3 + (v3 + tail));
    lemma_concat_peel(t, b4, j, l3, v3 + tail);
    lemma_concat_peel(t, b5, j, v3, tail);
}

/// Where the remaining fields of an access object stand.
#[verifier::rlimit(100)]
#[verifier::spinoff_prover]
proof fn lemma_access_layout_back(t: Seq<char>, b6: int, j: int, av: AccessView)
    requires
        0 <= b6 <= j <= t.len(),
        t.subrange(b6, j) == ",\"referer\":"@ + (opt_string_json(av.referer) + (",\"method\":"@
            + (json_string(av.method) + (",\"uri\":"@ + (json_string(av.uri) + "}"@))))),
    ensures
        ({
            let l4 = ",\"referer\":"@;
            let v4 = opt_string_json(av.referer);
            let l5 = ",\"method\":"@;
            let v5 = json_string(av.method);
            let l6 = ",\"uri\":"@;
            let v6 = json_string(av.uri);
            let l7 = "}"@;
            let b7 = b6 + l4.len();
            let b8 = b7 + v4.len();
            let b9 = b8 + l5.len();
            let b10 = b9 + v5.len();
            let b11 = b10 + l6.len();
            let b12 = b11 + v6.len();
            &&& j == b12 + l7.len()
            &&& t.subrange(b6, b7) == l4
            &&& t.subrange(b7, b8) == v4
            &&& t.subrange(b8, b9) == l5
            &&& t.subrange(b9, b10) == v5
            &&& t.subrange(b10, b11) == l6
            &&& t.subrange(b11, b12) == v6
            &&& t.subrange(b12, j) == l7
        }),
{
    let l4 = ",\"referer\":"@;
    let v4 = opt_string_json(av.referer);
    let l5 = ",\"method\":"@;
    let v5 = json_string(av.method);
    let l6 = ",\"uri\":"@;
    let v6 = json_string(av.uri);
    let l7 = "}"@;
    let b7 = b6 + l4.len();
    let b8 = b7 + v4.len();
    let b9 = b8 + l5.len();
    let b10 = b9 + v5.len();
    let b11 = b10 + l6.len();
    let b12 = b11 + v6.len();
    lemma_concat_peel(t, b6, j, l4, v4 + (l5 + (v5 + (l6 + (v6 + l7)))));
    lemma_concat_peel(t, b7, j, v4, l5 + (v5 + (l6 + (v6 + l7))));
    lemma_concat_peel(t, b8, j, l5, v5 + (l6 + (v6 + l7)));
    lemma_concat_peel(t, b9, j, v5, l6 + (v6 + l7));
    lemma_concat_peel(t, b10, j, l6, v6 + l7);
    lemma_concat_peel(t, b11, j, v6, l7);
    assert(t.subrange(b12, j) =~= t.subrange(b12, b12 + l7.len()));
}

/// Parses one access object. When the text under the cursor is known to
/// be the canonical object of a well-formed record ending at `j`, exactly
/// that record comes back. A record whose method or request-target is
/// empty is refused.
#[verifier::rlimit(100)]
#[verifier::spinoff_prover]
fn parse_access(cs: &Vec<char>, pos: &mut usize, Ghost(exp): Ghost<Option<(AccessView, int)>>)
    -> (r: Option<Access>)
    requires
        *old(pos) <= cs@.len(),
        exp matches Some((av, j)) ==> (*old(pos) <= j <= cs@.len() && cs@.subrange(
            *old(pos) as int,
            j,
        ) == access_json(av) && av.wf()),
    ensures
        r is Some ==> *old(pos) < *final(pos),
        *old(pos) <= *final(pos) <= cs@.len(),
        r matches Some(a) ==> a@.wf(),
        exp matches Some((av, j)) ==> (r matches Some(a) && a@ == av && *final(pos) == j),
{
    let ghost p0 = *old(pos) as int;
    let ghost on = exp is Some;
    // The field boundaries the expectation announces.
    let ghost (b1, b2, b3, b4, b5, b6, b7, b8, b9, b10, b11, b12): (int, int, int, int, int, int,
        int, int, int, int, int, int) = match exp {
        Some((av, j)) => {
            let b1 = p0 + "{\"date\":"@.len();
            let b2 = b1 + int_chars(av.date).len();
            let b3 = b2 + ",\"peer_addr\":"@.len();
            let b4 = b3 + opt_ip_json(av.peer_addr).len();
            let b5 = b4 + ",\"user_agent\":"@.len();
            let b6 = b5 + opt_string_json(av.user_agent).len();
            let b7 = b6 + ",\"referer\":"@.len();
            let b8 = b7 + opt_string_json(av.referer).len();
            let b9 = b8 + ",\"method\":"@.len();
            let b10 = b9 + json_string(av.method).len();
            let b11 = b10 + ",\"uri\":"@.len();
            let b12 = b11 + json_string(av.uri).len();
            (b1, b2, b3, b4, b5, b6, b7, b8, b9, b10, b11, b12)
        },
        None => (0, 0, 0, 0, 0, 0, 0, 0, 0, 0, 0, 0),
    };
    proof {
        reveal_strlit(",\"peer_addr\":");
        if let Some((av, j)) = exp {
            lemma_access_layout_front(cs@, p0, j, av);
            lemma_access_layout_back(cs@, b6, j, av);
            lemma_slice_index(cs@, p0, b1, "{\"date\":"@);
            lemma_slice_index(cs@, b2, b3, ",\"peer_addr\":"@);
            lemma_slice_index(cs@, b4, b5, ",\"user_agent\":"@);
            lemma_slice_index(cs@, b6, b7, ",\"referer\":"@);
            lemma_slice_index(cs@, b8, b9, ",\"method\":"@);
            lemma_slice_index(cs@, b10, b11, ",\"uri\":"@);
            lemma_slice_index(cs@, b12, j, "}"@);
            assert(",\"peer_addr\":"@[0] == ',');
            assert(cs@[b2 + 0] == ',');
            assert(cs@[b2] == ',');
            assert(!is_dec_char(','));
        }
    }
    if !eat_lit(cs, pos, "{\"date\":", Ghost(on)) {
        return None;
    }
    let ghost dexp: Option<(int, int)> = match exp {
        Some((av, j)) => Some((av.date, b2)),
        None => None,
    };
    let date = match parse_i64(cs, pos, Ghost(dexp)) {
        Some(v) => v,
        None => {
            return None;
        }
    };
    if !eat_lit(cs, pos, ",\"peer_addr\":", Ghost(on)) {
        return None;
    }
    let ghost ipexp: Option<(Option<IpAddress>, int)> = match exp {
        Some((av, j)) => Some((av.peer_addr, b4)),
        None => None,
    };
    let peer_addr = match parse_opt_ip(cs, pos, Ghost(ipexp)) {
        Some(v) => v,
        None => {
            return None;
        }
    };
    if !eat_lit(cs, pos, ",\"user_agent\":", Ghost(on)) {
        return None;
    }
    let ghost uaexp: Option<(Option<Seq<char>>, int)> = match exp {
        Some((av, j)) => Some((av.user_agent, b6)),
        None => None,
    };
    let user_agent = match parse_opt_string(cs, pos, Ghost(uaexp)) {
        Some(v) => v,
        None => {
            return None;
        }
    };
    if !eat_lit(cs, pos, ",\"referer\":", Ghost(on)) {
        return None;
    }
    let ghost refexp: Option<(Option<Seq<char>>, int)> = match exp {
        Some((av, j)) => Some((av.referer, b8)),
        None => None,
    };
    let referer = match parse_opt_string(cs, pos, Ghost(refexp)) {
        Some(v) => v,
        None => {
            return None;
        }
    };
    if !eat_lit(cs, pos, ",\"method\":", Ghost(on)) {
        return None;
    }
    let ghost mexp: Option<(Seq<char>, int)> = match exp {
        Some((av, j)) => Some((av.method, b10)),
        None => None,
    };
    let method = match parse_string(cs, pos, Ghost(mexp)) {
        Some(v) => v,
        None => {
            return None;
        }
    };
    if !eat_lit(cs, pos, ",\"uri\":", Ghost(on)) {
        return None;
    }
    let ghost uexp: Option<(Seq<char>, int)> = match exp {
        Some((av, j)) => Some((av.uri, b12)),
        None => None,
    };
    let uri = match parse_string(cs, pos, Ghost(uexp)) {
        Some(v) => v,
        None => {
            return None;
        }
    };
    if !eat_lit(cs, pos, "}", Ghost(on)) {
        return None;
    }
    // The record invariant: method and request-target are never empty.
    if method.as_str().unicode_len() == 0 || uri.as_str().unicode_len() == 0 {
        proof {
            if let Some((av, j)) = exp {
                assert(false);
            }
        }
        return None;
    }
    let a = Access { date, peer_addr, user_agent, referer, method, uri };
    proof {
        if let Some((av, j)) = exp {
            assert(a@ == av);
        }
    }
    Some(a)
}

/// Parses the whole array. When the text is known to be the canonical
/// array of a sequence of well-formed records, exactly those records come
/// back.
#[verifier::rlimit(100)]
#[verifier::spinoff_prover]
fn parse_accesses(cs: &Vec<char>, Ghost(exp): Ghost<Option<Seq<AccessView>>>) -> (r: Option<
    Vec<Access>,
>)
    requires
        exp matches Some(s) ==> (cs@ == access_array_json(s) && (forall|i: int| 0 <= i < s.len()
            ==> (#[trigger] s[i]).wf())),
    ensures
        r matches Some(v) ==> (forall|i: int| 0 <= i < v@.len() ==> (#[trigger] access_views(
            v@,
        )[i]).wf()),
        exp matches Some(s) ==> (r matches Some(v) && access_views(v@) == s),
{
    let ghost tlen = cs@.len() as int;
    proof {
        if let Some(s) = exp {
            assert(cs@ =~= seq!['['] + (access_items_json(s) + seq![']']));
            assert(cs@.subrange(0, tlen) =~= cs@);
            lemma_concat_peel(cs@, 0, tlen, seq!['['], access_items_json(s) + seq![']']);
            lemma_concat_peel(cs@, 1, tlen, access_items_json(s), seq![']']);
            assert(cs@[0] == cs@.subrange(0, 1)[0]);
            assert(cs@[tlen - 1] == cs@.subrange(tlen - 1, tlen)[0]);
            assert(cs@[0] == '[');
            assert(cs@[tlen - 1] == ']');
            if s.len() == 0 {
                assert(access_items_json(s).len() == 0);
                assert(tlen == 2);
                assert(cs@[1] == ']');
            }
        }
    }
    let mut pos: usize = 0;
    if !eat_char(cs, &mut pos, '[', Ghost(exp is Some)) {
        return None;
    }
    let mut out: Vec<Access> = Vec::new();
    match peek(cs, pos) {
        Some(']') => {
            proof {
                reveal_strlit("{\"date\":");
                if let Some(s) = exp {
                    if s.len() > 0 {
                        lemma_items_head(s);
                        assert(access_json(s[0])[0] == "{\"date\":"@[0]);
                        assert(access_json(s[0])[0] == '{');
                        assert(cs@.subrange(1, tlen - 1)[0] == cs@[1]);
                        assert(access_items_json(s)[0] == access_json(s[0])[0]);
                        assert(false);
                    }
                    assert(access_views(out@) =~= s);
                }
            }
            advance(cs, &mut pos);
            if pos == cs.len() {
                return Some(out);
            }
            return None;
        }
        _ => {}
    }
    proof {
        reveal_strlit("{\"date\":");
        if let Some(s) = exp {
            if s.len() == 0 {
                assert(cs@[1] == ']');
                assert(false);
            }
            assert(access_views(out@) =~= s.take(0));
            assert(s.skip(0) =~= s);
        }
    }
    loop
        invariant_except_break
            1 <= pos <= cs@.len(),
            forall|i: int| 0 <= i < out@.len() ==> (#[trigger] access_views(out@)[i]).wf(),
            exp matches Some(s) ==> {
                &&& out@.len() < s.len()
                &&& tlen == cs@.len()
                &&& cs@[tlen - 1] == ']'
                &&& (pos as int) <= tlen - 1
                &&& (forall|i: int| 0 <= i < s.len() ==> (#[trigger] s[i]).wf())
                &&& access_views(out@) == s.take(out@.len() as int)
                &&& cs@.subrange(pos as int, tlen - 1) == access_items_json(
                    s.skip(out@.len() as int),
                )
            },
        ensures
            1 <= pos <= cs@.len(),
            forall|i: int| 0 <= i < out@.len() ==> (#[trigger] access_views(out@)[i]).wf(),
            exp matches Some(s) ==> (access_views(out@) == s && pos == cs@.len()),
        decreases cs@.len() - pos,
    {
        let ghost k = out@.len() as int;
        let ghost aexp: Option<(AccessView, int)> = match exp {
            Some(s) => Some(
                (s[k], pos + access_json(s[k]).len()),
            ),
            None => None,
        };
        proof {
            if let Some(s) = exp {
                let rem = s.skip(k);
                assert(rem.len() >= 1);
                assert(rem[0] == s[k]);
                lemma_items_head(rem);
                if rem.len() == 1 {
                    assert(cs@.subrange(pos as int, tlen - 1) == access_json(s[k]));
                } else {
                    lemma_concat_peel(
                        cs@,
                        pos as int,
                        tlen - 1,
                        access_json(s[k]),
                        seq![','] + access_items_json(rem.drop_first()),
                    );
                }
            }
        }
        let access = match parse_access(cs, &mut pos, Ghost(aexp)) {
            Some(a) => a,
            None => {
                return None;
            }
        };
        let ghost prev = out@;
        out.push(access);
        proof {
            assert(out@ == prev.push(access));
            assert forall|i: int| 0 <= i < out@.len() implies (#[trigger] access_views(
                out@,
            )[i]).wf() by {
                assert(access_views(out@)[i] == out@[i]@);
                if i < prev.len() {
                    assert(access_views(prev)[i] == prev[i]@);
                }
            }
            if let Some(s) = exp {
                assert(access_views(out@) =~= s.take(k + 1));
            }
        }
        match peek(cs, pos) {
            Some(',') => {
                proof {
                    if let Some(s) = exp {
                        let rem = s.skip(k);
                        lemma_items_head(rem);
                        if rem.len() == 1 {
                            assert(pos == tlen - 1);
                            assert(cs@[pos as int] == ']');
                            assert(false);
                        }
                        lemma_concat_peel(
                            cs@,
                            pos as int,
                            tlen - 1,
                            seq![','],
                            access_items_json(rem.drop_first()),
                        );
                        assert(cs@[pos as int] == cs@.subrange(pos as int, pos + 1)[0]);
                        assert(rem.drop_first() =~= s.skip(k + 1));
                    }
                }
                advance(cs, &mut pos);
            }
            Some(']') => {
                proof {
                    if let Some(s) = exp {
                        let rem = s.skip(k);
                        lemma_items_head(rem);
                        if rem.len() > 1 {
                            lemma_concat_peel(
                                cs@,
                                pos as int,
                                tlen - 1,
                                seq![','],
                                access_items_json(rem.drop_first()),
                            );
                            assert(cs@[pos as int] == cs@.subrange(pos as int, pos + 1)[0]);
                            assert(cs@[pos as int] == ',');
                            assert(false);
                        }
                        assert(pos == tlen - 1);
                        assert(out@.len() == s.len());
                        assert(access_views(out@) =~= s);
                    }
                }
                advance(cs, &mut pos);
                break;
            }
            _ => {
                proof {
                    if let Some(s) = exp {
                        let rem = s.skip(k);
                        lemma_items_head(rem);
                        if rem.len() == 1 {
                            assert(pos == tlen - 1);
                            assert(cs@[pos as int] == ']');
                        } else {
                            lemma_concat_peel(
                                cs@,
                                pos as int,
                                tlen - 1,
                                seq![','],
                                access_items_json(rem.drop_first()),
                            );
                            assert(cs@[pos as int] == cs@.subrange(pos as int, pos + 1)[0]);
                            assert(cs@[pos as int] == ',');
                        }
                        assert(false);
                    }
                }
                return None;
            }
        }
    }
    if pos == cs.len() {
        Some(out)
    } else {
        None
    }
}

/// Decodes a batch from the wire: accepts exactly the canonical texts of
/// the format — every well-formed batch's encoding decodes, and whatever
/// is accepted re-encodes, character for character, to the input and
/// holds only well-formed records.
pub fn decode_accesses(input: &str) -> (r: Option<Vec<Access>>)
    ensures
        r matches Some(v) ==> input@ == access_array_json(access_views(v@)),
        r matches Some(v) ==> (forall|i: int| 0 <= i < v@.len() ==> (#[trigger] access_views(
            v@,
        )[i]).wf()),
        (exists|s: Seq<AccessView>| input@ == access_array_json(s) && (forall|i: int| 0 <= i
            < s.len() ==> (#[trigger] s[i]).wf())) ==> r is Some,
{
    let len = input.unicode_len();
    let mut cs: Vec<char> = Vec::new();
    let mut i: usize = 0;
    while i < len
        invariant
            i <= len,
            len == input@.len(),
            cs@ =~= input@.take(i as int),
        decreases len - i,
    {
        let c = input.get_char(i);
        cs.push(c);
        proof {
            assert(cs@ =~= input@.take(i + 1 as int));
        }
        i += 1;
    }
    proof {
        assert(cs@ =~= input@);
    }
    let ghost expectation: Option<Seq<AccessView>> = if exists|s: Seq<AccessView>|
        input@ == access_array_json(s) && (forall|i: int| 0 <= i < s.len() ==> (#[trigger] s[
        i]).wf()) {
        Some(
            choose|s: Seq<AccessView>|
                input@ == access_array_json(s) && (forall|i: int| 0 <= i < s.len()
                    ==> (#[trigger] s[i]).wf()),
        )
    } else {
        None
    };
    let list = match parse_accesses(&cs, Ghost(expectation)) {
        Some(list) => list,
        None => {
            proof {
                if let Some(sw) = expectation {
                    assert(false);
                }
            }
            return None;
        }
    };
    // The other direction of the guarantee: the parse is accepted only
    // when its re-encoding reproduces the input exactly.
    let re = encode_accesses(&list);
    let owned = input.to_owned();
    if owned == re {
        Some(list)
    } else {
        proof {
            if let Some(sw) = expectation {
                assert(access_views(list@) == sw);
                assert(re@ == input@);
                assert(false);
            }
        }
        None
    }
}

} // verus!
