//! Small shared rules: the address grammar accepted for newsletter
//! subscriptions.

use vstd::prelude::*;
use vstd::string::StrSliceExecFns;

verus! {

/// Characters allowed in the local part of an address, before the `@`.
pub open spec fn is_local_char(c: char) -> bool {
    ||| ('a' as u32) <= (c as u32) && (c as u32) <= ('z' as u32)
    ||| ('A' as u32) <= (c as u32) && (c as u32) <= ('Z' as u32)
    ||| ('0' as u32) <= (c as u32) && (c as u32) <= ('9' as u32)
    ||| c == '.' || c == '!' || c == '#' || c == '$' || c == '%' || c == '&' || c == '\''
    ||| c == '*' || c == '+' || c == '/' || c == '=' || c == '?' || c == '^' || c == '_'
    ||| c == '`' || c == '{' || c == '|' || c == '}' || c == '~' || c == '-'
}

/// Characters allowed in a domain label: letters, digits and hyphens.
pub open spec fn is_label_char(c: char) -> bool {
    ||| ('a' as u32) <= (c as u32) && (c as u32) <= ('z' as u32)
    ||| ('A' as u32) <= (c as u32) && (c as u32) <= ('Z' as u32)
    ||| ('0' as u32) <= (c as u32) && (c as u32) <= ('9' as u32)
    ||| c == '-'
}

/// A valid domain: one or more non-empty labels of label characters,
/// separated by single dots.
pub open spec fn valid_domain(d: Seq<char>) -> bool {
    &&& d.len() > 0
    &&& forall|i: int| 0 <= i < d.len() ==> (is_label_char(d[i]) || d[i] == '.')
    &&& d[0] != '.'
    &&& d[d.len() - 1] != '.'
    &&& forall|i: int| 0 <= i && i + 1 < d.len() ==> !(#[trigger] d[i] == '.' && d[i + 1] == '.')
}

/// A valid address: a non-empty local part of allowed characters, one `@`,
/// and a valid domain.
pub open spec fn valid_email(s: Seq<char>) -> bool {
    exists|at: int|
        {
            &&& 0 < at < s.len()
            &&& s[at] == '@'
            &&& (forall|i: int| 0 <= i < at ==> is_local_char(s[i]))
            &&& valid_domain(s.skip(at + 1))
        }
}

/// Only the first `@` can split a valid address: everything the spec
/// demands of an address is then demanded at that split.
proof fn lemma_first_at_decides(s: Seq<char>, p: int)
    requires
        0 <= p < s.len(),
        s[p] == '@',
        forall|i: int| 0 <= i < p ==> s[i] != '@',
    ensures
        valid_email(s) ==> {
            &&& 0 < p
            &&& (forall|i: int| 0 <= i < p ==> is_local_char(s[i]))
            &&& valid_domain(s.skip(p + 1))
        },
{
    if valid_email(s) {
        let at = choose|at: int|
            {
                &&& 0 < at < s.len()
                &&& s[at] == '@'
                &&& (forall|i: int| 0 <= i < at ==> is_local_char(s[i]))
                &&& valid_domain(s.skip(at + 1))
            };
        assert(!is_local_char('@'));
        if at < p {
            assert(s[at] != '@');
        } else if at > p {
            assert(is_local_char(s[p]));
        }
        assert(at == p);
    }
}

fn is_local_char_exec(c: char) -> (r: bool)
    ensures
        r == is_local_char(c),
{
    let u = c as u32;
    (97 <= u && u <= 122) || (65 <= u && u <= 90) || (48 <= u && u <= 57) || c == '.' || c == '!'
        || c == '#' || c == '$' || c == '%' || c == '&' || c == '\'' || c == '*' || c == '+'
        || c == '/' || c == '=' || c == '?' || c == '^' || c == '_' || c == '`' || c == '{'
        || c == '|' || c == '}' || c == '~' || c == '-'
}

fn is_label_char_exec(c: char) -> (r: bool)
    ensures
        r == is_label_char(c),
{
    let u = c as u32;
    (97 <= u && u <= 122) || (65 <= u && u <= 90) || (48 <= u && u <= 57) || c == '-'
}

/// Tells whether the given address is acceptable for a subscription.
pub fn validate_email(email: &str) -> (r: bool)
    ensures
        r == valid_email(email@),
{
    let ghost s = email@;
    let len = email.unicode_len();
    // Materialize the characters once.
    let mut cs: Vec<char> = Vec::new();
    let mut i: usize = 0;
    while i < len
        invariant
            i <= len,
            len == s.len(),
            s == email@,
            cs@ =~= s.take(i as int),
        decreases len - i,
    {
        let c = email.get_char(i);
        cs.push(c);
        proof {
            assert(cs@ =~= s.take(i + 1 as int));
        }
        i += 1;
    }
    proof {
        assert(cs@ =~= s);
    }
    // Find the first `@`.
    let mut at: usize = 0;
    while at < len && cs[at] != '@'
        invariant
            at <= len,
            len == s.len(),
            s == email@,
            cs@ == s,
            forall|j: int| 0 <= j < at ==> s[j] != '@',
        decreases len - at,
    {
        at += 1;
    }
    if at >= len {
        // No `@` anywhere.
        proof {
            assert(!valid_email(s)) by {
                if valid_email(s) {
                    let w = choose|w: int|
                        {
                            &&& 0 < w < s.len()
                            &&& s[w] == '@'
                            &&& (forall|i: int| 0 <= i < w ==> is_local_char(s[i]))
                            &&& valid_domain(s.skip(w + 1))
                        };
                    assert(s[w] != '@');
                }
            }
        }
        return false;
    }
    proof {
        lemma_first_at_decides(s, at as int);
    }
    if at == 0 {
        return false;
    }
    // The local part: every character before the `@` must be allowed.
    let mut i: usize = 0;
    while i < at
        invariant
            i <= at,
            at < len,
            len == s.len(),
            s == email@,
            cs@ == s,
            s[at as int] == '@',
            forall|j: int| 0 <= j < at ==> s[j] != '@',
            forall|j: int| 0 <= j < i ==> is_local_char(s[j]),
        decreases at - i,
    {
        if !is_local_char_exec(cs[i]) {
            proof {
                lemma_first_at_decides(s, at as int);
            }
            return false;
        }
        i += 1;
    }
    // The domain: non-empty, only labels and single dots, no dot at
    // either end.
    let ghost d = s.skip(at + 1);
    let dstart = at + 1;
    if dstart >= len {
        proof {
            lemma_first_at_decides(s, at as int);
            assert(d.len() == 0);
        }
        return false;
    }
    proof {
        assert(forall|j: int| 0 <= j < d.len() ==> d[j] == s[dstart + j]);
    }
    if cs[dstart] == '.' {
        proof {
            lemma_first_at_decides(s, at as int);
            assert(d[0] == '.');
        }
        return false;
    }
    if cs[len - 1] == '.' {
        proof {
            lemma_first_at_decides(s, at as int);
            assert(d[d.len() - 1] == '.');
        }
        return false;
    }
    let mut j: usize = dstart;
    while j < len
        invariant
            dstart <= j <= len,
            dstart == at + 1,
            at < len,
            len == s.len(),
            s == email@,
            cs@ == s,
            s[at as int] == '@',
            forall|i: int| 0 <= i < at ==> s[i] != '@',
            d == s.skip(at + 1),
            forall|i: int| 0 <= i < d.len() ==> d[i] == s[dstart + i],
            forall|i: int| dstart <= i < j ==> (is_label_char(s[i]) || s[i] == '.'),
            forall|i: int| dstart <= i && i + 1 <= j && i + 1 < len ==> !(#[trigger] s[i] == '.'
                && s[i + 1] == '.'),
        decreases len - j,
    {
        let c = cs[j];
        if !is_label_char_exec(c) && c != '.' {
            proof {
                lemma_first_at_decides(s, at as int);
                assert(d[j - dstart] == s[j as int]);
            }
            return false;
        }
        if c == '.' && j + 1 < len && cs[j + 1] == '.' {
            proof {
                lemma_first_at_decides(s, at as int);
                assert(d[j - dstart] == s[j as int]);
                assert(d[j - dstart + 1] == s[j + 1 as int]);
            }
            return false;
        }
        j += 1;
    }
    // Everything checked: the first `@` is a valid split.
    proof {
        assert(valid_domain(d)) by {
            assert(d.len() == len - dstart);
            assert(d[0] == s[dstart as int]);
            assert(d[d.len() - 1] == s[len - 1]);
            assert(forall|i: int| 0 <= i < d.len() ==> (is_label_char(d[i]) || d[i] == '.'));
            assert(forall|i: int| 0 <= i && i + 1 < d.len() ==> !(#[trigger] d[i] == '.' && d[
                i + 1] == '.'));
        }
        assert(valid_email(s)) by {
            assert({
                &&& 0 < (at as int) < s.len()
                &&& s[at as int] == '@'
                &&& (forall|i: int| 0 <= i < at as int ==> is_local_char(s[i]))
                &&& valid_domain(s.skip(at as int + 1))
            });
        }
    }
    true
}

} // verus!
