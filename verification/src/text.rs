//! Small text helpers: display truncation, count formatting, and the
//! case-insensitive substring matching that the search overlay uses.
use crate::resolver::hex_char;
use vstd::prelude::*;

verus! {

/// Relies on `str`'s `PartialEq`: two string slices compare equal exactly
/// when their character sequences are equal.
#[verifier::external_body]
pub fn str_eq(a: &str, b: &str) -> (r: bool)
    ensures
        r == (a@ == b@),
{
    a == b
}

/// What `str::to_lowercase` returns: a function of the characters alone.
pub uninterp spec fn lower_of(s: Seq<char>) -> Seq<char>;

/// Relies on `str::to_lowercase`: the result depends on the characters
/// alone, and an empty string stays empty.
#[verifier::external_body]
pub fn to_lowercase(s: &str) -> (r: String)
    ensures
        r@ == lower_of(s@),
        s@.len() == 0 ==> r@.len() == 0,
{
    s.to_lowercase()
}

/// Relies on `String::push`: appends one character.
#[verifier::external_body]
pub fn push_char(s: &mut String, c: char)
    ensures
        final(s)@ == old(s)@.push(c),
{
    s.push(c)
}

/// `needle` occurs contiguously inside `hay`; an empty needle always does.
pub open spec fn contains_sub(hay: Seq<char>, needle: Seq<char>) -> bool {
    exists|k: int|
        0 <= k && k + needle.len() <= hay.len() && #[trigger] hay.subrange(
            k,
            k + needle.len() as int,
        ) == needle
}

/// Whether `needle` occurs contiguously inside `hay`.
#[verifier::loop_isolation(false)]
pub fn str_contains(hay: &str, needle: &str) -> (r: bool)
    ensures
        r == contains_sub(hay@, needle@),
{
    let hn = hay.unicode_len();
    let nn = needle.unicode_len();
    if nn == 0 {
        proof {
            assert(hay@.subrange(0, 0 + needle@.len() as int) =~= needle@);
            assert(contains_sub(hay@, needle@));
        }
        return true;
    }
    if nn > hn {
        proof {
            assert(!contains_sub(hay@, needle@));
        }
        return false;
    }
    let mut k: usize = 0;
    let ghost mut badp: int = 0int;
    while k <= hn - nn
        invariant
            k <= hn - nn + 1,
            forall|q: int|
                0 <= q < k ==> #[trigger] hay@.subrange(q, q + needle@.len() as int) != needle@,
        decreases hn - nn + 1 - k,
    {
        let mut j: usize = 0;
        let mut matches = true;
        while j < nn
            invariant
                j <= nn,
                k + nn <= hn,
                matches ==> forall|p: int| 0 <= p < j ==> hay@[k + p] == needle@[p],
            !matches ==> 0 <= badp < nn && hay@[k + badp] != needle@[badp],
            decreases nn - j,
        {
            let hc = hay.get_char(k + j);
            let nc = needle.get_char(j);
            if hc != nc {
                proof {
                    badp = j as int;
                }
                matches = false;
                j = nn;
            } else {
                proof {
                    assert(hay@[k as int + j as int] == needle@[j as int]);
                }
                j = j + 1;
            }
        }
        if matches {
            proof {
                assert(hay@.subrange(k as int, k as int + needle@.len() as int) =~= needle@);
            }
            return true;
        }
        proof {
            assert(hay@.subrange(k as int, k as int + needle@.len() as int)[badp]
                == hay@[k + badp]);
            assert(hay@.subrange(k as int, k as int + needle@.len() as int) != needle@);
        }
        k = k + 1;
    }
    proof {
        if contains_sub(hay@, needle@) {
            let q = choose|q: int|
                0 <= q && q + needle@.len() <= hay@.len() && #[trigger] hay@.subrange(
                    q,
                    q + needle@.len() as int,
                ) == needle@;
            assert(hay@.subrange(q, q + needle@.len() as int) != needle@);
        }
    }
    false
}

/// The decimal digits of `v`, most significant first, without leading
/// zeros (a single digit for values below ten).
pub open spec fn dec_seq(v: int) -> Seq<char>
    decreases v,
{
    if v < 10 {
        seq![hex_char(v)]
    } else {
        dec_seq(v / 10).push(hex_char(v % 10))
    }
}

fn dec_append(s: &mut String, v: u64)
    ensures
        final(s)@ == old(s)@ + dec_seq(v as int),
    decreases v,
{
    if v < 10 {
        s.append(crate::resolver::hex_str(v));
        proof {
            assert(final(s)@ =~= old(s)@ + dec_seq(v as int));
        }
        return ;
    }
    dec_append(s, v / 10);
    s.append(crate::resolver::hex_str(v % 10));
    proof {
        assert((v % 10) as int == (v as int) % 10);
        assert((v / 10) as int == (v as int) / 10);
        assert(final(s)@ =~= old(s)@ + dec_seq(v as int));
    }
}

/// `v` rendered in decimal.
pub fn u64_string(v: u64) -> (r: String)
    ensures
        r@ == dec_seq(v as int),
{
    let mut s = String::new();
    dec_append(&mut s, v);
    proof {
        assert(s@ =~= dec_seq(v as int));
    }
    s
}

/// A count for display: values of a million and more as tenths of millions
/// with an `M` suffix, a thousand and more as tenths of thousands with `K`,
/// anything smaller in plain decimal.
pub open spec fn spec_format_count(n: int) -> Seq<char> {
    if n >= 1000000 {
        let t = n / 100000 + if n % 100000 >= 50000 {
            1int
        } else {
            0int
        };
        dec_seq(t / 10) + seq!['.'] + seq![hex_char(t % 10)] + seq!['M']
    } else if n >= 1000 {
        let t = n / 100 + if n % 100 >= 50 {
            1int
        } else {
            0int
        };
        dec_seq(t / 10) + seq!['.'] + seq![hex_char(t % 10)] + seq!['K']
    } else {
        dec_seq(n)
    }
}

/// Formats a sample count for the header, compressing large values to one
/// decimal place of thousands or millions.
pub fn format_count(n: u64) -> (r: String)
    ensures
        r@ == spec_format_count(n as int),
{
    if n >= 1000000 {
        let t: u64 = n / 100000 + if n % 100000 >= 50000 {
            1
        } else {
            0
        };
        let mut s = u64_string(t / 10);
        proof {
            reveal_strlit(".");
            reveal_strlit("M");
        }
        s.append(".");
        s.append(crate::resolver::hex_str(t % 10));
        s.append("M");
        proof {
            assert(s@ =~= spec_format_count(n as int));
        }
        s
    } else if n >= 1000 {
        let t: u64 = n / 100 + if n % 100 >= 50 {
            1
        } else {
            0
        };
        let mut s = u64_string(t / 10);
        proof {
            reveal_strlit(".");
            reveal_strlit("K");
        }
        s.append(".");
        s.append(crate::resolver::hex_str(t % 10));
        s.append("K");
        proof {
            assert(s@ =~= spec_format_count(n as int));
        }
        s
    } else {
        u64_string(n)
    }
}

/// Display truncation: a string of at most `max` characters is kept whole;
/// a longer one is cut to its first `max - 1` characters plus an ellipsis
/// (just the first `max` characters when `max` is 0 or 1).
pub fn truncate(s: &str, max: usize) -> (r: String)
    ensures
        s@.len() <= max ==> r@ == s@,
        s@.len() > max && max <= 1 ==> r@ == s@.subrange(0, max as int),
        s@.len() > max && max > 1 ==> r@ == s@.subrange(0, max as int - 1).push('\u{2026}'),
{
    let n = s.unicode_len();
    if n <= max {
        proof {
            assert(s@.subrange(0, s@.len() as int) =~= s@);
        }
        s.to_owned()
    } else if max <= 1 {
        s.substring_char(0, max).to_owned()
    } else {
        let r = s.substring_char(0, max - 1).to_owned().concat("\u{2026}");
        proof {
            reveal_strlit("\u{2026}");
            assert(r@ =~= s@.subrange(0, max as int - 1).push('\u{2026}'));
        }
        r
    }
}

} // verus!
