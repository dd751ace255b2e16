//! Splitting a command line into tokens and reading index arguments.

use vstd::prelude::*;
use vstd::string::StrSliceExecFns;

verus! {

/// A blank character for the purpose of splitting a line into tokens:
/// the characters with the Unicode white-space property.
pub open spec fn is_blank(c: char) -> bool {
    let u = c as u32;
    (9 <= u && u <= 13) || u == 32 || u == 0x85 || u == 0xA0 || u == 0x1680 || (0x2000 <= u && u
        <= 0x200A) || u == 0x2028 || u == 0x2029 || u == 0x202F || u == 0x205F || u == 0x3000
}

/// Whether `c` is a white-space character.
fn blank(c: char) -> (r: bool)
    ensures
        r == is_blank(c),
{
    let u = c as u32;
    (9 <= u && u <= 13) || u == 32 || u == 0x85 || u == 0xA0 || u == 0x1680 || (0x2000 <= u && u
        <= 0x200A) || u == 0x2028 || u == 0x2029 || u == 0x202F || u == 0x205F || u == 0x3000
}

/// The tokens of `s` that remain to be emitted while `cur` holds the
/// (possibly empty) token being accumulated.
pub open spec fn tokens_acc(s: Seq<char>, cur: Seq<char>) -> Seq<Seq<char>>
    decreases s.len(),
{
    if s.len() == 0 {
        if cur.len() == 0 {
            Seq::empty()
        } else {
            seq![cur]
        }
    } else if is_blank(s[0]) {
        if cur.len() == 0 {
            tokens_acc(s.skip(1), Seq::empty())
        } else {
            seq![cur] + tokens_acc(s.skip(1), Seq::empty())
        }
    } else {
        tokens_acc(s.skip(1), cur.push(s[0]))
    }
}

/// The whitespace-separated tokens of a line: the maximal runs of
/// non-blank characters, in order.
pub open spec fn spec_tokens(s: Seq<char>) -> Seq<Seq<char>> {
    tokens_acc(s, Seq::empty())
}

/// The views of a sequence of owned strings.
pub open spec fn strs_view(v: Seq<String>) -> Seq<Seq<char>> {
    v.map_values(|s: String| s@)
}

/// Split a line into its whitespace-separated tokens.
pub fn tokenize(line: &str) -> (toks: Vec<String>)
    ensures
        strs_view(toks@) == spec_tokens(line@),
{
    let len = line.unicode_len();
    let mut toks: Vec<String> = Vec::new();
    let mut start: Option<usize> = None;
    let mut i: usize = 0;
    proof {
        assert(line@.skip(0) =~= line@);
        assert(strs_view(toks@) =~= Seq::<Seq<char>>::empty());
        assert(Seq::<Seq<char>>::empty() + spec_tokens(line@) =~= spec_tokens(line@));
    }
    while i < len
        invariant
            len == line@.len(),
            i <= len,
            match start {
                Some(st) => st < i && strs_view(toks@) + tokens_acc(
                    line@.skip(i as int),
                    line@.subrange(st as int, i as int),
                ) == spec_tokens(line@),
                None => strs_view(toks@) + tokens_acc(line@.skip(i as int), Seq::empty())
                    == spec_tokens(line@),
            },
        decreases len - i,
    {
        let ghost s = line@;
        let ghost rest = s.skip(i as int);
        proof {
            assert(rest[0] == s[i as int]);
            assert(rest.skip(1) =~= s.skip(i + 1));
        }
        let c = line.get_char(i);
        if blank(c) {
            if let Some(st) = start {
                let ghost cur = s.subrange(st as int, i as int);
                let tok = line.substring_char(st, i);
                let owned = tok.to_owned();
                proof {
                    assert(tokens_acc(rest, cur) == seq![cur] + tokens_acc(
                        s.skip(i + 1),
                        Seq::empty(),
                    ));
                    assert(strs_view(toks@.push(owned)) =~= strs_view(toks@).push(cur));
                    assert(strs_view(toks@).push(cur) + tokens_acc(s.skip(i + 1), Seq::empty())
                        =~= strs_view(toks@) + (seq![cur] + tokens_acc(s.skip(i + 1), Seq::empty())));
                }
                toks.push(owned);
                start = None;
            } else {
                proof {
                    assert(tokens_acc(rest, Seq::empty()) == tokens_acc(s.skip(i + 1), Seq::empty()));
                }
            }
        } else {
            if let Some(st) = start {
                let ghost cur = s.subrange(st as int, i as int);
                proof {
                    assert(cur.push(s[i as int]) =~= s.subrange(st as int, i + 1));
                    assert(tokens_acc(rest, cur) == tokens_acc(s.skip(i + 1), cur.push(s[i as int])));
                }
            } else {
                proof {
                    assert(Seq::<char>::empty().push(s[i as int]) =~= s.subrange(i as int, i + 1));
                    assert(tokens_acc(rest, Seq::empty()) == tokens_acc(
                        s.skip(i + 1),
                        s.subrange(i as int, i + 1),
                    ));
                }
            }
            if start.is_none() {
                start = Some(i);
            }
        }
        i += 1;
    }
    let ghost s = line@;
    proof {
        assert(s.skip(len as int) =~= Seq::<char>::empty());
    }
    if let Some(st) = start {
        let ghost cur = s.subrange(st as int, len as int);
        let tok = line.substring_char(st, len);
        let owned = tok.to_owned();
        proof {
            assert(tokens_acc(Seq::<char>::empty(), cur) == seq![cur]);
            assert(strs_view(toks@.push(owned)) =~= strs_view(toks@).push(cur));
            assert(strs_view(toks@).push(cur) =~= strs_view(toks@) + seq![cur]);
        }
        toks.push(owned);
    }
    toks
}

/// Whether `c` is a decimal digit.
pub open spec fn is_digit(c: char) -> bool {
    48 <= c as u32 && c as u32 <= 57
}

/// The value of a decimal digit.
pub open spec fn digit_val(c: char) -> nat {
    (c as u32 - 48) as nat
}

/// The value of a string of decimal digits, read left to right.
pub open spec fn digits_val(s: Seq<char>) -> nat
    decreases s.len(),
{
    if s.len() == 0 {
        0
    } else {
        digits_val(s.drop_last()) * 10 + digit_val(s.last())
    }
}

/// The digits of an index token: a single leading `+` sign is accepted
/// and skipped, as `usize::from_str` does.
pub open spec fn index_digits(s: Seq<char>) -> Seq<char> {
    if s.len() > 0 && s[0] == '+' {
        s.skip(1)
    } else {
        s
    }
}

/// The index a token denotes: its digits' value, provided the token is a
/// non-empty digit string (after an optional `+` sign) whose value fits
/// in `usize`; `None` otherwise.
pub open spec fn spec_parse_index(s: Seq<char>) -> Option<int> {
    let d = index_digits(s);
    if d.len() > 0 && (forall|j: int| 0 <= j < d.len() ==> is_digit(d[j])) && digits_val(d)
        <= usize::MAX {
        Some(digits_val(d) as int)
    } else {
        None
    }
}

/// The tokens that do not parse as indices, in order.
pub open spec fn bad_tokens(toks: Seq<Seq<char>>) -> Seq<Seq<char>>
    decreases toks.len(),
{
    if toks.len() == 0 {
        Seq::empty()
    } else {
        let rest = bad_tokens(toks.drop_last());
        if spec_parse_index(toks.last()) is None {
            rest.push(toks.last())
        } else {
            rest
        }
    }
}

/// A longer digit string never has a smaller value.
proof fn lemma_digits_val_take_monotone(s: Seq<char>, k: int, m: int)
    requires
        0 <= k <= m <= s.len(),
    ensures
        digits_val(s.take(k)) <= digits_val(s.take(m)),
    decreases m - k,
{
    if k < m {
        lemma_digits_val_take_monotone(s, k, m - 1);
        assert(s.take(m).drop_last() =~= s.take(m - 1));
        assert(digits_val(s.take(m - 1)) * 10 >= digits_val(s.take(m - 1)));
    }
}

/// Parse a token as a task index, as `usize::from_str` would: an optional
/// `+` sign, then decimal digits; anything else, or a value over
/// `usize::MAX`, is rejected.
pub fn parse_index(tok: &str) -> (r: Option<usize>)
    ensures
        match r {
            Some(n) => spec_parse_index(tok@) == Some(n as int),
            None => spec_parse_index(tok@) is None,
        },
{
    let len = tok.unicode_len();
    let mut start: usize = 0;
    if len > 0 && tok.get_char(0) == '+' {
        start = 1;
    }
    let ghost d = index_digits(tok@);
    proof {
        assert(d =~= tok@.skip(start as int));
    }
    if start >= len {
        return None;
    }
    let mut val: usize = 0;
    let mut i: usize = start;
    while i < len
        invariant
            len == tok@.len(),
            start <= i <= len,
            start < len,
            d == index_digits(tok@),
            d == tok@.skip(start as int),
            d.len() == len - start,
            forall|j: int| 0 <= j < i - start ==> is_digit(d[j]),
            val == digits_val(d.take(i - start)),
        decreases len - i,
    {
        let c = tok.get_char(i);
        let cu = c as u32;
        proof {
            assert(d[i - start] == tok@[i as int]);
        }
        if cu < 48 || cu > 57 {
            return None;
        }
        let dv = (cu - 48) as usize;
        proof {
            assert(d.take(i - start + 1).drop_last() =~= d.take(i - start));
            assert(digits_val(d.take(i - start + 1)) == val * 10 + dv);
        }
        let next = match val.checked_mul(10) {
            Some(v) => v.checked_add(dv),
            None => None,
        };
        match next {
            Some(v) => {
                val = v;
            },
            None => {
                proof {
                    assert(digits_val(d.take(i - start + 1)) > usize::MAX);
                    lemma_digits_val_take_monotone(d, i - start + 1, d.len() as int);
                    assert(d.take(d.len() as int) =~= d);
                }
                return None;
            },
        }
        i += 1;
    }
    proof {
        assert(d.take(d.len() as int) =~= d);
    }
    Some(val)
}

/// Whether two string slices hold the same characters.
pub fn token_is(s: &str, t: &str) -> (r: bool)
    ensures
        r == (s@ == t@),
{
    let a: String = s.to_owned();
    let b: String = t.to_owned();
    a.eq(&b)
}

} // verus!
