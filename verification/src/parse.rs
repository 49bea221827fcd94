//! Parsing a comma-separated digit list out of text.
//!
//! The accepted form is the one the command line supplies: a list of decimal
//! numbers separated by commas, optionally wrapped in one pair of square
//! brackets, with whitespace ignored everywhere.  Every token between commas
//! must be an optional leading plus sign followed by at least one decimal
//! digit, with a value that fits in 32 bits; otherwise the whole input is
//! rejected as `MalformedInput`.

use crate::codec::CodecError;
use vstd::prelude::*;

verus! {

/// The whitespace characters that the parser removes: the Unicode
/// `White_Space` set.
pub open spec fn is_ws(c: char) -> bool {
    c == '\u{0009}' || c == '\u{000A}' || c == '\u{000B}' || c == '\u{000C}' || c == '\u{000D}'
        || c == '\u{0020}' || c == '\u{0085}' || c == '\u{00A0}' || c == '\u{1680}'
        || c == '\u{2000}' || c == '\u{2001}' || c == '\u{2002}' || c == '\u{2003}'
        || c == '\u{2004}' || c == '\u{2005}' || c == '\u{2006}' || c == '\u{2007}'
        || c == '\u{2008}' || c == '\u{2009}' || c == '\u{200A}' || c == '\u{2028}'
        || c == '\u{2029}' || c == '\u{202F}' || c == '\u{205F}' || c == '\u{3000}'
}

/// Whether `c` is one of the whitespace characters that `is_ws` names.
fn is_whitespace_char(c: char) -> (r: bool)
    ensures
        r == is_ws(c),
{
    c == '\u{0009}' || c == '\u{000A}' || c == '\u{000B}' || c == '\u{000C}' || c == '\u{000D}'
        || c == '\u{0020}' || c == '\u{0085}' || c == '\u{00A0}' || c == '\u{1680}'
        || c == '\u{2000}' || c == '\u{2001}' || c == '\u{2002}' || c == '\u{2003}'
        || c == '\u{2004}' || c == '\u{2005}' || c == '\u{2006}' || c == '\u{2007}'
        || c == '\u{2008}' || c == '\u{2009}' || c == '\u{200A}' || c == '\u{2028}'
        || c == '\u{2029}' || c == '\u{202F}' || c == '\u{205F}' || c == '\u{3000}'
}

/// `s` with every whitespace character removed.
pub open spec fn strip_ws(s: Seq<char>) -> Seq<char> {
    s.filter(|c: char| !is_ws(c))
}

/// `s` with one leading `[` and then one trailing `]` removed, if present.
pub open spec fn strip_brackets(s: Seq<char>) -> Seq<char> {
    let t = if s.len() > 0 && s[0] == '[' {
        s.subrange(1, s.len() as int)
    } else {
        s
    };
    if t.len() > 0 && t[t.len() - 1] == ']' {
        t.subrange(0, t.len() - 1)
    } else {
        t
    }
}

/// `s` split at every comma.  Splitting never yields fewer than one token:
/// the empty sequence splits into one empty token.
pub open spec fn split_commas(s: Seq<char>) -> Seq<Seq<char>>
    decreases s.len(),
{
    if s.len() == 0 {
        seq![Seq::<char>::empty()]
    } else if s.last() == ',' {
        split_commas(s.drop_last()).push(Seq::empty())
    } else {
        let t = split_commas(s.drop_last());
        t.update(t.len() - 1, t.last().push(s.last()))
    }
}

/// A decimal digit character.
pub open spec fn is_digit_char(c: char) -> bool {
    c == '0' || c == '1' || c == '2' || c == '3' || c == '4' || c == '5' || c == '6' || c == '7'
        || c == '8' || c == '9'
}

/// The value of a decimal digit character (zero on any other character).
pub open spec fn digit_char_val(c: char) -> nat {
    if c == '0' {
        0
    } else if c == '1' {
        1
    } else if c == '2' {
        2
    } else if c == '3' {
        3
    } else if c == '4' {
        4
    } else if c == '5' {
        5
    } else if c == '6' {
        6
    } else if c == '7' {
        7
    } else if c == '8' {
        8
    } else if c == '9' {
        9
    } else {
        0
    }
}

/// The decimal value of a token, read left to right.  A leading plus sign,
/// like any other non-digit, counts as zero, so on a well-formed token this
/// is the value of its digits.
pub open spec fn token_value(t: Seq<char>) -> nat
    decreases t.len(),
{
    if t.len() == 0 {
        0
    } else {
        token_value(t.drop_last()) * 10 + digit_char_val(t.last())
    }
}

/// How many characters of the token follow its optional leading plus sign.
pub open spec fn token_digit_len(t: Seq<char>) -> int {
    if t.len() > 0 && t[0] == '+' {
        t.len() - 1
    } else {
        t.len() as int
    }
}

/// A token that no extension can make valid: it holds a character that is
/// neither a digit nor a leading plus sign, or its value already exceeds 32
/// bits.
pub open spec fn token_doomed(t: Seq<char>) -> bool {
    (exists|i: int|
        0 <= i < t.len() && !is_digit_char(#[trigger] t[i]) && !(i == 0 && t[i] == '+'))
        || token_value(t) > u32::MAX
}

/// A token that parses: an optional leading plus sign, then at least one
/// digit, value within 32 bits.
pub open spec fn token_valid(t: Seq<char>) -> bool {
    token_digit_len(t) > 0 && !token_doomed(t)
}

/// The tokens that `parse_numbers` reads out of `s`.
pub open spec fn parsed_tokens(s: Seq<char>) -> Seq<Seq<char>> {
    split_commas(strip_brackets(strip_ws(s)))
}

/// Every token of `s` parses, so `parse_numbers` succeeds on `s`.
pub open spec fn all_tokens_valid(s: Seq<char>) -> bool {
    forall|k: int|
        0 <= k < parsed_tokens(s).len() ==> token_valid(#[trigger] parsed_tokens(s)[k])
}

/// Removing whitespace commutes with appending one character.
proof fn lemma_strip_ws_push(s: Seq<char>, c: char)
    ensures
        strip_ws(s.push(c)) == (if is_ws(c) {
            strip_ws(s)
        } else {
            strip_ws(s).push(c)
        }),
{
    reveal_with_fuel(Seq::filter, 2);
    assert(s.push(c).drop_last() =~= s);
    assert(s.push(c).last() == c);
}

/// Splitting yields at least one token.
proof fn lemma_split_commas_len(s: Seq<char>)
    ensures
        split_commas(s).len() >= 1,
    decreases s.len(),
{
    if s.len() > 0 {
        lemma_split_commas_len(s.drop_last());
    }
}

/// Splitting commutes with appending one character: a comma opens a new empty
/// token, anything else extends the last token.
proof fn lemma_split_commas_push(s: Seq<char>, c: char)
    ensures
        split_commas(s.push(c)) == (if c == ',' {
            split_commas(s).push(Seq::<char>::empty())
        } else {
            split_commas(s).update(
                split_commas(s).len() - 1,
                split_commas(s).last().push(c),
            )
        }),
{
    lemma_split_commas_len(s);
    assert(s.push(c).drop_last() =~= s);
    assert(s.push(c).last() == c);
}

/// How appending one character moves a token's value and its doom.  The one
/// character that is welcome without being a digit is a plus sign opening the
/// token.
proof fn lemma_token_push(t: Seq<char>, c: char)
    ensures
        token_value(t.push(c)) == token_value(t) * 10 + digit_char_val(c),
        token_doomed(t.push(c)) <==> (token_doomed(t) || (!is_digit_char(c) && !(t.len() == 0 && c
            == '+')) || token_value(t) * 10 + digit_char_val(c) > u32::MAX),
{
    assert(t.push(c).drop_last() =~= t);
    assert(t.push(c).last() == c);
    let p = t.push(c);
    if token_doomed(t) {
        if exists|i: int|
            0 <= i < t.len() && !is_digit_char(#[trigger] t[i]) && !(i == 0 && t[i] == '+') {
            let i = choose|i: int|
                0 <= i < t.len() && !is_digit_char(#[trigger] t[i]) && !(i == 0 && t[i] == '+');
            assert(p[i] == t[i]);
            assert(!is_digit_char(p[i]) && !(i == 0 && p[i] == '+'));
        } else {
            assert(token_value(t) > u32::MAX);
            assert(token_value(p) >= token_value(t));
        }
    }
    if !is_digit_char(c) && !(t.len() == 0 && c == '+') {
        let i = t.len() as int;
        assert(p[i] == c);
        assert(!is_digit_char(p[i]) && !(i == 0 && p[i] == '+'));
    }
    if token_doomed(p) && !token_doomed(t) && (is_digit_char(c) || (t.len() == 0 && c == '+')) {
        if exists|i: int|
            0 <= i < p.len() && !is_digit_char(#[trigger] p[i]) && !(i == 0 && p[i] == '+') {
            let i = choose|i: int|
                0 <= i < p.len() && !is_digit_char(#[trigger] p[i]) && !(i == 0 && p[i] == '+');
            if i < t.len() {
                assert(t[i] == p[i]);
                assert(false);
            } else {
                assert(p[i] == c);
                assert(false);
            }
        }
    }
}

/// The scan's running state agrees with the tokens of the consumed prefix:
/// one unfinished token at the end, every finished one already judged.
spec fn scan_state_ok(
    prefix: Seq<char>,
    result: Seq<u32>,
    acc: u64,
    tlen: usize,
    sign: bool,
    cur_ok: bool,
    all_ok: bool,
) -> bool {
    let toks = split_commas(prefix);
    &&& toks.len() == result.len() + 1
    &&& tlen as int == toks.last().len()
    &&& (sign <==> (toks.last().len() > 0 && toks.last()[0] == '+'))
    &&& (cur_ok <==> !token_doomed(toks.last()))
    &&& (cur_ok ==> acc as nat == token_value(toks.last()) && acc <= u32::MAX as u64)
    &&& (all_ok <==> (forall|k: int| 0 <= k < result.len() ==> token_valid(#[trigger] toks[k])))
    &&& (all_ok ==> (forall|k: int|
        0 <= k < result.len() ==> result[k] as nat == token_value(#[trigger] toks[k])))
}

/// Reads a comma-separated list of decimal numbers, optionally wrapped in
/// square brackets, ignoring whitespace.  Succeeds exactly when every token
/// is an optional leading plus sign followed by at least one digit, with a
/// value that fits in 32 bits, and then returns the tokens' values in order;
/// otherwise fails with `MalformedInput`.
pub fn parse_numbers(text: String) -> (r: Result<Vec<u32>, CodecError>)
    ensures
        (match r {
            Ok(ns) => all_tokens_valid(text@) && ns@.len() == parsed_tokens(text@).len() && (
            forall|k: int|
                0 <= k < ns@.len() ==> ns@[k] as nat == token_value(
                    #[trigger] parsed_tokens(text@)[k],
                )),
            Err(e) => e == CodecError::MalformedInput && !all_tokens_valid(text@),
        }),
{
    let s: &str = text.as_str();
    let n: usize = s.unicode_len();
    let mut cleaned: Vec<char> = Vec::new();
    let mut i: usize = 0;
    proof {
        assert(text@.subrange(0, 0) =~= Seq::<char>::empty());
        reveal_with_fuel(Seq::filter, 1);
        assert(strip_ws(Seq::<char>::empty()) =~= Seq::<char>::empty());
    }
    while i < n
        invariant
            i <= n,
            n == text@.len(),
            s@ == text@,
            cleaned@ == strip_ws(text@.subrange(0, i as int)),
        decreases n - i,
    {
        let c = s.get_char(i);
        proof {
            assert(text@.subrange(0, i as int + 1) =~= text@.subrange(0, i as int).push(
                text@[i as int],
            ));
            lemma_strip_ws_push(text@.subrange(0, i as int), text@[i as int]);
        }
        if !is_whitespace_char(c) {
            cleaned.push(c);
        }
        i = i + 1;
    }
    proof {
        assert(text@.subrange(0, n as int) =~= text@);
    }
    let ghost w = strip_ws(text@);
    let len_c = cleaned.len();
    let lo: usize = if len_c > 0 && cleaned[0] == '[' {
        1
    } else {
        0
    };
    let hi: usize = if len_c > lo && cleaned[len_c - 1] == ']' {
        len_c - 1
    } else {
        len_c
    };
    let ghost core = cleaned@.subrange(lo as int, hi as int);
    proof {
        assert(core =~= strip_brackets(w));
    }
    let mut result: Vec<u32> = Vec::new();
    let mut acc: u64 = 0;
    let mut tlen: usize = 0;
    let mut sign: bool = false;
    let mut cur_ok: bool = true;
    let mut all_ok: bool = true;
    let mut j: usize = lo;
    proof {
        assert(core.subrange(0, 0) =~= Seq::<char>::empty());
        assert(!token_doomed(Seq::<char>::empty()));
        assert(scan_state_ok(Seq::<char>::empty(), Seq::<u32>::empty(), 0, 0, false, true, true));
    }
    while j < hi
        invariant
            lo <= j <= hi <= cleaned@.len(),
            core == cleaned@.subrange(lo as int, hi as int),
            tlen <= j - lo,
            scan_state_ok(
                core.subrange(0, j as int - lo as int),
                result@,
                acc,
                tlen,
                sign,
                cur_ok,
                all_ok,
            ),
        decreases hi - j,
    {
        let c = cleaned[j];
        let ghost prefix = core.subrange(0, j as int - lo as int);
        let ghost toks = split_commas(prefix);
        proof {
            assert(core[j as int - lo as int] == c);
            assert(core.subrange(0, j as int - lo as int + 1) =~= prefix.push(c));
            lemma_split_commas_len(prefix);
            lemma_split_commas_push(prefix, c);
            lemma_token_push(toks.last(), c);
        }
        if c == ',' {
            let dcount = if sign {
                tlen - 1
            } else {
                tlen
            };
            let finished_valid = cur_ok && dcount > 0;
            if !finished_valid {
                all_ok = false;
            }
            let v: u32 = if cur_ok {
                acc as u32
            } else {
                0
            };
            result.push(v);
            acc = 0;
            tlen = 0;
            sign = false;
            cur_ok = true;
            proof {
                assert(finished_valid <==> token_valid(toks.last()));
                let toks2 = split_commas(prefix.push(c));
                assert(toks2 == toks.push(Seq::<char>::empty()));
                assert(toks2.last() =~= Seq::<char>::empty());
                assert(!token_doomed(Seq::<char>::empty()));
                assert(toks2[toks.len() - 1] == toks.last());
                assert forall|k: int| 0 <= k < result@.len() implies toks2[k] == toks[k] by {}
                if all_ok {
                    assert(finished_valid);
                    assert(token_valid(toks.last()));
                    assert forall|k: int|
                        0 <= k < result@.len() implies token_valid(#[trigger] toks2[k]) by {
                        if k < result@.len() - 1 {
                            assert(toks2[k] == toks[k]);
                        }
                    }
                    assert forall|k: int|
                        0 <= k < result@.len() implies result@[k] as nat == token_value(
                        #[trigger] toks2[k],
                    ) by {
                        if k < result@.len() - 1 {
                            assert(toks2[k] == toks[k]);
                        }
                    }
                } else {
                    if finished_valid {
                        assert(!(forall|k: int|
                            0 <= k < result@.len() - 1 ==> token_valid(#[trigger] toks[k])));
                        let k = choose|k: int|
                            0 <= k < result@.len() - 1 && !token_valid(#[trigger] toks[k]);
                        assert(toks2[k] == toks[k]);
                        assert(!token_valid(toks2[k]));
                    } else {
                        assert(!token_valid(toks2[result@.len() - 1]));
                    }
                }
                assert(scan_state_ok(prefix.push(c), result@, acc, tlen, sign, cur_ok, all_ok));
            }
        } else if c == '+' && tlen == 0 {
            sign = true;
            tlen = 1;
            proof {
                let toks2 = split_commas(prefix.push(c));
                assert(toks2 == toks.update(toks.len() - 1, toks.last().push(c)));
                assert(toks2.last() == toks.last().push(c));
                assert(toks.last() =~= Seq::<char>::empty());
                assert(toks2.last()[0] == '+');
                assert(!token_doomed(toks2.last()));
                assert(token_value(toks2.last()) == 0);
                assert forall|k: int| 0 <= k < result@.len() implies toks2[k] == toks[k] by {}
                assert((all_ok <==> (forall|k: int|
                    0 <= k < result@.len() ==> token_valid(#[trigger] toks2[k]))));
                assert(scan_state_ok(prefix.push(c), result@, acc, tlen, sign, cur_ok, all_ok));
            }
        } else {
            let is_dig = c == '0' || c == '1' || c == '2' || c == '3' || c == '4' || c == '5' || c
                == '6' || c == '7' || c == '8' || c == '9';
            let dval: u64 = if c == '0' {
                0
            } else if c == '1' {
                1
            } else if c == '2' {
                2
            } else if c == '3' {
                3
            } else if c == '4' {
                4
            } else if c == '5' {
                5
            } else if c == '6' {
                6
            } else if c == '7' {
                7
            } else if c == '8' {
                8
            } else if c == '9' {
                9
            } else {
                0
            };
            if is_dig {
                if cur_ok {
                    let next = acc * 10 + dval;
                    if next > u32::MAX as u64 {
                        cur_ok = false;
                    } else {
                        acc = next;
                    }
                }
            } else {
                cur_ok = false;
            }
            tlen = tlen + 1;
            proof {
                let toks2 = split_commas(prefix.push(c));
                assert(toks2 == toks.update(toks.len() - 1, toks.last().push(c)));
                assert(toks2.last() == toks.last().push(c));
                assert(toks2.len() == toks.len());
                assert(is_dig <==> is_digit_char(c));
                assert(dval as nat == digit_char_val(c));
                assert(!(toks.last().len() == 0 && c == '+'));
                assert(toks2.last().len() > 0);
                assert(toks2.last()[0] == (if toks.last().len() == 0 {
                    c
                } else {
                    toks.last()[0]
                }));
                assert(sign <==> toks2.last()[0] == '+');
                assert forall|k: int| 0 <= k < result@.len() implies toks2[k] == toks[k] by {}
                assert((all_ok <==> (forall|k: int|
                    0 <= k < result@.len() ==> token_valid(#[trigger] toks2[k]))));
                assert(scan_state_ok(prefix.push(c), result@, acc, tlen, sign, cur_ok, all_ok));
            }
        }
        j = j + 1;
    }
    let ghost toks = split_commas(core);
    proof {
        assert(core.subrange(0, hi as int - lo as int) =~= core);
        lemma_split_commas_len(core);
    }
    let dcount = if sign {
        tlen - 1
    } else {
        tlen
    };
    if all_ok && cur_ok && dcount > 0 {
        result.push(acc as u32);
        proof {
            assert(token_valid(toks.last()));
            assert forall|k: int| 0 <= k < toks.len() implies token_valid(#[trigger] toks[k]) by {
                if k < toks.len() - 1 {
                } else {
                    assert(toks[k] == toks.last());
                }
            }
            assert forall|k: int|
                0 <= k < result@.len() implies result@[k] as nat == token_value(
                #[trigger] toks[k],
            ) by {
                if k == result@.len() - 1 {
                    assert(toks[k] == toks.last());
                }
            }
        }
        Ok(result)
    } else {
        proof {
            if !all_ok {
                assert(!(forall|k: int|
                    0 <= k < result@.len() ==> token_valid(#[trigger] toks[k])));
                let k = choose|k: int| 0 <= k < result@.len() && !token_valid(#[trigger] toks[k]);
                assert(0 <= k < toks.len());
                assert(!token_valid(parsed_tokens(text@)[k]));
            } else {
                let k = toks.len() - 1;
                assert(toks[k] == toks.last());
                assert(!token_valid(toks[k]));
                assert(!token_valid(parsed_tokens(text@)[k]));
            }
        }
        Err(CodecError::MalformedInput)
    }
}

} // verus!
