//! The markup scanner. One pass with one character of lookahead: the escape
//! character introduces a command only when a recognized command letter
//! follows; the letter commits the scanner, which then consumes one
//! separator character and reads the body up to the next escape character
//! (or end of input). Anything else is a plain character token.

use vstd::prelude::*;

use crate::chars::all_digits;
use crate::chars::dec_value;
use crate::chars::digit_val;
use crate::chars::find_char;
use crate::chars::is_digit;
use crate::chars::lemma_dec_value_monotone;
use crate::chars::lemma_find_char_at;
use crate::chars::lemma_find_char_props;
use crate::color::parse_color;
use crate::color::spec_resolve_color;
use crate::token::BiOSToken;
use crate::token::ScanError;
use crate::token::TokView;
use crate::token::lemma_toks_view_push;
use crate::token::toks_view;

verus! {

/// The escape character that both introduces and terminates a command.
pub const ESCAPE_CHAR: char = '\u{a7}';

/// The letters that commit the scanner to a command.
pub open spec fn is_command_letter(c: char) -> bool {
    c == 'c' || c == 'p' || c == 'i'
}

/// Where a command body begins: after the escape character, the command
/// letter and one separator character (clipped to the end of input).
pub open spec fn spec_body_start(s: Seq<char>, i: int) -> int {
    if i + 3 <= s.len() {
        i + 3
    } else {
        s.len() as int
    }
}

/// A pause body: a decimal non-negative integer that fits the machine word.
pub open spec fn valid_pause(s: Seq<char>) -> bool {
    s.len() > 0 && all_digits(s) && dec_value(s) <= usize::MAX
}

pub open spec fn spec_parse_pause(s: Seq<char>) -> Result<usize, ScanError> {
    if valid_pause(s) {
        Ok(dec_value(s) as usize)
    } else {
        Err(ScanError::InvalidPauseCount)
    }
}

/// Prepends already-scanned tokens to the outcome of scanning the rest.
pub open spec fn scan_combine(
    pre: Seq<TokView>,
    rest: Result<Seq<TokView>, ScanError>,
) -> Result<Seq<TokView>, ScanError> {
    match rest {
        Ok(ts) => Ok(pre + ts),
        Err(e) => Err(e),
    }
}

/// The token sequence (or the first fatal error) of the input from
/// position `i` on.
pub open spec fn spec_scan_from(s: Seq<char>, i: int) -> Result<Seq<TokView>, ScanError>
    decreases s.len() - i
        when 0 <= i <= s.len()
        via spec_scan_dec
{
    if i >= s.len() {
        Ok(Seq::empty())
    } else if s[i] == ESCAPE_CHAR && i + 1 < s.len() && is_command_letter(s[i + 1]) {
        let b = spec_body_start(s, i);
        let e = find_char(s, b, ESCAPE_CHAR);
        let body = s.subrange(b, e);
        let next = if e < s.len() { e + 1 } else { e };
        let rest = spec_scan_from(s, next);
        if s[i + 1] == 'c' {
            match spec_resolve_color(body) {
                Ok(col) => scan_combine(seq![TokView::ColorStart(col)], rest),
                Err(err) => Err(err),
            }
        } else if s[i + 1] == 'p' {
            match spec_parse_pause(body) {
                Ok(n) => scan_combine(seq![TokView::Pause(n)], rest),
                Err(err) => Err(err),
            }
        } else {
            scan_combine(seq![TokView::Instant(body)], rest)
        }
    } else if s[i] == '\n' {
        scan_combine(seq![TokView::Newline], spec_scan_from(s, i + 1))
    } else {
        scan_combine(seq![TokView::Char(s[i])], spec_scan_from(s, i + 1))
    }
}

#[via_fn]
proof fn spec_scan_dec(s: Seq<char>, i: int) {
    if 0 <= i && i < s.len() && s[i] == ESCAPE_CHAR && i + 1 < s.len()
        && is_command_letter(s[i + 1]) {
        lemma_find_char_props(s, spec_body_start(s, i), ESCAPE_CHAR);
    }
}

proof fn lemma_combine_empty(r: Result<Seq<TokView>, ScanError>)
    ensures
        scan_combine(Seq::empty(), r) == r,
{
    match r {
        Ok(ts) => {
            assert(Seq::empty() + ts =~= ts);
        },
        Err(_) => {},
    }
}

proof fn lemma_combine_push(pre: Seq<TokView>, t: TokView, r: Result<Seq<TokView>, ScanError>)
    ensures
        scan_combine(pre.push(t), r) == scan_combine(pre, scan_combine(seq![t], r)),
{
    match r {
        Ok(ts) => {
            assert(pre.push(t) + ts =~= pre + (seq![t] + ts));
        },
        Err(_) => {},
    }
}

/// Reads characters from `from` up to the next escape character (or end of
/// input) and returns them together with the position right after the
/// terminator.
pub fn parse_str(text: &str, from: usize) -> (r: (String, usize))
    requires
        from as int <= text@.len(),
    ensures
        ({
            let e = find_char(text@, from as int, ESCAPE_CHAR);
            r.0@ == text@.subrange(from as int, e)
                && r.1 == (if e < text@.len() { e + 1 } else { e })
                && r.1 <= text@.len()
        }),
{
    let n = text.unicode_len();
    let mut j = from;
    while j < n && text.get_char(j) != ESCAPE_CHAR
        invariant
            n == text@.len(),
            from <= j <= n,
            forall|k: int| from <= k < j ==> text@[k] != ESCAPE_CHAR,
        decreases n - j,
    {
        j += 1;
    }
    proof {
        lemma_find_char_at(text@, from as int, j as int, ESCAPE_CHAR);
    }
    let body = text.substring_char(from, j).to_owned();
    let next = if j < n {
        j + 1
    } else {
        j
    };
    (body, next)
}

/// Parses a pause body: the decimal value of the digits, or the error that
/// says a non-negative frame count was expected.
pub fn parse_usize(body: &str) -> (r: Result<usize, ScanError>)
    ensures
        r == spec_parse_pause(body@),
{
    let n = body.unicode_len();
    if n == 0 {
        return Err(ScanError::InvalidPauseCount);
    }
    let mut acc: usize = 0;
    let mut k: usize = 0;
    while k < n
        invariant
            n == body@.len(),
            0 <= k <= n,
            acc == dec_value(body@.take(k as int)),
            all_digits(body@.take(k as int)),
        decreases n - k,
    {
        let c = body.get_char(k);
        let u = c as u32;
        if u < 48 || u > 57 {
            proof {
                assert(!is_digit(body@[k as int]));
                assert(!all_digits(body@));
            }
            return Err(ScanError::InvalidPauseCount);
        }
        let d = (u - 48) as usize;
        proof {
            assert(body@.take(k + 1).drop_last() =~= body@.take(k as int));
            assert(body@.take(k + 1).last() == body@[k as int]);
            assert(digit_val(body@[k as int]) == d);
        }
        let m = match acc.checked_mul(10) {
            Some(m) => m,
            None => {
                proof {
                    if all_digits(body@) {
                        lemma_dec_value_monotone(body@, k + 1);
                    }
                }
                return Err(ScanError::InvalidPauseCount);
            },
        };
        acc = match m.checked_add(d) {
            Some(v) => v,
            None => {
                proof {
                    if all_digits(body@) {
                        lemma_dec_value_monotone(body@, k + 1);
                    }
                }
                return Err(ScanError::InvalidPauseCount);
            },
        };
        k += 1;
    }
    proof {
        assert(body@.take(n as int) =~= body@);
    }
    Ok(acc)
}

/// Scans a whole markup string into its token sequence, or stops at the
/// first fatal error. Total: every input either scans or names its error.
pub fn parse_bios_string(bios_string: &str) -> (r: Result<Vec<BiOSToken>, ScanError>)
    ensures
        spec_scan_from(bios_string@, 0) == (match r {
            Ok(ts) => Ok::<Seq<TokView>, ScanError>(toks_view(ts@)),
            Err(e) => Err(e),
        }),
{
    let n = bios_string.unicode_len();
    let mut tokens: Vec<BiOSToken> = Vec::new();
    let mut i: usize = 0;
    proof {
        lemma_combine_empty(spec_scan_from(bios_string@, 0));
        assert(toks_view(tokens@) =~= Seq::<TokView>::empty());
    }
    while i < n
        invariant
            n == bios_string@.len(),
            0 <= i <= n,
            scan_combine(toks_view(tokens@), spec_scan_from(bios_string@, i as int))
                == spec_scan_from(bios_string@, 0),
        decreases n - i,
    {
        let ghost s = bios_string@;
        let c = bios_string.get_char(i);
        if c == ESCAPE_CHAR && i + 1 < n {
            let letter = bios_string.get_char(i + 1);
            if letter == 'c' || letter == 'p' || letter == 'i' {
                let body_start = if n - i >= 3 {
                    i + 3
                } else {
                    n
                };
                proof {
                    assert(body_start == spec_body_start(s, i as int));
                }
                let (body, next) = parse_str(bios_string, body_start);
                let ghost e = find_char(s, body_start as int, ESCAPE_CHAR);
                let ghost rest = spec_scan_from(s, next as int);
                proof {
                    lemma_find_char_props(s, body_start as int, ESCAPE_CHAR);
                    assert(next > i);
                }
                let tok: BiOSToken;
                if letter == 'c' {
                    match parse_color(body.as_str()) {
                        Ok(col) => {
                            tok = BiOSToken::ColorStart(col);
                        },
                        Err(err) => {
                            proof {
                                assert(spec_scan_from(s, i as int) == Err::<Seq<TokView>, ScanError>(err));
                            }
                            return Err(err);
                        },
                    }
                } else if letter == 'p' {
                    match parse_usize(body.as_str()) {
                        Ok(count) => {
                            tok = BiOSToken::Pause(count);
                        },
                        Err(err) => {
                            proof {
                                assert(spec_scan_from(s, i as int) == Err::<Seq<TokView>, ScanError>(err));
                            }
                            return Err(err);
                        },
                    }
                } else {
                    tok = BiOSToken::Instant(body);
                }
                proof {
                    assert(spec_scan_from(s, i as int) == scan_combine(seq![tok@], rest));
                    lemma_combine_push(toks_view(tokens@), tok@, rest);
                    lemma_toks_view_push(tokens@, tok);
                }
                tokens.push(tok);
                i = next;
            } else {
                proof {
                    assert(spec_scan_from(s, i as int)
                        == scan_combine(seq![TokView::Char(s[i as int])], spec_scan_from(s, i + 1)));
                    lemma_combine_push(toks_view(tokens@), TokView::Char(c), spec_scan_from(s, i + 1));
                    lemma_toks_view_push(tokens@, BiOSToken::Char(c));
                }
                tokens.push(BiOSToken::Char(c));
                i += 1;
            }
        } else if c == '\n' {
            proof {
                assert(spec_scan_from(s, i as int)
                    == scan_combine(seq![TokView::Newline], spec_scan_from(s, i + 1)));
                lemma_combine_push(toks_view(tokens@), TokView::Newline, spec_scan_from(s, i + 1));
                lemma_toks_view_push(tokens@, BiOSToken::Newline);
            }
            tokens.push(BiOSToken::Newline);
            i += 1;
        } else {
            proof {
                assert(spec_scan_from(s, i as int)
                    == scan_combine(seq![TokView::Char(s[i as int])], spec_scan_from(s, i + 1)));
                lemma_combine_push(toks_view(tokens@), TokView::Char(c), spec_scan_from(s, i + 1));
                lemma_toks_view_push(tokens@, BiOSToken::Char(c));
            }
            tokens.push(BiOSToken::Char(c));
            i += 1;
        }
    }
    proof {
        assert(toks_view(tokens@) + Seq::<TokView>::empty() =~= toks_view(tokens@));
    }
    Ok(tokens)
}

/// Scanning is deterministic: one input admits exactly one token sequence.
pub proof fn lemma_scan_deterministic(s: Seq<char>, t1: Seq<TokView>, t2: Seq<TokView>)
    requires
        spec_scan_from(s, 0) == Ok::<Seq<TokView>, ScanError>(t1),
        spec_scan_from(s, 0) == Ok::<Seq<TokView>, ScanError>(t2),
    ensures
        t1 == t2,
{
}

/// An instant command round-trips: the body between the separator and the
/// terminator becomes exactly one `Instant` token holding it verbatim, and
/// is never re-scanned for commands, whatever characters it holds.
pub proof fn lemma_instant_round_trip(body: Seq<char>, sep: char)
    requires
        !body.contains(ESCAPE_CHAR),
    ensures
        spec_scan_from(seq![ESCAPE_CHAR, 'i', sep] + body + seq![ESCAPE_CHAR], 0)
            == Ok::<Seq<TokView>, ScanError>(seq![TokView::Instant(body)]),
{
    let s = seq![ESCAPE_CHAR, 'i', sep] + body + seq![ESCAPE_CHAR];
    assert(s.len() == body.len() + 4);
    assert(s[0] == ESCAPE_CHAR);
    assert(s[1] == 'i');
    assert(spec_body_start(s, 0) == 3);
    assert forall|k: int| 3 <= k < 3 + body.len() implies s[k] != ESCAPE_CHAR by {
        assert(s[k] == body[k - 3]);
        if s[k] == ESCAPE_CHAR {
            assert(body.contains(ESCAPE_CHAR));
        }
    }
    assert(s[3 + body.len() as int] == ESCAPE_CHAR);
    lemma_find_char_at(s, 3, 3 + body.len() as int, ESCAPE_CHAR);
    let e = 3 + body.len() as int;
    assert(s.subrange(3, e) =~= body);
    assert(spec_scan_from(s, e + 1) == Ok::<Seq<TokView>, ScanError>(Seq::empty()));
    assert(seq![TokView::Instant(body)] + Seq::<TokView>::empty() =~= seq![TokView::Instant(body)]);
}

} // verus!
