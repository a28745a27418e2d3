//! The color resolver: a color body is either a comma-separated list of
//! 8-bit components (3 of them imply a fully opaque alpha) or one of a
//! fixed set of names. The two paths are mutually exclusive, decided by
//! the presence of the separator alone.

use vstd::prelude::*;

use crate::chars::all_digits;
use crate::chars::dec_value;
use crate::chars::digit_val;
use crate::chars::find_char;
use crate::chars::is_digit;
use crate::chars::lemma_dec_value_monotone;
use crate::chars::lemma_find_char_at;
use crate::chars::lemma_find_char_props;
use crate::chars::str_eq;
use crate::token::Rgba;
use crate::token::ScanError;
use crate::token::spec_white;

verus! {

/// The pieces of `body` from `i` on, split at every comma.
pub open spec fn spec_split(body: Seq<char>, i: int) -> Seq<Seq<char>>
    decreases body.len() - i
        when 0 <= i <= body.len()
        via spec_split_dec
{
    let e = find_char(body, i, ',');
    if e >= body.len() {
        seq![body.subrange(i, body.len() as int)]
    } else {
        seq![body.subrange(i, e)] + spec_split(body, e + 1)
    }
}

#[via_fn]
proof fn spec_split_dec(body: Seq<char>, i: int) {
    lemma_find_char_props(body, i, ',');
}

/// A decimal run that fits in one unsigned byte.
pub open spec fn valid_u8(s: Seq<char>) -> bool {
    s.len() > 0 && all_digits(s) && dec_value(s) <= 255
}

pub open spec fn comps_ok(comps: Seq<Seq<char>>) -> bool {
    forall|k: int| 0 <= k < comps.len() ==> valid_u8(#[trigger] comps[k])
}

/// What a color body resolves to: numeric components whenever a separator
/// is present, a name lookup otherwise.
pub open spec fn spec_resolve_color(body: Seq<char>) -> Result<Rgba, ScanError> {
    if body.contains(',') {
        let comps = spec_split(body, 0);
        if !comps_ok(comps) {
            Err(ScanError::InvalidColorComponent)
        } else if comps.len() == 3 {
            Ok(Rgba {
                r: dec_value(comps[0]) as u8,
                g: dec_value(comps[1]) as u8,
                b: dec_value(comps[2]) as u8,
                a: 255,
            })
        } else if comps.len() == 4 {
            Ok(Rgba {
                r: dec_value(comps[0]) as u8,
                g: dec_value(comps[1]) as u8,
                b: dec_value(comps[2]) as u8,
                a: dec_value(comps[3]) as u8,
            })
        } else {
            Err(ScanError::WrongColorComponentCount)
        }
    } else {
        if body == "reset"@ {
            Ok(spec_white())
        } else if body == "red"@ {
            Ok(Rgba { r: 255, g: 0, b: 0, a: 255 })
        } else if body == "green"@ {
            Ok(Rgba { r: 0, g: 255, b: 0, a: 255 })
        } else if body == "blue"@ {
            Ok(Rgba { r: 0, g: 0, b: 255, a: 255 })
        } else {
            Err(ScanError::InvalidColorName)
        }
    }
}

/// One component of a numeric color body: the digits of
/// `body@.subrange(from, to)` as an 8-bit value.
fn parse_u8_component(body: &str, from: usize, to: usize) -> (r: Result<u8, ScanError>)
    requires
        from <= to <= body@.len(),
    ensures
        match r {
            Ok(v) => valid_u8(body@.subrange(from as int, to as int))
                && v == dec_value(body@.subrange(from as int, to as int)),
            Err(e) => !valid_u8(body@.subrange(from as int, to as int))
                && e == ScanError::InvalidColorComponent,
        },
{
    let ghost sub = body@.subrange(from as int, to as int);
    if from == to {
        return Err(ScanError::InvalidColorComponent);
    }
    let mut acc: u32 = 0;
    let mut k: usize = from;
    while k < to
        invariant
            from <= k <= to <= body@.len(),
            sub == body@.subrange(from as int, to as int),
            acc == dec_value(sub.take(k - from)),
            acc <= 255,
            all_digits(sub.take(k - from)),
        decreases to - k,
    {
        let c = body.get_char(k);
        let u = c as u32;
        proof {
            assert(sub[k - from] == body@[k as int]);
        }
        if u < 48 || u > 57 {
            proof {
                assert(!is_digit(sub[k - from]));
                assert(!all_digits(sub));
            }
            return Err(ScanError::InvalidColorComponent);
        }
        let d = u - 48;
        proof {
            assert(sub.take(k - from + 1).drop_last() =~= sub.take(k - from));
            assert(sub.take(k - from + 1).last() == sub[k - from]);
            assert(digit_val(sub[k - from]) == d);
        }
        acc = acc * 10 + d;
        k += 1;
        if acc > 255 {
            proof {
                if all_digits(sub) {
                    lemma_dec_value_monotone(sub, k - from);
                }
            }
            return Err(ScanError::InvalidColorComponent);
        }
    }
    proof {
        assert(sub.take(to - from) =~= sub);
    }
    Ok(acc as u8)
}

/// Resolves a color body. Numeric bodies always win over name lookup when
/// a separator is present; without one the body must be a recognized name.
pub fn parse_color(body: &str) -> (r: Result<Rgba, ScanError>)
    ensures
        r == spec_resolve_color(body@),
{
    let n = body.unicode_len();
    let mut has_sep = false;
    let mut i: usize = 0;
    while i < n
        invariant
            n == body@.len(),
            0 <= i <= n,
            has_sep <==> exists|k: int| 0 <= k < i && body@[k] == ',',
        decreases n - i,
    {
        if body.get_char(i) == ',' {
            has_sep = true;
        }
        i += 1;
    }
    proof {
        assert(has_sep == body@.contains(','));
    }
    if has_sep {
        let mut comps: Vec<u8> = Vec::new();
        let ghost mut segs: Seq<Seq<char>> = Seq::empty();
        let mut start: usize = 0;
        loop
            invariant_except_break
                spec_split(body@, 0) == segs + spec_split(body@, start as int),
            invariant
                n == body@.len(),
                0 <= start <= n,
                body@.contains(','),
                comps@.len() == segs.len(),
                forall|k: int| 0 <= k < segs.len()
                    ==> valid_u8(#[trigger] segs[k]) && comps@[k] == dec_value(segs[k]),
            ensures
                segs == spec_split(body@, 0),
            decreases n + 1 - start,
        {
            let mut j = start;
            while j < n && body.get_char(j) != ','
                invariant
                    n == body@.len(),
                    start <= j <= n,
                    forall|k: int| start <= k < j ==> body@[k] != ',',
                decreases n - j,
            {
                j += 1;
            }
            proof {
                lemma_find_char_at(body@, start as int, j as int, ',');
            }
            match parse_u8_component(body, start, j) {
                Err(e) => {
                    proof {
                        let rest = spec_split(body@, start as int);
                        assert(rest.len() >= 1);
                        assert(rest[0] == body@.subrange(start as int, j as int));
                        let comps0 = spec_split(body@, 0);
                        assert(comps0.len() == segs.len() + rest.len());
                        assert(comps0[segs.len() as int] == rest[0]);
                        assert(!comps_ok(comps0));
                    }
                    return Err(e);
                },
                Ok(v) => {
                    comps.push(v);
                    proof {
                        segs = segs.push(body@.subrange(start as int, j as int));
                    }
                },
            }
            if j < n {
                proof {
                    let rest = spec_split(body@, start as int);
                    assert(rest =~= seq![body@.subrange(start as int, j as int)]
                        + spec_split(body@, j + 1));
                    assert(segs + spec_split(body@, j + 1) =~= spec_split(body@, 0));
                }
                start = j + 1;
            } else {
                proof {
                    let rest = spec_split(body@, start as int);
                    assert(rest =~= seq![body@.subrange(start as int, n as int)]);
                    assert(segs =~= spec_split(body@, 0));
                }
                break;
            }
        }
        proof {
            assert(comps_ok(spec_split(body@, 0)));
        }
        if comps.len() == 3 {
            Ok(Rgba { r: comps[0], g: comps[1], b: comps[2], a: 255 })
        } else if comps.len() == 4 {
            Ok(Rgba { r: comps[0], g: comps[1], b: comps[2], a: comps[3] })
        } else {
            Err(ScanError::WrongColorComponentCount)
        }
    } else {
        if str_eq(body, "reset") {
            Ok(Rgba { r: 255, g: 255, b: 255, a: 255 })
        } else if str_eq(body, "red") {
            Ok(Rgba { r: 255, g: 0, b: 0, a: 255 })
        } else if str_eq(body, "green") {
            Ok(Rgba { r: 0, g: 255, b: 0, a: 255 })
        } else if str_eq(body, "blue") {
            Ok(Rgba { r: 0, g: 0, b: 255, a: 255 })
        } else {
            Err(ScanError::InvalidColorName)
        }
    }
}

} // verus!
