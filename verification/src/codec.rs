//! Reading and writing the aggregate in a small self-describing text
//! format.
//!
//! The grammar is a record of four named fields:
//!
//! ```text
//! (points:[(-100,100),(100,100)],tuesdays:[],background:"bg.png",size:(8192,8192))
//! ```
//!
//! Whitespace may appear before any token; a pretty variant writes the
//! record with one field per line.  Numbers are decimal integers
//! within the coordinate limit; strings carry printable bytes without
//! quotes or backslashes.  The derived curve is never written: it is
//! rebuilt on load.
//!
//! The parser below is given twice: once as spec functions that define
//! the grammar, and once as executable code proved to return exactly
//! what the spec functions say.  Serialization is specified the same
//! way, and a round-trip lemma connects the two.

use crate::editor::{CurveMap, path_byte_ok, path_ok};
use crate::geom::Point;
use vstd::prelude::*;

verus! {

/// Why a load failed: the bytes do not match the grammar, a value
/// does not fit its field, or the decoded polygon cannot form a
/// curve.
#[derive(Clone, Copy, Debug, PartialEq, Eq, Structural)]
pub enum LoadMapError {
    MalformedEncoding,
    SchemaTypeMismatch,
    GeometricallyInvalid,
}

/// Outcome of a spec-level parse step: a value with the position after
/// it, a grammar mismatch, or a value out of range.
pub enum PStep<T> {
    Found(T, int),
    Mismatch,
    OutOfRange,
}

/// The persisted fields of an aggregate, as mathematical values.
#[verifier::ext_equal]
pub struct MapFields {
    pub points: Seq<Point>,
    pub tuesdays: Seq<Point>,
    pub background: Seq<u8>,
    pub size: Point,
}

/// Whitespace accepted between tokens.
pub open spec fn is_ws(b: u8) -> bool {
    b == 32 || b == 9 || b == 10 || b == 13
}

/// Decimal digit.
pub open spec fn is_digit(b: u8) -> bool {
    48 <= b <= 57
}

/// First position at or after `i` that does not hold whitespace.
pub open spec fn sp_skip_ws(s: Seq<u8>, i: int) -> int
    decreases s.len() - i,
{
    if 0 <= i < s.len() && is_ws(s[i]) {
        sp_skip_ws(s, i + 1)
    } else {
        i
    }
}

/// One expected byte, after whitespace.
pub open spec fn sp_lit(s: Seq<u8>, i: int, c: u8) -> PStep<()> {
    let j = sp_skip_ws(s, i);
    if j < s.len() && s[j] == c {
        PStep::Found((), j + 1)
    } else {
        PStep::Mismatch
    }
}

/// The bytes of `kw` verbatim, starting exactly at `i`.
pub open spec fn sp_kw_at(s: Seq<u8>, i: int, kw: Seq<u8>) -> PStep<()>
    decreases kw.len(),
{
    if kw.len() == 0 {
        PStep::Found((), i)
    } else if 0 <= i < s.len() && s[i] == kw[0] {
        sp_kw_at(s, i + 1, kw.subrange(1, kw.len() as int))
    } else {
        PStep::Mismatch
    }
}

/// A keyword, after whitespace.
pub open spec fn sp_kw(s: Seq<u8>, i: int, kw: Seq<u8>) -> PStep<()> {
    sp_kw_at(s, sp_skip_ws(s, i), kw)
}

/// Digits folded left onto `acc`; stops at the first non-digit.  A
/// value beyond the coordinate limit is out of range.
pub open spec fn sp_digits(s: Seq<u8>, i: int, acc: int) -> PStep<int>
    decreases s.len() - i,
{
    if 0 <= i < s.len() && is_digit(s[i]) {
        let acc2 = acc * 10 + (s[i] - 48);
        if acc2 > 0x80000 {
            PStep::OutOfRange
        } else {
            sp_digits(s, i + 1, acc2)
        }
    } else {
        PStep::Found(acc, i)
    }
}

/// A decimal integer with optional minus sign, after whitespace; at
/// least one digit is required.
pub open spec fn sp_int(s: Seq<u8>, i: int) -> PStep<int> {
    let j = sp_skip_ws(s, i);
    if j < s.len() && s[j] == 45 {
        if j + 1 < s.len() && is_digit(s[j + 1]) {
            match sp_digits(s, j + 1, 0) {
                PStep::Found(v, k) => PStep::Found(-v, k),
                PStep::Mismatch => PStep::Mismatch,
                PStep::OutOfRange => PStep::OutOfRange,
            }
        } else {
            PStep::Mismatch
        }
    } else if j < s.len() && is_digit(s[j]) {
        sp_digits(s, j, 0)
    } else {
        PStep::Mismatch
    }
}

/// A point: two integers in parentheses.
pub open spec fn sp_point(s: Seq<u8>, i: int) -> PStep<Point> {
    match sp_lit(s, i, 40) {
        PStep::Found(_, i1) => match sp_int(s, i1) {
            PStep::Found(x, i2) => match sp_lit(s, i2, 44) {
                PStep::Found(_, i3) => match sp_int(s, i3) {
                    PStep::Found(y, i4) => match sp_lit(s, i4, 41) {
                        PStep::Found(_, i5) => PStep::Found(
                            Point { x: x as i64, y: y as i64 },
                            i5,
                        ),
                        PStep::Mismatch => PStep::Mismatch,
                        PStep::OutOfRange => PStep::OutOfRange,
                    },
                    PStep::Mismatch => PStep::Mismatch,
                    PStep::OutOfRange => PStep::OutOfRange,
                },
                PStep::Mismatch => PStep::Mismatch,
                PStep::OutOfRange => PStep::OutOfRange,
            },
            PStep::Mismatch => PStep::Mismatch,
            PStep::OutOfRange => PStep::OutOfRange,
        },
        PStep::Mismatch => PStep::Mismatch,
        PStep::OutOfRange => PStep::OutOfRange,
    }
}

/// Further list elements, each preceded by a comma, until the closing
/// bracket.  A list longer than the point limit is out of range.
pub open spec fn sp_more_points(s: Seq<u8>, i: int, acc: Seq<Point>) -> PStep<Seq<Point>>
    decreases s.len() - i,
{
    let j = sp_skip_ws(s, i);
    if j < s.len() && s[j] == 93 {
        PStep::Found(acc, j + 1)
    } else if j < s.len() && s[j] == 44 {
        match sp_point(s, j + 1) {
            PStep::Found(p, k) => {
                if acc.len() + 1 > 0x100000 {
                    PStep::OutOfRange
                } else if i < k <= s.len() {
                    // a found point always advances the position, so
                    // this branch is the only reachable one; the test
                    // keeps the recursion visibly decreasing
                    sp_more_points(s, k, acc.push(p))
                } else {
                    PStep::Mismatch
                }
            },
            PStep::Mismatch => PStep::Mismatch,
            PStep::OutOfRange => PStep::OutOfRange,
        }
    } else {
        PStep::Mismatch
    }
}

/// A bracketed, comma-separated list of points.
pub open spec fn sp_point_list(s: Seq<u8>, i: int) -> PStep<Seq<Point>> {
    match sp_lit(s, i, 91) {
        PStep::Found(_, i1) => {
            let j = sp_skip_ws(s, i1);
            if j < s.len() && s[j] == 93 {
                PStep::Found(Seq::empty(), j + 1)
            } else {
                match sp_point(s, i1) {
                    PStep::Found(p, k) => {
                        if i1 < k <= s.len() {
                            sp_more_points(s, k, seq![p])
                        } else {
                            PStep::Mismatch
                        }
                    },
                    PStep::Mismatch => PStep::Mismatch,
                    PStep::OutOfRange => PStep::OutOfRange,
                }
            }
        },
        PStep::Mismatch => PStep::Mismatch,
        PStep::OutOfRange => PStep::OutOfRange,
    }
}

/// String content up to the closing quote; only path bytes may appear.
pub open spec fn sp_string_rest(s: Seq<u8>, i: int, acc: Seq<u8>) -> PStep<Seq<u8>>
    decreases s.len() - i,
{
    if 0 <= i < s.len() {
        if s[i] == 34 {
            PStep::Found(acc, i + 1)
        } else if path_byte_ok(s[i]) {
            sp_string_rest(s, i + 1, acc.push(s[i]))
        } else {
            PStep::Mismatch
        }
    } else {
        PStep::Mismatch
    }
}

/// A quoted string, after whitespace.
pub open spec fn sp_string(s: Seq<u8>, i: int) -> PStep<Seq<u8>> {
    let j = sp_skip_ws(s, i);
    if j < s.len() && s[j] == 34 {
        sp_string_rest(s, j + 1, Seq::empty())
    } else {
        PStep::Mismatch
    }
}

/// Bytes of the field name `points`.
pub open spec fn kw_points() -> Seq<u8> {
    seq![112u8, 111u8, 105u8, 110u8, 116u8, 115u8]
}

/// Bytes of the field name `tuesdays`.
pub open spec fn kw_tuesdays() -> Seq<u8> {
    seq![116u8, 117u8, 101u8, 115u8, 100u8, 97u8, 121u8, 115u8]
}

/// Bytes of the field name `background`.
pub open spec fn kw_background() -> Seq<u8> {
    seq![98u8, 97u8, 99u8, 107u8, 103u8, 114u8, 111u8, 117u8, 110u8, 100u8]
}

/// Bytes of the field name `size`.
pub open spec fn kw_size() -> Seq<u8> {
    seq![115u8, 105u8, 122u8, 101u8]
}

/// The whole record, which must span the input to its end.
pub open spec fn sp_map(s: Seq<u8>) -> PStep<MapFields> {
    match sp_lit(s, 0, 40) {
        PStep::Found(_, i1) => match sp_kw(s, i1, kw_points()) {
            PStep::Found(_, i2) => match sp_lit(s, i2, 58) {
                PStep::Found(_, i3) => match sp_point_list(s, i3) {
                    PStep::Found(points, i4) => match sp_lit(s, i4, 44) {
                        PStep::Found(_, i5) => match sp_kw(s, i5, kw_tuesdays()) {
                            PStep::Found(_, i6) => match sp_lit(s, i6, 58) {
                                PStep::Found(_, i7) => match sp_point_list(s, i7) {
                                    PStep::Found(tuesdays, i8) => match sp_lit(s, i8, 44) {
                                        PStep::Found(_, i9) => match sp_kw(
                                            s,
                                            i9,
                                            kw_background(),
                                        ) {
                                            PStep::Found(_, i10) => match sp_lit(s, i10, 58) {
                                                PStep::Found(_, i11) => match sp_string(s, i11) {
                                                    PStep::Found(bg, i12) => match sp_lit(
                                                        s,
                                                        i12,
                                                        44,
                                                    ) {
                                                        PStep::Found(_, i13) => match sp_kw(
                                                            s,
                                                            i13,
                                                            kw_size(),
                                                        ) {
                                                            PStep::Found(_, i14) => match sp_lit(
                                                                s,
                                                                i14,
                                                                58,
                                                            ) {
                                                                PStep::Found(_, i15) => match sp_point(
                                                                    s,
                                                                    i15,
                                                                ) {
                                                                    PStep::Found(size, i16) => match sp_lit(
                                                                        s,
                                                                        i16,
                                                                        41,
                                                                    ) {
                                                                        PStep::Found(_, i17) => {
                                                                            if sp_skip_ws(s, i17)
                                                                                == s.len() {
                                                                                PStep::Found(
                                                                                    MapFields {
                                                                                        points,
                                                                                        tuesdays,
                                                                                        background: bg,
                                                                                        size,
                                                                                    },
                                                                                    s.len() as int,
                                                                                )
                                                                            } else {
                                                                                PStep::Mismatch
                                                                            }
                                                                        },
                                                                        PStep::Mismatch => PStep::Mismatch,
                                                                        PStep::OutOfRange => PStep::OutOfRange,
                                                                    },
                                                                    PStep::Mismatch => PStep::Mismatch,
                                                                    PStep::OutOfRange => PStep::OutOfRange,
                                                                },
                                                                PStep::Mismatch => PStep::Mismatch,
                                                                PStep::OutOfRange => PStep::OutOfRange,
                                                            },
                                                            PStep::Mismatch => PStep::Mismatch,
                                                            PStep::OutOfRange => PStep::OutOfRange,
                                                        },
                                                        PStep::Mismatch => PStep::Mismatch,
                                                        PStep::OutOfRange => PStep::OutOfRange,
                                                    },
                                                    PStep::Mismatch => PStep::Mismatch,
                                                    PStep::OutOfRange => PStep::OutOfRange,
                                                },
                                                PStep::Mismatch => PStep::Mismatch,
                                                PStep::OutOfRange => PStep::OutOfRange,
                                            },
                                            PStep::Mismatch => PStep::Mismatch,
                                            PStep::OutOfRange => PStep::OutOfRange,
                                        },
                                        PStep::Mismatch => PStep::Mismatch,
                                        PStep::OutOfRange => PStep::OutOfRange,
                                    },
                                    PStep::Mismatch => PStep::Mismatch,
                                    PStep::OutOfRange => PStep::OutOfRange,
                                },
                                PStep::Mismatch => PStep::Mismatch,
                                PStep::OutOfRange => PStep::OutOfRange,
                            },
                            PStep::Mismatch => PStep::Mismatch,
                            PStep::OutOfRange => PStep::OutOfRange,
                        },
                        PStep::Mismatch => PStep::Mismatch,
                        PStep::OutOfRange => PStep::OutOfRange,
                    },
                    PStep::Mismatch => PStep::Mismatch,
                    PStep::OutOfRange => PStep::OutOfRange,
                },
                PStep::Mismatch => PStep::Mismatch,
                PStep::OutOfRange => PStep::OutOfRange,
            },
            PStep::Mismatch => PStep::Mismatch,
            PStep::OutOfRange => PStep::OutOfRange,
        },
        PStep::Mismatch => PStep::Mismatch,
        PStep::OutOfRange => PStep::OutOfRange,
    }
}

/// Whitespace test on a byte.
fn ws_byte(b: u8) -> (r: bool)
    ensures
        r == is_ws(b),
{
    b == 32 || b == 9 || b == 10 || b == 13
}

/// Digit test on a byte.
fn digit_byte(b: u8) -> (r: bool)
    ensures
        r == is_digit(b),
{
    48 <= b && b <= 57
}

/// Path-byte test on a byte.
fn path_byte(b: u8) -> (r: bool)
    ensures
        r == path_byte_ok(b),
{
    32 <= b && b <= 126 && b != 34 && b != 92
}

/// The error a failed parse step carries matches the spec outcome.
pub open spec fn step_fails<T>(sp: PStep<T>, e: LoadMapError) -> bool {
    ||| e == LoadMapError::MalformedEncoding && sp is Mismatch
    ||| e == LoadMapError::SchemaTypeMismatch && sp is OutOfRange
}

/// Executable whitespace skip; returns what [`sp_skip_ws`] says.
fn x_skip_ws(s: &Vec<u8>, i: usize) -> (r: usize)
    requires
        i <= s@.len(),
    ensures
        r == sp_skip_ws(s@, i as int),
        i <= r <= s@.len(),
{
    let mut j = i;
    loop
        invariant_except_break
            i <= j <= s@.len(),
            sp_skip_ws(s@, i as int) == sp_skip_ws(s@, j as int),
        ensures
            i <= j <= s@.len(),
            j == sp_skip_ws(s@, i as int),
        decreases s@.len() - j,
    {
        if j < s.len() {
            if ws_byte(s[j]) {
                j = j + 1;
            } else {
                break;
            }
        } else {
            break;
        }
    }
    j
}

/// Executable literal match; classifies exactly as [`sp_lit`].
fn x_lit(s: &Vec<u8>, i: usize, c: u8) -> (r: Result<usize, LoadMapError>)
    requires
        i <= s@.len(),
    ensures
        r is Ok ==> sp_lit(s@, i as int, c) == PStep::Found((), r->Ok_0 as int) && i < r->Ok_0
            <= s@.len(),
        r is Err ==> step_fails(sp_lit(s@, i as int, c), r->Err_0),
{
    let j = x_skip_ws(s, i);
    if j < s.len() && s[j] == c {
        Ok(j + 1)
    } else {
        Err(LoadMapError::MalformedEncoding)
    }
}

/// Executable keyword match; classifies exactly as [`sp_kw`].
fn x_kw(s: &Vec<u8>, i: usize, kw: &Vec<u8>) -> (r: Result<usize, LoadMapError>)
    requires
        i <= s@.len(),
    ensures
        r is Ok ==> sp_kw(s@, i as int, kw@) == PStep::Found((), r->Ok_0 as int) && i <= r->Ok_0
            <= s@.len(),
        r is Err ==> step_fails(sp_kw(s@, i as int, kw@), r->Err_0),
{
    let j0 = x_skip_ws(s, i);
    let mut j = j0;
    let mut k: usize = 0;
    let n = kw.len();
    proof {
        assert(kw@.subrange(0, n as int) =~= kw@);
    }
    loop
        invariant_except_break
            0 <= k <= n,
            n == kw@.len(),
            j0 <= j <= s@.len(),
            j - j0 == k,
            sp_kw_at(s@, j0 as int, kw@) == sp_kw_at(s@, j as int, kw@.subrange(k as int, n as int)),
        ensures
            0 <= k <= n,
            n == kw@.len(),
            j0 <= j <= s@.len(),
            sp_kw_at(s@, j0 as int, kw@) == sp_kw_at(s@, j as int, kw@.subrange(k as int, n as int)),
            k == n || (sp_kw_at(s@, j0 as int, kw@) is Mismatch),
        decreases n - k,
    {
        if k == n {
            break;
        }
        proof {
            let rest = kw@.subrange(k as int, n as int);
            assert(rest.len() > 0);
            assert(rest[0] == kw@[k as int]);
        }
        if j < s.len() && s[j] == kw[k] {
            proof {
                let rest = kw@.subrange(k as int, n as int);
                assert(rest.subrange(1, rest.len() as int) =~= kw@.subrange(
                    k + 1 as int,
                    n as int,
                ));
            }
            j = j + 1;
            k = k + 1;
        } else {
            break;
        }
    }
    if k == n {
        proof {
            assert(kw@.subrange(n as int, n as int) =~= Seq::<u8>::empty());
        }
        Ok(j)
    } else {
        Err(LoadMapError::MalformedEncoding)
    }
}

/// Executable digit fold; classifies exactly as [`sp_digits`].
fn x_digits(s: &Vec<u8>, i: usize, acc0: i64) -> (r: Result<(i64, usize), LoadMapError>)
    requires
        i <= s@.len(),
        0 <= acc0 <= 0x80000,
    ensures
        r is Ok ==> {
            let v = r->Ok_0.0;
            let j = r->Ok_0.1;
            &&& sp_digits(s@, i as int, acc0 as int) == PStep::Found(v as int, j as int)
            &&& i <= j <= s@.len()
            &&& 0 <= v <= 0x80000
            &&& (i < s@.len() && is_digit(s@[i as int]) ==> j > i)
        },
        r is Err ==> step_fails(sp_digits(s@, i as int, acc0 as int), r->Err_0),
{
    let mut acc = acc0;
    let mut j = i;
    loop
        invariant_except_break
            i <= j <= s@.len(),
            0 <= acc <= 0x80000,
            sp_digits(s@, i as int, acc0 as int) == sp_digits(s@, j as int, acc as int),
            j == i ==> acc == acc0,
        ensures
            i <= j <= s@.len(),
            0 <= acc <= 0x80000,
            sp_digits(s@, i as int, acc0 as int) == PStep::Found(acc as int, j as int),
            i < s@.len() && is_digit(s@[i as int]) ==> j > i,
        decreases s@.len() - j,
    {
        if j < s.len() {
            let b = s[j];
            if digit_byte(b) {
                let acc2 = acc * 10 + ((b - 48) as i64);
                if acc2 > 0x80000 {
                    return Err(LoadMapError::SchemaTypeMismatch);
                }
                acc = acc2;
                j = j + 1;
            } else {
                break;
            }
        } else {
            break;
        }
    }
    Ok((acc, j))
}

/// Executable integer parse; classifies exactly as [`sp_int`].
fn x_int(s: &Vec<u8>, i: usize) -> (r: Result<(i64, usize), LoadMapError>)
    requires
        i <= s@.len(),
    ensures
        r is Ok ==> {
            let v = r->Ok_0.0;
            let j = r->Ok_0.1;
            &&& sp_int(s@, i as int) == PStep::Found(v as int, j as int)
            &&& i < j <= s@.len()
            &&& -0x80000 <= v <= 0x80000
        },
        r is Err ==> step_fails(sp_int(s@, i as int), r->Err_0),
{
    let j = x_skip_ws(s, i);
    if j < s.len() && s[j] == 45 {
        if j + 1 < s.len() && digit_byte(s[j + 1]) {
            match x_digits(s, j + 1, 0) {
                Ok((v, k)) => Ok((-v, k)),
                Err(e) => Err(e),
            }
        } else {
            Err(LoadMapError::MalformedEncoding)
        }
    } else if j < s.len() && digit_byte(s[j]) {
        x_digits(s, j, 0)
    } else {
        Err(LoadMapError::MalformedEncoding)
    }
}

/// Executable point parse; classifies exactly as [`sp_point`].
fn x_point(s: &Vec<u8>, i: usize) -> (r: Result<(Point, usize), LoadMapError>)
    requires
        i <= s@.len(),
    ensures
        r is Ok ==> {
            let p = r->Ok_0.0;
            let j = r->Ok_0.1;
            &&& sp_point(s@, i as int) == PStep::Found(p, j as int)
            &&& i < j <= s@.len()
            &&& crate::geom::point_ok(p)
        },
        r is Err ==> step_fails(sp_point(s@, i as int), r->Err_0),
{
    let i1 = match x_lit(s, i, 40) {
        Ok(j) => j,
        Err(e) => {
            return Err(e);
        },
    };
    let (x, i2) = match x_int(s, i1) {
        Ok(v) => v,
        Err(e) => {
            return Err(e);
        },
    };
    let i3 = match x_lit(s, i2, 44) {
        Ok(j) => j,
        Err(e) => {
            return Err(e);
        },
    };
    let (y, i4) = match x_int(s, i3) {
        Ok(v) => v,
        Err(e) => {
            return Err(e);
        },
    };
    let i5 = match x_lit(s, i4, 41) {
        Ok(j) => j,
        Err(e) => {
            return Err(e);
        },
    };
    Ok((Point { x, y }, i5))
}

/// Executable string parse; classifies exactly as [`sp_string`].
fn x_string(s: &Vec<u8>, i: usize) -> (r: Result<(Vec<u8>, usize), LoadMapError>)
    requires
        i <= s@.len(),
    ensures
        r is Ok ==> {
            &&& sp_string(s@, i as int) == PStep::Found(r->Ok_0.0@, r->Ok_0.1 as int)
            &&& i < r->Ok_0.1 <= s@.len()
            &&& path_ok(r->Ok_0.0@)
        },
        r is Err ==> step_fails(sp_string(s@, i as int), r->Err_0),
{
    let j0 = x_skip_ws(s, i);
    if !(j0 < s.len() && s[j0] == 34) {
        return Err(LoadMapError::MalformedEncoding);
    }
    let mut out: Vec<u8> = Vec::new();
    let mut j = j0 + 1;
    proof {
        assert(out@ =~= Seq::<u8>::empty());
    }
    loop
        invariant_except_break
            i <= s@.len(),
            j0 == sp_skip_ws(s@, i as int),
            j0 + 1 <= j <= s@.len(),
            j0 < s@.len(),
            s@[j0 as int] == 34,
            path_ok(out@),
            sp_string_rest(s@, j0 + 1 as int, Seq::empty()) == sp_string_rest(s@, j as int, out@),
        ensures
            j0 == sp_skip_ws(s@, i as int),
            j0 < s@.len(),
            s@[j0 as int] == 34,
            j0 + 1 <= j < s@.len(),
            s@[j as int] == 34,
            path_ok(out@),
            sp_string_rest(s@, j0 + 1 as int, Seq::empty()) == PStep::Found(out@, j + 1 as int),
        decreases s@.len() - j,
    {
        if j < s.len() {
            let b = s[j];
            if b == 34 {
                break;
            } else if path_byte(b) {
                out.push(b);
                j = j + 1;
            } else {
                return Err(LoadMapError::MalformedEncoding);
            }
        } else {
            return Err(LoadMapError::MalformedEncoding);
        }
    }
    Ok((out, j + 1))
}

/// Executable tail of a point list; classifies exactly as
/// [`sp_more_points`].
fn x_more(s: &Vec<u8>, i: usize, acc: Vec<Point>) -> (r: Result<(Vec<Point>, usize), LoadMapError>)
    requires
        i <= s@.len(),
        acc@.len() <= 0x100000,
        crate::geom::points_ok(acc@),
    ensures
        r is Ok ==> {
            &&& sp_more_points(s@, i as int, acc@) == PStep::Found(r->Ok_0.0@, r->Ok_0.1 as int)
            &&& i < r->Ok_0.1 <= s@.len()
            &&& r->Ok_0.0@.len() <= 0x100000
            &&& crate::geom::points_ok(r->Ok_0.0@)
        },
        r is Err ==> step_fails(sp_more_points(s@, i as int, acc@), r->Err_0),
{
    let mut cur = acc;
    let mut j = i;
    loop
        invariant_except_break
            i <= j <= s@.len(),
            cur@.len() <= 0x100000,
            crate::geom::points_ok(cur@),
            sp_more_points(s@, i as int, acc@) == sp_more_points(s@, j as int, cur@),
        ensures
            i < j <= s@.len(),
            cur@.len() <= 0x100000,
            crate::geom::points_ok(cur@),
            sp_more_points(s@, i as int, acc@) == PStep::Found(cur@, j as int),
        decreases s@.len() - j,
    {
        let j2 = x_skip_ws(s, j);
        if j2 < s.len() && s[j2] == 93 {
            j = j2 + 1;
            break;
        } else if j2 < s.len() && s[j2] == 44 {
            match x_point(s, j2 + 1) {
                Ok((p, k)) => {
                    if cur.len() >= 0x100000 {
                        return Err(LoadMapError::SchemaTypeMismatch);
                    }
                    cur.push(p);
                    j = k;
                },
                Err(e) => {
                    return Err(e);
                },
            }
        } else {
            return Err(LoadMapError::MalformedEncoding);
        }
    }
    Ok((cur, j))
}

/// Executable point list parse; classifies exactly as
/// [`sp_point_list`].
fn x_point_list(s: &Vec<u8>, i: usize) -> (r: Result<(Vec<Point>, usize), LoadMapError>)
    requires
        i <= s@.len(),
    ensures
        r is Ok ==> {
            &&& sp_point_list(s@, i as int) == PStep::Found(r->Ok_0.0@, r->Ok_0.1 as int)
            &&& i < r->Ok_0.1 <= s@.len()
            &&& r->Ok_0.0@.len() <= 0x100000
            &&& crate::geom::points_ok(r->Ok_0.0@)
        },
        r is Err ==> step_fails(sp_point_list(s@, i as int), r->Err_0),
{
    let i1 = match x_lit(s, i, 91) {
        Ok(j) => j,
        Err(e) => {
            return Err(e);
        },
    };
    let j = x_skip_ws(s, i1);
    if j < s.len() && s[j] == 93 {
        let empty: Vec<Point> = Vec::new();
        proof {
            assert(empty@ =~= Seq::<Point>::empty());
        }
        return Ok((empty, j + 1));
    }
    match x_point(s, i1) {
        Ok((p, k)) => {
            let mut first: Vec<Point> = Vec::new();
            first.push(p);
            proof {
                assert(first@ =~= seq![p]);
            }
            x_more(s, k, first)
        },
        Err(e) => Err(e),
    }
}

/// Builds the field name `points`.
fn mk_kw_points() -> (r: Vec<u8>)
    ensures
        r@ == kw_points(),
{
    let mut v: Vec<u8> = Vec::new();
    v.push(112);
    v.push(111);
    v.push(105);
    v.push(110);
    v.push(116);
    v.push(115);
    proof {
        assert(v@ =~= kw_points());
    }
    v
}

/// Builds the field name `tuesdays`.
fn mk_kw_tuesdays() -> (r: Vec<u8>)
    ensures
        r@ == kw_tuesdays(),
{
    let mut v: Vec<u8> = Vec::new();
    v.push(116);
    v.push(117);
    v.push(101);
    v.push(115);
    v.push(100);
    v.push(97);
    v.push(121);
    v.push(115);
    proof {
        assert(v@ =~= kw_tuesdays());
    }
    v
}

/// Builds the field name `background`.
fn mk_kw_background() -> (r: Vec<u8>)
    ensures
        r@ == kw_background(),
{
    let mut v: Vec<u8> = Vec::new();
    v.push(98);
    v.push(97);
    v.push(99);
    v.push(107);
    v.push(103);
    v.push(114);
    v.push(111);
    v.push(117);
    v.push(110);
    v.push(100);
    proof {
        assert(v@ =~= kw_background());
    }
    v
}

/// Builds the field name `size`.
fn mk_kw_size() -> (r: Vec<u8>)
    ensures
        r@ == kw_size(),
{
    let mut v: Vec<u8> = Vec::new();
    v.push(115);
    v.push(105);
    v.push(122);
    v.push(101);
    proof {
        assert(v@ =~= kw_size());
    }
    v
}

/// Parses a serialized aggregate and rebuilds its curve.  Succeeds
/// exactly on byte strings that match the grammar, hold in-range
/// values, and describe at least two control points; each error names
/// which of those failed.
pub fn load_map(bytes: &Vec<u8>) -> (r: Result<CurveMap, LoadMapError>)
    ensures
        r is Ok ==> sp_map(bytes@) is Found && sp_map(bytes@)->Found_0.points.len() >= 2
            && fields_of(r->Ok_0) == sp_map(bytes@)->Found_0 && r->Ok_0.wf(),
        r is Err ==> ({
            ||| r->Err_0 == LoadMapError::MalformedEncoding && sp_map(bytes@) is Mismatch
            ||| r->Err_0 == LoadMapError::SchemaTypeMismatch && sp_map(bytes@) is OutOfRange
            ||| r->Err_0 == LoadMapError::GeometricallyInvalid && sp_map(bytes@) is Found
                && sp_map(bytes@)->Found_0.points.len() < 2
        }),
{
    let s = bytes;
    let i1 = match x_lit(s, 0, 40) {
        Ok(j) => j,
        Err(e) => {
            return Err(e);
        },
    };
    let kwp = mk_kw_points();
    let i2 = match x_kw(s, i1, &kwp) {
        Ok(j) => j,
        Err(e) => {
            return Err(e);
        },
    };
    let i3 = match x_lit(s, i2, 58) {
        Ok(j) => j,
        Err(e) => {
            return Err(e);
        },
    };
    let (points, i4) = match x_point_list(s, i3) {
        Ok(v) => v,
        Err(e) => {
            return Err(e);
        },
    };
    let i5 = match x_lit(s, i4, 44) {
        Ok(j) => j,
        Err(e) => {
            return Err(e);
        },
    };
    let kwt = mk_kw_tuesdays();
    let i6 = match x_kw(s, i5, &kwt) {
        Ok(j) => j,
        Err(e) => {
            return Err(e);
        },
    };
    let i7 = match x_lit(s, i6, 58) {
        Ok(j) => j,
        Err(e) => {
            return Err(e);
        },
    };
    let (tuesdays, i8) = match x_point_list(s, i7) {
        Ok(v) => v,
        Err(e) => {
            return Err(e);
        },
    };
    let i9 = match x_lit(s, i8, 44) {
        Ok(j) => j,
        Err(e) => {
            return Err(e);
        },
    };
    let kwb = mk_kw_background();
    let i10 = match x_kw(s, i9, &kwb) {
        Ok(j) => j,
        Err(e) => {
            return Err(e);
        },
    };
    let i11 = match x_lit(s, i10, 58) {
        Ok(j) => j,
        Err(e) => {
            return Err(e);
        },
    };
    let (background, i12) = match x_string(s, i11) {
        Ok(v) => v,
        Err(e) => {
            return Err(e);
        },
    };
    let i13 = match x_lit(s, i12, 44) {
        Ok(j) => j,
        Err(e) => {
            return Err(e);
        },
    };
    let kws = mk_kw_size();
    let i14 = match x_kw(s, i13, &kws) {
        Ok(j) => j,
        Err(e) => {
            return Err(e);
        },
    };
    let i15 = match x_lit(s, i14, 58) {
        Ok(j) => j,
        Err(e) => {
            return Err(e);
        },
    };
    let (size, i16) = match x_point(s, i15) {
        Ok(v) => v,
        Err(e) => {
            return Err(e);
        },
    };
    let i17 = match x_lit(s, i16, 41) {
        Ok(j) => j,
        Err(e) => {
            return Err(e);
        },
    };
    let fin = x_skip_ws(s, i17);
    if fin != s.len() {
        return Err(LoadMapError::MalformedEncoding);
    }
    if points.len() < 2 {
        return Err(LoadMapError::GeometricallyInvalid);
    }
    match crate::curve::build_cyclic_curve(&points) {
        Ok(curve) => Ok(CurveMap { curve, points, tuesdays, background, size }),
        Err(_) => {
            proof {
                assert(false);
            }
            Err(LoadMapError::GeometricallyInvalid)
        },
    }
}

/// Decimal digits of a non-negative value, most significant first.
pub open spec fn ser_uint(v: int) -> Seq<u8>
    recommends
        v >= 0,
    decreases v,
{
    if v < 10 {
        seq![(48 + v) as u8]
    } else {
        ser_uint(v / 10).push((48 + v % 10) as u8)
    }
}

/// A decimal integer, with a minus sign when negative.
pub open spec fn ser_int(v: int) -> Seq<u8> {
    if v < 0 {
        seq![45u8] + ser_uint(-v)
    } else {
        ser_uint(v)
    }
}

/// The space that the pretty variant puts after commas and colons.
pub open spec fn sep(pretty: bool) -> Seq<u8> {
    if pretty {
        seq![32u8]
    } else {
        Seq::empty()
    }
}

/// The line break and indent the pretty variant puts before fields.
pub open spec fn nl_ind(pretty: bool) -> Seq<u8> {
    if pretty {
        seq![10u8, 32u8, 32u8]
    } else {
        Seq::empty()
    }
}

/// The line break the pretty variant puts before the closing paren.
pub open spec fn nl_end(pretty: bool) -> Seq<u8> {
    if pretty {
        seq![10u8]
    } else {
        Seq::empty()
    }
}

/// A serialized point.
pub open spec fn ser_point(p: Point, pretty: bool) -> Seq<u8> {
    seq![40u8] + ser_int(p.x as int) + seq![44u8] + sep(pretty) + ser_int(p.y as int) + seq![41u8]
}

/// The serialized elements of a non-empty list, comma separated.
pub open spec fn ser_items(s: Seq<Point>, pretty: bool) -> Seq<u8>
    recommends
        s.len() >= 1,
    decreases s.len(),
{
    if s.len() <= 1 {
        ser_point(s[0], pretty)
    } else {
        ser_point(s[0], pretty) + seq![44u8] + sep(pretty) + ser_items(
            s.subrange(1, s.len() as int),
            pretty,
        )
    }
}

/// Appending one more element extends the serialized items at the
/// end.
pub proof fn lemma_ser_items_snoc(s: Seq<Point>, pretty: bool)
    requires
        s.len() >= 2,
    ensures
        ser_items(s, pretty) == ser_items(s.drop_last(), pretty) + seq![44u8] + sep(pretty)
            + ser_point(s.last(), pretty),
    decreases s.len(),
{
    let tail = s.subrange(1, s.len() as int);
    if s.len() == 2 {
        assert(s.drop_last() =~= seq![s[0]]);
        assert(tail =~= seq![s[1]]);
        assert(ser_items(tail, pretty) == ser_point(s[1], pretty));
        assert(ser_items(s, pretty) == ser_point(s[0], pretty) + seq![44u8] + sep(pretty)
            + ser_point(s[1], pretty));
        assert(ser_items(s.drop_last(), pretty) == ser_point(s[0], pretty));
        assert(ser_items(s, pretty) =~= ser_items(s.drop_last(), pretty) + seq![44u8] + sep(
            pretty,
        ) + ser_point(s.last(), pretty));
    } else {
        lemma_ser_items_snoc(tail, pretty);
        assert(s.drop_last().subrange(1, s.drop_last().len() as int) =~= tail.drop_last());
        assert(tail.last() == s.last());
        assert(ser_items(s, pretty) == ser_point(s[0], pretty) + seq![44u8] + sep(pretty)
            + ser_items(tail, pretty));
        assert(s.drop_last().len() >= 2);
        assert(s.drop_last()[0] == s[0]);
        assert(ser_items(s.drop_last(), pretty) == ser_point(s[0], pretty) + seq![44u8] + sep(
            pretty,
        ) + ser_items(tail.drop_last(), pretty));
        assert(ser_items(s, pretty) =~= ser_items(s.drop_last(), pretty) + seq![44u8] + sep(
            pretty,
        ) + ser_point(s.last(), pretty));
    }
}

/// A serialized list of points.
pub open spec fn ser_list(s: Seq<Point>, pretty: bool) -> Seq<u8> {
    if s.len() == 0 {
        seq![91u8, 93u8]
    } else {
        seq![91u8] + ser_items(s, pretty) + seq![93u8]
    }
}

/// A serialized quoted string.
pub open spec fn ser_string(s: Seq<u8>) -> Seq<u8> {
    seq![34u8] + s + seq![34u8]
}

/// The serialized record with all four fields.
#[verifier::opaque]
pub open spec fn ser_map_bytes(f: MapFields, pretty: bool) -> Seq<u8> {
    seq![40u8] + nl_ind(pretty) + kw_points() + seq![58u8] + sep(pretty) + ser_list(
        f.points,
        pretty,
    ) + seq![44u8] + nl_ind(pretty) + kw_tuesdays() + seq![58u8] + sep(pretty) + ser_list(
        f.tuesdays,
        pretty,
    ) + seq![44u8] + nl_ind(pretty) + kw_background() + seq![58u8] + sep(pretty) + ser_string(
        f.background,
    ) + seq![44u8] + nl_ind(pretty) + kw_size() + seq![58u8] + sep(pretty) + ser_point(
        f.size,
        pretty,
    ) + nl_end(pretty) + seq![41u8]
}

/// Appends the decimal digits of `v`.
fn w_uint(v: u64, out: &mut Vec<u8>)
    ensures
        final(out)@ == old(out)@ + ser_uint(v as int),
    decreases v,
{
    let ghost pre = out@;
    if v < 10 {
        out.push(48 + v as u8);
        proof {
            assert(out@ =~= pre + ser_uint(v as int));
        }
    } else {
        w_uint(v / 10, out);
        out.push(48 + (v % 10) as u8);
        proof {
            assert(out@ =~= pre + ser_uint(v as int));
        }
    }
}

/// Appends a decimal integer with sign.
fn w_int(v: i64, out: &mut Vec<u8>)
    requires
        -0x80000 <= v <= 0x80000,
    ensures
        final(out)@ == old(out)@ + ser_int(v as int),
{
    let ghost pre = out@;
    if v < 0 {
        out.push(45);
        w_uint((-v) as u64, out);
        proof {
            assert(out@ =~= pre + ser_int(v as int));
        }
    } else {
        w_uint(v as u64, out);
    }
}

/// Appends the pretty-variant space, if any.
fn w_sep(pretty: bool, out: &mut Vec<u8>)
    ensures
        final(out)@ == old(out)@ + sep(pretty),
{
    let ghost pre = out@;
    if pretty {
        out.push(32);
    }
    proof {
        assert(out@ =~= pre + sep(pretty));
    }
}

/// Appends the pretty-variant field line break, if any.
fn w_nl_ind(pretty: bool, out: &mut Vec<u8>)
    ensures
        final(out)@ == old(out)@ + nl_ind(pretty),
{
    let ghost pre = out@;
    if pretty {
        out.push(10);
        out.push(32);
        out.push(32);
    }
    proof {
        assert(out@ =~= pre + nl_ind(pretty));
    }
}

/// Appends the pretty-variant closing line break, if any.
fn w_nl_end(pretty: bool, out: &mut Vec<u8>)
    ensures
        final(out)@ == old(out)@ + nl_end(pretty),
{
    let ghost pre = out@;
    if pretty {
        out.push(10);
    }
    proof {
        assert(out@ =~= pre + nl_end(pretty));
    }
}

/// Appends a serialized point.
fn w_point(p: Point, pretty: bool, out: &mut Vec<u8>)
    requires
        crate::geom::point_ok(p),
    ensures
        final(out)@ == old(out)@ + ser_point(p, pretty),
{
    let ghost pre = out@;
    out.push(40);
    w_int(p.x, out);
    out.push(44);
    w_sep(pretty, out);
    w_int(p.y, out);
    out.push(41);
    proof {
        assert(out@ =~= pre + ser_point(p, pretty));
    }
}

/// Appends a serialized point list.
fn w_list(s: &Vec<Point>, pretty: bool, out: &mut Vec<u8>)
    requires
        crate::geom::points_ok(s@),
    ensures
        final(out)@ == old(out)@ + ser_list(s@, pretty),
{
    let ghost pre = out@;
    out.push(91);
    let n = s.len();
    if n > 0 {
        let first = s[0];
        w_point(first, pretty, out);
        proof {
            assert(s@.take(1) =~= seq![s@[0]]);
            assert(out@ == pre + seq![91u8] + ser_items(s@.take(1), pretty));
        }
        let mut k: usize = 1;
        while k < n
            invariant
                1 <= k <= n,
                n == s@.len(),
                crate::geom::points_ok(s@),
                out@ == pre + seq![91u8] + ser_items(s@.take(k as int), pretty),
            decreases n - k,
        {
            let ghost mid = out@;
            out.push(44);
            w_sep(pretty, out);
            let p = s[k];
            w_point(p, pretty, out);
            proof {
                assert(s@.take(k + 1).drop_last() =~= s@.take(k as int));
                assert(s@.take(k + 1).last() == s@[k as int]);
                lemma_ser_items_snoc(s@.take(k + 1), pretty);
                assert(out@ =~= pre + seq![91u8] + ser_items(s@.take(k + 1), pretty));
            }
            k = k + 1;
        }
        proof {
            assert(s@.take(n as int) =~= s@);
        }
    }
    out.push(93);
    proof {
        assert(out@ =~= pre + ser_list(s@, pretty));
    }
}

/// Appends a serialized quoted string.
fn w_string(b: &Vec<u8>, out: &mut Vec<u8>)
    ensures
        final(out)@ == old(out)@ + ser_string(b@),
{
    let ghost pre = out@;
    out.push(34);
    out.extend_from_slice(b.as_slice());
    out.push(34);
    proof {
        assert(out@ =~= pre + ser_string(b@));
    }
}

/// Serializes the aggregate's persisted fields: control points,
/// markers, backing-image path and display size.  The derived curve is
/// never written.  The pretty variant puts one field per line.
#[verifier::rlimit(80)]
pub fn save_map(m: &CurveMap, pretty: bool) -> (r: Vec<u8>)
    requires
        m.bounds_wf(),
    ensures
        r@ == ser_map_bytes(fields_of(*m), pretty),
{
    let mut out: Vec<u8> = Vec::new();
    out.push(40);
    w_nl_ind(pretty, &mut out);
    let kwp = mk_kw_points();
    out.extend_from_slice(kwp.as_slice());
    out.push(58);
    w_sep(pretty, &mut out);
    w_list(&m.points, pretty, &mut out);
    out.push(44);
    w_nl_ind(pretty, &mut out);
    let kwt = mk_kw_tuesdays();
    out.extend_from_slice(kwt.as_slice());
    out.push(58);
    w_sep(pretty, &mut out);
    w_list(&m.tuesdays, pretty, &mut out);
    out.push(44);
    w_nl_ind(pretty, &mut out);
    let kwb = mk_kw_background();
    out.extend_from_slice(kwb.as_slice());
    out.push(58);
    w_sep(pretty, &mut out);
    w_string(&m.background, &mut out);
    out.push(44);
    w_nl_ind(pretty, &mut out);
    let kws = mk_kw_size();
    out.extend_from_slice(kws.as_slice());
    out.push(58);
    w_sep(pretty, &mut out);
    w_point(m.size, pretty, &mut out);
    w_nl_end(pretty, &mut out);
    out.push(41);
    proof {
        reveal(ser_map_bytes);
        assert(out@ =~= ser_map_bytes(fields_of(*m), pretty));
    }
    out
}

/// Every byte of `w` is whitespace.
pub open spec fn ws_all(w: Seq<u8>) -> bool {
    forall|k: int| 0 <= k < w.len() ==> is_ws(#[trigger] w[k])
}

/// The bytes `w` stand in `s` at position `i`.
pub open spec fn bytes_at(s: Seq<u8>, i: int, w: Seq<u8>) -> bool {
    0 <= i && i + w.len() <= s.len() && s.subrange(i, i + w.len()) == w
}

/// Splitting an embedded concatenation.
proof fn lemma_bytes_split(s: Seq<u8>, i: int, a: Seq<u8>, b: Seq<u8>)
    requires
        bytes_at(s, i, a + b),
    ensures
        bytes_at(s, i, a),
        bytes_at(s, i + a.len(), b),
{
    assert forall|k: int| 0 <= k < a.len() implies s.subrange(i, i + a.len() as int)[k] == a[k] by {
        assert(s.subrange(i, i + (a + b).len() as int)[k] == (a + b)[k]);
    }
    assert(s.subrange(i, i + a.len() as int) =~= a);
    assert forall|k: int| 0 <= k < b.len() implies s.subrange(
        i + a.len(),
        i + a.len() + b.len() as int,
    )[k] == b[k] by {
        assert(s.subrange(i, i + (a + b).len() as int)[a.len() + k] == (a + b)[a.len() + k]);
    }
    assert(s.subrange(i + a.len(), i + a.len() + b.len() as int) =~= b);
}

/// The single embedded byte.
proof fn lemma_bytes_one(s: Seq<u8>, i: int, c: u8)
    requires
        bytes_at(s, i, seq![c]),
    ensures
        0 <= i < s.len(),
        s[i] == c,
{
    assert(s.subrange(i, i + 1)[0] == c);
}

/// The first byte of a non-empty embedded chunk.
proof fn lemma_bytes_first(s: Seq<u8>, i: int, w: Seq<u8>)
    requires
        bytes_at(s, i, w),
        w.len() > 0,
    ensures
        0 <= i < s.len(),
        s[i] == w[0],
{
    assert(s.subrange(i, i + w.len() as int)[0] == w[0]);
}

/// Skipping whitespace runs to the end of an embedded all-whitespace
/// block whose successor, if any, is not whitespace.
proof fn lemma_skip_over(s: Seq<u8>, i: int, w: Seq<u8>)
    requires
        bytes_at(s, i, w),
        ws_all(w),
        i + w.len() == s.len() || !is_ws(s[i + w.len()]),
    ensures
        sp_skip_ws(s, i) == i + w.len(),
    decreases w.len(),
{
    if w.len() == 0 {
    } else {
        assert(s.subrange(i, i + w.len() as int)[0] == w[0]);
        assert(is_ws(s[i]));
        let w2 = w.subrange(1, w.len() as int);
        assert(ws_all(w2));
        assert forall|k: int| 0 <= k < w2.len() implies s.subrange(
            i + 1,
            i + 1 + w2.len() as int,
        )[k] == w2[k] by {
            assert(s.subrange(i, i + w.len() as int)[k + 1] == w[k + 1]);
        }
        assert(s.subrange(i + 1, i + 1 + w2.len() as int) =~= w2);
        lemma_skip_over(s, i + 1, w2);
    }
}

/// An embedded keyword parses to its end.
proof fn lemma_kw_at(s: Seq<u8>, i: int, kw: Seq<u8>)
    requires
        bytes_at(s, i, kw),
    ensures
        sp_kw_at(s, i, kw) == PStep::Found((), i + kw.len()),
    decreases kw.len(),
{
    if kw.len() > 0 {
        assert(s.subrange(i, i + kw.len() as int)[0] == kw[0]);
        let k2 = kw.subrange(1, kw.len() as int);
        assert forall|k: int| 0 <= k < k2.len() implies s.subrange(
            i + 1,
            i + 1 + k2.len() as int,
        )[k] == k2[k] by {
            assert(s.subrange(i, i + kw.len() as int)[k + 1] == kw[k + 1]);
        }
        assert(s.subrange(i + 1, i + 1 + k2.len() as int) =~= k2);
        lemma_kw_at(s, i + 1, k2);
    }
}

/// Every byte of `d` is a digit.
pub open spec fn all_digits(d: Seq<u8>) -> bool {
    forall|k: int| 0 <= k < d.len() ==> is_digit(#[trigger] d[k])
}

/// The value of digits `d` folded left onto `acc`.
pub open spec fn fold_val(acc: int, d: Seq<u8>) -> int
    decreases d.len(),
{
    if d.len() == 0 {
        acc
    } else {
        fold_val(acc * 10 + (d[0] - 48), d.subrange(1, d.len() as int))
    }
}

/// Folding digits never decreases a non-negative accumulator.
proof fn lemma_fold_val_lower(acc: int, d: Seq<u8>)
    requires
        acc >= 0,
        all_digits(d),
    ensures
        fold_val(acc, d) >= acc,
    decreases d.len(),
{
    if d.len() > 0 {
        let acc2 = acc * 10 + (d[0] - 48);
        let d2 = d.subrange(1, d.len() as int);
        assert(all_digits(d2));
        lemma_fold_val_lower(acc2, d2);
    }
}

/// An embedded digit run parses to its fold value, when that value is
/// within range.
proof fn lemma_digits_at(s: Seq<u8>, i: int, d: Seq<u8>, acc: int)
    requires
        bytes_at(s, i, d),
        all_digits(d),
        i + d.len() == s.len() || !is_digit(s[i + d.len()]),
        0 <= acc,
        fold_val(acc, d) <= 0x80000,
    ensures
        sp_digits(s, i, acc) == PStep::Found(fold_val(acc, d), i + d.len()),
    decreases d.len(),
{
    if d.len() == 0 {
    } else {
        assert(s.subrange(i, i + d.len() as int)[0] == d[0]);
        assert(is_digit(s[i]));
        let acc2 = acc * 10 + (d[0] - 48);
        let d2 = d.subrange(1, d.len() as int);
        assert(all_digits(d2));
        lemma_fold_val_lower(acc2, d2);
        assert forall|k: int| 0 <= k < d2.len() implies s.subrange(
            i + 1,
            i + 1 + d2.len() as int,
        )[k] == d2[k] by {
            assert(s.subrange(i, i + d.len() as int)[k + 1] == d[k + 1]);
        }
        assert(s.subrange(i + 1, i + 1 + d2.len() as int) =~= d2);
        lemma_digits_at(s, i + 1, d2, acc2);
    }
}

/// Folding over digits with one more appended.
proof fn lemma_fold_push(acc: int, d: Seq<u8>, b: u8)
    ensures
        fold_val(acc, d.push(b)) == fold_val(acc, d) * 10 + (b - 48),
    decreases d.len(),
{
    if d.len() == 0 {
        assert(d.push(b)[0] == b);
        assert(d.push(b).subrange(1, d.push(b).len() as int) =~= Seq::<u8>::empty());
        assert(fold_val(acc * 10 + (b - 48), Seq::<u8>::empty()) == acc * 10 + (b - 48));
    } else {
        let acc2 = acc * 10 + (d[0] - 48);
        assert(d.push(b).subrange(1, d.push(b).len() as int) =~= d.subrange(
            1,
            d.len() as int,
        ).push(b));
        lemma_fold_push(acc2, d.subrange(1, d.len() as int), b);
    }
}

/// The decimal digits of `v` are digits, start with a digit, and fold
/// back to `v`.
proof fn lemma_ser_uint(v: int)
    requires
        v >= 0,
    ensures
        all_digits(ser_uint(v)),
        ser_uint(v).len() >= 1,
        is_digit(ser_uint(v)[0]),
        fold_val(0, ser_uint(v)) == v,
    decreases v,
{
    if v < 10 {
        let d = ser_uint(v);
        assert(d =~= seq![(48 + v) as u8]);
        assert(d[0] == (48 + v) as u8);
        assert(d.subrange(1, d.len() as int) =~= Seq::<u8>::empty());
        assert(fold_val(0 * 10 + (d[0] - 48), Seq::<u8>::empty()) == v);
    } else {
        lemma_ser_uint(v / 10);
        lemma_fold_push(0, ser_uint(v / 10), (48 + v % 10) as u8);
        vstd::arithmetic::div_mod::lemma_fundamental_div_mod(v, 10);
    }
}

/// An embedded serialized integer, preceded by whitespace, parses to
/// its value.
#[verifier::spinoff_prover]
#[verifier::rlimit(100)]
proof fn lemma_int_at(s: Seq<u8>, i: int, w: Seq<u8>, v: int)
    requires
        ws_all(w),
        bytes_at(s, i, w),
        bytes_at(s, i + w.len(), ser_int(v)),
        -0x80000 <= v <= 0x80000,
        i + w.len() + ser_int(v).len() == s.len() || !is_digit(
            s[i + w.len() + ser_int(v).len()],
        ),
    ensures
        sp_int(s, i) == PStep::Found(v, i + w.len() + ser_int(v).len()),
{
    let i0 = i + w.len();
    if v < 0 {
        lemma_ser_uint(-v);
        lemma_bytes_split(s, i0, seq![45u8], ser_uint(-v));
        lemma_bytes_one(s, i0, 45);
        lemma_skip_over(s, i, w);
        assert(s.subrange(i0 + 1, i0 + 1 + ser_uint(-v).len() as int)[0] == ser_uint(-v)[0]);
        lemma_digits_at(s, i0 + 1, ser_uint(-v), 0);
    } else {
        lemma_ser_uint(v);
        assert(s.subrange(i0, i0 + ser_uint(v).len() as int)[0] == ser_uint(v)[0]);
        lemma_skip_over(s, i, w);
        lemma_digits_at(s, i0, ser_uint(v), 0);
    }
}

/// An embedded serialized point, preceded by whitespace, parses to its
/// value.
#[verifier::spinoff_prover]
#[verifier::rlimit(100)]
proof fn lemma_point_at(s: Seq<u8>, i: int, w: Seq<u8>, p: Point, pretty: bool)
    requires
        ws_all(w),
        bytes_at(s, i, w),
        bytes_at(s, i + w.len(), ser_point(p, pretty)),
        crate::geom::point_ok(p),
    ensures
        sp_point(s, i) == PStep::Found(p, i + w.len() + ser_point(p, pretty).len()),
{
    let i0 = i + w.len();
    let a = ser_int(p.x as int);
    let b = ser_int(p.y as int);
    let c1 = seq![40u8] + a + seq![44u8] + sep(pretty) + b;
    lemma_bytes_split(s, i0, c1, seq![41u8]);
    let c2 = seq![40u8] + a + seq![44u8] + sep(pretty);
    lemma_bytes_split(s, i0, c2, b);
    let c3 = seq![40u8] + a + seq![44u8];
    lemma_bytes_split(s, i0, c3, sep(pretty));
    let c4 = seq![40u8] + a;
    lemma_bytes_split(s, i0, c4, seq![44u8]);
    lemma_bytes_split(s, i0, seq![40u8], a);
    lemma_bytes_one(s, i0, 40);
    lemma_skip_over(s, i, w);
    let ia = i0 + 1;
    lemma_bytes_one(s, ia + a.len(), 44);
    assert(s.subrange(ia, ia) =~= Seq::<u8>::empty());
    assert(bytes_at(s, ia, Seq::<u8>::empty()));
    lemma_int_at(s, ia, Seq::<u8>::empty(), p.x as int);
    let ib = ia + a.len() + 1;
    lemma_bytes_one(s, ib + sep(pretty).len() + b.len(), 41);
    lemma_int_at(s, ib, sep(pretty), p.y as int);
}

/// The serialized tail of a point list: each further element behind
/// its comma, then the closing bracket.
pub open spec fn ser_more(rest: Seq<Point>, pretty: bool) -> Seq<u8>
    decreases rest.len(),
{
    if rest.len() == 0 {
        seq![93u8]
    } else {
        seq![44u8] + sep(pretty) + ser_point(rest[0], pretty) + ser_more(
            rest.subrange(1, rest.len() as int),
            pretty,
        )
    }
}

/// The serialized items plus the closing bracket are the first point
/// followed by the serialized tail.
proof fn lemma_items_more(q: Seq<Point>, pretty: bool)
    requires
        q.len() >= 1,
    ensures
        ser_items(q, pretty) + seq![93u8] == ser_point(q[0], pretty) + ser_more(
            q.subrange(1, q.len() as int),
            pretty,
        ),
    decreases q.len(),
{
    let rest = q.subrange(1, q.len() as int);
    if q.len() == 1 {
        assert(rest.len() == 0);
        assert(ser_items(q, pretty) + seq![93u8] =~= ser_point(q[0], pretty) + ser_more(
            rest,
            pretty,
        ));
    } else {
        lemma_items_more(rest, pretty);
        let rest2 = rest.subrange(1, rest.len() as int);
        assert(ser_items(q, pretty) == ser_point(q[0], pretty) + seq![44u8] + sep(pretty)
            + ser_items(rest, pretty));
        assert(ser_more(rest, pretty) == seq![44u8] + sep(pretty) + ser_point(rest[0], pretty)
            + ser_more(rest2, pretty));
        assert(ser_items(rest, pretty) + seq![93u8] == ser_point(rest[0], pretty) + ser_more(
            rest2,
            pretty,
        ));
        assert(ser_items(q, pretty) + seq![93u8] =~= ser_point(q[0], pretty) + (seq![44u8] + sep(
            pretty,
        ) + (ser_items(rest, pretty) + seq![93u8])));
        assert(seq![44u8] + sep(pretty) + (ser_items(rest, pretty) + seq![93u8]) =~= ser_more(
            rest,
            pretty,
        ));
        assert(ser_items(q, pretty) + seq![93u8] == ser_point(q[0], pretty) + ser_more(
            rest,
            pretty,
        ));
    }
}

/// An embedded serialized list tail parses to the accumulated points
/// plus the remaining ones.
#[verifier::spinoff_prover]
#[verifier::rlimit(100)]
proof fn lemma_more_at(s: Seq<u8>, i: int, acc: Seq<Point>, rest: Seq<Point>, pretty: bool)
    requires
        bytes_at(s, i, ser_more(rest, pretty)),
        crate::geom::points_ok(rest),
        acc.len() + rest.len() <= 0x100000,
    ensures
        sp_more_points(s, i, acc) == PStep::Found(acc + rest, i + ser_more(rest, pretty).len()),
    decreases rest.len(),
{
    if rest.len() == 0 {
        lemma_bytes_one(s, i, 93);
        assert(sp_skip_ws(s, i) == i);
        assert(acc + rest =~= acc);
    } else {
        let p = rest[0];
        let rest2 = rest.subrange(1, rest.len() as int);
        let c1 = seq![44u8] + sep(pretty) + ser_point(p, pretty);
        lemma_bytes_split(s, i, c1, ser_more(rest2, pretty));
        let c2 = seq![44u8] + sep(pretty);
        lemma_bytes_split(s, i, c2, ser_point(p, pretty));
        lemma_bytes_split(s, i, seq![44u8], sep(pretty));
        lemma_bytes_one(s, i, 44);
        assert(sp_skip_ws(s, i) == i);
        lemma_point_at(s, i + 1, sep(pretty), p, pretty);
        let k = i + 1 + sep(pretty).len() + ser_point(p, pretty).len();
        lemma_more_at(s, k, acc.push(p), rest2, pretty);
        assert(acc.push(p) + rest2 =~= acc + rest);
    }
}

/// An embedded serialized list, preceded by whitespace, parses to its
/// points.
#[verifier::spinoff_prover]
#[verifier::rlimit(100)]
proof fn lemma_list_at(s: Seq<u8>, i: int, w: Seq<u8>, pts: Seq<Point>, pretty: bool)
    requires
        ws_all(w),
        bytes_at(s, i, w),
        bytes_at(s, i + w.len(), ser_list(pts, pretty)),
        crate::geom::points_ok(pts),
        pts.len() <= 0x100000,
    ensures
        sp_point_list(s, i) == PStep::Found(pts, i + w.len() + ser_list(pts, pretty).len()),
{
    let i0 = i + w.len();
    if pts.len() == 0 {
        assert(ser_list(pts, pretty) =~= seq![91u8] + seq![93u8]);
        lemma_bytes_split(s, i0, seq![91u8], seq![93u8]);
        lemma_bytes_one(s, i0, 91);
        lemma_skip_over(s, i, w);
        lemma_bytes_one(s, i0 + 1, 93);
        assert(sp_skip_ws(s, i0 + 1) == i0 + 1);
        assert(sp_point_list(s, i) == PStep::Found(Seq::<Point>::empty(), i0 + 2));
        assert(pts =~= Seq::<Point>::empty());
    } else {
        let rest = pts.subrange(1, pts.len() as int);
        lemma_items_more(pts, pretty);
        assert(ser_list(pts, pretty) =~= seq![91u8] + (ser_point(pts[0], pretty) + ser_more(
            rest,
            pretty,
        )));
        lemma_bytes_split(
            s,
            i0,
            seq![91u8],
            ser_point(pts[0], pretty) + ser_more(rest, pretty),
        );
        lemma_bytes_one(s, i0, 91);
        lemma_skip_over(s, i, w);
        lemma_bytes_split(s, i0 + 1, ser_point(pts[0], pretty), ser_more(rest, pretty));
        assert(s.subrange(i0 + 1, i0 + 1) =~= Seq::<u8>::empty());
        assert(bytes_at(s, i0 + 1, Seq::<u8>::empty()));
        lemma_point_at(s, i0 + 1, Seq::<u8>::empty(), pts[0], pretty);
        // the next byte is an opening parenthesis, so the empty-list
        // branch of the grammar is not taken
        let a = ser_point(pts[0], pretty);
        assert(s.subrange(i0 + 1, i0 + 1 + a.len() as int)[0] == a[0]);
        assert(s[i0 + 1] == 40);
        assert(sp_skip_ws(s, i0 + 1) == i0 + 1);
        let k = i0 + 1 + a.len();
        lemma_more_at(s, k, seq![pts[0]], rest, pretty);
        assert(seq![pts[0]] + rest =~= pts);
    }
}

/// Embedded string content parses to the collected bytes.
proof fn lemma_string_rest_at(s: Seq<u8>, i: int, done: Seq<u8>, todo: Seq<u8>)
    requires
        bytes_at(s, i, todo + seq![34u8]),
        path_ok(todo),
    ensures
        sp_string_rest(s, i, done) == PStep::Found(done + todo, i + todo.len() + 1),
    decreases todo.len(),
{
    if todo.len() == 0 {
        lemma_bytes_one(s, i, 34);
        assert(done + todo =~= done);
    } else {
        assert(todo + seq![34u8] =~= seq![todo[0]] + (todo.subrange(1, todo.len() as int)
            + seq![34u8]));
        lemma_bytes_split(s, i, seq![todo[0]], todo.subrange(1, todo.len() as int) + seq![34u8]);
        lemma_bytes_one(s, i, todo[0]);
        lemma_string_rest_at(s, i + 1, done.push(todo[0]), todo.subrange(1, todo.len() as int));
        assert(done.push(todo[0]) + todo.subrange(1, todo.len() as int) =~= done + todo);
    }
}

/// An embedded serialized string, preceded by whitespace, parses to
/// its content bytes.
#[verifier::spinoff_prover]
#[verifier::rlimit(100)]
proof fn lemma_string_at(s: Seq<u8>, i: int, w: Seq<u8>, b: Seq<u8>)
    requires
        ws_all(w),
        bytes_at(s, i, w),
        bytes_at(s, i + w.len(), ser_string(b)),
        path_ok(b),
    ensures
        sp_string(s, i) == PStep::Found(b, i + w.len() + ser_string(b).len()),
{
    let i0 = i + w.len();
    assert(ser_string(b) =~= seq![34u8] + (b + seq![34u8]));
    lemma_bytes_split(s, i0, seq![34u8], b + seq![34u8]);
    lemma_bytes_one(s, i0, 34);
    lemma_skip_over(s, i, w);
    lemma_string_rest_at(s, i0 + 1, Seq::<u8>::empty(), b);
    assert(Seq::<u8>::empty() + b =~= b);
}

/// Position after the `points` field name in the serialized record.
spec fn off1(pretty: bool) -> int {
    1 + nl_ind(pretty).len() + kw_points().len() as int
}

/// Position after the serialized points list.
spec fn off2(f: MapFields, pretty: bool) -> int {
    off1(pretty) + 1 + sep(pretty).len() + ser_list(f.points, pretty).len() as int
}

/// Position after the `tuesdays` field name.
spec fn off3(f: MapFields, pretty: bool) -> int {
    off2(f, pretty) + 1 + nl_ind(pretty).len() + kw_tuesdays().len() as int
}

/// Position after the serialized markers list.
spec fn off4(f: MapFields, pretty: bool) -> int {
    off3(f, pretty) + 1 + sep(pretty).len() + ser_list(f.tuesdays, pretty).len() as int
}

/// Position after the `background` field name.
spec fn off5(f: MapFields, pretty: bool) -> int {
    off4(f, pretty) + 1 + nl_ind(pretty).len() + kw_background().len() as int
}

/// Position after the serialized path string.
spec fn off6(f: MapFields, pretty: bool) -> int {
    off5(f, pretty) + 1 + sep(pretty).len() + ser_string(f.background).len() as int
}

/// Position after the `size` field name.
spec fn off7(f: MapFields, pretty: bool) -> int {
    off6(f, pretty) + 1 + nl_ind(pretty).len() + kw_size().len() as int
}

/// Position after the serialized display size.
spec fn off8(f: MapFields, pretty: bool) -> int {
    off7(f, pretty) + 1 + sep(pretty).len() + ser_point(f.size, pretty).len() as int
}

/// The serialized record up to and including the comma after the
/// markers list.
spec fn front13(f: MapFields, pretty: bool) -> Seq<u8> {
    seq![40u8] + nl_ind(pretty) + kw_points() + seq![58u8] + sep(pretty) + ser_list(
        f.points,
        pretty,
    ) + seq![44u8] + nl_ind(pretty) + kw_tuesdays() + seq![58u8] + sep(pretty) + ser_list(
        f.tuesdays,
        pretty,
    ) + seq![44u8]
}

/// Where each chunk of the first half of the record stands.
spec fn chunks_front_at(f: MapFields, pretty: bool) -> bool {
    let s = ser_map_bytes(f, pretty);
    &&& bytes_at(s, 0, seq![40u8])
    &&& bytes_at(s, 1, nl_ind(pretty))
    &&& bytes_at(s, off1(pretty) - kw_points().len(), kw_points())
    &&& bytes_at(s, off1(pretty), seq![58u8])
    &&& bytes_at(s, off1(pretty) + 1, sep(pretty))
    &&& bytes_at(s, off1(pretty) + 1 + sep(pretty).len(), ser_list(f.points, pretty))
    &&& bytes_at(s, off2(f, pretty), seq![44u8])
    &&& bytes_at(s, off2(f, pretty) + 1, nl_ind(pretty))
    &&& bytes_at(s, off3(f, pretty) - kw_tuesdays().len(), kw_tuesdays())
    &&& bytes_at(s, off3(f, pretty), seq![58u8])
    &&& bytes_at(s, off3(f, pretty) + 1, sep(pretty))
    &&& bytes_at(s, off3(f, pretty) + 1 + sep(pretty).len(), ser_list(f.tuesdays, pretty))
    &&& bytes_at(s, off4(f, pretty), seq![44u8])
}

/// Where each chunk of the second half of the record stands.
spec fn chunks_back_at(f: MapFields, pretty: bool) -> bool {
    let s = ser_map_bytes(f, pretty);
    &&& bytes_at(s, off4(f, pretty) + 1, nl_ind(pretty))
    &&& bytes_at(s, off5(f, pretty) - kw_background().len(), kw_background())
    &&& bytes_at(s, off5(f, pretty), seq![58u8])
    &&& bytes_at(s, off5(f, pretty) + 1, sep(pretty))
    &&& bytes_at(s, off5(f, pretty) + 1 + sep(pretty).len(), ser_string(f.background))
    &&& bytes_at(s, off6(f, pretty), seq![44u8])
    &&& bytes_at(s, off6(f, pretty) + 1, nl_ind(pretty))
    &&& bytes_at(s, off7(f, pretty) - kw_size().len(), kw_size())
    &&& bytes_at(s, off7(f, pretty), seq![58u8])
    &&& bytes_at(s, off7(f, pretty) + 1, sep(pretty))
    &&& bytes_at(s, off7(f, pretty) + 1 + sep(pretty).len(), ser_point(f.size, pretty))
    &&& bytes_at(s, off8(f, pretty), nl_end(pretty))
    &&& bytes_at(s, off8(f, pretty) + nl_end(pretty).len(), seq![41u8])
    &&& s.len() == off8(f, pretty) + nl_end(pretty).len() + 1
}

/// Splits the serialized record into the chunks behind the markers
/// list.
#[verifier::spinoff_prover]
#[verifier::rlimit(100)]
proof fn lemma_rt_chunks_back(f: MapFields, pretty: bool)
    ensures
        bytes_at(ser_map_bytes(f, pretty), 0, front13(f, pretty)),
        chunks_back_at(f, pretty),
{
    let s = ser_map_bytes(f, pretty);
    let st = ser_string(f.background);
    let pt = ser_point(f.size, pretty);
    let c13 = front13(f, pretty);
    let c14 = c13 + nl_ind(pretty);
    let c15 = c14 + kw_background();
    let c16 = c15 + seq![58u8];
    let c17 = c16 + sep(pretty);
    let c18 = c17 + st;
    let c19 = c18 + seq![44u8];
    let c20 = c19 + nl_ind(pretty);
    let c21 = c20 + kw_size();
    let c22 = c21 + seq![58u8];
    let c23 = c22 + sep(pretty);
    let c24 = c23 + pt;
    let c25 = c24 + nl_end(pretty);
    assert(s =~= c25 + seq![41u8]) by {
        reveal(ser_map_bytes);
    }
    assert(s.subrange(0, s.len() as int) =~= s);
    assert(bytes_at(s, 0, c25 + seq![41u8]));
    lemma_bytes_split(s, 0, c25, seq![41u8]);
    lemma_bytes_split(s, 0, c24, nl_end(pretty));
    lemma_bytes_split(s, 0, c23, pt);
    lemma_bytes_split(s, 0, c22, sep(pretty));
    lemma_bytes_split(s, 0, c21, seq![58u8]);
    lemma_bytes_split(s, 0, c20, kw_size());
    lemma_bytes_split(s, 0, c19, nl_ind(pretty));
    lemma_bytes_split(s, 0, c18, seq![44u8]);
    lemma_bytes_split(s, 0, c17, st);
    lemma_bytes_split(s, 0, c16, sep(pretty));
    lemma_bytes_split(s, 0, c15, seq![58u8]);
    lemma_bytes_split(s, 0, c14, kw_background());
    lemma_bytes_split(s, 0, c13, nl_ind(pretty));
}

/// Splits the front of the serialized record into its chunks.
#[verifier::spinoff_prover]
#[verifier::rlimit(100)]
proof fn lemma_rt_chunks_front(f: MapFields, pretty: bool)
    requires
        bytes_at(ser_map_bytes(f, pretty), 0, front13(f, pretty)),
    ensures
        chunks_front_at(f, pretty),
{
    let s = ser_map_bytes(f, pretty);
    let l1 = ser_list(f.points, pretty);
    let l2 = ser_list(f.tuesdays, pretty);
    let c01 = seq![40u8];
    let c02 = c01 + nl_ind(pretty);
    let c03 = c02 + kw_points();
    let c04 = c03 + seq![58u8];
    let c05 = c04 + sep(pretty);
    let c06 = c05 + l1;
    let c07 = c06 + seq![44u8];
    let c08 = c07 + nl_ind(pretty);
    let c09 = c08 + kw_tuesdays();
    let c10 = c09 + seq![58u8];
    let c11 = c10 + sep(pretty);
    let c12 = c11 + l2;
    assert(front13(f, pretty) =~= c12 + seq![44u8]);
    lemma_bytes_split(s, 0, c12, seq![44u8]);
    lemma_bytes_split(s, 0, c11, l2);
    lemma_bytes_split(s, 0, c10, sep(pretty));
    lemma_bytes_split(s, 0, c09, seq![58u8]);
    lemma_bytes_split(s, 0, c08, kw_tuesdays());
    lemma_bytes_split(s, 0, c07, nl_ind(pretty));
    lemma_bytes_split(s, 0, c06, seq![44u8]);
    lemma_bytes_split(s, 0, c05, l1);
    lemma_bytes_split(s, 0, c04, sep(pretty));
    lemma_bytes_split(s, 0, c03, seq![58u8]);
    lemma_bytes_split(s, 0, c02, kw_points());
    lemma_bytes_split(s, 0, c01, nl_ind(pretty));
}

/// Parse steps over the first half of a serialized record: the opening
/// parenthesis and the two point lists with their field names.
#[verifier::spinoff_prover]
#[verifier::rlimit(100)]
proof fn lemma_rt_fields1(f: MapFields, pretty: bool)
    requires
        crate::geom::points_ok(f.points),
        f.points.len() <= 0x100000,
        crate::geom::points_ok(f.tuesdays),
        f.tuesdays.len() <= 0x100000,
        chunks_front_at(f, pretty),
    ensures
        ({
            let s = ser_map_bytes(f, pretty);
            &&& sp_lit(s, 0, 40) == PStep::Found((), 1)
            &&& sp_kw(s, 1, kw_points()) == PStep::Found((), off1(pretty))
            &&& sp_lit(s, off1(pretty), 58) == PStep::Found((), off1(pretty) + 1)
            &&& sp_point_list(s, off1(pretty) + 1) == PStep::Found(f.points, off2(f, pretty))
            &&& sp_lit(s, off2(f, pretty), 44) == PStep::Found((), off2(f, pretty) + 1)
            &&& sp_kw(s, off2(f, pretty) + 1, kw_tuesdays()) == PStep::Found((), off3(f, pretty))
            &&& sp_lit(s, off3(f, pretty), 58) == PStep::Found((), off3(f, pretty) + 1)
            &&& sp_point_list(s, off3(f, pretty) + 1) == PStep::Found(
                f.tuesdays,
                off4(f, pretty),
            )
            &&& sp_lit(s, off4(f, pretty), 44) == PStep::Found((), off4(f, pretty) + 1)
        }),
{
    let s = ser_map_bytes(f, pretty);
    lemma_bytes_one(s, 0, 40);
    assert(sp_skip_ws(s, 0) == 0);
    lemma_bytes_first(s, off1(pretty) - kw_points().len(), kw_points());
    lemma_skip_over(s, 1, nl_ind(pretty));
    lemma_kw_at(s, off1(pretty) - kw_points().len(), kw_points());
    lemma_bytes_one(s, off1(pretty), 58);
    assert(sp_skip_ws(s, off1(pretty)) == off1(pretty));
    lemma_list_at(s, off1(pretty) + 1, sep(pretty), f.points, pretty);
    lemma_bytes_one(s, off2(f, pretty), 44);
    assert(sp_skip_ws(s, off2(f, pretty)) == off2(f, pretty));
    lemma_bytes_first(s, off3(f, pretty) - kw_tuesdays().len(), kw_tuesdays());
    lemma_skip_over(s, off2(f, pretty) + 1, nl_ind(pretty));
    lemma_kw_at(s, off3(f, pretty) - kw_tuesdays().len(), kw_tuesdays());
    lemma_bytes_one(s, off3(f, pretty), 58);
    assert(sp_skip_ws(s, off3(f, pretty)) == off3(f, pretty));
    lemma_list_at(s, off3(f, pretty) + 1, sep(pretty), f.tuesdays, pretty);
    lemma_bytes_one(s, off4(f, pretty), 44);
    assert(sp_skip_ws(s, off4(f, pretty)) == off4(f, pretty));
}

/// Parse steps over the second half of a serialized record: the path
/// string, the display size and the closing parenthesis.
#[verifier::spinoff_prover]
#[verifier::rlimit(100)]
proof fn lemma_rt_fields2(f: MapFields, pretty: bool)
    requires
        crate::geom::point_ok(f.size),
        path_ok(f.background),
        chunks_back_at(f, pretty),
    ensures
        ({
            let s = ser_map_bytes(f, pretty);
            &&& sp_kw(s, off4(f, pretty) + 1, kw_background()) == PStep::Found(
                (),
                off5(f, pretty),
            )
            &&& sp_lit(s, off5(f, pretty), 58) == PStep::Found((), off5(f, pretty) + 1)
            &&& sp_string(s, off5(f, pretty) + 1) == PStep::Found(
                f.background,
                off6(f, pretty),
            )
            &&& sp_lit(s, off6(f, pretty), 44) == PStep::Found((), off6(f, pretty) + 1)
            &&& sp_kw(s, off6(f, pretty) + 1, kw_size()) == PStep::Found((), off7(f, pretty))
            &&& sp_lit(s, off7(f, pretty), 58) == PStep::Found((), off7(f, pretty) + 1)
            &&& sp_point(s, off7(f, pretty) + 1) == PStep::Found(f.size, off8(f, pretty))
            &&& sp_lit(s, off8(f, pretty), 41) == PStep::Found((), s.len() as int)
            &&& sp_skip_ws(s, s.len() as int) == s.len() as int
        }),
{
    let s = ser_map_bytes(f, pretty);
    lemma_bytes_first(s, off5(f, pretty) - kw_background().len(), kw_background());
    lemma_skip_over(s, off4(f, pretty) + 1, nl_ind(pretty));
    lemma_kw_at(s, off5(f, pretty) - kw_background().len(), kw_background());
    lemma_bytes_one(s, off5(f, pretty), 58);
    assert(sp_skip_ws(s, off5(f, pretty)) == off5(f, pretty));
    lemma_string_at(s, off5(f, pretty) + 1, sep(pretty), f.background);
    lemma_bytes_one(s, off6(f, pretty), 44);
    assert(sp_skip_ws(s, off6(f, pretty)) == off6(f, pretty));
    lemma_bytes_first(s, off7(f, pretty) - kw_size().len(), kw_size());
    lemma_skip_over(s, off6(f, pretty) + 1, nl_ind(pretty));
    lemma_kw_at(s, off7(f, pretty) - kw_size().len(), kw_size());
    lemma_bytes_one(s, off7(f, pretty), 58);
    assert(sp_skip_ws(s, off7(f, pretty)) == off7(f, pretty));
    lemma_point_at(s, off7(f, pretty) + 1, sep(pretty), f.size, pretty);
    lemma_bytes_one(s, off8(f, pretty) + nl_end(pretty).len(), 41);
    lemma_skip_over(s, off8(f, pretty), nl_end(pretty));
    assert(sp_skip_ws(s, s.len() as int) == s.len() as int);
}

/// Law: writing an aggregate's fields and parsing the result, in
/// either variant, yields exactly the same fields, spanning the whole
/// byte string.  Loading therefore rebuilds the same polygon, markers,
/// path and size; the curve is rebuilt from the same points and the
/// parameter domain starts at zero again.
#[verifier::spinoff_prover]
#[verifier::rlimit(100)]
pub proof fn lemma_save_load_roundtrip(f: MapFields, pretty: bool)
    requires
        crate::geom::points_ok(f.points),
        f.points.len() <= 0x100000,
        crate::geom::points_ok(f.tuesdays),
        f.tuesdays.len() <= 0x100000,
        crate::geom::point_ok(f.size),
        path_ok(f.background),
    ensures
        sp_map(ser_map_bytes(f, pretty)) == PStep::Found(
            f,
            ser_map_bytes(f, pretty).len() as int,
        ),
{
    let s = ser_map_bytes(f, pretty);
    lemma_rt_chunks_back(f, pretty);
    lemma_rt_chunks_front(f, pretty);
    lemma_rt_fields1(f, pretty);
    lemma_rt_fields2(f, pretty);
    assert(sp_map(s) == PStep::Found(
        MapFields {
            points: f.points,
            tuesdays: f.tuesdays,
            background: f.background,
            size: f.size,
        },
        s.len() as int,
    ));
    assert(MapFields {
        points: f.points,
        tuesdays: f.tuesdays,
        background: f.background,
        size: f.size,
    } =~= f);
}

/// The persisted fields of an aggregate.
pub open spec fn fields_of(m: CurveMap) -> MapFields {
    MapFields {
        points: m.points@,
        tuesdays: m.tuesdays@,
        background: m.background@,
        size: m.size,
    }
}

} // verus!
