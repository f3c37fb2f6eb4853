//! Scenario parsing: `user`, `sat` and `interferer` lines, each with
//! an integer id and three decimal coordinates in kilometres. A
//! coordinate is read as a fixed-point number of 1/50 km units: the
//! fraction is truncated to nine digits, scaled, and floored, and the
//! magnitude must stay within the library's coordinate range. Lines
//! with an unknown first word (comments among them) are ignored; a
//! recognized line that does not parse fails the whole scenario.

use vstd::prelude::*;
use vstd::string::StringSliceAdditionalSpecFns;

use crate::position::{Position, MAX_COORD, UNITS_PER_KM};
use crate::report::{kw_sat, kw_user};
use crate::scenario::{Entity, Satellite, Scenario};
use crate::text::{
    parse_int_tok, spec_all_digits, spec_digits_val, spec_is_digit, spec_lines, spec_numeral_ok,
    spec_parse_int, spec_tokens, split_lines, tokenize, views_of,
};

verus! {

/// The bytes of the keyword `interferer`.
pub open spec fn kw_interferer() -> Seq<u8> {
    seq![105u8, 110u8, 116u8, 101u8, 114u8, 102u8, 101u8, 114u8, 101u8, 114u8]
}

/// Index of the first dot byte, or the length if there is none.
pub open spec fn spec_first_dot(s: Seq<u8>) -> int
    decreases s.len(),
{
    if s.len() == 0 {
        0
    } else if s[0] == 46 {
        0
    } else {
        1 + spec_first_dot(s.drop_first())
    }
}

/// The first-dot index lies within the string.
pub proof fn lemma_first_dot_bounds(s: Seq<u8>)
    ensures
        0 <= spec_first_dot(s) <= s.len(),
    decreases s.len(),
{
    if s.len() == 0 {
    } else if s[0] == 46 {
    } else {
        lemma_first_dot_bounds(s.drop_first());
    }
}

/// Characterization of `spec_first_dot`.
pub proof fn lemma_first_dot_at(s: Seq<u8>, e: int)
    requires
        0 <= e <= s.len(),
        forall|k: int| 0 <= k < e ==> s[k] != 46,
        e < s.len() ==> s[e] == 46,
    ensures
        spec_first_dot(s) == e,
    decreases e,
{
    if s.len() == 0 {
    } else if e == 0 {
    } else {
        lemma_first_dot_at(s.drop_first(), e - 1);
    }
}

/// Powers of ten.
pub open spec fn spec_pow10(k: int) -> int
    decreases k,
{
    if k <= 0 {
        1
    } else {
        10 * spec_pow10(k - 1)
    }
}

/// A digit string's value is nonnegative.
pub proof fn lemma_digits_val_nonneg(s: Seq<u8>)
    requires
        spec_all_digits(s),
    ensures
        spec_digits_val(s) >= 0,
    decreases s.len(),
{
    if s.len() > 0 {
        assert(spec_all_digits(s.drop_last())) by {
            assert(forall|i: int| 0 <= i < s.len() - 1 ==> s.drop_last()[i] == #[trigger] s[i]);
        }
        lemma_digits_val_nonneg(s.drop_last());
        assert(spec_digits_val(s.drop_last()) * 10 >= 0) by (nonlinear_arith)
            requires
                spec_digits_val(s.drop_last()) >= 0,
        ;
    }
}

/// Powers of ten are positive.
pub proof fn lemma_pow10_pos(k: int)
    ensures
        spec_pow10(k) >= 1,
    decreases k,
{
    if k > 0 {
        lemma_pow10_pos(k - 1);
    }
}

/// Magnitude of an unsigned fixed-point coordinate, in 1/50 km units:
/// the integer kilometres scaled by 50, plus the floor of the scaled
/// nine-digit-truncated fraction; or nothing if malformed or out of
/// the coordinate range.
pub open spec fn spec_coord_mag(s: Seq<u8>) -> Option<int> {
    let di = spec_first_dot(s);
    let ip = s.take(di);
    let fp = if di == s.len() {
        Seq::<u8>::empty()
    } else {
        s.skip(di + 1)
    };
    if ip.len() == 0 || !spec_all_digits(ip) || !spec_all_digits(fp) {
        None
    } else {
        let fl = if fp.len() > 9 {
            9int
        } else {
            fp.len() as int
        };
        let m = spec_digits_val(ip) * (UNITS_PER_KM as int) + (spec_digits_val(fp.take(fl)) * (
        UNITS_PER_KM as int)) / spec_pow10(fl);
        if m > MAX_COORD as int {
            None
        } else {
            Some(m)
        }
    }
}

/// A signed fixed-point coordinate in 1/50 km units; the sign is
/// applied after truncation, so values round toward zero.
pub open spec fn spec_parse_coord(s: Seq<u8>) -> Option<int> {
    if s.len() >= 1 && s[0] == 45 {
        match spec_coord_mag(s.drop_first()) {
            Some(m) => Some(-m),
            None => None,
        }
    } else {
        spec_coord_mag(s)
    }
}

/// The position three coordinate tokens stand for.
pub open spec fn spec_position_of(a: Seq<u8>, b: Seq<u8>, c: Seq<u8>) -> Option<Position> {
    match (spec_parse_coord(a), spec_parse_coord(b), spec_parse_coord(c)) {
        (Some(x), Some(y), Some(z)) => Some(
            Position { x: x as i64, y: y as i64, z: z as i64 },
        ),
        _ => None,
    }
}

/// The entity four value tokens stand for: an id in `i32` range and
/// three coordinates.
pub open spec fn spec_entity_fields(idt: Seq<u8>, a: Seq<u8>, b: Seq<u8>, c: Seq<u8>) -> Option<
    Entity,
> {
    if !spec_numeral_ok(idt) {
        None
    } else {
        let id = spec_parse_int(idt).unwrap();
        if id < i32::MIN as int || id > i32::MAX as int {
            None
        } else {
            match spec_position_of(a, b, c) {
                Some(p) => Some(Entity { id: id as i32, position: p }),
                None => None,
            }
        }
    }
}

/// The entity a recognized line's tokens stand for: the keyword, an
/// id in `i32` range, and three coordinates, nothing more.
pub open spec fn spec_entity_of(toks: Seq<Seq<u8>>) -> Option<Entity> {
    if toks.len() != 5 {
        None
    } else {
        spec_entity_fields(toks[1], toks[2], toks[3], toks[4])
    }
}

/// The position a whole string of three coordinate tokens stands for.
pub open spec fn spec_parse_position(s: Seq<u8>) -> Option<Position> {
    let toks = spec_tokens(s);
    if toks.len() != 3 {
        None
    } else {
        spec_position_of(toks[0], toks[1], toks[2])
    }
}

/// The entity a whole string of an id and three coordinate tokens
/// stands for.
pub open spec fn spec_parse_entity(s: Seq<u8>) -> Option<Entity> {
    let toks = spec_tokens(s);
    if toks.len() != 4 {
        None
    } else {
        spec_entity_fields(toks[0], toks[1], toks[2], toks[3])
    }
}

/// Parse of a whole scenario: the users, satellite entities and
/// interferers of the recognized lines, in line order.
pub open spec fn spec_parse_scenario(ls: Seq<Seq<u8>>) -> Option<
    (Seq<Entity>, Seq<Entity>, Seq<Entity>),
>
    decreases ls.len(),
{
    if ls.len() == 0 {
        Some((Seq::empty(), Seq::empty(), Seq::empty()))
    } else {
        let toks = spec_tokens(ls[0]);
        let rest = spec_parse_scenario(ls.drop_first());
        if toks.len() == 0 {
            rest
        } else if toks[0] == kw_user() {
            match (spec_entity_of(toks), rest) {
                (Some(e), Some(t)) => Some((seq![e] + t.0, t.1, t.2)),
                _ => None,
            }
        } else if toks[0] == kw_sat() {
            match (spec_entity_of(toks), rest) {
                (Some(e), Some(t)) => Some((t.0, seq![e] + t.1, t.2)),
                _ => None,
            }
        } else if toks[0] == kw_interferer() {
            match (spec_entity_of(toks), rest) {
                (Some(e), Some(t)) => Some((t.0, t.1, seq![e] + t.2)),
                _ => None,
            }
        } else {
            rest
        }
    }
}

/// A parsed coordinate is within the coordinate range.
pub proof fn lemma_coord_in_range(s: Seq<u8>)
    requires
        spec_parse_coord(s) is Some,
    ensures
        -(MAX_COORD as int) <= spec_parse_coord(s).unwrap() <= MAX_COORD as int,
{
    if s.len() >= 1 && s[0] == 45 {
        lemma_coord_mag_bounds(s.drop_first());
    } else {
        lemma_coord_mag_bounds(s);
    }
}

/// A parsed coordinate magnitude is between zero and the range bound.
proof fn lemma_coord_mag_bounds(s: Seq<u8>)
    requires
        spec_coord_mag(s) is Some,
    ensures
        0 <= spec_coord_mag(s).unwrap() <= MAX_COORD as int,
{
    let di = spec_first_dot(s);
    lemma_first_dot_bounds(s);
    let ip = s.take(di);
    let fp = if di == s.len() {
        Seq::<u8>::empty()
    } else {
        s.skip(di + 1)
    };
    let fl = if fp.len() > 9 {
        9int
    } else {
        fp.len() as int
    };
    lemma_digits_val_nonneg(ip);
    assert(spec_all_digits(fp.take(fl))) by {
        assert(forall|i: int| 0 <= i < fl ==> fp.take(fl)[i] == #[trigger] fp[i]);
    }
    lemma_digits_val_nonneg(fp.take(fl));
    lemma_pow10_pos(fl);
    let fv = spec_digits_val(fp.take(fl));
    assert(fv * (UNITS_PER_KM as int) >= 0) by (nonlinear_arith)
        requires
            fv >= 0,
    ;
    assert((fv * (UNITS_PER_KM as int)) / spec_pow10(fl) >= 0) by (nonlinear_arith)
        requires
            fv * (UNITS_PER_KM as int) >= 0,
            spec_pow10(fl) >= 1,
    ;
    assert(spec_digits_val(ip) * (UNITS_PER_KM as int) >= 0) by (nonlinear_arith)
        requires
            spec_digits_val(ip) >= 0,
    ;
}

/// If no dot occurs before `e`, the first dot is at `e` or later.
proof fn lemma_first_dot_ge(s: Seq<u8>, e: int)
    requires
        0 <= e <= s.len(),
        forall|k: int| 0 <= k < e ==> s[k] != 46,
    ensures
        spec_first_dot(s) >= e,
    decreases e,
{
    lemma_first_dot_bounds(s);
    if s.len() == 0 || e == 0 {
    } else {
        lemma_first_dot_ge(s.drop_first(), e - 1);
    }
}

/// A coordinate whose integer part exceeds the kilometre bound never
/// parses.
proof fn lemma_coord_mag_big(s: Seq<u8>)
    requires
        spec_digits_val(s.take(spec_first_dot(s))) > 48_000,
    ensures
        spec_coord_mag(s) is None,
{
    let di = spec_first_dot(s);
    lemma_first_dot_bounds(s);
    let ip = s.take(di);
    let fp = if di == s.len() {
        Seq::<u8>::empty()
    } else {
        s.skip(di + 1)
    };
    if ip.len() == 0 || !spec_all_digits(ip) || !spec_all_digits(fp) {
    } else {
        let fl = if fp.len() > 9 {
            9int
        } else {
            fp.len() as int
        };
        assert(spec_all_digits(fp.take(fl))) by {
            assert(forall|i: int| 0 <= i < fl ==> fp.take(fl)[i] == #[trigger] fp[i]);
        }
        lemma_digits_val_nonneg(fp.take(fl));
        lemma_pow10_pos(fl);
        let fv = spec_digits_val(fp.take(fl));
        assert(fv * (UNITS_PER_KM as int) >= 0) by (nonlinear_arith)
            requires
                fv >= 0,
        ;
        assert((fv * (UNITS_PER_KM as int)) / spec_pow10(fl) >= 0) by (nonlinear_arith)
            requires
                fv * (UNITS_PER_KM as int) >= 0,
                spec_pow10(fl) >= 1,
        ;
        assert(spec_digits_val(ip) * (UNITS_PER_KM as int) > 2_400_000);
    }
}

/// Ten to a small power, executably.
fn pow10_u64(k: usize) -> (r: u64)
    requires
        k <= 9,
    ensures
        r == spec_pow10(k as int),
        1 <= r <= 1_000_000_000,
{
    let mut p: u64 = 1;
    let mut c: usize = 0;
    while c < k
        invariant
            c <= k <= 9,
            p == spec_pow10(c as int),
            1 <= p <= 1_000_000_000,
        decreases k - c,
    {
        proof {
            lemma_pow10_pos(c as int);
            assert(spec_pow10(c as int + 1) == 10 * spec_pow10(c as int));
            lemma_pow10_mono(c as int, 8);
            reveal_with_fuel(spec_pow10, 11);
            assert(spec_pow10(8) == 100_000_000);
        }
        p = p * 10;
        c = c + 1;
    }
    p
}

/// Powers of ten grow with the exponent.
proof fn lemma_pow10_mono(a: int, b: int)
    requires
        a <= b,
    ensures
        spec_pow10(a) <= spec_pow10(b),
    decreases b - a,
{
    if a < b {
        lemma_pow10_mono(a, b - 1);
        lemma_pow10_pos(b - 1);
    }
}

/// Parses one coordinate token into 1/50 km units.
pub fn parse_coord_tok(t: &Vec<u8>) -> (r: Option<i64>)
    ensures
        match r {
            Some(v) => spec_parse_coord(t@) == Some(v as int) && -MAX_COORD <= v <= MAX_COORD,
            None => spec_parse_coord(t@) is None,
        },
{
    let n = t.len();
    if n == 0 {
        proof {
            assert(spec_first_dot(Seq::<u8>::empty()) == 0);
        }
        return None;
    }
    let negative = t[0] == 45;
    let start: usize = if negative {
        1
    } else {
        0
    };
    let ghost mseq = if negative {
        t@.drop_first()
    } else {
        t@
    };
    proof {
        assert(mseq =~= t@.subrange(start as int, n as int));
    }
    let mut k = start;
    let mut acc: i64 = 0;
    let mut over = false;
    while k < n && t[k] != 46
        invariant
            start <= k <= n,
            n == t@.len(),
            n >= 1,
            negative == (t@[0] == 45),
            start == if negative {
                1int
            } else {
                0int
            },
            mseq == if negative {
                t@.drop_first()
            } else {
                t@
            },
            mseq =~= t@.subrange(start as int, n as int),
            forall|q: int| start <= q < k ==> t@[q] != 46,
            forall|q: int| start <= q < k ==> spec_is_digit(t@[q]),
            spec_all_digits(mseq.take(k - start)),
            !over ==> 0 <= acc <= 48_000 && acc == spec_digits_val(mseq.take(k - start)),
            over ==> spec_digits_val(mseq.take(k - start)) > 48_000,
        decreases n - k,
    {
        let c = t[k];
        if c < 48 || c > 57 {
            proof {
                lemma_first_dot_ge(mseq, k - start + 1);
                lemma_first_dot_bounds(mseq);
                let di = spec_first_dot(mseq);
                let ip = mseq.take(di);
                assert(ip[k - start] == t@[k as int]);
                assert(!spec_is_digit(ip[k - start]));
                assert(spec_coord_mag(mseq) is None);
            }
            return None;
        }
        proof {
            assert(mseq.take(k - start + 1).drop_last() =~= mseq.take(k - start));
            assert(mseq.take(k - start + 1).last() == t@[k as int]);
        }
        if over {
            proof {
                let prev = spec_digits_val(mseq.take(k - start));
                assert(spec_digits_val(mseq.take(k - start + 1)) == prev * 10 + (c - 48));
                assert(prev * 10 >= prev) by (nonlinear_arith)
                    requires
                        prev > 0,
                ;
            }
        } else if acc > 4_800 || (acc == 4_800 && c > 48) {
            over = true;
            proof {
                let prev = spec_digits_val(mseq.take(k - start));
                assert(spec_digits_val(mseq.take(k - start + 1)) == prev * 10 + (c - 48));
                if acc > 4_800 {
                    assert(prev * 10 > 48_000) by (nonlinear_arith)
                        requires
                            prev > 4_800,
                    ;
                }
            }
        } else {
            acc = acc * 10 + ((c - 48) as i64);
        }
        k = k + 1;
    }
    proof {
        lemma_first_dot_at(mseq, k - start);
    }
    if k == start {
        return None;
    }
    if over {
        proof {
            lemma_coord_mag_big(mseq);
        }
        return None;
    }
    let ghost di = k - start;
    let ghost fpseq = if k == n {
        Seq::<u8>::empty()
    } else {
        mseq.skip(di + 1)
    };
    proof {
        if k < n {
            assert(fpseq =~= t@.subrange(k as int + 1, n as int));
        }
    }
    let mut frac: u64 = 0;
    let mut fl: usize = 0;
    if k < n {
        let mut j = k + 1;
        while j < n
            invariant
                k + 1 <= j <= n,
                n == t@.len(),
                n >= 1,
                k < n,
                start < k,
                negative == (t@[0] == 45),
                start == if negative {
                    1int
                } else {
                    0int
                },
                mseq == if negative {
                    t@.drop_first()
                } else {
                    t@
                },
                mseq =~= t@.subrange(start as int, n as int),
                spec_first_dot(mseq) == k - start,
                fpseq =~= t@.subrange(k as int + 1, n as int),
                forall|q: int| k + 1 <= q < j ==> spec_is_digit(t@[q]),
                fl == if j - (k + 1) > 9 {
                    9int
                } else {
                    j - (k + 1)
                },
                frac == spec_digits_val(fpseq.take(fl as int)),
                frac < spec_pow10(fl as int),
                frac <= 999_999_999,
            decreases n - j,
        {
            let c = t[j];
            if c < 48 || c > 57 {
                proof {
                    assert(fpseq[j - (k + 1)] == t@[j as int]);
                    assert(!spec_is_digit(fpseq[j - (k + 1)]));
                    assert(mseq.skip(k - start + 1) =~= fpseq);
                    lemma_first_dot_bounds(mseq);
                    assert(spec_coord_mag(mseq) is None);
                }
                return None;
            }
            if fl < 9 {
                proof {
                    assert(fpseq.take(fl as int + 1).drop_last() =~= fpseq.take(fl as int));
                    assert(fpseq.take(fl as int + 1).last() == t@[j as int]);
                    lemma_pow10_mono(fl as int, 8);
                    reveal_with_fuel(spec_pow10, 11);
                    assert(spec_pow10(8) == 100_000_000);
                    assert(spec_pow10(fl as int + 1) == 10 * spec_pow10(fl as int));
                }
                frac = frac * 10 + ((c - 48) as u64);
                fl = fl + 1;
            }
            j = j + 1;
        }
    }
    let p = pow10_u64(fl);
    let scaled = frac * 50;
    let frac_units = scaled / p;
    let mag = acc * 50 + (frac_units as i64);
    proof {
        let sfl = if fpseq.len() > 9 {
            9int
        } else {
            fpseq.len() as int
        };
        assert(sfl == fl as int);
        assert(spec_all_digits(fpseq));
        assert(spec_all_digits(mseq.take(di)));
        assert(frac_units as int == (spec_digits_val(fpseq.take(sfl)) * (UNITS_PER_KM as int))
            / spec_pow10(sfl));
    }
    if mag > MAX_COORD {
        return None;
    }
    if negative {
        Some(-mag)
    } else {
        Some(mag)
    }
}

/// Whether the token is the keyword `interferer`.
fn tok_is_interferer(t: &Vec<u8>) -> (r: bool)
    ensures
        r == (t@ == kw_interferer()),
{
    proof {
        assert(kw_interferer().len() == 10);
    }
    if t.len() == 10 && t[0] == 105 && t[1] == 110 && t[2] == 116 && t[3] == 101 && t[4] == 114
        && t[5] == 102 && t[6] == 101 && t[7] == 114 && t[8] == 101 && t[9] == 114 {
        proof {
            assert(t@ =~= kw_interferer());
        }
        true
    } else {
        false
    }
}

/// Parses an id token and three coordinate tokens into an entity.
fn parse_entity_fields(idt: &Vec<u8>, a: &Vec<u8>, b: &Vec<u8>, c: &Vec<u8>) -> (r: Option<Entity>)
    ensures
        match r {
            Some(e) => spec_entity_fields(idt@, a@, b@, c@) == Some(e)
                && e.position.in_range(),
            None => spec_entity_fields(idt@, a@, b@, c@) is None,
        },
{
    let id = match parse_int_tok(idt) {
        Some(v) => v,
        None => {
            return None;
        },
    };
    if id < -2147483648 || id > 2147483647 {
        return None;
    }
    let x = match parse_coord_tok(a) {
        Some(v) => v,
        None => {
            return None;
        },
    };
    let y = match parse_coord_tok(b) {
        Some(v) => v,
        None => {
            return None;
        },
    };
    let z = match parse_coord_tok(c) {
        Some(v) => v,
        None => {
            return None;
        },
    };
    Some(Entity { id: id as i32, position: Position { x, y, z } })
}

/// Parses a string of three coordinate tokens into a position.
pub fn parse_position(s: &str) -> (r: Option<Position>)
    ensures
        match r {
            Some(p) => spec_parse_position(s.spec_bytes()) == Some(p),
            None => spec_parse_position(s.spec_bytes()) is None,
        },
{
    let bytes = vstd::slice::slice_to_vec(s.as_bytes());
    let toks = tokenize(&bytes);
    proof {
        assert(views_of(toks@).len() == toks@.len());
    }
    if toks.len() != 3 {
        return None;
    }
    proof {
        assert forall|q: int| 0 <= q < 3 implies (#[trigger] toks@[q])@ == spec_tokens(
            s.spec_bytes(),
        )[q] by {
            assert(views_of(toks@)[q] == toks@[q]@);
        }
    }
    let x = match parse_coord_tok(&toks[0]) {
        Some(v) => v,
        None => {
            return None;
        },
    };
    let y = match parse_coord_tok(&toks[1]) {
        Some(v) => v,
        None => {
            return None;
        },
    };
    let z = match parse_coord_tok(&toks[2]) {
        Some(v) => v,
        None => {
            return None;
        },
    };
    Some(Position { x, y, z })
}

/// Parses a string of an id and three coordinate tokens into an
/// entity.
pub fn parse_entity(s: &str) -> (r: Option<Entity>)
    ensures
        match r {
            Some(e) => spec_parse_entity(s.spec_bytes()) == Some(e) && e.position.in_range(),
            None => spec_parse_entity(s.spec_bytes()) is None,
        },
{
    let bytes = vstd::slice::slice_to_vec(s.as_bytes());
    let toks = tokenize(&bytes);
    proof {
        assert(views_of(toks@).len() == toks@.len());
    }
    if toks.len() != 4 {
        return None;
    }
    proof {
        assert forall|q: int| 0 <= q < 4 implies (#[trigger] toks@[q])@ == spec_tokens(
            s.spec_bytes(),
        )[q] by {
            assert(views_of(toks@)[q] == toks@[q]@);
        }
    }
    parse_entity_fields(&toks[0], &toks[1], &toks[2], &toks[3])
}

/// The entities of a sequence of satellites.
pub open spec fn sat_entities(sats: Seq<Satellite>) -> Seq<Entity> {
    sats.map_values(|s: Satellite| s.entity)
}

impl Scenario {
    /// Builds a scenario from its textual form: one entity per
    /// recognized line, in line order, with satellites starting with
    /// no beams and an empty visibility list. `None` exactly when a
    /// recognized line is malformed or a coordinate is out of range.
    pub fn from_str(s: &str) -> (r: Option<Scenario>)
        ensures
            match r {
                Some(sc) => {
                    &&& spec_parse_scenario(spec_lines(s.spec_bytes())) is Some
                    &&& {
                        let t = spec_parse_scenario(spec_lines(s.spec_bytes())).unwrap();
                        &&& sc.users@ == t.0
                        &&& sat_entities(sc.satellites@) == t.1
                        &&& sc.interferers@ == t.2
                    }
                    &&& forall|j: int|
                        0 <= j < sc.satellites@.len() ==> (#[trigger] sc.satellites@[j])@.beams
                            == Seq::<crate::scenario::Beam>::empty() && sc.satellites@[j]@.visible
                            == Seq::<Entity>::empty()
                    &&& sc.assigned == 0
                    &&& sc.positions_in_range()
                },
                None => spec_parse_scenario(spec_lines(s.spec_bytes())) is None,
            },
    {
        let bytes = s.as_bytes();
        let lines = split_lines(bytes);
        let ghost ls = spec_lines(s.spec_bytes());
        let n = lines.len();
        proof {
            assert(views_of(lines@).len() == lines@.len());
            assert(ls.skip(0) =~= ls);
        }
        let mut users: Vec<Entity> = Vec::new();
        let mut sats: Vec<Satellite> = Vec::new();
        let mut intfs: Vec<Entity> = Vec::new();
        let mut k: usize = 0;
        while k < n
            invariant
                k <= n,
                n == lines@.len(),
                views_of(lines@) == ls,
                ls == spec_lines(s.spec_bytes()),
                spec_parse_scenario(ls.skip(k as int)) is Some ==> {
                    let t = spec_parse_scenario(ls.skip(k as int)).unwrap();
                    let full = spec_parse_scenario(ls);
                    &&& full is Some
                    &&& full.unwrap().0 == users@ + t.0
                    &&& full.unwrap().1 == sat_entities(sats@) + t.1
                    &&& full.unwrap().2 == intfs@ + t.2
                },
                spec_parse_scenario(ls.skip(k as int)) is None ==> spec_parse_scenario(ls)
                    is None,
                forall|j: int|
                    0 <= j < sats@.len() ==> (#[trigger] sats@[j])@.beams == Seq::<
                        crate::scenario::Beam,
                    >::empty() && sats@[j]@.visible == Seq::<Entity>::empty(),
                forall|j: int|
                    0 <= j < users@.len() ==> (#[trigger] users@[j]).position.in_range(),
                forall|j: int|
                    0 <= j < sats@.len() ==> (#[trigger] sats@[j]).entity.position.in_range(),
                forall|j: int|
                    0 <= j < intfs@.len() ==> (#[trigger] intfs@[j]).position.in_range(),
            decreases n - k,
        {
            proof {
                assert(views_of(lines@)[k as int] == lines@[k as int]@);
                assert(ls.skip(k as int)[0] == ls[k as int]);
                assert(ls.skip(k as int).drop_first() =~= ls.skip(k as int + 1));
            }
            let toks = tokenize(&lines[k]);
            let ghost stoks = spec_tokens(ls[k as int]);
            proof {
                assert(views_of(toks@).len() == toks@.len());
            }
            if toks.len() == 0 {
            } else {
                proof {
                    assert(views_of(toks@)[0] == toks@[0]@);
                }
                if crate::report::tok_is_user(&toks[0]) {
                    if toks.len() != 5 {
                        return None;
                    }
                    proof {
                        assert forall|q: int| 0 <= q < 5 implies (#[trigger] toks@[q])@
                            == stoks[q] by {
                            assert(views_of(toks@)[q] == toks@[q]@);
                        }
                    }
                    match parse_entity_fields(&toks[1], &toks[2], &toks[3], &toks[4]) {
                        None => {
                            return None;
                        },
                        Some(e) => {
                            users.push(e);
                            proof {
                                if spec_parse_scenario(ls.skip(k as int + 1)) is Some {
                                    let t = spec_parse_scenario(ls.skip(k as int + 1)).unwrap();
                                    assert(users@ + t.0 =~= users@.drop_last() + (seq![e] + t.0));
                                }
                            }
                        },
                    }
                } else if crate::report::tok_is_sat(&toks[0]) {
                    if toks.len() != 5 {
                        return None;
                    }
                    proof {
                        assert forall|q: int| 0 <= q < 5 implies (#[trigger] toks@[q])@
                            == stoks[q] by {
                            assert(views_of(toks@)[q] == toks@[q]@);
                        }
                    }
                    match parse_entity_fields(&toks[1], &toks[2], &toks[3], &toks[4]) {
                        None => {
                            return None;
                        },
                        Some(e) => {
                            sats.push(Satellite::from_entity(e));
                            proof {
                                if spec_parse_scenario(ls.skip(k as int + 1)) is Some {
                                    let t = spec_parse_scenario(ls.skip(k as int + 1)).unwrap();
                                    assert(sat_entities(sats@) =~= sat_entities(sats@.drop_last())
                                        + seq![e]);
                                    assert(sat_entities(sats@) + t.1 =~= sat_entities(
                                        sats@.drop_last(),
                                    ) + (seq![e] + t.1));
                                }
                            }
                        },
                    }
                } else if tok_is_interferer(&toks[0]) {
                    if toks.len() != 5 {
                        return None;
                    }
                    proof {
                        assert forall|q: int| 0 <= q < 5 implies (#[trigger] toks@[q])@
                            == stoks[q] by {
                            assert(views_of(toks@)[q] == toks@[q]@);
                        }
                    }
                    match parse_entity_fields(&toks[1], &toks[2], &toks[3], &toks[4]) {
                        None => {
                            return None;
                        },
                        Some(e) => {
                            intfs.push(e);
                            proof {
                                if spec_parse_scenario(ls.skip(k as int + 1)) is Some {
                                    let t = spec_parse_scenario(ls.skip(k as int + 1)).unwrap();
                                    assert(intfs@ + t.2 =~= intfs@.drop_last() + (seq![e] + t.2));
                                }
                            }
                        },
                    }
                } else {
                }
            }
            k = k + 1;
        }
        proof {
            assert(ls.skip(n as int) =~= Seq::<Seq<u8>>::empty());
            assert(spec_parse_scenario(Seq::<Seq<u8>>::empty()) is Some);
            let t = spec_parse_scenario(Seq::<Seq<u8>>::empty()).unwrap();
            assert(users@ + t.0 =~= users@);
            assert(sat_entities(sats@) + t.1 =~= sat_entities(sats@));
            assert(intfs@ + t.2 =~= intfs@);
        }
        Some(Scenario { users, satellites: sats, interferers: intfs, assigned: 0 })
    }
}

} // verus!
