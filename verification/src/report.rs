//! The assignment report: the system's sole externally observable
//! artifact. For each satellite in input order and each beam in grant
//! order it emits `sat <id> beam <index> user <id> color <letter>`,
//! one line per beam, with the beam index 1-based. A verified parser
//! reads the same format back, and re-parsing a rendered report is
//! proved to give back exactly the entries it was rendered from.

use vstd::prelude::*;
use vstd::string::StringSliceAdditionalSpecFns;

use crate::scenario::{sat_states, Band, SatState, Scenario};
use crate::text::{
    lemma_dec_u_props, lemma_lines_single, lemma_lines_step, lemma_parse_dec_i, lemma_parse_dec_u,
    lemma_tokens_single, lemma_tokens_step, parse_int_tok, push_dec_i, push_dec_u, spec_dec_i, spec_dec_u,
    spec_lines, spec_numeral_ok, spec_parse_int, spec_tokens, split_lines,
    tokenize, views_of, MAX_NUMERAL,
};

verus! {

/// One line of the report: a granted beam, as the four serialized
/// fields.
#[derive(Clone, Copy, PartialEq, Eq, Structural, Debug)]
pub struct ReportEntry {
    pub sat: i32,
    pub beam: u64,
    pub user: i32,
    pub band: Band,
}

/// The bytes of the keyword `sat`.
pub open spec fn kw_sat() -> Seq<u8> {
    seq![115u8, 97u8, 116u8]
}

/// The bytes of the keyword `beam`.
pub open spec fn kw_beam() -> Seq<u8> {
    seq![98u8, 101u8, 97u8, 109u8]
}

/// The bytes of the keyword `user`.
pub open spec fn kw_user() -> Seq<u8> {
    seq![117u8, 115u8, 101u8, 114u8]
}

/// The bytes of the keyword `color`.
pub open spec fn kw_color() -> Seq<u8> {
    seq![99u8, 111u8, 108u8, 111u8, 114u8]
}

/// The band a letter stands for.
pub open spec fn spec_band_of_letter(b: u8) -> Option<Band> {
    if b == 65 {
        Some(Band::A)
    } else if b == 66 {
        Some(Band::B)
    } else if b == 67 {
        Some(Band::C)
    } else if b == 68 {
        Some(Band::D)
    } else {
        None
    }
}

/// The serialized line of one entry, without the newline.
pub open spec fn spec_render_entry(e: ReportEntry) -> Seq<u8> {
    kw_sat() + seq![32u8] + spec_dec_i(e.sat as int) + seq![32u8] + kw_beam() + seq![32u8]
        + spec_dec_u(e.beam as int) + seq![32u8] + kw_user() + seq![32u8] + spec_dec_i(
        e.user as int,
    ) + seq![32u8] + kw_color() + seq![32u8] + seq![e.band.spec_letter()]
}

/// The serialized report: entry lines joined by single newlines, with
/// no trailing newline.
pub open spec fn spec_render_report(entries: Seq<ReportEntry>) -> Seq<u8>
    decreases entries.len(),
{
    if entries.len() == 0 {
        Seq::empty()
    } else if entries.len() == 1 {
        spec_render_entry(entries[0])
    } else {
        spec_render_entry(entries[0]) + seq![10u8] + spec_render_report(entries.drop_first())
    }
}

/// Parse of one report line: exactly the four keyword-value pairs,
/// with numerals the token parser admits and ids in `i32` range.
pub open spec fn spec_parse_entry_line(line: Seq<u8>) -> Option<ReportEntry> {
    let toks = spec_tokens(line);
    if toks.len() != 8 {
        None
    } else if toks[0] != kw_sat() || toks[2] != kw_beam() || toks[4] != kw_user() || toks[6]
        != kw_color() {
        None
    } else if !spec_numeral_ok(toks[1]) || !spec_numeral_ok(toks[3]) || !spec_numeral_ok(toks[5]) {
        None
    } else {
        let sv = spec_parse_int(toks[1]).unwrap();
        let bv = spec_parse_int(toks[3]).unwrap();
        let uv = spec_parse_int(toks[5]).unwrap();
        if sv < i32::MIN as int || sv > i32::MAX as int || bv < 0 || uv < i32::MIN as int || uv
            > i32::MAX as int {
            None
        } else if toks[7].len() != 1 {
            None
        } else {
            match spec_band_of_letter(toks[7][0]) {
                Some(band) => Some(
                    ReportEntry { sat: sv as i32, beam: bv as u64, user: uv as i32, band },
                ),
                None => None,
            }
        }
    }
}

/// Parse of a sequence of report lines; any bad line fails the whole
/// report.
pub open spec fn spec_parse_report_lines(ls: Seq<Seq<u8>>) -> Option<Seq<ReportEntry>>
    decreases ls.len(),
{
    if ls.len() == 0 {
        Some(Seq::empty())
    } else {
        match spec_parse_entry_line(ls[0]) {
            None => None,
            Some(e) => match spec_parse_report_lines(ls.drop_first()) {
                None => None,
                Some(rest) => Some(seq![e] + rest),
            },
        }
    }
}

/// Parse of a whole report; the empty report is the empty entry list.
pub open spec fn spec_parse_report(s: Seq<u8>) -> Option<Seq<ReportEntry>> {
    if s.len() == 0 {
        Some(Seq::empty())
    } else {
        spec_parse_report_lines(spec_lines(s))
    }
}

/// The entries a satellite contributes: its beams in grant order, with
/// 1-based indices.
pub open spec fn spec_sat_entries(s: SatState) -> Seq<ReportEntry> {
    Seq::new(
        s.beams.len(),
        |i: int|
            ReportEntry {
                sat: s.entity.id,
                beam: (i + 1) as u64,
                user: s.beams[i].user.id,
                band: s.beams[i].band,
            },
    )
}

/// The report entries of a whole scenario state, satellites in order.
pub open spec fn spec_entries(sats: Seq<SatState>) -> Seq<ReportEntry>
    decreases sats.len(),
{
    if sats.len() == 0 {
        Seq::empty()
    } else {
        spec_entries(sats.drop_last()) + spec_sat_entries(sats.last())
    }
}

/// A rendered entry line is nonempty, holds no newline, and does not
/// begin with whitespace.
proof fn lemma_render_entry_facts(e: ReportEntry)
    ensures
        spec_render_entry(e).len() >= 1,
        forall|k: int|
            0 <= k < spec_render_entry(e).len() ==> #[trigger] spec_render_entry(e)[k] != 10,
{
    let s = spec_render_entry(e);
    let sat_mag: int = if (e.sat as int) < 0 {
        -(e.sat as int)
    } else {
        e.sat as int
    };
    let user_mag: int = if (e.user as int) < 0 {
        -(e.user as int)
    } else {
        e.user as int
    };
    lemma_dec_u_props(sat_mag);
    lemma_dec_u_props(e.beam as int);
    lemma_dec_u_props(user_mag);
    assert forall|k: int| 0 <= k < s.len() implies #[trigger] s[k] != 10 by {
        lemma_render_entry_byte(e, k);
    }
}

/// Every byte of a rendered entry line is a keyword letter, a space, a
/// digit, a minus sign, or a band letter; in particular not a newline.
proof fn lemma_render_entry_byte(e: ReportEntry, k: int)
    requires
        0 <= k < spec_render_entry(e).len(),
    ensures
        spec_render_entry(e)[k] != 10,
{
    let sat_num = spec_dec_i(e.sat as int);
    let beam_num = spec_dec_u(e.beam as int);
    let user_num = spec_dec_i(e.user as int);
    lemma_dec_i_bytes(e.sat as int);
    lemma_dec_u_bytes(e.beam as int);
    lemma_dec_i_bytes(e.user as int);
    let s = spec_render_entry(e);
    assert(s == kw_sat() + seq![32u8] + sat_num + seq![32u8] + kw_beam() + seq![32u8] + beam_num
        + seq![32u8] + kw_user() + seq![32u8] + user_num + seq![32u8] + kw_color() + seq![32u8]
        + seq![e.band.spec_letter()]);
}

/// Every byte of an unsigned numeral is a digit, hence neither a
/// newline nor whitespace.
pub proof fn lemma_dec_u_bytes(n: int)
    requires
        n >= 0,
    ensures
        forall|k: int|
            0 <= k < spec_dec_u(n).len() ==> 48 <= #[trigger] spec_dec_u(n)[k] <= 57,
{
    lemma_dec_u_props(n);
}

/// Every byte of a signed numeral is a digit or a minus sign.
pub proof fn lemma_dec_i_bytes(n: int)
    ensures
        forall|k: int|
            0 <= k < spec_dec_i(n).len() ==> (48 <= #[trigger] spec_dec_i(n)[k] <= 57
                || spec_dec_i(n)[k] == 45),
{
    if n < 0 {
        lemma_dec_u_props(-n);
        assert forall|k: int|
            0 <= k < spec_dec_i(n).len() implies (48 <= #[trigger] spec_dec_i(n)[k] <= 57
            || spec_dec_i(n)[k] == 45) by {
            if k > 0 {
                assert(spec_dec_i(n)[k] == spec_dec_u(-n)[k - 1]);
            }
        }
    } else {
        lemma_dec_u_props(n);
    }
}

/// Tokenizing a rendered entry line gives exactly the eight fields.
proof fn lemma_render_entry_tokens(e: ReportEntry)
    ensures
        spec_tokens(spec_render_entry(e)) == seq![
            kw_sat(),
            spec_dec_i(e.sat as int),
            kw_beam(),
            spec_dec_u(e.beam as int),
            kw_user(),
            spec_dec_i(e.user as int),
            kw_color(),
            seq![e.band.spec_letter()],
        ],
{
    let sat_num = spec_dec_i(e.sat as int);
    let beam_num = spec_dec_u(e.beam as int);
    let user_num = spec_dec_i(e.user as int);
    let letter = seq![e.band.spec_letter()];
    lemma_dec_i_bytes(e.sat as int);
    lemma_dec_u_bytes(e.beam as int);
    lemma_dec_i_bytes(e.user as int);
    lemma_dec_u_props(e.beam as int);
    let sat_mag: int = if (e.sat as int) < 0 {
        -(e.sat as int)
    } else {
        e.sat as int
    };
    let user_mag: int = if (e.user as int) < 0 {
        -(e.user as int)
    } else {
        e.user as int
    };
    lemma_dec_u_props(sat_mag);
    lemma_dec_u_props(user_mag);
    let s = spec_render_entry(e);
    let t7 = letter;
    let t6 = kw_color() + seq![32u8] + t7;
    let t5 = user_num + seq![32u8] + t6;
    let t4 = kw_user() + seq![32u8] + t5;
    let t3 = beam_num + seq![32u8] + t4;
    let t2 = kw_beam() + seq![32u8] + t3;
    let t1 = sat_num + seq![32u8] + t2;
    assert(s =~= kw_sat() + seq![32u8] + t1);
    lemma_tokens_step(kw_sat(), t1);
    lemma_tokens_step(sat_num, t2);
    lemma_tokens_step(kw_beam(), t3);
    lemma_tokens_step(beam_num, t4);
    lemma_tokens_step(kw_user(), t5);
    lemma_tokens_step(user_num, t6);
    lemma_tokens_step(kw_color(), t7);
    lemma_tokens_single(letter);
    assert(spec_tokens(s) =~= seq![
        kw_sat(),
        sat_num,
        kw_beam(),
        beam_num,
        kw_user(),
        user_num,
        kw_color(),
        letter,
    ]);
}

/// Parsing a rendered entry line gives back the entry.
proof fn lemma_entry_line_roundtrip(e: ReportEntry)
    requires
        e.beam <= MAX_NUMERAL as u64,
    ensures
        spec_parse_entry_line(spec_render_entry(e)) == Some(e),
{
    lemma_render_entry_tokens(e);
    lemma_parse_dec_i(e.sat as int);
    lemma_parse_dec_u(e.beam as int);
    lemma_parse_dec_i(e.user as int);
    let toks = spec_tokens(spec_render_entry(e));
    assert(toks[1] == spec_dec_i(e.sat as int));
    assert(spec_parse_int(toks[1]) == Some(e.sat as int));
    assert(spec_dec_u(e.beam as int) == spec_dec_i(e.beam as int));
    assert(spec_parse_int(toks[3]) == Some(e.beam as int));
    assert(spec_parse_int(toks[5]) == Some(e.user as int));
    assert(spec_band_of_letter(e.band.spec_letter()) == Some(e.band));
    assert(toks[7][0] == e.band.spec_letter());
}

/// Re-parsing a rendered report yields exactly the entries it was
/// rendered from. This is the round-trip law of the report format; the
/// beam indices must be within the numeral bound the parser admits.
pub proof fn lemma_report_roundtrip(entries: Seq<ReportEntry>)
    requires
        forall|i: int| 0 <= i < entries.len() ==> (#[trigger] entries[i]).beam <= MAX_NUMERAL as u64,
    ensures
        spec_parse_report(spec_render_report(entries)) == Some(entries),
    decreases entries.len(),
{
    if entries.len() == 0 {
        assert(spec_render_report(entries) =~= Seq::<u8>::empty());
        assert(spec_parse_report(Seq::<u8>::empty()) == Some(Seq::<ReportEntry>::empty()));
        assert(entries =~= Seq::<ReportEntry>::empty());
    } else if entries.len() == 1 {
        let line = spec_render_entry(entries[0]);
        lemma_render_entry_facts(entries[0]);
        lemma_lines_single(line);
        lemma_entry_line_roundtrip(entries[0]);
        assert(spec_lines(line) == seq![line]);
        assert(seq![line].drop_first() =~= Seq::<Seq<u8>>::empty());
        assert(spec_parse_report_lines(Seq::<Seq<u8>>::empty()) == Some(Seq::<
            ReportEntry,
        >::empty()));
        assert(spec_parse_report_lines(seq![line]) == Some(seq![entries[0]] + Seq::<
            ReportEntry,
        >::empty()));
        assert(seq![entries[0]] + Seq::<ReportEntry>::empty() =~= entries);
    } else {
        let e0 = entries[0];
        let line = spec_render_entry(e0);
        let rest = entries.drop_first();
        let rest_bytes = spec_render_report(rest);
        lemma_render_entry_facts(e0);
        lemma_entry_line_roundtrip(e0);
        assert(forall|i: int|
            0 <= i < rest.len() ==> (#[trigger] rest[i]).beam <= MAX_NUMERAL as u64);
        lemma_report_roundtrip(rest);
        lemma_lines_step(line, rest_bytes);
        assert(spec_render_report(entries) == line + seq![10u8] + rest_bytes);
        assert(rest.len() >= 1);
        assert(rest_bytes.len() >= 1) by {
            lemma_render_entry_facts(rest[0]);
        }
        assert(spec_lines(spec_render_report(entries)) == seq![line] + spec_lines(rest_bytes));
        let ls = seq![line] + spec_lines(rest_bytes);
        assert(ls[0] == line);
        assert(ls.drop_first() =~= spec_lines(rest_bytes));
        assert(spec_parse_report_lines(ls.drop_first()) == Some(rest));
        assert(spec_parse_report_lines(ls) == Some(seq![e0] + rest));
        assert(seq![e0] + rest =~= entries);
        assert(spec_render_report(entries).len() >= 1);
    }
}

/// Appending an entry appends its line, after a newline when the
/// report was nonempty.
proof fn lemma_render_report_snoc(es: Seq<ReportEntry>, e: ReportEntry)
    ensures
        spec_render_report(es.push(e)) == if es.len() == 0 {
            spec_render_entry(e)
        } else {
            spec_render_report(es) + seq![10u8] + spec_render_entry(e)
        },
    decreases es.len(),
{
    if es.len() == 0 {
        assert(es.push(e)[0] == e);
    } else {
        assert(es.push(e).drop_first() =~= es.drop_first().push(e));
        lemma_render_report_snoc(es.drop_first(), e);
        if es.len() == 1 {
            assert(es.drop_first().len() == 0);
            assert(spec_render_report(es.push(e)) == spec_render_entry(es[0]) + seq![10u8]
                + spec_render_entry(e));
            assert(spec_render_report(es) == spec_render_entry(es[0]));
        } else {
            assert(spec_render_report(es.push(e)) =~= spec_render_report(es) + seq![10u8]
                + spec_render_entry(e));
        }
    }
}

/// Appends one rendered entry line.
#[verifier::rlimit(60)]
fn push_entry(out: &mut Vec<u8>, e: ReportEntry)
    ensures
        final(out)@ == old(out)@ + spec_render_entry(e),
{
    out.push(115);
    out.push(97);
    out.push(116);
    out.push(32);
    proof {
        assert(out@ =~= old(out)@ + kw_sat() + seq![32u8]);
    }
    let ghost c1 = out@;
    push_dec_i(out, e.sat as i64);
    out.push(32);
    proof {
        assert(out@ =~= c1 + spec_dec_i(e.sat as int) + seq![32u8]);
    }
    let ghost c2 = out@;
    out.push(98);
    out.push(101);
    out.push(97);
    out.push(109);
    out.push(32);
    proof {
        assert(out@ =~= c2 + kw_beam() + seq![32u8]);
    }
    let ghost c3 = out@;
    push_dec_u(out, e.beam);
    out.push(32);
    proof {
        assert(out@ =~= c3 + spec_dec_u(e.beam as int) + seq![32u8]);
    }
    let ghost c4 = out@;
    out.push(117);
    out.push(115);
    out.push(101);
    out.push(114);
    out.push(32);
    proof {
        assert(out@ =~= c4 + kw_user() + seq![32u8]);
    }
    let ghost c5 = out@;
    push_dec_i(out, e.user as i64);
    out.push(32);
    proof {
        assert(out@ =~= c5 + spec_dec_i(e.user as int) + seq![32u8]);
    }
    let ghost c6 = out@;
    out.push(99);
    out.push(111);
    out.push(108);
    out.push(111);
    out.push(114);
    out.push(32);
    out.push(e.band.letter());
    proof {
        assert(out@ =~= c6 + kw_color() + seq![32u8] + seq![e.band.spec_letter()]);
        assert(out@ =~= old(out)@ + spec_render_entry(e));
    }
}

impl Scenario {
    /// Serializes the assignment: one line per granted beam, satellites
    /// in input order, beams in grant order with 1-based indices.
    pub fn format_report(&self) -> (r: Vec<u8>)
        ensures
            r@ == spec_render_report(spec_entries(sat_states(self.satellites@))),
    {
        let ghost all = sat_states(self.satellites@);
        let mut out: Vec<u8> = Vec::new();
        let mut first = true;
        let nsats = self.satellites.len();
        proof {
            assert(all.take(0) =~= Seq::<SatState>::empty());
        }
        let mut j: usize = 0;
        while j < nsats
            invariant
                j <= nsats,
                nsats == self.satellites@.len(),
                all == sat_states(self.satellites@),
                out@ == spec_render_report(spec_entries(all.take(j as int))),
                first == (spec_entries(all.take(j as int)).len() == 0),
            decreases nsats - j,
        {
            let ghost cur0 = spec_entries(all.take(j as int));
            let sat = &self.satellites[j];
            proof {
                assert(sat@ == all[j as int]);
                assert(spec_sat_entries(all[j as int]).take(0) =~= Seq::<ReportEntry>::empty());
                assert(cur0 + spec_sat_entries(all[j as int]).take(0) =~= cur0);
            }
            let nb = sat.beams.len();
            let mut i: usize = 0;
            while i < nb
                invariant
                    i <= nb,
                    nb == sat.beams@.len(),
                    sat@ == all[j as int],
                    out@ == spec_render_report(
                        cur0 + spec_sat_entries(all[j as int]).take(i as int),
                    ),
                    first == ((cur0 + spec_sat_entries(all[j as int]).take(i as int)).len() == 0),
                decreases nb - i,
            {
                let beam = &sat.beams[i];
                let e = ReportEntry {
                    sat: sat.entity.id,
                    beam: (i as u64) + 1,
                    user: beam.user.id,
                    band: beam.band,
                };
                let ghost cur = cur0 + spec_sat_entries(all[j as int]).take(i as int);
                proof {
                    assert(spec_sat_entries(all[j as int])[i as int] == e);
                    assert(cur0 + spec_sat_entries(all[j as int]).take(i as int + 1) =~= cur.push(
                        e,
                    ));
                    lemma_render_report_snoc(cur, e);
                }
                if !first {
                    out.push(10);
                }
                push_entry(&mut out, e);
                first = false;
                i = i + 1;
            }
            proof {
                assert(spec_sat_entries(all[j as int]).take(nb as int) =~= spec_sat_entries(
                    all[j as int],
                ));
                assert(all.take(j as int + 1).drop_last() =~= all.take(j as int));
                assert(all.take(j as int + 1).last() == all[j as int]);
                assert(spec_entries(all.take(j as int + 1)) == cur0 + spec_sat_entries(
                    all[j as int],
                ));
            }
            j = j + 1;
        }
        proof {
            assert(all.take(nsats as int) =~= all);
        }
        out
    }
}

/// Whether the token is the keyword `sat`.
pub(crate) fn tok_is_sat(t: &Vec<u8>) -> (r: bool)
    ensures
        r == (t@ == kw_sat()),
{
    proof {
        assert(kw_sat().len() == 3);
    }
    if t.len() == 3 && t[0] == 115 && t[1] == 97 && t[2] == 116 {
        proof {
            assert(t@ =~= kw_sat());
        }
        true
    } else {
        false
    }
}

/// Whether the token is the keyword `beam`.
fn tok_is_beam(t: &Vec<u8>) -> (r: bool)
    ensures
        r == (t@ == kw_beam()),
{
    proof {
        assert(kw_beam().len() == 4);
    }
    if t.len() == 4 && t[0] == 98 && t[1] == 101 && t[2] == 97 && t[3] == 109 {
        proof {
            assert(t@ =~= kw_beam());
        }
        true
    } else {
        false
    }
}

/// Whether the token is the keyword `user`.
pub(crate) fn tok_is_user(t: &Vec<u8>) -> (r: bool)
    ensures
        r == (t@ == kw_user()),
{
    proof {
        assert(kw_user().len() == 4);
    }
    if t.len() == 4 && t[0] == 117 && t[1] == 115 && t[2] == 101 && t[3] == 114 {
        proof {
            assert(t@ =~= kw_user());
        }
        true
    } else {
        false
    }
}

/// Whether the token is the keyword `color`.
fn tok_is_color(t: &Vec<u8>) -> (r: bool)
    ensures
        r == (t@ == kw_color()),
{
    proof {
        assert(kw_color().len() == 5);
    }
    if t.len() == 5 && t[0] == 99 && t[1] == 111 && t[2] == 108 && t[3] == 111 && t[4] == 114 {
        proof {
            assert(t@ =~= kw_color());
        }
        true
    } else {
        false
    }
}

/// Parses one report line.
fn parse_entry_line(line: &Vec<u8>) -> (r: Option<ReportEntry>)
    ensures
        match r {
            Some(e) => spec_parse_entry_line(line@) == Some(e),
            None => spec_parse_entry_line(line@) is None,
        },
{
    let toks = tokenize(line);
    let ghost stoks = spec_tokens(line@);
    proof {
        assert(views_of(toks@).len() == toks@.len());
    }
    if toks.len() != 8 {
        return None;
    }
    proof {
        assert forall|q: int| 0 <= q < 8 implies (#[trigger] toks@[q])@ == stoks[q] by {
            assert(views_of(toks@)[q] == toks@[q]@);
        }
    }
    if !tok_is_sat(&toks[0]) || !tok_is_beam(&toks[2]) || !tok_is_user(&toks[4]) || !tok_is_color(
        &toks[6],
    ) {
        return None;
    }
    let sv = match parse_int_tok(&toks[1]) {
        Some(v) => v,
        None => {
            return None;
        },
    };
    let bv = match parse_int_tok(&toks[3]) {
        Some(v) => v,
        None => {
            return None;
        },
    };
    let uv = match parse_int_tok(&toks[5]) {
        Some(v) => v,
        None => {
            return None;
        },
    };
    if sv < -2147483648 || sv > 2147483647 || bv < 0 || uv < -2147483648 || uv > 2147483647 {
        return None;
    }
    let letter_tok = &toks[7];
    if letter_tok.len() != 1 {
        return None;
    }
    let letter = letter_tok[0];
    let band = if letter == 65 {
        Band::A
    } else if letter == 66 {
        Band::B
    } else if letter == 67 {
        Band::C
    } else if letter == 68 {
        Band::D
    } else {
        return None;
    };
    Some(ReportEntry { sat: sv as i32, beam: bv as u64, user: uv as i32, band })
}

/// Parses a whole report back into its entries; `None` on any
/// malformed line.
pub fn parse_report(s: &str) -> (r: Option<Vec<ReportEntry>>)
    ensures
        match r {
            Some(v) => spec_parse_report(s.spec_bytes()) == Some(v@),
            None => spec_parse_report(s.spec_bytes()) is None,
        },
{
    let bytes = s.as_bytes();
    if bytes.len() == 0 {
        let empty: Vec<ReportEntry> = Vec::new();
        proof {
            assert(empty@ =~= Seq::<ReportEntry>::empty());
        }
        return Some(empty);
    }
    let lines = split_lines(bytes);
    let ghost ls = spec_lines(s.spec_bytes());
    let n = lines.len();
    proof {
        assert(views_of(lines@).len() == lines@.len());
        assert(ls.skip(0) =~= ls);
    }
    let mut result: Vec<ReportEntry> = Vec::new();
    let mut k: usize = 0;
    while k < n
        invariant
            k <= n,
            n == lines@.len(),
            views_of(lines@) == ls,
            ls == spec_lines(s.spec_bytes()),
            s.spec_bytes().len() > 0,
            match spec_parse_report_lines(ls.skip(k as int)) {
                Some(rest) => spec_parse_report_lines(ls) == Some(result@ + rest),
                None => spec_parse_report_lines(ls) is None,
            },
        decreases n - k,
    {
        proof {
            assert(views_of(lines@)[k as int] == lines@[k as int]@);
            assert(ls.skip(k as int)[0] == ls[k as int]);
            assert(ls.skip(k as int).drop_first() =~= ls.skip(k as int + 1));
        }
        match parse_entry_line(&lines[k]) {
            None => {
                proof {
                    assert(spec_parse_report_lines(ls.skip(k as int)) is None);
                }
                return None;
            },
            Some(e) => {
                result.push(e);
                proof {
                    if spec_parse_report_lines(ls.skip(k as int + 1)) is Some {
                        let rest = spec_parse_report_lines(ls.skip(k as int + 1)).unwrap();
                        assert(spec_parse_report_lines(ls.skip(k as int)) == Some(
                            seq![e] + rest,
                        ));
                        assert(result@ + rest =~= result@.drop_last() + (seq![e] + rest));
                    }
                }
                k = k + 1;
            },
        }
    }
    proof {
        assert(ls.skip(n as int) =~= Seq::<Seq<u8>>::empty());
        assert(spec_parse_report_lines(Seq::<Seq<u8>>::empty()) == Some(Seq::<
            ReportEntry,
        >::empty()));
        assert(result@ + Seq::<ReportEntry>::empty() =~= result@);
    }
    Some(result)
}

} // verus!
