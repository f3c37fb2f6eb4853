//! Byte-level text machinery: splitting into lines, whitespace
//! tokenizing, and decimal numerals, each as a spec function with a
//! verified executable counterpart. Everything works on ASCII bytes.

use vstd::prelude::*;

verus! {

/// Horizontal whitespace: space, tab, or carriage return (so both LF
/// and CRLF line endings parse alike).
pub open spec fn spec_is_space(b: u8) -> bool {
    b == 32 || b == 9 || b == 13
}

/// An ASCII decimal digit.
pub open spec fn spec_is_digit(b: u8) -> bool {
    48 <= b <= 57
}

/// Index of the first newline byte, or the length if there is none.
pub open spec fn spec_first_nl(s: Seq<u8>) -> int
    decreases s.len(),
{
    if s.len() == 0 {
        0
    } else if s[0] == 10 {
        0
    } else {
        1 + spec_first_nl(s.drop_first())
    }
}

/// Index of the first whitespace byte, or the length if there is none.
pub open spec fn spec_first_space(s: Seq<u8>) -> int
    decreases s.len(),
{
    if s.len() == 0 {
        0
    } else if spec_is_space(s[0]) {
        0
    } else {
        1 + spec_first_space(s.drop_first())
    }
}

/// The first-newline index lies within the string.
pub proof fn lemma_first_nl_bounds(s: Seq<u8>)
    ensures
        0 <= spec_first_nl(s) <= s.len(),
    decreases s.len(),
{
    if s.len() == 0 {
    } else if s[0] == 10 {
    } else {
        lemma_first_nl_bounds(s.drop_first());
    }
}

/// The first-whitespace index lies within the string, and is positive
/// when the string starts with a non-whitespace byte.
pub proof fn lemma_first_space_bounds(s: Seq<u8>)
    ensures
        0 <= spec_first_space(s) <= s.len(),
        s.len() > 0 && !spec_is_space(s[0]) ==> spec_first_space(s) >= 1,
    decreases s.len(),
{
    if s.len() == 0 {
    } else if spec_is_space(s[0]) {
    } else {
        lemma_first_space_bounds(s.drop_first());
    }
}

/// The lines of a byte string: the segments between newline bytes,
/// always one more segment than there are newlines. A string without
/// a newline is one line; a trailing newline opens a final empty
/// line, which the scenario parser ignores and the report parser
/// rejects.
pub open spec fn spec_lines(s: Seq<u8>) -> Seq<Seq<u8>>
    decreases s.len(),
    via spec_lines_decreases
{
    let e = spec_first_nl(s);
    if e == s.len() {
        seq![s]
    } else {
        seq![s.take(e)] + spec_lines(s.skip(e + 1))
    }
}

#[via_fn]
proof fn spec_lines_decreases(s: Seq<u8>) {
    lemma_first_nl_bounds(s);
}

/// The whitespace-separated tokens of a byte string: maximal runs of
/// non-whitespace bytes, in order.
pub open spec fn spec_tokens(s: Seq<u8>) -> Seq<Seq<u8>>
    decreases s.len(),
    via spec_tokens_decreases
{
    if s.len() == 0 {
        Seq::empty()
    } else if spec_is_space(s[0]) {
        spec_tokens(s.drop_first())
    } else {
        let e = spec_first_space(s);
        seq![s.take(e)] + spec_tokens(s.skip(e))
    }
}

#[via_fn]
proof fn spec_tokens_decreases(s: Seq<u8>) {
    lemma_first_space_bounds(s);
}

/// Every byte is a digit.
pub open spec fn spec_all_digits(s: Seq<u8>) -> bool {
    forall|i: int| 0 <= i < s.len() ==> spec_is_digit(#[trigger] s[i])
}

/// Value of a digit string, most significant digit first.
pub open spec fn spec_digits_val(s: Seq<u8>) -> int
    decreases s.len(),
{
    if s.len() == 0 {
        0
    } else {
        spec_digits_val(s.drop_last()) * 10 + (s.last() - 48)
    }
}

/// Value of a nonempty digit string, or nothing.
pub open spec fn spec_parse_uint(s: Seq<u8>) -> Option<int> {
    if s.len() >= 1 && spec_all_digits(s) {
        Some(spec_digits_val(s))
    } else {
        None
    }
}

/// Value of an optionally minus-signed nonempty digit string.
pub open spec fn spec_parse_int(s: Seq<u8>) -> Option<int> {
    if s.len() >= 1 && s[0] == 45 {
        match spec_parse_uint(s.drop_first()) {
            Some(v) => Some(-v),
            None => None,
        }
    } else {
        spec_parse_uint(s)
    }
}

/// Decimal numeral of a nonnegative integer, without leading zeros.
pub open spec fn spec_dec_u(n: int) -> Seq<u8>
    recommends
        n >= 0,
    decreases n,
{
    if n < 10 {
        seq![(48 + if n >= 0 { n } else { 0 }) as u8]
    } else {
        spec_dec_u(n / 10).push((48 + n % 10) as u8)
    }
}

/// Decimal numeral of an integer, with a minus sign when negative.
pub open spec fn spec_dec_i(n: int) -> Seq<u8> {
    if n < 0 {
        seq![45u8] + spec_dec_u(-n)
    } else {
        spec_dec_u(n)
    }
}

/// The numeral of `n` is a nonempty digit string whose value is `n`.
pub proof fn lemma_dec_u_props(n: int)
    requires
        n >= 0,
    ensures
        spec_dec_u(n).len() >= 1,
        spec_all_digits(spec_dec_u(n)),
        spec_digits_val(spec_dec_u(n)) == n,
    decreases n,
{
    if n < 10 {
        let s = spec_dec_u(n);
        assert(s.drop_last() =~= Seq::<u8>::empty());
        assert(spec_digits_val(Seq::<u8>::empty()) == 0);
        assert(s.last() == (48 + n) as u8);
        assert(spec_digits_val(s) == spec_digits_val(s.drop_last()) * 10 + (s.last() - 48));
        assert(spec_digits_val(s) == n);
    } else {
        lemma_dec_u_props(n / 10);
        let s = spec_dec_u(n);
        assert(s.drop_last() =~= spec_dec_u(n / 10));
        assert(spec_digits_val(s) == (n / 10) * 10 + n % 10);
        assert((n / 10) * 10 + n % 10 == n) by (nonlinear_arith)
            requires
                n >= 10,
        ;
        assert forall|i: int| 0 <= i < s.len() implies spec_is_digit(#[trigger] s[i]) by {
            if i < s.len() - 1 {
                assert(s[i] == spec_dec_u(n / 10)[i]);
            }
        }
    }
}

/// Parsing inverts printing, for unsigned numerals.
pub proof fn lemma_parse_dec_u(n: int)
    requires
        n >= 0,
    ensures
        spec_parse_uint(spec_dec_u(n)) == Some(n),
{
    lemma_dec_u_props(n);
}

/// Parsing inverts printing, for signed numerals.
pub proof fn lemma_parse_dec_i(n: int)
    ensures
        spec_parse_int(spec_dec_i(n)) == Some(n),
{
    if n < 0 {
        lemma_dec_u_props(-n);
        let s = spec_dec_i(n);
        assert(s[0] == 45);
        assert(s.drop_first() =~= spec_dec_u(-n));
    } else {
        lemma_dec_u_props(n);
        let s = spec_dec_i(n);
        assert(spec_is_digit(s[0]));
        assert(s[0] != 45);
    }
}

/// Characterization of `spec_first_nl`: if nothing before `e` is a
/// newline and `e` is the length or a newline position, then `e` is
/// the first-newline index.
pub proof fn lemma_first_nl_at(s: Seq<u8>, e: int)
    requires
        0 <= e <= s.len(),
        forall|k: int| 0 <= k < e ==> s[k] != 10,
        e < s.len() ==> s[e] == 10,
    ensures
        spec_first_nl(s) == e,
    decreases e,
{
    if s.len() == 0 {
    } else if e == 0 {
    } else {
        assert(s[0] != 10);
        lemma_first_nl_at(s.drop_first(), e - 1);
    }
}

/// Characterization of `spec_first_space`, in the same way.
pub proof fn lemma_first_space_at(s: Seq<u8>, e: int)
    requires
        0 <= e <= s.len(),
        forall|k: int| 0 <= k < e ==> !spec_is_space(s[k]),
        e < s.len() ==> spec_is_space(s[e]),
    ensures
        spec_first_space(s) == e,
    decreases e,
{
    if s.len() == 0 {
    } else if e == 0 {
    } else {
        lemma_first_space_at(s.drop_first(), e - 1);
    }
}

/// A newline-free line followed by a newline is split off whole.
pub proof fn lemma_lines_step(line: Seq<u8>, rest: Seq<u8>)
    requires
        forall|k: int| 0 <= k < line.len() ==> line[k] != 10,
    ensures
        spec_lines(line + seq![10u8] + rest) == seq![line] + spec_lines(rest),
{
    let s = line + seq![10u8] + rest;
    assert forall|k: int| 0 <= k < line.len() implies s[k] != 10 by {
        assert(s[k] == line[k]);
    }
    assert(s[line.len() as int] == 10);
    lemma_first_nl_at(s, line.len() as int);
    assert(s.take(line.len() as int) =~= line);
    assert(s.skip(line.len() as int + 1) =~= rest);
}

/// A newline-free string is a single line.
pub proof fn lemma_lines_single(line: Seq<u8>)
    requires
        forall|k: int| 0 <= k < line.len() ==> line[k] != 10,
    ensures
        spec_lines(line) == seq![line],
{
    lemma_first_nl_at(line, line.len() as int);
}

/// A nonempty whitespace-free word followed by a space is one token.
pub proof fn lemma_tokens_step(word: Seq<u8>, rest: Seq<u8>)
    requires
        word.len() >= 1,
        forall|k: int| 0 <= k < word.len() ==> !spec_is_space(word[k]),
    ensures
        spec_tokens(word + seq![32u8] + rest) == seq![word] + spec_tokens(rest),
{
    let s = word + seq![32u8] + rest;
    assert forall|k: int| 0 <= k < word.len() implies !spec_is_space(s[k]) by {
        assert(s[k] == word[k]);
    }
    assert(spec_is_space(s[word.len() as int]));
    lemma_first_space_at(s, word.len() as int);
    assert(!spec_is_space(s[0]));
    assert(s.take(word.len() as int) =~= word);
    assert(s.skip(word.len() as int) =~= seq![32u8] + rest);
    let t = seq![32u8] + rest;
    assert(spec_is_space(t[0]));
    assert(t.drop_first() =~= rest);
    assert(spec_tokens(t) == spec_tokens(rest));
    assert(spec_tokens(s) == seq![word] + spec_tokens(t));
}

/// A nonempty whitespace-free word alone is one token.
pub proof fn lemma_tokens_single(word: Seq<u8>)
    requires
        word.len() >= 1,
        forall|k: int| 0 <= k < word.len() ==> !spec_is_space(word[k]),
    ensures
        spec_tokens(word) == seq![word],
{
    lemma_first_space_at(word, word.len() as int);
    assert(word.skip(word.len() as int) =~= Seq::<u8>::empty());
    assert(word.take(word.len() as int) =~= word);
    assert(spec_tokens(Seq::<u8>::empty()) == Seq::<Seq<u8>>::empty());
    assert(spec_tokens(word) =~= seq![word]);
}

/// The byte sequences a vector of byte vectors stands for.
pub open spec fn views_of(r: Seq<Vec<u8>>) -> Seq<Seq<u8>> {
    r.map_values(|v: Vec<u8>| v@)
}

/// Whether the byte is horizontal whitespace.
pub fn is_space_byte(b: u8) -> (r: bool)
    ensures
        r == spec_is_space(b),
{
    b == 32 || b == 9 || b == 13
}

/// Splits a byte string into its lines.
pub fn split_lines(s: &[u8]) -> (r: Vec<Vec<u8>>)
    ensures
        views_of(r@) == spec_lines(s@),
{
    let n = s.len();
    let mut r: Vec<Vec<u8>> = Vec::new();
    let mut i: usize = 0;
    proof {
        assert(s@.skip(0) =~= s@);
        assert(views_of(r@) =~= Seq::<Seq<u8>>::empty());
    }
    loop
        invariant_except_break
            i <= n,
            n == s@.len(),
            spec_lines(s@) == views_of(r@) + spec_lines(s@.skip(i as int)),
        ensures
            views_of(r@) == spec_lines(s@),
        decreases n - i,
    {
        let mut j = i;
        while j < n && s[j] != 10
            invariant
                i <= j <= n,
                n == s@.len(),
                forall|k: int| i <= k < j ==> s@[k] != 10,
            decreases n - j,
        {
            j = j + 1;
        }
        let mut line: Vec<u8> = Vec::new();
        let mut k = i;
        while k < j
            invariant
                i <= k <= j <= n,
                n == s@.len(),
                line@ == s@.subrange(i as int, k as int),
            decreases j - k,
        {
            line.push(s[k]);
            proof {
                assert(line@ =~= s@.subrange(i as int, k as int + 1));
            }
            k = k + 1;
        }
        proof {
            let tail = s@.skip(i as int);
            lemma_first_nl_at(tail, j - i);
            assert(tail.take(j - i) =~= line@);
        }
        r.push(line);
        if j < n {
            proof {
                let tail = s@.skip(i as int);
                assert(j - i < tail.len());
                assert(tail.skip(j - i + 1) =~= s@.skip(j as int + 1));
                assert(spec_lines(tail) == seq![line@] + spec_lines(s@.skip(j as int + 1)));
                assert(views_of(r@) =~= views_of(r@.drop_last()) + seq![line@]);
                assert(views_of(r@) + spec_lines(s@.skip(j as int + 1)) =~= views_of(
                    r@.drop_last(),
                ) + spec_lines(s@.skip(i as int)));
            }
            i = j + 1;
        } else {
            proof {
                let tail = s@.skip(i as int);
                assert(spec_lines(tail) == seq![line@]);
                assert(views_of(r@) =~= views_of(r@.drop_last()) + seq![line@]);
                assert(views_of(r@) =~= spec_lines(s@));
            }
            break;
        }
    }
    r
}

/// Splits a byte string into its whitespace-separated tokens.
pub fn tokenize(s: &Vec<u8>) -> (r: Vec<Vec<u8>>)
    ensures
        views_of(r@) == spec_tokens(s@),
{
    let n = s.len();
    let mut r: Vec<Vec<u8>> = Vec::new();
    let mut i: usize = 0;
    proof {
        assert(s@.skip(0) =~= s@);
        assert(views_of(r@) =~= Seq::<Seq<u8>>::empty());
    }
    while i < n
        invariant
            i <= n,
            n == s@.len(),
            spec_tokens(s@) == views_of(r@) + spec_tokens(s@.skip(i as int)),
        decreases n - i,
    {
        if is_space_byte(s[i]) {
            proof {
                assert(s@.skip(i as int).drop_first() =~= s@.skip(i as int + 1));
            }
            i = i + 1;
        } else {
            let mut j = i + 1;
            while j < n && !is_space_byte(s[j])
                invariant
                    i < j <= n,
                    n == s@.len(),
                    forall|k: int| i <= k < j ==> !spec_is_space(s@[k]),
                decreases n - j,
            {
                j = j + 1;
            }
            let mut tok: Vec<u8> = Vec::new();
            let mut k = i;
            while k < j
                invariant
                    i <= k <= j <= n,
                    n == s@.len(),
                    tok@ == s@.subrange(i as int, k as int),
                decreases j - k,
            {
                tok.push(s[k]);
                proof {
                    assert(tok@ =~= s@.subrange(i as int, k as int + 1));
                }
                k = k + 1;
            }
            proof {
                let tail = s@.skip(i as int);
                lemma_first_space_at(tail, j - i);
                assert(tail.take(j - i) =~= tok@);
                assert(tail.skip(j - i) =~= s@.skip(j as int));
                assert(spec_tokens(tail) == seq![tok@] + spec_tokens(s@.skip(j as int)));
            }
            r.push(tok);
            proof {
                assert(views_of(r@) =~= views_of(r@.drop_last()) + seq![tok@]);
                assert(views_of(r@) + spec_tokens(s@.skip(j as int)) =~= views_of(r@.drop_last())
                    + spec_tokens(s@.skip(i as int)));
            }
            i = j;
        }
    }
    proof {
        assert(s@.skip(n as int) =~= Seq::<u8>::empty());
        assert(spec_tokens(Seq::<u8>::empty()) == Seq::<Seq<u8>>::empty());
        assert(views_of(r@) =~= views_of(r@) + spec_tokens(s@.skip(n as int)));
    }
    r
}

/// Largest numeral magnitude the token parser admits.
pub const MAX_NUMERAL: i64 = 1_000_000_000_000_000;

/// Whether the token is a well-formed integer numeral whose magnitude
/// the parser admits.
pub open spec fn spec_numeral_ok(s: Seq<u8>) -> bool {
    match spec_parse_int(s) {
        Some(v) => -(MAX_NUMERAL as int) <= v <= MAX_NUMERAL as int,
        None => false,
    }
}

/// Parses an optionally minus-signed decimal token.
pub fn parse_int_tok(t: &Vec<u8>) -> (r: Option<i64>)
    ensures
        match r {
            Some(v) => spec_numeral_ok(t@) && spec_parse_int(t@) == Some(v as int),
            None => !spec_numeral_ok(t@),
        },
{
    let n = t.len();
    if n == 0 {
        return None;
    }
    let negative = t[0] == 45;
    let start: usize = if negative {
        1
    } else {
        0
    };
    let ghost digits = if negative {
        t@.drop_first()
    } else {
        t@
    };
    proof {
        assert(digits =~= t@.subrange(start as int, n as int));
    }
    if start == n {
        return None;
    }
    let mut acc: i64 = 0;
    let mut over = false;
    let mut k = start;
    while k < n
        invariant
            start <= k <= n,
            n == t@.len(),
            n >= 1,
            negative == (t@[0] == 45),
            start == if negative {
                1int
            } else {
                0int
            },
            digits == if negative {
                t@.drop_first()
            } else {
                t@
            },
            digits =~= t@.subrange(start as int, n as int),
            spec_all_digits(digits.take(k - start)),
            forall|q: int| start <= q < k ==> spec_is_digit(t@[q]),
            !over ==> 0 <= acc <= MAX_NUMERAL && acc == spec_digits_val(digits.take(k - start)),
            over ==> spec_digits_val(digits.take(k - start)) > MAX_NUMERAL,
        decreases n - k,
    {
        let c = t[k];
        if c < 48 || c > 57 {
            proof {
                assert(digits[k - start] == t@[k as int]);
                assert(!spec_is_digit(digits[k - start]));
                assert(spec_parse_uint(digits) is None);
                if negative {
                    assert(t@.drop_first() == digits);
                    assert(spec_parse_int(t@) is None);
                } else {
                    assert(spec_parse_int(t@) is None);
                }
                assert(!spec_numeral_ok(t@));
            }
            return None;
        }
        proof {
            assert(digits.take(k - start + 1).drop_last() =~= digits.take(k - start));
            assert(digits.take(k - start + 1).last() == t@[k as int]);
        }
        if over {
            proof {
                let prev = spec_digits_val(digits.take(k - start));
                assert(spec_digits_val(digits.take(k - start + 1)) == prev * 10 + (c - 48));
                assert(prev * 10 >= prev) by (nonlinear_arith)
                    requires
                        prev > 0,
                ;
                assert(prev * 10 + (c - 48) > MAX_NUMERAL);
            }
        } else if acc > MAX_NUMERAL / 10 || (acc == MAX_NUMERAL / 10 && c - 48 > 0) {
            over = true;
            proof {
                let prev = spec_digits_val(digits.take(k - start));
                assert(spec_digits_val(digits.take(k - start + 1)) == prev * 10 + (c - 48));
                if acc > MAX_NUMERAL / 10 {
                    assert(prev * 10 > MAX_NUMERAL) by (nonlinear_arith)
                        requires
                            prev > MAX_NUMERAL as int / 10,
                            prev <= MAX_NUMERAL,
                    ;
                }
            }
        } else {
            acc = acc * 10 + ((c - 48) as i64);
        }
        k = k + 1;
    }
    proof {
        assert(digits.take(n - start) =~= digits);
    }
    if over {
        return None;
    }
    if negative {
        Some(-acc)
    } else {
        Some(acc)
    }
}

/// Appends the decimal numeral of a nonnegative integer.
pub fn push_dec_u(out: &mut Vec<u8>, n: u64)
    ensures
        final(out)@ == old(out)@ + spec_dec_u(n as int),
{
    let mut tmp: Vec<u8> = Vec::new();
    let mut m = n;
    while m >= 10
        invariant
            spec_dec_u(n as int) == spec_dec_u(m as int) + tmp@.reverse(),
            m <= n,
        decreases m,
    {
        let d = (m % 10) as u8 + 48;
        proof {
            assert(tmp@.push(d).reverse() =~= seq![d] + tmp@.reverse());
            assert(spec_dec_u(m as int) + tmp@.reverse() =~= spec_dec_u(m as int / 10) + (seq![d]
                + tmp@.reverse()));
        }
        tmp.push(d);
        m = m / 10;
    }
    let d = m as u8 + 48;
    proof {
        assert(tmp@.push(d).reverse() =~= seq![d] + tmp@.reverse());
        assert(spec_dec_u(m as int) =~= seq![d]);
        assert(spec_dec_u(n as int) =~= tmp@.push(d).reverse());
    }
    tmp.push(d);
    let ghost out0 = out@;
    let mut k = tmp.len();
    while k > 0
        invariant
            k <= tmp@.len(),
            out@ == out0 + tmp@.reverse().take(tmp@.len() - k),
        decreases k,
    {
        k = k - 1;
        out.push(tmp[k]);
        proof {
            assert(tmp@.reverse()[tmp@.len() - k - 1] == tmp@[k as int]);
            assert(out@ =~= out0 + tmp@.reverse().take(tmp@.len() - k));
        }
    }
    proof {
        assert(tmp@.reverse().take(tmp@.len() as int) =~= tmp@.reverse());
    }
}

/// Appends the decimal numeral of an integer, minus sign included.
pub fn push_dec_i(out: &mut Vec<u8>, n: i64)
    requires
        n > i64::MIN,
    ensures
        final(out)@ == old(out)@ + spec_dec_i(n as int),
{
    if n < 0 {
        out.push(45);
        let ghost mid = out@;
        push_dec_u(out, (-n) as u64);
        proof {
            assert(out@ =~= old(out)@ + (seq![45u8] + spec_dec_u(-n as int)));
        }
    } else {
        push_dec_u(out, n as u64);
    }
}

} // verus!
