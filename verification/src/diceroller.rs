//! The notation parser and the evaluator.
//!
//! `string_to_parts` scans a notation string left to right into a sequence
//! of signed parts, proved to agree with the grammar in [`crate::notation`].
//! A `DiceRoller` then resolves parts against its die cache, either into a
//! single signed total or into a per-part breakdown.

use vstd::prelude::*;
use vstd::string::*;
use crate::dice::DiceCache;
use crate::notation::ParseError;
use crate::notation::all_digits;
use crate::notation::lemma_digits_val_prefix_le;
use crate::notation::TermV;
use crate::notation::digit_prefix_len;
use crate::notation::digits_val;
use crate::notation::descriptor_match;
use crate::notation::dec_digits;
use crate::notation::digit_char;
use crate::notation::draws_match;
use crate::notation::draws_match_term;
use crate::notation::eval_total;
use crate::notation::evaluable;
use crate::notation::find_close;
use crate::notation::is_digit;
use crate::notation::max_abs_total;
use crate::notation::parse_rest;
use crate::notation::parse_step;
use crate::notation::render_term;
use crate::notation::seq_sum;
use crate::notation::sign_match;
use crate::notation::signed_term_total;
use crate::notation::space_prefix_len;
use crate::notation::spec_parse;
use crate::notation::term_max;
use crate::notation::with_prefix;
use crate::notation::lemma_with_prefix_assoc;
use crate::notation::lemma_parse_rest_step;
use crate::notation::lemma_max_abs_take_le;
use crate::notation::lemma_spec_parse_valid;

verus! {

/// A dice-roll part: roll `count` dice of `faces` faces each.
#[derive(Debug)]
pub struct DiceRoll {
    pub count: u32,
    pub faces: u32,
    pub descriptor: Option<String>,
    pub positive: bool,
}

/// A flat-amount part: a literal contribution of `amount`.
#[derive(Debug)]
pub struct AlgebraicElement {
    pub amount: u32,
    pub positive: bool,
    pub descriptor: Option<String>,
}

/// One signed unit of a notation string: a dice roll or a flat amount.
#[derive(Debug)]
pub enum RollPart {
    DiceRoll(DiceRoll),
    AlgebraicElement(AlgebraicElement),
}

pub type RollParts = Vec<RollPart>;

pub open spec fn opt_view(d: Option<String>) -> Option<Seq<char>> {
    match d {
        Some(s) => Some(s@),
        None => None,
    }
}

impl View for RollPart {
    type V = TermV;

    open spec fn view(&self) -> TermV {
        match self {
            RollPart::DiceRoll(dr) => TermV::Dice {
                count: dr.count,
                faces: dr.faces,
                positive: dr.positive,
                descriptor: opt_view(dr.descriptor),
            },
            RollPart::AlgebraicElement(a) => TermV::Flat {
                amount: a.amount,
                positive: a.positive,
                descriptor: opt_view(a.descriptor),
            },
        }
    }
}

/// The views of a part sequence, in order.
pub open spec fn parts_view(ps: Seq<RollPart>) -> Seq<TermV> {
    ps.map_values(|p: RollPart| p@)
}

proof fn lemma_parts_view_push(ps: Seq<RollPart>, p: RollPart)
    ensures
        parts_view(ps.push(p)) == parts_view(ps).push(p@),
{
    assert(parts_view(ps.push(p)) =~= parts_view(ps).push(p@));
}

impl RollPart {
    /// Whether this part adds (`true`) or subtracts (`false`).
    pub fn positive(&self) -> (r: bool)
        ensures
            r == self@.positive(),
    {
        match self {
            RollPart::DiceRoll(dr) => dr.positive,
            RollPart::AlgebraicElement(a) => a.positive,
        }
    }

    /// The free-text descriptor, if one was attached.
    pub fn descriptor(&self) -> (r: Option<&str>)
        ensures
            match (r, self@.descriptor()) {
                (Some(s), Some(d)) => s@ == d,
                (None, None) => true,
                _ => false,
            },
    {
        match self {
            RollPart::DiceRoll(dr) => match &dr.descriptor {
                Some(s) => Some(s.as_str()),
                None => None,
            },
            RollPart::AlgebraicElement(a) => match &a.descriptor {
                Some(s) => Some(s.as_str()),
                None => None,
            },
        }
    }
}

fn digit_char_of(d: u32) -> (c: char)
    requires
        d <= 9,
    ensures
        c == digit_char(d as int),
{
    match d {
        0 => '0',
        1 => '1',
        2 => '2',
        3 => '3',
        4 => '4',
        5 => '5',
        6 => '6',
        7 => '7',
        8 => '8',
        _ => '9',
    }
}

/// Append the decimal digits of `n`, most significant first.
fn push_decimal(out: &mut Vec<char>, n: u32)
    ensures
        final(out)@ == old(out)@ + dec_digits(n as int),
    decreases n,
{
    let ghost pre = out@;
    if n > 9 {
        push_decimal(out, n / 10);
    }
    out.push(digit_char_of(n % 10));
    proof {
        if n <= 9 {
            assert(out@ =~= pre + dec_digits(n as int));
        } else {
            assert(out@ =~= pre + dec_digits(n as int));
        }
    }
}

/// Append every character of `s`.
fn push_str_chars(out: &mut Vec<char>, s: &str)
    ensures
        final(out)@ == old(out)@ + s@,
{
    let ghost pre = out@;
    let n = s.unicode_len();
    let mut i: usize = 0;
    while i < n
        invariant
            i <= n,
            n == s@.len(),
            out@ == pre + s@.take(i as int),
        decreases n - i,
    {
        out.push(s.get_char(i));
        i = i + 1;
        assert(out@ =~= pre + s@.take(i as int));
    }
    assert(out@ =~= pre + s@);
}

impl RollPart {
    /// Render this part for display: an explicit sign always, then the
    /// term, then the descriptor in parentheses when present.
    pub fn as_string(&self) -> (r: String)
        ensures
            r@ == render_term(self@),
    {
        let mut out: Vec<char> = Vec::new();
        match self {
            RollPart::DiceRoll(dr) => {
                out.push(if dr.positive {
                    '+'
                } else {
                    '-'
                });
                push_decimal(&mut out, dr.count);
                out.push('d');
                push_decimal(&mut out, dr.faces);
                match &dr.descriptor {
                    Some(d) => {
                        out.push(' ');
                        out.push('(');
                        push_str_chars(&mut out, d.as_str());
                        out.push(')');
                    },
                    None => {},
                }
                assert(out@ =~= render_term(self@));
            },
            RollPart::AlgebraicElement(a) => {
                out.push(if a.positive {
                    '+'
                } else {
                    '-'
                });
                push_decimal(&mut out, a.amount);
                match &a.descriptor {
                    Some(d) => {
                        out.push(' ');
                        out.push('(');
                        push_str_chars(&mut out, d.as_str());
                        out.push(')');
                    },
                    None => {},
                }
                assert(out@ =~= render_term(self@));
            },
        }
        chars_to_string(&out)
    }
}

/// Relies on `String`'s `FromIterator<char>` implementation: collecting
/// chars yields the string of exactly those chars in order.
#[verifier::external_body]
fn chars_to_string(v: &Vec<char>) -> (r: String)
    ensures
        r@ == v@,
{
    v.iter().collect()
}

/// The characters of a string, in order.
fn str_chars(s: &str) -> (r: Vec<char>)
    ensures
        r@ == s@,
{
    let n = s.unicode_len();
    let mut r: Vec<char> = Vec::new();
    let mut i: usize = 0;
    while i < n
        invariant
            i <= n,
            n == s@.len(),
            r@ == s@.take(i as int),
        decreases n - i,
    {
        r.push(s.get_char(i));
        i = i + 1;
        assert(r@ =~= s@.take(i as int));
    }
    assert(r@ =~= s@);
    r
}

/// Length of the run of spaces in `cs` starting at `from`.
fn scan_spaces(cs: &Vec<char>, from: usize) -> (k: usize)
    requires
        from <= cs@.len(),
    ensures
        from + k <= cs@.len(),
        k as nat == space_prefix_len(cs@.skip(from as int)),
{
    let mut j = from;
    while j < cs.len() && cs[j] == ' '
        invariant
            from <= j <= cs@.len(),
            space_prefix_len(cs@.skip(from as int)) == j - from + space_prefix_len(
                cs@.skip(j as int),
            ),
        decreases cs@.len() - j,
    {
        assert(cs@.skip(j as int).skip(1) =~= cs@.skip(j as int + 1));
        j = j + 1;
    }
    j - from
}

/// Length of the run of decimal digits in `cs` starting at `from`.
fn scan_digits(cs: &Vec<char>, from: usize) -> (k: usize)
    requires
        from <= cs@.len(),
    ensures
        from + k <= cs@.len(),
        k as nat == digit_prefix_len(cs@.skip(from as int)),
        forall|x: int| from <= x < from + k ==> is_digit(#[trigger] cs@[x]),
{
    let mut j = from;
    while j < cs.len() && '0' <= cs[j] && cs[j] <= '9'
        invariant
            from <= j <= cs@.len(),
            digit_prefix_len(cs@.skip(from as int)) == j - from + digit_prefix_len(
                cs@.skip(j as int),
            ),
            forall|x: int| from <= x < j ==> is_digit(#[trigger] cs@[x]),
        decreases cs@.len() - j,
    {
        assert(cs@.skip(j as int).skip(1) =~= cs@.skip(j as int + 1));
        j = j + 1;
    }
    j - from
}

/// Index of the first `)` at or after `from`, if any.
fn scan_close(cs: &Vec<char>, from: usize) -> (r: Option<usize>)
    requires
        from <= cs@.len(),
    ensures
        match r {
            Some(j) => from <= j < cs@.len() && find_close(cs@.skip(from as int)) == Some(
                (j - from) as nat,
            ),
            None => find_close(cs@.skip(from as int)) is None,
        },
{
    let mut j = from;
    while j < cs.len() && cs[j] != ')'
        invariant
            from <= j <= cs@.len(),
            match find_close(cs@.skip(j as int)) {
                Some(i) => find_close(cs@.skip(from as int)) == Some((i + j - from) as nat),
                None => find_close(cs@.skip(from as int)) is None,
            },
        decreases cs@.len() - j,
    {
        assert(cs@.skip(j as int).skip(1) =~= cs@.skip(j as int + 1));
        j = j + 1;
    }
    if j < cs.len() {
        Some(j)
    } else {
        None
    }
}

/// The value of the `k` digits at `from`, or nothing when it does not fit
/// in 32 bits.
fn parse_number(cs: &Vec<char>, from: usize, k: usize) -> (r: Option<u32>)
    requires
        from + k <= cs@.len(),
        forall|x: int| from <= x < from + k ==> is_digit(#[trigger] cs@[x]),
    ensures
        match r {
            Some(v) => v as int == digits_val(cs@.subrange(from as int, from + k)),
            None => digits_val(cs@.subrange(from as int, from + k)) > u32::MAX,
        },
{
    let ghost whole = cs@.subrange(from as int, from + k);
    proof {
        assert(all_digits(whole));
    }
    let n = cs.len();
    let end = from + k;
    let mut acc: u32 = 0;
    let mut j = from;
    while j < end
        invariant
            from <= j <= from + k <= cs@.len(),
            forall|x: int| from <= x < from + k ==> is_digit(#[trigger] cs@[x]),
            whole == cs@.subrange(from as int, from + k),
            all_digits(whole),
            end == from + k,
            acc as int == digits_val(cs@.subrange(from as int, j as int)),
        decreases end - j,
    {
        let c = cs[j];
        assert(is_digit(c));
        let d = c as u32 - '0' as u32;
        assert(d <= 9);
        proof {
            let s1 = cs@.subrange(from as int, j + 1);
            assert(s1.take(s1.len() - 1) =~= cs@.subrange(from as int, j as int));
            assert(s1[s1.len() - 1] == cs@[j as int]);
            assert(digits_val(s1) == acc * 10 + d);
        }
        if acc > u32::MAX / 10 || (acc == u32::MAX / 10 && d > u32::MAX % 10) {
            proof {
                assert(acc * 10 + d > u32::MAX);
                assert(whole.take(j + 1 - from) =~= cs@.subrange(from as int, j + 1));
                lemma_digits_val_prefix_le(whole, j + 1 - from);
            }
            return None;
        }
        acc = acc * 10 + d;
        j = j + 1;
    }
    assert(cs@.subrange(from as int, j as int) =~= whole);
    Some(acc)
}

/// The descriptor pattern at `from`: optional spaces, then a parenthesized
/// text if a complete one stands there. Returns the captured text and the
/// number of characters consumed.
fn scan_descriptor(cs: &Vec<char>, from: usize) -> (r: (Option<String>, usize))
    requires
        from <= cs@.len(),
    ensures
        from + r.1 <= cs@.len(),
        descriptor_match(cs@.skip(from as int)) == (opt_view(r.0), r.1 as nat),
{
    let ghost s = cs@.skip(from as int);
    let n = cs.len();
    let k = scan_spaces(cs, from);
    if from + k < n && cs[from + k] == '(' {
        assert(s[k as int] == cs@[from + k]);
        match scan_close(cs, from + k + 1) {
            Some(jc) => {
                assert(s.skip(k as int + 1) =~= cs@.skip(from + k + 1));
                let mut content: Vec<char> = Vec::new();
                let mut j = from + k + 1;
                while j < jc
                    invariant
                        from + k + 1 <= j <= jc < cs@.len(),
                        content@ == cs@.subrange(from + k + 1, j as int),
                    decreases jc - j,
                {
                    content.push(cs[j]);
                    assert(content@ =~= cs@.subrange(from + k + 1, j + 1));
                    j = j + 1;
                }
                let text = chars_to_string(&content);
                proof {
                    let i = (jc - (from + k + 1)) as int;
                    assert(s.subrange(k as int + 1, k as int + 1 + i) =~= cs@.subrange(
                        from + k + 1,
                        jc as int,
                    ));
                }
                (Some(text), jc + 1 - from)
            },
            None => {
                assert(s.skip(k as int + 1) =~= cs@.skip(from + k + 1));
                (None, k)
            },
        }
    } else {
        (None, k)
    }
}

/// The sign pattern at `from`: optional spaces, `+` or `-`, optional
/// spaces. Returns the sign and the number of characters consumed.
fn scan_sign(cs: &Vec<char>, from: usize) -> (r: Option<(bool, usize)>)
    requires
        from <= cs@.len(),
    ensures
        match r {
            Some((p, m)) => 1 <= m && from + m <= cs@.len() && sign_match(cs@.skip(from as int))
                == Some((p, m as nat)),
            None => sign_match(cs@.skip(from as int)) is None,
        },
{
    let ghost srem = cs@.skip(from as int);
    let n = cs.len();
    let sk = scan_spaces(cs, from);
    if from + sk < n && (cs[from + sk] == '+' || cs[from + sk] == '-') {
        let p = cs[from + sk] == '+';
        assert(srem[sk as int] == cs@[from + sk]);
        assert(srem.skip(sk as int + 1) =~= cs@.skip(from + sk + 1));
        let sk2 = scan_spaces(cs, from + sk + 1);
        Some((p, sk + 1 + sk2))
    } else {
        proof {
            if sk < n - from {
                assert(srem[sk as int] == cs@[from + sk]);
            }
        }
        None
    }
}

/// One term with the given sign, read at `tstart`: the part and the cursor
/// after it, or the grammar's error. Agrees exactly with the grammar's
/// reading of the remainder of the string.
#[verifier::rlimit(100)]
fn parse_one_term(cs: &Vec<char>, tstart: usize, positive: bool) -> (r: Result<
    (RollPart, usize),
    ParseError,
>)
    requires
        tstart <= cs@.len(),
    ensures
        match r {
            Ok(pn) => tstart < pn.1 <= cs@.len() && parse_step(cs@.skip(tstart as int), positive)
                == (if pn.1 == cs@.len() {
                Ok::<Seq<TermV>, ParseError>(seq![pn.0@])
            } else {
                with_prefix(seq![pn.0@], parse_rest(cs@.skip(pn.1 as int), false))
            }),
            Err(e) => parse_step(cs@.skip(tstart as int), positive) == Err::<
                Seq<TermV>,
                ParseError,
            >(e),
        },
{
    let ghost trem = cs@.skip(tstart as int);
    let n = cs.len();
    let nd = scan_digits(cs, tstart);
    if nd == 0 {
        return Err(ParseError::UnrecognizedTerm);
    }
    if tstart + nd < n && (cs[tstart + nd] == 'd' || cs[tstart + nd] == 'D') {
        proof {
            assert(trem[nd as int] == cs@[tstart + nd]);
            assert(trem.skip(nd as int + 1) =~= cs@.skip(tstart + nd + 1));
        }
        let fstart = tstart + nd + 1;
        let nf = scan_digits(cs, fstart);
        if nf == 0 {
            return Err(ParseError::UnrecognizedTerm);
        }
        proof {
            assert(trem.take(nd as int) =~= cs@.subrange(tstart as int, tstart + nd));
            assert(cs@.skip(fstart as int).take(nf as int) =~= cs@.subrange(
                fstart as int,
                fstart + nf,
            ));
        }
        let count = match parse_number(cs, tstart, nd) {
            Some(v) => v,
            None => {
                return Err(ParseError::NumericOverflow);
            },
        };
        let faces = match parse_number(cs, fstart, nf) {
            Some(v) => v,
            None => {
                return Err(ParseError::NumericOverflow);
            },
        };
        if count == 0 || faces == 0 {
            return Err(ParseError::UnrecognizedTerm);
        }
        proof {
            assert(cs@.skip(fstart as int).skip(nf as int) =~= cs@.skip(fstart + nf));
        }
        let (desc, dk) = scan_descriptor(cs, fstart + nf);
        let newstart = fstart + nf + dk;
        let part = RollPart::DiceRoll(DiceRoll { count, faces, descriptor: desc, positive });
        proof {
            assert(trem.skip(newstart - tstart) =~= cs@.skip(newstart as int));
        }
        Ok((part, newstart))
    } else {
        proof {
            if tstart + nd < n {
                assert(trem[nd as int] == cs@[tstart + nd]);
            }
            assert(trem.take(nd as int) =~= cs@.subrange(tstart as int, tstart + nd));
        }
        let amount = match parse_number(cs, tstart, nd) {
            Some(v) => v,
            None => {
                return Err(ParseError::NumericOverflow);
            },
        };
        proof {
            assert(trem.skip(nd as int) =~= cs@.skip(tstart + nd));
        }
        let (desc, dk) = scan_descriptor(cs, tstart + nd);
        let newstart = tstart + nd + dk;
        let part = RollPart::AlgebraicElement(AlgebraicElement { amount, positive, descriptor: desc });
        proof {
            assert(trem.skip(newstart - tstart) =~= cs@.skip(newstart as int));
        }
        Ok((part, newstart))
    }
}

/// Parse a whole notation string into its ordered sequence of parts,
/// exactly as the grammar reads it: the result is `Ok` with the parsed
/// terms precisely when the grammar accepts the string, and the grammar's
/// error otherwise.
#[verifier::rlimit(100)]
pub fn string_to_parts(string: &str) -> (r: Result<RollParts, ParseError>)
    ensures
        match r {
            Ok(v) => spec_parse(string@) == Ok::<Seq<TermV>, ParseError>(parts_view(v@)),
            Err(e) => spec_parse(string@) == Err::<Seq<TermV>, ParseError>(e),
        },
{
    let cs = str_chars(string);
    let n = cs.len();
    let mut ret: RollParts = Vec::new();
    let mut start: usize = 0;
    proof {
        assert(cs@.skip(0) =~= cs@);
        match parse_rest(string@, true) {
            Ok(ts) => {
                assert(parts_view(ret@) + ts =~= ts);
            },
            Err(e) => {},
        }
    }
    loop
        invariant
            cs@ == string@,
            n == cs@.len(),
            start <= n,
            start == 0 ==> ret@.len() == 0,
            spec_parse(string@) == with_prefix(
                parts_view(ret@),
                parse_rest(cs@.skip(start as int), start == 0),
            ),
        decreases n - start,
    {
        let ghost was_first = start == 0;
        let mut positive = true;
        let mut tstart = start;
        match scan_sign(&cs, start) {
            Some((p, m)) => {
                positive = p;
                tstart = start + m;
            },
            None => {
                if start != 0 {
                    return Err(ParseError::MissingSign);
                }
            },
        }
        proof {
            assert(cs@.skip(start as int).skip(tstart - start) =~= cs@.skip(tstart as int));
            lemma_parse_rest_step(cs@.skip(start as int), was_first);
        }
        let ghost old_ret = ret@;
        match parse_one_term(&cs, tstart, positive) {
            Ok((part, newstart)) => {
                let ghost term = part@;
                ret.push(part);
                proof {
                    lemma_parts_view_push(old_ret, part);
                    if newstart != n {
                        lemma_with_prefix_assoc(
                            parts_view(old_ret),
                            term,
                            parse_rest(cs@.skip(newstart as int), false),
                        );
                    } else {
                        assert(parts_view(old_ret) + seq![term] =~= parts_view(ret@));
                    }
                }
                if newstart == n {
                    return Ok(ret);
                }
                start = newstart;
            },
            Err(e) => {
                return Err(e);
            },
        }
    }
}


/// A part paired with its resolved values and their unsigned sum.
#[derive(Debug)]
pub struct PartResult {
    pub part: RollPart,
    pub results: Vec<u32>,
    pub total: u32,
}

/// A well-formed result: the values fit the part (one literal value for a
/// flat amount, `count` values each in `[1, faces]` for a dice roll), and
/// `total` is their sum.
pub open spec fn wf_part_result(pr: PartResult) -> bool {
    &&& draws_match_term(pr.part@, pr.results@)
    &&& pr.total as int == seq_sum(pr.results@)
}

/// A result's signed contribution: its total, negated when the part
/// subtracts.
pub open spec fn signed_total(pr: PartResult) -> int {
    if pr.part@.positive() {
        pr.total as int
    } else {
        -(pr.total as int)
    }
}

impl PartResult {
    /// The descriptor of the underlying part, if any.
    pub fn descriptor(&self) -> (r: Option<&str>)
        ensures
            match (r, self.part@.descriptor()) {
                (Some(s), Some(d)) => s@ == d,
                (None, None) => true,
                _ => false,
            },
    {
        self.part.descriptor()
    }

    /// The signed total of this part.
    pub fn total_i64(&self) -> (r: i64)
        ensures
            r as int == signed_total(*self),
    {
        if self.part.positive() {
            self.total as i64
        } else {
            0i64 - self.total as i64
        }
    }
}

pub type PartResults = Vec<PartResult>;

/// The signed grand total a breakdown stands for.
pub open spec fn breakdown_signed_sum(rs: Seq<PartResult>) -> int
    decreases rs.len(),
{
    if rs.len() == 0 {
        0
    } else {
        breakdown_signed_sum(rs.drop_last()) + signed_total(rs.last())
    }
}

/// A roller: owns the die cache, which persists across every evaluation
/// this roller performs.
pub struct DiceRoller {
    pub dices: DiceCache,
}

impl DiceRoller {
    /// A fresh roller with an empty die cache.
    pub fn new() -> (r: Self)
        ensures
            r.dices@ =~= Map::<u32, crate::dice::Dice>::empty(),
            r.dices.wf(),
    {
        Self { dices: DiceCache::new() }
    }

    /// Resolve every part in order into one signed grand total: flat
    /// amounts count as themselves, dice terms as the sum of their rolls,
    /// each negated when its part subtracts. The result is the total of
    /// some sequence of draws that fits the parts, and in particular lies
    /// within the sequence's extreme totals.
    pub fn parts_to_result(&mut self, parts: RollParts) -> (r: i64)
        requires
            old(self).dices.wf(),
            evaluable(parts_view(parts@)),
            max_abs_total(parts_view(parts@)) <= i64::MAX,
        ensures
            final(self).dices.wf(),
            exists|draws: Seq<Seq<u32>>|
                draws_match(parts_view(parts@), draws) && r as int == eval_total(
                    parts_view(parts@),
                    draws,
                ),
            -max_abs_total(parts_view(parts@)) <= r as int <= max_abs_total(parts_view(parts@)),
    {
        let ghost ts = parts_view(parts@);
        let n = parts.len();
        let mut ret: i64 = 0;
        let mut idx: usize = 0;
        let ghost mut draws: Seq<Seq<u32>> = Seq::empty();
        while idx < n
            invariant
                self.dices.wf(),
                idx <= n == parts@.len(),
                ts == parts_view(parts@),
                evaluable(ts),
                max_abs_total(ts) <= i64::MAX,
                draws.len() == idx,
                draws_match(ts.take(idx as int), draws),
                ret as int == eval_total(ts.take(idx as int), draws),
                -max_abs_total(ts.take(idx as int)) <= ret as int <= max_abs_total(
                    ts.take(idx as int),
                ),
            decreases n - idx,
        {
            proof {
                assert(ts[idx as int] == parts@[idx as int]@);
                assert(ts.take(idx as int + 1).drop_last() =~= ts.take(idx as int));
                assert(ts.take(idx as int + 1).last() == ts[idx as int]);
                lemma_max_abs_take_le(ts, idx as int + 1);
            }
            let ghost prev_draws = draws;
            let ghost ret0 = ret as int;
            match &parts[idx] {
                RollPart::AlgebraicElement(a) => {
                    let amt = a.amount;
                    if a.positive {
                        ret = ret + (amt as i64);
                    } else {
                        ret = ret - (amt as i64);
                    }
                    proof {
                        draws = draws.push(seq![amt]);
                        assert(seq![amt].drop_last() =~= Seq::<u32>::empty());
                        assert(seq_sum(Seq::<u32>::empty()) == 0);
                        assert(seq_sum(seq![amt]) == amt);
                    }
                },
                RollPart::DiceRoll(dr) => {
                    let count = dr.count;
                    let faces = dr.faces;
                    let pos = dr.positive;
                    proof {
                        assert(term_max(ts[idx as int]) == count * faces);
                    }
                    let die = *self.dices.get(faces);
                    let mut j: u32 = 0;
                    let ghost mut vs: Seq<u32> = Seq::empty();
                    while j < count
                        invariant
                            self.dices.wf(),
                            j <= count,
                            die.faces == faces,
                            faces >= 1,
                            vs.len() == j,
                            forall|x: int| 0 <= x < vs.len() ==> 1 <= #[trigger] vs[x] <= faces,
                            0 <= seq_sum(vs) <= j * faces,
                            j * faces <= count * faces,
                            ret as int == ret0 + (if pos {
                                seq_sum(vs)
                            } else {
                                -seq_sum(vs)
                            }),
                            -max_abs_total(ts.take(idx as int)) <= ret0 <= max_abs_total(
                                ts.take(idx as int),
                            ),
                            max_abs_total(ts.take(idx as int)) + count * faces <= i64::MAX,
                        decreases count - j,
                    {
                        let v = die.roll();
                        proof {
                            assert((j + 1) * faces == j * faces + faces) by (nonlinear_arith);
                            assert((j + 1) * faces <= count * faces) by (nonlinear_arith)
                                requires
                                    j + 1 <= count,
                                    faces >= 0,
                            ;
                        }
                        if pos {
                            ret = ret + (v as i64);
                        } else {
                            ret = ret - (v as i64);
                        }
                        proof {
                            let prev_vs = vs;
                            vs = vs.push(v);
                            assert(vs.drop_last() =~= prev_vs);
                            assert(seq_sum(vs) == seq_sum(prev_vs) + v);
                        }
                        j = j + 1;
                    }
                    proof {
                        draws = draws.push(vs);
                    }
                },
            }
            proof {
                assert(draws.drop_last() =~= prev_draws);
                assert(draws_match_term(ts[idx as int], draws.last()));
                assert(eval_total(ts.take(idx as int + 1), draws) == eval_total(
                    ts.take(idx as int),
                    prev_draws,
                ) + signed_term_total(ts[idx as int], draws.last()));
                assert(draws_match(ts.take(idx as int + 1), draws));
            }
            idx = idx + 1;
        }
        proof {
            assert(ts.take(n as int) =~= ts);
        }
        ret
    }

    /// Resolve every part in order into a full breakdown, preserving input
    /// order: each result carries the original part, its resolved values,
    /// and their unsigned sum.
    pub fn parts_to_results(&mut self, parts: RollParts) -> (r: PartResults)
        requires
            old(self).dices.wf(),
            evaluable(parts_view(parts@)),
            forall|i: int|
                0 <= i < parts@.len() ==> term_max(#[trigger] parts_view(parts@)[i]) <= u32::MAX,
        ensures
            final(self).dices.wf(),
            r@.len() == parts@.len(),
            forall|i: int| 0 <= i < r@.len() ==> (#[trigger] r@[i]).part == parts@[i],
            forall|i: int| 0 <= i < r@.len() ==> wf_part_result(#[trigger] r@[i]),
    {
        let ghost orig = parts@;
        let ghost ts = parts_view(parts@);
        let mut parts = parts;
        let mut ret: PartResults = Vec::new();
        let mut idx: usize = 0;
        let n = parts.len();
        while idx < n
            invariant
                self.dices.wf(),
                idx <= n == orig.len(),
                parts@ == orig.skip(idx as int),
                ts == parts_view(orig),
                evaluable(ts),
                forall|i: int| 0 <= i < orig.len() ==> term_max(#[trigger] ts[i]) <= u32::MAX,
                ret@.len() == idx,
                forall|i: int| 0 <= i < idx ==> (#[trigger] ret@[i]).part == orig[i],
                forall|i: int| 0 <= i < idx ==> wf_part_result(#[trigger] ret@[i]),
            decreases n - idx,
        {
            let part = parts.remove(0);
            proof {
                assert(part == orig[idx as int]);
                assert(orig.skip(idx as int).remove(0) =~= orig.skip(idx as int + 1));
                assert(ts[idx as int] == orig[idx as int]@);
            }
            let mut results: Vec<u32> = Vec::new();
            let mut total: u32 = 0;
            match &part {
                RollPart::AlgebraicElement(a) => {
                    results.push(a.amount);
                    total = a.amount;
                    proof {
                        assert(results@ =~= seq![a.amount]);
                        assert(seq![a.amount].drop_last() =~= Seq::<u32>::empty());
                        assert(seq_sum(Seq::<u32>::empty()) == 0);
                        assert(seq_sum(results@) == a.amount);
                    }
                },
                RollPart::DiceRoll(dr) => {
                    let count = dr.count;
                    let faces = dr.faces;
                    proof {
                        assert(term_max(ts[idx as int]) == count * faces);
                    }
                    let die = *self.dices.get(faces);
                    let mut j: u32 = 0;
                    while j < count
                        invariant
                            self.dices.wf(),
                            j <= count,
                            die.faces == faces,
                            faces >= 1,
                            results@.len() == j,
                            forall|x: int|
                                0 <= x < results@.len() ==> 1 <= #[trigger] results@[x] <= faces,
                            total as int == seq_sum(results@),
                            seq_sum(results@) <= j * faces,
                            j * faces <= count * faces <= u32::MAX,
                        decreases count - j,
                    {
                        let v = die.roll();
                        proof {
                            assert((j + 1) * faces == j * faces + faces) by (nonlinear_arith);
                            assert((j + 1) * faces <= count * faces) by (nonlinear_arith)
                                requires
                                    j + 1 <= count,
                                    faces >= 0,
                            ;
                        }
                        let ghost prev_rs = results@;
                        results.push(v);
                        total = total + v;
                        proof {
                            assert(results@.drop_last() =~= prev_rs);
                            assert(seq_sum(results@) == seq_sum(prev_rs) + v);
                        }
                        j = j + 1;
                    }
                },
            }
            ret.push(PartResult { total, part, results });
            idx = idx + 1;
        }
        ret
    }

    /// Parse, then total: the grammar's error untouched on a malformed
    /// string, otherwise the signed grand total of some draws fitting the
    /// parsed terms.
    pub fn string_to_result(&mut self, string: &str) -> (r: Result<i64, ParseError>)
        requires
            old(self).dices.wf(),
            match spec_parse(string@) {
                Ok(ts) => max_abs_total(ts) <= i64::MAX,
                Err(_) => true,
            },
        ensures
            final(self).dices.wf(),
            match (r, spec_parse(string@)) {
                (Ok(v), Ok(ts)) => (exists|draws: Seq<Seq<u32>>|
                    draws_match(ts, draws) && v as int == eval_total(ts, draws)) && -max_abs_total(
                    ts,
                ) <= v as int <= max_abs_total(ts),
                (Err(e1), Err(e2)) => e1 == e2,
                _ => false,
            },
    {
        match string_to_parts(string) {
            Ok(parts) => {
                proof {
                    lemma_spec_parse_valid(string@);
                }
                Ok(self.parts_to_result(parts))
            },
            Err(e) => Err(e),
        }
    }

    /// Parse, then break down: the grammar's error untouched on a
    /// malformed string, otherwise one well-formed result per parsed term,
    /// in input order.
    pub fn string_to_results(&mut self, string: &str) -> (r: Result<PartResults, ParseError>)
        requires
            old(self).dices.wf(),
            match spec_parse(string@) {
                Ok(ts) => forall|i: int| 0 <= i < ts.len() ==> term_max(#[trigger] ts[i])
                    <= u32::MAX,
                Err(_) => true,
            },
        ensures
            final(self).dices.wf(),
            match (r, spec_parse(string@)) {
                (Ok(rs), Ok(ts)) => {
                    &&& rs@.len() == ts.len()
                    &&& forall|i: int| 0 <= i < rs@.len() ==> (#[trigger] rs@[i]).part@ == ts[i]
                    &&& forall|i: int| 0 <= i < rs@.len() ==> wf_part_result(#[trigger] rs@[i])
                },
                (Err(e1), Err(e2)) => e1 == e2,
                _ => false,
            },
    {
        match string_to_parts(string) {
            Ok(parts) => {
                proof {
                    lemma_spec_parse_valid(string@);
                }
                Ok(self.parts_to_results(parts))
            },
            Err(e) => Err(e),
        }
    }
}


/// The composition law: the signed grand total of a well-formed breakdown
/// equals the evaluator's grand total under the very draws the breakdown
/// records.
pub proof fn lemma_total_matches_breakdown(rs: Seq<PartResult>)
    requires
        forall|i: int| 0 <= i < rs.len() ==> wf_part_result(#[trigger] rs[i]),
    ensures
        breakdown_signed_sum(rs) == eval_total(
            rs.map_values(|pr: PartResult| pr.part@),
            rs.map_values(|pr: PartResult| pr.results@),
        ),
    decreases rs.len(),
{
    let ts = rs.map_values(|pr: PartResult| pr.part@);
    let ds = rs.map_values(|pr: PartResult| pr.results@);
    if rs.len() > 0 {
        let pre = rs.drop_last();
        lemma_total_matches_breakdown(pre);
        assert(pre.map_values(|pr: PartResult| pr.part@) =~= ts.drop_last());
        assert(pre.map_values(|pr: PartResult| pr.results@) =~= ds.drop_last());
        assert(signed_total(rs.last()) == signed_term_total(ts.last(), ds.last()));
    }
}

/// Whether the largest total the parts can reach fits a signed 64-bit
/// accumulator: the exact bound the total evaluator asks of its callers.
pub fn total_fits_i64(parts: &RollParts) -> (b: bool)
    ensures
        b == (max_abs_total(parts_view(parts@)) <= i64::MAX),
{
    let ghost ts = parts_view(parts@);
    let mut acc: u128 = 0;
    let mut idx: usize = 0;
    let n = parts.len();
    while idx < n
        invariant
            idx <= n == parts@.len(),
            ts == parts_view(parts@),
            acc as int == max_abs_total(ts.take(idx as int)),
            acc <= i64::MAX as u128,
        decreases n - idx,
    {
        proof {
            assert(ts[idx as int] == parts@[idx as int]@);
            assert(ts.take(idx as int + 1).drop_last() =~= ts.take(idx as int));
            assert(ts.take(idx as int + 1).last() == ts[idx as int]);
        }
        let tm: u64 = match &parts[idx] {
            RollPart::DiceRoll(dr) => {
                proof {
                    assert((dr.count as int) * (dr.faces as int) <= 0xFFFF_FFFFu64 * 0xFFFF_FFFFu64)
                        by (nonlinear_arith)
                        requires
                            dr.count <= 0xFFFF_FFFFu32,
                            dr.faces <= 0xFFFF_FFFFu32,
                    ;
                }
                (dr.count as u64) * (dr.faces as u64)
            },
            RollPart::AlgebraicElement(a) => a.amount as u64,
        };
        proof {
            assert(tm as int == term_max(ts[idx as int]));
        }
        acc = acc + (tm as u128);
        if acc > (i64::MAX as u128) {
            proof {
                lemma_max_abs_take_le(ts, idx as int + 1);
            }
            return false;
        }
        idx = idx + 1;
    }
    proof {
        assert(ts.take(n as int) =~= ts);
    }
    true
}


/// Whether every single part's largest total fits an unsigned 32-bit
/// per-part sum: the bound the breakdown evaluator asks of its callers.
pub fn totals_fit_u32(parts: &RollParts) -> (b: bool)
    ensures
        b == (forall|i: int|
            0 <= i < parts@.len() ==> term_max(#[trigger] parts_view(parts@)[i]) <= u32::MAX),
{
    let ghost ts = parts_view(parts@);
    let mut idx: usize = 0;
    let n = parts.len();
    while idx < n
        invariant
            idx <= n == parts@.len(),
            ts == parts_view(parts@),
            forall|i: int| 0 <= i < idx ==> term_max(#[trigger] ts[i]) <= u32::MAX,
        decreases n - idx,
    {
        proof {
            assert(ts[idx as int] == parts@[idx as int]@);
        }
        match &parts[idx] {
            RollPart::DiceRoll(dr) => {
                proof {
                    assert((dr.count as int) * (dr.faces as int) <= 0xFFFF_FFFFu64 * 0xFFFF_FFFFu64)
                        by (nonlinear_arith)
                        requires
                            dr.count <= 0xFFFF_FFFFu32,
                            dr.faces <= 0xFFFF_FFFFu32,
                    ;
                }
                let tm: u64 = (dr.count as u64) * (dr.faces as u64);
                if tm > (u32::MAX as u64) {
                    proof {
                        assert(term_max(ts[idx as int]) > u32::MAX);
                    }
                    return false;
                }
            },
            RollPart::AlgebraicElement(a) => {},
        }
        idx = idx + 1;
    }
    true
}

} // verus!
