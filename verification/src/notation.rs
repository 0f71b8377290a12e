//! The dice-notation grammar, stated mathematically over sequences of
//! characters.
//!
//! A notation string is `sign? term (sign term)*`, where a sign is `+` or
//! `-` with optional surrounding spaces, a term is either a dice roll
//! (`<count>d<faces>`, `d` or `D`) or a flat amount (`<amount>`), and either
//! may carry a parenthesized free-text descriptor. The first term may omit
//! its sign, which defaults to positive; every later term must carry one.
//!
//! The functions here are the single source of truth: the executable parser
//! and renderer are proved against them, and the round-trip law is proved
//! about them alone.

use vstd::prelude::*;

verus! {

/// Why a notation string was rejected.
#[derive(Clone, Copy, Debug, PartialEq, Eq, Structural)]
pub enum ParseError {
    /// A term after the first was not preceded by an explicit `+` or `-`.
    MissingSign,
    /// At a term boundary, neither the dice-roll pattern nor the
    /// flat-amount pattern matches.
    UnrecognizedTerm,
    /// A `count`, `faces` or `amount` literal does not fit in 32 bits.
    NumericOverflow,
}

/// The mathematical form of one parsed term.
pub ghost enum TermV {
    Dice { count: u32, faces: u32, positive: bool, descriptor: Option<Seq<char>> },
    Flat { amount: u32, positive: bool, descriptor: Option<Seq<char>> },
}

impl TermV {
    /// Every term the grammar can produce: dice counts and face counts are
    /// positive, and a descriptor never holds a closing parenthesis.
    pub open spec fn valid(self) -> bool {
        match self {
            TermV::Dice { count, faces, positive, descriptor } => {
                &&& count >= 1
                &&& faces >= 1
                &&& descriptor_valid(descriptor)
            },
            TermV::Flat { amount, positive, descriptor } => descriptor_valid(descriptor),
        }
    }

    pub open spec fn positive(self) -> bool {
        match self {
            TermV::Dice { positive, .. } => positive,
            TermV::Flat { positive, .. } => positive,
        }
    }

    pub open spec fn descriptor(self) -> Option<Seq<char>> {
        match self {
            TermV::Dice { descriptor, .. } => descriptor,
            TermV::Flat { descriptor, .. } => descriptor,
        }
    }
}

pub open spec fn descriptor_valid(d: Option<Seq<char>>) -> bool {
    match d {
        Some(t) => forall|i: int| 0 <= i < t.len() ==> t[i] != ')',
        None => true,
    }
}

pub open spec fn is_digit(c: char) -> bool {
    '0' <= c && c <= '9'
}

pub open spec fn digit_val(c: char) -> int {
    c as u32 - '0' as u32
}

/// Length of the longest prefix of spaces.
pub open spec fn space_prefix_len(s: Seq<char>) -> nat
    decreases s.len(),
{
    if s.len() > 0 && s[0] == ' ' {
        1 + space_prefix_len(s.skip(1))
    } else {
        0
    }
}

/// Length of the longest prefix of decimal digits.
pub open spec fn digit_prefix_len(s: Seq<char>) -> nat
    decreases s.len(),
{
    if s.len() > 0 && is_digit(s[0]) {
        1 + digit_prefix_len(s.skip(1))
    } else {
        0
    }
}

/// Value of a sequence of decimal digits, most significant first.
pub open spec fn digits_val(ds: Seq<char>) -> int
    decreases ds.len(),
{
    if ds.len() == 0 {
        0
    } else {
        digits_val(ds.take(ds.len() - 1)) * 10 + digit_val(ds[ds.len() - 1])
    }
}

/// Index of the first `)` in `s`, if any.
pub open spec fn find_close(s: Seq<char>) -> Option<nat>
    decreases s.len(),
{
    if s.len() == 0 {
        None
    } else if s[0] == ')' {
        Some(0)
    } else {
        match find_close(s.skip(1)) {
            Some(i) => Some((i + 1) as nat),
            None => None,
        }
    }
}

pub open spec fn all_digits(ds: Seq<char>) -> bool {
    forall|i: int| 0 <= i < ds.len() ==> is_digit(#[trigger] ds[i])
}

proof fn lemma_digits_val_nonneg(ds: Seq<char>)
    requires
        all_digits(ds),
    ensures
        digits_val(ds) >= 0,
    decreases ds.len(),
{
    if ds.len() > 0 {
        assert(all_digits(ds.take(ds.len() - 1)));
        lemma_digits_val_nonneg(ds.take(ds.len() - 1));
    }
}

/// A digit string is worth at least any of its prefixes.
pub proof fn lemma_digits_val_prefix_le(ds: Seq<char>, m: int)
    requires
        all_digits(ds),
        0 <= m <= ds.len(),
    ensures
        digits_val(ds.take(m)) <= digits_val(ds),
    decreases ds.len(),
{
    if m == ds.len() {
        assert(ds.take(m) =~= ds);
    } else {
        let pre = ds.take(ds.len() - 1);
        assert(all_digits(pre));
        assert(ds.take(m) =~= pre.take(m));
        lemma_digits_val_prefix_le(pre, m);
        lemma_digits_val_nonneg(pre);
    }
}

/// The sign pattern: optional spaces, `+` or `-`, optional spaces. Returns
/// the sign and the number of characters consumed, or nothing if no sign
/// stands at the front.
pub open spec fn sign_match(s: Seq<char>) -> Option<(bool, nat)> {
    let k = space_prefix_len(s);
    if k < s.len() && (s[k as int] == '+' || s[k as int] == '-') {
        let m = space_prefix_len(s.skip(k as int + 1));
        Some((s[k as int] == '+', (k + 1 + m) as nat))
    } else {
        None
    }
}

/// The descriptor pattern after a number: optional spaces, then `(`,
/// any characters but `)`, then `)`. When no complete descriptor follows,
/// only the spaces are consumed.
pub open spec fn descriptor_match(s: Seq<char>) -> (Option<Seq<char>>, nat) {
    let k = space_prefix_len(s);
    if k < s.len() && s[k as int] == '(' {
        match find_close(s.skip(k as int + 1)) {
            Some(i) => (Some(s.subrange(k as int + 1, k as int + 1 + i)), (k + 1 + i + 1) as nat),
            None => (None, k),
        }
    } else {
        (None, k)
    }
}

proof fn lemma_space_prefix_le(s: Seq<char>)
    ensures
        space_prefix_len(s) <= s.len(),
    decreases s.len(),
{
    if s.len() > 0 && s[0] == ' ' {
        lemma_space_prefix_le(s.skip(1));
    }
}

proof fn lemma_digit_prefix_le(s: Seq<char>)
    ensures
        digit_prefix_len(s) <= s.len(),
    decreases s.len(),
{
    if s.len() > 0 && is_digit(s[0]) {
        lemma_digit_prefix_le(s.skip(1));
    }
}

proof fn lemma_find_close_le(s: Seq<char>)
    ensures
        match find_close(s) {
            Some(i) => i < s.len(),
            None => true,
        },
    decreases s.len(),
{
    if s.len() > 0 && s[0] != ')' {
        lemma_find_close_le(s.skip(1));
    }
}

proof fn lemma_descriptor_match_le(s: Seq<char>)
    ensures
        descriptor_match(s).1 <= s.len(),
{
    lemma_space_prefix_le(s);
    let k = space_prefix_len(s);
    if k < s.len() && s[k as int] == '(' {
        lemma_find_close_le(s.skip(k as int + 1));
    }
}

proof fn lemma_sign_match_le(s: Seq<char>)
    ensures
        match sign_match(s) {
            Some((p, k)) => k <= s.len(),
            None => true,
        },
{
    lemma_space_prefix_le(s);
    let k = space_prefix_len(s);
    if k < s.len() && (s[k as int] == '+' || s[k as int] == '-') {
        lemma_space_prefix_le(s.skip(k as int + 1));
    }
}

/// One parse position: a sign (mandatory unless `first`), then a term,
/// then the rest of the string.
pub open spec fn parse_rest(s: Seq<char>, first: bool) -> Result<Seq<TermV>, ParseError>
    decreases s.len(), 1int,
    via parse_rest_decreases
{
    match sign_match(s) {
        Some((p, k)) => parse_step(s.skip(k as int), p),
        None => if first {
            parse_step(s, true)
        } else {
            Err(ParseError::MissingSign)
        },
    }
}

/// One term at the front of `t` with the given sign, then the rest.
/// A digit prefix followed by `d` or `D` commits to the dice pattern;
/// otherwise a digit prefix alone is a flat amount; anything else is
/// unrecognized.
pub open spec fn parse_step(t: Seq<char>, positive: bool) -> Result<Seq<TermV>, ParseError>
    decreases t.len(), 0int,
    via parse_step_decreases
{
    let n1 = digit_prefix_len(t);
    if n1 == 0 {
        Err(ParseError::UnrecognizedTerm)
    } else if n1 < t.len() && (t[n1 as int] == 'd' || t[n1 as int] == 'D') {
        let rest = t.skip(n1 as int + 1);
        let n2 = digit_prefix_len(rest);
        if n2 == 0 {
            Err(ParseError::UnrecognizedTerm)
        } else {
            let cval = digits_val(t.take(n1 as int));
            let fval = digits_val(rest.take(n2 as int));
            if cval > u32::MAX {
                Err(ParseError::NumericOverflow)
            } else if fval > u32::MAX {
                Err(ParseError::NumericOverflow)
            } else if cval == 0 || fval == 0 {
                Err(ParseError::UnrecognizedTerm)
            } else {
                let dm = descriptor_match(rest.skip(n2 as int));
                let m = n1 + 1 + n2 + dm.1;
                let term = (TermV::Dice {
                    count: cval as u32,
                    faces: fval as u32,
                    positive,
                    descriptor: dm.0,
                });
                if m >= t.len() {
                    Ok(seq![term])
                } else {
                    match parse_rest(t.skip(m as int), false) {
                        Ok(ts) => Ok(seq![term] + ts),
                        Err(e) => Err(e),
                    }
                }
            }
        }
    } else {
        let aval = digits_val(t.take(n1 as int));
        if aval > u32::MAX {
            Err(ParseError::NumericOverflow)
        } else {
            let dm = descriptor_match(t.skip(n1 as int));
            let m = n1 + dm.1;
            let term = (TermV::Flat { amount: aval as u32, positive, descriptor: dm.0 });
            if m >= t.len() {
                Ok(seq![term])
            } else {
                match parse_rest(t.skip(m as int), false) {
                    Ok(ts) => Ok(seq![term] + ts),
                    Err(e) => Err(e),
                }
            }
        }
    }
}

#[via_fn]
proof fn parse_rest_decreases(s: Seq<char>, first: bool) {
    lemma_sign_match_le(s);
}

#[via_fn]
proof fn parse_step_decreases(t: Seq<char>, positive: bool) {
    lemma_digit_prefix_le(t);
    let n1 = digit_prefix_len(t);
    if n1 > 0 && n1 < t.len() && (t[n1 as int] == 'd' || t[n1 as int] == 'D') {
        let rest = t.skip(n1 as int + 1);
        lemma_digit_prefix_le(rest);
        let n2 = digit_prefix_len(rest);
        lemma_descriptor_match_le(rest.skip(n2 as int));
    } else if n1 > 0 {
        lemma_descriptor_match_le(t.skip(n1 as int));
    }
}

/// What any notation string means: the whole string is consumed, and the
/// first term's sign may be implicit.
pub open spec fn spec_parse(s: Seq<char>) -> Result<Seq<TermV>, ParseError> {
    parse_rest(s, true)
}

/// Terms already parsed, put in front of the outcome of the rest.
pub open spec fn with_prefix(pre: Seq<TermV>, r: Result<Seq<TermV>, ParseError>) -> Result<
    Seq<TermV>,
    ParseError,
> {
    match r {
        Ok(ts) => Ok(pre + ts),
        Err(e) => Err(e),
    }
}

pub proof fn lemma_with_prefix_assoc(pre: Seq<TermV>, t: TermV, r: Result<Seq<TermV>, ParseError>)
    ensures
        with_prefix(pre, with_prefix(seq![t], r)) == with_prefix(pre.push(t), r),
{
    match r {
        Ok(ts) => {
            assert(pre + (seq![t] + ts) =~= pre.push(t) + ts);
        },
        Err(e) => {},
    }
}

/// How one parse position reduces to a term position.
pub proof fn lemma_parse_rest_step(s: Seq<char>, first: bool)
    ensures
        match sign_match(s) {
            Some((p, k)) => parse_rest(s, first) == parse_step(s.skip(k as int), p),
            None => parse_rest(s, first) == (if first {
                parse_step(s, true)
            } else {
                Err::<Seq<TermV>, ParseError>(ParseError::MissingSign)
            }),
        },
{
}

/// The values a term resolves to: one literal value for a flat amount,
/// `count` rolled values each in `[1, faces]` for a dice roll.
pub open spec fn draws_match_term(t: TermV, vs: Seq<u32>) -> bool {
    match t {
        TermV::Dice { count, faces, .. } => {
            &&& vs.len() == count
            &&& forall|i: int| 0 <= i < vs.len() ==> 1 <= #[trigger] vs[i] <= faces
        },
        TermV::Flat { amount, .. } => vs == seq![amount],
    }
}

/// One draw sequence per term, each fitting its term.
pub open spec fn draws_match(ts: Seq<TermV>, draws: Seq<Seq<u32>>) -> bool {
    &&& draws.len() == ts.len()
    &&& forall|i: int| 0 <= i < ts.len() ==> draws_match_term(ts[i], #[trigger] draws[i])
}

pub open spec fn seq_sum(vs: Seq<u32>) -> int
    decreases vs.len(),
{
    if vs.len() == 0 {
        0
    } else {
        seq_sum(vs.drop_last()) + vs.last()
    }
}

/// A term's contribution to the grand total: the sum of its resolved
/// values, negated when its sign is subtract.
pub open spec fn signed_term_total(t: TermV, vs: Seq<u32>) -> int {
    if t.positive() {
        seq_sum(vs)
    } else {
        -seq_sum(vs)
    }
}

/// The grand total of a term sequence under the given draws.
pub open spec fn eval_total(ts: Seq<TermV>, draws: Seq<Seq<u32>>) -> int
    decreases ts.len(),
{
    if ts.len() == 0 {
        0
    } else {
        eval_total(ts.drop_last(), draws.drop_last()) + signed_term_total(ts.last(), draws.last())
    }
}

/// The largest magnitude a term can contribute.
pub open spec fn term_max(t: TermV) -> int {
    match t {
        TermV::Dice { count, faces, .. } => count * faces,
        TermV::Flat { amount, .. } => amount as int,
    }
}

/// The largest magnitude a whole term sequence can total.
pub open spec fn max_abs_total(ts: Seq<TermV>) -> int
    decreases ts.len(),
{
    if ts.len() == 0 {
        0
    } else {
        max_abs_total(ts.drop_last()) + term_max(ts.last())
    }
}

proof fn lemma_term_max_nonneg(t: TermV)
    ensures
        term_max(t) >= 0,
{
    match t {
        TermV::Dice { count, faces, .. } => {
            assert(count * faces >= 0) by (nonlinear_arith)
                requires
                    count >= 0,
                    faces >= 0,
            ;
        },
        TermV::Flat { .. } => {},
    }
}

/// What a prefix can total is no more than what the whole can.
pub proof fn lemma_max_abs_take_le(ts: Seq<TermV>, m: int)
    requires
        0 <= m <= ts.len(),
    ensures
        max_abs_total(ts.take(m)) <= max_abs_total(ts),
    decreases ts.len(),
{
    if m == ts.len() {
        assert(ts.take(m) =~= ts);
    } else {
        let pre = ts.drop_last();
        assert(ts.take(m) =~= pre.take(m));
        lemma_max_abs_take_le(pre, m);
        lemma_term_max_nonneg(ts.last());
    }
}

/// Dice terms can be resolved only when each die has at least one face.
pub open spec fn evaluable(ts: Seq<TermV>) -> bool {
    forall|i: int| 0 <= i < ts.len() ==> match #[trigger] ts[i] {
        TermV::Dice { faces, .. } => faces >= 1,
        TermV::Flat { .. } => true,
    }
}

/// Every character inside the digit prefix is a digit.
proof fn lemma_digit_prefix_digits(s: Seq<char>)
    ensures
        forall|j: int| 0 <= j < digit_prefix_len(s) ==> is_digit(#[trigger] s[j]),
    decreases s.len(),
{
    lemma_digit_prefix_le(s);
    if s.len() > 0 && is_digit(s[0]) {
        lemma_digit_prefix_digits(s.skip(1));
        lemma_digit_prefix_le(s.skip(1));
        assert forall|j: int| 0 <= j < digit_prefix_len(s) implies is_digit(#[trigger] s[j]) by {
            if j > 0 {
                assert(0 <= j - 1 < digit_prefix_len(s.skip(1)));
                assert(s.skip(1)[j - 1] == s[j]);
            }
        }
    }
}

proof fn lemma_find_close_content(s: Seq<char>)
    ensures
        match find_close(s) {
            Some(i) => forall|j: int| 0 <= j < i ==> s[j] != ')',
            None => true,
        },
    decreases s.len(),
{
    if s.len() > 0 && s[0] != ')' {
        lemma_find_close_content(s.skip(1));
        lemma_find_close_le(s.skip(1));
        match find_close(s) {
            Some(i) => {
                assert forall|j: int| 0 <= j < i implies s[j] != ')' by {
                    if j > 0 {
                        assert(0 <= j - 1 < s.skip(1).len());
                        assert(s.skip(1)[j - 1] == s[j]);
                        assert(s.skip(1)[j - 1] != ')');
                    }
                }
            },
            None => {},
        }
    }
}

/// A captured descriptor never holds a closing parenthesis.
proof fn lemma_descriptor_match_valid(s: Seq<char>)
    ensures
        descriptor_valid(descriptor_match(s).0),
{
    let k = space_prefix_len(s);
    if k < s.len() && s[k as int] == '(' {
        match find_close(s.skip(k as int + 1)) {
            Some(i) => {
                lemma_find_close_content(s.skip(k as int + 1));
                lemma_find_close_le(s.skip(k as int + 1));
                let d = s.subrange(k as int + 1, k as int + 1 + i);
                assert forall|j: int| 0 <= j < d.len() implies d[j] != ')' by {
                    assert(0 <= j < i < s.skip(k as int + 1).len());
                    assert(d[j] == s[k as int + 1 + j]);
                    assert(s.skip(k as int + 1)[j] == s[k as int + 1 + j]);
                    assert(s.skip(k as int + 1)[j] != ')');
                }
            },
            None => {},
        }
    }
}

proof fn lemma_parse_rest_valid(s: Seq<char>, first: bool)
    ensures
        match parse_rest(s, first) {
            Ok(ts) => forall|i: int| 0 <= i < ts.len() ==> (#[trigger] ts[i]).valid(),
            Err(_) => true,
        },
    decreases s.len(), 1int,
{
    match sign_match(s) {
        Some((p, k)) => {
            lemma_sign_match_le(s);
            lemma_parse_step_valid(s.skip(k as int), p);
        },
        None => {
            if first {
                lemma_parse_step_valid(s, true);
            }
        },
    }
}

proof fn lemma_parse_step_valid(t: Seq<char>, positive: bool)
    ensures
        match parse_step(t, positive) {
            Ok(ts) => forall|i: int| 0 <= i < ts.len() ==> (#[trigger] ts[i]).valid(),
            Err(_) => true,
        },
    decreases t.len(), 0int,
{
    lemma_digit_prefix_le(t);
    lemma_digit_prefix_digits(t);
    let n1 = digit_prefix_len(t);
    if n1 == 0 {
    } else if n1 < t.len() && (t[n1 as int] == 'd' || t[n1 as int] == 'D') {
        let rest = t.skip(n1 as int + 1);
        lemma_digit_prefix_le(rest);
        lemma_digit_prefix_digits(rest);
        let n2 = digit_prefix_len(rest);
        if n2 > 0 {
            let cval = digits_val(t.take(n1 as int));
            let fval = digits_val(rest.take(n2 as int));
            assert(all_digits(t.take(n1 as int)));
            assert(all_digits(rest.take(n2 as int)));
            lemma_digits_val_nonneg(t.take(n1 as int));
            lemma_digits_val_nonneg(rest.take(n2 as int));
            if cval <= u32::MAX && fval <= u32::MAX && cval != 0 && fval != 0 {
                lemma_descriptor_match_le(rest.skip(n2 as int));
                lemma_descriptor_match_valid(rest.skip(n2 as int));
                let dm = descriptor_match(rest.skip(n2 as int));
                let m = n1 + 1 + n2 + dm.1;
                let term = (TermV::Dice {
                    count: cval as u32,
                    faces: fval as u32,
                    positive,
                    descriptor: dm.0,
                });
                assert(term.valid());
                if m >= t.len() {
                    assert(seq![term][0] == term);
                } else {
                    lemma_parse_rest_valid(t.skip(m as int), false);
                    match parse_rest(t.skip(m as int), false) {
                        Ok(ts) => {
                            let all = seq![term] + ts;
                            assert forall|i: int| 0 <= i < all.len() implies (#[trigger] all[i]).valid() by {
                                if i == 0 {
                                    assert(all[0] == term);
                                } else {
                                    assert(all[i] == ts[i - 1]);
                                }
                            }
                        },
                        Err(_) => {},
                    }
                }
            }
        }
    } else {
        let aval = digits_val(t.take(n1 as int));
        assert(all_digits(t.take(n1 as int)));
        lemma_digits_val_nonneg(t.take(n1 as int));
        if aval <= u32::MAX {
            lemma_descriptor_match_le(t.skip(n1 as int));
            lemma_descriptor_match_valid(t.skip(n1 as int));
            let dm = descriptor_match(t.skip(n1 as int));
            let m = n1 + dm.1;
            let term = (TermV::Flat { amount: aval as u32, positive, descriptor: dm.0 });
            assert(term.valid());
            if m >= t.len() {
                assert(seq![term][0] == term);
            } else {
                lemma_parse_rest_valid(t.skip(m as int), false);
                match parse_rest(t.skip(m as int), false) {
                    Ok(ts) => {
                        let all = seq![term] + ts;
                        assert forall|i: int| 0 <= i < all.len() implies (#[trigger] all[i]).valid() by {
                            if i == 0 {
                                assert(all[0] == term);
                            } else {
                                assert(all[i] == ts[i - 1]);
                            }
                        }
                    },
                    Err(_) => {},
                }
            }
        }
    }
}

/// Every term sequence the grammar accepts is made of valid terms, and can
/// in particular be evaluated.
pub proof fn lemma_spec_parse_valid(s: Seq<char>)
    ensures
        match spec_parse(s) {
            Ok(ts) => (forall|i: int| 0 <= i < ts.len() ==> (#[trigger] ts[i]).valid())
                && evaluable(ts),
            Err(_) => true,
        },
{
    lemma_parse_rest_valid(s, true);
}

pub open spec fn digit_char(d: int) -> char {
    if d == 0 {
        '0'
    } else if d == 1 {
        '1'
    } else if d == 2 {
        '2'
    } else if d == 3 {
        '3'
    } else if d == 4 {
        '4'
    } else if d == 5 {
        '5'
    } else if d == 6 {
        '6'
    } else if d == 7 {
        '7'
    } else if d == 8 {
        '8'
    } else {
        '9'
    }
}

/// The decimal digits of a non-negative number, most significant first,
/// without leading zeroes (a single `0` for zero).
pub open spec fn dec_digits(n: int) -> Seq<char>
    decreases n,
{
    if n <= 9 {
        seq![digit_char(n)]
    } else {
        dec_digits(n / 10).push(digit_char(n % 10))
    }
}

pub open spec fn render_sign(positive: bool) -> Seq<char> {
    if positive {
        seq!['+']
    } else {
        seq!['-']
    }
}

/// A descriptor is rendered, when present, as a space and the text in
/// parentheses.
pub open spec fn render_desc(d: Option<Seq<char>>) -> Seq<char> {
    match d {
        Some(t) => seq![' ', '('] + t + seq![')'],
        None => Seq::<char>::empty(),
    }
}

/// A term's rendering after its sign: `<count>d<faces>` or `<amount>`,
/// then the descriptor if any.
pub open spec fn render_body(t: TermV) -> Seq<char> {
    match t {
        TermV::Dice { count, faces, positive, descriptor } => dec_digits(count as int)
            + seq!['d'] + dec_digits(faces as int) + render_desc(descriptor),
        TermV::Flat { amount, positive, descriptor } => dec_digits(amount as int) + render_desc(
            descriptor,
        ),
    }
}

/// One term rendered for display: an explicit sign always, then the body.
pub open spec fn render_term(t: TermV) -> Seq<char> {
    render_sign(t.positive()) + render_body(t)
}

/// A whole term sequence rendered in input order.
pub open spec fn render_terms(ts: Seq<TermV>) -> Seq<char>
    decreases ts.len(),
{
    if ts.len() == 0 {
        Seq::<char>::empty()
    } else {
        render_term(ts[0]) + render_terms(ts.skip(1))
    }
}


proof fn lemma_dec_digits(n: int)
    requires
        n >= 0,
    ensures
        dec_digits(n).len() >= 1,
        all_digits(dec_digits(n)),
        digits_val(dec_digits(n)) == n,
    decreases n,
{
    if n <= 9 {
        let c = digit_char(n);
        assert(is_digit(c));
        assert(digit_val(c) == n);
        assert(seq![c].take(0) =~= Seq::<char>::empty());
        assert(digits_val(Seq::<char>::empty()) == 0);
        assert(digits_val(seq![c]) == n);
    } else {
        lemma_dec_digits(n / 10);
        let d = dec_digits(n / 10);
        let c = digit_char(n % 10);
        assert(0 <= n % 10 <= 9);
        assert(is_digit(c));
        assert(digit_val(c) == n % 10);
        let w = d.push(c);
        assert(w.take(w.len() - 1) =~= d);
        assert(w[w.len() - 1] == c);
        assert(digits_val(w) == digits_val(d) * 10 + digit_val(c));
        assert(n / 10 * 10 + n % 10 == n);
        assert forall|i: int| 0 <= i < w.len() implies is_digit(#[trigger] w[i]) by {
            if i < d.len() {
                assert(w[i] == d[i]);
            }
        }
    }
}

/// The digit prefix of digits followed by a non-digit is exactly the
/// digits.
proof fn lemma_digit_prefix_concat(a: Seq<char>, b: Seq<char>)
    requires
        all_digits(a),
        b.len() == 0 || !is_digit(b[0]),
    ensures
        digit_prefix_len(a + b) == a.len(),
    decreases a.len(),
{
    if a.len() == 0 {
        assert(a + b =~= b);
    } else {
        assert((a + b)[0] == a[0]);
        assert((a + b).skip(1) =~= a.skip(1) + b);
        assert(all_digits(a.skip(1)));
        lemma_digit_prefix_concat(a.skip(1), b);
    }
}

proof fn lemma_find_close_concat(t: Seq<char>, rest: Seq<char>)
    requires
        forall|i: int| 0 <= i < t.len() ==> t[i] != ')',
    ensures
        find_close(t + seq![')'] + rest) == Some(t.len()),
    decreases t.len(),
{
    let s = t + seq![')'] + rest;
    if t.len() == 0 {
        assert(s[0] == ')');
    } else {
        assert(s[0] == t[0]);
        assert(s.skip(1) =~= t.skip(1) + seq![')'] + rest);
        lemma_find_close_concat(t.skip(1), rest);
    }
}

/// A rendered descriptor followed by a sign or the string's end reads back
/// as exactly that descriptor.
proof fn lemma_descriptor_render(d: Option<Seq<char>>, rest: Seq<char>)
    requires
        descriptor_valid(d),
        rest.len() == 0 || rest[0] == '+' || rest[0] == '-',
    ensures
        descriptor_match(render_desc(d) + rest) == (d, render_desc(d).len() as nat),
{
    let s = render_desc(d) + rest;
    match d {
        None => {
            assert(s =~= rest);
            assert(space_prefix_len(rest) == 0);
        },
        Some(txt) => {
            assert(s[0] == ' ');
            assert(s.skip(1) =~= seq!['('] + txt + seq![')'] + rest);
            assert(s.skip(1)[0] == '(');
            assert(space_prefix_len(s.skip(1)) == 0);
            assert(space_prefix_len(s) == 1);
            assert(s[1] == '(');
            assert(s.skip(2) =~= txt + seq![')'] + rest);
            lemma_find_close_concat(txt, rest);
            assert(find_close(s.skip(1 as int + 1)) == Some(txt.len()));
            assert(s.subrange(2, 2 + txt.len() as int) =~= txt);
        },
    }
}

/// A rendered term body followed by a sign or the end reads back as
/// exactly that term, and the rest of the string is untouched.
#[verifier::rlimit(100)]
proof fn lemma_parse_step_render(t: TermV, rest: Seq<char>)
    requires
        t.valid(),
        rest.len() == 0 || rest[0] == '+' || rest[0] == '-',
    ensures
        parse_step(render_body(t) + rest, t.positive()) == (if rest.len() == 0 {
            Ok::<Seq<TermV>, ParseError>(seq![t])
        } else {
            with_prefix(seq![t], parse_rest(rest, false))
        }),
{
    let s = render_body(t) + rest;
    match t {
        TermV::Dice { count, faces, positive, descriptor } => {
            lemma_dec_digits(count as int);
            lemma_dec_digits(faces as int);
            let a = dec_digits(count as int);
            let f = dec_digits(faces as int);
            let dd = render_desc(descriptor);
            let b = seq!['d'] + f + dd + rest;
            assert(s =~= a + b);
            assert(b[0] == 'd');
            lemma_digit_prefix_concat(a, b);
            let n1 = digit_prefix_len(s);
            assert(n1 == a.len());
            assert(s[n1 as int] == b[0]);
            assert(s.take(n1 as int) =~= a);
            let rest1 = s.skip(n1 as int + 1);
            let b2 = dd + rest;
            assert(rest1 =~= f + b2);
            assert(b2.len() == 0 || !is_digit(b2[0])) by {
                match descriptor {
                    Some(txt) => {
                        assert(b2[0] == ' ');
                    },
                    None => {
                        assert(b2 =~= rest);
                    },
                }
            }
            lemma_digit_prefix_concat(f, b2);
            let n2 = digit_prefix_len(rest1);
            assert(n2 == f.len());
            assert(rest1.take(n2 as int) =~= f);
            assert(rest1.skip(n2 as int) =~= b2);
            lemma_descriptor_render(descriptor, rest);
            let dm = descriptor_match(rest1.skip(n2 as int));
            assert(dm == (descriptor, dd.len() as nat));
            let m = n1 + 1 + n2 + dm.1;
            assert(m == a.len() + 1 + f.len() + dd.len());
            assert(s.skip(m as int) =~= rest);
            assert(digits_val(s.take(n1 as int)) == count);
            assert(digits_val(rest1.take(n2 as int)) == faces);
            if rest.len() == 0 {
                assert(m == s.len());
            } else {
                assert(m < s.len());
                match parse_rest(rest, false) {
                    Ok(ts) => {},
                    Err(e) => {},
                }
            }
        },
        TermV::Flat { amount, positive, descriptor } => {
            lemma_dec_digits(amount as int);
            let a = dec_digits(amount as int);
            let dd = render_desc(descriptor);
            let b = dd + rest;
            assert(s =~= a + b);
            assert(b.len() == 0 || !is_digit(b[0])) by {
                match descriptor {
                    Some(txt) => {
                        assert(b[0] == ' ');
                    },
                    None => {
                        assert(b =~= rest);
                    },
                }
            }
            lemma_digit_prefix_concat(a, b);
            let n1 = digit_prefix_len(s);
            assert(n1 == a.len());
            assert(n1 < s.len() ==> s[n1 as int] == b[0]);
            assert(!(n1 < s.len() && (s[n1 as int] == 'd' || s[n1 as int] == 'D'))) by {
                if n1 < s.len() {
                    match descriptor {
                        Some(txt) => {
                            assert(b[0] == ' ');
                        },
                        None => {
                            assert(b =~= rest);
                        },
                    }
                }
            }
            assert(s.take(n1 as int) =~= a);
            assert(digits_val(s.take(n1 as int)) == amount);
            assert(s.skip(n1 as int) =~= b);
            lemma_descriptor_render(descriptor, rest);
            let dm = descriptor_match(s.skip(n1 as int));
            assert(dm == (descriptor, dd.len() as nat));
            let m = n1 + dm.1;
            assert(m == a.len() + dd.len());
            assert(s.skip(m as int) =~= rest);
            if rest.len() == 0 {
                assert(m == s.len());
            } else {
                assert(m < s.len());
                match parse_rest(rest, false) {
                    Ok(ts) => {},
                    Err(e) => {},
                }
            }
        },
    }
}

#[verifier::rlimit(100)]
proof fn lemma_parse_rest_render(ts: Seq<TermV>, first: bool)
    requires
        ts.len() >= 1,
        forall|i: int| 0 <= i < ts.len() ==> (#[trigger] ts[i]).valid(),
    ensures
        parse_rest(render_terms(ts), first) == Ok::<Seq<TermV>, ParseError>(ts),
    decreases ts.len(),
{
    let t0 = ts[0];
    let rest_ts = ts.skip(1);
    let s = render_terms(ts);
    let body = render_body(t0);
    let rstream = render_terms(rest_ts);
    assert(s == render_term(t0) + rstream);
    assert(s =~= render_sign(t0.positive()) + (body + rstream));
    assert(s[0] == (if t0.positive() { '+' } else { '-' }));
    assert(space_prefix_len(s) == 0);
    assert(body.len() >= 1 && is_digit(body[0])) by {
        match t0 {
            TermV::Dice { count, .. } => {
                lemma_dec_digits(count as int);
                assert(body[0] == dec_digits(count as int)[0]);
            },
            TermV::Flat { amount, .. } => {
                lemma_dec_digits(amount as int);
                assert(body[0] == dec_digits(amount as int)[0]);
            },
        }
    }
    assert(s.skip(1) =~= body + rstream);
    assert(s.skip(1)[0] == body[0]);
    assert(space_prefix_len(s.skip(1)) == 0);
    assert(sign_match(s) == Some((t0.positive(), 1 as nat)));
    assert(rstream.len() == 0 || rstream[0] == '+' || rstream[0] == '-') by {
        if rest_ts.len() > 0 {
            assert(rstream == render_term(rest_ts[0]) + render_terms(rest_ts.skip(1)));
            assert(rstream[0] == render_term(rest_ts[0])[0]);
            assert(render_term(rest_ts[0])[0] == (if rest_ts[0].positive() { '+' } else { '-' }));
        }
    }
    lemma_parse_step_render(t0, rstream);
    assert(parse_rest(s, first) == parse_step(s.skip(1), t0.positive()));
    if rest_ts.len() == 0 {
        assert(rstream =~= Seq::<char>::empty());
        assert(ts =~= seq![t0]);
    } else {
        assert(forall|i: int| 0 <= i < rest_ts.len() ==> (#[trigger] rest_ts[i]).valid());
        lemma_parse_rest_render(rest_ts, false);
        assert(seq![t0] + rest_ts =~= ts);
    }
}

/// The round-trip law: rendering any non-empty sequence of valid terms
/// and parsing the rendering back yields exactly those terms. The first
/// term's sign is explicit in the rendering, which the grammar also
/// accepts.
pub proof fn lemma_render_parse_roundtrip(ts: Seq<TermV>)
    requires
        ts.len() >= 1,
        forall|i: int| 0 <= i < ts.len() ==> (#[trigger] ts[i]).valid(),
    ensures
        spec_parse(render_terms(ts)) == Ok::<Seq<TermV>, ParseError>(ts),
{
    lemma_parse_rest_render(ts, true);
}

} // verus!
