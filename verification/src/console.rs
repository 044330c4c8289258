//! The console: parses typed text commands as bytes and drives the solver
//! controller. Numbers are written in decimal with an optional fraction
//! and are read into the parameter's fixed-point unit (millionths for the
//! pheromone constant, thousandths for the evaporation rate, whole numbers
//! for the rest), rounding down. Every malformed input is a typed error
//! that leaves the system unchanged.

use vstd::prelude::*;
use vstd::slice::slice_subrange;
use vstd::string::StringSliceAdditionalSpecFns;
use crate::params::{AntColonyParameters, ParameterName, EVAPORATION_DENOMINATOR, PHEROMONE_SCALE};
use crate::solver::{AcoError, AntColonySystem};
use crate::matrix::{mat, is_square, all_zero};

verus! {

/// A parsed console command.
#[derive(Clone, Copy, PartialEq, Eq, Debug)]
pub enum Command {
    /// `solve with ant-colony`
    Start,
    /// `stop`
    Stop,
    /// `clear`
    Clear,
    /// `exit`
    Exit,
    /// `set <parameter>: <value>`
    SetParameter(ParameterName, u64),
}

/// What a successfully executed command asks of the caller.
#[derive(Clone, Copy, PartialEq, Eq, Debug)]
pub enum CommandOutcome {
    /// The command was applied to the system.
    Applied,
    /// The caller should shut the session down.
    Exit,
}

/// An ASCII decimal digit.
pub open spec fn is_digit(b: u8) -> bool {
    48 <= b <= 57
}

/// Every byte is a digit.
pub open spec fn all_digits(s: Seq<u8>) -> bool {
    forall|i: int| 0 <= i < s.len() ==> is_digit(#[trigger] s[i])
}

/// The number a digit string denotes.
pub open spec fn digits_val(s: Seq<u8>) -> int
    decreases s.len(),
{
    if s.len() == 0 {
        0
    } else {
        digits_val(s.drop_last()) * 10 + (s.last() - 48)
    }
}

/// The scaled value of a fraction string: the first digit is worth a tenth
/// of `m`, the next a hundredth, and so on, rounding down — digits beyond
/// the scale's precision are dropped.
pub open spec fn frac_val(s: Seq<u8>, m: int) -> int
    decreases s.len(),
{
    if s.len() == 0 || m <= 1 {
        0
    } else {
        (s[0] - 48) * (m / 10) + frac_val(s.drop_first(), m / 10)
    }
}

/// Index of the first dot, or `-1` when there is none.
pub open spec fn find_dot(s: Seq<u8>) -> int
    decreases s.len(),
{
    if s.len() == 0 {
        -1
    } else if s[0] == 46 {
        0
    } else {
        let r = find_dot(s.drop_first());
        if r < 0 {
            -1
        } else {
            r + 1
        }
    }
}

/// `s` is a decimal number: digits, optionally followed by a dot and more
/// digits.
pub open spec fn valid_number(s: Seq<u8>) -> bool {
    let d = find_dot(s);
    if d < 0 {
        s.len() >= 1 && all_digits(s)
    } else {
        &&& 1 <= d < s.len() - 1
        &&& all_digits(s.take(d))
        &&& all_digits(s.skip(d + 1))
    }
}

/// The value of the decimal number `s` in units of `1 / scale`, rounded
/// down.
pub open spec fn number_value(s: Seq<u8>, scale: u64) -> int {
    let d = find_dot(s);
    if d < 0 {
        digits_val(s) * scale
    } else {
        digits_val(s.take(d)) * scale + frac_val(s.skip(d + 1), scale as int)
    }
}

/// Where `find_dot` points: the first dot, or nowhere when there is none.
pub proof fn lemma_find_dot(s: Seq<u8>)
    ensures
        find_dot(s) == -1 ==> forall|k: int| 0 <= k < s.len() ==> s[k] != 46,
        find_dot(s) >= 0 ==> 0 <= find_dot(s) < s.len() && s[find_dot(s)] == 46 && forall|k: int|
            0 <= k < find_dot(s) ==> s[k] != 46,
    decreases s.len(),
{
    if s.len() > 0 && s[0] != 46 {
        lemma_find_dot(s.drop_first());
        assert forall|k: int| 0 <= k < s.len() && find_dot(s) == -1 implies s[k] != 46 by {
            if k > 0 {
                assert(s.drop_first()[k - 1] == s[k]);
            }
        }
        if find_dot(s) >= 0 {
            assert(s.drop_first()[find_dot(s) - 1] == s[find_dot(s)]);
            assert forall|k: int| 0 <= k < find_dot(s) implies s[k] != 46 by {
                if k > 0 {
                    assert(s.drop_first()[k - 1] == s[k]);
                }
            }
        }
    }
}

/// Digit values are non-negative.
pub proof fn lemma_digits_val_nonneg(s: Seq<u8>)
    requires
        all_digits(s),
    ensures
        digits_val(s) >= 0,
    decreases s.len(),
{
    if s.len() > 0 {
        assert(all_digits(s.drop_last())) by {
            assert(forall|i: int| 0 <= i < s.len() - 1 ==> s.drop_last()[i] == s[i]);
        }
        lemma_digits_val_nonneg(s.drop_last());
    }
}

/// A longer digit prefix denotes at least as large a number.
pub proof fn lemma_digits_val_prefix_le(s: Seq<u8>, i: int)
    requires
        all_digits(s),
        0 <= i <= s.len(),
    ensures
        digits_val(s.take(i)) <= digits_val(s),
    decreases s.len() - i,
{
    if i == s.len() {
        assert(s.take(i) =~= s);
    } else {
        assert(s.take(i + 1).drop_last() =~= s.take(i));
        assert(all_digits(s.take(i))) by {
            assert(forall|k: int| 0 <= k < i ==> s.take(i)[k] == s[k]);
        }
        lemma_digits_val_nonneg(s.take(i));
        lemma_digits_val_prefix_le(s, i + 1);
        assert(digits_val(s.take(i + 1)) == digits_val(s.take(i)) * 10 + (s[i] - 48));
        assert(digits_val(s.take(i)) * 10 >= digits_val(s.take(i))) by (nonlinear_arith)
            requires
                digits_val(s.take(i)) >= 0;
    }
}

/// A fraction is worth at least zero and less than the scale.
pub proof fn lemma_frac_val_bounds(s: Seq<u8>, m: int)
    requires
        all_digits(s),
        m >= 1,
    ensures
        0 <= frac_val(s, m) < m,
    decreases s.len(),
{
    if s.len() > 0 && m > 1 {
        assert(all_digits(s.drop_first())) by {
            assert(forall|i: int| 0 <= i < s.len() - 1 ==> s.drop_first()[i] == s[i + 1]);
        }
        assert(m / 10 >= 0);
        if m / 10 >= 1 {
            lemma_frac_val_bounds(s.drop_first(), m / 10);
            assert((s[0] - 48) * (m / 10) <= 9 * (m / 10)) by (nonlinear_arith)
                requires
                    0 <= s[0] - 48 <= 9 && m / 10 >= 0;
            assert(10 * (m / 10) <= m) by (nonlinear_arith)
                requires
                    m >= 1;
            assert((s[0] - 48) * (m / 10) >= 0) by (nonlinear_arith)
                requires
                    0 <= s[0] - 48 && m / 10 >= 0;
        } else {
            assert((s[0] - 48) * (m / 10) == 0) by (nonlinear_arith)
                requires
                    m / 10 == 0;
            assert(frac_val(s.drop_first(), m / 10) == 0);
        }
    }
}

/// Reads a digit string into a `u64`, or reports that its value exceeds
/// `u64::MAX`.
fn parse_digits(s: &[u8]) -> (r: Option<u64>)
    requires
        all_digits(s@),
    ensures
        digits_val(s@) <= u64::MAX ==> r == Some(digits_val(s@) as u64),
        digits_val(s@) > u64::MAX ==> r is None,
{
    let mut acc: u64 = 0;
    let mut i: usize = 0;
    proof {
        assert(s@.take(0) =~= Seq::<u8>::empty());
    }
    while i < s.len()
        invariant
            i <= s@.len(),
            all_digits(s@),
            acc == digits_val(s@.take(i as int)),
        decreases s@.len() - i,
    {
        let d = s[i];
        proof {
            assert(s@.take(i as int + 1).drop_last() =~= s@.take(i as int));
            assert(is_digit(s@[i as int]));
        }
        if acc > (u64::MAX - ((d - 48) as u64)) / 10 {
            proof {
                let q = (u64::MAX as int - (d - 48)) / 10;
                vstd::arithmetic::div_mod::lemma_fundamental_div_mod(
                    u64::MAX as int - (d - 48),
                    10,
                );
                assert(acc * 10 + (d - 48) > u64::MAX as int) by (nonlinear_arith)
                    requires
                        acc as int >= q + 1 && u64::MAX as int - (d - 48) == 10 * q + (u64::MAX
                            as int - (d - 48)) % 10 && 0 <= (u64::MAX as int - (d - 48)) % 10 < 10;
                assert(digits_val(s@.take(i as int + 1)) > u64::MAX as int);
                lemma_digits_val_prefix_le(s@, i as int + 1);
            }
            return None;
        }
        proof {
            let q = (u64::MAX as int - (d - 48)) / 10;
            vstd::arithmetic::div_mod::lemma_fundamental_div_mod(u64::MAX as int - (d - 48), 10);
            assert(acc * 10 + (d - 48) <= u64::MAX as int) by (nonlinear_arith)
                requires
                    acc as int <= q && u64::MAX as int - (d - 48) == 10 * q + (u64::MAX as int - (
                    d - 48)) % 10 && 0 <= (u64::MAX as int - (d - 48)) % 10;
        }
        acc = acc * 10 + ((d - 48) as u64);
        i = i + 1;
    }
    proof {
        assert(s@.take(s@.len() as int) =~= s@);
    }
    Some(acc)
}

/// Reads a decimal number into units of `1 / scale`, rounding down, or
/// reports that the text is not a number or does not fit.
pub fn parse_scaled(s: &[u8], scale: u64) -> (r: Option<u64>)
    requires
        1 <= scale <= 1_000_000_000,
    ensures
        (valid_number(s@) && number_value(s@, scale) <= u64::MAX) ==> r == Some(
            number_value(s@, scale) as u64,
        ),
        !(valid_number(s@) && number_value(s@, scale) <= u64::MAX) ==> r is None,
{
    proof {
        lemma_find_dot(s@);
    }
    // find the dot and check every other byte is a digit
    let mut dot: usize = s.len();
    let mut i: usize = 0;
    let mut ok = s.len() > 0;
    while i < s.len()
        invariant
            i <= s@.len(),
            dot <= s@.len(),
            dot == s@.len() ==> forall|k: int| 0 <= k < i ==> s@[k] != 46,
            dot < s@.len() ==> dot < i && s@[dot as int] == 46 && (forall|k: int|
                0 <= k < dot ==> s@[k] != 46),
            ok == (s@.len() > 0 && forall|k: int|
                0 <= k < i ==> (k != dot ==> is_digit(#[trigger] s@[k]))),
        decreases s@.len() - i,
    {
        let b = s[i];
        if b == 46 {
            if dot == s.len() {
                dot = i;
            } else {
                // a second dot is not a digit either
                ok = false;
            }
        } else if !(b >= 48 && b <= 57) {
            ok = false;
        }
        i = i + 1;
    }
    if !ok {
        proof {
            if valid_number(s@) {
                let d = find_dot(s@);
                let k = choose|k: int|
                    0 <= k < s@.len() && k != dot && !is_digit(s@[k]);
                if d < 0 {
                    assert(is_digit(s@[k]));
                } else {
                    assert(d == dot);
                    if k < d {
                        assert(s@.take(d)[k] == s@[k]);
                        assert(is_digit(s@[k]));
                    } else {
                        assert(s@.skip(d + 1)[k - d - 1] == s@[k]);
                        assert(is_digit(s@[k]));
                    }
                }
            }
        }
        return None;
    }
    if dot == s.len() {
        // no dot: a plain digit string
        proof {
            assert(find_dot(s@) == -1) by {
                if find_dot(s@) >= 0 {
                    assert(s@[find_dot(s@)] == 46);
                }
            }
            assert(all_digits(s@));
        }
        let ip = match parse_digits(s) {
            Some(v) => v,
            None => {
                proof {
                    lemma_digits_val_nonneg(s@);
                    assert(digits_val(s@) * (scale as int) >= digits_val(s@)) by (nonlinear_arith)
                        requires
                            digits_val(s@) >= 0 && scale >= 1;
                    assert(number_value(s@, scale) == digits_val(s@) * scale);
                    assert(number_value(s@, scale) > u64::MAX as int);
                }
                return None;
            },
        };
        if ip > u64::MAX / scale {
            proof {
                lemma_digits_val_nonneg(s@);
                let q = (u64::MAX as int) / (scale as int);
                vstd::arithmetic::div_mod::lemma_fundamental_div_mod(
                    u64::MAX as int,
                    scale as int,
                );
                assert(ip as int * scale as int > u64::MAX as int) by (nonlinear_arith)
                    requires
                        ip as int >= q + 1 && u64::MAX as int == (scale as int) * q + u64::MAX
                            as int % (scale as int) && 0 <= u64::MAX as int % (scale as int)
                            < scale as int;
                assert(number_value(s@, scale) == digits_val(s@) * scale);
            }
            return None;
        }
        proof {
            let q = (u64::MAX as int) / (scale as int);
            vstd::arithmetic::div_mod::lemma_fundamental_div_mod(u64::MAX as int, scale as int);
            assert(ip as int * scale as int <= u64::MAX as int) by (nonlinear_arith)
                requires
                    ip as int <= q && u64::MAX as int == (scale as int) * q + u64::MAX as int % (
                    scale as int) && 0 <= u64::MAX as int % (scale as int) && scale as int >= 1;
        }
        proof {
            lemma_digits_val_nonneg(s@);
            assert(number_value(s@, scale) == digits_val(s@) * scale);
            assert(ip as int * scale as int == number_value(s@, scale));
        }
        return Some(ip * scale);
    }
    // a dot: integer part before it, fraction after it
    if dot == 0 || dot + 1 == s.len() {
        proof {
            if valid_number(s@) {
                assert(find_dot(s@) == dot);
            }
        }
        return None;
    }
    proof {
        assert(find_dot(s@) == dot) by {
            if find_dot(s@) == -1 {
                assert(s@[dot as int] != 46);
            }
        }
    }
    let ipart = slice_subrange(s, 0, dot);
    let fpart = slice_subrange(s, dot + 1, s.len());
    proof {
        assert(ipart@ == s@.take(dot as int));
        assert(fpart@ == s@.skip(dot as int + 1));
        assert(all_digits(ipart@)) by {
            assert(forall|k: int| 0 <= k < dot ==> ipart@[k] == s@[k]);
        }
        assert(all_digits(fpart@)) by {
            assert(forall|k: int|
                0 <= k < fpart@.len() ==> fpart@[k] == s@[k + dot + 1]);
        }
        lemma_digits_val_nonneg(ipart@);
        lemma_frac_val_bounds(fpart@, scale as int);
    }
    let ip = match parse_digits(ipart) {
        Some(v) => v,
        None => {
            proof {
                assert(digits_val(ipart@) * (scale as int) >= digits_val(ipart@))
                    by (nonlinear_arith)
                    requires
                        digits_val(ipart@) >= 0 && scale >= 1;
                assert(number_value(s@, scale) == digits_val(ipart@) * scale + frac_val(
                    fpart@,
                    scale as int,
                ));
            }
            return None;
        },
    };
    if ip > u64::MAX / scale {
        proof {
            let q = (u64::MAX as int) / (scale as int);
            vstd::arithmetic::div_mod::lemma_fundamental_div_mod(u64::MAX as int, scale as int);
            assert(ip as int * scale as int > u64::MAX as int) by (nonlinear_arith)
                requires
                    ip as int >= q + 1 && u64::MAX as int == (scale as int) * q + u64::MAX
                        as int % (scale as int) && 0 <= u64::MAX as int % (scale as int)
                        < scale as int;
            assert(number_value(s@, scale) == digits_val(ipart@) * scale + frac_val(
                fpart@,
                scale as int,
            ));
        }
        return None;
    }
    proof {
        let q = (u64::MAX as int) / (scale as int);
        vstd::arithmetic::div_mod::lemma_fundamental_div_mod(u64::MAX as int, scale as int);
        assert(ip as int * scale as int <= u64::MAX as int) by (nonlinear_arith)
            requires
                ip as int <= q && u64::MAX as int == (scale as int) * q + u64::MAX as int % (
                scale as int) && 0 <= u64::MAX as int % (scale as int) && scale as int >= 1;
    }
    let scaled = ip * scale;
    let frac = frac_digits(fpart, scale);
    proof {
        assert(number_value(s@, scale) == digits_val(ipart@) * scale + frac_val(
            fpart@,
            scale as int,
        ));
    }
    if scaled > u64::MAX - frac {
        return None;
    }
    Some(scaled + frac)
}

/// The scaled value of the fraction digits.
fn frac_digits(s: &[u8], scale: u64) -> (r: u64)
    requires
        all_digits(s@),
        1 <= scale <= 1_000_000_000,
    ensures
        r == frac_val(s@, scale as int),
{
    proof {
        lemma_frac_val_bounds(s@, scale as int);
    }
    let mut acc: u64 = 0;
    let mut m: u64 = scale;
    let mut i: usize = 0;
    proof {
        assert(s@.skip(0) =~= s@);
    }
    while i < s.len()
        invariant
            i <= s@.len(),
            all_digits(s@),
            m >= 0,
            1 <= scale <= 1_000_000_000,
            acc as int + frac_val(s@.skip(i as int), m as int) == frac_val(s@, scale as int),
            acc <= scale,
        decreases s@.len() - i,
    {
        proof {
            assert(s@.skip(i as int).drop_first() =~= s@.skip(i as int + 1));
            assert(s@.skip(i as int)[0] == s@[i as int]);
            assert(is_digit(s@[i as int]));
            assert(all_digits(s@.skip(i as int))) by {
                assert(forall|k: int|
                    0 <= k < s@.len() - i ==> s@.skip(i as int)[k] == s@[k + i]);
            }
            assert(all_digits(s@.skip(i as int + 1))) by {
                assert(forall|k: int|
                    0 <= k < s@.len() - i - 1 ==> #[trigger] s@.skip(i as int + 1)[k] == s@[k + i
                        + 1]);
            }
            lemma_frac_val_bounds(s@, scale as int);
            if m as int >= 1 {
                lemma_frac_val_bounds(s@.skip(i as int), m as int);
            }
            if m as int / 10 >= 1 {
                lemma_frac_val_bounds(s@.skip(i as int + 1), m as int / 10);
            }
        }
        let d = s[i];
        if m <= 1 {
            proof {
                assert(frac_val(s@.skip(i as int), m as int) == 0);
                assert(s@.skip(s@.len() as int) =~= Seq::<u8>::empty());
            }
            // remaining digits are beyond the scale's precision
            return acc;
        }
        let unit = m / 10;
        proof {
            assert(((d - 48) as u64) * unit <= 9 * unit) by (nonlinear_arith)
                requires
                    0 <= (d - 48) as u64 <= 9 && unit >= 0;
            assert(frac_val(s@.skip(i as int), m as int) == (d - 48) * (m as int / 10) + frac_val(
                s@.skip(i as int + 1),
                m as int / 10,
            ));
        }
        acc = acc + ((d - 48) as u64) * unit;
        m = unit;
        i = i + 1;
    }
    proof {
        assert(s@.skip(s@.len() as int) =~= Seq::<u8>::empty());
    }
    acc
}

/// The seqs of bytes of the console's fixed words.
pub open spec fn cmd_start_bytes() -> Seq<u8> {
    "solve with ant-colony".spec_bytes()
}

pub open spec fn cmd_clear_bytes() -> Seq<u8> {
    "clear".spec_bytes()
}

pub open spec fn cmd_stop_bytes() -> Seq<u8> {
    "stop".spec_bytes()
}

pub open spec fn cmd_exit_bytes() -> Seq<u8> {
    "exit".spec_bytes()
}

pub open spec fn set_word_bytes() -> Seq<u8> {
    "set ".spec_bytes()
}

pub open spec fn set_ants_bytes() -> Seq<u8> {
    "set number_of_ants: ".spec_bytes()
}

pub open spec fn set_pheromone_bytes() -> Seq<u8> {
    "set pheromone_constant: ".spec_bytes()
}

pub open spec fn set_evaporation_bytes() -> Seq<u8> {
    "set pheromone_evaporation_rate: ".spec_bytes()
}

pub open spec fn set_alpha_bytes() -> Seq<u8> {
    "set alpha: ".spec_bytes()
}

pub open spec fn set_beta_bytes() -> Seq<u8> {
    "set beta: ".spec_bytes()
}

/// `p` is a prefix of `s`.
pub open spec fn has_prefix(s: Seq<u8>, p: Seq<u8>) -> bool {
    s.len() >= p.len() && s.take(p.len() as int) == p
}

/// The command a `set` tail denotes: the number after the parameter's
/// prefix, read in the parameter's scale.
pub open spec fn spec_set_command(rest: Seq<u8>, scale: u64, name: ParameterName) -> Result<
    Command,
    AcoError,
> {
    if valid_number(rest) && number_value(rest, scale) <= u64::MAX {
        Ok(Command::SetParameter(name, number_value(rest, scale) as u64))
    } else {
        Err(AcoError::InvalidNumber)
    }
}

/// The command a console line denotes, or the error that describes why it
/// denotes none.
pub open spec fn spec_parse_command(s: Seq<u8>) -> Result<Command, AcoError> {
    if s == cmd_start_bytes() {
        Ok(Command::Start)
    } else if s == cmd_clear_bytes() {
        Ok(Command::Clear)
    } else if s == cmd_stop_bytes() {
        Ok(Command::Stop)
    } else if s == cmd_exit_bytes() {
        Ok(Command::Exit)
    } else if has_prefix(s, set_ants_bytes()) {
        spec_set_command(s.skip(set_ants_bytes().len() as int), 1, ParameterName::NumberOfAnts)
    } else if has_prefix(s, set_pheromone_bytes()) {
        spec_set_command(
            s.skip(set_pheromone_bytes().len() as int),
            PHEROMONE_SCALE,
            ParameterName::PheromoneConstant,
        )
    } else if has_prefix(s, set_evaporation_bytes()) {
        spec_set_command(
            s.skip(set_evaporation_bytes().len() as int),
            EVAPORATION_DENOMINATOR,
            ParameterName::EvaporationRate,
        )
    } else if has_prefix(s, set_alpha_bytes()) {
        spec_set_command(s.skip(set_alpha_bytes().len() as int), 1, ParameterName::Alpha)
    } else if has_prefix(s, set_beta_bytes()) {
        spec_set_command(s.skip(set_beta_bytes().len() as int), 1, ParameterName::Beta)
    } else if has_prefix(s, set_word_bytes()) {
        Err(AcoError::UnrecognizedParameter)
    } else {
        Err(AcoError::UnrecognizedCommand)
    }
}

/// Byte-for-byte equality of two slices.
fn bytes_match(a: &[u8], b: &[u8]) -> (r: bool)
    ensures
        r <==> a@ == b@,
{
    if a.len() != b.len() {
        return false;
    }
    let mut i: usize = 0;
    while i < a.len()
        invariant
            i <= a@.len(),
            a@.len() == b@.len(),
            forall|k: int| 0 <= k < i ==> a@[k] == b@[k],
        decreases a@.len() - i,
    {
        if a[i] != b[i] {
            return false;
        }
        i = i + 1;
    }
    proof {
        assert(a@ =~= b@);
    }
    true
}

/// Whether `p` is a prefix of `s`.
fn prefix_match(s: &[u8], p: &[u8]) -> (r: bool)
    ensures
        r <==> has_prefix(s@, p@),
{
    if s.len() < p.len() {
        return false;
    }
    let mut i: usize = 0;
    while i < p.len()
        invariant
            i <= p@.len() <= s@.len(),
            forall|k: int| 0 <= k < i ==> s@[k] == p@[k],
        decreases p@.len() - i,
    {
        if s[i] != p[i] {
            proof {
                assert(s@.take(p@.len() as int)[i as int] == s@[i as int]);
            }
            return false;
        }
        i = i + 1;
    }
    proof {
        assert(s@.take(p@.len() as int) =~= p@);
    }
    true
}

/// Parses one console line.
pub fn parse_command(input: &[u8]) -> (r: Result<Command, AcoError>)
    ensures
        r == spec_parse_command(input@),
{
    if bytes_match(input, "solve with ant-colony".as_bytes()) {
        return Ok(Command::Start);
    }
    if bytes_match(input, "clear".as_bytes()) {
        return Ok(Command::Clear);
    }
    if bytes_match(input, "stop".as_bytes()) {
        return Ok(Command::Stop);
    }
    if bytes_match(input, "exit".as_bytes()) {
        return Ok(Command::Exit);
    }
    let pna = "set number_of_ants: ".as_bytes();
    if prefix_match(input, pna) {
        let rest = slice_subrange(input, pna.len(), input.len());
        proof {
            assert(rest@ =~= input@.skip(set_ants_bytes().len() as int));
        }
        return match parse_scaled(rest, 1) {
            Some(v) => Ok(Command::SetParameter(ParameterName::NumberOfAnts, v)),
            None => Err(AcoError::InvalidNumber),
        };
    }
    let ppc = "set pheromone_constant: ".as_bytes();
    if prefix_match(input, ppc) {
        let rest = slice_subrange(input, ppc.len(), input.len());
        proof {
            assert(rest@ =~= input@.skip(set_pheromone_bytes().len() as int));
        }
        return match parse_scaled(rest, PHEROMONE_SCALE) {
            Some(v) => Ok(Command::SetParameter(ParameterName::PheromoneConstant, v)),
            None => Err(AcoError::InvalidNumber),
        };
    }
    let per = "set pheromone_evaporation_rate: ".as_bytes();
    if prefix_match(input, per) {
        let rest = slice_subrange(input, per.len(), input.len());
        proof {
            assert(rest@ =~= input@.skip(set_evaporation_bytes().len() as int));
        }
        return match parse_scaled(rest, EVAPORATION_DENOMINATOR) {
            Some(v) => Ok(Command::SetParameter(ParameterName::EvaporationRate, v)),
            None => Err(AcoError::InvalidNumber),
        };
    }
    let pal = "set alpha: ".as_bytes();
    if prefix_match(input, pal) {
        let rest = slice_subrange(input, pal.len(), input.len());
        proof {
            assert(rest@ =~= input@.skip(set_alpha_bytes().len() as int));
        }
        return match parse_scaled(rest, 1) {
            Some(v) => Ok(Command::SetParameter(ParameterName::Alpha, v)),
            None => Err(AcoError::InvalidNumber),
        };
    }
    let pbe = "set beta: ".as_bytes();
    if prefix_match(input, pbe) {
        let rest = slice_subrange(input, pbe.len(), input.len());
        proof {
            assert(rest@ =~= input@.skip(set_beta_bytes().len() as int));
        }
        return match parse_scaled(rest, 1) {
            Some(v) => Ok(Command::SetParameter(ParameterName::Beta, v)),
            None => Err(AcoError::InvalidNumber),
        };
    }
    if prefix_match(input, "set ".as_bytes()) {
        return Err(AcoError::UnrecognizedParameter);
    }
    Err(AcoError::UnrecognizedCommand)
}

/// Parses one console line and applies it to the system. A failed parse
/// or a rejected command leaves the system unchanged and surfaces the
/// typed error; `exit` asks the caller to end the session.
pub fn execute_input(system: &mut AntColonySystem, input: &[u8]) -> (r: Result<
    CommandOutcome,
    AcoError,
>)
    requires
        old(system).wf(),
    ensures
        final(system).wf(),
        spec_parse_command(input@) matches Err(e) ==> r == Err::<CommandOutcome, AcoError>(e)
            && *final(system) == *old(system),
        spec_parse_command(input@) == Ok::<Command, AcoError>(Command::Start) ==> {
            &&& old(system).graph.n() < 3 ==> r == Err::<CommandOutcome, AcoError>(
                AcoError::InsufficientVertices,
            ) && *final(system) == *old(system)
            &&& old(system).graph.n() >= 3 ==> r == Ok::<CommandOutcome, AcoError>(
                CommandOutcome::Applied,
            ) && final(system).running() && is_square(
                mat(final(system).pheromone),
                old(system).graph.n(),
            ) && all_zero(mat(final(system).pheromone)) && final(system).graph == old(system).graph
                && final(system).params == old(system).params
        },
        spec_parse_command(input@) == Ok::<Command, AcoError>(Command::Stop) ==> r == Ok::<
            CommandOutcome,
            AcoError,
        >(CommandOutcome::Applied) && !final(system).running() && final(system).graph == old(
            system,
        ).graph && final(system).params == old(system).params && final(system).pheromone == old(
            system,
        ).pheromone && final(system).cycle == old(system).cycle,
        spec_parse_command(input@) == Ok::<Command, AcoError>(Command::Clear) ==> r == Ok::<
            CommandOutcome,
            AcoError,
        >(CommandOutcome::Applied) && !final(system).running() && final(system).graph.n() == 0
            && final(system).graph.edges@.len() == 0 && mat(final(system).pheromone).len() == 0
            && final(system).cycle@.len() == 0 && final(system).params == old(system).params,
        spec_parse_command(input@) == Ok::<Command, AcoError>(Command::Exit) ==> r == Ok::<
            CommandOutcome,
            AcoError,
        >(CommandOutcome::Exit) && *final(system) == *old(system),
        forall|name: ParameterName, value: u64|
            spec_parse_command(input@) == Ok::<Command, AcoError>(
                Command::SetParameter(name, value),
            ) ==> {
                &&& AntColonyParameters::value_ok(name, value) ==> r == Ok::<
                    CommandOutcome,
                    AcoError,
                >(CommandOutcome::Applied) && final(system).params == old(system).params.with_value(
                    name,
                    value,
                ) && final(system).graph == old(system).graph && final(system).state == old(
                    system,
                ).state && final(system).pheromone == old(system).pheromone
                &&& !AntColonyParameters::value_ok(name, value) ==> r == Err::<
                    CommandOutcome,
                    AcoError,
                >(AcoError::InvalidParameterValue) && *final(system) == *old(system)
            },
{
    let cmd = parse_command(input);
    match cmd {
        Err(e) => Err(e),
        Ok(Command::Start) => match system.start() {
            Ok(()) => Ok(CommandOutcome::Applied),
            Err(e) => Err(e),
        },
        Ok(Command::Stop) => {
            system.stop();
            Ok(CommandOutcome::Applied)
        },
        Ok(Command::Clear) => {
            system.reset();
            Ok(CommandOutcome::Applied)
        },
        Ok(Command::Exit) => Ok(CommandOutcome::Exit),
        Ok(Command::SetParameter(name, value)) => match system.set_parameter(name, value) {
            Ok(()) => Ok(CommandOutcome::Applied),
            Err(e) => Err(e),
        },
    }
}

} // verus!
