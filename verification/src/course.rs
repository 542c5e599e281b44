//! Course records and course codes.

use vstd::prelude::*;
use crate::text::{chars_to_string, str_to_chars};

verus! {

/// One course code, e.g. "BIO 110": an uppercase subject prefix and a number.
#[derive(Debug)]
pub struct CourseCode {
    /// Subject prefix, e.g. "BIO", "PSY", "CSC".
    pub prefix: String,
    /// Course number, e.g. 112, 101, 435.
    pub number: u32,
}

/// Spec-level image of a [`CourseCode`].
#[verifier::ext_equal]
pub struct CourseCodeView {
    pub prefix: Seq<char>,
    pub number: u32,
}

impl View for CourseCode {
    type V = CourseCodeView;

    open spec fn view(&self) -> CourseCodeView {
        CourseCodeView { prefix: self.prefix@, number: self.number }
    }
}

/// The character for one decimal digit.
pub open spec fn digit_char(d: nat) -> char {
    if d == 0 {
        '0'
    } else if d == 1 {
        '1'
    } else if d == 2 {
        '2'
    } else if d == 3 {
        '3'
    } else if d == 4 {
        '4'
    } else if d == 5 {
        '5'
    } else if d == 6 {
        '6'
    } else if d == 7 {
        '7'
    } else if d == 8 {
        '8'
    } else {
        '9'
    }
}

/// The decimal digits of `n`, most significant first, no leading zeros
/// (a single zero for zero).
pub open spec fn dec_digits(n: nat) -> Seq<char>
    decreases n,
{
    if n < 10 {
        seq![digit_char(n)]
    } else {
        dec_digits(n / 10).push(digit_char(n % 10))
    }
}

/// The display form of a course code: prefix, one space, decimal number.
pub open spec fn code_display(c: CourseCodeView) -> Seq<char> {
    c.prefix + seq![' '] + dec_digits(c.number as nat)
}

fn digit_char_exec(d: u32) -> (c: char)
    requires
        d < 10,
    ensures
        c == digit_char(d as nat),
{
    if d == 0 {
        '0'
    } else if d == 1 {
        '1'
    } else if d == 2 {
        '2'
    } else if d == 3 {
        '3'
    } else if d == 4 {
        '4'
    } else if d == 5 {
        '5'
    } else if d == 6 {
        '6'
    } else if d == 7 {
        '7'
    } else if d == 8 {
        '8'
    } else {
        '9'
    }
}

fn push_digits(n: u32, out: &mut Vec<char>)
    ensures
        final(out)@ == old(out)@ + dec_digits(n as nat),
    decreases n,
{
    if n < 10 {
        out.push(digit_char_exec(n));
        assert(out@ =~= old(out)@ + dec_digits(n as nat));
    } else {
        push_digits(n / 10, out);
        out.push(digit_char_exec(n % 10));
        assert(out@ =~= old(out)@ + dec_digits(n as nat));
    }
}

impl CourseCode {
    pub fn new(prefix: &str, number: u32) -> (r: Self)
        ensures
            r.prefix@ == prefix@,
            r.number == number,
    {
        CourseCode { prefix: prefix.to_owned(), number }
    }

    /// An identical copy of the code.
    pub fn duplicate(&self) -> (r: Self)
        ensures
            r@ == self@,
    {
        CourseCode { prefix: self.prefix.clone(), number: self.number }
    }

    /// The display form "<prefix> <number>".
    pub fn display(&self) -> (r: String)
        ensures
            r@ == code_display(self@),
    {
        let mut chars = str_to_chars(self.prefix.as_str());
        chars.push(' ');
        push_digits(self.number, &mut chars);
        assert(chars@ =~= code_display(self@));
        chars_to_string(&chars)
    }
}

/// One parsed course record.  Immutable after parsing.
///
/// `credits` holds the credit-hour value exactly as it stood in the block,
/// a validated decimal numeral such as "3.00"; keeping the numeral keeps
/// the record exact, and the unverified rim converts it to a float for
/// serialization.
#[derive(Debug)]
pub struct Course {
    pub title: String,
    pub code: CourseCode,
    pub description: String,
    pub credits: String,
    /// Free-text prerequisite course codes, duplicates removed, first-seen
    /// order kept.
    pub pre_requirements: Vec<String>,
    pub gen_ed_fulfillments: Vec<String>,
    pub distance_available: bool,
    pub offered_terms: Vec<String>,
}

/// Spec-level image of a [`Course`].
#[verifier::ext_equal]
pub struct CourseView {
    pub title: Seq<char>,
    pub code: CourseCodeView,
    pub description: Seq<char>,
    pub credits: Seq<char>,
    pub pre_requirements: Seq<Seq<char>>,
    pub gen_ed_fulfillments: Seq<Seq<char>>,
    pub distance_available: bool,
    pub offered_terms: Seq<Seq<char>>,
}

impl View for Course {
    type V = CourseView;

    open spec fn view(&self) -> CourseView {
        CourseView {
            title: self.title@,
            code: self.code@,
            description: self.description@,
            credits: self.credits@,
            pre_requirements: self.pre_requirements.deep_view(),
            gen_ed_fulfillments: self.gen_ed_fulfillments.deep_view(),
            distance_available: self.distance_available,
            offered_terms: self.offered_terms.deep_view(),
        }
    }
}

/// The full catalog: every parsed course plus the subject prefixes the
/// courses were produced from.  This is the unit handed across the
/// persistence boundary.
pub struct CourseSet {
    pub courses: Vec<Course>,
    pub prefixes: Vec<String>,
}

} // verus!
