//! The extraction pipeline: subject enumeration, block splitting and
//! course-block parsing.
//!
//! The catalog vendor renders each course as a fixed markup shape, so each
//! extraction step is a named rule over character sequences.  Every rule has
//! a spec-level definition here, and every executable routine is proved to
//! return exactly what the rules say; the parser's published contracts are
//! stated over the rules.

use vstd::prelude::*;
use crate::course::{code_display, Course, CourseCode, CourseCodeView, CourseSet, CourseView};
use crate::text::{
    begins_with, chars_to_string, clean_token, clean_token_exec, dedup_first, find_from, first_match_from,
    has_match, match_at, pieces_match, replace_all, replace_all_exec, seq_contains, split_on,
    split_on_exec, split_seps, split_seps_exec, starts_with, str_to_chars, subvec, trim, trim_exec,
    lemma_first_match_from,
};

verus! {

/// A course block failed to match either recognized markup shape.
#[derive(Clone, Copy, Debug, PartialEq, Eq, Structural)]
pub enum ParseError {
    /// Neither the full-detail shape nor the minimal stub shape matched.
    UnrecognizedBlock,
}

// ------------------------------------------------------------------
// The fixed markup markers.
// ------------------------------------------------------------------

pub open spec fn strong_open() -> Seq<char> {
    "<strong>"@
}

pub open spec fn strong_close() -> Seq<char> {
    "</strong>"@
}

pub open spec fn nbsp() -> Seq<char> {
    "&#160;"@
}

pub open spec fn space_ch() -> Seq<char> {
    " "@
}

pub open spec fn sep_mark() -> Seq<char> {
    ".  "@
}

pub open spec fn desc_mark() -> Seq<char> {
    "courseblockdesc"@
}

pub open spec fn gt_ch() -> Seq<char> {
    ">"@
}

pub open spec fn br_mark() -> Seq<char> {
    "<br />\n"@
}

pub open spec fn region_end_mark() -> Seq<char> {
    "<br />\n</p>"@
}

pub open spec fn amp_entity() -> Seq<char> {
    "&amp;"@
}

pub open spec fn amp_ch() -> Seq<char> {
    "&"@
}

pub open spec fn pre_req_mark() -> Seq<char> {
    "Pre / Co requisites:"@
}

pub open spec fn gen_ed_mark() -> Seq<char> {
    "Gen Ed Attribute:"@
}

pub open spec fn distance_mark() -> Seq<char> {
    "Distance education offering may be available."@
}

pub open spec fn offered_mark() -> Seq<char> {
    "Typically offered in"@
}

pub open spec fn title_attr_mark() -> Seq<char> {
    "title=\""@
}

pub open spec fn quote_ch() -> Seq<char> {
    "\""@
}

pub open spec fn no_description() -> Seq<char> {
    "No Description"@
}

pub open spec fn course_open_mark() -> Seq<char> {
    "<course code=\""@
}

pub open spec fn cdata_open_mark() -> Seq<char> {
    "\">\n<![CDATA["@
}

pub open spec fn cdata_close_mark() -> Seq<char> {
    "]]>"@
}

pub open spec fn subject_dir_mark() -> Seq<char> {
    "general-information/index-course-prefix-guide/course-index/undergraduate/"@
}

pub open spec fn slash_ch() -> Seq<char> {
    "/"@
}

// ------------------------------------------------------------------
// Character classes and numerals.
// ------------------------------------------------------------------

/// A decimal digit.
pub open spec fn is_digit(c: char) -> bool {
    48 <= c as u32 && c as u32 <= 57
}

/// An uppercase ASCII letter.
pub open spec fn is_upper(c: char) -> bool {
    65 <= c as u32 && c as u32 <= 90
}

/// The end of the maximal digit run starting at `from`.
pub open spec fn digits_end(s: Seq<char>, from: int) -> int
    decreases s.len() - from,
{
    if from < 0 || from >= s.len() || !is_digit(s[from]) {
        from
    } else {
        digits_end(s, from + 1)
    }
}

/// The end of the maximal uppercase-letter run starting at `from`.
pub open spec fn uppers_end(s: Seq<char>, from: int) -> int
    decreases s.len() - from,
{
    if from < 0 || from >= s.len() || !is_upper(s[from]) {
        from
    } else {
        uppers_end(s, from + 1)
    }
}

/// The end of the decimal numeral starting exactly at `from`, if one starts
/// there: an optional sign, then either digits, or optional digits followed
/// by a point and at least one digit.
pub open spec fn numeral_end(s: Seq<char>, from: int) -> Option<int> {
    let start = if 0 <= from < s.len() && (s[from] == '+' || s[from] == '-') {
        from + 1
    } else {
        from
    };
    let d1 = digits_end(s, start);
    if d1 < s.len() && s[d1] == '.' && digits_end(s, d1 + 1) > d1 + 1 {
        Some(digits_end(s, d1 + 1))
    } else if d1 > start {
        Some(d1)
    } else {
        None
    }
}

/// A complete decimal numeral: what the credits pattern accepts,
/// covering the whole string.
pub open spec fn is_decimal_numeral(s: Seq<char>) -> bool {
    numeral_end(s, 0) == Some(s.len() as int)
}

/// The value of the digit run `s[from..to]`.
pub open spec fn num_val(s: Seq<char>, from: int, to: int) -> int
    decreases to - from,
{
    if from >= to {
        0
    } else {
        num_val(s, from, to - 1) * 10 + (s[to - 1] as u32 as int - 48)
    }
}

proof fn lemma_num_val_mono(s: Seq<char>, from: int, k: int, to: int)
    requires
        from <= k <= to,
        forall|i: int| from <= i < to ==> is_digit(s[i]),
    ensures
        num_val(s, from, to) >= num_val(s, from, k),
        num_val(s, from, k) >= 0,
    decreases to - k,
{
    if k == to {
        lemma_num_val_nonneg(s, from, k);
    } else {
        lemma_num_val_mono(s, from, k, to - 1);
        lemma_num_val_nonneg(s, from, to - 1);
    }
}

proof fn lemma_num_val_nonneg(s: Seq<char>, from: int, to: int)
    requires
        forall|i: int| from <= i < to ==> is_digit(s[i]),
    ensures
        num_val(s, from, to) >= 0,
    decreases to - from,
{
    if from < to {
        lemma_num_val_nonneg(s, from, to - 1);
    }
}

// ------------------------------------------------------------------
// Downward searches for the header separators.
// ------------------------------------------------------------------

/// What a downward search looks for.
pub enum MarkKind {
    /// A plain ".  " separator.
    PlainSep,
    /// A ".  " separator followed by a decimal numeral (the credits of a
    /// full-detail header).
    CreditSep,
    /// A ".  " separator followed by at least one digit (the credits of a
    /// stub header).
    IntCreditSep,
    /// The "<br />\n</p>" end of a description region.
    RegionClose,
}

/// Whether the mark `k` stands at position `i` of `s`.
pub open spec fn mark_at(k: MarkKind, s: Seq<char>, i: int) -> bool {
    match k {
        MarkKind::PlainSep => match_at(s, sep_mark(), i),
        MarkKind::CreditSep => match_at(s, sep_mark(), i) && numeral_end(
            s,
            i + sep_mark().len(),
        ) is Some,
        MarkKind::IntCreditSep => match_at(s, sep_mark(), i) && digits_end(
            s,
            i + sep_mark().len(),
        ) > i + sep_mark().len(),
        MarkKind::RegionClose => match_at(s, region_end_mark(), i),
    }
}

/// The last position in `[lo, i]` where the mark stands.
pub open spec fn last_mark(k: MarkKind, s: Seq<char>, lo: int, i: int) -> Option<int>
    decreases i + 1 - lo,
{
    if i < lo {
        None
    } else if mark_at(k, s, i) {
        Some(i)
    } else {
        last_mark(k, s, lo, i - 1)
    }
}

proof fn lemma_last_mark(k: MarkKind, s: Seq<char>, lo: int, i: int)
    ensures
        last_mark(k, s, lo, i) matches Some(j) ==> lo <= j <= i && mark_at(k, s, j),
    decreases i + 1 - lo,
{
    if i >= lo && !mark_at(k, s, i) {
        lemma_last_mark(k, s, lo, i - 1);
    }
}

// ------------------------------------------------------------------
// Executable twins of the searches.
// ------------------------------------------------------------------

fn is_digit_exec(c: char) -> (r: bool)
    ensures
        r == is_digit(c),
{
    let v = c as u32;
    48 <= v && v <= 57
}

fn is_upper_exec(c: char) -> (r: bool)
    ensures
        r == is_upper(c),
{
    let v = c as u32;
    65 <= v && v <= 90
}

fn digits_end_exec(s: &Vec<char>, from: usize) -> (r: usize)
    requires
        from <= s@.len(),
    ensures
        r == digits_end(s@, from as int),
        from <= r <= s@.len(),
    decreases s@.len() - from,
{
    if from < s.len() && is_digit_exec(s[from]) {
        digits_end_exec(s, from + 1)
    } else {
        from
    }
}

fn uppers_end_exec(s: &Vec<char>, from: usize) -> (r: usize)
    requires
        from <= s@.len(),
    ensures
        r == uppers_end(s@, from as int),
        from <= r <= s@.len(),
    decreases s@.len() - from,
{
    if from < s.len() && is_upper_exec(s[from]) {
        uppers_end_exec(s, from + 1)
    } else {
        from
    }
}

fn numeral_end_exec(s: &Vec<char>, from: usize) -> (r: Option<usize>)
    requires
        from <= s@.len(),
    ensures
        match r {
            Some(e) => numeral_end(s@, from as int) == Some(e as int) && from <= e <= s@.len(),
            None => numeral_end(s@, from as int) is None,
        },
{
    let start = if from < s.len() && (s[from] == '+' || s[from] == '-') {
        from + 1
    } else {
        from
    };
    let d1 = digits_end_exec(s, start);
    if d1 < s.len() && s[d1] == '.' && digits_end_exec(s, d1 + 1) > d1 + 1 {
        Some(digits_end_exec(s, d1 + 1))
    } else if d1 > start {
        Some(d1)
    } else {
        None
    }
}

fn mark_at_exec(k: &MarkKind, s: &Vec<char>, i: usize) -> (r: bool)
    requires
        i <= s@.len(),
    ensures
        r == mark_at(*k, s@, i as int),
{
    proof {
        reveal_strlit(".  ");
        reveal_strlit("<br />\n</p>");
    }
    match k {
        MarkKind::PlainSep => {
            let sep = str_to_chars(".  ");
            if sep.len() > s.len() - i {
                return false;
            }
            eq_at_wrap(s, &sep, i)
        },
        MarkKind::CreditSep => {
            let sep = str_to_chars(".  ");
            if sep.len() > s.len() - i {
                return false;
            }
            if !eq_at_wrap(s, &sep, i) {
                return false;
            }
            numeral_end_exec(s, i + 3).is_some()
        },
        MarkKind::IntCreditSep => {
            let sep = str_to_chars(".  ");
            if sep.len() > s.len() - i {
                return false;
            }
            if !eq_at_wrap(s, &sep, i) {
                return false;
            }
            digits_end_exec(s, i + 3) > i + 3
        },
        MarkKind::RegionClose => {
            let pat = str_to_chars("<br />\n</p>");
            if pat.len() > s.len() - i {
                return false;
            }
            eq_at_wrap(s, &pat, i)
        },
    }
}

fn eq_at_wrap(s: &Vec<char>, pat: &Vec<char>, i: usize) -> (r: bool)
    requires
        i + pat@.len() <= s@.len(),
    ensures
        r == match_at(s@, pat@, i as int),
{
    crate::text::eq_at(s, pat, i)
}

/// The last position in `[lo, hi]` where the mark stands.
fn last_mark_exec(k: &MarkKind, s: &Vec<char>, lo: usize, hi: usize) -> (r: Option<usize>)
    requires
        hi <= s@.len(),
    ensures
        match r {
            Some(j) => last_mark(*k, s@, lo as int, hi as int) == Some(j as int) && lo <= j <= hi,
            None => last_mark(*k, s@, lo as int, hi as int) is None,
        },
{
    let mut i: usize = hi;
    loop
        invariant
            i <= hi <= s@.len(),
            last_mark(*k, s@, lo as int, hi as int) == last_mark(*k, s@, lo as int, i as int),
        decreases i + 1,
    {
        if i < lo {
            return None;
        }
        if mark_at_exec(k, s, i) {
            proof {
                lemma_last_mark(*k, s@, lo as int, i as int);
            }
            return Some(i);
        }
        if i == 0 {
            proof {
                assert(last_mark(*k, s@, lo as int, 0 - 1) is None);
            }
            return None;
        }
        i -= 1;
    }
}

// ------------------------------------------------------------------
// The two header shapes and the description region.
// ------------------------------------------------------------------

/// The header: the text between the first "<strong>" and the first
/// "</strong>" after it.  Returns the bounds of the inner text.
pub open spec fn header_bounds(raw: Seq<char>) -> Option<(int, int)> {
    match first_match_from(raw, strong_open(), 0) {
        None => None,
        Some(o) => {
            let hs = o + strong_open().len();
            match first_match_from(raw, strong_close(), hs) {
                None => None,
                Some(c) => Some((hs, c)),
            }
        },
    }
}

/// Title and credits of a full-detail header: the code entity, then the
/// title between the last plain separator and the last separator that is
/// followed by a decimal numeral, then that numeral.
pub open spec fn full_header_parse(h: Seq<char>) -> Option<(Seq<char>, Seq<char>)> {
    match first_match_from(h, nbsp(), 0) {
        None => None,
        Some(e) => {
            let lo = e + nbsp().len();
            match last_mark(MarkKind::CreditSep, h, lo, h.len() - sep_mark().len()) {
                None => None,
                Some(q) => match last_mark(MarkKind::PlainSep, h, lo, q - sep_mark().len()) {
                    None => None,
                    Some(p) => {
                        let title = h.subrange(p + sep_mark().len(), q);
                        let cstart = q + sep_mark().len();
                        let cend = match numeral_end(h, cstart) {
                            Some(x) => x,
                            None => cstart,
                        };
                        Some((title, h.subrange(cstart, cend)))
                    },
                },
            }
        },
    }
}

/// Title and credits of a minimal stub header: as the full shape, but the
/// credits are a plain run of digits.
pub open spec fn stub_header_parse(h: Seq<char>) -> Option<(Seq<char>, Seq<char>)> {
    match first_match_from(h, nbsp(), 0) {
        None => None,
        Some(e) => {
            let lo = e + nbsp().len();
            match last_mark(MarkKind::IntCreditSep, h, lo, h.len() - sep_mark().len()) {
                None => None,
                Some(q) => match last_mark(MarkKind::PlainSep, h, lo, q - sep_mark().len()) {
                    None => None,
                    Some(p) => {
                        let title = h.subrange(p + sep_mark().len(), q);
                        let cstart = q + sep_mark().len();
                        Some((title, h.subrange(cstart, digits_end(h, cstart))))
                    },
                },
            }
        },
    }
}

/// The description region: after the "courseblockdesc" marker's closing
/// '>', up to the last "<br />\n</p>" in the block.
pub open spec fn region_bounds(raw: Seq<char>, he: int) -> Option<(int, int)> {
    match first_match_from(raw, desc_mark(), he + strong_close().len()) {
        None => None,
        Some(d) => match first_match_from(raw, gt_ch(), d + desc_mark().len()) {
            None => None,
            Some(g) => match last_mark(
                MarkKind::RegionClose,
                raw,
                g + 1,
                raw.len() - region_end_mark().len(),
            ) {
                None => None,
                Some(z) => Some((g + 1, z)),
            },
        },
    }
}

// ------------------------------------------------------------------
// Attribute paragraphs.
// ------------------------------------------------------------------

/// The quoted `title=` attribute values of a prerequisite paragraph, in
/// order, with the non-breaking-space entity unescaped.
pub open spec fn title_values(a: Seq<char>, from: int) -> Seq<Seq<char>>
    decreases a.len() - from,
{
    match first_match_from(a, title_attr_mark(), from) {
        None => Seq::empty(),
        Some(i) => {
            let vs = i + title_attr_mark().len();
            match first_match_from(a, quote_ch(), vs) {
                None => Seq::empty(),
                Some(j) => if from < j + 1 && j + 1 <= a.len() {
                    seq![replace_all(a.subrange(vs, j), nbsp(), space_ch())] + title_values(
                        a,
                        j + 1,
                    )
                } else {
                    Seq::empty()
                },
            }
        },
    }
}

/// The prerequisite values kept from one paragraph: the paragraph opens
/// with an anchor naming the course itself, and that self-referential
/// first value is skipped.
pub open spec fn kept_titles(a: Seq<char>, self_disp: Seq<char>) -> Seq<Seq<char>> {
    let vs = title_values(a, 0);
    if vs.len() > 0 && vs[0] == self_disp {
        vs.drop_first()
    } else {
        vs
    }
}

/// A classified list paragraph: the marker removed, ampersand entities
/// unescaped, split at commas and ampersands, each token cleaned.
pub open spec fn clean_list(a: Seq<char>, mark: Seq<char>) -> Seq<Seq<char>> {
    split_seps(replace_all(replace_all(a, mark, Seq::empty()), amp_entity(), amp_ch())).map_values(
        |t: Seq<char>| clean_token(t),
    )
}

/// The four fields gathered from the attribute paragraphs.
#[verifier::ext_equal]
pub struct AttrFold {
    pub pre: Seq<Seq<char>>,
    pub gen_ed: Seq<Seq<char>>,
    pub distance: bool,
    pub offered: Seq<Seq<char>>,
}

/// The empty starting state of the attribute walk.
pub open spec fn attr_fold_init() -> AttrFold {
    AttrFold { pre: Seq::empty(), gen_ed: Seq::empty(), distance: false, offered: Seq::empty() }
}

/// One attribute paragraph applied to the gathered state.
pub open spec fn attr_step(a: Seq<char>, self_disp: Seq<char>, st: AttrFold) -> AttrFold {
    if seq_contains(a, distance_mark()) {
        AttrFold { pre: st.pre, gen_ed: st.gen_ed, distance: true, offered: st.offered }
    } else if starts_with(a, pre_req_mark()) {
        AttrFold {
            pre: st.pre + kept_titles(a, self_disp),
            gen_ed: st.gen_ed,
            distance: st.distance,
            offered: st.offered,
        }
    } else if starts_with(a, gen_ed_mark()) {
        AttrFold {
            pre: st.pre,
            gen_ed: clean_list(a, gen_ed_mark()),
            distance: st.distance,
            offered: st.offered,
        }
    } else if starts_with(a, offered_mark()) {
        AttrFold {
            pre: st.pre,
            gen_ed: st.gen_ed,
            distance: st.distance,
            offered: clean_list(a, offered_mark()),
        }
    } else {
        st
    }
}

/// The attribute paragraphs `attrs[i..]` applied in order; the paragraph
/// at index 0 is the description, not an attribute.
pub open spec fn fold_attrs(attrs: Seq<Seq<char>>, i: int, self_disp: Seq<char>, st: AttrFold) -> AttrFold
    decreases attrs.len() - i,
{
    if i < 1 || i >= attrs.len() {
        st
    } else {
        fold_attrs(attrs, i + 1, self_disp, attr_step(attrs[i], self_disp, st))
    }
}

// ------------------------------------------------------------------
// Executable extraction.
// ------------------------------------------------------------------

fn full_header_exec(h: &Vec<char>) -> (r: Option<(Vec<char>, Vec<char>)>)
    ensures
        match r {
            Some(tc) => full_header_parse(h@) == Some((tc.0@, tc.1@)),
            None => full_header_parse(h@) is None,
        },
{
    proof {
        reveal_strlit("&#160;");
        reveal_strlit(".  ");
    }
    let n = h.len();
    let nbsp_v = str_to_chars("&#160;");
    let e = match find_from(h, &nbsp_v, 0) {
        Some(e) => e,
        None => {
            return None;
        },
    };
    proof {
        lemma_first_match_from(h@, nbsp(), 0);
    }
    let lo = e + nbsp_v.len();
    if h.len() < 3 {
        return None;
    }
    let q = match last_mark_exec(&MarkKind::CreditSep, h, lo, h.len() - 3) {
        Some(q) => q,
        None => {
            return None;
        },
    };
    proof {
        lemma_last_mark(MarkKind::CreditSep, h@, lo as int, h@.len() - 3);
    }
    assert(q + 3 <= h@.len());
    let p = match last_mark_exec(&MarkKind::PlainSep, h, lo, q - 3) {
        Some(p) => p,
        None => {
            return None;
        },
    };
    proof {
        lemma_last_mark(MarkKind::PlainSep, h@, lo as int, q - 3);
    }
    let title = subvec(h, p + 3, q);
    let cstart = q + 3;
    let cend = match numeral_end_exec(h, cstart) {
        Some(x) => x,
        None => cstart,
    };
    let credits = subvec(h, cstart, cend);
    Some((title, credits))
}

fn stub_header_exec(h: &Vec<char>) -> (r: Option<(Vec<char>, Vec<char>)>)
    ensures
        match r {
            Some(tc) => stub_header_parse(h@) == Some((tc.0@, tc.1@)),
            None => stub_header_parse(h@) is None,
        },
{
    proof {
        reveal_strlit("&#160;");
        reveal_strlit(".  ");
    }
    let n = h.len();
    let nbsp_v = str_to_chars("&#160;");
    let e = match find_from(h, &nbsp_v, 0) {
        Some(e) => e,
        None => {
            return None;
        },
    };
    proof {
        lemma_first_match_from(h@, nbsp(), 0);
    }
    let lo = e + nbsp_v.len();
    if h.len() < 3 {
        return None;
    }
    let q = match last_mark_exec(&MarkKind::IntCreditSep, h, lo, h.len() - 3) {
        Some(q) => q,
        None => {
            return None;
        },
    };
    proof {
        lemma_last_mark(MarkKind::IntCreditSep, h@, lo as int, h@.len() - 3);
    }
    assert(q + 3 <= h@.len());
    let p = match last_mark_exec(&MarkKind::PlainSep, h, lo, q - 3) {
        Some(p) => p,
        None => {
            return None;
        },
    };
    proof {
        lemma_last_mark(MarkKind::PlainSep, h@, lo as int, q - 3);
    }
    let title = subvec(h, p + 3, q);
    let cstart = q + 3;
    let cend = digits_end_exec(h, cstart);
    let credits = subvec(h, cstart, cend);
    Some((title, credits))
}

fn region_bounds_exec(raw: &Vec<char>, he: usize) -> (r: Option<(usize, usize)>)
    requires
        he <= raw@.len(),
    ensures
        match r {
            Some(b) => region_bounds(raw@, he as int) == Some((b.0 as int, b.1 as int)) && b.0
                <= b.1 <= raw@.len(),
            None => region_bounds(raw@, he as int) is None,
        },
{
    proof {
        reveal_strlit("</strong>");
        reveal_strlit("courseblockdesc");
        reveal_strlit(">");
        reveal_strlit("<br />\n</p>");
    }
    let desc_v = str_to_chars("courseblockdesc");
    if raw.len() - he < 9 {
        // No room for the close tag, so no marker can follow it either;
        // the search would start past the end of the block.
        proof {
            assert(first_match_from(raw@, desc_mark(), he + 9) is None);
        }
        return None;
    }
    let d = match find_from(raw, &desc_v, he + 9) {
        Some(d) => d,
        None => {
            return None;
        },
    };
    proof {
        lemma_first_match_from(raw@, desc_mark(), he + 9);
    }
    let gt_v = str_to_chars(">");
    let g = match find_from(raw, &gt_v, d + 15) {
        Some(g) => g,
        None => {
            return None;
        },
    };
    proof {
        lemma_first_match_from(raw@, gt_ch(), d + 15);
    }
    if raw.len() < 11 {
        return None;
    }
    let z = match last_mark_exec(&MarkKind::RegionClose, raw, g + 1, raw.len() - 11) {
        Some(z) => z,
        None => {
            return None;
        },
    };
    proof {
        lemma_last_mark(MarkKind::RegionClose, raw@, g + 1, raw@.len() - 11);
    }
    Some((g + 1, z))
}

fn title_values_exec(a: &Vec<char>, from: usize) -> (r: Vec<Vec<char>>)
    ensures
        pieces_match(r@, title_values(a@, from as int)),
    decreases a@.len() - from,
{
    proof {
        reveal_strlit("&#160;");
        reveal_strlit("title=\"");
        reveal_strlit("\"");
    }
    let n = a.len();
    let tmark = str_to_chars("title=\"");
    let i = match find_from(a, &tmark, from) {
        Some(i) => i,
        None => {
            let r: Vec<Vec<char>> = Vec::new();
            return r;
        },
    };
    proof {
        lemma_first_match_from(a@, title_attr_mark(), from as int);
    }
    let vs = i + tmark.len();
    let quote = str_to_chars("\"");
    let j = match find_from(a, &quote, vs) {
        Some(j) => j,
        None => {
            let r: Vec<Vec<char>> = Vec::new();
            return r;
        },
    };
    proof {
        lemma_first_match_from(a@, quote_ch(), vs as int);
    }
    let rawval = subvec(a, vs, j);
    let nbsp_v = str_to_chars("&#160;");
    let space_v = str_to_chars(" ");
    let val = replace_all_exec(&rawval, &nbsp_v, &space_v);
    let rest = title_values_exec(a, j + 1);
    let ghost rest_parts = title_values(a@, j + 1);
    let mut r: Vec<Vec<char>> = Vec::new();
    r.push(val);
    let mut rest = rest;
    r.append(&mut rest);
    proof {
        let parts = title_values(a@, from as int);
        assert(parts =~= seq![
            replace_all(a@.subrange(vs as int, j as int), nbsp(), space_ch()),
        ] + rest_parts);
        assert forall|k: int| 0 <= k < parts.len() implies r@[k]@ == parts[k] by {
            if k > 0 {
                assert(parts[k] == rest_parts[k - 1]);
            }
        }
    }
    r
}

fn kept_titles_exec(a: &Vec<char>, self_disp: &Vec<char>) -> (r: Vec<Vec<char>>)
    ensures
        pieces_match(r@, kept_titles(a@, self_disp@)),
{
    let vs = title_values_exec(a, 0);
    if vs.len() > 0 && crate::text::chars_eq(&vs[0], self_disp) {
        let mut r: Vec<Vec<char>> = Vec::new();
        let mut k: usize = 1;
        while k < vs.len()
            invariant
                1 <= k <= vs@.len(),
                pieces_match(vs@, title_values(a@, 0)),
                r@.len() == k - 1,
                forall|m: int| 0 <= m < k - 1 ==> r@[m]@ == title_values(a@, 0)[m + 1],
            decreases vs@.len() - k,
        {
            let item = subvec(&vs[k], 0, vs[k].len());
            r.push(item);
            k += 1;
        }
        assert(pieces_match(r@, kept_titles(a@, self_disp@)));
        r
    } else {
        assert(pieces_match(vs@, kept_titles(a@, self_disp@)));
        vs
    }
}

fn clean_list_exec(a: &Vec<char>, mark: &Vec<char>) -> (r: Vec<Vec<char>>)
    ensures
        pieces_match(r@, clean_list(a@, mark@)),
{
    proof {
        reveal_strlit("&amp;");
    }
    let empty_v: Vec<char> = Vec::new();
    let amp_v = str_to_chars("&amp;");
    let ampch_v = str_to_chars("&");
    let stripped = replace_all_exec(a, mark, &empty_v);
    let unesc = replace_all_exec(&stripped, &amp_v, &ampch_v);
    let toks = split_seps_exec(&unesc);
    let mut r: Vec<Vec<char>> = Vec::new();
    let mut k: usize = 0;
    let ghost parts = clean_list(a@, mark@);
    while k < toks.len()
        invariant
            k <= toks@.len(),
            pieces_match(toks@, split_seps(unesc@)),
            unesc@ == replace_all(replace_all(a@, mark@, Seq::empty()), amp_entity(), amp_ch()),
            parts == clean_list(a@, mark@),
            r@.len() == k,
            forall|m: int| 0 <= m < k ==> r@[m]@ == parts[m],
        decreases toks@.len() - k,
    {
        let tok = clean_token_exec(&toks[k]);
        r.push(tok);
        k += 1;
    }
    r
}

fn contains_piece(v: &Vec<Vec<char>>, x: &Vec<char>) -> (r: bool)
    ensures
        r == crate::text::views_of(v@).contains(x@),
{
    let mut k: usize = 0;
    while k < v.len()
        invariant
            k <= v@.len(),
            forall|m: int| 0 <= m < k ==> v@[m]@ != x@,
        decreases v@.len() - k,
    {
        if crate::text::chars_eq(&v[k], x) {
            assert(crate::text::views_of(v@)[k as int] == x@);
            return true;
        }
        k += 1;
    }
    assert forall|m: int| 0 <= m < crate::text::views_of(v@).len()
        implies crate::text::views_of(v@)[m] != x@ by {}
    false
}

fn dedup_first_exec(v: &Vec<Vec<char>>) -> (r: Vec<Vec<char>>)
    ensures
        pieces_match(r@, dedup_first(crate::text::views_of(v@))),
{
    let mut r: Vec<Vec<char>> = Vec::new();
    let mut k: usize = 0;
    while k < v.len()
        invariant
            k <= v@.len(),
            pieces_match(r@, dedup_first(crate::text::views_of(v@).subrange(0, k as int))),
        decreases v@.len() - k,
    {
        let ghost prefix = crate::text::views_of(v@).subrange(0, k as int);
        let ghost prefix2 = crate::text::views_of(v@).subrange(0, k + 1);
        proof {
            assert(prefix2.drop_last() =~= prefix);
            assert(prefix2.last() == v@[k as int]@);
        }
        let found = contains_piece(&r, &v[k]);
        proof {
            assert(crate::text::views_of(r@) =~= dedup_first(prefix));
        }
        if !found {
            let item = subvec(&v[k], 0, v[k].len());
            r.push(item);
        }
        k += 1;
        proof {
            let dd2 = dedup_first(prefix2);
            assert(dd2 == if dedup_first(prefix).contains(prefix2.last()) {
                dedup_first(prefix)
            } else {
                dedup_first(prefix).push(prefix2.last())
            });
            assert forall|m: int| 0 <= m < dd2.len() implies r@[m]@ == dd2[m] by {
                if m < dedup_first(prefix).len() as int {
                }
            }
            assert(pieces_match(r@, dd2));
        }
    }
    proof {
        assert(crate::text::views_of(v@).subrange(0, v@.len() as int) =~= crate::text::views_of(
            v@,
        ));
    }
    r
}

fn to_strings(v: &Vec<Vec<char>>) -> (r: Vec<String>)
    ensures
        r@.len() == v@.len(),
        forall|i: int| 0 <= i < v@.len() ==> r@[i]@ == v@[i]@,
{
    let mut r: Vec<String> = Vec::new();
    let mut k: usize = 0;
    while k < v.len()
        invariant
            k <= v@.len(),
            r@.len() == k,
            forall|i: int| 0 <= i < k ==> r@[i]@ == v@[i]@,
        decreases v@.len() - k,
    {
        r.push(chars_to_string(&v[k]));
        k += 1;
    }
    r
}

// ------------------------------------------------------------------
// Parsing one block.
// ------------------------------------------------------------------

/// A full-detail block parsed into a record.
pub open spec fn parse_full(code: CourseCodeView, raw: Seq<char>) -> Option<CourseView> {
    match header_bounds(raw) {
        None => None,
        Some((hs, he)) => {
            let h = raw.subrange(hs, he);
            match full_header_parse(h) {
                None => None,
                Some((title_raw, credits)) => match region_bounds(raw, he) {
                    None => None,
                    Some((rs, rz)) => {
                        let region = trim(raw.subrange(rs, rz));
                        let attrs = split_on(region, br_mark());
                        let st = fold_attrs(attrs, 1, code_display(code), attr_fold_init());
                        Some(
                            CourseView {
                                title: replace_all(title_raw, amp_entity(), amp_ch()),
                                code,
                                description: attrs[0],
                                credits,
                                pre_requirements: dedup_first(st.pre),
                                gen_ed_fulfillments: st.gen_ed,
                                distance_available: st.distance,
                                offered_terms: st.offered,
                            },
                        )
                    },
                },
            }
        },
    }
}

/// A stub block parsed into a record: title and integer credits only, the
/// placeholder description, everything else empty.
pub open spec fn parse_stub(code: CourseCodeView, raw: Seq<char>) -> Option<CourseView> {
    match header_bounds(raw) {
        None => None,
        Some((hs, he)) => match stub_header_parse(raw.subrange(hs, he)) {
            None => None,
            Some((title, credits)) => Some(
                CourseView {
                    title,
                    code,
                    description: no_description(),
                    credits,
                    pre_requirements: Seq::empty(),
                    gen_ed_fulfillments: Seq::empty(),
                    distance_available: false,
                    offered_terms: Seq::empty(),
                },
            ),
        },
    }
}

/// The two shapes tried in order of preference.
pub open spec fn parse_block_spec(code: CourseCodeView, raw: Seq<char>) -> Option<CourseView> {
    match parse_full(code, raw) {
        Some(c) => Some(c),
        None => parse_stub(code, raw),
    }
}

fn parse_full_exec(code: &CourseCode, raw: &Vec<char>) -> (r: Option<Course>)
    ensures
        match r {
            Some(c) => parse_full(code@, raw@) == Some(c@),
            None => parse_full(code@, raw@) is None,
        },
{
    proof {
        reveal_strlit("<strong>");
        reveal_strlit("</strong>");
        reveal_strlit("<br />\n");
        reveal_strlit("Gen Ed Attribute:");
        reveal_strlit("Typically offered in");
        reveal_strlit("&amp;");
    }
    let n = raw.len();
    let so_v = str_to_chars("<strong>");
    let sc_v = str_to_chars("</strong>");
    let o = match find_from(raw, &so_v, 0) {
        Some(o) => o,
        None => {
            return None;
        },
    };
    proof {
        lemma_first_match_from(raw@, strong_open(), 0);
    }
    let hs = o + 8;
    let he = match find_from(raw, &sc_v, hs) {
        Some(c) => c,
        None => {
            return None;
        },
    };
    proof {
        lemma_first_match_from(raw@, strong_close(), hs as int);
    }
    let h = subvec(raw, hs, he);
    let tc = match full_header_exec(&h) {
        Some(x) => x,
        None => {
            return None;
        },
    };
    let rb = match region_bounds_exec(raw, he) {
        Some(x) => x,
        None => {
            return None;
        },
    };
    let region_raw = subvec(raw, rb.0, rb.1);
    let region = trim_exec(&region_raw);
    let br_v = str_to_chars("<br />\n");
    let attrs = split_on_exec(&region, &br_v);
    let ghost attrs_spec = split_on(region@, br_mark());
    proof {
        if first_match_from(region@, br_mark(), 0) is None {
        }
        assert(attrs_spec.len() >= 1);
    }
    let description = chars_to_string(&attrs[0]);
    let self_disp_s = code.display();
    let disp_v = str_to_chars(self_disp_s.as_str());
    let dist_v = str_to_chars("Distance education offering may be available.");
    let prereq_v = str_to_chars("Pre / Co requisites:");
    let gened_v = str_to_chars("Gen Ed Attribute:");
    let offered_v = str_to_chars("Typically offered in");
    let mut pre: Vec<Vec<char>> = Vec::new();
    let mut gen: Vec<Vec<char>> = Vec::new();
    let mut dist = false;
    let mut off: Vec<Vec<char>> = Vec::new();
    let mut i: usize = 1;
    proof {
        assert(crate::text::views_of(pre@) =~= Seq::<Seq<char>>::empty());
        assert(crate::text::views_of(gen@) =~= Seq::<Seq<char>>::empty());
        assert(crate::text::views_of(off@) =~= Seq::<Seq<char>>::empty());
        assert(AttrFold {
            pre: crate::text::views_of(pre@),
            gen_ed: crate::text::views_of(gen@),
            distance: false,
            offered: crate::text::views_of(off@),
        } =~= attr_fold_init());
    }
    while i < attrs.len()
        invariant
            1 <= i,
            i <= attrs@.len() || i == 1,
            pieces_match(attrs@, attrs_spec),
            attrs_spec == split_on(region@, br_mark()),
            disp_v@ == code_display(code@),
            dist_v@ == distance_mark(),
            prereq_v@ == pre_req_mark(),
            gened_v@ == gen_ed_mark(),
            offered_v@ == offered_mark(),
            fold_attrs(attrs_spec, 1, disp_v@, attr_fold_init()) == fold_attrs(
                attrs_spec,
                i as int,
                disp_v@,
                AttrFold {
                    pre: crate::text::views_of(pre@),
                    gen_ed: crate::text::views_of(gen@),
                    distance: dist,
                    offered: crate::text::views_of(off@),
                },
            ),
        decreases attrs@.len() - i,
    {
        let ghost st_before = AttrFold {
            pre: crate::text::views_of(pre@),
            gen_ed: crate::text::views_of(gen@),
            distance: dist,
            offered: crate::text::views_of(off@),
        };
        let a = &attrs[i];
        assert(a@ == attrs_spec[i as int]);
        proof {
            reveal_strlit("Gen Ed Attribute:");
            reveal_strlit("Typically offered in");
        }
        if has_match(a, &dist_v) {
            dist = true;
        } else if begins_with(a, &prereq_v) {
            let mut kept = kept_titles_exec(a, &disp_v);
            let ghost kept_spec = kept_titles(a@, disp_v@);
            let ghost pre_old = pre@;
            pre.append(&mut kept);
            assert(crate::text::views_of(pre@) =~= crate::text::views_of(pre_old)
                + kept_spec);
        } else if begins_with(a, &gened_v) {
            gen = clean_list_exec(a, &gened_v);
            assert(crate::text::views_of(gen@) =~= clean_list(a@, gen_ed_mark()));
        } else if begins_with(a, &offered_v) {
            off = clean_list_exec(a, &offered_v);
            assert(crate::text::views_of(off@) =~= clean_list(a@, offered_mark()));
        }
        proof {
            let st_after = AttrFold {
                pre: crate::text::views_of(pre@),
                gen_ed: crate::text::views_of(gen@),
                distance: dist,
                offered: crate::text::views_of(off@),
            };
            assert(st_after =~= attr_step(attrs_spec[i as int], disp_v@, st_before));
            assert(fold_attrs(attrs_spec, i as int, disp_v@, st_before) == fold_attrs(
                attrs_spec,
                i + 1,
                disp_v@,
                st_after,
            ));
        }
        i += 1;
    }
    let ghost st_final = fold_attrs(attrs_spec, 1, disp_v@, attr_fold_init());
    proof {
        assert(st_final =~= AttrFold {
            pre: crate::text::views_of(pre@),
            gen_ed: crate::text::views_of(gen@),
            distance: dist,
            offered: crate::text::views_of(off@),
        });
    }
    let pre_d = dedup_first_exec(&pre);
    let amp_v = str_to_chars("&amp;");
    let ampch_v = str_to_chars("&");
    let title_v = replace_all_exec(&tc.0, &amp_v, &ampch_v);
    let c = Course {
        title: chars_to_string(&title_v),
        code: code.duplicate(),
        description,
        credits: chars_to_string(&tc.1),
        pre_requirements: to_strings(&pre_d),
        gen_ed_fulfillments: to_strings(&gen),
        distance_available: dist,
        offered_terms: to_strings(&off),
    };
    proof {
        assert(c@.pre_requirements =~= dedup_first(st_final.pre));
        assert(c@.gen_ed_fulfillments =~= st_final.gen_ed);
        assert(c@.offered_terms =~= st_final.offered);
        assert(c@.code =~= code@);
        let cv = CourseView {
            title: replace_all(tc.0@, amp_entity(), amp_ch()),
            code: code@,
            description: attrs_spec[0],
            credits: tc.1@,
            pre_requirements: dedup_first(st_final.pre),
            gen_ed_fulfillments: st_final.gen_ed,
            distance_available: st_final.distance,
            offered_terms: st_final.offered,
        };
        assert(c@ =~= cv);
        assert(parse_full(code@, raw@) == Some(cv));
    }
    Some(c)
}

fn parse_stub_exec(code: &CourseCode, raw: &Vec<char>) -> (r: Option<Course>)
    ensures
        match r {
            Some(c) => parse_stub(code@, raw@) == Some(c@),
            None => parse_stub(code@, raw@) is None,
        },
{
    proof {
        reveal_strlit("<strong>");
        reveal_strlit("</strong>");
    }
    let n = raw.len();
    let so_v = str_to_chars("<strong>");
    let sc_v = str_to_chars("</strong>");
    let o = match find_from(raw, &so_v, 0) {
        Some(o) => o,
        None => {
            return None;
        },
    };
    proof {
        lemma_first_match_from(raw@, strong_open(), 0);
    }
    let hs = o + 8;
    let he = match find_from(raw, &sc_v, hs) {
        Some(c) => c,
        None => {
            return None;
        },
    };
    proof {
        lemma_first_match_from(raw@, strong_close(), hs as int);
    }
    let h = subvec(raw, hs, he);
    let tc = match stub_header_exec(&h) {
        Some(x) => x,
        None => {
            return None;
        },
    };
    let c = Course {
        title: chars_to_string(&tc.0),
        code: code.duplicate(),
        description: chars_to_string(&str_to_chars("No Description")),
        credits: chars_to_string(&tc.1),
        pre_requirements: Vec::new(),
        gen_ed_fulfillments: Vec::new(),
        distance_available: false,
        offered_terms: Vec::new(),
    };
    proof {
        let cv = CourseView {
            title: tc.0@,
            code: code@,
            description: no_description(),
            credits: tc.1@,
            pre_requirements: Seq::empty(),
            gen_ed_fulfillments: Seq::empty(),
            distance_available: false,
            offered_terms: Seq::empty(),
        };
        assert(c@.pre_requirements =~= Seq::<Seq<char>>::empty());
        assert(c@.gen_ed_fulfillments =~= Seq::<Seq<char>>::empty());
        assert(c@.offered_terms =~= Seq::<Seq<char>>::empty());
        assert(c@ =~= cv);
        assert(parse_stub(code@, raw@) == Some(cv));
    }
    Some(c)
}

/// Parse one course block, trying the full-detail shape first and falling
/// back to the minimal stub shape; neither shape matching is a parse
/// error for the block.
pub fn parse_block(code: &CourseCode, raw: &str) -> (r: Result<Course, ParseError>)
    ensures
        r matches Ok(c) ==> parse_block_spec(code@, raw@) == Some(c@),
        r matches Err(e) ==> parse_block_spec(code@, raw@) is None && e
            == ParseError::UnrecognizedBlock,
{
    let rawv = str_to_chars(raw);
    match parse_full_exec(code, &rawv) {
        Some(c) => Ok(c),
        None => match parse_stub_exec(code, &rawv) {
            Some(c) => Ok(c),
            None => Err(ParseError::UnrecognizedBlock),
        },
    }
}

// ------------------------------------------------------------------
// Listing bodies: containers and subjects.
// ------------------------------------------------------------------

proof fn lemma_digits_end(s: Seq<char>, from: int)
    requires
        0 <= from <= s.len(),
    ensures
        from <= digits_end(s, from) <= s.len(),
        forall|m: int| from <= m < digits_end(s, from) ==> is_digit(s[m]),
    decreases s.len() - from,
{
    if from < s.len() && is_digit(s[from]) {
        lemma_digits_end(s, from + 1);
    }
}

/// A course container whose opening marker stands at `i`: the uppercase
/// prefix, a space, the digits of the course number (which must fit in
/// 32 bits), the CDATA opening, the block up to the first CDATA close.
/// Yields the number, the raw block, and where scanning continues.
pub open spec fn container_at(body: Seq<char>, i: int) -> Option<(u32, Seq<char>, int)> {
    let p = i + course_open_mark().len();
    let le = uppers_end(body, p);
    if le == p || !(le < body.len() && body[le] == ' ') {
        None
    } else {
        let ds = le + 1;
        let de = digits_end(body, ds);
        if de == ds || !match_at(body, cdata_open_mark(), de) {
            None
        } else {
            let bs = de + cdata_open_mark().len();
            match first_match_from(body, cdata_close_mark(), bs) {
                None => None,
                Some(z) => if 0 <= num_val(body, ds, de) <= u32::MAX {
                    Some(
                        (
                            num_val(body, ds, de) as u32,
                            body.subrange(bs, z),
                            z + cdata_close_mark().len(),
                        ),
                    )
                } else {
                    None
                },
            }
        }
    }
}

/// The course containers of a listing body, from position `from` on.
/// A malformed container (or a number too large for 32 bits) is not
/// recognized, and scanning continues after its opening marker.
pub open spec fn blocks_of(body: Seq<char>, from: int) -> Seq<(u32, Seq<char>)>
    decreases body.len() - from,
{
    match first_match_from(body, course_open_mark(), from) {
        None => Seq::empty(),
        Some(i) => match container_at(body, i) {
            Some((num, block, next)) => if from < next && next <= body.len() {
                seq![(num, block)] + blocks_of(body, next)
            } else {
                Seq::empty()
            },
            None => if from <= i && i + 1 <= body.len() {
                blocks_of(body, i + 1)
            } else {
                Seq::empty()
            },
        },
    }
}

fn container_at_exec(body: &Vec<char>, i: usize) -> (r: Option<(u32, Vec<char>, usize)>)
    requires
        match_at(body@, course_open_mark(), i as int),
    ensures
        match r {
            Some(t) => container_at(body@, i as int) == Some((t.0, t.1@, t.2 as int)) && i < t.2
                <= body@.len(),
            None => container_at(body@, i as int) is None,
        },
{
    proof {
        reveal_strlit("<course code=\"");
        reveal_strlit("\">\n<![CDATA[");
        reveal_strlit("]]>");
    }
    let n = body.len();
    let p = i + 14;
    let le = uppers_end_exec(body, p);
    if le == p {
        return None;
    }
    if le >= body.len() {
        return None;
    }
    if body[le] != ' ' {
        return None;
    }
    let ds = le + 1;
    let de = digits_end_exec(body, ds);
    if de == ds {
        return None;
    }
    let cdata_v = str_to_chars("\">\n<![CDATA[");
    if cdata_v.len() > body.len() - de {
        return None;
    }
    if !eq_at_wrap(body, &cdata_v, de) {
        return None;
    }
    let bs = de + 12;
    let close_v = str_to_chars("]]>");
    let z = match find_from(body, &close_v, bs) {
        Some(z) => z,
        None => {
            return None;
        },
    };
    proof {
        lemma_first_match_from(body@, cdata_close_mark(), bs as int);
        lemma_digits_end(body@, ds as int);
    }
    let val = match digit_run_value(body, ds, de) {
        Some(v) => v,
        None => {
            return None;
        },
    };
    let block = subvec(body, bs, z);
    Some((val, block, z + 3))
}

/// The value of the digit run `body[ds..de]`, unless it exceeds 32 bits.
fn digit_run_value(body: &Vec<char>, ds: usize, de: usize) -> (r: Option<u32>)
    requires
        ds <= de <= body@.len(),
        forall|m: int| ds <= m < de ==> is_digit(body@[m]),
    ensures
        match r {
            Some(v) => v as int == num_val(body@, ds as int, de as int),
            None => num_val(body@, ds as int, de as int) > u32::MAX,
        },
{
    let mut val: u64 = 0;
    let mut k: usize = ds;
    while k < de
        invariant
            ds <= k <= de <= body@.len(),
            forall|m: int| ds <= m < de ==> is_digit(body@[m]),
            val <= u32::MAX as u64,
            val == num_val(body@, ds as int, k as int),
        decreases de - k,
    {
        let d = (body[k] as u32) - 48;
        let v2 = val * 10 + (d as u64);
        if v2 > u32::MAX as u64 {
            proof {
                assert(num_val(body@, ds as int, k + 1) == val * 10 + (
                body@[k as int] as u32 as int - 48));
                lemma_num_val_mono(body@, ds as int, k + 1, de as int);
                assert(num_val(body@, ds as int, de as int) > u32::MAX);
            }
            return None;
        }
        val = v2;
        k += 1;
    }
    Some(val as u32)
}

/// The pairs collected so far, by view.
pub open spec fn block_pairs(v: Seq<(u32, String)>) -> Seq<(u32, Seq<char>)> {
    Seq::new(v.len(), |i: int| (v[i].0, v[i].1@))
}

/// The (course number, raw block) pairs of one subject's listing body, in
/// order of appearance.
pub fn split_blocks(body: &str) -> (r: Vec<(u32, String)>)
    ensures
        block_pairs(r@) == blocks_of(body@, 0),
{
    let bodyv = str_to_chars(body);
    blocks_from(&bodyv, 0)
}

fn blocks_from(body: &Vec<char>, from: usize) -> (r: Vec<(u32, String)>)
    ensures
        block_pairs(r@) == blocks_of(body@, from as int),
    decreases body@.len() - from,
{
    proof {
        reveal_strlit("<course code=\"");
    }
    let n = body.len();
    let open_v = str_to_chars("<course code=\"");
    match find_from(body, &open_v, from) {
        None => {
            let r: Vec<(u32, String)> = Vec::new();
            assert(block_pairs(r@) =~= blocks_of(body@, from as int));
            r
        },
        Some(i) => {
            proof {
                lemma_first_match_from(body@, course_open_mark(), from as int);
            }
            match container_at_exec(body, i) {
                Some(t) => {
                    let rest = blocks_from(body, t.2);
                    let ghost rest_pairs = blocks_of(body@, t.2 as int);
                    let num = t.0;
                    let text = chars_to_string(&t.1);
                    let ghost rest_snapshot = rest@;
                    let mut r: Vec<(u32, String)> = Vec::new();
                    r.push((num, text));
                    let mut rest = rest;
                    r.append(&mut rest);
                    proof {
                        let whole = blocks_of(body@, from as int);
                        assert(whole =~= seq![(num, t.1@)] + rest_pairs);
                        assert(block_pairs(rest_snapshot) == rest_pairs);
                        assert forall|m: int| 0 <= m < whole.len() implies block_pairs(r@)[m]
                            == whole[m] by {
                            if m > 0 {
                                assert(whole[m] == rest_pairs[m - 1]);
                                assert(r@[m] == rest_snapshot[m - 1]);
                                assert(block_pairs(rest_snapshot)[m - 1] == rest_pairs[m - 1]);
                            }
                        }
                        assert(block_pairs(r@) =~= whole);
                    }
                    r
                },
                None => blocks_from(body, i + 1),
            }
        },
    }
}

/// The subject codes named by a directory-listing body, from `from` on:
/// each occurrence of the subject-directory path contributes the segment
/// up to the next slash.
pub open spec fn subjects_of(body: Seq<char>, from: int) -> Seq<Seq<char>>
    decreases body.len() - from,
{
    match first_match_from(body, subject_dir_mark(), from) {
        None => Seq::empty(),
        Some(i) => {
            let start = i + subject_dir_mark().len();
            match first_match_from(body, slash_ch(), start) {
                None => Seq::empty(),
                Some(j) => if from < j + 1 && j + 1 <= body.len() {
                    seq![body.subrange(start, j)] + subjects_of(body, j + 1)
                } else {
                    Seq::empty()
                },
            }
        },
    }
}

fn subjects_from(body: &Vec<char>, from: usize) -> (r: Vec<Vec<char>>)
    ensures
        pieces_match(r@, subjects_of(body@, from as int)),
    decreases body@.len() - from,
{
    proof {
        reveal_strlit("general-information/index-course-prefix-guide/course-index/undergraduate/");
        reveal_strlit("/");
    }
    let n = body.len();
    let mark_v = str_to_chars(
        "general-information/index-course-prefix-guide/course-index/undergraduate/",
    );
    let i = match find_from(body, &mark_v, from) {
        Some(i) => i,
        None => {
            let r: Vec<Vec<char>> = Vec::new();
            return r;
        },
    };
    proof {
        lemma_first_match_from(body@, subject_dir_mark(), from as int);
    }
    let start = i + mark_v.len();
    let slash_v = str_to_chars("/");
    let j = match find_from(body, &slash_v, start) {
        Some(j) => j,
        None => {
            let r: Vec<Vec<char>> = Vec::new();
            return r;
        },
    };
    proof {
        lemma_first_match_from(body@, slash_ch(), start as int);
    }
    let seg = subvec(body, start, j);
    let rest = subjects_from(body, j + 1);
    let ghost rest_parts = subjects_of(body@, j + 1);
    let mut r: Vec<Vec<char>> = Vec::new();
    r.push(seg);
    let mut rest = rest;
    r.append(&mut rest);
    proof {
        let parts = subjects_of(body@, from as int);
        assert(parts =~= seq![body@.subrange(start as int, j as int)] + rest_parts);
        assert forall|k: int| 0 <= k < parts.len() implies r@[k]@ == parts[k] by {
            if k > 0 {
                assert(parts[k] == rest_parts[k - 1]);
            }
        }
    }
    r
}

/// The subject codes named by the directory-listing body, in first-seen
/// order, duplicates kept as they appear.
pub fn enumerate_subjects(body: &str) -> (r: Vec<String>)
    ensures
        r@.len() == subjects_of(body@, 0).len(),
        forall|i: int| 0 <= i < r@.len() ==> r@[i]@ == subjects_of(body@, 0)[i],
{
    let bodyv = str_to_chars(body);
    let pieces = subjects_from(&bodyv, 0);
    to_strings(&pieces)
}

// ------------------------------------------------------------------
// Whole listings and the whole catalog.
// ------------------------------------------------------------------

/// The views of a sequence of records.
pub open spec fn course_views(v: Seq<Course>) -> Seq<CourseView> {
    Seq::new(v.len(), |i: int| v[i]@)
}

/// The views of a sequence of strings.
pub open spec fn string_views(v: Seq<String>) -> Seq<Seq<char>> {
    Seq::new(v.len(), |i: int| v[i]@)
}

/// A spec Option's payload, or the empty sequence.
pub open spec fn views_or_empty(o: Option<Seq<CourseView>>) -> Seq<CourseView> {
    match o {
        Some(v) => v,
        None => Seq::empty(),
    }
}

/// The records of the blocks `blocks[i..]`, each parsed with the subject
/// as its prefix; None as soon as one block parses under neither shape.
pub open spec fn parse_all_from(
    subject: Seq<char>,
    blocks: Seq<(u32, Seq<char>)>,
    i: int,
) -> Option<Seq<CourseView>>
    decreases blocks.len() - i,
{
    if i < 0 || i >= blocks.len() {
        Some(Seq::empty())
    } else {
        match parse_block_spec(
            CourseCodeView { prefix: subject, number: blocks[i].0 },
            blocks[i].1,
        ) {
            None => None,
            Some(c) => match parse_all_from(subject, blocks, i + 1) {
                None => None,
                Some(rest) => Some(seq![c] + rest),
            },
        }
    }
}

/// All records of one subject's listing body, in block order; one
/// unrecognized block fails the whole listing.
pub fn courses_for_subject(subject: &str, body: &str) -> (r: Result<Vec<Course>, ParseError>)
    ensures
        r matches Ok(cs) ==> parse_all_from(subject@, blocks_of(body@, 0), 0) is Some
            && course_views(cs@) == views_or_empty(
            parse_all_from(subject@, blocks_of(body@, 0), 0),
        ),
        r matches Err(e) ==> parse_all_from(subject@, blocks_of(body@, 0), 0) is None && e
            == ParseError::UnrecognizedBlock,
{
    let blocks = split_blocks(body);
    let ghost bspec = blocks_of(body@, 0);
    let mut out: Vec<Course> = Vec::new();
    let mut i: usize = 0;
    proof {
        if parse_all_from(subject@, bspec, 0) is Some {
            assert(course_views(out@) + views_or_empty(parse_all_from(subject@, bspec, 0))
                =~= views_or_empty(parse_all_from(subject@, bspec, 0)));
        }
    }
    while i < blocks.len()
        invariant
            i <= blocks@.len(),
            block_pairs(blocks@) == bspec,
            bspec == blocks_of(body@, 0),
            (parse_all_from(subject@, bspec, 0) is Some <==> parse_all_from(
                subject@,
                bspec,
                i as int,
            ) is Some),
            parse_all_from(subject@, bspec, 0) is Some ==> views_or_empty(
                parse_all_from(subject@, bspec, 0),
            ) == course_views(out@) + views_or_empty(parse_all_from(subject@, bspec, i as int)),
        decreases blocks@.len() - i,
    {
        let pair = &blocks[i];
        let code = CourseCode::new(subject, pair.0);
        proof {
            assert(bspec[i as int].0 == pair.0);
            assert(bspec[i as int].1 == pair.1@);
            assert(code@ =~= CourseCodeView { prefix: subject@, number: bspec[i as int].0 });
        }
        match parse_block(&code, pair.1.as_str()) {
            Ok(c) => {
                let ghost old_views = course_views(out@);
                out.push(c);
                proof {
                    assert(course_views(out@) =~= old_views + seq![c@]);
                    if parse_all_from(subject@, bspec, i + 1) is Some {
                        let rest = views_or_empty(parse_all_from(subject@, bspec, i + 1));
                        assert(views_or_empty(parse_all_from(subject@, bspec, i as int))
                            =~= seq![c@] + rest);
                        assert(old_views + (seq![c@] + rest) =~= course_views(out@) + rest);
                    }
                }
            },
            Err(e) => {
                proof {
                    assert(parse_all_from(subject@, bspec, i as int) is None);
                }
                return Err(e);
            },
        }
        i += 1;
    }
    proof {
        assert(views_or_empty(parse_all_from(subject@, bspec, i as int))
            =~= Seq::<CourseView>::empty());
        if parse_all_from(subject@, bspec, 0) is Some {
            assert(course_views(out@) + views_or_empty(parse_all_from(subject@, bspec, i as int))
                =~= course_views(out@));
        }
    }
    Ok(out)
}

/// The whole catalog over the subjects `subjects[i..]`, given each
/// subject's listing body.
pub open spec fn aggregate_views(
    subjects: Seq<Seq<char>>,
    bodies: Seq<Seq<char>>,
    i: int,
) -> Option<Seq<CourseView>>
    decreases subjects.len() - i,
{
    if i < 0 || i >= subjects.len() {
        Some(Seq::empty())
    } else {
        match parse_all_from(subjects[i], blocks_of(bodies[i], 0), 0) {
            None => None,
            Some(cs) => match aggregate_views(subjects, bodies, i + 1) {
                None => None,
                Some(rest) => Some(cs + rest),
            },
        }
    }
}

/// The whole catalog: each subject's listing parsed in subject order,
/// records concatenated in block order within each subject; one failing
/// subject fails the whole aggregation.
pub fn aggregate(subjects: &Vec<String>, bodies: &Vec<String>) -> (r: Result<
    CourseSet,
    ParseError,
>)
    requires
        subjects@.len() == bodies@.len(),
    ensures
        r matches Ok(set) ==> aggregate_views(
            string_views(subjects@),
            string_views(bodies@),
            0,
        ) is Some && course_views(set.courses@) == views_or_empty(
            aggregate_views(string_views(subjects@), string_views(bodies@), 0),
        ) && set.prefixes@.len() == subjects@.len() && (forall|i: int|
            0 <= i < subjects@.len() ==> set.prefixes@[i]@ == subjects@[i]@),
        r matches Err(e) ==> aggregate_views(
            string_views(subjects@),
            string_views(bodies@),
            0,
        ) is None && e == ParseError::UnrecognizedBlock,
{
    let ghost sv = string_views(subjects@);
    let ghost bv = string_views(bodies@);
    let mut courses: Vec<Course> = Vec::new();
    let mut prefixes: Vec<String> = Vec::new();
    let mut i: usize = 0;
    proof {
        if aggregate_views(sv, bv, 0) is Some {
            assert(course_views(courses@) + views_or_empty(aggregate_views(sv, bv, 0))
                =~= views_or_empty(aggregate_views(sv, bv, 0)));
        }
    }
    while i < subjects.len()
        invariant
            i <= subjects@.len(),
            subjects@.len() == bodies@.len(),
            sv == string_views(subjects@),
            bv == string_views(bodies@),
            prefixes@.len() == i,
            forall|m: int| 0 <= m < i ==> prefixes@[m]@ == subjects@[m]@,
            (aggregate_views(sv, bv, 0) is Some <==> aggregate_views(sv, bv, i as int) is Some),
            aggregate_views(sv, bv, 0) is Some ==> views_or_empty(aggregate_views(sv, bv, 0))
                == course_views(courses@) + views_or_empty(aggregate_views(sv, bv, i as int)),
        decreases subjects@.len() - i,
    {
        match courses_for_subject(subjects[i].as_str(), bodies[i].as_str()) {
            Ok(cs) => {
                let ghost old_views = course_views(courses@);
                let ghost cs_views = course_views(cs@);
                let mut cs = cs;
                courses.append(&mut cs);
                prefixes.push(subjects[i].clone());
                proof {
                    assert(course_views(courses@) =~= old_views + cs_views);
                    assert(cs_views == views_or_empty(
                        parse_all_from(sv[i as int], blocks_of(bv[i as int], 0), 0),
                    ));
                    if aggregate_views(sv, bv, i + 1) is Some {
                        let rest = views_or_empty(aggregate_views(sv, bv, i + 1));
                        assert(views_or_empty(aggregate_views(sv, bv, i as int)) =~= cs_views
                            + rest);
                        assert(old_views + (cs_views + rest) =~= course_views(courses@) + rest);
                    }
                }
            },
            Err(e) => {
                proof {
                    assert(aggregate_views(sv, bv, i as int) is None);
                }
                return Err(e);
            },
        }
        i += 1;
    }
    proof {
        if aggregate_views(sv, bv, 0) is Some {
            assert(course_views(courses@) + views_or_empty(aggregate_views(sv, bv, i as int))
                =~= course_views(courses@));
        }
    }
    Ok(CourseSet { courses, prefixes })
}

// ------------------------------------------------------------------
// Laws of the parser.
// ------------------------------------------------------------------

/// Law: parsing is deterministic — two records parsed from the same code
/// and the same raw block are equal in every field, so re-parsing a block
/// reproduces the record exactly.
pub proof fn lemma_parse_block_deterministic(
    code: CourseCodeView,
    raw: Seq<char>,
    c1: CourseView,
    c2: CourseView,
)
    requires
        parse_block_spec(code, raw) == Some(c1),
        parse_block_spec(code, raw) == Some(c2),
    ensures
        c1 == c2,
{
}

/// The attribute paragraphs of a full-detail block: the trimmed
/// description region split at line breaks.  The entry at index 0 is the
/// description; the entries after it are the attribute paragraphs.
pub open spec fn block_attrs(raw: Seq<char>) -> Seq<Seq<char>> {
    match header_bounds(raw) {
        None => Seq::empty(),
        Some((hs, he)) => match region_bounds(raw, he) {
            None => Seq::empty(),
            Some((rs, rz)) => split_on(trim(raw.subrange(rs, rz)), br_mark()),
        },
    }
}

/// The prerequisite values a full-detail block yields before
/// deduplication, in extraction order.
pub open spec fn gathered_pre(code: CourseCodeView, raw: Seq<char>) -> Seq<Seq<char>> {
    fold_attrs(block_attrs(raw), 1, code_display(code), attr_fold_init()).pre
}

/// Law: a record's prerequisite list is exactly the first occurrence of
/// each extracted value, in first-seen order; in particular it never
/// holds two equal entries.  A stub record's list is empty.
pub proof fn lemma_pre_requirements_first_seen(
    code: CourseCodeView,
    raw: Seq<char>,
    c: CourseView,
)
    requires
        parse_block_spec(code, raw) == Some(c),
    ensures
        parse_full(code, raw) is Some ==> c.pre_requirements == crate::text::first_occurrences(
            gathered_pre(code, raw),
        ),
        parse_full(code, raw) is None ==> c.pre_requirements == Seq::<Seq<char>>::empty(),
        forall|i: int, j: int|
            0 <= i < j < c.pre_requirements.len() ==> c.pre_requirements[i]
                != c.pre_requirements[j],
{
    if parse_full(code, raw) is Some {
        crate::text::lemma_dedup_first_is_first_occurrences(gathered_pre(code, raw));
        crate::text::lemma_dedup_first_distinct(gathered_pre(code, raw));
    }
}

/// A clean token: no leading whitespace, and neither whitespace nor a
/// period at the end.
pub open spec fn clean_entry(e: Seq<char>) -> bool {
    e.len() > 0 ==> !crate::text::is_ws(e[0]) && !crate::text::is_ws_or_dot(e[e.len() - 1])
}

/// Every entry of the sequence is clean.
pub open spec fn all_clean(s: Seq<Seq<char>>) -> bool {
    forall|i: int| 0 <= i < s.len() ==> clean_entry(s[i])
}

proof fn lemma_clean_list_clean(a: Seq<char>, mark: Seq<char>)
    ensures
        all_clean(clean_list(a, mark)),
{
    let toks = split_seps(
        replace_all(replace_all(a, mark, Seq::empty()), amp_entity(), amp_ch()),
    );
    assert forall|i: int| 0 <= i < clean_list(a, mark).len() implies clean_entry(
        clean_list(a, mark)[i],
    ) by {
        assert(clean_list(a, mark)[i] == clean_token(toks[i]));
        crate::text::lemma_clean_token_shape(toks[i]);
    }
}

proof fn lemma_fold_attrs_clean(attrs: Seq<Seq<char>>, i: int, disp: Seq<char>, st: AttrFold)
    requires
        all_clean(st.gen_ed),
        all_clean(st.offered),
    ensures
        all_clean(fold_attrs(attrs, i, disp, st).gen_ed),
        all_clean(fold_attrs(attrs, i, disp, st).offered),
    decreases attrs.len() - i,
{
    if 1 <= i < attrs.len() {
        let st2 = attr_step(attrs[i], disp, st);
        lemma_clean_list_clean(attrs[i], gen_ed_mark());
        lemma_clean_list_clean(attrs[i], offered_mark());
        lemma_fold_attrs_clean(attrs, i + 1, disp, st2);
    }
}

/// Law: gen-ed and offered-terms entries never end with a period or
/// whitespace, and never start with whitespace.
pub proof fn lemma_list_entries_clean(code: CourseCodeView, raw: Seq<char>, c: CourseView)
    requires
        parse_block_spec(code, raw) == Some(c),
    ensures
        all_clean(c.gen_ed_fulfillments),
        all_clean(c.offered_terms),
{
    if parse_full(code, raw) is Some {
        lemma_fold_attrs_clean(block_attrs(raw), 1, code_display(code), attr_fold_init());
    }
}

proof fn lemma_fold_attrs_distance(attrs: Seq<Seq<char>>, i: int, disp: Seq<char>, st: AttrFold)
    requires
        1 <= i,
    ensures
        fold_attrs(attrs, i, disp, st).distance == (st.distance || exists|k: int|
            i <= k < attrs.len() && seq_contains(#[trigger] attrs[k], distance_mark())),
    decreases attrs.len() - i,
{
    if i >= attrs.len() {
    } else {
        let st2 = attr_step(attrs[i], disp, st);
        lemma_fold_attrs_distance(attrs, i + 1, disp, st2);
        assert(st2.distance == (st.distance || seq_contains(attrs[i], distance_mark())));
        assert((exists|k: int|
            i <= k < attrs.len() && seq_contains(#[trigger] attrs[k], distance_mark())) == (
        seq_contains(attrs[i], distance_mark()) || exists|k: int|
            i + 1 <= k < attrs.len() && seq_contains(#[trigger] attrs[k], distance_mark())))
            by {
            if exists|k: int|
                i <= k < attrs.len() && seq_contains(#[trigger] attrs[k], distance_mark()) {
                let k = choose|k: int|
                    i <= k < attrs.len() && seq_contains(#[trigger] attrs[k], distance_mark());
                if k > i {
                    assert(i + 1 <= k < attrs.len() && seq_contains(
                        attrs[k],
                        distance_mark(),
                    ));
                }
            }
            if seq_contains(attrs[i], distance_mark()) {
                assert(i <= i < attrs.len() && seq_contains(attrs[i], distance_mark()));
            }
            if exists|k: int|
                i + 1 <= k < attrs.len() && seq_contains(#[trigger] attrs[k], distance_mark()) {
                let k = choose|k: int|
                    i + 1 <= k < attrs.len() && seq_contains(
                        #[trigger] attrs[k],
                        distance_mark(),
                    );
                assert(i <= k < attrs.len() && seq_contains(attrs[k], distance_mark()));
            }
        }
    }
}

/// Law: a full-detail record's distance flag is set iff the literal
/// distance-offering marker occurs in one of the block's attribute
/// paragraphs.  (A stub record has no attribute paragraphs, and its flag
/// is false by construction.)
pub proof fn lemma_distance_iff_marker(code: CourseCodeView, raw: Seq<char>, c: CourseView)
    requires
        parse_full(code, raw) == Some(c),
    ensures
        c.distance_available <==> exists|k: int|
            1 <= k < block_attrs(raw).len() && seq_contains(
                #[trigger] block_attrs(raw)[k],
                distance_mark(),
            ),
{
    lemma_fold_attrs_distance(block_attrs(raw), 1, code_display(code), attr_fold_init());
}

proof fn lemma_digits_end_subrange(s: Seq<char>, a: int, e: int, k: int)
    requires
        0 <= a,
        0 <= k,
        a + k <= e <= s.len(),
        digits_end(s, a + k) <= e,
    ensures
        digits_end(s.subrange(a, e), k) == digits_end(s, a + k) - a,
    decreases e - (a + k),
{
    let t = s.subrange(a, e);
    if a + k < e && is_digit(s[a + k]) {
        assert(t[k] == s[a + k]);
        lemma_digits_end_subrange(s, a, e, k + 1);
    } else if a + k < s.len() && is_digit(s[a + k]) {
        assert(digits_end(s, a + k) == digits_end(s, a + k + 1));
        lemma_digits_end(s, a + k + 1);
        assert(false);
    } else {
        if k < e - a {
            assert(t[k] == s[a + k]);
        }
    }
}

proof fn lemma_numeral_end_pos(s: Seq<char>, from: int)
    requires
        0 <= from <= s.len(),
    ensures
        numeral_end(s, from) matches Some(e) ==> from < e <= s.len(),
{
    let start = if 0 <= from < s.len() && (s[from] == '+' || s[from] == '-') {
        from + 1
    } else {
        from
    };
    lemma_digits_end(s, start);
    let d1 = digits_end(s, start);
    if d1 < s.len() && s[d1] == '.' && digits_end(s, d1 + 1) > d1 + 1 {
        lemma_digits_end(s, d1 + 1);
    }
}

proof fn lemma_credit_subrange_is_numeral(h: Seq<char>, cstart: int)
    requires
        0 <= cstart <= h.len(),
        numeral_end(h, cstart) is Some,
    ensures
        (match numeral_end(h, cstart) {
            Some(e) => is_decimal_numeral(h.subrange(cstart, e)),
            None => true,
        }),
{
    match numeral_end(h, cstart) {
        Some(e) => {
            lemma_numeral_end_pos(h, cstart);
            let t = h.subrange(cstart, e);
            let signed = cstart < h.len() && (h[cstart] == '+' || h[cstart] == '-');
            let start_h = if signed {
                cstart + 1
            } else {
                cstart
            };
            let d1_h = digits_end(h, start_h);
            lemma_digits_end(h, start_h);
            assert(t[0] == h[cstart]);
            let start_t = start_h - cstart;
            if d1_h < h.len() && h[d1_h] == '.' && digits_end(h, d1_h + 1) > d1_h + 1 {
                assert(e == digits_end(h, d1_h + 1));
                lemma_digits_end(h, d1_h + 1);
                lemma_digits_end_subrange(h, cstart, e, start_t);
                assert(digits_end(t, start_t) == d1_h - cstart);
                assert(t[d1_h - cstart] == h[d1_h]);
                lemma_digits_end_subrange(h, cstart, e, d1_h - cstart + 1);
                assert(digits_end(t, d1_h - cstart + 1) == e - cstart);
                assert(numeral_end(t, 0) == Some(t.len() as int));
            } else {
                assert(e == d1_h && d1_h > start_h);
                lemma_digits_end_subrange(h, cstart, e, start_t);
                assert(digits_end(t, start_t) == e - cstart);
                assert(numeral_end(t, 0) == Some(t.len() as int));
            }
        },
        None => {},
    }
}

proof fn lemma_digit_subrange_is_numeral(h: Seq<char>, cstart: int)
    requires
        0 <= cstart <= h.len(),
        digits_end(h, cstart) > cstart,
    ensures
        is_decimal_numeral(h.subrange(cstart, digits_end(h, cstart))),
{
    let e = digits_end(h, cstart);
    lemma_digits_end(h, cstart);
    let t = h.subrange(cstart, e);
    assert(t[0] == h[cstart]);
    assert(is_digit(h[cstart]));
    lemma_digits_end_subrange(h, cstart, e, 0);
    assert(digits_end(t, 0) == e - cstart);
    assert(numeral_end(t, 0) == Some(t.len() as int));
}

/// Law: what the parser stores as a record's credits is a complete
/// decimal numeral, so converting it to a floating-point number cannot
/// fail.
pub proof fn lemma_credits_is_numeral(code: CourseCodeView, raw: Seq<char>, c: CourseView)
    requires
        parse_block_spec(code, raw) == Some(c),
    ensures
        is_decimal_numeral(c.credits),
{
    match parse_full(code, raw) {
        Some(cf) => {
            assert(c == cf);
            match header_bounds(raw) {
                Some((hs, he)) => {
                    let h = raw.subrange(hs, he);
                    match full_header_parse(h) {
                        Some((tr, cr)) => {
                            assert(c.credits == cr);
                            match first_match_from(h, nbsp(), 0) {
                                Some(en) => {
                                    lemma_first_match_from(h, nbsp(), 0);
                                    let lo = en + nbsp().len();
                                    match last_mark(
                                        MarkKind::CreditSep,
                                        h,
                                        lo,
                                        h.len() - sep_mark().len(),
                                    ) {
                                        Some(q) => {
                                            lemma_last_mark(
                                                MarkKind::CreditSep,
                                                h,
                                                lo,
                                                h.len() - sep_mark().len(),
                                            );
                                            let cstart = q + sep_mark().len();
                                            assert(0 <= cstart <= h.len());
                                            assert(numeral_end(h, cstart) is Some);
                                            lemma_credit_subrange_is_numeral(h, cstart);
                                        },
                                        None => {
                                            assert(false);
                                        },
                                    }
                                },
                                None => {
                                    assert(false);
                                },
                            }
                        },
                        None => {
                            assert(false);
                        },
                    }
                },
                None => {
                    assert(false);
                },
            }
        },
        None => {
            match header_bounds(raw) {
                Some((hs, he)) => {
                    let h = raw.subrange(hs, he);
                    match stub_header_parse(h) {
                        Some((tr, cr)) => {
                            assert(c.credits == cr);
                            match first_match_from(h, nbsp(), 0) {
                                Some(en) => {
                                    lemma_first_match_from(h, nbsp(), 0);
                                    let lo = en + nbsp().len();
                                    match last_mark(
                                        MarkKind::IntCreditSep,
                                        h,
                                        lo,
                                        h.len() - sep_mark().len(),
                                    ) {
                                        Some(q) => {
                                            lemma_last_mark(
                                                MarkKind::IntCreditSep,
                                                h,
                                                lo,
                                                h.len() - sep_mark().len(),
                                            );
                                            let cstart = q + sep_mark().len();
                                            lemma_digit_subrange_is_numeral(h, cstart);
                                        },
                                        None => {
                                            assert(false);
                                        },
                                    }
                                },
                                None => {
                                    assert(false);
                                },
                            }
                        },
                        None => {
                            assert(false);
                        },
                    }
                },
                None => {
                    assert(false);
                },
            }
        },
    }
}

} // verus!
