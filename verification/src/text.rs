//! Character-sequence scanning primitives.
//!
//! The catalog's markup conventions are fixed strings, so every extraction
//! rule in the parser reduces to substring search, splitting, replacement
//! and trimming over sequences of characters.  Each executable routine here
//! is proved equal to a spec-level twin; the parser's contracts are stated
//! over those twins.

use vstd::prelude::*;

verus! {

/// `pat` occurs in `s` at position `i`.
pub open spec fn match_at(s: Seq<char>, pat: Seq<char>, i: int) -> bool {
    0 <= i && i + pat.len() <= s.len() && s.subrange(i, i + pat.len() as int) == pat
}

/// The first position at or after `from` where `pat` occurs in `s`.
pub open spec fn first_match_from(s: Seq<char>, pat: Seq<char>, from: int) -> Option<int>
    decreases s.len() - from,
{
    if from < 0 || from + pat.len() > s.len() {
        None
    } else if match_at(s, pat, from) {
        Some(from)
    } else if from < s.len() {
        first_match_from(s, pat, from + 1)
    } else {
        None
    }
}

/// `pat` occurs somewhere in `s`.
pub open spec fn seq_contains(s: Seq<char>, pat: Seq<char>) -> bool {
    first_match_from(s, pat, 0) is Some
}

/// `s` begins with `pat`.
pub open spec fn starts_with(s: Seq<char>, pat: Seq<char>) -> bool {
    pat.len() <= s.len() && s.subrange(0, pat.len() as int) == pat
}

/// What `first_match_from` returns is the leftmost occurrence.
pub proof fn lemma_first_match_from(s: Seq<char>, pat: Seq<char>, from: int)
    ensures
        first_match_from(s, pat, from) matches Some(i) ==> from <= i && match_at(s, pat, i)
            && forall|k: int| from <= k < i ==> !match_at(s, pat, k),
        (first_match_from(s, pat, from) is None && from >= 0) ==> forall|k: int|
            k >= from ==> !match_at(s, pat, k),
    decreases s.len() - from,
{
    if from < 0 || from + pat.len() > s.len() {
        assert forall|k: int| k >= from && from >= 0 implies !match_at(s, pat, k) by {
            if k + pat.len() <= s.len() {
                assert(k < from || !(from + pat.len() > s.len()));
            }
        }
    } else if match_at(s, pat, from) {
    } else if from < s.len() {
        lemma_first_match_from(s, pat, from + 1);
    }
}

/// The characters the parser treats as whitespace when trimming.
pub open spec fn is_ws(c: char) -> bool {
    c == ' ' || c == '\t' || c == '\n' || c == '\r'
}

/// Whitespace or a period: what is stripped from the end of a list token.
pub open spec fn is_ws_or_dot(c: char) -> bool {
    is_ws(c) || c == '.'
}

/// `s` with leading whitespace removed.
pub open spec fn trim_start(s: Seq<char>) -> Seq<char>
    decreases s.len(),
{
    if s.len() > 0 && is_ws(s[0]) {
        trim_start(s.subrange(1, s.len() as int))
    } else {
        s
    }
}

/// `s` with trailing whitespace removed.
pub open spec fn trim_end(s: Seq<char>) -> Seq<char>
    decreases s.len(),
{
    if s.len() > 0 && is_ws(s[s.len() - 1]) {
        trim_end(s.subrange(0, s.len() - 1))
    } else {
        s
    }
}

/// `s` with whitespace removed from both ends.
pub open spec fn trim(s: Seq<char>) -> Seq<char> {
    trim_end(trim_start(s))
}

/// `s` with trailing whitespace and periods removed.
pub open spec fn trim_end_ws_dot(s: Seq<char>) -> Seq<char>
    decreases s.len(),
{
    if s.len() > 0 && is_ws_or_dot(s[s.len() - 1]) {
        trim_end_ws_dot(s.subrange(0, s.len() - 1))
    } else {
        s
    }
}

/// A cleaned list token: no leading whitespace, and neither whitespace nor
/// a period at the end.
pub open spec fn clean_token(s: Seq<char>) -> Seq<char> {
    trim_end_ws_dot(trim_start(s))
}

/// A cleaned token never starts with whitespace and never ends with
/// whitespace or a period.
pub proof fn lemma_clean_token_shape(s: Seq<char>)
    ensures
        clean_token(s).len() > 0 ==> !is_ws(clean_token(s)[0]),
        clean_token(s).len() > 0 ==> !is_ws_or_dot(clean_token(s)[clean_token(s).len() - 1]),
{
    lemma_trim_start_shape(s);
    lemma_trim_end_ws_dot_shape(trim_start(s));
}

proof fn lemma_trim_start_shape(s: Seq<char>)
    ensures
        trim_start(s).len() > 0 ==> !is_ws(trim_start(s)[0]),
    decreases s.len(),
{
    if s.len() > 0 && is_ws(s[0]) {
        lemma_trim_start_shape(s.subrange(1, s.len() as int));
    }
}

proof fn lemma_trim_end_ws_dot_shape(s: Seq<char>)
    ensures
        trim_end_ws_dot(s).len() > 0 ==> !is_ws_or_dot(
            trim_end_ws_dot(s)[trim_end_ws_dot(s).len() - 1],
        ),
        trim_end_ws_dot(s).len() > 0 ==> trim_end_ws_dot(s)[0] == s[0],
    decreases s.len(),
{
    if s.len() > 0 && is_ws_or_dot(s[s.len() - 1]) {
        lemma_trim_end_ws_dot_shape(s.subrange(0, s.len() - 1));
    }
}

/// Splitting `s` at every occurrence of `delim`, left to right.
pub open spec fn split_on(s: Seq<char>, delim: Seq<char>) -> Seq<Seq<char>>
    decreases s.len(),
{
    match first_match_from(s, delim, 0) {
        None => seq![s],
        Some(i) => if 0 <= i && delim.len() > 0 && i + delim.len() <= s.len() {
            seq![s.subrange(0, i)] + split_on(
                s.subrange(i + delim.len() as int, s.len() as int),
                delim,
            )
        } else {
            seq![s]
        },
    }
}

/// A list separator in an attribute paragraph: comma or ampersand.
pub open spec fn is_sep(c: char) -> bool {
    c == ',' || c == '&'
}

/// The first list-separator position at or after `from`.
pub open spec fn first_sep_from(s: Seq<char>, from: int) -> Option<int>
    decreases s.len() - from,
{
    if from < 0 || from >= s.len() {
        None
    } else if is_sep(s[from]) {
        Some(from)
    } else {
        first_sep_from(s, from + 1)
    }
}

/// Splitting `s` at every comma or ampersand.
pub open spec fn split_seps(s: Seq<char>) -> Seq<Seq<char>>
    decreases s.len(),
{
    match first_sep_from(s, 0) {
        None => seq![s],
        Some(i) => if 0 <= i && i < s.len() {
            seq![s.subrange(0, i)] + split_seps(s.subrange(i + 1, s.len() as int))
        } else {
            seq![s]
        },
    }
}

/// `s` with every occurrence of `pat` replaced by `rep`, left to right.
pub open spec fn replace_all(s: Seq<char>, pat: Seq<char>, rep: Seq<char>) -> Seq<char>
    decreases s.len(),
{
    match first_match_from(s, pat, 0) {
        None => s,
        Some(i) => if 0 <= i && pat.len() > 0 && i + pat.len() <= s.len() {
            s.subrange(0, i) + rep + replace_all(
                s.subrange(i + pat.len() as int, s.len() as int),
                pat,
                rep,
            )
        } else {
            s
        },
    }
}

/// The elements of `s` that are the first occurrence of their value, in
/// order: duplicates dropped, first-seen order kept.
pub open spec fn dedup_first(s: Seq<Seq<char>>) -> Seq<Seq<char>>
    decreases s.len(),
{
    if s.len() == 0 {
        Seq::empty()
    } else {
        let init = dedup_first(s.drop_last());
        if init.contains(s.last()) {
            init
        } else {
            init.push(s.last())
        }
    }
}

/// `dedup_first` keeps exactly the values of `s`.
pub proof fn lemma_dedup_first_elements(s: Seq<Seq<char>>)
    ensures
        forall|x: Seq<char>| dedup_first(s).contains(x) <==> s.contains(x),
    decreases s.len(),
{
    if s.len() > 0 {
        let init = dedup_first(s.drop_last());
        lemma_dedup_first_elements(s.drop_last());
        assert forall|x: Seq<char>| s.contains(x) implies dedup_first(s).contains(x) by {
            let i = choose|i: int| 0 <= i < s.len() && s[i] == x;
            if i < s.len() - 1 {
                assert(s.drop_last()[i] == x);
                assert(s.drop_last().contains(x));
                let j = choose|j: int| 0 <= j < init.len() && init[j] == x;
                assert(dedup_first(s)[j] == x);
                assert(dedup_first(s).contains(x));
            } else {
                assert(x == s.last());
                if init.contains(x) {
                    let j = choose|j: int| 0 <= j < init.len() && init[j] == x;
                    assert(dedup_first(s)[j] == x);
                    assert(dedup_first(s).contains(x));
                } else {
                    assert(dedup_first(s)[init.len() as int] == x);
                    assert(dedup_first(s).contains(x));
                }
            }
        }
        assert forall|x: Seq<char>| dedup_first(s).contains(x) implies s.contains(x) by {
            let j = choose|j: int| 0 <= j < dedup_first(s).len() && dedup_first(s)[j] == x;
            if j < init.len() {
                assert(init[j] == x);
                assert(init.contains(x));
                assert(s.drop_last().contains(x));
                let i = choose|i: int| 0 <= i < s.drop_last().len() && s.drop_last()[i] == x;
                assert(s[i] == x);
                assert(s.contains(x));
            } else {
                assert(dedup_first(s)[j] == s.last());
                assert(s[s.len() - 1] == x);
                assert(s.contains(x));
            }
        }
    }
}


/// The elements of `s` standing at a position where their value appears
/// for the first time, in order.
pub open spec fn first_occurrences(s: Seq<Seq<char>>) -> Seq<Seq<char>>
    decreases s.len(),
{
    if s.len() == 0 {
        Seq::empty()
    } else if s.drop_last().contains(s.last()) {
        first_occurrences(s.drop_last())
    } else {
        first_occurrences(s.drop_last()).push(s.last())
    }
}

/// Deduplication keeps exactly the first occurrence of each value, in
/// first-seen order.
pub proof fn lemma_dedup_first_is_first_occurrences(s: Seq<Seq<char>>)
    ensures
        dedup_first(s) == first_occurrences(s),
    decreases s.len(),
{
    if s.len() > 0 {
        lemma_dedup_first_is_first_occurrences(s.drop_last());
        lemma_dedup_first_elements(s.drop_last());
    }
}

/// `dedup_first` never keeps two equal values.
pub proof fn lemma_dedup_first_distinct(s: Seq<Seq<char>>)
    ensures
        forall|i: int, j: int|
            0 <= i < j < dedup_first(s).len() ==> dedup_first(s)[i] != dedup_first(s)[j],
    decreases s.len(),
{
    if s.len() > 0 {
        lemma_dedup_first_distinct(s.drop_last());
        let init = dedup_first(s.drop_last());
        assert forall|i: int, j: int|
            0 <= i < j < dedup_first(s).len() implies dedup_first(s)[i] != dedup_first(s)[j] by {
            if j < init.len() {
            } else if !init.contains(s.last()) {
                assert(dedup_first(s)[j] == s.last());
                assert(dedup_first(s)[i] == init[i]);
                assert(init.contains(init[i]));
            }
        }
    }
}

// ------------------------------------------------------------------
// Executable twins.
// ------------------------------------------------------------------

/// The characters of `s`, as a vector.
pub fn str_to_chars(s: &str) -> (r: Vec<char>)
    ensures
        r@ == s@,
{
    let n = s.unicode_len();
    let mut r: Vec<char> = Vec::new();
    let mut i: usize = 0;
    while i < n
        invariant
            n == s@.len(),
            i <= n,
            r@ == s@.subrange(0, i as int),
        decreases n - i,
    {
        r.push(s.get_char(i));
        i += 1;
        assert(r@ =~= s@.subrange(0, i as int));
    }
    assert(r@ =~= s@);
    r
}

/// Relies on `String::push`: appends the given character to the string.
pub assume_specification[ String::push ](s: &mut String, ch: char)
    ensures
        final(s)@ == old(s)@.push(ch),
;

/// A string holding exactly the characters of `v`.
pub fn chars_to_string(v: &Vec<char>) -> (r: String)
    ensures
        r@ == v@,
{
    let mut r = String::new();
    let mut i: usize = 0;
    while i < v.len()
        invariant
            i <= v@.len(),
            r@ == v@.subrange(0, i as int),
        decreases v@.len() - i,
    {
        r.push(v[i]);
        i += 1;
        assert(r@ =~= v@.subrange(0, i as int));
    }
    assert(r@ =~= v@);
    r
}

/// The characters of `s` between `from` and `to`.
pub fn subvec(s: &Vec<char>, from: usize, to: usize) -> (r: Vec<char>)
    requires
        from <= to <= s@.len(),
    ensures
        r@ == s@.subrange(from as int, to as int),
{
    let mut r: Vec<char> = Vec::new();
    let mut i: usize = from;
    while i < to
        invariant
            from <= i <= to <= s@.len(),
            r@ == s@.subrange(from as int, i as int),
        decreases to - i,
    {
        r.push(s[i]);
        i += 1;
        assert(r@ =~= s@.subrange(from as int, i as int));
    }
    r
}

/// Whether `pat` occurs in `s` at position `i`.
pub fn eq_at(s: &Vec<char>, pat: &Vec<char>, i: usize) -> (r: bool)
    requires
        i + pat@.len() <= s@.len(),
    ensures
        r == match_at(s@, pat@, i as int),
{
    let ghost sub = s@.subrange(i as int, i + pat@.len());
    let n = s.len();
    let m = pat.len();
    let mut j: usize = 0;
    while j < m
        invariant
            n == s@.len(),
            m == pat@.len(),
            i + m <= n,
            j <= m,
            sub == s@.subrange(i as int, i + pat@.len()),
            forall|k: int| 0 <= k < j ==> s@[i + k] == pat@[k],
        decreases m - j,
    {
        if s[i + j] != pat[j] {
            assert(sub[j as int] != pat@[j as int]);
            return false;
        }
        j += 1;
    }
    assert(sub =~= pat@);
    true
}

/// The leftmost occurrence of `pat` in `s` at or after `from`.
pub fn find_from(s: &Vec<char>, pat: &Vec<char>, from: usize) -> (r: Option<usize>)
    ensures
        match r {
            Some(i) => first_match_from(s@, pat@, from as int) == Some(i as int),
            None => first_match_from(s@, pat@, from as int) is None,
        },
{
    let n = s.len();
    let m = pat.len();
    if m == 0 {
        if from <= n {
            assert(s@.subrange(from as int, from as int) =~= pat@);
            return Some(from);
        }
        return None;
    }
    let mut i: usize = from;
    loop
        invariant
            from <= i,
            n == s@.len(),
            m == pat@.len(),
            m >= 1,
            first_match_from(s@, pat@, from as int) == first_match_from(s@, pat@, i as int),
        decreases s@.len() + 1 - i,
    {
        if i > n || m > n - i {
            return None;
        }
        if eq_at(s, pat, i) {
            return Some(i);
        }
        assert(i < n);
        i += 1;
    }
}

/// Whether two character vectors hold the same characters.
pub fn chars_eq(x: &Vec<char>, y: &Vec<char>) -> (r: bool)
    ensures
        r == (x@ == y@),
{
    if x.len() != y.len() {
        return false;
    }
    let r = eq_at(x, y, 0);
    proof {
        if match_at(x@, y@, 0) {
            assert(x@ =~= x@.subrange(0, y@.len() as int));
        }
        if x@ == y@ {
            assert(x@.subrange(0, y@.len() as int) =~= y@);
        }
    }
    r
}

/// Whether `pat` occurs anywhere in `s`.
pub fn has_match(s: &Vec<char>, pat: &Vec<char>) -> (r: bool)
    ensures
        r == seq_contains(s@, pat@),
{
    find_from(s, pat, 0).is_some()
}

/// Whether `s` begins with `pat`.
pub fn begins_with(s: &Vec<char>, pat: &Vec<char>) -> (r: bool)
    ensures
        r == starts_with(s@, pat@),
{
    if pat.len() > s.len() {
        return false;
    }
    eq_at(s, pat, 0)
}

/// `s` trimmed of whitespace at both ends.
pub fn trim_exec(s: &Vec<char>) -> (r: Vec<char>)
    ensures
        r@ == trim(s@),
{
    let t = trim_start_exec(s);
    trim_end_exec(&t)
}

fn is_ws_exec(c: char) -> (r: bool)
    ensures
        r == is_ws(c),
{
    c == ' ' || c == '\t' || c == '\n' || c == '\r'
}

fn trim_start_exec(s: &Vec<char>) -> (r: Vec<char>)
    ensures
        r@ == trim_start(s@),
    decreases s@.len(),
{
    if s.len() > 0 && is_ws_exec(s[0]) {
        let rest = subvec(s, 1, s.len());
        trim_start_exec(&rest)
    } else {
        subvec(s, 0, s.len())
    }
}

fn trim_end_exec(s: &Vec<char>) -> (r: Vec<char>)
    ensures
        r@ == trim_end(s@),
    decreases s@.len(),
{
    if s.len() > 0 && is_ws_exec(s[s.len() - 1]) {
        let rest = subvec(s, 0, s.len() - 1);
        trim_end_exec(&rest)
    } else {
        subvec(s, 0, s.len())
    }
}

fn is_ws_or_dot_exec(c: char) -> (r: bool)
    ensures
        r == is_ws_or_dot(c),
{
    is_ws_exec(c) || c == '.'
}

fn trim_end_ws_dot_exec(s: &Vec<char>) -> (r: Vec<char>)
    ensures
        r@ == trim_end_ws_dot(s@),
    decreases s@.len(),
{
    if s.len() > 0 && is_ws_or_dot_exec(s[s.len() - 1]) {
        let rest = subvec(s, 0, s.len() - 1);
        trim_end_ws_dot_exec(&rest)
    } else {
        subvec(s, 0, s.len())
    }
}

/// A cleaned list token.
pub fn clean_token_exec(s: &Vec<char>) -> (r: Vec<char>)
    ensures
        r@ == clean_token(s@),
{
    let t = trim_start_exec(s);
    trim_end_ws_dot_exec(&t)
}

/// The pieces of `r` are exactly the pieces of `parts`, by view.
pub open spec fn pieces_match(r: Seq<Vec<char>>, parts: Seq<Seq<char>>) -> bool {
    r.len() == parts.len() && forall|i: int| 0 <= i < parts.len() ==> r[i]@ == parts[i]
}

/// The views of a sequence of character vectors.
pub open spec fn views_of(v: Seq<Vec<char>>) -> Seq<Seq<char>> {
    Seq::new(v.len(), |i: int| v[i]@)
}

/// `s` split at every occurrence of `delim`.
pub fn split_on_exec(s: &Vec<char>, delim: &Vec<char>) -> (r: Vec<Vec<char>>)
    requires
        delim@.len() > 0,
    ensures
        pieces_match(r@, split_on(s@, delim@)),
    decreases s@.len(),
{
    let n = s.len();
    match find_from(s, delim, 0) {
        None => {
            let whole = subvec(s, 0, n);
            assert(whole@ =~= s@);
            let mut r: Vec<Vec<char>> = Vec::new();
            r.push(whole);
            r
        },
        Some(i) => {
            proof {
                lemma_first_match_from(s@, delim@, 0);
            }
            let head = subvec(s, 0, i);
            let tail = subvec(s, i + delim.len(), n);
            let rest = split_on_exec(&tail, delim);
            let ghost rest_parts = split_on(tail@, delim@);
            let mut r: Vec<Vec<char>> = Vec::new();
            r.push(head);
            let mut rest = rest;
            r.append(&mut rest);
            proof {
                let parts = split_on(s@, delim@);
                assert(parts =~= seq![s@.subrange(0, i as int)] + rest_parts);
                assert forall|k: int| 0 <= k < parts.len() implies r@[k]@ == parts[k] by {
                    if k > 0 {
                        assert(parts[k] == rest_parts[k - 1]);
                    }
                }
            }
            r
        },
    }
}

/// `s` split at every comma or ampersand.
pub fn split_seps_exec(s: &Vec<char>) -> (r: Vec<Vec<char>>)
    ensures
        pieces_match(r@, split_seps(s@)),
    decreases s@.len(),
{
    let n = s.len();
    let mut i: usize = 0;
    while i < n && !(s[i] == ',' || s[i] == '&')
        invariant
            i <= n,
            n == s@.len(),
            first_sep_from(s@, 0) == first_sep_from(s@, i as int),
        decreases n - i,
    {
        i += 1;
    }
    if i >= n {
        let whole = subvec(s, 0, n);
        assert(whole@ =~= s@);
        let mut r: Vec<Vec<char>> = Vec::new();
        r.push(whole);
        r
    } else {
        assert(is_sep(s@[i as int]));
        assert(first_sep_from(s@, i as int) == Some(i as int));
        let head = subvec(s, 0, i);
        let tail = subvec(s, i + 1, n);
        let rest = split_seps_exec(&tail);
        let ghost rest_parts = split_seps(tail@);
        let mut r: Vec<Vec<char>> = Vec::new();
        r.push(head);
        let mut rest = rest;
        r.append(&mut rest);
        proof {
            let parts = split_seps(s@);
            assert(parts =~= seq![s@.subrange(0, i as int)] + rest_parts);
            assert forall|k: int| 0 <= k < parts.len() implies r@[k]@ == parts[k] by {
                if k > 0 {
                    assert(parts[k] == rest_parts[k - 1]);
                }
            }
        }
        r
    }
}

/// `s` with every occurrence of `pat` replaced by `rep`.  An empty
/// pattern replaces nothing.
pub fn replace_all_exec(s: &Vec<char>, pat: &Vec<char>, rep: &Vec<char>) -> (r: Vec<char>)
    ensures
        r@ == replace_all(s@, pat@, rep@),
    decreases s@.len(),
{
    let n = s.len();
    if pat.len() == 0 {
        let r = subvec(s, 0, n);
        assert(s@.subrange(0, 0int) =~= pat@);
        assert(r@ =~= s@);
        return r;
    }
    match find_from(s, pat, 0) {
        None => {
            let r = subvec(s, 0, n);
            assert(r@ =~= s@);
            r
        },
        Some(i) => {
            proof {
                lemma_first_match_from(s@, pat@, 0);
            }
            let mut r = subvec(s, 0, i);
            let mut mid = subvec(rep, 0, rep.len());
            r.append(&mut mid);
            let tail = subvec(s, i + pat.len(), n);
            let mut rest = replace_all_exec(&tail, pat, rep);
            r.append(&mut rest);
            assert(r@ =~= s@.subrange(0, i as int) + rep@ + replace_all(
                s@.subrange(i + pat@.len() as int, s@.len() as int),
                pat@,
                rep@,
            ));
            r
        },
    }
}

} // verus!
