//! Format-preserving manifest editing: insert a value into a named feature's
//! implication list while leaving every other character of the file
//! untouched.
//!
//! The editor performs a cursor-based scan rather than a parse-and-reprint
//! round trip: it locates the `[features]` table header line, the target
//! feature's `name = [ ... ]` entry, and the byte span of the list's closing
//! bracket (skipping quoted strings and `#` comments), then splices the new
//! quoted value in front of the closing bracket. A value that is already
//! present in the list is not appended twice, and a failed edit leaves the
//! document unchanged.

use vstd::prelude::*;

use crate::text::{find_char_from, index_of_from};

verus! {

/// Why an edit could not be applied: the scan found no `[features]` table,
/// no list entry for the feature, or no closing bracket.
#[derive(Debug)]
pub enum EditError {
    /// No `[features]` table header, no `feature = [` entry inside it, or an
    /// unterminated list.
    FeatureNotFound,
}

/// Whether `c` is horizontal whitespace.
pub open spec fn is_ws(c: char) -> bool {
    c == ' ' || c == '\t'
}

/// The position of the line break ending the line that starts at `k`, or the
/// text's length for the last line.
pub open spec fn line_end(t: Seq<char>, k: int) -> int {
    match index_of_from(t, '\n', k) {
        Some(e) => e,
        None => t.len() as int,
    }
}

/// The first position in `[k, e)` holding a non-whitespace character, or `e`.
pub open spec fn skip_ws(t: Seq<char>, k: int, e: int) -> int
    decreases e - k,
{
    if k < 0 || k >= e || k >= t.len() {
        e
    } else if is_ws(t[k]) {
        skip_ws(t, k + 1, e)
    } else {
        k
    }
}

/// The characters of the table header this editor looks for: `[features]`.
pub open spec fn features_header() -> Seq<char> {
    seq!['[', 'f', 'e', 'a', 't', 'u', 'r', 'e', 's', ']']
}

/// Whether the line starting at `k` holds exactly the `[features]` header,
/// surrounded by nothing but whitespace.
pub open spec fn is_header_line(t: Seq<char>, k: int) -> bool {
    let e = line_end(t, k);
    let fs = skip_ws(t, k, e);
    &&& fs + features_header().len() <= e
    &&& t.subrange(fs, fs + features_header().len() as int) == features_header()
    &&& skip_ws(t, fs + features_header().len() as int, e) == e
}

/// The line-start position of the first `[features]` header line at or after
/// `k`.
pub open spec fn find_header_from(t: Seq<char>, k: int) -> Option<int>
    decreases t.len() - k,
    via find_header_from_decreases
{
    if k < 0 || k >= t.len() {
        None
    } else if is_header_line(t, k) {
        Some(k)
    } else if line_end(t, k) + 1 > t.len() {
        None
    } else {
        find_header_from(t, line_end(t, k) + 1)
    }
}

#[via_fn]
proof fn find_header_from_decreases(t: Seq<char>, k: int) {
    if 0 <= k < t.len() {
        lemma_line_end_bounds(t, k);
    }
}

/// The end of a line starting in range lies at or after its start.
pub proof fn lemma_line_end_bounds(t: Seq<char>, k: int)
    requires
        0 <= k <= t.len(),
    ensures
        k <= line_end(t, k) <= t.len(),
{
    if index_of_from(t, '\n', k) is Some {
        crate::text::lemma_index_of_from_some(t, '\n', k, index_of_from(t, '\n', k).unwrap());
    }
}

/// Whether the line starting at `k` declares `feature`: optional whitespace,
/// the feature name, optional whitespace, then `=`.
pub open spec fn is_entry_line(t: Seq<char>, k: int, feature: Seq<char>) -> bool {
    let e = line_end(t, k);
    let fs = skip_ws(t, k, e);
    let ep = skip_ws(t, fs + feature.len() as int, e);
    &&& feature.len() > 0
    &&& fs + feature.len() <= e
    &&& t.subrange(fs, fs + feature.len() as int) == feature
    &&& ep < e
    &&& t[ep] == '='
}

/// Whether the line starting at `k` opens another table: its first
/// non-whitespace character is `[`.
pub open spec fn is_table_start(t: Seq<char>, k: int) -> bool {
    let e = line_end(t, k);
    let fs = skip_ws(t, k, e);
    fs < e && t[fs] == '['
}

/// The line-start position of the first entry line for `feature` at or after
/// `k`, stopping at the next table header.
pub open spec fn find_entry_from(t: Seq<char>, feature: Seq<char>, k: int) -> Option<int>
    decreases t.len() - k,
    via find_entry_from_decreases
{
    if k < 0 || k >= t.len() {
        None
    } else if is_entry_line(t, k, feature) {
        Some(k)
    } else if is_table_start(t, k) {
        None
    } else if line_end(t, k) + 1 > t.len() {
        None
    } else {
        find_entry_from(t, feature, line_end(t, k) + 1)
    }
}

#[via_fn]
proof fn find_entry_from_decreases(t: Seq<char>, feature: Seq<char>, k: int) {
    if 0 <= k < t.len() {
        lemma_line_end_bounds(t, k);
    }
}

/// A found entry line has the entry shape.
pub proof fn lemma_find_entry_some(t: Seq<char>, feature: Seq<char>, k: int, i: int)
    requires
        find_entry_from(t, feature, k) == Some(i),
    ensures
        is_entry_line(t, i, feature),
        k <= i < t.len(),
    decreases t.len() - k,
{
    if !(k < 0 || k >= t.len()) && !is_entry_line(t, k, feature) && !is_table_start(t, k)
        && line_end(t, k) + 1 <= t.len() {
        lemma_line_end_bounds(t, k);
        lemma_find_entry_some(t, feature, line_end(t, k) + 1, i);
    }
}

/// The scanner's mode while it looks for the list's closing bracket.
pub enum ScanMode {
    /// Ordinary list text.
    Plain,
    /// Inside a quoted string.
    InString,
    /// Inside a `#` comment, which a line break ends.
    InComment,
}

/// The position of the `]` closing the list, scanning from `k` in `mode`:
/// quoted strings and comments are skipped.
pub open spec fn find_close_from(t: Seq<char>, k: int, mode: ScanMode) -> Option<int>
    decreases t.len() - k,
{
    if k < 0 || k >= t.len() {
        None
    } else {
        match mode {
            ScanMode::Plain => {
                if t[k] == ']' {
                    Some(k)
                } else if t[k] == '"' {
                    find_close_from(t, k + 1, ScanMode::InString)
                } else if t[k] == '#' {
                    find_close_from(t, k + 1, ScanMode::InComment)
                } else {
                    find_close_from(t, k + 1, ScanMode::Plain)
                }
            },
            ScanMode::InString => {
                if t[k] == '"' {
                    find_close_from(t, k + 1, ScanMode::Plain)
                } else {
                    find_close_from(t, k + 1, ScanMode::InString)
                }
            },
            ScanMode::InComment => {
                if t[k] == '\n' {
                    find_close_from(t, k + 1, ScanMode::Plain)
                } else {
                    find_close_from(t, k + 1, ScanMode::InComment)
                }
            },
        }
    }
}

/// Whether `pat` occurs in `t` somewhere within `[lo, hi)`.
pub open spec fn occurs_within(t: Seq<char>, pat: Seq<char>, lo: int, hi: int) -> bool {
    exists|i: int|
        lo <= i && i + pat.len() <= hi && #[trigger] t.subrange(i, i + pat.len() as int) == pat
}

/// The last position in `[lo, hi)` holding a non-whitespace, non-linebreak
/// character, if any.
pub open spec fn last_solid(t: Seq<char>, lo: int, hi: int) -> Option<int>
    decreases hi - lo,
{
    if lo >= hi || hi > t.len() || hi <= 0 {
        None
    } else if !(is_ws(t[hi - 1]) || t[hi - 1] == '\n' || t[hi - 1] == '\r') {
        Some(hi - 1)
    } else {
        last_solid(t, lo, hi - 1)
    }
}

/// `value` surrounded by double quotes.
pub open spec fn quoted(value: Seq<char>) -> Seq<char> {
    seq!['"'] + value + seq!['"']
}

/// Where and what [`spec_add_to_feature`] splices: the insertion position
/// and the inserted characters, for a list spanning `(op, cl)`.
pub open spec fn insertion(t: Seq<char>, op: int, cl: int, value: Seq<char>) -> (int, Seq<char>) {
    match last_solid(t, op + 1, cl) {
        None => (op + 1, quoted(value)),
        Some(ls) => {
            if t[ls] == ',' {
                (ls + 1, seq![' '] + quoted(value))
            } else {
                (ls + 1, seq![',', ' '] + quoted(value))
            }
        },
    }
}

/// `t` with `ins` spliced in at position `p`: everything else is kept, in
/// order.
pub open spec fn splice(t: Seq<char>, p: int, ins: Seq<char>) -> Seq<char> {
    t.subrange(0, p) + ins + t.subrange(p, t.len() as int)
}

/// The whole edit as a function of the document text: locate the table, the
/// entry, the list span; keep the text as it is when the quoted value
/// already occurs in the span, else splice the value in front of the
/// closing bracket.
pub open spec fn spec_add_to_feature(t: Seq<char>, feature: Seq<char>, value: Seq<char>) -> Result<
    Seq<char>,
    EditError,
> {
    match find_header_from(t, 0) {
        None => Err(EditError::FeatureNotFound),
        Some(hk) => {
            let body = line_end(t, hk) + 1;
            match find_entry_from(t, feature, body) {
                None => Err(EditError::FeatureNotFound),
                Some(ek) => {
                    let e = line_end(t, ek);
                    let fs = skip_ws(t, ek, e);
                    let ep = skip_ws(t, fs + feature.len() as int, e);
                    match index_of_from(t, '[', ep + 1) {
                        None => Err(EditError::FeatureNotFound),
                        Some(op) => {
                            if op >= e {
                                // The entry's value must open its list on
                                // the entry line itself; anything else is
                                // not a feature list.
                                Err(EditError::FeatureNotFound)
                            } else {
                                match find_close_from(t, op + 1, ScanMode::Plain) {
                                    None => Err(EditError::FeatureNotFound),
                                    Some(cl) => {
                                        if occurs_within(t, quoted(value), op + 1, cl) {
                                            Ok(t)
                                        } else {
                                            let (p, ins) = insertion(t, op, cl, value);
                                            Ok(splice(t, p, ins))
                                        }
                                    },
                                }
                            }
                        },
                    }
                },
            }
        },
    }
}

/// Law (idempotence, detection half): when the quoted value already occurs
/// in the feature's list span, the edit hands the text back unchanged.
pub proof fn lemma_add_present_unchanged(t: Seq<char>, feature: Seq<char>, value: Seq<char>)
    requires
        spec_add_to_feature(t, feature, value) is Ok,
        ({
            let hk = find_header_from(t, 0).unwrap();
            let ek = find_entry_from(t, feature, line_end(t, hk) + 1).unwrap();
            let e = line_end(t, ek);
            let fs = skip_ws(t, ek, e);
            let ep = skip_ws(t, fs + feature.len() as int, e);
            let op = index_of_from(t, '[', ep + 1).unwrap();
            let cl = find_close_from(t, op + 1, ScanMode::Plain).unwrap();
            occurs_within(t, quoted(value), op + 1, cl)
        }),
    ensures
        spec_add_to_feature(t, feature, value) == Ok::<Seq<char>, EditError>(t),
{
}

/// Law (format preservation): a successful edit either leaves the text
/// unchanged or splices one run of characters into it at one position;
/// every character outside that run is kept, in order.
pub proof fn lemma_add_to_feature_splice(t: Seq<char>, feature: Seq<char>, value: Seq<char>)
    requires
        spec_add_to_feature(t, feature, value) is Ok,
    ensures
        ({
            let t2 = spec_add_to_feature(t, feature, value).unwrap();
            t2 == t || exists|p: int, ins: Seq<char>|
                0 <= p <= t.len() && t2 == #[trigger] splice(t, p, ins)
        }),
{
    let r = spec_add_to_feature(t, feature, value);
    let t2 = r.unwrap();
    if t2 != t {
        let hk = find_header_from(t, 0).unwrap();
        let ek = find_entry_from(t, feature, line_end(t, hk) + 1).unwrap();
        let e = line_end(t, ek);
        let fs = skip_ws(t, ek, e);
        let ep = skip_ws(t, fs + feature.len() as int, e);
        let op = index_of_from(t, '[', ep + 1).unwrap();
        let cl = find_close_from(t, op + 1, ScanMode::Plain).unwrap();
        let (p, ins) = insertion(t, op, cl, value);
        lemma_index_of_bounds(t, '[', ep + 1);
        lemma_close_bounds(t, op + 1, ScanMode::Plain);
        if last_solid(t, op + 1, cl) is Some {
            lemma_last_solid_bounds(t, op + 1, cl);
        }
        assert(t2 == splice(t, p, ins));
    }
}

/// A found `[` position is in range.
proof fn lemma_index_of_bounds(t: Seq<char>, c: char, k: int)
    requires
        index_of_from(t, c, k) is Some,
    ensures
        0 <= index_of_from(t, c, k).unwrap() < t.len(),
        k <= index_of_from(t, c, k).unwrap(),
    decreases t.len() - k,
{
    if !(k < 0 || k >= t.len()) && t[k] != c {
        lemma_index_of_bounds(t, c, k + 1);
    }
}

/// A found closing bracket is in range.
proof fn lemma_close_bounds(t: Seq<char>, k: int, mode: ScanMode)
    requires
        find_close_from(t, k, mode) is Some,
    ensures
        0 <= find_close_from(t, k, mode).unwrap() < t.len(),
        k <= find_close_from(t, k, mode).unwrap(),
    decreases t.len() - k,
{
    if !(k < 0 || k >= t.len()) {
        match mode {
            ScanMode::Plain => {
                if t[k] == ']' {
                } else if t[k] == '"' {
                    lemma_close_bounds(t, k + 1, ScanMode::InString);
                } else if t[k] == '#' {
                    lemma_close_bounds(t, k + 1, ScanMode::InComment);
                } else {
                    lemma_close_bounds(t, k + 1, ScanMode::Plain);
                }
            },
            ScanMode::InString => {
                if t[k] == '"' {
                    lemma_close_bounds(t, k + 1, ScanMode::Plain);
                } else {
                    lemma_close_bounds(t, k + 1, ScanMode::InString);
                }
            },
            ScanMode::InComment => {
                if t[k] == '\n' {
                    lemma_close_bounds(t, k + 1, ScanMode::Plain);
                } else {
                    lemma_close_bounds(t, k + 1, ScanMode::InComment);
                }
            },
        }
    }
}

/// A found last solid position is in range.
proof fn lemma_last_solid_bounds(t: Seq<char>, lo: int, hi: int)
    requires
        last_solid(t, lo, hi) is Some,
    ensures
        lo <= last_solid(t, lo, hi).unwrap() < hi,
        last_solid(t, lo, hi).unwrap() < t.len(),
    decreases hi - lo,
{
    if !(lo >= hi || hi > t.len() || hi <= 0) && (is_ws(t[hi - 1]) || t[hi - 1] == '\n' || t[hi - 1]
        == '\r') {
        lemma_last_solid_bounds(t, lo, hi - 1);
    }
}

/// How the spliced text relates to the original around position `p`: the
/// prefix is kept, the suffix is shifted by `L`.
pub open spec fn splice_agrees(t: Seq<char>, t2: Seq<char>, p: int, L: int) -> bool {
    &&& 0 <= p <= t.len()
    &&& L >= 0
    &&& t2.len() == t.len() + L
    &&& (forall|x: int| 0 <= x < p ==> t2[x] == t[x])
    &&& (forall|x: int| p <= x < t.len() ==> t2[x + L] == #[trigger] t[x])
}

/// A splice agrees with its original, and holds the inserted characters at
/// the insertion position.
proof fn lemma_splice_shape(t: Seq<char>, p: int, ins: Seq<char>)
    requires
        0 <= p <= t.len(),
    ensures
        splice_agrees(t, splice(t, p, ins), p, ins.len() as int),
        forall|x: int| 0 <= x < ins.len() ==> splice(t, p, ins)[p + x] == #[trigger] ins[x],
{
    let t2 = splice(t, p, ins);
    assert(t2.len() == t.len() + ins.len());
    assert forall|x: int| 0 <= x < p implies t2[x] == t[x] by {
        assert(t2[x] == t.subrange(0, p)[x]);
    }
    assert forall|x: int| p <= x < t.len() implies t2[x + ins.len()] == #[trigger] t[x] by {
        assert(t2[x + ins.len()] == t.subrange(p, t.len() as int)[x - p]);
    }
    assert forall|x: int| 0 <= x < ins.len() implies t2[p + x] == #[trigger] ins[x] by {
    }
}

/// A character scan whose hit lies before the splice point is unchanged.
proof fn lemma_index_prefix_stable(t: Seq<char>, t2: Seq<char>, p: int, L: int, c: char, k: int)
    requires
        splice_agrees(t, t2, p, L),
        0 <= k,
        index_of_from(t, c, k) is Some,
        index_of_from(t, c, k).unwrap() < p,
    ensures
        index_of_from(t2, c, k) == index_of_from(t, c, k),
    decreases t.len() - k,
{
    let m = index_of_from(t, c, k).unwrap();
    crate::text::lemma_index_of_from_some(t, c, k, m);
    if t[k] != c {
        lemma_index_prefix_stable(t, t2, p, L, c, k + 1);
    }
}

/// A scan may skip over a stretch that does not hold its character.
proof fn lemma_index_skip(u: Seq<char>, c: char, a: int, b: int)
    requires
        0 <= a <= b <= u.len(),
        forall|x: int| a <= x < b ==> u[x] != c,
    ensures
        index_of_from(u, c, a) == index_of_from(u, c, b),
    decreases b - a,
{
    if a < b {
        lemma_index_skip(u, c, a + 1, b);
    }
}

/// A character scan starting at or after the splice point finds the shifted
/// hit of the original scan.
proof fn lemma_index_shifted(t: Seq<char>, t2: Seq<char>, p: int, L: int, c: char, y: int)
    requires
        splice_agrees(t, t2, p, L),
        p <= y <= t.len(),
    ensures
        index_of_from(t2, c, y + L) == match index_of_from(t, c, y) {
            Some(m) => Some(m + L),
            None => None,
        },
    decreases t.len() - y,
{
    if y < t.len() {
        assert(t2[y + L] == t[y]);
        if t[y] != c {
            lemma_index_shifted(t, t2, p, L, c, y + 1);
        }
    }
}

/// A whitespace skip that stops before the splice point is unchanged, under
/// any bound that still covers its stop position.
proof fn lemma_skip_ws_stable(t: Seq<char>, t2: Seq<char>, p: int, L: int, k: int, e: int, e2: int)
    requires
        splice_agrees(t, t2, p, L),
        0 <= k,
        e <= t.len(),
        e2 <= t2.len(),
        skip_ws(t, k, e) < e,
        skip_ws(t, k, e) < p,
        skip_ws(t, k, e) < e2,
    ensures
        skip_ws(t2, k, e2) == skip_ws(t, k, e),
    decreases e - k,
{
    let fs = skip_ws(t, k, e);
    lemma_skip_ws_bounds(t, k, e);
    if k < e && k < t.len() && is_ws(t[k]) {
        lemma_skip_ws_stable(t, t2, p, L, k + 1, e, e2);
        lemma_skip_ws_bounds(t, k + 1, e);
        assert(k < fs < p);
        assert(t2[k] == t[k]);
        assert(k < e2 && k < t2.len() && is_ws(t2[k]));
        assert(skip_ws(t2, k, e2) == skip_ws(t2, k + 1, e2));
    } else {
        assert(fs == k);
        assert(t2[k] == t[k]);
        assert(skip_ws(t2, k, e2) == k);
    }
}

/// A whitespace skip lands at its bound, or between its start and bound.
proof fn lemma_skip_ws_bounds(t: Seq<char>, k: int, e: int)
    ensures
        skip_ws(t, k, e) == e || k <= skip_ws(t, k, e) < e,
    decreases e - k,
{
    if !(k < 0 || k >= e || k >= t.len()) && is_ws(t[k]) {
        lemma_skip_ws_bounds(t, k + 1, e);
    }
}

/// A whitespace skip that exhausts a bound lying at or before the splice
/// point is unchanged.
proof fn lemma_skip_ws_exhaust_stable(t: Seq<char>, t2: Seq<char>, p: int, L: int, k: int, e: int)
    requires
        splice_agrees(t, t2, p, L),
        0 <= k,
        e <= p,
        skip_ws(t, k, e) == e,
    ensures
        skip_ws(t2, k, e) == e,
    decreases e - k,
{
    if k < e && k < t.len() {
        assert(t2[k] == t[k]);
        if is_ws(t[k]) {
            lemma_skip_ws_exhaust_stable(t, t2, p, L, k + 1, e);
        }
    }
}

/// Everything after the last solid position, up to the bound, is blank.
proof fn lemma_last_solid_blank_tail(t: Seq<char>, lo: int, hi: int)
    requires
        0 <= lo,
        hi <= t.len(),
    ensures
        forall|x: int|
            (match last_solid(t, lo, hi) {
                Some(ls) => ls < x < hi,
                None => lo <= x < hi,
            }) ==> is_ws(#[trigger] t[x]) || t[x] == '\n' || t[x] == '\r',
    decreases hi - lo,
{
    if !(lo >= hi || hi > t.len() || hi <= 0) && (is_ws(t[hi - 1]) || t[hi - 1] == '\n' || t[hi - 1]
        == '\r') {
        lemma_last_solid_blank_tail(t, lo, hi - 1);
    }
}

/// At every position between a bracket scan's start and its hit there is an
/// intermediate scanner state from which the scan still finds the hit.
proof fn lemma_close_cut(t: Seq<char>, x: int, mode: ScanMode, m: int, y: int)
    requires
        find_close_from(t, x, mode) == Some(m),
        x <= y <= m,
    ensures
        exists|s2: ScanMode| find_close_from(t, y, s2) == Some(m),
    decreases y - x,
{
    if y == x {
        assert(find_close_from(t, y, mode) == Some(m));
    } else {
        lemma_close_bounds(t, x, mode);
        match mode {
            ScanMode::Plain => {
                if t[x] == '"' {
                    lemma_close_cut(t, x + 1, ScanMode::InString, m, y);
                } else if t[x] == '#' {
                    lemma_close_cut(t, x + 1, ScanMode::InComment, m, y);
                } else {
                    lemma_close_cut(t, x + 1, ScanMode::Plain, m, y);
                }
            },
            ScanMode::InString => {
                if t[x] == '"' {
                    lemma_close_cut(t, x + 1, ScanMode::Plain, m, y);
                } else {
                    lemma_close_cut(t, x + 1, ScanMode::InString, m, y);
                }
            },
            ScanMode::InComment => {
                if t[x] == '\n' {
                    lemma_close_cut(t, x + 1, ScanMode::Plain, m, y);
                } else {
                    lemma_close_cut(t, x + 1, ScanMode::InComment, m, y);
                }
            },
        }
    }
}

/// An in-string scan passes over anything that is not a quote.
proof fn lemma_close_run_instring(t: Seq<char>, x: int, m: int)
    requires
        0 <= x <= m <= t.len(),
        forall|z: int| x <= z < m ==> t[z] != '"',
    ensures
        find_close_from(t, x, ScanMode::InString) == find_close_from(t, m, ScanMode::InString),
    decreases m - x,
{
    if x < m {
        lemma_close_run_instring(t, x + 1, m);
    }
}

/// An in-comment scan passes over anything that is not a line break.
proof fn lemma_close_run_incomment(t: Seq<char>, x: int, m: int)
    requires
        0 <= x <= m <= t.len(),
        forall|z: int| x <= z < m ==> t[z] != '\n',
    ensures
        find_close_from(t, x, ScanMode::InComment) == find_close_from(t, m, ScanMode::InComment),
    decreases m - x,
{
    if x < m {
        lemma_close_run_incomment(t, x + 1, m);
    }
}

/// The bracket scan of the spliced text's shifted suffix mirrors the
/// original scan.
proof fn lemma_close_shifted(t: Seq<char>, t2: Seq<char>, p: int, L: int, y: int, mode: ScanMode)
    requires
        splice_agrees(t, t2, p, L),
        p <= y <= t.len(),
    ensures
        find_close_from(t2, y + L, mode) == match find_close_from(t, y, mode) {
            Some(m) => Some(m + L),
            None => None,
        },
    decreases t.len() - y,
{
    if y < t.len() {
        assert(t2[y + L] == t[y]);
        match mode {
            ScanMode::Plain => {
                if t[y] == ']' {
                } else if t[y] == '"' {
                    lemma_close_shifted(t, t2, p, L, y + 1, ScanMode::InString);
                } else if t[y] == '#' {
                    lemma_close_shifted(t, t2, p, L, y + 1, ScanMode::InComment);
                } else {
                    lemma_close_shifted(t, t2, p, L, y + 1, ScanMode::Plain);
                }
            },
            ScanMode::InString => {
                if t[y] == '"' {
                    lemma_close_shifted(t, t2, p, L, y + 1, ScanMode::Plain);
                } else {
                    lemma_close_shifted(t, t2, p, L, y + 1, ScanMode::InString);
                }
            },
            ScanMode::InComment => {
                if t[y] == '\n' {
                    lemma_close_shifted(t, t2, p, L, y + 1, ScanMode::Plain);
                } else {
                    lemma_close_shifted(t, t2, p, L, y + 1, ScanMode::InComment);
                }
            },
        }
    }
}

/// Transports the bracket scan across the unchanged prefix of a splice:
/// whenever every state arriving at the splice point carries the scan to
/// the shifted hit, so does every start before it.
proof fn lemma_close_prefix(
    t: Seq<char>,
    t2: Seq<char>,
    p: int,
    L: int,
    y: int,
    mode: ScanMode,
    cl: int,
)
    requires
        splice_agrees(t, t2, p, L),
        0 <= y <= p,
        find_close_from(t, y, mode) == Some(cl),
        p <= cl,
        forall|s2: ScanMode|
            find_close_from(t, p, s2) == Some(cl) ==> #[trigger] find_close_from(t2, p, s2)
                == Some(cl + L),
    ensures
        find_close_from(t2, y, mode) == Some(cl + L),
    decreases p - y,
{
    if y == p {
        assert(find_close_from(t2, p, mode) == Some(cl + L));
    } else {
        lemma_close_bounds(t, y, mode);
        assert(y < p <= cl < t.len());
        assert(t2[y] == t[y]);
        match mode {
            ScanMode::Plain => {
                if t[y] == ']' {
                    assert(false);
                } else if t[y] == '"' {
                    lemma_close_prefix(t, t2, p, L, y + 1, ScanMode::InString, cl);
                } else if t[y] == '#' {
                    lemma_close_prefix(t, t2, p, L, y + 1, ScanMode::InComment, cl);
                } else {
                    lemma_close_prefix(t, t2, p, L, y + 1, ScanMode::Plain, cl);
                }
            },
            ScanMode::InString => {
                if t[y] == '"' {
                    lemma_close_prefix(t, t2, p, L, y + 1, ScanMode::Plain, cl);
                } else {
                    lemma_close_prefix(t, t2, p, L, y + 1, ScanMode::InString, cl);
                }
            },
            ScanMode::InComment => {
                if t[y] == '\n' {
                    lemma_close_prefix(t, t2, p, L, y + 1, ScanMode::Plain, cl);
                } else {
                    lemma_close_prefix(t, t2, p, L, y + 1, ScanMode::InComment, cl);
                }
            },
        }
    }
}

/// A found header line has the header shape and lies at or after the scan
/// start.
proof fn lemma_find_header_some(t: Seq<char>, k: int, i: int)
    requires
        find_header_from(t, k) == Some(i),
    ensures
        is_header_line(t, i),
        k <= i < t.len(),
    decreases t.len() - k,
{
    if !(k < 0 || k >= t.len()) && !is_header_line(t, k) && line_end(t, k) + 1 <= t.len() {
        lemma_line_end_bounds(t, k);
        lemma_find_header_some(t, line_end(t, k) + 1, i);
    }
}

/// A line that ends before the splice point reads the same in the spliced
/// text: same end, same header, entry and table-start shape.
proof fn lemma_line_stable(t: Seq<char>, t2: Seq<char>, p: int, L: int, k: int, feature: Seq<char>)
    requires
        splice_agrees(t, t2, p, L),
        0 <= k <= line_end(t, k),
        line_end(t, k) < p,
    ensures
        line_end(t2, k) == line_end(t, k),
        is_header_line(t2, k) == is_header_line(t, k),
        is_entry_line(t2, k, feature) == is_entry_line(t, k, feature),
        is_table_start(t2, k) == is_table_start(t, k),
{
    let e = line_end(t, k);
    assert(line_end(t2, k) == e) by {
        // A line end strictly below the text length is a real line break.
        assert(index_of_from(t, '\n', k) == Some(e));
        lemma_index_prefix_stable(t, t2, p, L, '\n', k);
    }
    let fs = skip_ws(t, k, e);
    lemma_skip_ws_bounds(t, k, e);
    assert(skip_ws(t2, k, e) == fs) by {
        if fs == e {
            lemma_skip_ws_exhaust_stable(t, t2, p, L, k, e);
        } else {
            lemma_skip_ws_stable(t, t2, p, L, k, e, e);
        }
    }
    // Header shape.
    if fs + features_header().len() <= e {
        assert(t2.subrange(fs, fs + features_header().len() as int) =~= t.subrange(
            fs,
            fs + features_header().len() as int,
        ));
        let after = skip_ws(t, fs + features_header().len() as int, e);
        lemma_skip_ws_bounds(t, fs + features_header().len() as int, e);
        assert(skip_ws(t2, fs + features_header().len() as int, e) == after) by {
            if after == e {
                lemma_skip_ws_exhaust_stable(t, t2, p, L, fs + features_header().len() as int, e);
            } else {
                lemma_skip_ws_stable(t, t2, p, L, fs + features_header().len() as int, e, e);
            }
        }
    }
    // Entry shape.
    if feature.len() > 0 && fs + feature.len() <= e {
        assert(t2.subrange(fs, fs + feature.len() as int) =~= t.subrange(
            fs,
            fs + feature.len() as int,
        ));
        let ep = skip_ws(t, fs + feature.len() as int, e);
        lemma_skip_ws_bounds(t, fs + feature.len() as int, e);
        assert(skip_ws(t2, fs + feature.len() as int, e) == ep) by {
            if ep == e {
                lemma_skip_ws_exhaust_stable(t, t2, p, L, fs + feature.len() as int, e);
            } else {
                lemma_skip_ws_stable(t, t2, p, L, fs + feature.len() as int, e, e);
            }
        }
        if ep < e {
            assert(t2[ep] == t[ep]);
        }
    }
    // Table-start shape.
    if fs < e {
        assert(t2[fs] == t[fs]);
    }
}

/// The header search of the spliced text stops at the original header, as
/// long as the header line ends before the splice point.
proof fn lemma_find_header_stable(t: Seq<char>, t2: Seq<char>, p: int, L: int, k: int, hk: int)
    requires
        splice_agrees(t, t2, p, L),
        0 <= k,
        find_header_from(t, k) == Some(hk),
        line_end(t, hk) < p,
    ensures
        find_header_from(t2, k) == Some(hk),
    decreases t.len() - k,
{
    lemma_find_header_some(t, k, hk);
    lemma_line_end_bounds(t, k);
    if is_header_line(t, k) {
        lemma_line_stable(t, t2, p, L, k, Seq::empty());
    } else {
        assert(line_end(t, k) + 1 <= t.len());
        lemma_find_header_some(t, line_end(t, k) + 1, hk);
        assert(line_end(t, k) < hk);
        lemma_line_end_bounds(t, hk);
        lemma_line_stable(t, t2, p, L, k, Seq::empty());
        lemma_find_header_stable(t, t2, p, L, line_end(t, k) + 1, hk);
    }
}

/// The entry search of the spliced text stops at the original entry line,
/// as long as the entry's name and `=` stand before the splice point and
/// the splice inserts no line break; the entry line's end shifts when the
/// splice lands on it.
proof fn lemma_find_entry_stable(
    t: Seq<char>,
    t2: Seq<char>,
    p: int,
    L: int,
    k: int,
    ek: int,
    feature: Seq<char>,
)
    requires
        splice_agrees(t, t2, p, L),
        0 <= k,
        find_entry_from(t, feature, k) == Some(ek),
        ek < p,
        skip_ws(t, skip_ws(t, ek, line_end(t, ek)) + feature.len(), line_end(t, ek)) < p,
        forall|x: int| p <= x < p + L ==> t2[x] != '\n',
    ensures
        find_entry_from(t2, feature, k) == Some(ek),
        line_end(t2, ek) == if line_end(t, ek) < p {
            line_end(t, ek)
        } else {
            line_end(t, ek) + L
        },
    decreases t.len() - k,
{
    lemma_find_entry_some(t, feature, k, ek);
    lemma_line_end_bounds(t, k);
    if is_entry_line(t, k, feature) {
        assert(k == ek);
        let e = line_end(t, ek);
        let fs = skip_ws(t, ek, e);
        let ep = skip_ws(t, fs + feature.len() as int, e);
        lemma_skip_ws_bounds(t, ek, e);
        lemma_skip_ws_bounds(t, fs + feature.len() as int, e);
        assert(ek <= fs && fs + feature.len() <= ep < e);
        assert(fs < p && fs + feature.len() <= p);
        if e < p {
            lemma_line_stable(t, t2, p, L, ek, feature);
        } else {
            // The splice lands on the entry line: its end shifts by the
            // insertion length, everything up to the `=` is unchanged.
            lemma_line_end_bounds(t, ek);
            assert(line_end(t2, ek) == e + L) by {
                if e < t.len() {
                    assert(index_of_from(t, '\n', ek) == Some(e));
                    crate::text::lemma_index_of_from_some(t, '\n', ek, e);
                    assert(forall|x: int| ek <= x < p ==> t2[x] == t[x] && t[x] != '\n');
                    lemma_index_skip(t2, '\n', ek, p);
                    lemma_index_skip(t2, '\n', p, p + L);
                    lemma_index_skip(t, '\n', p, e);
                    assert(index_of_from(t, '\n', e) == Some(e));
                    lemma_index_shifted(t, t2, p, L, '\n', p);
                } else {
                    if index_of_from(t, '\n', ek) is Some {
                        crate::text::lemma_index_of_from_some(
                            t,
                            '\n',
                            ek,
                            index_of_from(t, '\n', ek).unwrap(),
                        );
                    }
                    assert(index_of_from(t, '\n', ek) is None);
                    crate::text::lemma_index_of_from_none(t, '\n', ek);
                    assert(forall|x: int| ek <= x < p ==> t2[x] == t[x] && t[x] != '\n');
                    lemma_index_skip(t2, '\n', ek, p);
                    lemma_index_skip(t2, '\n', p, p + L);
                    lemma_index_skip(t, '\n', p, e);
                    lemma_index_shifted(t, t2, p, L, '\n', p);
                }
            }
            assert(skip_ws(t2, ek, e + L) == fs) by {
                lemma_skip_ws_stable(t, t2, p, L, ek, e, e + L);
            }
            assert(t2.subrange(fs, fs + feature.len() as int) =~= t.subrange(
                fs,
                fs + feature.len() as int,
            ));
            assert(skip_ws(t2, fs + feature.len() as int, e + L) == ep) by {
                lemma_skip_ws_stable(t, t2, p, L, fs + feature.len() as int, e, e + L);
            }
            assert(t2[ep] == t[ep]);
            assert(is_entry_line(t2, ek, feature));
        }
    } else {
        assert(!is_table_start(t, k));
        assert(line_end(t, k) + 1 <= t.len());
        lemma_find_entry_some(t, feature, line_end(t, k) + 1, ek);
        assert(line_end(t, k) < ek);
        lemma_line_stable(t, t2, p, L, k, feature);
        lemma_find_entry_stable(t, t2, p, L, line_end(t, k) + 1, ek, feature);
    }
}

/// A plain bracket scan passes over one whole quoted string.
proof fn lemma_cross_quoted(u: Seq<char>, a: int, vlen: int)
    requires
        0 <= a,
        vlen >= 0,
        a + vlen + 2 <= u.len(),
        u[a] == '"',
        u[a + vlen + 1] == '"',
        forall|x: int| a + 1 <= x < a + 1 + vlen ==> u[x] != '"',
    ensures
        find_close_from(u, a, ScanMode::Plain) == find_close_from(
            u,
            a + vlen + 2,
            ScanMode::Plain,
        ),
{
    lemma_close_run_instring(u, a + 1, a + 1 + vlen);
}

/// Law (idempotent fix): applying the same edit twice is applying it once.
/// The second application scans the once-edited text, finds the quoted
/// value already in the feature's list, and hands the text back unchanged.
/// The value must carry no quote and no line break, which no `name/feature`
/// value does.
#[verifier::rlimit(100)]
#[verifier::spinoff_prover]
pub proof fn lemma_add_to_feature_idempotent(t: Seq<char>, feature: Seq<char>, value: Seq<char>)
    requires
        spec_add_to_feature(t, feature, value) is Ok,
        forall|i: int| 0 <= i < value.len() ==> value[i] != '"' && value[i] != '\n',
    ensures
        spec_add_to_feature(spec_add_to_feature(t, feature, value).unwrap(), feature, value)
            == spec_add_to_feature(t, feature, value),
{
    let t2 = spec_add_to_feature(t, feature, value).unwrap();
    if t2 != t {
        let hk = find_header_from(t, 0).unwrap();
        let body = line_end(t, hk) + 1;
        let ek = find_entry_from(t, feature, body).unwrap();
        let e = line_end(t, ek);
        let fs = skip_ws(t, ek, e);
        let ep = skip_ws(t, fs + feature.len() as int, e);
        let op = index_of_from(t, '[', ep + 1).unwrap();
        let cl = find_close_from(t, op + 1, ScanMode::Plain).unwrap();
        let (pi, ins) = insertion(t, op, cl, value);
        let L = ins.len() as int;
        let vlen = value.len() as int;
        assert(t2 == splice(t, pi, ins));
        // Positions line up: header line, entry line, name, `=`, bracket,
        // closing bracket, insertion point, in that order.
        lemma_find_header_some(t, 0, hk);
        lemma_line_end_bounds(t, hk);
        lemma_find_entry_some(t, feature, body, ek);
        lemma_line_end_bounds(t, ek);
        lemma_skip_ws_bounds(t, ek, e);
        lemma_skip_ws_bounds(t, fs + feature.len() as int, e);
        crate::text::lemma_index_of_from_some(t, '[', ep + 1, op);
        lemma_close_bounds(t, op + 1, ScanMode::Plain);
        if last_solid(t, op + 1, cl) is Some {
            lemma_last_solid_bounds(t, op + 1, cl);
        }
        assert(op + 1 <= pi <= cl);
        assert(ek <= fs && fs + feature.len() <= ep && ep < e);
        assert(op < e);
        assert(0 <= pi <= t.len());
        lemma_splice_shape(t, pi, ins);
        assert(splice_agrees(t, t2, pi, L));
        // The inserted run is a lead of list punctuation followed by the
        // quoted value.
        let leadlen = L - vlen - 2;
        assert(0 <= leadlen <= 2 && ins.subrange(leadlen, L) == quoted(value) && (forall|x: int|
            0 <= x < leadlen ==> ins[x] == ',' || ins[x] == ' ')) by {
            match last_solid(t, op + 1, cl) {
                None => {
                    assert(ins =~= quoted(value));
                    assert(ins.subrange(0, L) =~= ins);
                },
                Some(ls) => {
                    if t[ls] == ',' {
                        assert(ins =~= seq![' '] + quoted(value));
                        assert(ins.subrange(1, L) =~= quoted(value));
                    } else {
                        assert(ins =~= seq![',', ' '] + quoted(value));
                        assert(ins.subrange(2, L) =~= quoted(value));
                    }
                },
            }
        }
        assert(forall|x: int|
            leadlen <= x < L ==> #[trigger] ins[x] == quoted(value)[x - leadlen]);
        assert(ins[leadlen] == '"' && ins[L - 1] == '"');
        assert(forall|x: int| leadlen + 1 <= x < L - 1 ==> ins[x] == value[x - leadlen - 1]);
        assert(forall|x: int| 0 <= x < L ==> ins[x] != '\n');
        assert(forall|x: int| pi <= x < pi + L ==> t2[x] == ins[x - pi]);
        assert(forall|x: int| pi <= x < pi + L ==> t2[x] != '\n');
        // Everything between the insertion point and the closing bracket is
        // blank.
        lemma_last_solid_blank_tail(t, op + 1, cl);
        assert(forall|z: int|
            pi <= z < cl ==> is_ws(#[trigger] t[z]) || t[z] == '\n' || t[z] == '\r');
        // Whatever state the original scan holds at the insertion point,
        // the spliced scan passes over the insertion and finds the shifted
        // closing bracket.
        assert forall|s2: ScanMode|
            find_close_from(t, pi, s2) == Some(cl) implies #[trigger] find_close_from(t2, pi, s2)
            == Some(cl + L) by {
            lemma_close_shifted(t, t2, pi, L, pi, s2);
            match s2 {
                ScanMode::InString => {
                    // Impossible: only a quote leaves a string, and only
                    // blanks stand before the bracket, so the scan cannot
                    // stop at the bracket.
                    lemma_close_run_instring(t, pi, cl);
                    assert(find_close_from(t, cl, ScanMode::InString) == Some(cl));
                    if t[cl] == '"' {
                        if find_close_from(t, cl + 1, ScanMode::Plain) is Some {
                            lemma_close_bounds(t, cl + 1, ScanMode::Plain);
                        }
                    } else {
                        if find_close_from(t, cl + 1, ScanMode::InString) is Some {
                            lemma_close_bounds(t, cl + 1, ScanMode::InString);
                        }
                    }
                    assert(false);
                },
                ScanMode::Plain => {
                    lemma_cross_quoted(t2, pi + leadlen, vlen);
                    assert(find_close_from(t2, pi + leadlen, ScanMode::Plain)
                        == find_close_from(t2, pi + L, ScanMode::Plain));
                    if leadlen == 1 {
                        assert(t2[pi] == ',' || t2[pi] == ' ');
                        assert(find_close_from(t2, pi, ScanMode::Plain) == find_close_from(
                            t2,
                            pi + 1,
                            ScanMode::Plain,
                        ));
                    } else if leadlen == 2 {
                        assert(t2[pi] == ',' || t2[pi] == ' ');
                        assert(t2[pi + 1] == ',' || t2[pi + 1] == ' ');
                        assert(find_close_from(t2, pi, ScanMode::Plain) == find_close_from(
                            t2,
                            pi + 1,
                            ScanMode::Plain,
                        ));
                        assert(find_close_from(t2, pi + 1, ScanMode::Plain) == find_close_from(
                            t2,
                            pi + 2,
                            ScanMode::Plain,
                        ));
                    }
                },
                ScanMode::InComment => {
                    lemma_close_run_incomment(t2, pi, pi + L);
                },
            }
        }
        lemma_close_prefix(t, t2, pi, L, op + 1, ScanMode::Plain, cl);
        assert(find_close_from(t2, op + 1, ScanMode::Plain) == Some(cl + L));
        // The second scan finds the same header, entry, name and bracket.
        assert(line_end(t, hk) < pi);
        lemma_find_header_stable(t, t2, pi, L, 0, hk);
        lemma_line_stable(t, t2, pi, L, hk, feature);
        assert(line_end(t2, hk) + 1 == body);
        lemma_find_entry_stable(t, t2, pi, L, body, ek, feature);
        let e2 = line_end(t2, ek);
        assert(e2 == if e < pi {
            e
        } else {
            e + L
        });
        assert(e <= e2);
        assert(skip_ws(t2, ek, e2) == fs) by {
            lemma_skip_ws_stable(t, t2, pi, L, ek, e, e2);
        }
        assert(skip_ws(t2, fs + feature.len() as int, e2) == ep) by {
            lemma_skip_ws_stable(t, t2, pi, L, fs + feature.len() as int, e, e2);
        }
        assert(index_of_from(t2, '[', ep + 1) == Some(op)) by {
            lemma_index_prefix_stable(t, t2, pi, L, '[', ep + 1);
        }
        assert(op < e2);
        // The value now occurs in the list span, so the second edit keeps
        // the text as it is.
        assert(occurs_within(t2, quoted(value), op + 1, cl + L)) by {
            let i0 = pi + leadlen;
            assert(t2.subrange(i0, i0 + quoted(value).len() as int) =~= quoted(value));
            assert(op + 1 <= i0 && i0 + quoted(value).len() <= cl + L);
        }
        assert(spec_add_to_feature(t2, feature, value) == Ok::<Seq<char>, EditError>(t2));
    }
}

/// An in-memory manifest document: the file's text, edited in place and
/// handed back for the caller to persist.
pub struct AutoFixer {
    text: String,
}

impl View for AutoFixer {
    type V = Seq<char>;

    closed spec fn view(&self) -> Seq<char> {
        self.text@
    }
}

impl AutoFixer {
    /// Wraps the text of one manifest file.
    pub fn from_text(text: String) -> (r: AutoFixer)
        ensures
            r@ == text@,
    {
        AutoFixer { text }
    }

    /// The document's current text, for the caller to write back.
    pub fn text(&self) -> (r: &String)
        ensures
            r@ == self@,
    {
        &self.text
    }

    /// Appends `value` to the implication list of `feature` under the
    /// `[features]` table, preserving every other character: indentation,
    /// comments, key order and line breaks. A value already present is not
    /// appended twice; on failure the document is unchanged.
    pub fn add_to_feature(&mut self, feature: &String, value: &String) -> (r: Result<
        (),
        EditError,
    >)
        ensures
            match spec_add_to_feature(old(self)@, feature@, value@) {
                Ok(t2) => r is Ok && final(self)@ == t2,
                Err(_) => r is Err && final(self)@ == old(self)@,
            },
    {
        let ghost t = self.text@;
        let st = self.text.as_str();
        let n = st.unicode_len();
        let hk = match find_header(st) {
            Some(hk) => hk,
            None => {
                return Err(EditError::FeatureNotFound);
            },
        };
        let hle = exec_line_end(st, hk);
        if hle >= n {
            // The header is the last line: the entry scan starts past the
            // end and finds nothing.
            return Err(EditError::FeatureNotFound);
        }
        let body = hle + 1;
        let ek = match find_entry(st, feature, body) {
            Some(ek) => ek,
            None => {
                return Err(EditError::FeatureNotFound);
            },
        };
        let e = exec_line_end(st, ek);
        let fs = exec_skip_ws(st, ek, e);
        let flen = feature.as_str().unicode_len();
        let nstart = if flen > e - fs {
            e
        } else {
            fs + flen
        };
        proof {
            lemma_find_entry_some(t, feature@, body as int, ek as int);
            if flen > e - fs {
                // The entry-line shape guarantees the name fits on the line.
                assert(false);
            }
        }
        let ep = exec_skip_ws(st, nstart, e);
        if ep >= n {
            return Err(EditError::FeatureNotFound);
        }
        let op = match find_char_from(st, '[', ep + 1) {
            Some(op) => op,
            None => {
                return Err(EditError::FeatureNotFound);
            },
        };
        if op >= e {
            // The first bracket lies past the entry line: the entry's value
            // is not a list.
            return Err(EditError::FeatureNotFound);
        }
        let cl = match find_close(st, op + 1) {
            Some(cl) => cl,
            None => {
                return Err(EditError::FeatureNotFound);
            },
        };
        let q = make_quoted(value);
        if exec_occurs_within(st, &q, op + 1, cl) {
            return Ok(());
        }
        let (p, ins) = match exec_last_solid(st, op + 1, cl) {
            None => (op + 1, q),
            Some(ls) => {
                if st.get_char(ls) == ',' {
                    let mut lead: String = " ".to_owned();
                    lead.append(q.as_str());
                    proof {
                        reveal_strlit(" ");
                        assert(lead@ =~= seq![' '] + quoted(value@));
                    }
                    (ls + 1, lead)
                } else {
                    let mut lead: String = ", ".to_owned();
                    lead.append(q.as_str());
                    proof {
                        reveal_strlit(", ");
                        assert(lead@ =~= seq![',', ' '] + quoted(value@));
                    }
                    (ls + 1, lead)
                }
            },
        };
        proof {
            lemma_index_of_bounds(t, '[', ep + 1);
            lemma_close_bounds(t, op as int + 1, ScanMode::Plain);
            if last_solid(t, op as int + 1, cl as int) is Some {
                lemma_last_solid_bounds(t, op as int + 1, cl as int);
            }
            assert((p as int, ins@) == insertion(t, op as int, cl as int, value@));
        }
        let mut new_text = st.substring_char(0, p).to_owned();
        new_text.append(ins.as_str());
        new_text.append(st.substring_char(p, n));
        proof {
            assert(new_text@ =~= t.subrange(0, p as int) + ins@ + t.subrange(
                p as int,
                t.len() as int,
            ));
        }
        self.text = new_text;
        Ok(())
    }
}

/// Builds `"value"`.
fn make_quoted(value: &String) -> (r: String)
    ensures
        r@ == quoted(value@),
{
    let mut r: String = "\"".to_owned();
    r.append(value.as_str());
    r.append("\"");
    proof {
        reveal_strlit("\"");
        assert(r@ =~= quoted(value@));
    }
    r
}

/// The end of the line starting at `k`.
fn exec_line_end(s: &str, k: usize) -> (r: usize)
    requires
        k <= s@.len(),
    ensures
        r as int == line_end(s@, k as int),
        k <= r <= s@.len(),
{
    match find_char_from(s, '\n', k) {
        Some(e) => e,
        None => s.unicode_len(),
    }
}

/// The first non-whitespace position in `[k, e)`, or `e`.
fn exec_skip_ws(s: &str, k: usize, e: usize) -> (r: usize)
    requires
        e <= s@.len(),
    ensures
        r as int == skip_ws(s@, k as int, e as int),
        k <= r || r == e,
        r <= e,
    decreases e as int - k as int,
{
    let mut i: usize = k;
    while i < e
        invariant
            e <= s@.len(),
            k <= i,
            skip_ws(s@, k as int, e as int) == skip_ws(s@, i as int, e as int),
        decreases e - i,
    {
        let c = s.get_char(i);
        if !(c == ' ' || c == '\t') {
            return i;
        }
        i += 1;
    }
    e
}

/// Whether the line at `k` is the `[features]` header line.
fn exec_is_header_line(s: &str, k: usize) -> (r: bool)
    requires
        k <= s@.len(),
    ensures
        r == is_header_line(s@, k as int),
{
    let e = exec_line_end(s, k);
    let fs = exec_skip_ws(s, k, e);
    if e - fs < 10 {
        return false;
    }
    let piece = s.substring_char(fs, fs + 10).to_owned();
    let header: String = "[features]".to_owned();
    proof {
        reveal_strlit("[features]");
        assert(header@ =~= features_header());
    }
    if !piece.eq(&header) {
        return false;
    }
    let after = exec_skip_ws(s, fs + 10, e);
    after == e
}

/// Finds the first `[features]` header line at or after `k`.
fn find_header(s: &str) -> (r: Option<usize>)
    ensures
        match r {
            Some(i) => find_header_from(s@, 0) == Some(i as int) && i <= s@.len(),
            None => find_header_from(s@, 0) is None,
        },
{
    let n = s.unicode_len();
    let mut k: usize = 0;
    while k < n
        invariant
            n == s@.len(),
            find_header_from(s@, 0) == find_header_from(s@, k as int),
        decreases n - k,
    {
        if exec_is_header_line(s, k) {
            return Some(k);
        }
        let le = exec_line_end(s, k);
        if le >= n {
            return None;
        }
        k = le + 1;
    }
    None
}

/// Whether the line at `k` declares `feature`.
fn exec_is_entry_line(s: &str, k: usize, feature: &String) -> (r: bool)
    requires
        k <= s@.len(),
    ensures
        r == is_entry_line(s@, k as int, feature@),
{
    let e = exec_line_end(s, k);
    let fs = exec_skip_ws(s, k, e);
    let flen = feature.as_str().unicode_len();
    if flen == 0 || e - fs < flen {
        return false;
    }
    let piece = s.substring_char(fs, fs + flen).to_owned();
    if !piece.eq(feature) {
        return false;
    }
    let ep = exec_skip_ws(s, fs + flen, e);
    ep < e && s.get_char(ep) == '='
}

/// Whether the line at `k` opens a table.
fn exec_is_table_start(s: &str, k: usize) -> (r: bool)
    requires
        k <= s@.len(),
    ensures
        r == is_table_start(s@, k as int),
{
    let e = exec_line_end(s, k);
    let fs = exec_skip_ws(s, k, e);
    fs < e && s.get_char(fs) == '['
}

/// Finds the entry line for `feature` at or after `body`, stopping at the
/// next table.
fn find_entry(s: &str, feature: &String, body: usize) -> (r: Option<usize>)
    ensures
        match r {
            Some(i) => find_entry_from(s@, feature@, body as int) == Some(i as int) && i
                <= s@.len(),
            None => find_entry_from(s@, feature@, body as int) is None,
        },
{
    let n = s.unicode_len();
    let mut k: usize = body;
    while k < n
        invariant
            n == s@.len(),
            body <= k,
            find_entry_from(s@, feature@, body as int) == find_entry_from(s@, feature@, k as int),
        decreases n - k,
    {
        if exec_is_entry_line(s, k, feature) {
            return Some(k);
        }
        if exec_is_table_start(s, k) {
            return None;
        }
        let le = exec_line_end(s, k);
        if le >= n {
            return None;
        }
        k = le + 1;
    }
    None
}

/// Finds the `]` that closes the list opened just before `k`.
fn find_close(s: &str, k: usize) -> (r: Option<usize>)
    ensures
        match r {
            Some(i) => find_close_from(s@, k as int, ScanMode::Plain) == Some(i as int) && k <= i
                < s@.len(),
            None => find_close_from(s@, k as int, ScanMode::Plain) is None,
        },
{
    let n = s.unicode_len();
    let mut i: usize = k;
    let mut in_string = false;
    let mut in_comment = false;
    while i < n
        invariant
            n == s@.len(),
            k <= i,
            !(in_string && in_comment),
            find_close_from(s@, k as int, ScanMode::Plain) == find_close_from(
                s@,
                i as int,
                if in_string {
                    ScanMode::InString
                } else if in_comment {
                    ScanMode::InComment
                } else {
                    ScanMode::Plain
                },
            ),
        decreases n - i,
    {
        let c = s.get_char(i);
        if in_string {
            if c == '"' {
                in_string = false;
            }
        } else if in_comment {
            if c == '\n' {
                in_comment = false;
            }
        } else {
            if c == ']' {
                return Some(i);
            } else if c == '"' {
                in_string = true;
            } else if c == '#' {
                in_comment = true;
            }
        }
        i += 1;
    }
    None
}

/// Whether `pat` occurs in `s` within `[lo, hi)`.
fn exec_occurs_within(s: &str, pat: &String, lo: usize, hi: usize) -> (r: bool)
    requires
        lo <= hi <= s@.len(),
    ensures
        r == occurs_within(s@, pat@, lo as int, hi as int),
{
    let plen = pat.as_str().unicode_len();
    if hi - lo < plen {
        return false;
    }
    if plen == 0 {
        proof {
            assert(s@.subrange(lo as int, lo as int + pat@.len() as int) =~= pat@);
        }
        return true;
    }
    let last = hi - plen;
    let mut i: usize = lo;
    while i <= last
        invariant
            lo <= hi <= s@.len(),
            plen == pat@.len(),
            1 <= plen,
            last == hi - plen,
            lo <= i,
            forall|m: int|
                lo <= m < i ==> #[trigger] s@.subrange(m, m + pat@.len() as int) != pat@,
        decreases hi - i,
    {
        let piece = s.substring_char(i, i + plen).to_owned();
        if piece.eq(pat) {
            assert(s@.subrange(i as int, i as int + pat@.len() as int) == pat@);
            return true;
        }
        i += 1;
    }
    false
}

/// The last solid (non-whitespace, non-linebreak) position in `[lo, hi)`.
fn exec_last_solid(s: &str, lo: usize, hi: usize) -> (r: Option<usize>)
    requires
        hi <= s@.len(),
    ensures
        match r {
            Some(i) => last_solid(s@, lo as int, hi as int) == Some(i as int) && lo <= i < hi,
            None => last_solid(s@, lo as int, hi as int) is None,
        },
{
    let mut h: usize = hi;
    while h > lo
        invariant
            hi <= s@.len(),
            h <= hi,
            last_solid(s@, lo as int, hi as int) == last_solid(s@, lo as int, h as int),
        decreases h,
    {
        let c = s.get_char(h - 1);
        if !(c == ' ' || c == '\t' || c == '\n' || c == '\r') {
            return Some(h - 1);
        }
        h -= 1;
    }
    None
}

} // verus!
