//! Byte-level text utilities.
//!
//! The memory subsystem treats every document and message as a sequence of
//! UTF-8 bytes; all searching, trimming and case folding below is specified
//! exactly over `Seq<u8>` views. Whitespace and case folding are the ASCII
//! classes - the memory formats are ASCII-framed - while cuts respect
//! multi-byte character boundaries.

use vstd::prelude::*;
use vstd::string::StringSliceAdditionalSpecFns;
use vstd::string::StrSliceExecFns;

verus! {

/// ASCII whitespace: space, tab, line feed, form feed, carriage return.
pub open spec fn is_ws(b: u8) -> bool {
    b == 32 || b == 9 || b == 10 || b == 12 || b == 13
}

/// ASCII lowercase folding of one byte.
pub open spec fn lower8(b: u8) -> u8 {
    if 65 <= b && b <= 90 {
        (b + 32) as u8
    } else {
        b
    }
}

/// The pattern `pat` occurs in `s` starting at index `i`.
pub open spec fn match_at(s: Seq<u8>, pat: Seq<u8>, i: int) -> bool {
    &&& 0 <= i
    &&& i + pat.len() <= s.len()
    &&& s.subrange(i, i + pat.len() as int) == pat
}

/// `pat` occurs somewhere in `s`.
pub open spec fn contains_bytes(s: Seq<u8>, pat: Seq<u8>) -> bool {
    exists|i: int| match_at(s, pat, i)
}

/// Leftmost occurrence of `pat` in `s` at index `from` or later.
pub open spec fn find_from(s: Seq<u8>, pat: Seq<u8>, from: int) -> Option<int>
    decreases s.len() - from + 1
{
    if from < 0 {
        None
    } else if from + pat.len() > s.len() {
        None
    } else if match_at(s, pat, from) {
        Some(from)
    } else {
        find_from(s, pat, from + 1)
    }
}

/// Rightmost occurrence of `pat` in `s` at index `upto` or earlier.
pub open spec fn rfind_upto(s: Seq<u8>, pat: Seq<u8>, upto: int) -> Option<int>
    decreases upto + 1
{
    if upto < 0 {
        None
    } else if match_at(s, pat, upto) {
        Some(upto)
    } else {
        rfind_upto(s, pat, upto - 1)
    }
}

pub proof fn lemma_find_from_some(s: Seq<u8>, pat: Seq<u8>, from: int)
    requires
        find_from(s, pat, from) is Some,
    ensures
        match_at(s, pat, find_from(s, pat, from)->Some_0),
        find_from(s, pat, from)->Some_0 >= from,
        forall|j: int| from <= j < find_from(s, pat, from)->Some_0 ==> !match_at(s, pat, j),
    decreases s.len() - from + 1
{
    if from >= 0 && from + pat.len() <= s.len() && !match_at(s, pat, from) {
        lemma_find_from_some(s, pat, from + 1);
    }
}

pub proof fn lemma_find_from_none(s: Seq<u8>, pat: Seq<u8>, from: int)
    requires
        find_from(s, pat, from) is None,
        from >= 0,
    ensures
        forall|j: int| j >= from ==> !match_at(s, pat, j),
    decreases s.len() - from + 1
{
    if from + pat.len() <= s.len() && !match_at(s, pat, from) {
        lemma_find_from_none(s, pat, from + 1);
    }
}

pub proof fn lemma_rfind_upto_some(s: Seq<u8>, pat: Seq<u8>, upto: int)
    requires
        rfind_upto(s, pat, upto) is Some,
    ensures
        match_at(s, pat, rfind_upto(s, pat, upto)->Some_0),
        rfind_upto(s, pat, upto)->Some_0 <= upto,
        forall|j: int| rfind_upto(s, pat, upto)->Some_0 < j <= upto ==> !match_at(s, pat, j),
    decreases upto + 1
{
    if upto >= 0 && !match_at(s, pat, upto) {
        lemma_rfind_upto_some(s, pat, upto - 1);
    }
}

/// Copy the bytes of a string slice.
pub fn bytes_of(s: &str) -> (r: Vec<u8>)
    ensures
        r@ == s.spec_bytes(),
{
    s.as_bytes_vec()
}

/// Are two byte strings equal?
pub fn bytes_eq(a: &[u8], b: &[u8]) -> (r: bool)
    ensures
        r == (a@ == b@),
{
    if a.len() != b.len() {
        return false;
    }
    let mut i: usize = 0;
    while i < a.len()
        invariant
            a@.len() == b@.len(),
            i <= a@.len(),
            forall|j: int| 0 <= j < i ==> a@[j] == b@[j],
        decreases a@.len() - i,
    {
        if a[i] != b[i] {
            return false;
        }
        i = i + 1;
    }
    proof {
        assert(a@ =~= b@);
    }
    true
}

/// Append all of `src` to `dst`.
pub fn push_all(dst: &mut Vec<u8>, src: &[u8])
    ensures
        final(dst)@ == old(dst)@ + src@,
{
    let mut i: usize = 0;
    while i < src.len()
        invariant
            i <= src@.len(),
            dst@ == old(dst)@ + src@.subrange(0, i as int),
        decreases src@.len() - i,
    {
        dst.push(src[i]);
        proof {
            assert(old(dst)@ + src@.subrange(0, i + 1) =~= (old(dst)@ + src@.subrange(
                0,
                i as int,
            )).push(src@[i as int]));
        }
        i = i + 1;
    }
    proof {
        assert(src@.subrange(0, src@.len() as int) =~= src@);
    }
}

/// Copy `v[from..to]`.
pub fn sub_bytes(v: &[u8], from: usize, to: usize) -> (r: Vec<u8>)
    requires
        from <= to <= v@.len(),
    ensures
        r@ == v@.subrange(from as int, to as int),
{
    let mut r: Vec<u8> = Vec::new();
    let mut i: usize = from;
    while i < to
        invariant
            from <= i <= to <= v@.len(),
            r@ == v@.subrange(from as int, i as int),
        decreases to - i,
    {
        r.push(v[i]);
        proof {
            assert(r@ =~= v@.subrange(from as int, i + 1 as int));
        }
        i = i + 1;
    }
    r
}

/// Does `pat` occur in `s` at exactly index `i`?
fn eq_at(s: &[u8], pat: &[u8], i: usize) -> (r: bool)
    requires
        i + pat@.len() <= s@.len(),
    ensures
        r == match_at(s@, pat@, i as int),
{
    let slen: usize = s.len();
    let mut k: usize = 0;
    while k < pat.len()
        invariant
            slen == s@.len(),
            i + pat@.len() <= s@.len(),
            k <= pat@.len(),
            forall|j: int| 0 <= j < k ==> s@[i + j] == pat@[j],
        decreases pat@.len() - k,
    {
        if s[i + k] != pat[k] {
            proof {
                assert(s@.subrange(i as int, i + pat@.len() as int)[k as int] != pat@[k as int]);
            }
            return false;
        }
        k = k + 1;
    }
    proof {
        assert(s@.subrange(i as int, i + pat@.len() as int) =~= pat@);
    }
    true
}

/// Leftmost occurrence of `pat` in `s` at index `from` or later.
pub fn find_sub(s: &[u8], pat: &[u8], from: usize) -> (r: Option<usize>)
    ensures
        r is Some ==> Some(r->Some_0 as int) == find_from(s@, pat@, from as int),
        r is None ==> find_from(s@, pat@, from as int) is None,
{
    let mut i: usize = from;
    if pat.len() > s.len() {
        proof {
            lemma_find_from_no_room(s@, pat@, from as int);
        }
        return None;
    }
    let bound: usize = s.len() - pat.len();
    while i <= bound
        invariant
            pat@.len() <= s@.len(),
            bound == s@.len() - pat@.len(),
            find_from(s@, pat@, from as int) == find_from(s@, pat@, i as int),
        decreases bound + 1 - i,
    {
        if eq_at(s, pat, i) {
            return Some(i);
        }
        if i == bound {
            proof {
                assert(find_from(s@, pat@, i + 1) is None);
            }
            return None;
        }
        i = i + 1;
    }
    None
}

proof fn lemma_find_from_no_room(s: Seq<u8>, pat: Seq<u8>, from: int)
    requires
        pat.len() > s.len(),
        from >= 0,
    ensures
        find_from(s, pat, from) is None,
    decreases s.len() - from + 1
{
}

/// Rightmost occurrence of `pat` in `s` starting at index `upto` or earlier.
pub fn rfind_sub(s: &[u8], pat: &[u8], upto: usize) -> (r: Option<usize>)
    ensures
        r is Some ==> Some(r->Some_0 as int) == rfind_upto(s@, pat@, upto as int),
        r is None ==> rfind_upto(s@, pat@, upto as int) is None,
{
    let mut i: usize = upto;
    loop
        invariant
            i <= upto,
            rfind_upto(s@, pat@, upto as int) == rfind_upto(s@, pat@, i as int),
        decreases i + 1,
    {
        if pat.len() <= s.len() && i <= s.len() - pat.len() {
            if eq_at(s, pat, i) {
                return Some(i);
            }
        }
        if i == 0 {
            proof {
                assert(!match_at(s@, pat@, 0));
                assert(rfind_upto(s@, pat@, -1) is None);
            }
            return None;
        }
        i = i - 1;
    }
}

/// Does `pat` occur anywhere in `s`?
pub fn contains_sub(s: &[u8], pat: &[u8]) -> (r: bool)
    ensures
        r == contains_bytes(s@, pat@),
{
    match find_sub(s, pat, 0) {
        Some(i) => {
            proof {
                lemma_find_from_some(s@, pat@, 0);
            }
            true
        },
        None => {
            proof {
                lemma_find_from_none(s@, pat@, 0);
                assert(forall|i: int| i < 0 ==> !match_at(s@, pat@, i));
            }
            false
        },
    }
}

/// ASCII-lowercase every byte.
pub fn to_lower(v: &[u8]) -> (r: Vec<u8>)
    ensures
        r@.len() == v@.len(),
        forall|i: int| 0 <= i < v@.len() ==> r@[i] == lower8(v@[i]),
{
    let mut r: Vec<u8> = Vec::new();
    let mut i: usize = 0;
    while i < v.len()
        invariant
            i <= v@.len(),
            r@.len() == i,
            forall|j: int| 0 <= j < i ==> r@[j] == lower8(v@[j]),
        decreases v@.len() - i,
    {
        let b = v[i];
        if 65 <= b && b <= 90 {
            r.push(b + 32);
        } else {
            r.push(b);
        }
        i = i + 1;
    }
    r
}

/// Index of the first non-whitespace byte of `s` at or after `i` (or `s.len()`).
pub open spec fn first_non_ws(s: Seq<u8>, i: int) -> int
    decreases s.len() - i when 0 <= i <= s.len()
{
    if i >= s.len() || !is_ws(s[i]) {
        i
    } else {
        first_non_ws(s, i + 1)
    }
}

/// End of the last non-whitespace byte of `s` strictly before `j` (or 0).
pub open spec fn last_non_ws(s: Seq<u8>, j: int) -> int
    decreases j when j >= 0
{
    if j <= 0 || !is_ws(s[j - 1]) {
        j
    } else {
        last_non_ws(s, j - 1)
    }
}

/// `s` with leading and trailing ASCII whitespace removed.
pub open spec fn trim_spec(s: Seq<u8>) -> Seq<u8> {
    if first_non_ws(s, 0) == s.len() {
        Seq::empty()
    } else {
        s.subrange(first_non_ws(s, 0), last_non_ws(s, s.len() as int))
    }
}

proof fn lemma_first_non_ws_bounds(s: Seq<u8>, i: int)
    requires
        0 <= i <= s.len(),
    ensures
        i <= first_non_ws(s, i) <= s.len(),
        first_non_ws(s, i) < s.len() ==> !is_ws(s[first_non_ws(s, i)]),
    decreases s.len() - i
{
    if !(i >= s.len() || !is_ws(s[i])) {
        lemma_first_non_ws_bounds(s, i + 1);
    }
}

proof fn lemma_last_non_ws_bounds(s: Seq<u8>, j: int)
    requires
        0 <= j <= s.len(),
    ensures
        0 <= last_non_ws(s, j) <= j,
        last_non_ws(s, j) > 0 ==> !is_ws(s[last_non_ws(s, j) - 1]),
    decreases j
{
    if !(j <= 0 || !is_ws(s[j - 1])) {
        lemma_last_non_ws_bounds(s, j - 1);
    }
}

proof fn lemma_last_non_ws_after(s: Seq<u8>, i: int, j: int)
    requires
        0 <= i < j <= s.len(),
        !is_ws(s[i]),
    ensures
        last_non_ws(s, j) >= i + 1,
    decreases j
{
    if j - 1 > i && is_ws(s[j - 1]) {
        lemma_last_non_ws_after(s, i, j - 1);
    }
}

/// Trimming is idempotent.
pub proof fn lemma_trim_idempotent(s: Seq<u8>)
    ensures
        trim_spec(trim_spec(s)) == trim_spec(s),
{
    let a = first_non_ws(s, 0);
    if a == s.len() {
        assert(trim_spec(s) =~= Seq::<u8>::empty());
        assert(trim_spec(trim_spec(s)) =~= Seq::<u8>::empty());
    } else {
        lemma_first_non_ws_bounds(s, 0);
        let b = last_non_ws(s, s.len() as int);
        lemma_last_non_ws_bounds(s, s.len() as int);
        lemma_last_non_ws_after(s, a, s.len() as int);
        let t = s.subrange(a, b);
        assert(!is_ws(t[0]));
        assert(!is_ws(t[t.len() - 1]));
        assert(first_non_ws(t, 0) == 0);
        assert(last_non_ws(t, t.len() as int) == t.len());
        assert(trim_spec(t) =~= t);
    }
}

/// Trim leading and trailing ASCII whitespace.
pub fn trim_bytes(v: &[u8]) -> (r: Vec<u8>)
    ensures
        r@ == trim_spec(v@),
{
    let mut start: usize = 0;
    while start < v.len() && is_ws_byte(v[start])
        invariant
            start <= v@.len(),
            first_non_ws(v@, 0) == first_non_ws(v@, start as int),
        decreases v@.len() - start,
    {
        start = start + 1;
    }
    if start == v.len() {
        proof {
            assert(first_non_ws(v@, start as int) == start);
        }
        return Vec::new();
    }
    proof {
        assert(first_non_ws(v@, start as int) == start);
    }
    let mut end: usize = v.len();
    while end > start && is_ws_byte(v[end - 1])
        invariant
            start < end <= v@.len(),
            last_non_ws(v@, v@.len() as int) == last_non_ws(v@, end as int),
            !is_ws(v@[start as int]),
        decreases end,
    {
        end = end - 1;
    }
    proof {
        assert(last_non_ws(v@, end as int) == end);
    }
    sub_bytes(v, start, end)
}

/// Executable check of [`is_ws`].
pub fn is_ws_byte(b: u8) -> (r: bool)
    ensures
        r == is_ws(b),
{
    b == 32 || b == 9 || b == 10 || b == 12 || b == 13
}

/// `s` with one trailing carriage return removed, as `str::lines` does.
pub open spec fn strip_cr(s: Seq<u8>) -> Seq<u8> {
    if s.len() > 0 && s[s.len() - 1] == 13 {
        s.subrange(0, s.len() - 1)
    } else {
        s
    }
}

/// The lines of `s`, split on line feeds, each with a trailing carriage
/// return removed; a final newline does not yield an empty last line.
pub open spec fn lines_spec(s: Seq<u8>) -> Seq<Seq<u8>>
    decreases s.len()
{
    if s.len() == 0 {
        Seq::empty()
    } else {
        match find_from(s, seq![10u8], 0) {
            Some(i) => if 0 <= i < s.len() {
                seq![strip_cr(s.subrange(0, i))] + lines_spec(s.subrange(i + 1, s.len() as int))
            } else {
                seq![strip_cr(s)]
            },
            None => seq![strip_cr(s)],
        }
    }
}

/// A leftmost match at `k` pins down the value of `find_from`.
pub proof fn lemma_find_from_at(s: Seq<u8>, pat: Seq<u8>, from: int, k: int)
    requires
        0 <= from <= k,
        match_at(s, pat, k),
        forall|j: int| from <= j < k ==> !match_at(s, pat, j),
    ensures
        find_from(s, pat, from) == Some(k),
    decreases k - from + 1
{
    if from < k {
        lemma_find_from_at(s, pat, from + 1, k);
    }
}

/// No match at or after `from` pins `find_from` to `None`.
pub proof fn lemma_find_from_absent(s: Seq<u8>, pat: Seq<u8>, from: int)
    requires
        from >= 0,
        forall|j: int| j >= from ==> !match_at(s, pat, j),
    ensures
        find_from(s, pat, from) is None,
    decreases s.len() - from + 1
{
    if from + pat.len() <= s.len() && !match_at(s, pat, from) {
        lemma_find_from_absent(s, pat, from + 1);
    }
}

/// Matching in a suffix of `s` is matching in `s`, shifted.
pub proof fn lemma_match_shift(s: Seq<u8>, pat: Seq<u8>, from: int, i: int)
    requires
        0 <= from <= i,
        i + pat.len() <= s.len(),
    ensures
        match_at(s, pat, i) <==> match_at(s.subrange(from, s.len() as int), pat, i - from),
{
    let sub = s.subrange(from, s.len() as int);
    assert(s.subrange(i, i + pat.len() as int) =~= sub.subrange(
        i - from,
        i - from + pat.len() as int,
    ));
}

/// Split into lines as `str::lines` does.
pub fn split_lines(v: &[u8]) -> (r: Vec<Vec<u8>>)
    ensures
        r.deep_view() == lines_spec(v@),
{
    let mut r: Vec<Vec<u8>> = Vec::new();
    let mut pos: usize = 0;
    let nl: Vec<u8> = vec![10u8];
    proof {
        assert(v@.subrange(0, v@.len() as int) =~= v@);
        assert(r.deep_view() =~~= Seq::<Seq<u8>>::empty());
        assert(lines_spec(v@) =~~= r.deep_view() + lines_spec(v@.subrange(0, v@.len() as int)));
    }
    loop
        invariant
            pos <= v@.len(),
            nl@ == seq![10u8],
            lines_spec(v@) =~~= r.deep_view() + lines_spec(v@.subrange(pos as int, v@.len() as int)),
        decreases v@.len() - pos,
    {
        let ghost rest = v@.subrange(pos as int, v@.len() as int);
        let ghost old_dv = r.deep_view();
        if pos == v.len() {
            proof {
                assert(rest =~= Seq::<u8>::empty());
                assert(r.deep_view() =~~= lines_spec(v@));
            }
            return r;
        }
        let found = find_sub(v, nl.as_slice(), pos);
        let line_end: usize = match found {
            Some(i) => i,
            None => v.len(),
        };
        proof {
            match found {
                Some(i) => {
                    lemma_find_from_some(v@, nl@, pos as int);
                    assert forall|j: int| 0 <= j < i - pos implies !match_at(rest, nl@, j) by {
                        lemma_match_shift(v@, nl@, pos as int, j + pos);
                    }
                    lemma_match_shift(v@, nl@, pos as int, i as int);
                    lemma_find_from_at(rest, nl@, 0, i - pos);
                },
                None => {
                    lemma_find_from_none(v@, nl@, pos as int);
                    assert forall|j: int| j >= 0 implies !match_at(rest, nl@, j) by {
                        if j + nl@.len() <= rest.len() {
                            lemma_match_shift(v@, nl@, pos as int, j + pos);
                        }
                    }
                    lemma_find_from_absent(rest, nl@, 0);
                },
            }
        }
        let mut line = sub_bytes(v, pos, line_end);
        if line.len() > 0 && line[line.len() - 1] == 13 {
            let _ = line.pop();
        }
        proof {
            assert(v@.subrange(pos as int, line_end as int) =~= rest.subrange(0, line_end - pos));
            assert(line@ =~= strip_cr(rest.subrange(0, line_end - pos)));
            if line_end == v@.len() {
                assert(rest.subrange(0, line_end - pos) =~= rest);
            }
        }
        r.push(line);
        proof {
            assert(r.deep_view() =~~= old_dv.push(line@));
        }
        match found {
            Some(i) => {
                proof {
                    assert(rest.subrange(i - pos + 1, rest.len() as int) =~= v@.subrange(
                        i + 1,
                        v@.len() as int,
                    ));
                    assert(lines_spec(rest) =~~= seq![line@] + lines_spec(
                        v@.subrange(i + 1, v@.len() as int),
                    ));
                    assert(old_dv + lines_spec(rest) =~~= old_dv.push(line@) + lines_spec(
                        v@.subrange(i + 1, v@.len() as int),
                    ));
                }
                pos = i + 1;
            },
            None => {
                proof {
                    assert(lines_spec(rest) =~~= seq![line@]);
                    assert(old_dv + lines_spec(rest) =~~= old_dv.push(line@));
                    assert(r.deep_view() =~~= lines_spec(v@));
                }
                return r;
            },
        }
    }
}

/// A UTF-8 continuation byte.
pub open spec fn is_cont(b: u8) -> bool {
    128 <= b <= 191
}

/// Where the character starting just before `i` ends: the first position at
/// or after `i` that is not a continuation byte.
pub open spec fn char_end(s: Seq<u8>, i: int) -> int
    decreases s.len() - i
{
    if i < 0 || i >= s.len() || !is_cont(s[i]) {
        i
    } else {
        char_end(s, i + 1)
    }
}

/// Executable check of [`is_cont`].
pub fn is_cont_byte(b: u8) -> (r: bool)
    ensures
        r == is_cont(b),
{
    128 <= b && b <= 191
}

/// How many characters `s` holds: one per byte that starts a character.
pub open spec fn char_count_from(s: Seq<u8>, i: int) -> int
    decreases s.len() - i
{
    if i < 0 || i >= s.len() {
        0
    } else {
        (if is_cont(s[i]) {
            0int
        } else {
            1int
        }) + char_count_from(s, i + 1)
    }
}

/// The character count of `s`.
pub open spec fn char_count(s: Seq<u8>) -> int {
    char_count_from(s, 0)
}

/// Count the characters of `v`.
pub fn count_chars(v: &[u8]) -> (r: usize)
    ensures
        r as int == char_count(v@),
{
    let mut r: usize = 0;
    let mut i: usize = 0;
    while i < v.len()
        invariant
            i <= v@.len(),
            r <= i,
            char_count(v@) == r + char_count_from(v@, i as int),
        decreases v@.len() - i,
    {
        if !is_cont_byte(v[i]) {
            r = r + 1;
        }
        i = i + 1;
    }
    r
}

/// The byte position after the first `remaining` characters, starting at the
/// character boundary `i`.
pub open spec fn chars_prefix_end(s: Seq<u8>, i: int, remaining: int) -> int
    decreases s.len() - i
{
    if i < 0 || i >= s.len() || remaining <= 0 {
        i
    } else {
        let e0 = char_end(s, i + 1);
        let e = if i < e0 <= s.len() {
            e0
        } else {
            i + 1
        };
        chars_prefix_end(s, e, remaining - 1)
    }
}

/// The first `max_chars` characters of `v`, cut at a character boundary.
pub fn take_chars(v: &[u8], max_chars: usize) -> (r: Vec<u8>)
    ensures
        r@ == v@.take(chars_prefix_end(v@, 0, max_chars as int)),
{
    let mut i: usize = 0;
    let mut remaining: usize = max_chars;
    while i < v.len() && remaining > 0
        invariant
            i <= v@.len(),
            chars_prefix_end(v@, 0, max_chars as int) == chars_prefix_end(
                v@,
                i as int,
                remaining as int,
            ),
        decreases v@.len() - i,
    {
        let mut e: usize = i + 1;
        while e < v.len() && is_cont_byte(v[e])
            invariant
                i + 1 <= e <= v@.len(),
                char_end(v@, i + 1) == char_end(v@, e as int),
            decreases v@.len() - e,
        {
            e = e + 1;
        }
        proof {
            assert(char_end(v@, e as int) == e);
        }
        i = e;
        remaining = remaining - 1;
    }
    proof {
        assert(chars_prefix_end(v@, i as int, remaining as int) == i);
    }
    sub_bytes(v, 0, i)
}

} // verus!
