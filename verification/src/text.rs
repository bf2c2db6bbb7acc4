//! Character-level text primitives over the character view of a string.

use vstd::prelude::*;
use vstd::string::*;

verus! {

/// Unicode `White_Space`: the characters `char::is_whitespace` accepts.
pub open spec fn is_ws(c: char) -> bool {
    ||| ('\u{9}' <= c && c <= '\u{d}')
    ||| c == ' '
    ||| c == '\u{85}'
    ||| c == '\u{a0}'
    ||| c == '\u{1680}'
    ||| ('\u{2000}' <= c && c <= '\u{200a}')
    ||| c == '\u{2028}'
    ||| c == '\u{2029}'
    ||| c == '\u{202f}'
    ||| c == '\u{205f}'
    ||| c == '\u{3000}'
}

/// Whether `c` is Unicode whitespace.
pub fn is_whitespace(c: char) -> (r: bool)
    ensures
        r == is_ws(c),
{
    ('\u{9}' <= c && c <= '\u{d}') || c == ' ' || c == '\u{85}' || c == '\u{a0}' || c == '\u{1680}'
        || ('\u{2000}' <= c && c <= '\u{200a}') || c == '\u{2028}' || c == '\u{2029}' || c
        == '\u{202f}' || c == '\u{205f}' || c == '\u{3000}'
}


/// `s` without its leading whitespace.
pub open spec fn trim_start(s: Seq<char>) -> Seq<char>
    decreases s.len(),
{
    if s.len() > 0 && is_ws(s[0]) {
        trim_start(s.drop_first())
    } else {
        s
    }
}

/// `s` without its trailing whitespace.
pub open spec fn trim_end(s: Seq<char>) -> Seq<char>
    decreases s.len(),
{
    if s.len() > 0 && is_ws(s.last()) {
        trim_end(s.drop_last())
    } else {
        s
    }
}

/// `s` without leading and trailing whitespace, as `str::trim` gives it.
pub open spec fn trim(s: Seq<char>) -> Seq<char> {
    trim_end(trim_start(s))
}

/// A text with something in it that neither starts nor ends with whitespace.
pub open spec fn is_trimmed_nonempty(t: Seq<char>) -> bool {
    t.len() > 0 && !is_ws(t[0]) && !is_ws(t.last())
}

proof fn lemma_trim_start_shape(s: Seq<char>)
    ensures
        trim_start(s).len() <= s.len(),
        trim_start(s) == s.subrange(s.len() - trim_start(s).len(), s.len() as int),
        trim_start(s).len() > 0 ==> !is_ws(trim_start(s)[0]),
    decreases s.len(),
{
    if s.len() > 0 && is_ws(s[0]) {
        lemma_trim_start_shape(s.drop_first());
        let t = trim_start(s.drop_first());
        assert(s.drop_first().subrange(s.drop_first().len() - t.len(), s.drop_first().len() as int)
            =~= s.subrange(s.len() - t.len(), s.len() as int));
    } else {
        assert(s.subrange(0, s.len() as int) =~= s);
    }
}

proof fn lemma_trim_end_shape(s: Seq<char>)
    ensures
        trim_end(s).len() <= s.len(),
        trim_end(s) == s.subrange(0, trim_end(s).len() as int),
        trim_end(s).len() > 0 ==> !is_ws(trim_end(s).last()),
    decreases s.len(),
{
    if s.len() > 0 && is_ws(s.last()) {
        lemma_trim_end_shape(s.drop_last());
        let t = trim_end(s.drop_last());
        assert(s.drop_last().subrange(0, t.len() as int) =~= s.subrange(0, t.len() as int));
    } else {
        assert(s.subrange(0, s.len() as int) =~= s);
    }
}

/// A trimmed text is empty or starts and ends with a non-space character.
pub proof fn lemma_trim_shape(s: Seq<char>)
    ensures
        trim(s).len() == 0 || is_trimmed_nonempty(trim(s)),
{
    lemma_trim_start_shape(s);
    let a = trim_start(s);
    lemma_trim_end_shape(a);
    let t = trim_end(a);
    if t.len() > 0 {
        assert(t[0] == a.subrange(0, t.len() as int)[0]);
    }
}

/// A trimmed text is the run of its text that starts after the leading
/// whitespace.
pub proof fn lemma_trim_runs(s: Seq<char>)
    ensures
        trim_start(s).len() <= s.len(),
        s.len() - trim_start(s).len() + trim(s).len() <= s.len(),
        trim(s) == s.subrange(
            s.len() - trim_start(s).len(),
            s.len() - trim_start(s).len() + trim(s).len(),
        ),
{
    lemma_trim_start_shape(s);
    let a = trim_start(s);
    lemma_trim_end_shape(a);
    let lo = s.len() - a.len();
    assert(trim(s) =~= s.subrange(lo, lo + trim(s).len()));
}

/// Trimming leaves a text with no outer whitespace as it is.
pub proof fn lemma_trim_of_trimmed(t: Seq<char>)
    requires
        t.len() == 0 || is_trimmed_nonempty(t),
    ensures
        trim(t) == t,
{
}

/// Trimming twice trims once.
pub proof fn lemma_trim_idempotent(s: Seq<char>)
    ensures
        trim(trim(s)) == trim(s),
{
    lemma_trim_shape(s);
    lemma_trim_of_trimmed(trim(s));
}

/// The characters of `s`, in order.
pub fn chars_of(s: &str) -> (v: Vec<char>)
    ensures
        v@ == s@,
{
    let n = s.unicode_len();
    let mut v: Vec<char> = Vec::new();
    let mut i: usize = 0;
    while i < n
        invariant
            n == s@.len(),
            i <= n,
            v@ == s@.subrange(0, i as int),
        decreases n - i,
    {
        v.push(s.get_char(i));
        i += 1;
        assert(v@ =~= s@.subrange(0, i as int));
    }
    assert(v@ =~= s@);
    v
}

/// The char range `[lo, hi)` of `s` that `trim` keeps.
pub fn trim_bounds(cs: &Vec<char>) -> (r: (usize, usize))
    ensures
        r.0 <= r.1 <= cs@.len(),
        cs@.subrange(r.0 as int, r.1 as int) == trim(cs@),
{
    let n = cs.len();
    let mut lo: usize = 0;
    assert(cs@.subrange(0, n as int) =~= cs@);
    while lo < n && is_whitespace(cs[lo])
        invariant
            n == cs@.len(),
            lo <= n,
            trim_start(cs@) == trim_start(cs@.subrange(lo as int, n as int)),
        decreases n - lo,
    {
        assert(cs@.subrange(lo as int, n as int).drop_first() =~= cs@.subrange(lo + 1, n as int));
        lo += 1;
    }
    let mut hi: usize = n;
    while hi > lo && is_whitespace(cs[hi - 1])
        invariant
            n == cs@.len(),
            lo <= hi <= n,
            trim_start(cs@) == cs@.subrange(lo as int, n as int),
            trim(cs@) == trim_end(cs@.subrange(lo as int, hi as int)),
        decreases hi - lo,
    {
        assert(cs@.subrange(lo as int, hi as int).drop_last() =~= cs@.subrange(lo as int, hi - 1));
        hi -= 1;
    }
    (lo, hi)
}

/// `s` without leading and trailing whitespace.
pub fn trim_str(s: &str) -> (r: &str)
    ensures
        r@ == trim(s@),
{
    let cs = chars_of(s);
    let (lo, hi) = trim_bounds(&cs);
    s.substring_char(lo, hi)
}


/// A character that counts toward a text's weight: neither whitespace nor
/// a comma. Splitting always drops at least one such character, so weight
/// is what shrinks from one level of splitting to the next.
pub open spec fn is_weighty(c: char) -> bool {
    !is_ws(c) && c != ','
}

/// The number of weighty characters in `s`.
pub open spec fn weight(s: Seq<char>) -> nat
    decreases s.len(),
{
    if s.len() == 0 {
        0
    } else {
        weight(s.drop_last()) + if is_weighty(s.last()) { 1nat } else { 0nat }
    }
}

/// The total weight of a list of texts.
pub open spec fn weight_sum(ps: Seq<Seq<char>>) -> nat
    decreases ps.len(),
{
    if ps.len() == 0 {
        0
    } else {
        weight(ps[0]) + weight_sum(ps.drop_first())
    }
}

/// Weight adds up over concatenation.
pub proof fn lemma_weight_concat(a: Seq<char>, b: Seq<char>)
    ensures
        weight(a + b) == weight(a) + weight(b),
    decreases b.len(),
{
    if b.len() == 0 {
        assert(a + b =~= a);
    } else {
        lemma_weight_concat(a, b.drop_last());
        assert((a + b).drop_last() =~= a + b.drop_last());
    }
}

/// The weight of `s` is that of `s[..i]`, `s[i]` and `s[i + 1..]` together.
pub proof fn lemma_weight_split_at(s: Seq<char>, lo: int, i: int, hi: int)
    requires
        0 <= lo <= i < hi <= s.len(),
    ensures
        weight(s.subrange(lo, hi)) == weight(s.subrange(lo, i)) + (if is_weighty(s[i]) {
            1nat
        } else {
            0nat
        }) + weight(s.subrange(i + 1, hi)),
{
    let one = s.subrange(i, i + 1);
    assert(s.subrange(lo, hi) =~= s.subrange(lo, i) + one + s.subrange(i + 1, hi));
    lemma_weight_concat(s.subrange(lo, i) + one, s.subrange(i + 1, hi));
    lemma_weight_concat(s.subrange(lo, i), one);
    assert(one.drop_last() =~= Seq::<char>::empty());
    assert(one.last() == s[i]);
    assert(weight(one) == weight(one.drop_last()) + if is_weighty(one.last()) {
        1nat
    } else {
        0nat
    });
}

/// A part of `s` weighs no more than `s`.
pub proof fn lemma_weight_subrange(s: Seq<char>, lo: int, hi: int)
    requires
        0 <= lo <= hi <= s.len(),
    ensures
        weight(s.subrange(lo, hi)) <= weight(s),
{
    assert(s =~= s.subrange(0, lo) + s.subrange(lo, hi) + s.subrange(hi, s.len() as int));
    lemma_weight_concat(s.subrange(0, lo) + s.subrange(lo, hi), s.subrange(hi, s.len() as int));
    lemma_weight_concat(s.subrange(0, lo), s.subrange(lo, hi));
}

/// Trimming removes only whitespace, so it keeps the weight.
pub proof fn lemma_weight_trim(s: Seq<char>)
    ensures
        weight(trim_start(s)) == weight(s),
        weight(trim_end(s)) == weight(s),
        weight(trim(s)) == weight(s),
{
    lemma_weight_trim_start(s);
    lemma_weight_trim_end(s);
    lemma_weight_trim_end(trim_start(s));
}

proof fn lemma_weight_trim_start(s: Seq<char>)
    ensures
        weight(trim_start(s)) == weight(s),
    decreases s.len(),
{
    if s.len() > 0 && is_ws(s[0]) {
        lemma_weight_trim_start(s.drop_first());
        lemma_weight_split_at(s, 0, 0, s.len() as int);
        assert(s.subrange(0, s.len() as int) =~= s);
        assert(s.subrange(1, s.len() as int) =~= s.drop_first());
        assert(s.subrange(0, 0) =~= Seq::<char>::empty());
    }
}

proof fn lemma_weight_trim_end(s: Seq<char>)
    ensures
        weight(trim_end(s)) == weight(s),
    decreases s.len(),
{
    if s.len() > 0 && is_ws(s.last()) {
        lemma_weight_trim_end(s.drop_last());
    }
}

/// Weight sums add up over concatenation.
pub proof fn lemma_weight_sum_concat(a: Seq<Seq<char>>, b: Seq<Seq<char>>)
    ensures
        weight_sum(a + b) == weight_sum(a) + weight_sum(b),
    decreases a.len(),
{
    if a.len() > 0 {
        lemma_weight_sum_concat(a.drop_first(), b);
        assert((a + b).drop_first() =~= a.drop_first() + b);
    } else {
        assert(a + b =~= b);
    }
}

/// No member of a list weighs more than the whole list.
pub proof fn lemma_weight_sum_member(ps: Seq<Seq<char>>, k: int)
    requires
        0 <= k < ps.len(),
    ensures
        weight(ps[k]) <= weight_sum(ps),
    decreases ps.len(),
{
    if k > 0 {
        lemma_weight_sum_member(ps.drop_first(), k - 1);
    }
}


/// The views of a list of string slices.
pub open spec fn strs_view(v: Seq<&str>) -> Seq<Seq<char>> {
    v.map_values(|x: &str| x@)
}

/// The views of a list of strings.
pub open spec fn strings_view(v: Seq<String>) -> Seq<Seq<char>> {
    v.map_values(|x: String| x@)
}

/// The pieces of `s` between the positions that `cut` marks, each marked
/// character dropped; the scan stands at `i` with the open piece starting at
/// `start`.
pub open spec fn split_mask_from(s: Seq<char>, cut: Seq<bool>, start: int, i: int) -> Seq<
    Seq<char>,
>
    decreases s.len() - i,
{
    if i < s.len() {
        if cut[i] {
            seq![s.subrange(start, i)] + split_mask_from(s, cut, i + 1, i + 1)
        } else {
            split_mask_from(s, cut, start, i + 1)
        }
    } else {
        seq![s.subrange(start, s.len() as int)]
    }
}

/// The pieces of `s` between the positions that `cut` marks, as
/// `str::split` with a character predicate gives them.
pub open spec fn split_mask(s: Seq<char>, cut: Seq<bool>) -> Seq<Seq<char>> {
    split_mask_from(s, cut, 0, 0)
}

/// The weight of the marked characters of `s` from `i` on.
pub open spec fn cut_weight_from(s: Seq<char>, cut: Seq<bool>, i: int) -> nat
    decreases s.len() - i,
{
    if 0 <= i < s.len() {
        (if cut[i] && is_weighty(s[i]) {
            1nat
        } else {
            0nat
        }) + cut_weight_from(s, cut, i + 1)
    } else {
        0
    }
}

/// The pieces and the dropped characters together weigh what the text does.
pub proof fn lemma_split_mask_weight(s: Seq<char>, cut: Seq<bool>, start: int, i: int)
    requires
        0 <= start <= i <= s.len(),
        cut.len() == s.len(),
    ensures
        weight_sum(split_mask_from(s, cut, start, i)) + cut_weight_from(s, cut, i) == weight(
            s.subrange(start, s.len() as int),
        ),
    decreases s.len() - i,
{
    let r = split_mask_from(s, cut, start, i);
    if i < s.len() {
        if cut[i] {
            let rest = split_mask_from(s, cut, i + 1, i + 1);
            lemma_split_mask_weight(s, cut, i + 1, i + 1);
            assert(r.drop_first() =~= rest);
            assert(r[0] == s.subrange(start, i));
            assert(weight_sum(r) == weight(r[0]) + weight_sum(r.drop_first()));
            assert(s.subrange(i + 1, s.len() as int) == s.subrange(i + 1, s.len() as int));
            lemma_weight_split_at(s, start, i, s.len() as int);
        } else {
            lemma_split_mask_weight(s, cut, start, i + 1);
        }
    } else {
        assert(r.drop_first() =~= Seq::<Seq<char>>::empty());
        assert(weight_sum(r) == weight(r[0]) + weight_sum(r.drop_first()));
    }
}

/// A marked weighty character makes the marked weight positive.
pub proof fn lemma_cut_weight_positive(s: Seq<char>, cut: Seq<bool>, i: int, j: int)
    requires
        0 <= i <= j < s.len(),
        cut.len() == s.len(),
        cut[j],
        is_weighty(s[j]),
    ensures
        cut_weight_from(s, cut, i) >= 1,
    decreases j - i,
{
    if i < j {
        lemma_cut_weight_positive(s, cut, i + 1, j);
    }
}

/// Every piece of a split weighs at most the text less its dropped characters.
pub proof fn lemma_split_mask_piece_weight(s: Seq<char>, cut: Seq<bool>, k: int)
    requires
        cut.len() == s.len(),
        0 <= k < split_mask(s, cut).len(),
    ensures
        weight(split_mask(s, cut)[k]) + cut_weight_from(s, cut, 0) <= weight(s),
{
    lemma_split_mask_weight(s, cut, 0, 0);
    lemma_weight_sum_member(split_mask(s, cut), k);
    assert(s.subrange(0, s.len() as int) =~= s);
}

/// Whether `pat` occurs in `s` at `i`.
pub open spec fn occurs_at(s: Seq<char>, pat: Seq<char>, i: int) -> bool {
    0 <= i && i + pat.len() <= s.len() && s.subrange(i, i + pat.len()) == pat
}

/// The pieces of `s` between non-overlapping occurrences of `pat`, found
/// leftmost first; the scan stands at `i` with the open piece starting at
/// `start`.
pub open spec fn split_pattern_from(s: Seq<char>, pat: Seq<char>, start: int, i: int) -> Seq<
    Seq<char>,
>
    decreases s.len() - i,
{
    if i < s.len() {
        if pat.len() > 0 && occurs_at(s, pat, i) {
            seq![s.subrange(start, i)] + split_pattern_from(s, pat, i + pat.len(), i + pat.len())
        } else {
            split_pattern_from(s, pat, start, i + 1)
        }
    } else {
        seq![s.subrange(start, s.len() as int)]
    }
}

/// The pieces of `s` between occurrences of `pat`, as `str::split` with a
/// string pattern gives them.
pub open spec fn split_pattern(s: Seq<char>, pat: Seq<char>) -> Seq<Seq<char>> {
    split_pattern_from(s, pat, 0, 0)
}

/// The pieces of a split by a pattern weigh no more than the text.
pub proof fn lemma_split_pattern_weight(s: Seq<char>, pat: Seq<char>, start: int, i: int)
    requires
        0 <= start <= i <= s.len(),
    ensures
        weight_sum(split_pattern_from(s, pat, start, i)) <= weight(
            s.subrange(start, s.len() as int),
        ),
    decreases s.len() - i,
{
    let r = split_pattern_from(s, pat, start, i);
    if i < s.len() {
        if pat.len() > 0 && occurs_at(s, pat, i) {
            let e = i + pat.len();
            let rest = split_pattern_from(s, pat, e, e);
            lemma_split_pattern_weight(s, pat, e, e);
            assert(r.drop_first() =~= rest);
            assert(r[0] == s.subrange(start, i));
            assert(weight_sum(r) == weight(r[0]) + weight_sum(r.drop_first()));
            let whole = s.subrange(start, s.len() as int);
            assert(whole =~= s.subrange(start, i) + s.subrange(i, e) + s.subrange(
                e,
                s.len() as int,
            ));
            lemma_weight_concat(s.subrange(start, i) + s.subrange(i, e), s.subrange(e, s.len() as int));
            lemma_weight_concat(s.subrange(start, i), s.subrange(i, e));
        } else {
            lemma_split_pattern_weight(s, pat, start, i + 1);
        }
    } else {
        assert(r.drop_first() =~= Seq::<Seq<char>>::empty());
        assert(weight_sum(r) == weight(r[0]) + weight_sum(r.drop_first()));
    }
}

/// Splits `s` at the characters that `cut` marks, dropping them.
pub fn split_at_mask<'a>(s: &'a str, cut: &Vec<bool>) -> (r: Vec<&'a str>)
    requires
        cut@.len() == s@.len(),
    ensures
        strs_view(r@) == split_mask(s@, cut@),
{
    let n = cut.len();
    let mut out: Vec<&'a str> = Vec::new();
    let mut start: usize = 0;
    let mut i: usize = 0;
    while i < n
        invariant
            n == s@.len() == cut@.len(),
            start <= i <= n,
            strs_view(out@) + split_mask_from(s@, cut@, start as int, i as int) == split_mask(
                s@,
                cut@,
            ),
        decreases n - i,
    {
        if cut[i] {
            let piece = s.substring_char(start, i);
            let ghost before = strs_view(out@);
            out.push(piece);
            assert(strs_view(out@) =~= before.push(piece@));
            assert(before + split_mask_from(s@, cut@, start as int, i as int) =~= before.push(piece@)
                + split_mask_from(s@, cut@, i + 1, i + 1));
            start = i + 1;
        }
        i += 1;
    }
    let piece = s.substring_char(start, n);
    let ghost before = strs_view(out@);
    out.push(piece);
    assert(strs_view(out@) =~= before.push(piece@));
    assert(before + split_mask_from(s@, cut@, start as int, n as int) =~= before.push(piece@));
    out
}

/// Whether `pat` occurs in `cs` at `i`.
pub fn occurs_at_exec(cs: &Vec<char>, pat: &Vec<char>, i: usize) -> (r: bool)
    ensures
        r == occurs_at(cs@, pat@, i as int),
{
    if pat.len() > cs.len() || i > cs.len() - pat.len() {
        return false;
    }
    let mut j: usize = 0;
    while j < pat.len()
        invariant
            i + pat.len() <= cs.len(),
            j <= pat@.len(),
            forall|k: int| 0 <= k < j ==> cs@[i + k] == pat@[k],
        decreases pat@.len() - j,
    {
        if cs[i + j] != pat[j] {
            assert(cs@.subrange(i as int, i + pat@.len())[j as int] != pat@[j as int]);
            return false;
        }
        j += 1;
    }
    assert(cs@.subrange(i as int, i + pat@.len()) =~= pat@);
    true
}

/// Splits `s` at each leftmost non-overlapping occurrence of `pat`.
pub fn split_pattern_exec<'a>(s: &'a str, pat: &str) -> (r: Vec<&'a str>)
    requires
        pat@.len() > 0,
    ensures
        strs_view(r@) == split_pattern(s@, pat@),
{
    let cs = chars_of(s);
    let ps = chars_of(pat);
    let n = cs.len();
    let m = ps.len();
    let mut out: Vec<&'a str> = Vec::new();
    let mut start: usize = 0;
    let mut i: usize = 0;
    while i < n
        invariant
            n == s@.len() == cs@.len(),
            cs@ == s@,
            ps@ == pat@,
            m == ps@.len(),
            m > 0,
            start <= i <= n,
            strs_view(out@) + split_pattern_from(s@, pat@, start as int, i as int)
                == split_pattern(s@, pat@),
        decreases n - i,
    {
        if occurs_at_exec(&cs, &ps, i) {
            let piece = s.substring_char(start, i);
            let ghost before = strs_view(out@);
            out.push(piece);
            assert(strs_view(out@) =~= before.push(piece@));
            assert(before + split_pattern_from(s@, pat@, start as int, i as int) =~= before.push(
                piece@,
            ) + split_pattern_from(s@, pat@, i + m, i + m));
            i = i + m;
            start = i;
        } else {
            i += 1;
        }
    }
    let piece = s.substring_char(start, n);
    let ghost before = strs_view(out@);
    out.push(piece);
    assert(strs_view(out@) =~= before.push(piece@));
    assert(before + split_pattern_from(s@, pat@, start as int, n as int) =~= before.push(piece@));
    out
}


/// `c` with an ASCII capital turned into its small letter.
pub open spec fn ascii_lower(c: char) -> char {
    if 'A' <= c && c <= 'Z' {
        ((c as u32) + 32) as char
    } else {
        c
    }
}

/// Whether `a` and `b` are equal up to ASCII case, as
/// `eq_ignore_ascii_case` decides it.
pub open spec fn eq_ignore_ascii_case(a: Seq<char>, b: Seq<char>) -> bool {
    a.len() == b.len() && forall|j: int| 0 <= j < a.len() ==> ascii_lower(a[j]) == ascii_lower(b[j])
}

/// `c` with an ASCII capital turned into its small letter.
pub fn to_ascii_lower(c: char) -> (r: char)
    ensures
        r == ascii_lower(c),
{
    if 'A' <= c && c <= 'Z' {
        let b = c as u8;
        assert(b as u32 == c as u32);
        ((b + 32) as u8) as char
    } else {
        c
    }
}

/// Whether `a[i..i + b.len()]` equals `b` up to ASCII case.
pub fn eq_ignore_ascii_case_at(a: &Vec<char>, i: usize, b: &Vec<char>) -> (r: bool)
    ensures
        r == (i + b@.len() <= a@.len() && eq_ignore_ascii_case(
            a@.subrange(i as int, i + b@.len()),
            b@,
        )),
{
    if b.len() > a.len() || i > a.len() - b.len() {
        return false;
    }
    let mut j: usize = 0;
    while j < b.len()
        invariant
            i + b.len() <= a.len(),
            j <= b@.len(),
            forall|k: int| 0 <= k < j ==> ascii_lower(a@[i + k]) == ascii_lower(b@[k]),
        decreases b@.len() - j,
    {
        if to_ascii_lower(a[i + j]) != to_ascii_lower(b[j]) {
            assert(a@.subrange(i as int, i + b@.len())[j as int] == a@[i + j]);
            return false;
        }
        j += 1;
    }
    assert forall|k: int| 0 <= k < b@.len() implies ascii_lower(
        a@.subrange(i as int, i + b@.len())[k],
    ) == ascii_lower(b@[k]) by {
        assert(a@.subrange(i as int, i + b@.len())[k] == a@[i + k]);
    }
    true
}

} // verus!
