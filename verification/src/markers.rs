//! The marks that join artist names inside one credit: featuring and
//! collaboration markers, hard delimiters and padded bullets.

use vstd::prelude::*;
use vstd::string::*;
use crate::text::{
    ascii_lower, chars_of, eq_ignore_ascii_case, eq_ignore_ascii_case_at,
    is_weighty, is_whitespace, is_ws, lemma_cut_weight_positive, lemma_split_mask_piece_weight,
    lemma_split_mask_weight, lemma_split_pattern_weight, lemma_weight_concat, lemma_weight_trim,
    lemma_weight_sum_concat, lemma_weight_sum_member, split_at_mask, split_mask, split_mask_from,
    split_pattern, split_pattern_exec, strings_view, strs_view, trim, trim_start, trim_str, weight,
    weight_sum,
};

verus! {

/// Featuring markers, longest first so "featuring" wins over its own
/// "feat" prefix.
pub open spec fn feature_markers() -> Seq<Seq<char>> {
    seq![
        seq!['f', 'e', 'a', 't', 'u', 'r', 'i', 'n', 'g'],
        seq!['f', 'e', 'a', 't', '.'],
        seq!['f', 'e', 'a', 't'],
        seq!['f', 't', '.'],
        seq!['f', 't'],
    ]
}

/// Collaboration markers: co-equal credits rather than a guest list.
pub open spec fn collab_markers() -> Seq<Seq<char>> {
    seq![seq!['v', 's', '.'], seq!['v', 's'], seq!['x']]
}

/// The views of a list of character vectors.
pub open spec fn char_vecs_view(v: Seq<Vec<char>>) -> Seq<Seq<char>> {
    v.map_values(|x: Vec<char>| x@)
}

/// The featuring markers.
pub fn feature_marker_list() -> (r: Vec<Vec<char>>)
    ensures
        char_vecs_view(r@) == feature_markers(),
{
    let r = vec![
        vec!['f', 'e', 'a', 't', 'u', 'r', 'i', 'n', 'g'],
        vec!['f', 'e', 'a', 't', '.'],
        vec!['f', 'e', 'a', 't'],
        vec!['f', 't', '.'],
        vec!['f', 't'],
    ];
    assert(char_vecs_view(r@) =~= feature_markers());
    r
}

/// The collaboration markers.
pub fn collab_marker_list() -> (r: Vec<Vec<char>>)
    ensures
        char_vecs_view(r@) == collab_markers(),
{
    let r = vec![vec!['v', 's', '.'], vec!['v', 's'], vec!['x']];
    assert(r@[0]@ =~= seq!['v', 's', '.']);
    assert(r@[1]@ =~= seq!['v', 's']);
    assert(r@[2]@ =~= seq!['x']);
    assert(char_vecs_view(r@) =~= collab_markers());
    r
}

/// Whether a marker may begin at `i`: a space precedes it and `s[i]` is not
/// itself a space.
pub open spec fn may_start_marker(s: Seq<char>, i: int) -> bool {
    0 < i < s.len() && is_ws(s[i - 1]) && !is_ws(s[i])
}

/// Whether marker `m` separates `s` at `i`: it occurs there up to ASCII case,
/// and is followed by a space, or ends with a period with text after it, or
/// ends the text where no space is asked for after it.
pub open spec fn marker_fits(s: Seq<char>, i: int, m: Seq<char>, require_space_after: bool) -> bool {
    let end = i + m.len();
    &&& end <= s.len()
    &&& eq_ignore_ascii_case(s.subrange(i, end), m)
    &&& ((if end < s.len() {
        is_ws(s[end])
    } else {
        !require_space_after
    }) || (m.len() > 0 && m.last() == '.' && end < s.len()))
}

/// The first marker from `ms[k..]` that separates `s` at `i`.
pub open spec fn first_fitting(
    s: Seq<char>,
    i: int,
    ms: Seq<Seq<char>>,
    require_space_after: bool,
    k: int,
) -> Option<int>
    decreases ms.len() - k,
{
    if 0 <= k < ms.len() {
        if marker_fits(s, i, ms[k], require_space_after) {
            Some(k)
        } else {
            first_fitting(s, i, ms, require_space_after, k + 1)
        }
    } else {
        None
    }
}

/// The char range of the first separating marker at or after `i`.
pub open spec fn find_marker_from(
    s: Seq<char>,
    ms: Seq<Seq<char>>,
    require_space_after: bool,
    i: int,
) -> Option<(int, int)>
    decreases s.len() - i,
{
    if i < s.len() {
        if may_start_marker(s, i) && first_fitting(s, i, ms, require_space_after, 0) is Some {
            let k = first_fitting(s, i, ms, require_space_after, 0)->0;
            Some((i, i + ms[k].len()))
        } else {
            find_marker_from(s, ms, require_space_after, i + 1)
        }
    } else {
        None
    }
}

/// The char range of the first separating marker in `s`.
pub open spec fn find_marker(s: Seq<char>, ms: Seq<Seq<char>>, require_space_after: bool) -> Option<
    (int, int),
> {
    find_marker_from(s, ms, require_space_after, 0)
}

/// Markers that start with a small ASCII letter.
pub open spec fn letter_led(ms: Seq<Seq<char>>) -> bool {
    forall|k: int| 0 <= k < ms.len() ==> ms[k].len() > 0 && 'a' <= #[trigger] ms[k][0] <= 'z'
}

proof fn lemma_first_fitting(s: Seq<char>, i: int, ms: Seq<Seq<char>>, req: bool, k: int)
    requires
        first_fitting(s, i, ms, req, k) is Some,
    ensures
        0 <= first_fitting(s, i, ms, req, k)->0 < ms.len(),
        marker_fits(s, i, ms[first_fitting(s, i, ms, req, k)->0], req),
    decreases ms.len() - k,
{
    if 0 <= k < ms.len() && !marker_fits(s, i, ms[k], req) {
        lemma_first_fitting(s, i, ms, req, k + 1);
    }
}

/// A found marker starts at a weighty character strictly inside the text and
/// ends after it.
pub proof fn lemma_find_marker(s: Seq<char>, ms: Seq<Seq<char>>, req: bool, i: int)
    requires
        letter_led(ms),
        find_marker_from(s, ms, req, i) is Some,
    ensures
        ({
            let (a, b) = find_marker_from(s, ms, req, i)->0;
            0 < a < b <= s.len() && is_weighty(s[a])
        }),
    decreases s.len() - i,
{
    if i < s.len() {
        if may_start_marker(s, i) && first_fitting(s, i, ms, req, 0) is Some {
            lemma_first_fitting(s, i, ms, req, 0);
            let k = first_fitting(s, i, ms, req, 0)->0;
            let m = ms[k];
            assert(m.len() > 0 && 'a' <= m[0] <= 'z');
            assert(s.subrange(i, i + m.len())[0] == s[i]);
            assert(ascii_lower(s[i]) == ascii_lower(m[0]));
        } else {
            lemma_find_marker(s, ms, req, i + 1);
        }
    }
}

/// The first marker from `ms` that separates `cs` at `i`.
fn first_fitting_exec(cs: &Vec<char>, i: usize, ms: &Vec<Vec<char>>, require_space_after: bool) -> (r:
    Option<usize>)
    requires
        i < cs@.len(),
    ensures
        r matches Some(k) ==> first_fitting(cs@, i as int, char_vecs_view(ms@), require_space_after, 0)
            == Some(k as int) && k < ms@.len() && i + ms@[k as int]@.len() <= cs@.len(),
        r is None ==> first_fitting(cs@, i as int, char_vecs_view(ms@), require_space_after, 0) is None,
{
    let ghost msv = char_vecs_view(ms@);
    let mut k: usize = 0;
    while k < ms.len()
        invariant
            i < cs@.len(),
            k <= ms@.len(),
            msv == char_vecs_view(ms@),
            first_fitting(cs@, i as int, msv, require_space_after, 0) == first_fitting(
                cs@,
                i as int,
                msv,
                require_space_after,
                k as int,
            ),
        decreases ms@.len() - k,
    {
        let m = &ms[k];
        assert(msv[k as int] == m@);
        if eq_ignore_ascii_case_at(cs, i, m) {
            assert(i + m.len() <= cs.len());
            let end = i + m.len();
            let space_next = if end < cs.len() {
                is_whitespace(cs[end])
            } else {
                !require_space_after
            };
            let period = m.len() > 0 && m[m.len() - 1] == '.' && end < cs.len();
            if space_next || period {
                return Some(k);
            }
        }
        k += 1;
    }
    None
}

/// The char range of the first separating marker in `s`.
///
/// A marker only separates where a space precedes it, so "Taylor Swift."
/// keeps the "ft." inside "Swift". It must also be followed by a space
/// unless it ends in a period. `require_space_after` also rejects a marker at
/// the very end, which keeps "Malcolm X" whole.
pub fn find_marker_exec(cs: &Vec<char>, ms: &Vec<Vec<char>>, require_space_after: bool) -> (r:
    Option<(usize, usize)>)
    ensures
        r matches Some((a, b)) ==> find_marker(cs@, char_vecs_view(ms@), require_space_after)
            == Some((a as int, b as int)),
        r is None ==> find_marker(cs@, char_vecs_view(ms@), require_space_after) is None,
{
    let ghost msv = char_vecs_view(ms@);
    let n = cs.len();
    let mut i: usize = 0;
    while i < n
        invariant
            n == cs@.len(),
            i <= n,
            msv == char_vecs_view(ms@),
            find_marker(cs@, msv, require_space_after) == find_marker_from(
                cs@,
                msv,
                require_space_after,
                i as int,
            ),
        decreases n - i,
    {
        if i > 0 && is_whitespace(cs[i - 1]) && !is_whitespace(cs[i]) {
            match first_fitting_exec(cs, i, ms, require_space_after) {
                Some(k) => {
                    assert(msv[k as int] == ms@[k as int]@);
                    return Some((i, i + ms[k].len()));
                },
                None => {},
            }
        }
        i += 1;
    }
    None
}


/// Delimiters a tagger writes between values it already considers separate:
/// the ID3v2.4 / Vorbis multi-value separator and its CJK equivalents.
pub open spec fn is_hard_delimiter(c: char) -> bool {
    c == ';' || c == '；' || c == '、'
}

/// The positions of the hard delimiters of `s`.
pub open spec fn hard_mask(s: Seq<char>) -> Seq<bool> {
    Seq::new(s.len(), |i: int| is_hard_delimiter(s[i]))
}

/// Bullets, which some taggers use to join a whole contributor list.
pub open spec fn is_bullet(c: char) -> bool {
    c == '•' || c == '∙' || c == '·' || c == '・' || c == '･'
}

/// A bullet with a space on both sides: unpadded, every bullet turns up
/// inside real names.
pub open spec fn padded_bullet(s: Seq<char>, i: int) -> bool {
    0 < i && i + 1 < s.len() && is_bullet(s[i]) && is_ws(s[i - 1]) && is_ws(s[i + 1])
}

/// The positions of the padded bullets of `s`.
pub open spec fn bullet_mask(s: Seq<char>) -> Seq<bool> {
    Seq::new(s.len(), |i: int| padded_bullet(s, i))
}

/// Whether `s` holds a padded bullet.
pub open spec fn has_padded_bullet(s: Seq<char>) -> bool {
    exists|i: int| 0 <= i < s.len() && #[trigger] padded_bullet(s, i)
}

/// The positions of the commas of `s`.
pub open spec fn comma_mask(s: Seq<char>) -> Seq<bool> {
    Seq::new(s.len(), |i: int| s[i] == ',')
}

/// Splits `s` at its hard delimiters.
pub fn split_hard<'a>(s: &'a str) -> (r: Vec<&'a str>)
    ensures
        strs_view(r@) == split_mask(s@, hard_mask(s@)),
{
    let cs = chars_of(s);
    let mut cut: Vec<bool> = Vec::new();
    let mut i: usize = 0;
    while i < cs.len()
        invariant
            cs@ == s@,
            i <= cs@.len(),
            cut@ =~= hard_mask(s@).take(i as int),
        decreases cs@.len() - i,
    {
        let c = cs[i];
        cut.push(c == ';' || c == '；' || c == '、');
        i += 1;
    }
    assert(cut@ =~= hard_mask(s@));
    split_at_mask(s, &cut)
}

/// Splits `s` at its commas.
pub fn split_commas<'a>(s: &'a str) -> (r: Vec<&'a str>)
    ensures
        strs_view(r@) == split_mask(s@, comma_mask(s@)),
{
    let cs = chars_of(s);
    let mut cut: Vec<bool> = Vec::new();
    let mut i: usize = 0;
    while i < cs.len()
        invariant
            cs@ == s@,
            i <= cs@.len(),
            cut@ =~= comma_mask(s@).take(i as int),
        decreases cs@.len() - i,
    {
        cut.push(cs[i] == ',');
        i += 1;
    }
    assert(cut@ =~= comma_mask(s@));
    split_at_mask(s, &cut)
}

/// The segments of a bullet-joined list, or None when no padded bullet
/// splits it.
pub fn bullet_segments<'a>(s: &'a str) -> (r: Option<Vec<&'a str>>)
    ensures
        r is Some <==> has_padded_bullet(s@),
        r matches Some(v) ==> strs_view(v@) == split_mask(s@, bullet_mask(s@)),
{
    let cs = chars_of(s);
    let n = cs.len();
    let mut cut: Vec<bool> = Vec::new();
    let mut any = false;
    let mut i: usize = 0;
    while i < n
        invariant
            cs@ == s@,
            n == cs@.len(),
            i <= n,
            cut@ =~= bullet_mask(s@).take(i as int),
            any <==> exists|j: int| 0 <= j < i && #[trigger] padded_bullet(s@, j),
        decreases n - i,
    {
        let c = cs[i];
        let b = 0 < i && i + 1 < n && (c == '•' || c == '∙' || c == '·' || c == '・' || c == '･')
            && is_whitespace(cs[i - 1]) && is_whitespace(cs[i + 1]);
        assert(b == padded_bullet(s@, i as int));
        cut.push(b);
        any = any || b;
        i += 1;
    }
    if !any {
        return None;
    }
    assert(cut@ =~= bullet_mask(s@));
    Some(split_at_mask(s, &cut))
}

/// A split always yields at least one piece.
pub proof fn lemma_split_mask_nonempty(s: Seq<char>, cut: Seq<bool>, start: int, i: int)
    ensures
        split_mask_from(s, cut, start, i).len() >= 1,
    decreases s.len() - i,
{
    if i < s.len() {
        if cut[i] {
            lemma_split_mask_nonempty(s, cut, i + 1, i + 1);
        } else {
            lemma_split_mask_nonempty(s, cut, start, i + 1);
        }
    }
}

/// Every bullet segment weighs strictly less than the list it came from.
pub proof fn lemma_bullet_segment_weight(s: Seq<char>, k: int)
    requires
        has_padded_bullet(s),
        0 <= k < split_mask(s, bullet_mask(s)).len(),
    ensures
        weight(split_mask(s, bullet_mask(s))[k]) < weight(s),
{
    let j = choose|j: int| 0 <= j < s.len() && #[trigger] padded_bullet(s, j);
    let cut = bullet_mask(s);
    assert(cut[j]);
    assert(is_weighty(s[j]));
    lemma_cut_weight_positive(s, cut, 0, j);
    lemma_split_mask_piece_weight(s, cut, k);
}

/// Every piece between hard delimiters weighs at most the credit.
pub proof fn lemma_hard_piece_weight(s: Seq<char>, k: int)
    requires
        0 <= k < split_mask(s, hard_mask(s)).len(),
    ensures
        weight(split_mask(s, hard_mask(s))[k]) <= weight(s),
{
    lemma_split_mask_piece_weight(s, hard_mask(s), k);
}

/// The leading run of non-space characters of `t`.
pub open spec fn first_word(t: Seq<char>) -> Seq<char>
    decreases t.len(),
{
    if t.len() > 0 && !is_ws(t[0]) {
        seq![t[0]] + first_word(t.drop_first())
    } else {
        Seq::empty()
    }
}

/// Words that open the tail of one name ("Tyler, The Creator") rather than
/// the next entry in a guest list.
pub open spec fn continuation_words() -> Seq<Seq<char>> {
    seq![seq!['t', 'h', 'e'], seq!['a'], seq!['a', 'n']]
}

/// Whether the first word of `piece` is a continuation word, in any ASCII
/// case.
pub open spec fn opens_continuation(piece: Seq<char>) -> bool {
    let t = trim_start(piece);
    t.len() > 0 && exists|k: int|
        0 <= k < continuation_words().len() && eq_ignore_ascii_case(
            first_word(t),
            #[trigger] continuation_words()[k],
        )
}

/// Whether the first word of `piece` is a continuation word.
pub fn opens_continuation_exec(piece: &str) -> (r: bool)
    ensures
        r == opens_continuation(piece@),
{
    let cs = chars_of(piece);
    let n = cs.len();
    let mut lo: usize = 0;
    assert(cs@.subrange(0, n as int) =~= cs@);
    while lo < n && is_whitespace(cs[lo])
        invariant
            n == cs@.len(),
            lo <= n,
            trim_start(cs@) == trim_start(cs@.subrange(lo as int, n as int)),
        decreases n - lo,
    {
        assert(cs@.subrange(lo as int, n as int).drop_first() =~= cs@.subrange(lo + 1, n as int));
        lo += 1;
    }
    if lo == n {
        return false;
    }
    let ghost t = cs@.subrange(lo as int, n as int);
    assert(trim_start(cs@) == t);
    assert(cs@ == piece@);
    let mut hi: usize = lo;
    assert(cs@.subrange(lo as int, lo as int) + t =~= t);
    while hi < n && !is_whitespace(cs[hi])
        invariant
            n == cs@.len(),
            lo <= hi <= n,
            t == cs@.subrange(lo as int, n as int),
            first_word(t) == cs@.subrange(lo as int, hi as int) + first_word(
                cs@.subrange(hi as int, n as int),
            ),
        decreases n - hi,
    {
        let ghost rest = cs@.subrange(hi as int, n as int);
        assert(rest.drop_first() =~= cs@.subrange(hi + 1, n as int));
        assert(cs@.subrange(lo as int, hi as int) + (seq![rest[0]] + first_word(rest.drop_first()))
            =~= cs@.subrange(lo as int, hi + 1) + first_word(cs@.subrange(hi + 1, n as int)));
        hi += 1;
    }
    let ghost word = cs@.subrange(lo as int, hi as int);
    assert(first_word(cs@.subrange(hi as int, n as int)) =~= Seq::<char>::empty());
    assert(first_word(t) =~= word);
    let words: Vec<Vec<char>> = vec![vec!['t', 'h', 'e'], vec!['a'], vec!['a', 'n']];
    assert(words@[0]@ =~= seq!['t', 'h', 'e']);
    assert(words@[1]@ =~= seq!['a']);
    assert(words@[2]@ =~= seq!['a', 'n']);
    let mut k: usize = 0;
    while k < words.len()
        invariant
            n == cs@.len(),
            lo <= hi <= n,
            word == cs@.subrange(lo as int, hi as int),
            first_word(t) == word,
            t == trim_start(piece@),
            t.len() > 0,
            words@.len() == 3,
            forall|j: int| 0 <= j < 3 ==> words@[j]@ == #[trigger] continuation_words()[j],
            k <= 3,
            forall|j: int|
                0 <= j < k ==> !eq_ignore_ascii_case(word, #[trigger] continuation_words()[j]),
        decreases 3 - k,
    {
        let w = &words[k];
        assert(w@ == continuation_words()[k as int]);
        if hi - lo == w.len() && eq_ignore_ascii_case_at(&cs, lo, w) {
            assert(cs@.subrange(lo as int, lo + w@.len()) == word);
            assert(eq_ignore_ascii_case(first_word(t), continuation_words()[k as int]));
            return true;
        }
        assert(hi - lo == w@.len() ==> cs@.subrange(lo as int, lo + w@.len()) == word);
        k += 1;
    }
    false
}

/// A comma and a space, which joins a continuation to the name before it.
pub open spec fn comma_space() -> Seq<char> {
    seq![',', ' ']
}

/// One step of collecting comma-separated guests: an empty piece is dropped,
/// a piece that opens with a continuation word is joined to the previous
/// segment, and any other piece starts a new segment.
pub open spec fn comma_step(acc: Seq<Seq<char>>, raw: Seq<char>) -> Seq<Seq<char>> {
    let piece = trim(raw);
    if piece.len() == 0 {
        acc
    } else if opens_continuation(piece) && acc.len() > 0 {
        acc.update(acc.len() - 1, acc.last() + comma_space() + piece)
    } else {
        acc.push(piece)
    }
}

/// The segments collected from the comma-separated `raws`.
pub open spec fn comma_fold(raws: Seq<Seq<char>>) -> Seq<Seq<char>>
    decreases raws.len(),
{
    if raws.len() == 0 {
        Seq::empty()
    } else {
        comma_step(comma_fold(raws.drop_last()), raws.last())
    }
}

/// The comma-separated segments of a guest list, with a trailing article
/// kept with its name.
pub open spec fn comma_segments(tail: Seq<char>) -> Seq<Seq<char>> {
    comma_fold(split_mask(tail, comma_mask(tail)))
}

/// The comma-separated segments of a guest list.
pub fn comma_segments_exec(tail: &str) -> (r: Vec<String>)
    ensures
        strings_view(r@) == comma_segments(tail@),
{
    let raws = split_commas(tail);
    let ghost rv = strs_view(raws@);
    let mut segs: Vec<String> = Vec::new();
    let mut k: usize = 0;
    proof {
        reveal_strlit(", ");
    }
    assert(", "@ =~= comma_space());
    while k < raws.len()
        invariant
            rv == strs_view(raws@),
            rv == split_mask(tail@, comma_mask(tail@)),
            k <= raws@.len(),
            strings_view(segs@) == comma_fold(rv.take(k as int)),
            ", "@ == comma_space(),
        decreases raws@.len() - k,
    {
        let ghost acc = strings_view(segs@);
        assert(rv.take(k + 1).drop_last() =~= rv.take(k as int));
        assert(rv[k as int] == raws@[k as int]@);
        let piece = trim_str(raws[k]);
        if piece.unicode_len() == 0 {
        } else if segs.len() > 0 && opens_continuation_exec(piece) {
            let mut last = segs.pop().unwrap();
            last.append(", ");
            last.append(piece);
            segs.push(last);
            assert(strings_view(segs@) =~= acc.update(acc.len() - 1, acc.last() + comma_space()
                + piece@));
        } else {
            segs.push(String::from_str(piece));
            assert(strings_view(segs@) =~= acc.push(piece@));
        }
        k += 1;
    }
    assert(rv.take(raws@.len() as int) =~= rv);
    segs
}

/// The separator between names inside one guest segment.
pub open spec fn amp_sep() -> Seq<char> {
    seq![' ', '&', ' ']
}

/// The spelled-out separator between names inside one guest segment.
pub open spec fn and_sep() -> Seq<char> {
    seq![' ', 'a', 'n', 'd', ' ']
}

/// The names of one guest segment: split at " & ", then each part at " and ".
pub open spec fn segment_names(seg: Seq<char>) -> Seq<Seq<char>> {
    split_pattern(seg, amp_sep()).map_values(|x: Seq<char>| split_pattern(x, and_sep())).flatten_alt()
}

/// The names of a guest list, in order.
pub open spec fn guest_names(tail: Seq<char>) -> Seq<Seq<char>> {
    comma_segments(tail).map_values(|seg: Seq<char>| segment_names(seg)).flatten_alt()
}

/// Appends the names of one guest segment to `out`.
fn push_segment_names(seg: &str, out: &mut Vec<String>)
    ensures
        strings_view(final(out)@) == strings_view(old(out)@) + segment_names(seg@),
{
    proof {
        reveal_strlit(" & ");
        reveal_strlit(" and ");
    }
    assert(" & "@ =~= amp_sep());
    assert(" and "@ =~= and_sep());
    let amps = split_pattern_exec(seg, " & ");
    let ghost av = strs_view(amps@);
    let ghost z = av.map_values(|x: Seq<char>| split_pattern(x, and_sep()));
    let ghost out0 = strings_view(out@);
    let mut j: usize = 0;
    while j < amps.len()
        invariant
            av == strs_view(amps@),
            av == split_pattern(seg@, amp_sep()),
            z == av.map_values(|x: Seq<char>| split_pattern(x, and_sep())),
            j <= amps@.len(),
            strings_view(out@) == out0 + z.take(j as int).flatten_alt(),
            " and "@ == and_sep(),
        decreases amps@.len() - j,
    {
        assert(av[j as int] == amps@[j as int]@);
        let ands = split_pattern_exec(amps[j], " and ");
        let ghost nv = strs_view(ands@);
        let ghost before = strings_view(out@);
        let mut l: usize = 0;
        while l < ands.len()
            invariant
                nv == strs_view(ands@),
                l <= ands@.len(),
                strings_view(out@) == before + nv.take(l as int),
            decreases ands@.len() - l,
        {
            let ghost prev = strings_view(out@);
            out.push(String::from_str(ands[l]));
            assert(nv[l as int] == ands@[l as int]@);
            assert(strings_view(out@) =~= prev.push(nv[l as int]));
            assert(nv.take(l + 1) =~= nv.take(l as int).push(nv[l as int]));
            assert(before + nv.take(l + 1) =~= (before + nv.take(l as int)).push(nv[l as int]));
            l += 1;
        }
        assert(nv.take(ands@.len() as int) =~= nv);
        assert(z.take(j + 1).drop_last() =~= z.take(j as int));
        assert(z[j as int] == nv);
        assert(z.take(j + 1).flatten_alt() == z.take(j as int).flatten_alt() + nv);
        assert(out0 + z.take(j + 1).flatten_alt() =~= out0 + z.take(j as int).flatten_alt() + nv);
        j += 1;
    }
    assert(z.take(amps@.len() as int) =~= z);
}

/// The names of a guest list, in order.
pub fn guest_names_exec(tail: &str) -> (r: Vec<String>)
    ensures
        strings_view(r@) == guest_names(tail@),
{
    let segs = comma_segments_exec(tail);
    let ghost sv = strings_view(segs@);
    let ghost y = sv.map_values(|seg: Seq<char>| segment_names(seg));
    let mut out: Vec<String> = Vec::new();
    let mut i: usize = 0;
    assert(y.take(0).flatten_alt() =~= Seq::<Seq<char>>::empty());
    while i < segs.len()
        invariant
            sv == strings_view(segs@),
            sv == comma_segments(tail@),
            y == sv.map_values(|seg: Seq<char>| segment_names(seg)),
            i <= segs@.len(),
            strings_view(out@) == y.take(i as int).flatten_alt(),
        decreases segs@.len() - i,
    {
        assert(sv[i as int] == segs@[i as int]@);
        push_segment_names(segs[i].as_str(), &mut out);
        assert(y.take(i + 1).drop_last() =~= y.take(i as int));
        i += 1;
    }
    assert(y.take(segs@.len() as int) =~= y);
    out
}


proof fn lemma_weight_sum_push(acc: Seq<Seq<char>>, x: Seq<char>)
    ensures
        weight_sum(acc.push(x)) == weight_sum(acc) + weight(x),
{
    let one = seq![x];
    lemma_weight_sum_concat(acc, one);
    assert(acc.push(x) =~= acc + one);
    assert(one.drop_first() =~= Seq::<Seq<char>>::empty());
    assert(weight_sum(one) == weight(one[0]) + weight_sum(one.drop_first()));
}

proof fn lemma_weight_sum_last(ps: Seq<Seq<char>>)
    requires
        ps.len() > 0,
    ensures
        weight_sum(ps) == weight_sum(ps.drop_last()) + weight(ps.last()),
{
    assert(ps =~= ps.drop_last().push(ps.last()));
    lemma_weight_sum_push(ps.drop_last(), ps.last());
}

proof fn lemma_comma_space_weight()
    ensures
        weight(comma_space()) == 0,
{
    let cs = comma_space();
    assert(cs.drop_last() =~= seq![',']);
    assert(seq![','].drop_last() =~= Seq::<char>::empty());
    assert(weight(seq![',']) == weight(seq![','].drop_last()) + 0);
    assert(weight(cs) == weight(cs.drop_last()) + 0);
}

/// Collecting comma segments never adds weight.
proof fn lemma_comma_fold_weight(raws: Seq<Seq<char>>)
    ensures
        weight_sum(comma_fold(raws)) <= weight_sum(raws),
    decreases raws.len(),
{
    if raws.len() > 0 {
        let prev = raws.drop_last();
        lemma_comma_fold_weight(prev);
        lemma_weight_sum_last(raws);
        let acc = comma_fold(prev);
        let piece = trim(raws.last());
        lemma_weight_trim(raws.last());
        if piece.len() == 0 {
        } else if opens_continuation(piece) && acc.len() > 0 {
            let joined = acc.last() + comma_space() + piece;
            lemma_weight_concat(acc.last() + comma_space(), piece);
            lemma_weight_concat(acc.last(), comma_space());
            lemma_comma_space_weight();
            lemma_weight_sum_last(acc);
            let upd = acc.update(acc.len() - 1, joined);
            assert(upd =~= acc.drop_last().push(joined));
            lemma_weight_sum_push(acc.drop_last(), joined);
        } else {
            lemma_weight_sum_push(acc, piece);
        }
    }
}

/// Flattening lists that each weigh at most their source weighs at most the
/// sources together.
proof fn lemma_flatten_weight(ys: Seq<Seq<Seq<char>>>, xs: Seq<Seq<char>>)
    requires
        ys.len() == xs.len(),
        forall|i: int| 0 <= i < ys.len() ==> weight_sum(#[trigger] ys[i]) <= weight(xs[i]),
    ensures
        weight_sum(ys.flatten_alt()) <= weight_sum(xs),
    decreases ys.len(),
{
    if ys.len() > 0 {
        lemma_flatten_weight(ys.drop_last(), xs.drop_last());
        lemma_weight_sum_concat(ys.drop_last().flatten_alt(), ys.last());
        lemma_weight_sum_last(xs);
        assert(weight_sum(ys[ys.len() - 1]) <= weight(xs[ys.len() - 1]));
    } else {
        assert(ys.flatten_alt() =~= Seq::<Seq<char>>::empty());
    }
}

proof fn lemma_split_pattern_total(s: Seq<char>, pat: Seq<char>)
    ensures
        weight_sum(split_pattern(s, pat)) <= weight(s),
{
    lemma_split_pattern_weight(s, pat, 0, 0);
    assert(s.subrange(0, s.len() as int) =~= s);
}

proof fn lemma_segment_names_weight(seg: Seq<char>)
    ensures
        weight_sum(segment_names(seg)) <= weight(seg),
{
    let amps = split_pattern(seg, amp_sep());
    let ys = amps.map_values(|x: Seq<char>| split_pattern(x, and_sep()));
    assert forall|i: int| 0 <= i < ys.len() implies weight_sum(#[trigger] ys[i]) <= weight(amps[i]) by {
        lemma_split_pattern_total(amps[i], and_sep());
    }
    lemma_flatten_weight(ys, amps);
    lemma_split_pattern_total(seg, amp_sep());
}

/// No guest name weighs more than the guest list it came from.
pub proof fn lemma_guest_name_weight(tail: Seq<char>, k: int)
    requires
        0 <= k < guest_names(tail).len(),
    ensures
        weight(guest_names(tail)[k]) <= weight(tail),
{
    let segs = comma_segments(tail);
    let ys = segs.map_values(|seg: Seq<char>| segment_names(seg));
    assert forall|i: int| 0 <= i < ys.len() implies weight_sum(#[trigger] ys[i]) <= weight(segs[i]) by {
        lemma_segment_names_weight(segs[i]);
    }
    lemma_flatten_weight(ys, segs);
    let raws = split_mask(tail, comma_mask(tail));
    lemma_comma_fold_weight(raws);
    lemma_split_mask_weight(tail, comma_mask(tail), 0, 0);
    assert(tail.subrange(0, tail.len() as int) =~= tail);
    lemma_weight_sum_member(guest_names(tail), k);
}

} // verus!
