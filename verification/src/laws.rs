//! What holds of every credit the splitter is given.

use vstd::prelude::*;
use crate::text::{
    eq_ignore_ascii_case, lemma_trim_of_trimmed, lemma_trim_runs, is_trimmed_nonempty, is_ws, lemma_trim_idempotent, lemma_trim_shape, split_mask,
    split_mask_from, trim, trim_start,
};
use crate::markers::{
    bullet_mask, collab_markers, continuation_words, feature_markers, find_marker, first_word,
    hard_mask, has_padded_bullet, is_hard_delimiter, opens_continuation,
};
use crate::album::{is_album_order, key_before, TrackOrderKey};
use crate::artist::{
    bullet_tail_names, bulleted_names, credit_from, credit_names, credited_names, is_known,
    lemma_pushed_names_concat, named_in, part_names, pushed_name, pushed_names, same_artist,
};

verus! {

/// No two names of `out` are the same artist.
pub open spec fn distinct_artists(out: Seq<Seq<char>>) -> bool {
    forall|i: int, j: int| 0 <= i < j < out.len() ==> !same_artist(#[trigger] out[i], #[trigger] out[j])
}

/// Every name of `out` is non-empty and has no outer whitespace.
pub open spec fn all_trimmed(out: Seq<Seq<char>>) -> bool {
    forall|i: int| 0 <= i < out.len() ==> is_trimmed_nonempty(#[trigger] out[i])
}

/// Offering names to a list of distinct trimmed artists keeps it so, keeps
/// what it held in front, keeps the artist of every non-blank name offered,
/// and adds only trimmed names that were offered.
pub proof fn law_offering_names(out: Seq<Seq<char>>, names: Seq<Seq<char>>)
    requires
        distinct_artists(out),
        all_trimmed(out),
    ensures
        ({
            let r = pushed_names(out, names);
            &&& distinct_artists(r)
            &&& all_trimmed(r)
            &&& out.len() <= r.len()
            &&& r.subrange(0, out.len() as int) == out
            &&& forall|k: int|
                0 <= k < names.len() && trim(#[trigger] names[k]).len() > 0 ==> is_known(
                    r,
                    trim(names[k]),
                )
            &&& forall|i: int|
                out.len() <= i < r.len() ==> exists|k: int|
                    0 <= k < names.len() && #[trigger] r[i] == trim(#[trigger] names[k])
        }),
    decreases names.len(),
{
    let r = pushed_names(out, names);
    if names.len() == 0 {
        assert(out.subrange(0, out.len() as int) =~= out);
    } else {
        let prev = names.drop_last();
        law_offering_names(out, prev);
        let r0 = pushed_names(out, prev);
        let x = names.last();
        let n = trim(x);
        assert(r == pushed_name(r0, x));
        lemma_trim_shape(x);
        if n.len() == 0 || is_known(r0, n) {
            assert forall|k: int|
                0 <= k < names.len() && trim(#[trigger] names[k]).len() > 0 implies is_known(
                r,
                trim(names[k]),
            ) by {
                if k < prev.len() {
                    assert(prev[k] == names[k]);
                }
            }
            assert forall|i: int| out.len() <= i < r.len() implies exists|k: int|
                0 <= k < names.len() && #[trigger] r[i] == trim(#[trigger] names[k]) by {
                let k = choose|k: int| 0 <= k < prev.len() && #[trigger] r0[i] == trim(#[trigger] prev[k]);
                assert(prev[k] == names[k]);
            }
        } else {
            assert(r == r0.push(n));
            assert forall|i: int, j: int| 0 <= i < j < r.len() implies !same_artist(
                #[trigger] r[i],
                #[trigger] r[j],
            ) by {
                if j == r0.len() {
                    assert(r[i] == r0[i]);
                    assert(!same_artist(r0[i], n));
                } else {
                    assert(r[i] == r0[i] && r[j] == r0[j]);
                }
            }
            assert forall|i: int| 0 <= i < r.len() implies is_trimmed_nonempty(#[trigger] r[i]) by {
                if i < r0.len() {
                    assert(r[i] == r0[i]);
                }
            }
            assert(r.subrange(0, out.len() as int) =~= r0.subrange(0, out.len() as int));
            assert forall|k: int|
                0 <= k < names.len() && trim(#[trigger] names[k]).len() > 0 implies is_known(
                r,
                trim(names[k]),
            ) by {
                if k < prev.len() {
                    assert(prev[k] == names[k]);
                    assert(is_known(r0, trim(prev[k])));
                    let j = choose|j: int| 0 <= j < r0.len() && same_artist(#[trigger] r0[j], trim(prev[k]));
                    assert(r[j] == r0[j]);
                } else {
                    assert(r[r0.len() as int] == n);
                }
            }
            assert forall|i: int| out.len() <= i < r.len() implies exists|k: int|
                0 <= k < names.len() && #[trigger] r[i] == trim(#[trigger] names[k]) by {
                if i < r0.len() {
                    let k = choose|k: int| 0 <= k < prev.len() && #[trigger] r0[i] == trim(#[trigger] prev[k]);
                    assert(prev[k] == names[k]);
                    assert(r[i] == r0[i]);
                } else {
                    assert(names[names.len() - 1] == x);
                    assert(r[i] == trim(names[names.len() - 1]));
                }
            }
        }
    }
}

/// `split_credit` never names one artist twice, in any case, and every name
/// it gives is non-empty with no outer whitespace.
pub proof fn law_split_credit_distinct(s: Seq<char>)
    ensures
        distinct_artists(credit_names(s)),
        all_trimmed(credit_names(s)),
{
    law_offering_names(Seq::empty(), credit_from(s, 0));
}

/// `credited` never names one artist twice, in any case, and every name it
/// gives is non-empty with no outer whitespace.
pub proof fn law_credited_distinct(primary: Seq<char>, structured: Seq<Seq<char>>)
    ensures
        distinct_artists(credited_names(primary, structured)),
        all_trimmed(credited_names(primary, structured)),
{
    law_offering_names(
        Seq::empty(),
        structured.map_values(|v: Seq<char>| credit_from(v, 0)).flatten_alt(),
    );
    law_offering_names(Seq::empty(), part_names(primary));
}

/// `split_credit` keeps the artist of every name the credit offers, and
/// gives no name that was not offered.
pub proof fn law_split_credit_keeps_offered(s: Seq<char>)
    ensures
        forall|k: int|
            0 <= k < credit_from(s, 0).len() && trim(#[trigger] credit_from(s, 0)[k]).len() > 0
                ==> is_known(credit_names(s), trim(credit_from(s, 0)[k])),
        forall|i: int|
            0 <= i < credit_names(s).len() ==> exists|k: int|
                0 <= k < credit_from(s, 0).len() && #[trigger] credit_names(s)[i] == trim(
                    #[trigger] credit_from(s, 0)[k],
                ),
{
    law_offering_names(Seq::empty(), credit_from(s, 0));
}

proof fn lemma_split_without_cuts(s: Seq<char>, cut: Seq<bool>, start: int, i: int)
    requires
        0 <= start <= i <= s.len(),
        forall|j: int| i <= j < s.len() ==> !cut[j],
    ensures
        split_mask_from(s, cut, start, i) == seq![s.subrange(start, s.len() as int)],
    decreases s.len() - i,
{
    if i < s.len() {
        lemma_split_without_cuts(s, cut, start, i + 1);
    }
}

/// A credit with no hard delimiter is one piece.
proof fn lemma_one_piece(s: Seq<char>)
    requires
        forall|i: int| 0 <= i < s.len() ==> s[i] != ';' && s[i] != '；' && s[i] != '、',
    ensures
        split_mask(s, hard_mask(s)) == seq![s],
        credit_from(s, 0) == part_names(s),
{
    assert forall|i: int| 0 <= i < s.len() implies !#[trigger] hard_mask(s)[i] by {
        assert(s[i] != ';' && s[i] != '；' && s[i] != '、');
    }
    lemma_split_without_cuts(s, hard_mask(s), 0, 0);
    assert(s.subrange(0, s.len() as int) =~= s);
    assert(credit_from(s, 1) == Seq::<Seq<char>>::empty());
    assert(part_names(s) + Seq::<Seq<char>>::empty() =~= part_names(s));
}

/// A credit that nothing marks as a join names one artist: itself, trimmed.
/// Only ';', '；' and '、' are hard delimiters; any other character, such as
/// the '!' of "P!nk", is part of a name.
pub proof fn law_plain_name_passes_through(s: Seq<char>)
    requires
        forall|i: int| 0 <= i < s.len() ==> s[i] != ';' && s[i] != '；' && s[i] != '、',
        trim(s).len() > 0,
        !has_padded_bullet(trim(s)),
        find_marker(trim(s), collab_markers(), true) is None,
        find_marker(trim(s), feature_markers(), false) is None,
    ensures
        credit_names(s) == seq![trim(s)],
{
    lemma_one_piece(s);
    assert(part_names(s) == seq![trim(s)]);
    lemma_trim_idempotent(s);
    assert(seq![trim(s)].drop_last() =~= Seq::<Seq<char>>::empty());
    assert(pushed_names(Seq::empty(), Seq::<Seq<char>>::empty()) == Seq::<Seq<char>>::empty());
    assert(!is_known(Seq::empty(), trim(s)));
    assert(pushed_name(Seq::empty(), trim(s)) =~= seq![trim(s)]);
}

proof fn lemma_blank_trims_away(s: Seq<char>)
    requires
        forall|i: int| 0 <= i < s.len() ==> is_ws(#[trigger] s[i]),
    ensures
        trim_start(s).len() == 0,
    decreases s.len(),
{
    if s.len() > 0 {
        assert forall|i: int| 0 <= i < s.drop_first().len() implies is_ws(
            #[trigger] s.drop_first()[i],
        ) by {
            assert(s.drop_first()[i] == s[i + 1]);
        }
        lemma_blank_trims_away(s.drop_first());
    }
}

/// A credit of nothing but whitespace names no artist.
pub proof fn law_blank_credit_names_nobody(s: Seq<char>)
    requires
        forall|i: int| 0 <= i < s.len() ==> is_ws(#[trigger] s[i]),
    ensures
        credit_names(s) == Seq::<Seq<char>>::empty(),
{
    assert forall|i: int| 0 <= i < s.len() implies s[i] != ';' && s[i] != '；' && s[i] != '、' by {
        assert(is_ws(s[i]));
    }
    lemma_one_piece(s);
    lemma_blank_trims_away(s);
    assert(trim(s).len() == 0);
}

/// With one per-artist value that names anybody, `credited` gives exactly
/// what `split_credit` gives for that value.
pub proof fn law_credited_single_value(primary: Seq<char>, value: Seq<char>)
    requires
        credit_names(value).len() > 0,
    ensures
        credited_names(primary, seq![value]) == credit_names(value),
{
    let ys = seq![value].map_values(|v: Seq<char>| credit_from(v, 0));
    assert(ys =~= seq![credit_from(value, 0)]);
    assert(ys.drop_last() =~= Seq::<Seq<Seq<char>>>::empty());
    assert(ys.drop_last().flatten_alt() =~= Seq::<Seq<char>>::empty());
    assert(ys.flatten_alt() =~= credit_from(value, 0));
}

/// With no per-artist values, `credited` falls back to the display string,
/// which it splits as `split_credit` does when it holds no hard delimiter.
pub proof fn law_credited_falls_back(primary: Seq<char>)
    requires
        forall|i: int| 0 <= i < primary.len() ==> primary[i] != ';' && primary[i] != '；' && primary[i] != '、',
    ensures
        credited_names(primary, Seq::empty()) == credit_names(primary),
{
    let ys = Seq::<Seq<char>>::empty().map_values(|v: Seq<char>| credit_from(v, 0));
    assert(ys =~= Seq::<Seq<Seq<char>>>::empty());
    assert(ys.flatten_alt() =~= Seq::<Seq<char>>::empty());
    lemma_one_piece(primary);
}


/// Of the spellings offered for one artist, the first one is kept: every
/// name given is the trimmed form of an offered name, and no earlier offered
/// name spells the same artist.
pub proof fn law_first_spelling_kept(names: Seq<Seq<char>>)
    ensures
        forall|i: int|
            0 <= i < pushed_names(Seq::empty(), names).len() ==> exists|k: int|
                0 <= k < names.len() && #[trigger] pushed_names(Seq::empty(), names)[i] == trim(
                    names[k],
                ) && forall|k2: int|
                    0 <= k2 < k ==> trim(#[trigger] names[k2]).len() == 0 || !same_artist(
                        trim(names[k2]),
                        trim(names[k]),
                    ),
    decreases names.len(),
{
    let r = pushed_names(Seq::empty(), names);
    if names.len() > 0 {
        let prev = names.drop_last();
        law_first_spelling_kept(prev);
        law_offering_names(Seq::empty(), prev);
        let r0 = pushed_names(Seq::empty(), prev);
        let x = names.last();
        let n = trim(x);
        assert forall|i: int| 0 <= i < r.len() implies exists|k: int|
            0 <= k < names.len() && #[trigger] r[i] == trim(names[k]) && forall|k2: int|
                0 <= k2 < k ==> trim(#[trigger] names[k2]).len() == 0 || !same_artist(
                    trim(names[k2]),
                    trim(names[k]),
                ) by {
            if i < r0.len() {
                assert(r[i] == r0[i]) by {
                    if !(n.len() == 0 || is_known(r0, n)) {
                        assert(r == r0.push(n));
                    }
                }
                let k = choose|k: int|
                    0 <= k < prev.len() && #[trigger] r0[i] == trim(prev[k]) && forall|k2: int|
                        0 <= k2 < k ==> trim(#[trigger] prev[k2]).len() == 0 || !same_artist(
                            trim(prev[k2]),
                            trim(prev[k]),
                        );
                assert(prev[k] == names[k]);
                assert forall|k2: int| 0 <= k2 < k implies trim(#[trigger] names[k2]).len() == 0
                    || !same_artist(trim(names[k2]), trim(names[k])) by {
                    assert(prev[k2] == names[k2]);
                }
            } else {
                assert(!(n.len() == 0 || is_known(r0, n)));
                assert(r == r0.push(n));
                let k = names.len() - 1;
                assert(names[k] == x);
                assert forall|k2: int| 0 <= k2 < k implies trim(#[trigger] names[k2]).len() == 0
                    || !same_artist(trim(names[k2]), trim(names[k])) by {
                    assert(prev[k2] == names[k2]);
                    if trim(names[k2]).len() > 0 && same_artist(trim(names[k2]), n) {
                        assert(is_known(r0, trim(prev[k2])));
                        let j = choose|j: int|
                            0 <= j < r0.len() && same_artist(#[trigger] r0[j], trim(prev[k2]));
                        assert(same_artist(r0[j], n));
                    }
                }
            }
        }
    }
}

/// Per-artist values that name anybody decide the result alone: the
/// display string is then not looked at.
pub proof fn law_credited_prefers_values(
    primary: Seq<char>,
    other_primary: Seq<char>,
    structured: Seq<Seq<char>>,
)
    requires
        structured.len() > 0,
        credit_names(structured[0]).len() > 0,
    ensures
        credited_names(primary, structured) == credited_names(other_primary, structured),
        credited_names(primary, structured).len() > 0,
{
    let ys = structured.map_values(|v: Seq<char>| credit_from(v, 0));
    ys.lemma_flatten_and_flatten_alt_are_equivalent();
    ys.drop_first().lemma_flatten_and_flatten_alt_are_equivalent();
    assert(ys.flatten_alt() == ys[0] + ys.drop_first().flatten());
    assert(ys[0] == credit_from(structured[0], 0));
    lemma_pushed_names_concat(Seq::empty(), ys[0], ys.drop_first().flatten());
    law_split_credit_distinct(structured[0]);
    law_offering_names(credit_names(structured[0]), ys.drop_first().flatten());
}


proof fn lemma_split_before_cut(
    s: Seq<char>,
    a: Seq<char>,
    b: Seq<char>,
    d: char,
    start: int,
    i: int,
)
    requires
        s == a + seq![d] + b,
        is_hard_delimiter(d),
        0 <= start <= i <= a.len(),
    ensures
        split_mask_from(s, hard_mask(s), start, i) == split_mask_from(a, hard_mask(a), start, i)
            + split_mask_from(s, hard_mask(s), a.len() + 1int, a.len() + 1int),
    decreases a.len() - i,
{
    let rest = split_mask_from(s, hard_mask(s), a.len() + 1int, a.len() + 1int);
    if i == a.len() {
        assert(s[i] == d);
        assert(s.subrange(start, i) =~= a.subrange(start, a.len() as int));
    } else {
        assert(s[i] == a[i]);
        if is_hard_delimiter(a[i]) {
            lemma_split_before_cut(s, a, b, d, i + 1, i + 1);
            assert(s.subrange(start, i) =~= a.subrange(start, i));
            assert(seq![a.subrange(start, i)] + split_mask_from(a, hard_mask(a), i + 1, i + 1)
                + rest =~= seq![a.subrange(start, i)] + (split_mask_from(a, hard_mask(a), i + 1, i + 1)
                + rest));
        } else {
            lemma_split_before_cut(s, a, b, d, start, i + 1);
        }
    }
}

proof fn lemma_split_after_cut(s: Seq<char>, off: int, b: Seq<char>, start: int, j: int)
    requires
        0 <= off,
        s.len() == off + b.len(),
        s.subrange(off, s.len() as int) == b,
        0 <= start <= j <= b.len(),
    ensures
        split_mask_from(s, hard_mask(s), off + start, off + j) == split_mask_from(
            b,
            hard_mask(b),
            start,
            j,
        ),
    decreases b.len() - j,
{
    if j < b.len() {
        assert(s[off + j] == s.subrange(off, s.len() as int)[j]);
        if is_hard_delimiter(b[j]) {
            lemma_split_after_cut(s, off, b, j + 1, j + 1);
            assert(s.subrange(off + start, off + j) =~= b.subrange(start, j));
        } else {
            lemma_split_after_cut(s, off, b, start, j + 1);
        }
    } else {
        assert(s.subrange(off + start, s.len() as int) =~= b.subrange(start, b.len() as int));
    }
}

proof fn lemma_credit_from_pieces(s: Seq<char>, a: Seq<char>, b: Seq<char>, k: int)
    requires
        split_mask(s, hard_mask(s)) == split_mask(a, hard_mask(a)) + split_mask(b, hard_mask(b)),
        0 <= k <= split_mask(a, hard_mask(a)).len(),
    ensures
        credit_from(s, k) == credit_from(a, k) + credit_from(b, 0),
    decreases split_mask(a, hard_mask(a)).len() - k,
{
    let pa = split_mask(a, hard_mask(a));
    if k < pa.len() {
        lemma_credit_from_pieces(s, a, b, k + 1);
        assert(split_mask(s, hard_mask(s))[k] == pa[k]);
        assert(part_names(pa[k]) + (credit_from(a, k + 1) + credit_from(b, 0)) =~= part_names(
            pa[k],
        ) + credit_from(a, k + 1) + credit_from(b, 0));
    } else {
        let ps = split_mask(s, hard_mask(s));
        assert(ps.subrange(pa.len() as int, ps.len() as int) =~= split_mask(b, hard_mask(b)));
        lemma_credit_from_tail(s, b, pa.len() as int, 0);
        assert(credit_from(a, k) == Seq::<Seq<char>>::empty());
        assert(Seq::<Seq<char>>::empty() + credit_from(b, 0) =~= credit_from(b, 0));
    }
}

proof fn lemma_credit_from_tail(s: Seq<char>, b: Seq<char>, off: int, k: int)
    requires
        0 <= off,
        split_mask(s, hard_mask(s)).len() == off + split_mask(b, hard_mask(b)).len(),
        split_mask(s, hard_mask(s)).subrange(off, split_mask(s, hard_mask(s)).len() as int)
            == split_mask(b, hard_mask(b)),
        0 <= k <= split_mask(b, hard_mask(b)).len(),
    ensures
        credit_from(s, off + k) == credit_from(b, k),
    decreases split_mask(b, hard_mask(b)).len() - k,
{
    let pb = split_mask(b, hard_mask(b));
    if k < pb.len() {
        lemma_credit_from_tail(s, b, off, k + 1);
        let ps = split_mask(s, hard_mask(s));
        assert(ps[off + k] == ps.subrange(off, ps.len() as int)[k]);
    }
}

/// A hard delimiter separates values the tagger already considered apart:
/// the artists of "a;b" are those of "a", then the new ones of "b".
pub proof fn law_hard_delimiter_separates(a: Seq<char>, b: Seq<char>, d: char)
    requires
        d == ';' || d == '；' || d == '、',
    ensures
        credit_names(a + seq![d] + b) == pushed_names(credit_names(a), credit_from(b, 0)),
{
    assert(is_hard_delimiter(d));
    let s = a + seq![d] + b;
    lemma_split_before_cut(s, a, b, d, 0, 0);
    let off: int = a.len() + 1int;
    assert(s.subrange(off, s.len() as int) =~= b);
    lemma_split_after_cut(s, off, b, 0, 0);
    assert(split_mask(s, hard_mask(s)) == split_mask(a, hard_mask(a)) + split_mask(b, hard_mask(b)));
    lemma_credit_from_pieces(s, a, b, 0);
    lemma_pushed_names_concat(Seq::empty(), credit_from(a, 0), credit_from(b, 0));
}


/// Offering a list of distinct trimmed artists to an empty list gives that
/// list back.
proof fn lemma_pushed_names_of_clean(names: Seq<Seq<char>>)
    requires
        distinct_artists(names),
        all_trimmed(names),
    ensures
        pushed_names(Seq::empty(), names) == names,
    decreases names.len(),
{
    if names.len() > 0 {
        let prev = names.drop_last();
        assert(distinct_artists(prev)) by {
            assert forall|i: int, j: int| 0 <= i < j < prev.len() implies !same_artist(
                #[trigger] prev[i],
                #[trigger] prev[j],
            ) by {
                assert(prev[i] == names[i] && prev[j] == names[j]);
            }
        }
        assert(all_trimmed(prev)) by {
            assert forall|i: int| 0 <= i < prev.len() implies is_trimmed_nonempty(#[trigger] prev[i]) by {
                assert(prev[i] == names[i]);
            }
        }
        lemma_pushed_names_of_clean(prev);
        let x = names.last();
        assert(is_trimmed_nonempty(names[names.len() - 1]));
        lemma_trim_of_trimmed(x);
        assert(!is_known(prev, x)) by {
            if is_known(prev, x) {
                let j = choose|j: int| 0 <= j < prev.len() && same_artist(#[trigger] prev[j], x);
                assert(prev[j] == names[j]);
                assert(!same_artist(names[j], names[names.len() - 1]));
            }
        }
        assert(prev.push(x) =~= names);
    }
}

proof fn lemma_tail_names_hold(q: Seq<char>, m: int, k: int, j: int)
    requires
        has_padded_bullet(q),
        0 <= m <= k < split_mask(q, bullet_mask(q)).len(),
        0 <= j < credit_names(split_mask(q, bullet_mask(q))[k]).len(),
    ensures
        exists|idx: int|
            0 <= idx < bullet_tail_names(q, m).len() && #[trigger] bullet_tail_names(q, m)[idx]
                == credit_names(split_mask(q, bullet_mask(q))[k])[j],
    decreases k - m,
{
    let segs = split_mask(q, bullet_mask(q));
    let here = pushed_names(Seq::empty(), credit_from(segs[m], 0));
    let t = bullet_tail_names(q, m);
    assert(t == here + bullet_tail_names(q, m + 1));
    if m == k {
        assert(t[j] == here[j]);
    } else {
        lemma_tail_names_hold(q, m + 1, k, j);
        let idx = choose|idx: int|
            0 <= idx < bullet_tail_names(q, m + 1).len() && #[trigger] bullet_tail_names(q, m + 1)[idx]
                == credit_names(segs[k])[j];
        assert(t[here.len() + idx] == bullet_tail_names(q, m + 1)[idx]);
    }
}

/// "<credit> • <everyone who worked on it>": when the first bullet segment
/// credits at least two artists and each of them is named again by a later
/// segment, the list names exactly the artists of the first segment; the
/// rest is personnel.
pub proof fn law_contributor_list_keeps_the_credit(s: Seq<char>)
    requires
        forall|i: int| 0 <= i < s.len() ==> s[i] != ';' && s[i] != '；' && s[i] != '、',
        has_padded_bullet(trim(s)),
        ({
            let segs = split_mask(trim(s), bullet_mask(trim(s)));
            let head = credit_names(segs[0]);
            &&& head.len() >= 2
            &&& forall|i: int|
                0 <= i < head.len() ==> exists|k: int, j: int|
                    1 <= k < segs.len() && 0 <= j < credit_names(segs[k]).len() && same_artist(
                        #[trigger] credit_names(segs[k])[j],
                        #[trigger] head[i],
                    )
        }),
    ensures
        credit_names(s) == credit_names(split_mask(trim(s), bullet_mask(trim(s)))[0]),
{
    let q = trim(s);
    let segs = split_mask(q, bullet_mask(q));
    let head = credit_names(segs[0]);
    lemma_one_piece(s);
    assert(q.len() > 0);
    assert(part_names(s) == bulleted_names(q));
    let tail = bullet_tail_names(q, 1);
    assert forall|i: int| 0 <= i < head.len() implies named_in(tail, #[trigger] head[i]) by {
        let (k, j) = choose|k: int, j: int|
            1 <= k < segs.len() && 0 <= j < credit_names(segs[k]).len() && same_artist(
                #[trigger] credit_names(segs[k])[j],
                head[i],
            );
        lemma_tail_names_hold(q, 1, k, j);
        let idx = choose|idx: int|
            0 <= idx < tail.len() && #[trigger] tail[idx] == credit_names(segs[k])[j];
        assert(same_artist(tail[idx], head[i]));
    }
    assert(bulleted_names(q) == head);
    law_split_credit_distinct(segs[0]);
    lemma_pushed_names_of_clean(head);
}

/// A collaboration splits into two credits in their own right: the artists
/// of "L x R" are those of L, then the new ones R offers as a piece of its
/// own, so a band name on the right such as "Above & Beyond" stays whole.
pub proof fn law_collaboration_splits_into_credits(s: Seq<char>)
    requires
        forall|i: int| 0 <= i < s.len() ==> s[i] != ';' && s[i] != '；' && s[i] != '、',
        trim(s).len() > 0,
        !has_padded_bullet(trim(s)),
        find_marker(trim(s), collab_markers(), true) is Some,
    ensures
        ({
            let q = trim(s);
            let (a, b) = find_marker(q, collab_markers(), true)->0;
            let left = q.subrange(0, a);
            let right = q.subrange(b, q.len() as int);
            &&& credit_names(s) == pushed_names(credit_names(left), credit_from(right, 0))
            &&& (trim(right).len() > 0 && !has_padded_bullet(trim(right)) && find_marker(
                trim(right),
                collab_markers(),
                true,
            ) is None && find_marker(trim(right), feature_markers(), false) is None)
                ==> credit_names(s) == pushed_name(credit_names(left), right)
        }),
{
    let q = trim(s);
    crate::artist::lemma_marker_split_weight(q, collab_markers(), true);
    let (a, b) = find_marker(q, collab_markers(), true)->0;
    let left = q.subrange(0, a);
    let right = q.subrange(b, q.len() as int);
    lemma_one_piece(s);
    lemma_trim_shape(s);
    assert(part_names(s) == part_names(left) + part_names(right));
    lemma_trim_runs(s);
    let lo = s.len() - trim_start(s).len();
    assert forall|i: int| 0 <= i < left.len() implies left[i] != ';' && left[i] != '；' && left[i]
        != '、' by {
        assert(left[i] == q[i]);
        assert(q[i] == s.subrange(lo, lo + q.len())[i]);
    }
    assert forall|i: int| 0 <= i < right.len() implies right[i] != ';' && right[i] != '；'
        && right[i] != '、' by {
        assert(right[i] == q[b + i]);
        assert(q[b + i] == s.subrange(lo, lo + q.len())[b + i]);
    }
    lemma_one_piece(left);
    lemma_one_piece(right);
    lemma_pushed_names_concat(Seq::empty(), part_names(left), part_names(right));
    if trim(right).len() > 0 && !has_padded_bullet(trim(right)) && find_marker(
        trim(right),
        collab_markers(),
        true,
    ) is None && find_marker(trim(right), feature_markers(), false) is None {
        assert(part_names(right) == seq![trim(right)]);
        let l = credit_names(left);
        assert(seq![trim(right)].drop_last() =~= Seq::<Seq<char>>::empty());
        assert(pushed_names(l, Seq::<Seq<char>>::empty()) == l);
        assert(seq![trim(right)].last() == trim(right));
        assert(pushed_names(l, seq![trim(right)]) == pushed_name(l, trim(right)));
        lemma_trim_idempotent(right);
        assert(pushed_name(l, trim(right)) == pushed_name(l, right));
    }
    assert(credit_names(s) == pushed_names(credit_names(left), credit_from(right, 0)));
}


proof fn lemma_first_word_run(t: Seq<char>)
    ensures
        first_word(t).len() <= t.len(),
        first_word(t) == t.subrange(0, first_word(t).len() as int),
        forall|j: int| 0 <= j < first_word(t).len() ==> !is_ws(#[trigger] t[j]),
        first_word(t).len() == t.len() || is_ws(t[first_word(t).len() as int]),
    decreases t.len(),
{
    if t.len() > 0 && !is_ws(t[0]) {
        let rest = t.drop_first();
        lemma_first_word_run(rest);
        let f = first_word(rest);
        assert(first_word(t) == seq![t[0]] + f);
        assert forall|j: int| 0 <= j < first_word(t).len() implies !is_ws(#[trigger] t[j]) by {
            if j > 0 {
                assert(t[j] == rest[j - 1]);
            }
        }
        assert(seq![t[0]] + f =~= t.subrange(0, f.len() + 1int)) by {
            assert(f == rest.subrange(0, f.len() as int));
        }
        if f.len() < rest.len() {
            assert(t[f.len() + 1int] == rest[f.len() as int]);
        }
    } else {
        assert(t.subrange(0, 0) =~= Seq::<char>::empty());
    }
}

/// A comma piece of a guest list continues the guest before it exactly when
/// its first word, the longest run of non-space characters it opens with,
/// is "the", "a" or "an" in any ASCII case; "A$AP Rocky" opens with the word
/// "A$AP", which is no article.
pub proof fn law_continuation_is_a_leading_article(piece: Seq<char>)
    ensures
        opens_continuation(piece) <==> exists|k: int|
            #![trigger trim_start(piece).subrange(0, k)]
            0 < k <= trim_start(piece).len() && (forall|j: int|
                0 <= j < k ==> !is_ws(#[trigger] trim_start(piece)[j])) && (k == trim_start(
                piece,
            ).len() || is_ws(trim_start(piece)[k])) && (eq_ignore_ascii_case(
                trim_start(piece).subrange(0, k),
                seq!['t', 'h', 'e'],
            ) || eq_ignore_ascii_case(trim_start(piece).subrange(0, k), seq!['a'])
                || eq_ignore_ascii_case(trim_start(piece).subrange(0, k), seq!['a', 'n'])),
{
    let t = trim_start(piece);
    lemma_first_word_run(t);
    let fw = first_word(t);
    let f = fw.len() as int;
    let cw = continuation_words();
    assert(cw[0] == seq!['t', 'h', 'e'] && cw[1] == seq!['a'] && cw[2] == seq!['a', 'n']);
    if opens_continuation(piece) {
        let m = choose|m: int| 0 <= m < cw.len() && eq_ignore_ascii_case(fw, #[trigger] cw[m]);
        assert(cw[m].len() > 0);
        assert(t.subrange(0, f) == fw);
    }
    if exists|k: int|
        #![trigger t.subrange(0, k)]
        0 < k <= t.len() && (forall|j: int| 0 <= j < k ==> !is_ws(#[trigger] t[j])) && (k == t.len()
            || is_ws(t[k])) && (eq_ignore_ascii_case(t.subrange(0, k), seq!['t', 'h', 'e'])
            || eq_ignore_ascii_case(t.subrange(0, k), seq!['a']) || eq_ignore_ascii_case(
            t.subrange(0, k),
            seq!['a', 'n'],
        )) {
        let k = choose|k: int|
            #![trigger t.subrange(0, k)]
            0 < k <= t.len() && (forall|j: int| 0 <= j < k ==> !is_ws(#[trigger] t[j])) && (k
                == t.len() || is_ws(t[k])) && (eq_ignore_ascii_case(
                t.subrange(0, k),
                seq!['t', 'h', 'e'],
            ) || eq_ignore_ascii_case(t.subrange(0, k), seq!['a']) || eq_ignore_ascii_case(
                t.subrange(0, k),
                seq!['a', 'n'],
            ));
        if f < k {
            assert(!is_ws(t[f]));
        }
        if f > k {
            assert(!is_ws(t[k]));
        }
        assert(f == k);
        assert(t.subrange(0, k) == fw);
        if eq_ignore_ascii_case(fw, seq!['t', 'h', 'e']) {
            assert(eq_ignore_ascii_case(fw, cw[0]));
        } else if eq_ignore_ascii_case(fw, seq!['a']) {
            assert(eq_ignore_ascii_case(fw, cw[1]));
        } else {
            assert(eq_ignore_ascii_case(fw, cw[2]));
        }
    }
}

/// On a disc, a lower track number plays first whatever the titles, and a
/// track with no number before any numbered one; a lower disc number plays
/// first whatever the rest, and a track with no disc before any disc.
pub proof fn law_numbers_order_numerically(a: TrackOrderKey, b: TrackOrderKey)
    ensures
        (a.disc_number is Some && b.disc_number is Some && (a.disc_number->0 as int) < (
        b.disc_number->0 as int)) ==> key_before(a, b),
        (a.disc_number is None && b.disc_number is Some) ==> key_before(a, b),
        (a.disc_number == b.disc_number && a.track_number is Some && b.track_number is Some && (
        a.track_number->0 as int) < (b.track_number->0 as int)) ==> key_before(a, b),
        (a.disc_number == b.disc_number && a.track_number is None && b.track_number is Some)
            ==> key_before(a, b),
{
}

/// In album order, numbers never go backwards: across the whole queue disc
/// numbers only rise, discless tracks coming first, and within a disc track
/// numbers only rise, unnumbered tracks coming first.
pub proof fn law_album_order_is_numeric(keys: Seq<TrackOrderKey>, order: Seq<usize>)
    requires
        is_album_order(keys, order),
    ensures
        forall|x: int, y: int|
            0 <= x < y < order.len() ==> {
                let p = keys[#[trigger] order[x] as int];
                let q = keys[#[trigger] order[y] as int];
                &&& (p.disc_number is Some ==> q.disc_number is Some)
                &&& (p.disc_number is Some && q.disc_number is Some) ==> (p.disc_number->0 as int)
                    <= (q.disc_number->0 as int)
                &&& p.disc_number == q.disc_number ==> (p.track_number is Some
                    ==> q.track_number is Some)
                &&& (p.disc_number == q.disc_number && p.track_number is Some
                    && q.track_number is Some) ==> (p.track_number->0 as int) <= (
                q.track_number->0 as int)
            },
{
    assert forall|x: int, y: int| 0 <= x < y < order.len() implies {
        let p = keys[#[trigger] order[x] as int];
        let q = keys[#[trigger] order[y] as int];
        &&& (p.disc_number is Some ==> q.disc_number is Some)
        &&& (p.disc_number is Some && q.disc_number is Some) ==> (p.disc_number->0 as int) <= (
        q.disc_number->0 as int)
        &&& p.disc_number == q.disc_number ==> (p.track_number is Some ==> q.track_number is Some)
        &&& (p.disc_number == q.disc_number && p.track_number is Some && q.track_number is Some)
            ==> (p.track_number->0 as int) <= (q.track_number->0 as int)
    } by {
        assert(crate::album::plays_before(keys, order[x] as int, order[y] as int));
    }
}

} // verus!
