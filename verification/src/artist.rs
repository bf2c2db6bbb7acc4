//! Splitting a joined artist credit into the artists it actually credits.
//!
//! A tag reading "A$AP Rocky feat. Drake" is one string; taken as one artist
//! it gives the collaboration its own tile beside the real A$AP Rocky. The
//! rule is deliberately narrow: only markers that never sit inside a single
//! name separate, so `&`, `+`, `/`, ` - ` and a bare comma are not separators
//! at the top level ("Simon & Garfunkel", "AC/DC", "Tyler, The Creator" all
//! stay whole).

use vstd::prelude::*;
use vstd::string::*;
use crate::text::{
    chars_of, lemma_weight_split_at, lemma_weight_subrange, lemma_weight_trim, split_mask,
    strings_view, strs_view, trim, trim_str, weight,
};
use crate::markers::{
    bullet_mask, bullet_segments, collab_marker_list, collab_markers, feature_marker_list,
    feature_markers, find_marker, find_marker_exec, guest_names, guest_names_exec, hard_mask,
    has_padded_bullet, lemma_bullet_segment_weight, lemma_find_marker, lemma_guest_name_weight,
    lemma_hard_piece_weight, lemma_split_mask_nonempty, letter_led, split_hard,
};

verus! {

/// What `str::to_lowercase` gives for a text.
pub uninterp spec fn lowercase(s: Seq<char>) -> Seq<char>;

/// `str::to_lowercase`: the text with every character in its Unicode
/// lowercase form. The contract names the result and says nothing more of it.
#[verifier::external_body]
fn to_lowercase(s: &str) -> (r: String)
    ensures
        r@ == lowercase(s@),
{
    s.to_lowercase()
}

/// Two spellings name the same artist when they agree once lowercased.
pub open spec fn same_artist(a: Seq<char>, b: Seq<char>) -> bool {
    lowercase(a) == lowercase(b)
}

/// Whether `out` already holds an artist spelled like `name`.
pub open spec fn is_known(out: Seq<Seq<char>>, name: Seq<char>) -> bool {
    exists|j: int| 0 <= j < out.len() && same_artist(#[trigger] out[j], name)
}

/// `out` after offering it `name`: the trimmed name is added unless it is
/// empty or an artist already in `out`, so the first spelling seen is kept.
pub open spec fn pushed_name(out: Seq<Seq<char>>, name: Seq<char>) -> Seq<Seq<char>> {
    let n = trim(name);
    if n.len() == 0 || is_known(out, n) {
        out
    } else {
        out.push(n)
    }
}

/// `out` after offering it each of `names` in turn.
pub open spec fn pushed_names(out: Seq<Seq<char>>, names: Seq<Seq<char>>) -> Seq<Seq<char>>
    decreases names.len(),
{
    if names.len() == 0 {
        out
    } else {
        pushed_name(pushed_names(out, names.drop_last()), names.last())
    }
}

/// Whether `tail` names the artist `name`.
pub open spec fn named_in(tail: Seq<Seq<char>>, name: Seq<char>) -> bool {
    exists|j: int| 0 <= j < tail.len() && same_artist(#[trigger] tail[j], name)
}

/// Whether every artist of `head` is also named in `tail`.
pub open spec fn all_repeated(head: Seq<Seq<char>>, tail: Seq<Seq<char>>) -> bool {
    forall|i: int| 0 <= i < head.len() ==> named_in(tail, #[trigger] head[i])
}

/// The names offered for the pieces of `s` between hard delimiters, from
/// piece `k` on.
pub open spec fn credit_from(s: Seq<char>, k: int) -> Seq<Seq<char>>
    decreases weight(s) as int, 3int, split_mask(s, hard_mask(s)).len() - k,
{
    let pieces = split_mask(s, hard_mask(s));
    if 0 <= k < pieces.len() {
        proof {
            lemma_hard_piece_weight(s, k);
        }
        part_names(pieces[k]) + credit_from(s, k + 1)
    } else {
        Seq::empty()
    }
}

/// The names offered for one piece of a credit. Bullets bind loosest, then
/// collaboration markers, then featuring markers, after which the rest is a
/// guest list; a piece with none of them is one name.
pub open spec fn part_names(p: Seq<char>) -> Seq<Seq<char>>
    decreases weight(p) as int, 2int, 0int,
{
    let q = trim(p);
    if q.len() == 0 {
        Seq::empty()
    } else if has_padded_bullet(q) {
        proof {
            lemma_weight_trim(p);
        }
        bulleted_names(q)
    } else {
        match find_marker(q, collab_markers(), true) {
            Some((a, b)) => {
                proof {
                    lemma_weight_trim(p);
                    lemma_marker_split_weight(q, collab_markers(), true);
                }
                part_names(q.subrange(0, a)) + part_names(q.subrange(b, q.len() as int))
            },
            None => match find_marker(q, feature_markers(), false) {
                Some((a, b)) => {
                    proof {
                        lemma_weight_trim(p);
                        lemma_marker_split_weight(q, feature_markers(), false);
                    }
                    part_names(q.subrange(0, a)) + guest_from(q.subrange(b, q.len() as int), 0)
                },
                None => seq![q],
            },
        }
    }
}

/// The names offered for a bullet list. "<credit> • <everyone who worked on
/// it>", where the credit's own artists all reappear in the tail, gives only
/// the credit's artists; any other list is split in full. Text with no
/// padded bullet is no bullet list and offers nothing here: only a padded
/// bullet makes every segment lighter than the list.
pub open spec fn bulleted_names(q: Seq<char>) -> Seq<Seq<char>>
    decreases weight(q) as int, 1int, split_mask(q, bullet_mask(q)).len() + 1,
{
    let segs = split_mask(q, bullet_mask(q));
    if has_padded_bullet(q) {
        proof {
            lemma_split_mask_nonempty(q, bullet_mask(q), 0, 0);
            lemma_bullet_segment_weight(q, 0);
        }
        let head = pushed_names(Seq::empty(), credit_from(segs[0], 0));
        if head.len() > 1 && all_repeated(head, bullet_tail_names(q, 1)) {
            head
        } else {
            bullet_names(q, 0)
        }
    } else {
        Seq::empty()
    }
}

/// The names offered for the bullet segments of `q` from segment `k` on
/// (none where `q` holds no padded bullet, as for `bulleted_names`).
pub open spec fn bullet_names(q: Seq<char>, k: int) -> Seq<Seq<char>>
    decreases weight(q) as int, 1int, split_mask(q, bullet_mask(q)).len() - k,
{
    let segs = split_mask(q, bullet_mask(q));
    if has_padded_bullet(q) && 0 <= k < segs.len() {
        proof {
            lemma_bullet_segment_weight(q, k);
        }
        part_names(segs[k]) + bullet_names(q, k + 1)
    } else {
        Seq::empty()
    }
}

/// The artists each bullet segment of `q` from segment `k` on credits, one
/// segment after the other (none where `q` holds no padded bullet).
pub open spec fn bullet_tail_names(q: Seq<char>, k: int) -> Seq<Seq<char>>
    decreases weight(q) as int, 1int, split_mask(q, bullet_mask(q)).len() - k,
{
    let segs = split_mask(q, bullet_mask(q));
    if has_padded_bullet(q) && 0 <= k < segs.len() {
        proof {
            lemma_bullet_segment_weight(q, k);
        }
        pushed_names(Seq::empty(), credit_from(segs[k], 0)) + bullet_tail_names(q, k + 1)
    } else {
        Seq::empty()
    }
}

/// The names offered for the guest list `t`, from guest `k` on.
pub open spec fn guest_from(t: Seq<char>, k: int) -> Seq<Seq<char>>
    decreases weight(t) as int, 3int, guest_names(t).len() - k,
{
    if 0 <= k < guest_names(t).len() {
        proof {
            lemma_guest_name_weight(t, k);
        }
        part_names(guest_names(t)[k]) + guest_from(t, k + 1)
    } else {
        Seq::empty()
    }
}

/// The artists a credit string names.
pub open spec fn credit_names(s: Seq<char>) -> Seq<Seq<char>> {
    pushed_names(Seq::empty(), credit_from(s, 0))
}

/// The artists a track credits: those of its per-artist values when they
/// name any, else those of the joined display string.
pub open spec fn credited_names(primary: Seq<char>, structured: Seq<Seq<char>>) -> Seq<Seq<char>> {
    let from_values = pushed_names(
        Seq::empty(),
        structured.map_values(|v: Seq<char>| credit_from(v, 0)).flatten_alt(),
    );
    if from_values.len() > 0 {
        from_values
    } else {
        pushed_names(Seq::empty(), part_names(primary))
    }
}

/// Both sides of a found marker weigh less than the text, and so does the
/// text after it.
pub proof fn lemma_marker_split_weight(q: Seq<char>, ms: Seq<Seq<char>>, req: bool)
    requires
        letter_led(ms),
        find_marker(q, ms, req) is Some,
    ensures
        ({
            let (a, b) = find_marker(q, ms, req)->0;
            &&& 0 < a < b <= q.len()
            &&& weight(q.subrange(0, a)) < weight(q)
            &&& weight(q.subrange(b, q.len() as int)) < weight(q)
        }),
{
    lemma_find_marker(q, ms, req, 0);
    let (a, b) = find_marker(q, ms, req)->0;
    lemma_weight_split_at(q, 0, a, q.len() as int);
    assert(q.subrange(0, q.len() as int) =~= q);
    let rest = q.subrange(a + 1, q.len() as int);
    lemma_weight_subrange(rest, b - a - 1, rest.len() as int);
    assert(rest.subrange(b - a - 1, rest.len() as int) =~= q.subrange(b, q.len() as int));
}


/// Offering names one list after another is offering their concatenation.
pub proof fn lemma_pushed_names_concat(out: Seq<Seq<char>>, a: Seq<Seq<char>>, b: Seq<Seq<char>>)
    ensures
        pushed_names(out, a + b) == pushed_names(pushed_names(out, a), b),
    decreases b.len(),
{
    if b.len() == 0 {
        assert(a + b =~= a);
    } else {
        lemma_pushed_names_concat(out, a, b.drop_last());
        assert((a + b).drop_last() =~= a + b.drop_last());
        assert((a + b).last() == b.last());
    }
}

proof fn lemma_pushed_names_one(out: Seq<Seq<char>>, x: Seq<char>)
    ensures
        pushed_names(out, seq![x]) == pushed_name(out, x),
{
    assert(seq![x].drop_last() =~= Seq::<Seq<char>>::empty());
    assert(pushed_names(out, Seq::<Seq<char>>::empty()) == out);
    assert(seq![x].last() == x);
}

/// Artists collected so far, each with its lowercase key.
pub struct Artists {
    names: Vec<String>,
    keys: Vec<String>,
}

impl Artists {
    /// Each key is the lowercase form of the name beside it.
    pub closed spec fn wf(&self) -> bool {
        &&& self.names@.len() == self.keys@.len()
        &&& forall|j: int|
            0 <= j < self.names@.len() ==> #[trigger] self.keys@[j]@ == lowercase(self.names@[j]@)
    }

    /// The names collected so far.
    pub closed spec fn view(&self) -> Seq<Seq<char>> {
        strings_view(self.names@)
    }

    /// The lowercase keys of the names collected so far.
    pub closed spec fn key_view(&self) -> Seq<Seq<char>> {
        strings_view(self.keys@)
    }

    /// No artist yet.
    pub fn new() -> (r: Artists)
        ensures
            r.wf(),
            r.view() == Seq::<Seq<char>>::empty(),
    {
        let r = Artists { names: Vec::new(), keys: Vec::new() };
        assert(r.view() =~= Seq::<Seq<char>>::empty());
        r
    }

    /// Adds all of `other` after the names already here.
    pub fn append(&mut self, other: Artists)
        requires
            old(self).wf(),
            other.wf(),
        ensures
            final(self).wf(),
            final(self).view() == old(self).view() + other.view(),
    {
        let mut other = other;
        let ghost a = self.view();
        let ghost b = other.view();
        self.names.append(&mut other.names);
        self.keys.append(&mut other.keys);
        assert(self.view() =~= a + b);
    }

    /// The names, in the order they were collected.
    pub fn into_names(self) -> (r: Vec<String>)
        ensures
            strings_view(r@) == self.view(),
    {
        self.names
    }
}

/// Adds `name` with its `key` unless the key is already among `keys`.
pub fn push_distinct(names: &mut Vec<String>, keys: &mut Vec<String>, name: String, key: String)
    ensures
        strings_view(old(keys)@).contains(key@) ==> final(names)@ == old(names)@ && final(keys)@
            == old(keys)@,
        !strings_view(old(keys)@).contains(key@) ==> final(names)@ == old(names)@.push(name)
            && final(keys)@ == old(keys)@.push(key),
{
    let mut j: usize = 0;
    while j < keys.len()
        invariant
            j <= keys@.len(),
            forall|i: int| 0 <= i < j ==> keys@[i]@ != key@,
        decreases keys@.len() - j,
    {
        if keys[j] == key {
            assert(strings_view(keys@)[j as int] == key@);
            return;
        }
        j += 1;
    }
    assert(!strings_view(keys@).contains(key@)) by {
        assert forall|i: int| 0 <= i < strings_view(keys@).len() implies strings_view(keys@)[i]
            != key@ by {
            assert(strings_view(keys@)[i] == keys@[i]@);
        }
    }
    names.push(name);
    keys.push(key);
}

/// Offers `name` to `out`: it is added, trimmed, unless it is empty or an
/// artist `out` already holds.
pub fn push_name(name: &str, out: &mut Artists)
    requires
        old(out).wf(),
    ensures
        final(out).wf(),
        final(out).view() == pushed_name(old(out).view(), name@),
{
    let n = trim_str(name);
    if n.unicode_len() == 0 {
        return;
    }
    let key = to_lowercase(n);
    let ghost before = out.view();
    let ghost kv = out.key_view();
    assert(strings_view(out.keys@).contains(key@) == is_known(before, n@)) by {
        if is_known(before, n@) {
            let j = choose|j: int| 0 <= j < before.len() && same_artist(#[trigger] before[j], n@);
            assert(out.keys@[j]@ == lowercase(out.names@[j]@));
            assert(strings_view(out.keys@)[j] == key@);
        }
        if strings_view(out.keys@).contains(key@) {
            let j = choose|j: int| 0 <= j < strings_view(out.keys@).len() && strings_view(out.keys@)[j] == key@;
            assert(out.keys@[j]@ == lowercase(out.names@[j]@));
            assert(same_artist(before[j], n@));
        }
    }
    let owned = String::from_str(n);
    push_distinct(&mut out.names, &mut out.keys, owned, key);
    assert(out.view() =~= pushed_name(before, name@));
}

/// Whether every key of `head` is also among `tail`.
pub fn all_keys_repeated(head: &Vec<String>, tail: &Vec<String>) -> (r: bool)
    ensures
        r == forall|i: int|
            0 <= i < head@.len() ==> #[trigger] strings_view(tail@).contains(head@[i]@),
{
    let mut i: usize = 0;
    while i < head.len()
        invariant
            i <= head@.len(),
            forall|k: int| 0 <= k < i ==> #[trigger] strings_view(tail@).contains(head@[k]@),
        decreases head@.len() - i,
    {
        let mut found = false;
        let mut j: usize = 0;
        while j < tail.len()
            invariant
                i < head@.len(),
                j <= tail@.len(),
                found ==> strings_view(tail@).contains(head@[i as int]@),
                !found ==> forall|l: int| 0 <= l < j ==> tail@[l]@ != head@[i as int]@,
            decreases tail@.len() - j,
        {
            if tail[j] == head[i] {
                assert(strings_view(tail@)[j as int] == head@[i as int]@);
                found = true;
            }
            j += 1;
        }
        if !found {
            assert(!strings_view(tail@).contains(head@[i as int]@)) by {
                assert forall|l: int| 0 <= l < strings_view(tail@).len() implies strings_view(
                    tail@,
                )[l] != head@[i as int]@ by {
                    assert(strings_view(tail@)[l] == tail@[l]@);
                }
            }
            return false;
        }
        i += 1;
    }
    true
}


/// With keys beside the names, every head key among the tail keys is every
/// head artist named in the tail.
proof fn lemma_repeated_keys(head: &Artists, tail: &Artists)
    requires
        head.wf(),
        tail.wf(),
    ensures
        (forall|i: int|
            0 <= i < head.keys@.len() ==> #[trigger] strings_view(tail.keys@).contains(
                head.keys@[i]@,
            )) == all_repeated(head.view(), tail.view()),
        head.view().len() == head.names@.len(),
{
    let hv = head.view();
    let tv = tail.view();
    let tk = strings_view(tail.keys@);
    if all_repeated(hv, tv) {
        assert forall|i: int| 0 <= i < head.keys@.len() implies #[trigger] tk.contains(
            head.keys@[i]@,
        ) by {
            assert(0 <= i < hv.len());
            let j = choose|j: int| 0 <= j < tv.len() && same_artist(#[trigger] tv[j], hv[i]);
            assert(head.keys@[i]@ == lowercase(head.names@[i]@));
            assert(tail.keys@[j]@ == lowercase(tail.names@[j]@));
            assert(tk[j] == head.keys@[i]@);
        }
    }
    if forall|i: int| 0 <= i < head.keys@.len() ==> #[trigger] tk.contains(head.keys@[i]@) {
        assert forall|i: int| 0 <= i < hv.len() implies named_in(tv, #[trigger] hv[i]) by {
            assert(tk.contains(head.keys@[i]@));
            let j = choose|j: int| 0 <= j < tk.len() && tk[j] == head.keys@[i]@;
            assert(head.keys@[i]@ == lowercase(head.names@[i]@));
            assert(tail.keys@[j]@ == lowercase(tail.names@[j]@));
            assert(same_artist(tv[j], hv[i]));
        }
        assert(all_repeated(hv, tv));
    }
}

/// Offers `out` the artists of each piece of `s` between hard delimiters.
fn push_credit(s: &str, out: &mut Artists)
    requires
        old(out).wf(),
    ensures
        final(out).wf(),
        final(out).view() == pushed_names(old(out).view(), credit_from(s@, 0)),
    decreases weight(s@) as int, 3int, 0int,
{
    let pieces = split_hard(s);
    let ghost pv = strs_view(pieces@);
    let ghost out0 = out.view();
    let mut k: usize = 0;
    while k < pieces.len()
        invariant
            pv == strs_view(pieces@),
            pv == split_mask(s@, hard_mask(s@)),
            k <= pieces@.len(),
            out.wf(),
            pushed_names(out.view(), credit_from(s@, k as int)) == pushed_names(
                out0,
                credit_from(s@, 0),
            ),
        decreases pieces@.len() - k,
    {
        proof {
            lemma_hard_piece_weight(s@, k as int);
        }
        assert(pv[k as int] == pieces@[k as int]@);
        let ghost before = out.view();
        split_part(pieces[k], out);
        proof {
            lemma_pushed_names_concat(before, part_names(pv[k as int]), credit_from(s@, k + 1));
        }
        k += 1;
    }
}

/// Offers `out` the artists of one piece of a credit.
fn split_part(part: &str, out: &mut Artists)
    requires
        old(out).wf(),
    ensures
        final(out).wf(),
        final(out).view() == pushed_names(old(out).view(), part_names(part@)),
    decreases weight(part@) as int, 2int, 0int,
{
    let q = trim_str(part);
    proof {
        lemma_weight_trim(part@);
    }
    if q.unicode_len() == 0 {
        return;
    }
    match bullet_segments(q) {
        Some(segs) => {
            push_bulleted(q, &segs, out);
            return;
        },
        None => {},
    }
    let cs = chars_of(q);
    let n = cs.len();
    let collabs = collab_marker_list();
    match find_marker_exec(&cs, &collabs, true) {
        Some((a, b)) => {
            proof {
                lemma_marker_split_weight(q@, collab_markers(), true);
            }
            let ghost before = out.view();
            split_part(q.substring_char(0, a), out);
            split_part(q.substring_char(b, n), out);
            proof {
                lemma_pushed_names_concat(
                    before,
                    part_names(q@.subrange(0, a as int)),
                    part_names(q@.subrange(b as int, n as int)),
                );
            }
            return;
        },
        None => {},
    }
    let feats = feature_marker_list();
    match find_marker_exec(&cs, &feats, false) {
        Some((a, b)) => {
            proof {
                lemma_marker_split_weight(q@, feature_markers(), false);
            }
            let ghost before = out.view();
            split_part(q.substring_char(0, a), out);
            push_guests(q.substring_char(b, n), out);
            proof {
                lemma_pushed_names_concat(
                    before,
                    part_names(q@.subrange(0, a as int)),
                    guest_from(q@.subrange(b as int, n as int), 0),
                );
            }
        },
        None => {
            let ghost before = out.view();
            push_name(q, out);
            proof {
                lemma_pushed_names_one(before, q@);
            }
        },
    }
}

/// Offers `out` the artists of a bullet list `q`, already split into `segs`.
fn push_bulleted(q: &str, segs: &Vec<&str>, out: &mut Artists)
    requires
        old(out).wf(),
        has_padded_bullet(q@),
        strs_view(segs@) == split_mask(q@, bullet_mask(q@)),
    ensures
        final(out).wf(),
        final(out).view() == pushed_names(old(out).view(), bulleted_names(q@)),
    decreases weight(q@) as int, 1int, 0int,
{
    let ghost sv = strs_view(segs@);
    proof {
        lemma_split_mask_nonempty(q@, bullet_mask(q@), 0, 0);
        lemma_bullet_segment_weight(q@, 0);
    }
    assert(sv[0] == segs@[0]@);
    let mut head = Artists::new();
    push_credit(segs[0], &mut head);
    let mut tail = Artists::new();
    let mut k: usize = 1;
    assert(tail.view() + bullet_tail_names(q@, 1) =~= bullet_tail_names(q@, 1));
    while k < segs.len()
        invariant
            sv == strs_view(segs@),
            sv == split_mask(q@, bullet_mask(q@)),
            has_padded_bullet(q@),
            1 <= k <= segs@.len(),
            tail.wf(),
            tail.view() + bullet_tail_names(q@, k as int) == bullet_tail_names(q@, 1),
        decreases segs@.len() - k,
    {
        proof {
            lemma_bullet_segment_weight(q@, k as int);
        }
        assert(sv[k as int] == segs@[k as int]@);
        let mut t = Artists::new();
        push_credit(segs[k], &mut t);
        let ghost before = tail.view();
        tail.append(t);
        assert(before + bullet_tail_names(q@, k as int) =~= tail.view() + bullet_tail_names(
            q@,
            k + 1,
        ));
        k += 1;
    }
    assert(tail.view() =~= bullet_tail_names(q@, 1));
    let ghost hv = head.view();
    let ghost tv = tail.view();
    let repeated = if head.names.len() > 1 {
        all_keys_repeated(&head.keys, &tail.keys)
    } else {
        false
    };
    proof {
        lemma_repeated_keys(&head, &tail);
    }
    let ghost out0 = out.view();
    if repeated {
        let mut i: usize = 0;
        while i < head.names.len()
            invariant
                hv == head.view(),
                i <= head.names@.len(),
                out.wf(),
                out.view() == pushed_names(out0, hv.take(i as int)),
            decreases head.names@.len() - i,
        {
            assert(hv.take(i + 1).drop_last() =~= hv.take(i as int));
            assert(hv[i as int] == head.names@[i as int]@);
            push_name(head.names[i].as_str(), out);
            i += 1;
        }
        assert(hv.take(hv.len() as int) =~= hv);
    } else {
        let mut k: usize = 0;
        while k < segs.len()
            invariant
                sv == strs_view(segs@),
                sv == split_mask(q@, bullet_mask(q@)),
                has_padded_bullet(q@),
                k <= segs@.len(),
                out.wf(),
                pushed_names(out.view(), bullet_names(q@, k as int)) == pushed_names(
                    out0,
                    bullet_names(q@, 0),
                ),
            decreases segs@.len() - k,
        {
            proof {
                lemma_bullet_segment_weight(q@, k as int);
            }
            assert(sv[k as int] == segs@[k as int]@);
            let ghost before = out.view();
            split_part(segs[k], out);
            proof {
                lemma_pushed_names_concat(before, part_names(sv[k as int]), bullet_names(q@, k + 1));
            }
            k += 1;
        }
    }
}

/// Offers `out` every name of the guest list `tail`: after a featuring
/// marker a comma or an ampersand separates, which holds only there.
fn push_guests(tail: &str, out: &mut Artists)
    requires
        old(out).wf(),
    ensures
        final(out).wf(),
        final(out).view() == pushed_names(old(out).view(), guest_from(tail@, 0)),
    decreases weight(tail@) as int, 3int, 0int,
{
    let names = guest_names_exec(tail);
    let ghost nv = strings_view(names@);
    let ghost out0 = out.view();
    let mut k: usize = 0;
    while k < names.len()
        invariant
            nv == strings_view(names@),
            nv == guest_names(tail@),
            k <= names@.len(),
            out.wf(),
            pushed_names(out.view(), guest_from(tail@, k as int)) == pushed_names(
                out0,
                guest_from(tail@, 0),
            ),
        decreases names@.len() - k,
    {
        proof {
            lemma_guest_name_weight(tail@, k as int);
        }
        assert(nv[k as int] == names@[k as int]@);
        let ghost before = out.view();
        split_part(names[k].as_str(), out);
        proof {
            lemma_pushed_names_concat(before, part_names(nv[k as int]), guest_from(tail@, k + 1));
        }
        k += 1;
    }
}

/// The individual artists a credit string names.
///
/// Gives the trimmed input as the one entry when nothing marks it as a join,
/// and drops later spellings of an artist already named, in any case.
pub fn split_credit(credit: &str) -> (r: Vec<String>)
    ensures
        strings_view(r@) == credit_names(credit@),
{
    let mut out = Artists::new();
    push_credit(credit, &mut out);
    out.into_names()
}

/// The artists a track credits, preferring the source's own per-artist values
/// over the joined display string. Each value still goes through the credit
/// splitter, because a multi-value field can hold one joined credit per slot.
pub fn credited(primary: &str, structured: &[String]) -> (r: Vec<String>)
    ensures
        strings_view(r@) == credited_names(primary@, strings_view(structured@)),
{
    let ghost sv = strings_view(structured@);
    let ghost ys = sv.map_values(|v: Seq<char>| credit_from(v, 0));
    let mut out = Artists::new();
    let mut i: usize = 0;
    assert(ys.take(0).flatten_alt() =~= Seq::<Seq<char>>::empty());
    while i < structured.len()
        invariant
            sv == strings_view(structured@),
            ys == sv.map_values(|v: Seq<char>| credit_from(v, 0)),
            i <= structured@.len(),
            out.wf(),
            out.view() == pushed_names(Seq::empty(), ys.take(i as int).flatten_alt()),
        decreases structured@.len() - i,
    {
        let ghost before = out.view();
        assert(sv[i as int] == structured@[i as int]@);
        push_credit(structured[i].as_str(), &mut out);
        assert(ys.take(i + 1).drop_last() =~= ys.take(i as int));
        proof {
            lemma_pushed_names_concat(Seq::empty(), ys.take(i as int).flatten_alt(), ys[i as int]);
        }
        i += 1;
    }
    assert(ys.take(structured@.len() as int) =~= ys);
    if out.names.len() == 0 {
        let ghost empty = out.view();
        assert(empty =~= Seq::<Seq<char>>::empty());
        split_part(primary, &mut out);
    }
    out.into_names()
}

} // verus!
