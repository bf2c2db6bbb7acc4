//! The decisions of an album card's actions menu: which entries it offers,
//! which action an entry stands for, and the order in which an album's
//! tracks are queued.

use vstd::prelude::*;
use vstd::string::*;
use crate::text::{chars_of, trim, trim_str};

verus! {

/// An entry of the album actions menu. The set needs nothing but an album
/// id; deleting or editing an album belongs to the album page.
#[derive(Clone, Copy, PartialEq, Eq, Structural, Debug)]
pub enum AlbumAction {
    PlayNext,
    AddToQueue,
    AddToPlaylist,
    GoToArtist,
}

/// The menu entries, in menu order: play next and add to queue always; add
/// to playlist where the source can edit playlists; go to artist where the
/// album has an artist that is more than whitespace.
pub open spec fn menu_actions(playlists_supported: bool, artist: Seq<char>) -> Seq<AlbumAction> {
    let base = seq![AlbumAction::PlayNext, AlbumAction::AddToQueue];
    let with_playlist = if playlists_supported {
        base.push(AlbumAction::AddToPlaylist)
    } else {
        base
    };
    if trim(artist).len() > 0 {
        with_playlist.push(AlbumAction::GoToArtist)
    } else {
        with_playlist
    }
}

/// The entries of the album actions menu, in menu order.
pub fn album_menu_actions(playlists_supported: bool, artist: &str) -> (r: Vec<AlbumAction>)
    ensures
        r@ == menu_actions(playlists_supported, artist@),
{
    let mut r = vec![AlbumAction::PlayNext, AlbumAction::AddToQueue];
    if playlists_supported {
        r.push(AlbumAction::AddToPlaylist);
    }
    if trim_str(artist).unicode_len() > 0 {
        r.push(AlbumAction::GoToArtist);
    }
    r
}

/// The action behind the menu entry at `idx`, or none past the last entry.
pub fn action_at(actions: &Vec<AlbumAction>, idx: usize) -> (r: Option<AlbumAction>)
    ensures
        r == (if idx < actions@.len() {
            Some(actions@[idx as int])
        } else {
            None
        }),
{
    if idx < actions.len() {
        Some(actions[idx])
    } else {
        None
    }
}

/// What places a track within its album: disc, then track number, then
/// title. A missing number comes before any number.
pub struct TrackOrderKey {
    pub disc_number: Option<u32>,
    pub track_number: Option<u32>,
    pub title: String,
}

/// Whether number `a` comes before number `b`, a missing one first.
pub open spec fn number_before(a: Option<u32>, b: Option<u32>) -> bool {
    match (a, b) {
        (None, Some(_)) => true,
        (Some(x), Some(y)) => x < y,
        _ => false,
    }
}

/// Whether text `a` comes before text `b`, character by character and a
/// prefix first: the order of `str`, whose UTF-8 bytes order as their
/// characters do.
pub open spec fn text_before(a: Seq<char>, b: Seq<char>) -> bool
    decreases a.len(),
{
    if a.len() == 0 {
        b.len() > 0
    } else if b.len() == 0 {
        false
    } else if a[0] != b[0] {
        a[0] < b[0]
    } else {
        text_before(a.drop_first(), b.drop_first())
    }
}

/// Whether two keys place their tracks alike.
pub open spec fn same_place(a: TrackOrderKey, b: TrackOrderKey) -> bool {
    a.disc_number == b.disc_number && a.track_number == b.track_number && a.title@ == b.title@
}

/// Whether key `a` comes before key `b`.
pub open spec fn key_before(a: TrackOrderKey, b: TrackOrderKey) -> bool {
    ||| number_before(a.disc_number, b.disc_number)
    ||| (a.disc_number == b.disc_number && number_before(a.track_number, b.track_number))
    ||| (a.disc_number == b.disc_number && a.track_number == b.track_number && text_before(
        a.title@,
        b.title@,
    ))
}

/// Whether track `i` plays before track `j` in album order: by key, and in
/// the given order where the keys tie.
pub open spec fn plays_before(keys: Seq<TrackOrderKey>, i: int, j: int) -> bool {
    key_before(keys[i], keys[j]) || (same_place(keys[i], keys[j]) && i < j)
}

proof fn lemma_text_before_irreflexive(a: Seq<char>)
    ensures
        !text_before(a, a),
    decreases a.len(),
{
    if a.len() > 0 {
        lemma_text_before_irreflexive(a.drop_first());
    }
}

proof fn lemma_text_before_total(a: Seq<char>, b: Seq<char>)
    ensures
        a != b ==> text_before(a, b) || text_before(b, a),
        text_before(a, b) ==> !text_before(b, a),
    decreases a.len(),
{
    if a.len() > 0 && b.len() > 0 {
        lemma_text_before_total(a.drop_first(), b.drop_first());
        if a[0] == b[0] && a.drop_first() == b.drop_first() {
            assert forall|k: int| 0 <= k < a.len() implies a[k] == b[k] by {
                if k > 0 {
                    assert(a[k] == a.drop_first()[k - 1]);
                    assert(b[k] == b.drop_first()[k - 1]);
                }
            }
            assert(a =~= b);
        }
    } else if a.len() == 0 && b.len() == 0 {
        assert(a =~= b);
    }
}

proof fn lemma_text_before_transitive(a: Seq<char>, b: Seq<char>, c: Seq<char>)
    requires
        text_before(a, b),
        text_before(b, c),
    ensures
        text_before(a, c),
    decreases a.len(),
{
    if a.len() > 0 && a[0] == b[0] && b[0] == c[0] {
        lemma_text_before_transitive(a.drop_first(), b.drop_first(), c.drop_first());
    }
}

proof fn lemma_text_before_order(a: Seq<char>, b: Seq<char>, c: Seq<char>)
    ensures
        !text_before(a, a),
        a != b ==> text_before(a, b) || text_before(b, a),
        text_before(a, b) ==> !text_before(b, a),
        text_before(a, b) && text_before(b, c) ==> text_before(a, c),
{
    lemma_text_before_irreflexive(a);
    lemma_text_before_total(a, b);
    if text_before(a, b) && text_before(b, c) {
        lemma_text_before_transitive(a, b, c);
    }
}

/// Album order is a strict total order on tracks.
proof fn lemma_plays_before_order(keys: Seq<TrackOrderKey>, i: int, j: int, k: int)
    ensures
        !plays_before(keys, i, i),
        i != j ==> plays_before(keys, i, j) || plays_before(keys, j, i),
        plays_before(keys, i, j) && plays_before(keys, j, k) ==> plays_before(keys, i, k),
{
    lemma_text_before_order(keys[i].title@, keys[j].title@, keys[k].title@);
    lemma_text_before_order(keys[j].title@, keys[i].title@, keys[k].title@);
    lemma_text_before_order(keys[i].title@, keys[k].title@, keys[j].title@);
}

/// Whether `a` comes before `b` as numbers, a missing one first.
fn number_before_exec(a: Option<u32>, b: Option<u32>) -> (r: bool)
    ensures
        r == number_before(a, b),
{
    match (a, b) {
        (None, Some(_)) => true,
        (Some(x), Some(y)) => x < y,
        _ => false,
    }
}

/// Whether text `a` comes before text `b`.
fn text_before_exec(a: &str, b: &str) -> (r: bool)
    ensures
        r == text_before(a@, b@),
{
    let xs = chars_of(a);
    let ys = chars_of(b);
    let mut j: usize = 0;
    assert(xs@.subrange(0, xs@.len() as int) =~= xs@);
    assert(ys@.subrange(0, ys@.len() as int) =~= ys@);
    while j < xs.len() && j < ys.len() && xs[j] == ys[j]
        invariant
            j <= xs@.len(),
            j <= ys@.len(),
            text_before(a@, b@) == text_before(
                xs@.subrange(j as int, xs@.len() as int),
                ys@.subrange(j as int, ys@.len() as int),
            ),
            xs@ == a@,
            ys@ == b@,
        decreases xs@.len() - j,
    {
        assert(xs@.subrange(j as int, xs@.len() as int).drop_first() =~= xs@.subrange(
            j + 1,
            xs@.len() as int,
        ));
        assert(ys@.subrange(j as int, ys@.len() as int).drop_first() =~= ys@.subrange(
            j + 1,
            ys@.len() as int,
        ));
        j += 1;
    }
    if j == xs.len() {
        j < ys.len()
    } else if j == ys.len() {
        false
    } else {
        xs[j] < ys[j]
    }
}

/// Whether track key `a` comes before key `b`.
fn key_before_exec(a: &TrackOrderKey, b: &TrackOrderKey) -> (r: bool)
    ensures
        r == key_before(*a, *b),
{
    if number_before_exec(a.disc_number, b.disc_number) {
        return true;
    }
    if a.disc_number != b.disc_number {
        return false;
    }
    if number_before_exec(a.track_number, b.track_number) {
        return true;
    }
    if a.track_number != b.track_number {
        return false;
    }
    text_before_exec(a.title.as_str(), b.title.as_str())
}

/// Whether `order` lists every track position once, in album order.
pub open spec fn is_album_order(keys: Seq<TrackOrderKey>, order: Seq<usize>) -> bool {
    &&& order.len() == keys.len()
    &&& forall|a: int| 0 <= a < order.len() ==> #[trigger] order[a] < keys.len()
    &&& order.no_duplicates()
    &&& forall|a: int, b: int|
        0 <= a < b < order.len() ==> plays_before(keys, #[trigger] order[a] as int, #[trigger] order[b] as int)
}

/// Album order as the album page shows it: the positions of the tracks
/// sorted by disc, track number and title, tracks that tie keeping their
/// given order. A source may hand tracks back in its own order, so queueing
/// without this can interleave discs or open at track 7.
pub fn album_order(keys: &Vec<TrackOrderKey>) -> (r: Vec<usize>)
    ensures
        is_album_order(keys@, r@),
{
    let n = keys.len();
    let mut order: Vec<usize> = Vec::new();
    let mut i: usize = 0;
    while i < n
        invariant
            n == keys@.len(),
            i <= n,
            order@.len() == i,
            forall|a: int| 0 <= a < order@.len() ==> #[trigger] order@[a] < i,
            order@.no_duplicates(),
            forall|a: int, b: int|
                0 <= a < b < order@.len() ==> plays_before(
                    keys@,
                    #[trigger] order@[a] as int,
                    #[trigger] order@[b] as int,
                ),
        decreases n - i,
    {
        let mut pos: usize = 0;
        while pos < order.len() && !key_before_exec(&keys[i], &keys[order[pos]])
            invariant
                n == keys@.len(),
                i < n,
                pos <= order@.len(),
                forall|a: int| 0 <= a < order@.len() ==> #[trigger] order@[a] < i,
                forall|a: int|
                    0 <= a < pos ==> !key_before(keys@[i as int], keys@[#[trigger] order@[a] as int]),
            decreases order@.len() - pos,
        {
            pos += 1;
        }
        let ghost old_order = order@;
        order.insert(pos, i);
        assert forall|a: int, b: int| 0 <= a < b < order@.len() implies plays_before(
            keys@,
            #[trigger] order@[a] as int,
            #[trigger] order@[b] as int,
        ) by {
            let x = order@[a] as int;
            let y = order@[b] as int;
            if a < pos && b < pos {
                assert(x == old_order[a] && y == old_order[b]);
            } else if a < pos && b == pos {
                assert(x == old_order[a]);
                lemma_plays_before_order(keys@, x, y, y);
            } else if a < pos {
                assert(x == old_order[a] && y == old_order[b - 1]);
            } else if a == pos {
                assert(y == old_order[b - 1]);
                let z = old_order[pos as int] as int;
                assert(key_before(keys@[i as int], keys@[z]));
                if b - 1 > pos {
                    assert(plays_before(keys@, z, y));
                }
                lemma_plays_before_order(keys@, x, z, y);
            } else {
                assert(x == old_order[a - 1] && y == old_order[b - 1]);
            }
        }
        assert forall|a: int| 0 <= a < order@.len() implies #[trigger] order@[a] < i + 1 by {
            if a < pos {
                assert(order@[a] == old_order[a]);
            } else if a > pos {
                assert(order@[a] == old_order[a - 1]);
            }
        }
        assert(order@.no_duplicates()) by {
            assert forall|a: int, b: int| 0 <= a < b < order@.len() implies order@[a] != order@[b] by {
                lemma_plays_before_order(keys@, order@[a] as int, order@[b] as int, order@[b] as int);
            }
        }
        i += 1;
    }
    order
}


/// The refs an album contributes to a playlist, in album order: `refs[i]`
/// belongs to the track placed by `keys[i]`.
pub fn album_refs_in_order(keys: &Vec<TrackOrderKey>, refs: &Vec<String>) -> (r: Vec<String>)
    requires
        refs@.len() == keys@.len(),
    ensures
        exists|order: Seq<usize>|
            is_album_order(keys@, order) && r@.len() == order.len() && forall|j: int|
                0 <= j < order.len() ==> #[trigger] r@[j]@ == refs@[order[j] as int]@,
{
    let order = album_order(keys);
    let mut r: Vec<String> = Vec::new();
    let mut j: usize = 0;
    while j < order.len()
        invariant
            is_album_order(keys@, order@),
            refs@.len() == keys@.len(),
            j <= order@.len(),
            r@.len() == j,
            forall|l: int| 0 <= l < j ==> #[trigger] r@[l]@ == refs@[order@[l] as int]@,
        decreases order@.len() - j,
    {
        assert(order@[j as int] < keys@.len());
        r.push(refs[order[j]].clone());
        j += 1;
    }
    r
}

} // verus!
