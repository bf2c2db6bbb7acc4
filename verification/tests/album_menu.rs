//! The album actions menu and the order an album is queued in.

use lib::album::{
    action_at, album_menu_actions, album_order, album_refs_in_order, AlbumAction, TrackOrderKey,
};

fn key(disc: Option<u32>, track: Option<u32>, title: &str) -> TrackOrderKey {
    TrackOrderKey { disc_number: disc, track_number: track, title: title.to_string() }
}

#[test]
fn menu_always_offers_queueing() {
    assert_eq!(
        album_menu_actions(false, ""),
        vec![AlbumAction::PlayNext, AlbumAction::AddToQueue]
    );
}

#[test]
fn menu_offers_playlists_and_artist_when_they_exist() {
    assert_eq!(
        album_menu_actions(true, "Daft Punk"),
        vec![
            AlbumAction::PlayNext,
            AlbumAction::AddToQueue,
            AlbumAction::AddToPlaylist,
            AlbumAction::GoToArtist
        ]
    );
    assert_eq!(
        album_menu_actions(false, "  \t "),
        vec![AlbumAction::PlayNext, AlbumAction::AddToQueue]
    );
    assert_eq!(
        album_menu_actions(false, " Reol "),
        vec![AlbumAction::PlayNext, AlbumAction::AddToQueue, AlbumAction::GoToArtist]
    );
}

#[test]
fn menu_entries_map_back_to_actions() {
    let actions = album_menu_actions(true, "");
    assert_eq!(action_at(&actions, 2), Some(AlbumAction::AddToPlaylist));
    assert_eq!(action_at(&actions, 3), None);
}

#[test]
fn album_order_goes_by_disc_then_track_then_title() {
    let keys = vec![
        key(Some(2), Some(1), "Disc two opener"),
        key(Some(1), Some(7), "Seven"),
        key(Some(1), Some(1), "One"),
        key(None, Some(3), "Unnumbered disc"),
        key(Some(1), None, "No track number"),
        key(Some(1), Some(7), "Another seven"),
    ];
    assert_eq!(album_order(&keys), vec![3, 4, 2, 5, 1, 0]);
}

#[test]
fn album_order_keeps_ties_in_given_order() {
    let keys = vec![
        key(Some(1), Some(1), "Same"),
        key(Some(1), Some(1), "Same"),
        key(Some(1), Some(1), "Same"),
    ];
    assert_eq!(album_order(&keys), vec![0, 1, 2]);
    assert_eq!(album_order(&vec![]), Vec::<usize>::new());
}

#[test]
fn album_order_sorts_titles_like_str() {
    let titles = ["b", "a", "ab", "", "Z", "é", "aa"];
    let keys: Vec<TrackOrderKey> = titles.iter().map(|t| key(Some(1), Some(1), t)).collect();
    let order = album_order(&keys);
    let sorted: Vec<&str> = order.iter().map(|&i| titles[i]).collect();
    let mut expected = titles.to_vec();
    expected.sort();
    assert_eq!(sorted, expected);
}

#[test]
fn playlist_refs_follow_album_order() {
    let keys = vec![
        key(Some(1), Some(2), "Two"),
        key(Some(1), Some(1), "One"),
        key(Some(2), Some(1), "Three"),
    ];
    let refs = vec!["/b.flac".to_string(), "/a.flac".to_string(), "/c.flac".to_string()];
    assert_eq!(album_refs_in_order(&keys, &refs), vec!["/a.flac", "/b.flac", "/c.flac"]);
}
