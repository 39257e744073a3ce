use std::collections::HashSet;

use risuko_bt::meta::lengths::Lengths;
use risuko_bt::piece::piece_tracker::PieceTracker;

fn lengths(pieces: u32) -> Lengths {
    Lengths::new((pieces as u64) * 1024, 1024).unwrap()
}

#[test]
fn bitfield_round_trip() {
    let mut t = PieceTracker::new(lengths(9));
    let first = t.lengths().validate_piece(0).unwrap();
    let last = t.lengths().validate_piece(8).unwrap();
    t.set_local(first, true);
    t.set_local(last, true);
    let bf = t.bitfield();
    assert_eq!(bf.len(), 2);
    assert_eq!(bf[0], 0b1000_0000);
    assert_eq!(bf[1], 0b1000_0000);
}

#[test]
fn repeated_have_updates_availability_once() {
    let mut tracker = PieceTracker::new(lengths(4));
    let mut peer = vec![0u8; 1];
    let piece = tracker.lengths().validate_piece(1).unwrap();

    assert!(tracker.update_peer_have(&mut peer, piece));
    assert!(!tracker.update_peer_have(&mut peer, piece));
    assert_eq!(peer, vec![0b0100_0000]);
    assert_eq!(*tracker.availability(), vec![0, 1, 0, 0]);

    tracker.remove_peer_bitfield(&peer);
    assert_eq!(*tracker.availability(), vec![0, 0, 0, 0]);
}

#[test]
fn replacing_bitfield_removes_old_counts_and_clears_short_tail() {
    let mut tracker = PieceTracker::new(lengths(10));
    let mut peer = vec![0u8; 2];

    tracker.replace_peer_bitfield(&mut peer, &[0b1000_0000, 0b1000_0000]);
    assert_eq!(tracker.availability()[0], 1);
    assert_eq!(tracker.availability()[8], 1);

    tracker.replace_peer_bitfield(&mut peer, &[0b0100_0000]);
    assert_eq!(peer, vec![0b0100_0000, 0]);
    assert_eq!(tracker.availability()[0], 0);
    assert_eq!(tracker.availability()[1], 1);
    assert_eq!(tracker.availability()[8], 0);

    tracker.replace_peer_bitfield(&mut peer, &[0b0100_0000]);
    assert_eq!(tracker.availability()[1], 1);
}

#[test]
fn rarest_first_choice() {
    let mut t = PieceTracker::new(lengths(4));
    t.add_peer_bitfield(&[0b1111_0000]);
    t.add_peer_bitfield(&[0b1100_0000]);
    let chosen = t.choose_piece(&[0b1111_0000]).unwrap();
    assert_eq!(chosen.get(), 2);

    t.set_local(chosen, true);
    let chosen = t.choose_piece(&[0b1111_0000]).unwrap();
    assert_eq!(chosen.get(), 3);
}

#[test]
fn batched_requestable_pieces_preserve_rarest_hint_order() {
    let mut t = PieceTracker::new(lengths(4));
    t.add_peer_bitfield(&[0b1111_0000]);
    t.add_peer_bitfield(&[0b0011_0000]);
    let chosen: Vec<u32> = t
        .choose_requestable_pieces(&[0b1111_0000], 1)
        .into_iter()
        .map(|p| p.get())
        .collect();

    assert_eq!(chosen, vec![1, 0, 3, 2]);
}

#[test]
fn batched_endgame_pieces_include_in_flight() {
    let mut t = PieceTracker::new(lengths(2));
    t.add_peer_bitfield(&[0b1100_0000]);
    let first = t.lengths().validate_piece(0).unwrap();
    t.mark_in_flight(first);

    let requestable: Vec<u32> = t
        .choose_requestable_pieces(&[0b1100_0000], 0)
        .into_iter()
        .map(|p| p.get())
        .collect();
    let endgame: Vec<u32> = t
        .choose_pieces(&[0b1100_0000], 0)
        .into_iter()
        .map(|p| p.get())
        .collect();

    assert_eq!(requestable, vec![1]);
    assert_eq!(endgame, vec![0, 1]);
}

#[test]
fn peer_with_nothing_useful() {
    let mut t = PieceTracker::new(lengths(4));
    t.add_peer_bitfield(&[0b1111_0000]);
    let first = t.lengths().validate_piece(0).unwrap();
    t.set_local(first, true);
    assert!(t.choose_piece(&[0b1000_0000]).is_none());
}

#[test]
fn completion_tracking() {
    let mut t = PieceTracker::new(lengths(3));
    assert!(!t.is_complete());
    for i in 0..3 {
        let piece = t.lengths().validate_piece(i).unwrap();
        t.set_local(piece, true);
    }
    assert!(t.is_complete());
}

#[test]
fn lazy_sorted_candidates_track_mutations() {
    let mut t = PieceTracker::new(lengths(4));
    t.add_peer_bitfield(&[0b1111_0000]);
    t.add_peer_bitfield(&[0b1100_0000]);
    let order: Vec<u32> = t
        .choose_requestable_pieces(&[0b1111_0000], 0)
        .into_iter()
        .map(|p| p.get())
        .collect();
    assert_eq!(order, vec![2, 3, 0, 1]);
    let two = t.lengths().validate_piece(2).unwrap();
    t.note_peer_has(two);
    let order: Vec<u32> = t
        .choose_requestable_pieces(&[0b1111_0000], 0)
        .into_iter()
        .map(|p| p.get())
        .collect();
    assert_eq!(order, vec![3, 0, 1, 2]);
    let three = t.lengths().validate_piece(3).unwrap();
    t.set_local(three, true);
    let order: Vec<u32> = t
        .choose_requestable_pieces(&[0b1111_0000], 0)
        .into_iter()
        .map(|p| p.get())
        .collect();
    assert_eq!(order, vec![0, 1, 2]);
}

#[test]
fn webseed_selection_includes_zero_availability_pieces() {
    let mut t = PieceTracker::new(lengths(3));
    t.add_peer_bitfield(&[0b1000_0000]);
    let one = t.lengths().validate_piece(1).unwrap();
    t.mark_in_flight(one);

    let missing: Vec<u32> = t
        .choose_missing_pieces()
        .into_iter()
        .map(|piece| piece.get())
        .collect();

    assert_eq!(missing, vec![2, 0]);
}

#[test]
fn excluded_pieces_are_passed_over() {
    let mut t = PieceTracker::new(lengths(4));
    t.add_peer_bitfield(&[0b1111_0000]);
    t.add_peer_bitfield(&[0b1100_0000]);
    let mut exclude = HashSet::new();
    exclude.insert(2u32);
    let chosen = t.choose_piece_excluding(&[0b1111_0000], 0, &exclude).unwrap();
    assert_eq!(chosen.get(), 3);
    exclude.insert(3);
    exclude.insert(0);
    exclude.insert(1);
    assert!(t.choose_piece_excluding(&[0b1111_0000], 0, &exclude).is_none());
}

#[test]
fn counting_a_peer_out_undoes_counting_it_in() {
    let mut t = PieceTracker::new(lengths(8));
    t.add_peer_bitfield(&[0b1010_1010]);
    let before = t.availability().clone();
    t.add_peer_bitfield(&[0b1111_0000]);
    t.remove_peer_bitfield(&[0b1111_0000]);
    assert_eq!(*t.availability(), before);
    assert_eq!(before, vec![1, 0, 1, 0, 1, 0, 1, 0]);
}

#[test]
fn pieces_in_flight_can_be_freed_again() {
    let mut t = PieceTracker::new(lengths(1));
    t.add_peer_bitfield(&[0b1000_0000]);
    let only = t.lengths().validate_piece(0).unwrap();
    t.mark_in_flight(only);
    assert!(t.choose_requestable_pieces(&[0b1000_0000], 0).is_empty());
    t.clear_in_flight(only);
    assert_eq!(t.choose_requestable_pieces(&[0b1000_0000], 0)[0].get_usize(), 0);
    assert!(!t.has_local(only));
}
