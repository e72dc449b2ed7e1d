use chess_rules::board::{
    empty_position, is_move_capture, is_piece_black, is_piece_white, is_there_piece_at_sq,
    piece_at_sq, piece_base, piece_color, set_piece_at_sq, toggled_color, Move,
};
use chess_rules::geometry::{
    apply_dir_d, apply_dir_l, apply_dir_ndl, apply_dir_ndr, apply_dir_nld, apply_dir_nlu,
    apply_dir_nrd, apply_dir_nru, apply_dir_nul, apply_dir_nur, apply_dir_r, apply_dir_u,
    apply_dir_dl, apply_dir_dr, apply_dir_ul, apply_dir_ur, filerank_to_sq, fr_to_sq,
    next_sq_in_dir, sq_to_filerank, FileRank, DIR_D, DIR_L, DIR_NUR, DIR_R, DIR_U, DIR_UR,
};
use chess_rules::notation::{
    algsq_to_sq, char_to_piece, f_to_string, piece_to_char, r_to_string, sq_to_algsq,
    sq_to_algstring, AlgSq,
};

#[test]
fn piece_letters_round_trip() {
    for (c, p) in [
        ('R', 2i8),
        ('N', 3),
        ('B', 4),
        ('Q', 5),
        ('K', 6),
        ('P', 1),
        ('r', -2),
        ('n', -3),
        ('b', -4),
        ('q', -5),
        ('k', -6),
        ('p', -1),
    ] {
        assert_eq!(char_to_piece(c), p);
        assert_eq!(piece_to_char(p), c);
    }
}

#[test]
fn square_names_round_trip() {
    assert_eq!(sq_to_algstring(0), "a1");
    assert_eq!(sq_to_algstring(7), "h1");
    assert_eq!(sq_to_algstring(56), "a8");
    assert_eq!(sq_to_algstring(63), "h8");
    assert_eq!(sq_to_algstring(28), "e4");
    for sq in 0..64i8 {
        let alg = sq_to_algsq(sq);
        assert_eq!(algsq_to_sq(alg), sq);
    }
    let e4 = AlgSq { file: String::from("e"), rank: String::from("4") };
    assert_eq!(algsq_to_sq(e4), 28);
    assert_eq!(f_to_string(0), "a");
    assert_eq!(r_to_string(7), "8");
}

#[test]
fn filerank_conversions_invert() {
    for sq in 0..64i8 {
        let fr = sq_to_filerank(sq);
        assert_eq!(fr.f, sq % 8);
        assert_eq!(fr.r, sq / 8);
        assert_eq!(filerank_to_sq(&fr), sq);
        assert_eq!(fr_to_sq(fr.f, fr.r), sq);
    }
}

#[test]
fn next_sq_in_dir_steps_and_stops() {
    assert_eq!(next_sq_in_dir(0, DIR_U), Some(8));
    assert_eq!(next_sq_in_dir(0, DIR_R), Some(1));
    assert_eq!(next_sq_in_dir(0, DIR_UR), Some(9));
    assert_eq!(next_sq_in_dir(0, DIR_D), None);
    assert_eq!(next_sq_in_dir(0, DIR_L), None);
    assert_eq!(next_sq_in_dir(63, DIR_U), None);
    // Knight directions never chain, so they always report None here.
    assert_eq!(next_sq_in_dir(27, DIR_NUR), None);
}

#[test]
fn apply_dir_moves_filerank_and_reports_the_edge() {
    let mut fr = FileRank { f: 3, r: 3 };
    assert!(!apply_dir_u(&mut fr));
    assert_eq!((fr.f, fr.r), (3, 4));
    assert!(!apply_dir_r(&mut fr));
    assert_eq!((fr.f, fr.r), (4, 4));
    assert!(!apply_dir_d(&mut fr));
    assert!(!apply_dir_l(&mut fr));
    assert_eq!((fr.f, fr.r), (3, 3));
    assert!(!apply_dir_ur(&mut fr));
    assert_eq!((fr.f, fr.r), (4, 4));
    assert!(!apply_dir_dl(&mut fr));
    assert!(!apply_dir_dr(&mut fr));
    assert!(!apply_dir_ul(&mut fr));
    assert_eq!((fr.f, fr.r), (3, 3));
    assert!(!apply_dir_nur(&mut fr));
    assert_eq!((fr.f, fr.r), (4, 5));
    assert!(!apply_dir_ndl(&mut fr));
    assert_eq!((fr.f, fr.r), (3, 3));
    assert!(!apply_dir_nru(&mut fr));
    assert_eq!((fr.f, fr.r), (5, 4));
    assert!(!apply_dir_nld(&mut fr));
    assert_eq!((fr.f, fr.r), (3, 3));
    assert!(!apply_dir_nrd(&mut fr));
    assert_eq!((fr.f, fr.r), (5, 2));
    assert!(!apply_dir_nlu(&mut fr));
    assert_eq!((fr.f, fr.r), (3, 3));
    assert!(!apply_dir_ndr(&mut fr));
    assert_eq!((fr.f, fr.r), (4, 1));
    assert!(!apply_dir_nul(&mut fr));
    assert_eq!((fr.f, fr.r), (3, 3));
    // At the board's edge the step reports off-board, short-circuiting the
    // rest of a composite step.
    let mut edge = FileRank { f: 7, r: 7 };
    assert!(apply_dir_ur(&mut edge));
    assert_eq!((edge.f, edge.r), (7, 8));
    let mut edge2 = FileRank { f: 0, r: 0 };
    assert!(apply_dir_d(&mut edge2));
    let mut edge3 = FileRank { f: 6, r: 7 };
    assert!(apply_dir_nur(&mut edge3));
    assert_eq!((edge3.f, edge3.r), (6, 8));
}

#[test]
fn piece_predicates_and_colors() {
    assert!(is_piece_white(3));
    assert!(!is_piece_white(-3));
    assert!(!is_piece_white(0));
    assert!(is_piece_black(-5));
    assert!(!is_piece_black(5));
    assert_eq!(piece_color(4), 1);
    assert_eq!(piece_color(-4), -1);
    assert_eq!(piece_color(0), 0);
    assert_eq!(piece_base(-6), 6);
    assert_eq!(piece_base(6), 6);
    assert_eq!(piece_base(0), 0);
    assert_eq!(toggled_color(1), -1);
    assert_eq!(toggled_color(-1), 1);
}

#[test]
fn board_lookups() {
    let mut pos = empty_position();
    assert_eq!(pos.placement.len(), 64);
    assert!(!is_there_piece_at_sq(&pos, 10));
    set_piece_at_sq(&mut pos, 10, -4);
    assert!(is_there_piece_at_sq(&pos, 10));
    assert_eq!(piece_at_sq(&pos, 10), -4);
    let capture = Move { piece: 2, from: 0, to: 10, leads_to: None };
    let quiet = Move { piece: 2, from: 0, to: 11, leads_to: None };
    assert!(is_move_capture(&pos, &capture));
    assert!(!is_move_capture(&pos, &quiet));
}
