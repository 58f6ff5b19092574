use plause::piece::Piece;
use plause::settings::Settings;
use plause::util::check_overlap;
use plause::util::concat_vec;
use plause::util::find_file;
use plause::util::find_file_next_distance;
use plause::util::random_pass;
use plause::util::same_bytes;
use rand::rngs::StdRng;
use rand::SeedableRng;

fn piece(start: u32, content: Vec<u8>) -> Piece {
    let end = start + content.len() as u32;
    Piece { password: Vec::new(), content, start_pos: start, end_pos: end }
}

#[test]
fn concat_vec_puts_the_second_behind_the_first() {
    assert_eq!(concat_vec(vec![1u8, 2], vec![3u8]), vec![1u8, 2, 3]);
    assert_eq!(concat_vec(Vec::<u8>::new(), vec![3u8]), vec![3u8]);
    assert_eq!(concat_vec(vec![1u8], Vec::new()), vec![1u8]);
    assert_eq!(concat_vec(Vec::<u32>::new(), Vec::new()), Vec::<u32>::new());
    assert_eq!(concat_vec(vec!["a", "b"], vec!["c", "d"]), vec!["a", "b", "c", "d"]);
}

#[test]
fn same_bytes_compares_length_and_content() {
    assert!(same_bytes(&Vec::new(), &Vec::new()));
    assert!(same_bytes(&vec![1u8, 2, 3], &vec![1u8, 2, 3]));
    assert!(!same_bytes(&vec![1u8, 2, 3], &vec![1u8, 2]));
    assert!(!same_bytes(&vec![1u8, 2], &vec![1u8, 2, 3]));
    assert!(!same_bytes(&vec![1u8, 2, 3], &vec![1u8, 2, 4]));
    assert!(!same_bytes(&vec![0u8, 2, 3], &vec![1u8, 2, 3]));
}

#[test]
fn a_piece_may_not_reach_the_last_byte() {
    let settings = Settings::new(100, "s");
    let none: Vec<Piece> = Vec::new();
    assert!(!check_overlap(&settings, 0, 99, &none));
    assert!(check_overlap(&settings, 0, 100, &none));
    assert!(!check_overlap(&settings, 98, 1, &none));
    assert!(check_overlap(&settings, 99, 1, &none));
    assert!(!check_overlap(&settings, 99, 0, &none));
    assert!(check_overlap(&settings, 100, 0, &none));
    assert!(check_overlap(&settings, u32::MAX, u32::MAX, &none));
}

#[test]
fn nothing_fits_in_an_empty_block() {
    let settings = Settings::new(0, "s");
    assert!(check_overlap(&settings, 0, 0, &Vec::new()));
}

#[test]
fn pieces_keep_a_margin_of_one_byte_each() {
    let settings = Settings::new(100, "s");
    let files = vec![piece(10, vec![0u8; 10])];
    // a piece of five bytes before the piece at 10..20
    assert!(!check_overlap(&settings, 0, 5, &files));
    assert!(!check_overlap(&settings, 3, 5, &files));
    assert!(check_overlap(&settings, 4, 5, &files));
    assert!(check_overlap(&settings, 5, 5, &files));
    // on it
    assert!(check_overlap(&settings, 10, 5, &files));
    assert!(check_overlap(&settings, 12, 5, &files));
    assert!(check_overlap(&settings, 19, 5, &files));
    // around it
    assert!(check_overlap(&settings, 5, 30, &files));
    // behind it
    assert!(check_overlap(&settings, 20, 5, &files));
    assert!(check_overlap(&settings, 21, 5, &files));
    assert!(!check_overlap(&settings, 22, 5, &files));
}

#[test]
fn every_placed_piece_counts() {
    let settings = Settings::new(1000, "s");
    let files = vec![piece(100, vec![0u8; 50]), piece(400, vec![0u8; 50]), piece(0, vec![0u8; 8])];
    assert!(check_overlap(&settings, 0, 1, &files));
    assert!(check_overlap(&settings, 9, 1, &files));
    assert!(!check_overlap(&settings, 10, 88, &files));
    assert!(check_overlap(&settings, 10, 89, &files));
    assert!(check_overlap(&settings, 390, 9, &files));
    assert!(!check_overlap(&settings, 152, 246, &files));
    assert!(!check_overlap(&settings, 452, 547, &files));
    assert!(check_overlap(&settings, 452, 548, &files));
}

#[test]
fn distance_to_the_next_piece() {
    let settings = Settings::new(100, "s");
    let files = vec![piece(40, vec![0u8; 10]), piece(10, vec![0u8; 3])];
    assert_eq!(find_file_next_distance(&settings, 0, &files), Some(10));
    assert_eq!(find_file_next_distance(&settings, 4, &files), Some(6));
    assert_eq!(find_file_next_distance(&settings, 10, &files), Some(0));
    assert_eq!(find_file_next_distance(&settings, 11, &files), Some(0));
    assert_eq!(find_file_next_distance(&settings, 12, &files), Some(0));
    assert_eq!(find_file_next_distance(&settings, 13, &files), Some(27));
    assert_eq!(find_file_next_distance(&settings, 40, &files), Some(0));
    assert_eq!(find_file_next_distance(&settings, 49, &files), Some(0));
    assert_eq!(find_file_next_distance(&settings, 50, &files), None);
    assert_eq!(find_file_next_distance(&settings, 99, &files), None);
    assert_eq!(find_file_next_distance(&settings, 100, &files), None);
    assert_eq!(find_file_next_distance(&settings, 200, &files), None);
}

#[test]
fn no_distance_without_pieces() {
    let settings = Settings::new(100, "s");
    assert_eq!(find_file_next_distance(&settings, 0, &Vec::new()), None);
    assert_eq!(find_file_next_distance(&settings, 50, &Vec::new()), None);
}

#[test]
fn pieces_that_start_outside_the_block_are_not_ahead() {
    let settings = Settings::new(20, "s");
    let files = vec![piece(30, vec![0u8; 4])];
    assert_eq!(find_file_next_distance(&settings, 0, &files), None);
    assert_eq!(find_file_next_distance(&settings, 31, &files), Some(0));
}

#[test]
fn find_file_gives_the_first_piece_that_covers() {
    let files = vec![piece(40, vec![7u8; 10]), piece(10, vec![1u8, 2, 3])];
    assert!(find_file(0, &files).is_none());
    assert!(find_file(9, &files).is_none());
    let found = find_file(10, &files).unwrap();
    assert_eq!((found.start_pos, found.end_pos), (10, 13));
    assert_eq!(found.content, vec![1u8, 2, 3]);
    let found = find_file(12, &files).unwrap();
    assert_eq!(found.start_pos, 10);
    assert!(find_file(13, &files).is_none());
    let found = find_file(49, &files).unwrap();
    assert_eq!((found.start_pos, found.end_pos), (40, 50));
    assert_eq!(found.content, vec![7u8; 10]);
    assert!(find_file(50, &files).is_none());
    assert!(find_file(5, &Vec::new()).is_none());
}

#[test]
fn find_file_takes_the_first_of_two_that_cover() {
    let mut first = piece(10, vec![1u8; 5]);
    first.password = vec![1];
    let mut second = piece(12, vec![2u8; 5]);
    second.password = vec![2];
    let files = vec![first, second];
    assert_eq!(find_file(13, &files).unwrap().password, vec![1u8]);
    assert_eq!(find_file(16, &files).unwrap().password, vec![2u8]);
}

#[test]
fn random_pass_has_the_length_asked_for() {
    let mut rng = StdRng::seed_from_u64(11);
    for len in [0usize, 1, 24, 100] {
        let pass = random_pass(&mut rng, len);
        assert_eq!(pass.len(), len);
        assert!(pass.iter().all(|c| c.is_ascii_alphanumeric()));
    }
}

#[test]
fn random_pass_follows_the_seed() {
    let a = random_pass(&mut StdRng::seed_from_u64(5), 24);
    let b = random_pass(&mut StdRng::seed_from_u64(5), 24);
    let c = random_pass(&mut StdRng::seed_from_u64(6), 24);
    assert_eq!(a, b);
    assert_ne!(a, c);
}
