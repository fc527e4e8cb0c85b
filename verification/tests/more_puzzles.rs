use puzzlebox::bases::tally;
use puzzlebox::compression::{memory_of, memory_of_lines, rle_chars, rle_memory, shorten, Form};
use puzzlebox::knapsack::{parse_item, parse_items, top_five_materials, Item};
use puzzlebox::letters::{count_letters, mended_worth, worth};
use puzzlebox::pricing::{self, best_affordable, checked_price, even_price, middle_price};
use puzzlebox::ranges::{count_boxes, count_covered, count_piles, largest_neighbours, parse_pair, parse_piles, range_count};
use puzzlebox::reduction::{reduce, reduce_lines};
use puzzlebox::signs::{self, apply_signs, apply_signs_paired, run_chain};
use puzzlebox::tracks::{self, move_triples, swap_blocks, swap_pairs};

#[test]
fn signs_join_numbers() {
    let numbers = [8, 1, 8, 3, 4, 6, 5, 1];
    let row = b"-+-++-+";
    assert_eq!(apply_signs(&numbers, row, false), Some(18));
    assert_eq!(apply_signs(&numbers, row, true), Some(6));
    assert_eq!(apply_signs_paired(&numbers, row), Some(169));
    assert_eq!(apply_signs(&[5], b"+++", false), Some(5));
    assert_eq!(apply_signs(&[5, 1, 1], b"", true), Some(5));
    assert_eq!(apply_signs(&[5, 1, 1], b"-", false), Some(4));
    assert_eq!(apply_signs(&[5, 1, 1], b"-+*", true), None);
    assert_eq!(apply_signs(&[5, 1], b"-+*", true), None);
    assert_eq!(apply_signs(&[5, 1], b"*+-", true), Some(4));
    assert_eq!(apply_signs(&[], b"+", false), None);
    assert_eq!(apply_signs(&[i64::MAX, 1], b"+", false), None);
    assert_eq!(apply_signs(&[i64::MIN, 1], b"-", false), None);
    assert_eq!(apply_signs(&[i64::MAX, 1], b"-", false), Some(i64::MAX - 1));
    assert_eq!(apply_signs_paired(&[1], b"+"), None);
    assert_eq!(apply_signs_paired(&[1, 2], b"+"), Some(12));
    assert_eq!(apply_signs_paired(&[1, 2, 3], b"+"), None);
    assert_eq!(apply_signs_paired(&[1, 2, 3], b""), Some(12));
    assert_eq!(apply_signs_paired(&[1, 2, 3, 4, 5], b"-"), Some(12 - 34));
    assert_eq!(apply_signs_paired(&[i64::MAX, 0], b""), None);
    assert_eq!(run_chain(1, &vec![Some(2), None], b"+", false), Some(3));
    assert_eq!(run_chain(1, &vec![Some(2), None], b"++", false), None);
}

#[test]
fn numbers_and_signs_are_read() {
    let (numbers, row) = signs::parse("8\n-1\n+3\n-+").unwrap();
    assert_eq!(numbers, [8, -1, 3]);
    assert_eq!(row, b"-+");
    let (numbers, row) = signs::parse("+-").unwrap();
    assert_eq!(numbers.len(), 0);
    assert_eq!(row, b"+-");
    assert!(signs::parse("").is_none());
    assert!(signs::parse("8\nx\n+").is_none());
}

#[test]
fn prices_are_worked_out() {
    let numbers = pricing::parse("heading\nmore\n\n10\n4\n7\n2\n9\n").unwrap();
    assert_eq!(numbers, [10, 4, 7, 2, 9]);
    assert_eq!(middle_price(&numbers), Some(24177));
    assert_eq!(even_price(&numbers), Some(283134));
    assert_eq!(best_affordable(&numbers, 15_000_000_000_000), Some(10));
    assert_eq!(best_affordable(&[1, 60128, 60129, u64::MAX], 15_000_000_000_000), Some(1));
    assert_eq!(best_affordable(&[7, 6_000, 7, 60_000], 15_000_000_000_000), Some(6_000));
    assert_eq!(best_affordable(&numbers, 510), None);
    assert_eq!(best_affordable(&[0], 511), Some(0));
    assert_eq!(middle_price(&[]), None);
    assert_eq!(middle_price(&[1, 644_246]), None);
    assert_eq!(middle_price(&[1, 644_245]), None);
    assert_eq!(even_price(&[]), Some(510));
    assert_eq!(even_price(&[u64::MAX - 1, 2]), None);
    assert_eq!(checked_price(644_204), Some(18_446_727_916_139_515_326));
    assert_eq!(checked_price(644_205), None);
    assert_eq!(checked_price(u64::MAX), None);
    assert!(pricing::parse("10\n4").is_none());
    assert!(pricing::parse("x\n\n10\n-4").is_none());
    assert_eq!(pricing::parse("x\n\n").unwrap().len(), 0);
}

#[test]
fn boxes_are_counted() {
    assert_eq!(range_count(3, 17), Some(15));
    assert_eq!(range_count(17, 3), Some(0));
    assert_eq!(range_count(0, usize::MAX), None);
    let text = "1-5 3-8\n10-12 20-25\n4-4 9-3\n7-9 8-30";
    assert_eq!(count_boxes(text), Some(47));
    assert_eq!(count_boxes(""), Some(0));
    assert_eq!(count_boxes("1-5 x"), None);
    assert_eq!(parse_pair(b"1-5 3-8"), Some(vec![(1, 5), (3, 8)]));
    assert_eq!(parse_pair(b"1-5"), None);
    assert_eq!(parse_pair(b"1-5  3-8"), None);
    let piles = parse_piles(text).unwrap();
    assert_eq!(count_piles(&piles), Some(42));
    assert_eq!(largest_neighbours(&piles), Some(25));
    assert_eq!(largest_neighbours(&piles[..1].to_vec()), None);
    assert_eq!(count_covered(&[]), Some(0));
    assert_eq!(count_covered(&[(5, 3)]), Some(0));
    assert_eq!(count_covered(&[(3, usize::MAX)]), None);
    assert_eq!(count_covered(&[(1_000_000_000, 1_000_000_004), (1_000_000_002, 1_000_000_009)]), Some(10));
    assert!(parse_piles("1-5 3-8\n1-5").is_none());
}

#[test]
fn texts_take_memory() {
    assert_eq!(memory_of(b"NNBUSSSSSDSSZZZZMMMMMMMM"), Some(396));
    assert_eq!(memory_of(b""), Some(0));
    assert_eq!(shorten(b"NNBUSSSSSDSSZZZZMMMMMMMM"), b"NN20MM");
    assert_eq!(shorten(b"ABC"), b"3");
    assert_eq!(shorten(b""), b"0");
    assert_eq!(shorten(b"0123456789"), b"089");
    let text = "NNBUSSSSSDSSZZZZMMMMMMMM\nPWAAASYBRRREEEEEEE\nAAAAAAAAAAAAAAAAAAAAAAAAAAAAAA";
    assert_eq!(memory_of_lines(text, Form::Shortened), Some(56 + 28 + 12));
    assert_eq!(memory_of_lines(text, Form::Encoded), Some(142 + 127 + 4));
    assert_eq!(memory_of_lines("", Form::Encoded), Some(0));
    assert_eq!(rle_memory(b"AAAAAAAAAAAAAAAAAAAAAAAAAAAAAA"), Some(4));
    assert_eq!(rle_memory("éA".as_bytes()), Some(4));
    let chars: String = rle_chars(b"AAB").into_iter().collect();
    assert_eq!(chars, "\u{0}2A1B");
}

#[test]
fn letters_are_counted_and_mended() {
    assert_eq!(count_letters(b"a1B2-z{@[`"), 3);
    assert_eq!(count_letters(b""), 0);
    assert_eq!(worth(b"aZ#b"), Some(1 + 52 + 2));
    let text = "t#UD$%%DVd*L?^p?S$^@#@@$pF$?xYJ$LLv$@%EXO&$*iSFZuT!^VMHy#zKISHaBj?e*#&yRVdemc#?&#Q%j&ev*#YWRi@?mNQ@eK";
    assert_eq!(mended_worth(text.as_bytes()), Some(2708));
    assert_eq!(mended_worth(b"#a#"), Some(97));
    assert_eq!(mended_worth(b"Aa"), Some(28));
    assert_eq!(mended_worth(b"##"), Some(84));
    assert_eq!(mended_worth(b""), Some(0));
}

#[test]
fn lines_are_reduced() {
    assert_eq!(reduce(b"tRaCE7-5", true), 6);
    assert_eq!(reduce_lines("tRaCE7-5\na-1\n12ab3", true), Some(6 + 1 + 1));
    assert_eq!(reduce_lines("tRaCE7-5\na-1\n12ab3", false), Some(8 + 3 + 1));
    assert_eq!(reduce_lines("", true), Some(0));
}

#[test]
fn numbers_are_tallied() {
    assert_eq!(tally("101 2\nzz 36\n0 10"), Some((2262, 2257)));
    assert_eq!(tally("101 2\nZZ 36\n0 10"), Some((1300, 1295)));
    assert_eq!(tally("7 10"), Some((7, 7)));
    assert_eq!(tally(""), None);
    assert_eq!(tally("101 2\nzz"), None);
    assert_eq!(tally("18446744073709551615 10\n1 10"), None);
}

#[test]
fn wares_are_read_and_ranked() {
    let line = "1 MtuAeRRQOc | Quality : 5, Cost : 3, Unique Materials : 2";
    assert_eq!(parse_item(line.as_bytes()), Some(Item { quality: 5, cost: 3, unique_materials: 2 }));
    assert_eq!(parse_item(b"x | a: 1, b: 2, c: 3, d: nothing"), Some(Item { quality: 1, cost: 2, unique_materials: 3 }));
    assert_eq!(parse_item(b"x | a: 1, b: 2"), None);
    assert_eq!(parse_item(b"x | a: 1, b: 2, c:3"), None);
    assert_eq!(parse_item(b"a: 1, b: 2, c: 3"), None);
    let items = parse_items(&format!("{}\n{}", line, line.replace("Quality : 5", "Quality : 6"))).unwrap();
    assert_eq!(items[1].quality, 6);
    assert!(parse_items("x | a: 1").is_none());
    let item = |quality, cost, unique_materials| Item { quality, cost, unique_materials };
    let items =
        [item(5, 3, 2), item(4, 2, 7), item(4, 2, 1), item(9, 5, 30), item(1, 0, 100), item(9, 5, 3), item(2, 2, 2)];
    assert_eq!(top_five_materials(&items), Some(43));
    assert_eq!(top_five_materials(&items[..3]), Some(10));
    assert_eq!(top_five_materials(&[]), Some(0));
    assert_eq!(top_five_materials(&[item(1, 1, usize::MAX), item(1, 1, 1)]), None);
}

#[test]
fn tracks_are_reordered() {
    let row: Vec<u8> = b"ABCDEFGH".to_vec();
    let places = [0, 1, 2, 7, 3, 4];
    let mut a = row.clone();
    assert!(swap_pairs(&mut a, &places));
    assert_eq!(a, b"BAHEDFGC");
    let mut b = row.clone();
    assert!(move_triples(&mut b, &places));
    assert_eq!(b, b"EADCHFGB");
    let mut c = row.clone();
    assert!(swap_blocks(&mut c, &places));
    assert_eq!(c, b"BAHEDFGC");
    let mut d = row.clone();
    assert!(swap_blocks(&mut d, &[5, 1, 0, 6]));
    assert_eq!(d, b"CDGHEBAF");
    let mut e = row.clone();
    assert!(swap_blocks(&mut e, &[8, 0, 3, 3, 1]));
    assert_eq!(e, row);
    assert!(!swap_blocks(&mut e, &[9, 0]));
    assert!(!swap_pairs(&mut e, &[0, 8]));
    assert!(swap_pairs(&mut e, &[0, 7, 8]));
    assert_eq!(e, b"HBCDEFGA");
    assert!(!move_triples(&mut e, &[0, 1, 2]));
    assert!(!move_triples(&mut e, &[0, 1, 8, 2]));
    assert!(move_triples(&mut e, &[]));
    let mut f = row.clone();
    assert!(move_triples(&mut f, &[3, 3]));
    assert_eq!(f, row);
}

#[test]
fn a_plan_of_tracks_is_read() {
    let plan = tracks::parse("alpha\nbeta\ngamma\n\n1-3\n2-1\n\n 2\n").unwrap();
    assert_eq!(plan.tracks, [&b"alpha"[..], &b"beta"[..], &b"gamma"[..]]);
    assert_eq!(plan.swaps, [0, 2, 1, 0]);
    assert_eq!(plan.test_index, 2);
    let mut row = plan.tracks.clone();
    assert!(swap_pairs(&mut row, &plan.swaps));
    assert_eq!(row[plan.test_index - 1], b"gamma");
    assert_eq!(tracks::track_at(&row, plan.test_index), Some(&b"gamma"[..]));
    assert_eq!(tracks::track_at(&row, 0), None);
    assert_eq!(tracks::track_at(&row, 4), None);
    assert!(tracks::parse("a\n\n1-2").is_none());
    assert!(tracks::parse("a\n\n0-2\n\n1").is_none());
    assert!(tracks::parse("a\n\n1-2\n\nx").is_none());
    assert!(tracks::parse("a\n\n1-2\n\n1\n\n").is_none());
}
