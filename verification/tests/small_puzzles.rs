use puzzlebox::bases;
use puzzlebox::compression::{memory, rle};
use puzzlebox::cube::clamp;
use puzzlebox::islands::{dist, parse_tuple};
use puzzlebox::knapsack::{knapsack, Item};
use puzzlebox::letters;
use puzzlebox::numeric::{gcd, lcm};
use puzzlebox::pricing::price;
use puzzlebox::ranges::parse_range;
use puzzlebox::reduction::{reduce_part2, reduce_part3};
use puzzlebox::tree::Tree;

#[test]
fn the_price_is_a_cubic_in_the_quality() {
    assert_eq!(price(0), 510);
    assert_eq!(price(1), 579);
    assert_eq!(price(10), 69_510);
    assert_eq!(price(600), 69 * 216_000_000 + 510);
    assert_eq!(price(644_000), 69 * 644_000u64.pow(3) + 510);
}

#[test]
fn letters_and_digits_take_memory() {
    assert_eq!(memory(b'A'), 1);
    assert_eq!(memory(b'Z'), 26);
    assert_eq!(memory(b'0'), 0);
    assert_eq!(memory(b'9'), 9);
    assert_eq!(memory(b'a'), 0);
    assert_eq!(memory(b' '), 0);
    assert_eq!(memory(b'@'), 0);
    assert_eq!(memory(b'['), 0);
}

#[test]
fn runs_are_counted() {
    assert_eq!(rle(""), "");
    assert_eq!(rle("A"), "\u{0}1A");
    assert_eq!(rle("AAB"), "\u{0}2A1B");
    assert_eq!(rle("AAAAAAAAAAAABBA"), "\u{0}12A2B1A");
    assert_eq!(rle("\u{0}\u{0}A"), "2\u{0}1A");
    assert_eq!(rle("112"), "\u{0}2112");
    assert_eq!(rle("éé"), "\u{0}1\u{c3}1\u{a9}1\u{c3}1\u{a9}");
}

#[test]
fn distances_run_along_the_axes() {
    assert_eq!(dist((0, 0), (3, -4)), 7);
    assert_eq!(dist((-5, 7), (-5, 7)), 0);
    assert_eq!(dist((i64::MIN, 0), (i64::MAX, 0)), u64::MAX);
    assert_eq!(dist((1, i64::MAX), (1, i64::MIN)), u64::MAX);
}

#[test]
fn points_are_read() {
    assert_eq!(parse_tuple("(3, -4)"), Some((3, -4)));
    assert_eq!(parse_tuple("[+3, 0]"), Some((3, 0)));
    assert_eq!(parse_tuple("(-9223372036854775808, 9223372036854775807)"), Some((i64::MIN, i64::MAX)));
    assert_eq!(parse_tuple("(3,-4)"), None);
    assert_eq!(parse_tuple("(3, -4, 5)"), None);
    assert_eq!(parse_tuple("(9223372036854775808, 0)"), None);
    assert_eq!(parse_tuple("("), None);
    assert_eq!(parse_tuple(""), None);
    assert_eq!(parse_tuple("(, )"), None);
}

#[test]
fn ranges_are_read() {
    assert_eq!(parse_range("3-17"), Some((3, 17)));
    assert_eq!(parse_range("17-3"), Some((17, 3)));
    assert_eq!(parse_range("0-0"), Some((0, 0)));
    assert_eq!(parse_range("3"), None);
    assert_eq!(parse_range("3-"), None);
    assert_eq!(parse_range("-3"), None);
    assert_eq!(parse_range("3-4-5"), None);
    assert_eq!(parse_range("a-4"), None);
    assert_eq!(parse_range("99999999999999999999999-4"), None);
}

#[test]
fn letters_have_a_worth() {
    assert_eq!(letters::value(b'a'), 1);
    assert_eq!(letters::value(b'z'), 26);
    assert_eq!(letters::value(b'A'), 27);
    assert_eq!(letters::value(b'Z'), 52);
    assert_eq!(letters::value(b'0'), 0);
    assert_eq!(letters::value(b'{'), 0);
}

#[test]
fn pairs_cancel_from_the_left() {
    assert_eq!(reduce_part2(""), 0);
    assert_eq!(reduce_part2("a1"), 0);
    assert_eq!(reduce_part2("tRaCE7-5"), 6);
    assert_eq!(reduce_part3("tRaCE7-5"), 8);
    assert_eq!(reduce_part2("a-1"), 1);
    assert_eq!(reduce_part3("a-1"), 3);
    assert_eq!(reduce_part2("ab12"), 0);
    assert_eq!(reduce_part2("12ab3"), 1);
    assert_eq!(reduce_part3("a1b2c3d"), 1);
    assert_eq!(reduce_part2("A1"), 2);
}

#[test]
fn symbols_stand_for_digits() {
    assert_eq!(bases::value(b'0'), 0);
    assert_eq!(bases::value(b'9'), 9);
    assert_eq!(bases::value(b'A'), 10);
    assert_eq!(bases::value(b'Z'), 35);
    assert_eq!(bases::value(b'a'), 36);
    assert_eq!(bases::value(b'z'), 61);
    for d in 0..62u8 {
        assert_eq!(bases::value(bases::char(d)), d as u64);
    }
    assert_eq!(bases::char(62), b'!');
    assert_eq!(bases::char(63), b'@');
    assert_eq!(bases::char(64), b'#');
    assert_eq!(bases::char(65), b'$');
    assert_eq!(bases::char(66), b'%');
    assert_eq!(bases::char(67), b'^');
}

#[test]
fn numbers_are_read_in_their_base() {
    assert_eq!(bases::parse_line("101 2"), Some(5));
    assert_eq!(bases::parse_line("zz 62"), Some(61 * 62 + 61));
    assert_eq!(bases::parse_line("FF 16"), Some(255));
    assert_eq!(bases::parse_line(" 16"), Some(0));
    assert_eq!(bases::parse_line("19 0"), Some(9));
    assert_eq!(bases::parse_line("FF"), None);
    assert_eq!(bases::parse_line("F! 16"), None);
    assert_eq!(bases::parse_line("FF 16 "), None);
    assert_eq!(bases::parse_line("FF -16"), None);
    assert_eq!(bases::parse_line("18446744073709551615 10"), Some(u64::MAX));
    assert_eq!(bases::parse_line("18446744073709551616 10"), None);
    assert_eq!(bases::parse_line("10000000000000000 16"), None);
}

#[test]
fn numbers_are_written_in_base_68() {
    assert_eq!(bases::unparse(0), "");
    assert_eq!(bases::unparse(9), "9");
    assert_eq!(bases::unparse(67), "^");
    assert_eq!(bases::unparse(68), "10");
    assert_eq!(bases::unparse(68 * 68 * 62 + 68 * 36 + 10), "!aA");
    assert_eq!(bases::unparse(u64::MAX), "8nQUvJizExp");
}

#[test]
fn values_wrap_round_at_a_hundred() {
    assert_eq!(clamp(1), 1);
    assert_eq!(clamp(100), 100);
    assert_eq!(clamp(101), 1);
    assert_eq!(clamp(200), 100);
    assert_eq!(clamp(255), 55);
}

#[test]
fn a_leaf_has_no_children() {
    let leaf = Tree::new_leaf("ozNxANO", 576_690, Some(3));
    assert_eq!(leaf.code, "ozNxANO");
    assert_eq!(leaf.id, 576_690);
    assert_eq!(leaf.left, None);
    assert_eq!(leaf.right, None);
    assert_eq!(leaf.parent, Some(3));
}

#[test]
fn the_best_choice_is_bought() {
    let item = |quality, cost, unique_materials| Item { quality, cost, unique_materials };
    assert_eq!(knapsack(&[], 10), 0);
    assert_eq!(knapsack(&[item(5, 3, 2)], 0), 0);
    assert_eq!(knapsack(&[item(5, 3, 2)], 2), 0);
    assert_eq!(knapsack(&[item(5, 3, 2)], 3), 10);
    let items = [item(5, 3, 2), item(4, 2, 7), item(4, 2, 1), item(9, 5, 30), item(1, 0, 100)];
    assert_eq!(knapsack(&items, 5), 10 * 103);
    assert_eq!(knapsack(&items, 4), 9 * 108);
    assert_eq!(knapsack(&items, 2), 5 * 101);
    assert_eq!(knapsack(&items, 12), 23 * 140);
    assert_eq!(knapsack(&[item(4, 2, 7), item(4, 2, 1)], 2), 4);
    assert_eq!(knapsack(&[item(4, 2, 1), item(4, 2, 7)], 2), 4);
}

#[test]
fn common_divisors_and_multiples() {
    assert_eq!(gcd(12, 18), 6);
    assert_eq!(gcd(18, 12), 6);
    assert_eq!(gcd(7, 0), 7);
    assert_eq!(gcd(17, 5), 1);
    assert_eq!(lcm(4, 6), 12);
    assert_eq!(lcm(1, 1), 1);
    assert_eq!(lcm(7, 13), 91);
    assert_eq!(lcm(0x1_0000_0000, 0xffff_ffff), 0xffff_ffff_0000_0000);
}
