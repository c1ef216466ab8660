use puzzles::cycles;
use puzzles::dial;
use puzzles::largest;
use puzzles::parsing;
use puzzles::ranges;
use puzzles::rolls;

#[test]
fn parse_u64_basic() {
    assert_eq!(parsing::parse_u64(b"0"), Some(0));
    assert_eq!(parsing::parse_u64(b"1234"), Some(1234));
    assert_eq!(parsing::parse_u64(b"18446744073709551615"), Some(u64::MAX));
    assert_eq!(parsing::parse_u64(b"18446744073709551616"), None);
    assert_eq!(parsing::parse_u64(b""), None);
    assert_eq!(parsing::parse_u64(b"12x"), None);
}

#[test]
fn parse_i64_basic() {
    assert_eq!(parsing::parse_i64(b"-42"), Some(-42));
    assert_eq!(parsing::parse_i64(b"9223372036854775807"), Some(i64::MAX));
    assert_eq!(parsing::parse_i64(b"-9223372036854775808"), Some(i64::MIN));
    assert_eq!(parsing::parse_i64(b"9223372036854775808"), None);
    assert_eq!(parsing::parse_i64(b"-"), None);
}

#[test]
fn split_bytes_keeps_empty_pieces() {
    let r = parsing::split_bytes(b"a,b,,c", b',' as u8);
    let views: Vec<&[u8]> = r.iter().map(|v| v.as_slice()).collect();
    assert_eq!(views, vec![b"a" as &[u8], b"b", b"", b"c"]);
    let r2 = parsing::split_bytes(b"", b',' as u8);
    assert_eq!(r2.len(), 1);
    assert!(r2[0].is_empty());
}

#[test]
fn trim_bytes_basic() {
    assert_eq!(parsing::trim_bytes(b"  ab \n"), b"ab");
    assert_eq!(parsing::trim_bytes(b"ab"), b"ab");
    assert_eq!(parsing::trim_bytes(b" \t "), b"");
}

#[test]
fn dial_step_wraps() {
    assert_eq!(dial::step(50, b'R', 50), 0);
    assert_eq!(dial::step(0, b'L', 1), 99);
    assert_eq!(dial::step(50, b'L', 250), 0);
    assert_eq!(dial::step(10, b'R', 195), 5);
}

#[test]
fn dial_parse_line() {
    assert_eq!(dial::parse_line(b"L123"), Some((b'L', 123)));
    assert_eq!(dial::parse_line(b"R7"), Some((b'R', 7)));
    assert_eq!(dial::parse_line(b"X7"), None);
    assert_eq!(dial::parse_line(b"L"), None);
    assert_eq!(dial::parse_line(b"L-3"), None);
}

#[test]
fn dial_part1_counts_rests_on_zero() {
    assert_eq!(dial::solve_part1(b"L50"), Some(1));
    assert_eq!(dial::solve_part1(b"L50\nR100\nL10"), Some(2));
    assert_eq!(dial::solve_part1(b"R49"), Some(0));
    assert_eq!(dial::solve_part1(b"bad"), None);
}

#[test]
fn dial_part2_counts_clicks_on_zero() {
    assert_eq!(dial::solve_part2(b"R150"), Some(2));
    assert_eq!(dial::solve_part2(b"L51"), Some(1));
    assert_eq!(dial::solve_part2(b"R100\nR100"), Some(2));
}

#[test]
fn cycles_repeated_halves() {
    assert!(cycles::has_repeated_halves(b"1212"));
    assert!(cycles::has_repeated_halves(b"11"));
    assert!(!cycles::has_repeated_halves(b"121"));
    assert!(!cycles::has_repeated_halves(b"0101"));
    assert!(!cycles::has_repeated_halves(b"1213"));
}

#[test]
fn cycles_repeated_chunks() {
    assert!(cycles::has_repeated_chunks(b"121212"));
    assert!(cycles::has_repeated_chunks(b"111"));
    assert!(!cycles::has_repeated_chunks(b"1234"));
    assert!(!cycles::has_repeated_chunks(b"12123"));
}

#[test]
fn cycles_solve_parts() {
    // in 11..=22 only 11 and 22 are two identical halves
    assert_eq!(cycles::solve_part1(b"11-22"), Some(33));
    // 110..=120: no even-length candidates, but 111 tiles by one digit
    assert_eq!(cycles::solve_part1(b"110-120"), Some(0));
    assert_eq!(cycles::solve_part2(b"110-120"), Some(111));
    // two ranges, comma separated, with surrounding whitespace
    assert_eq!(cycles::solve_part1(b"11-22, 33-44"), Some(110));
    assert_eq!(cycles::solve_part1(b"11x22"), None);
}

#[test]
fn largest_greedy_selection() {
    assert_eq!(largest::find_largest_k_digit_number(b"39878", 2), 98);
    assert_eq!(largest::find_largest_k_digit_number(b"12345", 2), 45);
    assert_eq!(largest::find_largest_k_digit_number(b"98765", 3), 987);
    assert_eq!(largest::find_largest_k_digit_number(b"111", 3), 111);
}

#[test]
fn largest_solve_parts() {
    assert_eq!(largest::solve_part1(b"12\n34"), Some(46));
    assert_eq!(largest::solve_part1(b"39878"), Some(98));
    assert_eq!(largest::solve_part2(b"123456789876"), Some(123456789876));
    assert_eq!(largest::solve_part1(b"1"), None);
    assert_eq!(largest::solve_part1(b"1a"), None);
}

#[test]
fn ranges_parse_sorted() {
    let v = ranges::parse_ranges(b"5-10\n1-3").unwrap();
    assert_eq!(v, vec![(1, 3), (5, 10)]);
    assert_eq!(ranges::parse_ranges(b"5x10"), None);
}

#[test]
fn ranges_ingredient_lookup() {
    let v = ranges::parse_ranges(b"1-3\n5-10").unwrap();
    assert!(ranges::ingredient_in_range(2, &v));
    assert!(ranges::ingredient_in_range(5, &v));
    assert!(ranges::ingredient_in_range(10, &v));
    assert!(!ranges::ingredient_in_range(4, &v));
    assert!(!ranges::ingredient_in_range(11, &v));
}

#[test]
fn ranges_solve_part1_counts() {
    assert_eq!(ranges::solve_part1(b"3-5\n10-14\n\n1\n4\n12\n20"), Some(2));
    assert_eq!(ranges::solve_part1(b"3-5\n\n-1\n4"), Some(1));
    assert_eq!(ranges::solve_part1(b"3-x\n\n1"), None);
}

#[test]
fn ranges_solve_part2_coverage() {
    // 3-5 and 4-8 overlap: the union 3..=8 covers six values
    assert_eq!(ranges::solve_part2(b"3-5\n4-8\n\n1"), Some(6));
    // disjoint ranges add up
    assert_eq!(ranges::solve_part2(b"1-2\n10-11"), Some(4));
    // a contained range adds nothing
    assert_eq!(ranges::solve_part2(b"1-10\n3-4"), Some(10));
}

#[test]
fn rolls_adjacency() {
    let grid = rolls::load_grid(b"@@\n@@");
    assert_eq!(rolls::get_adjacent_rolls(&grid, 0, 0), 3);
    let grid2 = rolls::load_grid(b"@@@\n@@@\n@@@");
    assert_eq!(rolls::get_adjacent_rolls(&grid2, 1, 1), 8);
    assert_eq!(rolls::get_adjacent_rolls(&grid2, 0, 1), 5);
}

#[test]
fn rolls_solve_part1() {
    // in a full 3x3 block only the four corners have fewer than four
    // roll neighbours
    assert_eq!(rolls::solve_part1(b"@@@\n@@@\n@@@"), Some(4));
    assert_eq!(rolls::solve_part1(b"@@\n@@"), Some(4));
    assert_eq!(rolls::solve_part1(b"..\n.."), Some(0));
}

#[test]
fn rolls_solve_part2_cascades() {
    // corners first, then the sides, then the centre
    assert_eq!(rolls::solve_part2(b"@@@\n@@@\n@@@"), Some(9));
    assert_eq!(rolls::solve_part2(b"@@\n@@"), Some(4));
    assert_eq!(rolls::solve_part2(b"...\n..."), Some(0));
}

use puzzles::beams;
use puzzles::columns;

#[test]
fn columns_solve_part1() {
    // columns [1,3] summed and [2,4] multiplied
    assert_eq!(columns::solve_part1(b"1 2\n3 4\n+ *"), Some(12));
    assert_eq!(columns::solve_part1(b"11\n22\n* "), Some(242));
    assert_eq!(columns::solve_part1(b"1 x\n+ +"), None);
    assert_eq!(columns::solve_part1(b"1"), None);
}

#[test]
fn columns_solve_part2() {
    // right to left: "34" closes a product batch, then "12" a sum batch
    assert_eq!(columns::solve_part2(b"13\n24\n+*"), Some(46));
    // a blank column separates the problems
    assert_eq!(columns::solve_part2(b"1 3\n2 4\n+ *"), Some(46));
    // both vertical numbers feed the one product
    assert_eq!(columns::solve_part2(b"11\n22\n* "), Some(144));
    assert_eq!(columns::solve_part2(b""), Some(0));
}

#[test]
fn beams_find_char() {
    assert_eq!(beams::find_char_in_row(b".S.", b'S'), Some(1));
    assert_eq!(beams::find_char_in_row(b"...", b'S'), None);
}

#[test]
fn beams_split_and_count() {
    assert_eq!(beams::solve_part1(b".S.\n.^.\n..."), Some(1));
    assert_eq!(beams::solve_part2(b".S.\n.^.\n..."), Some(2));
    // no splitters: one beam falls straight through
    assert_eq!(beams::solve_part1(b".S.\n...\n..."), Some(0));
    assert_eq!(beams::solve_part2(b".S.\n...\n..."), Some(1));
}

#[test]
fn beams_malformed() {
    // a splitter on the border would drop a beam off the grid
    assert_eq!(beams::solve_part1(b".S\n^."), None);
    // no start marker
    assert_eq!(beams::solve_part1(b"...\n..."), None);
}
