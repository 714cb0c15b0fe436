use cgolrs::enc::{code_of, lines_of, DecodeError, Decoder, RunEncoder};
use cgolrs::text::{chars_of, parse_i32, push_decimal, string_of};
use cgolrs::{Pos2, PositionEncoder, RunLengthEncoded};

fn cells(points: &[(i32, i32)]) -> Vec<Pos2> {
    points.iter().map(|&(x, y)| Pos2 { x, y }).collect()
}

fn chars(text: &str) -> Vec<char> {
    text.chars().collect()
}

fn decode(text: &str) -> Result<Vec<Pos2>, DecodeError> {
    RunLengthEncoded::default().decode(text)
}

fn glider() -> Vec<Pos2> {
    cells(&[(1, 0), (2, 1), (0, 2), (1, 2), (2, 2)])
}

#[test]
fn encodes_a_glider() {
    let codec = RunLengthEncoded::default();
    assert_eq!(codec.encode_cells(&glider()), "bo$2bo$3o!");
    assert_eq!(codec.encode(&glider()), "x = 0, y = 0, rule = 23/3\nbo$2bo$3o!\n");
}

#[test]
fn encodes_the_name_in_the_header() {
    let codec = RunLengthEncoded::default().set_name("glider");
    assert_eq!(codec.encode_header(), "#N glider\nx = 0, y = 0, rule = 23/3");
    assert_eq!(
        codec.encode(&glider()),
        "#N glider\nx = 0, y = 0, rule = 23/3\nbo$2bo$3o!\n"
    );
}

#[test]
fn encodes_relative_to_the_top_left_corner() {
    let codec = RunLengthEncoded::default();
    let moved = cells(&[(-9, 40), (-8, 41), (-10, 42), (-9, 42), (-8, 42)]);
    assert_eq!(codec.encode_cells(&moved), "bo$2bo$3o!");
    assert_eq!(codec.encode_cells(&[]), "!");
    assert_eq!(codec.encode_cells(&cells(&[(7, 7)])), "o!");
    assert_eq!(codec.encode_cells(&cells(&[(0, 0), (5, 0), (0, 3)])), "o4bo3$o!");
}

#[test]
fn wraps_lines_at_seventy_characters() {
    // every other cell of one row: "ob" forty times, less the last "b"
    let row: Vec<Pos2> = (0..40).map(|i| Pos2 { x: 2 * i, y: 0 }).collect();
    let text = RunLengthEncoded::default().encode_cells(&row);
    let expected = format!("{}\n{}!", "ob".repeat(35), "obobobobo");
    assert_eq!(text, expected);
    assert!(text.lines().all(|line| line.len() <= 71));
}

#[test]
fn run_encoder_writes_counts_and_breaks_lines() {
    let mut runs = RunEncoder::new(5);
    runs.push_run(0, 'o');
    runs.push_run(1, 'o');
    runs.push_run(12, 'b');
    runs.push_run(3, '$');
    runs.push_run(-4, 'b');
    runs.push_run(1234567, 'o');
    assert_eq!(runs.end(), "o12b\n3$-4b\n1234567o!");
}

#[test]
fn decodes_a_glider() {
    assert_eq!(decode("bo$2bo$3o!"), Ok(glider()));
    assert_eq!(decode("x = 3, y = 3, rule = 23/3\nbo$2bo$3o!\n"), Ok(glider()));
    assert_eq!(decode("#N glider\n#C a comment with o and b\nbo$2bo$\n3o! # the end\n"), Ok(glider()));
}

#[test]
fn decode_stops_at_the_end_mark() {
    assert_eq!(decode("o!o"), Ok(cells(&[(0, 0)])));
    assert_eq!(decode("2o$\n!\n3o"), Ok(cells(&[(0, 0), (1, 0)])));
    assert_eq!(decode(""), Ok(vec![]));
    assert_eq!(decode("!"), Ok(vec![]));
}

#[test]
fn decode_reads_counts_as_the_pattern_finds_them() {
    // a count that is no 32-bit number counts as one
    assert_eq!(decode("99999999999o"), Ok(cells(&[(0, 0)])));
    // digits that are cut off from the tag do not count
    assert_eq!(decode("3 o"), Ok(cells(&[(0, 0)])));
    assert_eq!(decode("3x2o"), Ok(cells(&[(0, 0), (1, 0)])));
    // digits of other scripts belong to the count, which is then no number
    assert_eq!(decode("\u{663}2o"), Ok(cells(&[(0, 0)])));
    assert_eq!(decode("0o3bo"), Ok(cells(&[(3, 0)])));
    // a new line starts at the first column, even after no line at all
    assert_eq!(decode("3b0$o"), Ok(cells(&[(0, 0)])));
    assert_eq!(decode("2$3bo"), Ok(cells(&[(3, 2)])));
}

#[test]
fn decode_refuses_runs_out_of_the_coordinates() {
    assert_eq!(decode("2147483647b"), Ok(vec![]));
    assert_eq!(decode("2147483647bb"), Err(DecodeError::OutOfRange));
    assert_eq!(decode("2147483647$\n$"), Err(DecodeError::OutOfRange));
    assert_eq!(decode("2147483646b2o"), Err(DecodeError::OutOfRange));
    assert_eq!(decode("2147483646bo"), Ok(cells(&[(2147483646, 0)])));
}

#[test]
fn encoded_cells_decode_to_themselves() {
    let pattern = cells(&[(0, 0), (1, 0), (5, 0), (2, 1), (0, 4), (1, 4), (2, 4), (9, 4)]);
    let text = RunLengthEncoded::default().set_name("round trip").encode(&pattern);
    assert_eq!(decode(&text), Ok(pattern));
}

#[test]
fn decoder_takes_runs_one_by_one() {
    let mut decoder = Decoder::new();
    assert_eq!(decoder.push_run(2, &['b']), Ok(()));
    assert_eq!(decoder.push_run(2, &['o']), Ok(()));
    assert_eq!(decoder.push_run(-3, &['o']), Ok(()));
    assert_eq!(decoder.push_run(1, &['$']), Ok(()));
    assert_eq!(decoder.push_run(1, &['x']), Ok(()));
    assert_eq!(decoder.push_run(1, &['o', 'o']), Ok(()));
    assert_eq!(decoder.push_run(-1, &['b']), Err(DecodeError::Backward));
    assert_eq!(decoder.push_run(-1, &['$']), Err(DecodeError::Backward));
    assert_eq!(decoder.push_run(1, &['o']), Ok(()));
    assert!(!decoder.is_done());
    assert_eq!(decoder.push_run(i32::MAX - 1, &['b']), Ok(()));
    assert_eq!(decoder.push_run(1, &['b']), Err(DecodeError::OutOfRange));
    assert_eq!(decoder.push_run(i32::MAX, &['$']), Err(DecodeError::OutOfRange));
    assert_eq!(decoder.push_run(1, &['!']), Ok(()));
    assert!(decoder.is_done());
    assert_eq!(decoder.finish(), cells(&[(2, 0), (3, 0), (0, 1)]));
}

#[test]
fn decoder_refuses_a_cell_that_does_not_come_after_the_last() {
    // back to the first column of the same row, onto the first cell
    let mut decoder = Decoder::new();
    assert_eq!(decoder.push_run(2, &['o']), Ok(()));
    assert_eq!(decoder.push_run(0, &['$']), Ok(()));
    assert_eq!(decoder.push_run(1, &['o']), Err(DecodeError::Backward));
    assert_eq!(decoder.push_run(1, &['b']), Ok(()));
    assert_eq!(decoder.push_run(1, &['o']), Err(DecodeError::Backward));
    // past the last cell the row goes on
    assert_eq!(decoder.push_run(1, &['b']), Ok(()));
    assert_eq!(decoder.push_run(1, &['o']), Ok(()));
    assert_eq!(decoder.finish(), cells(&[(0, 0), (1, 0), (2, 0)]));
}

#[test]
fn decoded_cells_are_sorted_and_unique() {
    assert_eq!(decode("o0$o"), Err(DecodeError::Backward));
    assert_eq!(decode("2o0$bo"), Err(DecodeError::Backward));
    assert_eq!(decode("3o\n0$2o"), Err(DecodeError::Backward));
    assert_eq!(decode("o0$bo"), Ok(cells(&[(0, 0), (1, 0)])));
    assert_eq!(decode("0$0$3b0$"), Ok(vec![]));
    for text in ["bo$2bo$3o!", "5o3b2o$$o", "o0$5bo$o", "3b0$o", "x = 9\n2o$2o!"] {
        let alive = decode(text).unwrap();
        assert!(alive.windows(2).all(|pair| pair[0] < pair[1]));
        assert!(alive.iter().all(|cell| cell.x >= 0 && cell.y >= 0));
    }
}

#[test]
fn decoder_takes_matches_and_lines() {
    let mut decoder = Decoder::new();
    let run = |count: &str, tag: &str| vec![Some(chars("all")), Some(chars(count)), Some(chars(tag))];
    assert_eq!(decoder.push_match(&run("3", "o")), Ok(()));
    assert_eq!(decoder.push_match(&run("", "$")), Ok(()));
    assert_eq!(decoder.push_match(&run("+2", "b")), Ok(()));
    assert_eq!(decoder.push_match(&vec![Some(chars("o")), None, Some(chars("o"))]), Ok(()));
    assert_eq!(decoder.push_match(&vec![Some(chars("o"))]), Ok(()));
    assert_eq!(decoder.push_matches(&vec![run("x", "o"), run("1", "!"), run("5", "o")]), Ok(()));
    assert_eq!(decoder.push_line(&chars("5o")), Ok(()));
    assert_eq!(decoder.finish(), cells(&[(0, 0), (1, 0), (2, 0), (2, 1)]));

    let mut lines = Decoder::new();
    assert_eq!(lines.push_line(&chars("2bo#o")), Ok(()));
    assert_eq!(lines.push_line(&chars("$2o")), Ok(()));
    assert_eq!(lines.finish(), cells(&[(2, 0), (0, 1), (1, 1)]));
}

#[test]
fn text_is_cut_into_lines_and_code() {
    assert_eq!(lines_of(&chars("")), vec![chars("")]);
    assert_eq!(lines_of(&chars("a\n\nbc\n")), vec![chars("a"), chars(""), chars("bc"), chars("")]);
    assert_eq!(code_of(&chars("ab#c#d")), chars("ab"));
    assert_eq!(code_of(&chars("#")), chars(""));
    assert_eq!(code_of(&chars("abc")), chars("abc"));
}

#[test]
fn numbers_parse_as_32_bit_decimals() {
    assert_eq!(parse_i32(&chars("0")), Some(0));
    assert_eq!(parse_i32(&chars("007")), Some(7));
    assert_eq!(parse_i32(&chars("+15")), Some(15));
    assert_eq!(parse_i32(&chars("-15")), Some(-15));
    assert_eq!(parse_i32(&chars("2147483647")), Some(i32::MAX));
    assert_eq!(parse_i32(&chars("2147483648")), None);
    assert_eq!(parse_i32(&chars("-2147483648")), Some(i32::MIN));
    assert_eq!(parse_i32(&chars("-2147483649")), None);
    assert_eq!(parse_i32(&chars("99999999999999999999999")), None);
    assert_eq!(parse_i32(&chars("")), None);
    assert_eq!(parse_i32(&chars("-")), None);
    assert_eq!(parse_i32(&chars("+")), None);
    assert_eq!(parse_i32(&chars("1 ")), None);
    assert_eq!(parse_i32(&chars("1_0")), None);
    assert_eq!(parse_i32(&chars("--1")), None);
    for text in ["12", "-7", "+3", "x", "", "2147483648", "0000"] {
        assert_eq!(parse_i32(&chars(text)), text.parse::<i32>().ok());
    }
}

#[test]
fn numbers_are_written_in_decimal() {
    for n in [0i128, 7, 10, 99, 100, 1234567890, -1, -10, i64::MIN as i128, i128::MAX, i128::MIN] {
        let mut out = chars("n=");
        push_decimal(&mut out, n);
        assert_eq!(string_of(&out), format!("n={}", n));
    }
}

#[test]
fn strings_and_characters_convert() {
    assert_eq!(chars_of("a\u{e9}\u{1f600}b"), vec!['a', '\u{e9}', '\u{1f600}', 'b']);
    assert_eq!(string_of(&['o', '\n', '\u{2588}']), "o\n\u{2588}");
    assert_eq!(string_of(&chars_of("")), "");
}
