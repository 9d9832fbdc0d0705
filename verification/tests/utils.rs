use sudoku_rs::utils::{parse_entry, render_flat, render_line, render_puzzle, EntryError};
use sudoku_rs::Data;

#[test]
fn entry_is_index_comma_value() {
    assert_eq!(parse_entry(b"3,7"), Ok((3, 7)));
    assert_eq!(parse_entry(b"80,9"), Ok((80, 9)));
    assert_eq!(parse_entry(b"0,0"), Ok((0, 0)));
    assert_eq!(parse_entry(b"007,09"), Ok((7, 9)));
    assert_eq!(parse_entry(b"+12,+3"), Ok((12, 3)));
    assert_eq!(parse_entry(b"1234,255"), Ok((1234, 255)));
}

#[test]
fn entry_ignores_what_follows_the_value() {
    assert_eq!(parse_entry(b"3,7,"), Ok((3, 7)));
    assert_eq!(parse_entry(b"3,7,anything, at all"), Ok((3, 7)));
}

#[test]
fn entry_without_a_number_in_front_is_a_bad_index() {
    assert_eq!(parse_entry(b""), Err(EntryError::BadIndex));
    assert_eq!(parse_entry(b","), Err(EntryError::BadIndex));
    assert_eq!(parse_entry(b",5"), Err(EntryError::BadIndex));
    assert_eq!(parse_entry(b"abc"), Err(EntryError::BadIndex));
    assert_eq!(parse_entry(b"x,5"), Err(EntryError::BadIndex));
    assert_eq!(parse_entry(b" 3,5"), Err(EntryError::BadIndex));
    assert_eq!(parse_entry(b"3 ,5"), Err(EntryError::BadIndex));
    assert_eq!(parse_entry(b"-3,5"), Err(EntryError::BadIndex));
    assert_eq!(parse_entry(b"+,5"), Err(EntryError::BadIndex));
    assert_eq!(parse_entry(b"++3,5"), Err(EntryError::BadIndex));
    assert_eq!(parse_entry(b"3.0,5"), Err(EntryError::BadIndex));
    assert_eq!(
        parse_entry(b"99999999999999999999999999999999999999999,5"),
        Err(EntryError::BadIndex)
    );
}

#[test]
fn entry_index_may_be_as_large_as_the_machine_allows() {
    let max = usize::MAX.to_string();
    let line = format!("{},1", max);
    assert_eq!(parse_entry(line.as_bytes()), Ok((usize::MAX, 1)));
    // one more digit is too much
    let line = format!("{}0,1", max);
    assert_eq!(parse_entry(line.as_bytes()), Err(EntryError::BadIndex));
}

#[test]
fn entry_without_a_comma_has_no_value() {
    assert_eq!(parse_entry(b"3"), Err(EntryError::MissingValue));
    assert_eq!(parse_entry(b"+3"), Err(EntryError::MissingValue));
    assert_eq!(parse_entry(b"37"), Err(EntryError::MissingValue));
}

#[test]
fn entry_with_no_number_behind_the_comma_is_a_bad_value() {
    assert_eq!(parse_entry(b"3,"), Err(EntryError::BadValue));
    assert_eq!(parse_entry(b"3,,7"), Err(EntryError::BadValue));
    assert_eq!(parse_entry(b"3,x"), Err(EntryError::BadValue));
    assert_eq!(parse_entry(b"3, 7"), Err(EntryError::BadValue));
    assert_eq!(parse_entry(b"3,7 "), Err(EntryError::BadValue));
    assert_eq!(parse_entry(b"3,7\r"), Err(EntryError::BadValue));
    assert_eq!(parse_entry(b"3,-7"), Err(EntryError::BadValue));
    assert_eq!(parse_entry(b"3,256"), Err(EntryError::BadValue));
    assert_eq!(parse_entry(b"3,1000"), Err(EntryError::BadValue));
}

#[test]
fn entry_agrees_with_the_standard_number_reader() {
    for text in ["", "0", "5", "+5", "-5", "05", "255", "256", "2 5", "25a", "+", "999"] {
        let line = format!("1,{}", text);
        match text.parse::<u8>() {
            Ok(v) => assert_eq!(parse_entry(line.as_bytes()), Ok((1, v))),
            Err(_) => assert_eq!(parse_entry(line.as_bytes()), Err(EntryError::BadValue)),
        }
    }
}

#[test]
fn line_is_written_in_groups_of_three() {
    let cells = [Some(1), None, Some(3), None, None, Some(6), Some(7), Some(8), None];
    let line = render_line(&cells, b" | ");
    assert_eq!(line, b"  1       3 |         6 | 7   8     ".to_vec());
    assert_eq!(
        String::from_utf8(render_line(&[None; 9], b" | ")).unwrap(),
        "            |           |           "
    );
    assert_eq!(render_line(&[None; 9], b" | ").len(), 2 + 9 + 6 * 3 + 2 * 3 + 1);
}

#[test]
fn line_takes_any_separator_and_any_length() {
    assert_eq!(render_line(&[], b"#"), b"   ".to_vec());
    assert_eq!(render_line(&[Some(4)], b"#"), b"  4 ".to_vec());
    assert_eq!(render_line(&[Some(4), Some(5), Some(6), Some(7)], b"#"), b"  4   5   6#7 ".to_vec());
    assert_eq!(render_line(&[None, None, None, None], b""), b"             ".to_vec());
}

#[test]
fn values_are_written_in_base_ten() {
    assert_eq!(render_line(&[Some(0), Some(9), Some(10)], b"#"), b"  0   9   10 ".to_vec());
    assert_eq!(render_line(&[Some(99), Some(100), Some(255)], b"#"), b"  99   100   255 ".to_vec());
    assert_eq!(render_line(&[Some(101), Some(110), Some(200)], b"#"), b"  101   110   200 ".to_vec());
}

#[test]
fn puzzle_is_written_in_eleven_lines() {
    let mut data: Data = [None; 81];
    for (i, cell) in data.iter_mut().enumerate() {
        *cell = Some((i / 9 + 1) as u8);
    }
    let lines = render_puzzle(&data, b" | ", b"-----");
    assert_eq!(lines.len(), 11);
    let text: Vec<String> = lines.into_iter().map(|l| String::from_utf8(l).unwrap()).collect();
    assert_eq!(
        text,
        vec![
            "  1   1   1 | 1   1   1 | 1   1   1 ",
            "  2   2   2 | 2   2   2 | 2   2   2 ",
            "  3   3   3 | 3   3   3 | 3   3   3 ",
            "-----",
            "  4   4   4 | 4   4   4 | 4   4   4 ",
            "  5   5   5 | 5   5   5 | 5   5   5 ",
            "  6   6   6 | 6   6   6 | 6   6   6 ",
            "-----",
            "  7   7   7 | 7   7   7 | 7   7   7 ",
            "  8   8   8 | 8   8   8 | 8   8   8 ",
            "  9   9   9 | 9   9   9 | 9   9   9 ",
        ]
    );
}

#[test]
fn flat_text_breaks_behind_the_first_cell_of_a_row() {
    let mut data: Data = [None; 81];
    data[0] = Some(1);
    data[9] = Some(2);
    data[10] = Some(3);
    let text = String::from_utf8(render_flat(&data)).unwrap();
    assert_eq!(text.len(), 81 * 3 + 8);
    assert!(text.starts_with(" 1       "));
    assert_eq!(&text[27..34], " 2 \n 3 ");
    assert_eq!(text.matches('\n').count(), 8);
}
