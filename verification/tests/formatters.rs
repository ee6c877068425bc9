use plc_relay::formatters::{hex_formatter, utf8_formatter};

#[test]
fn utf8_lines_split_on_newlines_and_width() {
    let out = utf8_formatter(&b"hello\nworld".to_vec(), 3);
    assert_eq!(out, vec!["hel", "lo", "wor", "ld"]);
}

#[test]
fn utf8_empty_message_has_no_lines() {
    assert!(utf8_formatter(&vec![], 10).is_empty());
}

#[test]
fn utf8_trailing_newline_adds_nothing() {
    assert_eq!(utf8_formatter(&b"a\n".to_vec(), 10), vec!["a"]);
}

#[test]
fn utf8_empty_lines_vanish() {
    assert_eq!(utf8_formatter(&b"a\n\nb".to_vec(), 10), vec!["a", "b"]);
}

#[test]
fn utf8_invalid_bytes_become_replacement_characters() {
    assert_eq!(utf8_formatter(&vec![0x41, 0xff, 0x42], 10), vec!["A\u{fffd}B"]);
}

#[test]
fn utf8_multibyte_character_cut_by_width() {
    // "é" is two bytes; a width of one cuts it in half.
    assert_eq!(utf8_formatter(&"é".as_bytes().to_vec(), 1), vec!["\u{fffd}", "\u{fffd}"]);
}

#[test]
fn hex_lines_chunk_by_a_third_of_the_width() {
    // width 9: 9 / 3 - 1 = 2 bytes per line
    let out = hex_formatter(&vec![0x0a, 0xff, 0x01], 9);
    assert_eq!(out, vec!["0a ff", "01"]);
}

#[test]
fn hex_line_length_is_three_per_byte_less_one() {
    let out = hex_formatter(&vec![1, 2, 3, 4, 5, 6, 7], 30);
    assert_eq!(out, vec!["01 02 03 04 05 06 07"]);
    assert_eq!(out[0].len(), 3 * 7 - 1);
}

#[test]
fn hex_smallest_width() {
    assert_eq!(hex_formatter(&vec![0xab, 0xcd], 6), vec!["ab", "cd"]);
}

#[test]
fn hex_empty_message() {
    assert!(hex_formatter(&vec![], 80).is_empty());
}

#[test]
fn split_bytes_keeps_empty_pieces() {
    let pieces = plc_relay::formatters::split_bytes(&b"a,,b,".to_vec(), b',');
    assert_eq!(pieces, vec![b"a".to_vec(), vec![], b"b".to_vec(), vec![]]);
    assert_eq!(plc_relay::formatters::split_bytes(&vec![], b','), vec![Vec::<u8>::new()]);
}

#[test]
fn chunk_cuts_into_equal_pieces_with_a_short_tail() {
    let pieces = plc_relay::formatters::chunk(&vec![1, 2, 3, 4, 5], 2);
    assert_eq!(pieces, vec![vec![1, 2], vec![3, 4], vec![5]]);
    assert!(plc_relay::formatters::chunk(&vec![], 3).is_empty());
}

#[test]
fn utf8_ascii_lines_rejoin_without_newlines() {
    let bytes = b"hello\nworld, again\n\nend".to_vec();
    let lines = utf8_formatter(&bytes, 4);
    assert_eq!(lines, vec!["hell", "o", "worl", "d, a", "gain", "end"]);
    assert_eq!(lines.concat(), "helloworld, againend");
}

#[test]
fn hex_lines_read_back_to_the_message() {
    let bytes: Vec<u8> = (0u8..=40).collect();
    let lines = hex_formatter(&bytes, 20);
    assert_eq!(lines.len(), (bytes.len() + 4) / 5);
    let mut back = vec![];
    for line in &lines {
        for pair in line.split(' ') {
            back.push(u8::from_str_radix(pair, 16).unwrap());
        }
    }
    assert_eq!(back, bytes);
}
