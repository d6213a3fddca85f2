use neck_sim::parse::find;
use std::io::BufRead;
use neck_sim::{parse_field, parse_line, parse_trace, Frame, LineFault, ParseError};

fn frame(body_y: u16, delta: u16, lower: u16, upper: u16, head: u16) -> Frame {
    Frame {
        body_y,
        angle_delta: delta,
        expected_lower_angle: lower,
        expected_upper_angle: upper,
        expected_brain_y: head,
    }
}

fn fault(line: usize, fault: LineFault) -> Result<Vec<Frame>, ParseError> {
    Err(ParseError { line, fault })
}

#[test]
fn fields_are_decimal_numbers_of_sixteen_bits() {
    assert_eq!(parse_field(b"0"), Some(0));
    assert_eq!(parse_field(b"196"), Some(196));
    assert_eq!(parse_field(b"00012"), Some(12));
    assert_eq!(parse_field(b"65535"), Some(65535));
    assert_eq!(parse_field(b"+7"), Some(7));
    assert_eq!(parse_field(b"+0"), Some(0));
    assert_eq!(parse_field(b"0000000000000000000065535"), Some(65535));
}

#[test]
fn fields_that_are_no_such_numbers_are_refused() {
    for text in [
        "", "+", "-", "-5", "++1", "1+", " 5", "5 ", "12a", "a12", "65536", "70000", "655350",
        "99999999999999999999999", "1.0", "0x10", "\t", "5\r", "４",
    ] {
        assert_eq!(parse_field(text.as_bytes()), None, "{:?}", text);
    }
}

#[test]
fn fields_agree_with_the_standard_parser() {
    let samples = [
        "0", "1", "9", "10", "99", "255", "256", "4095", "9999", "10000", "36864", "65534", "65535",
        "65536", "65537", "100000", "429496729", "4294967296", "+1", "+65535", "+65536", "-0",
        "-1", "", "+", "0000", "0001", "1e3", "1_000", "12 ", "٣",
    ];
    for text in samples {
        assert_eq!(parse_field(text.as_bytes()), text.parse::<u16>().ok(), "{:?}", text);
    }
    for value in (0..=70000u32).step_by(7) {
        let text = value.to_string();
        assert_eq!(parse_field(text.as_bytes()), text.parse::<u16>().ok());
    }
}

#[test]
fn find_stops_at_the_first_match_or_the_end() {
    assert_eq!(find(b"ab\tcd\te", b'\t', 0), 2);
    assert_eq!(find(b"ab\tcd\te", b'\t', 2), 2);
    assert_eq!(find(b"ab\tcd\te", b'\t', 3), 5);
    assert_eq!(find(b"ab\tcd\te", b'\t', 6), 7);
    assert_eq!(find(b"ab\tcd\te", b'\t', 7), 7);
    assert_eq!(find(b"", b'\t', 0), 0);
}

#[test]
fn line_of_five_columns_is_a_frame() {
    assert_eq!(parse_line(b"196\t1792\t36864\t38912\t64"), Ok(frame(196, 1792, 36864, 38912, 64)));
    assert_eq!(parse_line(b"0\t0\t0\t0\t0"), Ok(frame(0, 0, 0, 0, 0)));
    assert_eq!(parse_line(b"+1\t02\t3\t4\t65535"), Ok(frame(1, 2, 3, 4, 65535)));
}

#[test]
fn line_faults_are_found_from_the_left() {
    assert_eq!(parse_line(b""), Err(LineFault::NotNumber));
    assert_eq!(parse_line(b"1"), Err(LineFault::Missing));
    assert_eq!(parse_line(b"1\t2\t3\t4"), Err(LineFault::Missing));
    assert_eq!(parse_line(b"1\t2\t3\t4\t"), Err(LineFault::NotNumber));
    assert_eq!(parse_line(b"1\tx\t3"), Err(LineFault::NotNumber));
    assert_eq!(parse_line(b"1\t\t3\t4\t5"), Err(LineFault::NotNumber));
    assert_eq!(parse_line(b"1\t2\t3\t4\t5\t6"), Err(LineFault::Extra));
    assert_eq!(parse_line(b"1\t2\t3\t4\t5\t6\t7\tx"), Err(LineFault::Extra));
    assert_eq!(parse_line(b"1\t2\t3\t4\t5\t"), Err(LineFault::NotNumber));
    assert_eq!(parse_line(b"1\t2\t3\t4\t5\tx"), Err(LineFault::NotNumber));
    assert_eq!(parse_line(b"1\t2\t3\t4\t65536"), Err(LineFault::NotNumber));
    assert_eq!(parse_line(b"1 2 3 4 5"), Err(LineFault::NotNumber));
    assert_eq!(parse_line(b"1\t2\t3\t4\t5\r"), Err(LineFault::NotNumber));
}

#[test]
fn text_is_read_line_by_line() {
    let text = b"196\t1792\t36864\t38912\t64\n196\t1792\t35072\t37120\t61\n196\t1280\t33792\t35840\t60\n";
    let expected = vec![
        frame(196, 1792, 36864, 38912, 64),
        frame(196, 1792, 35072, 37120, 61),
        frame(196, 1280, 33792, 35840, 60),
    ];
    assert_eq!(parse_trace(text), Ok(expected.clone()));
    assert_eq!(parse_trace(&text[..text.len() - 1]), Ok(expected));
}

#[test]
fn empty_text_has_no_frames() {
    assert_eq!(parse_trace(b""), Ok(vec![]));
}

#[test]
fn carriage_return_before_a_line_feed_is_dropped() {
    assert_eq!(
        parse_trace(b"1\t2\t3\t4\t5\r\n6\t7\t8\t9\t10\r\n"),
        Ok(vec![frame(1, 2, 3, 4, 5), frame(6, 7, 8, 9, 10)])
    );
    assert_eq!(parse_trace(b"1\t2\t3\t4\t5\r"), fault(0, LineFault::NotNumber));
    assert_eq!(parse_trace(b"1\t2\t3\t4\t5\r\r\n"), fault(0, LineFault::NotNumber));
    assert_eq!(parse_trace(b"1\t2\t3\t4\t5\n\r\n"), fault(1, LineFault::NotNumber));
}

#[test]
fn first_bad_line_is_reported() {
    assert_eq!(parse_trace(b"\n"), fault(0, LineFault::NotNumber));
    assert_eq!(parse_trace(b"1\t2\t3\t4\t5\n\n6\t7\t8\t9\t10\n"), fault(1, LineFault::NotNumber));
    assert_eq!(parse_trace(b"1\t2\t3\t4\t5\n1\t2\t3\n1\t2\t3\t4\t5\t6\n"), fault(1, LineFault::Missing));
    assert_eq!(parse_trace(b"1\t2\t3\t4\t5\n1\t2\t3\t4\t5\n1\t2\t3\t4\t5\t6"), fault(2, LineFault::Extra));
    assert_eq!(parse_trace(b"1\t2\t3\t4\t5\n\xff\xfe"), fault(1, LineFault::NotNumber));
}

#[test]
fn text_agrees_with_reading_it_by_lines() {
    let text = b"10\t20\t30\t40\t50\r\n11\t21\t31\t41\t51\n12\t22\t32\t42\t52";
    let by_lines: Vec<Frame> = std::io::BufReader::new(&text[..])
        .lines()
        .map(|line| {
            let line = line.unwrap();
            let cols: Vec<u16> = line.split('\t').map(|col| col.parse().unwrap()).collect();
            assert_eq!(cols.len(), 5);
            frame(cols[0], cols[1], cols[2], cols[3], cols[4])
        })
        .collect();
    assert_eq!(parse_trace(text), Ok(by_lines));
}
