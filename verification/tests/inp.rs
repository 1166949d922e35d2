use crushrs::input::inp::{read_inp, try_read_inp, InpError};
use crushrs::text::{chars_of, parse_integer, pieces, push_decimal, push_decimal4, same_text, string_of, trimmed, words_of};

const FILE: &str = "** a comment
*HEADING
Model
*Node
 1, 0, 0, 0
 2, 1.0, 0, 0
 3, 1, 1, 0
 4, 0, 1, 0
 10, 0, 0, 1
 20, 1, 0, 1
 30, 1, 1, 1
 40, 0, 1, 1e0
*ELEMENT, type=c3d8, ELSET=neon
 100, 1, 2, 3, 4, 10, 20, 30, 40
*element, type=CPS4, elset=neon_front
 7, 1, 2, 3, 4
 8, 10, 20, 30, 40
*NSET, NSET=tip
 40, 1,
 99, x
";

#[test]
fn reads_a_mesh() {
    let m = read_inp(FILE).unwrap();
    assert_eq!(m.nodes.len(), 8);
    assert_eq!(m.nodes[1], ["1.0", "0", "0"].map(|s| s.to_string()));
    assert_eq!(m.nodes[7][2], "1e0");
    assert_eq!(m.hexes, vec![[0, 1, 2, 3, 4, 5, 6, 7]]);
    assert_eq!(m.hex_part, vec![0]);
    assert_eq!(m.parts[0].name, "neon");
    assert_eq!(m.faces, vec![[0, 1, 2, 3], [4, 5, 6, 7]]);
    assert_eq!(m.face_set("neon_front"), Some(&vec![0, 1]));
    assert_eq!(m.node_sets.get("tip"), Some(&vec![7, 0]));
    // Every part is a node set too.
    assert_eq!(m.node_sets.get("neon"), Some(&(0..8).collect()));
}

#[test]
fn a_given_set_of_a_part_is_kept() {
    let m = read_inp(&format!("{}*NSET, nset = neon\n2\n", FILE)).unwrap();
    assert_eq!(m.node_sets.get("neon"), Some(&vec![1]));
}

#[test]
fn comments_and_blank_lines_change_nothing() {
    let spaced = FILE.replace('\n', "\n\n  ** note *NODE\n");
    let (a, b) = (read_inp(FILE).unwrap(), read_inp(&spaced).unwrap());
    assert_eq!((a.nodes, a.hexes, a.faces), (b.nodes, b.hexes, b.faces));
}

#[test]
fn lines_that_are_refused() {
    let e = read_inp("*NODE\nx1, 0, 0, 0\n").unwrap_err();
    assert_eq!(e.message(), "bad node line: x1, 0, 0, 0");
    assert!(matches!(e, InpError::BadNode(_)));
    let e = read_inp("*NODE\n1, 0, 0, 0\n*ELEMENT, TYPE=C3D8\n 5, 1, 2\n").unwrap_err();
    assert_eq!(e.message(), "unknown node in element line: 5, 1, 2");
    // A node line of fewer than four fields is passed over.
    assert!(read_inp("*NODE\nx1, 0, 0\n").unwrap().nodes.is_empty());
    // A node number that comes again is the later one.
    let m = read_inp("*NODE\n1,0,0,0\n1,5,5,5\n*NSET,NSET=s\n1\n").unwrap();
    assert_eq!(m.node_sets.get("s"), Some(&vec![1]));
}

#[test]
fn elements_of_other_kinds_are_passed_over() {
    let m = read_inp("*NODE\n1,0,0,0\n2,0,0,0\n*ELEMENT, TYPE=T3D2, ELSET=bars\n1, 1, 2\n*ELEMENT, TYPE=C3D8, ELSET=bars\n2, 1, 2\n").unwrap();
    assert!(m.hexes.is_empty() && m.faces.is_empty() && m.parts.is_empty());
}

#[test]
fn an_element_line_without_fields_is_not_read() {
    assert!(try_read_inp("*ELEMENT, TYPE=C3D8\n , ,\n").is_none());
    assert!(try_read_inp(FILE).unwrap().is_ok());
    assert!(try_read_inp("*NODE\nq,1,2,3").unwrap().is_err());
}

#[test]
fn decimal_numbers_read_back() {
    for n in [0, 7, 10, 99, 100, 12345, usize::MAX >> 1] {
        let mut s = String::new();
        push_decimal(&mut s, n);
        assert_eq!(s, n.to_string());
        assert_eq!(parse_integer(&chars_of(&s)), Some(n as i64));
    }
    let four = |n| {
        let mut s = String::new();
        push_decimal4(&mut s, n);
        s
    };
    assert_eq!([0, 7, 42, 999, 1234, 56789].map(four), ["0000", "0007", "0042", "0999", "1234", "56789"].map(|s| s.to_string()));
}

#[test]
fn integers_as_they_are_written() {
    let p = |s: &str| parse_integer(&chars_of(s));
    for s in ["0", "-0", "+5", "-17", "007", "9223372036854775807", "-9223372036854775808", "9223372036854775808", "-9223372036854775809", "", "-", "+", "1 ", "1x", "99999999999999999999999", "--1"] {
        assert_eq!(p(s), s.parse::<i64>().ok(), "{}", s);
    }
}

#[test]
fn pieces_and_words() {
    let text = |v: Vec<Vec<char>>| v.iter().map(string_of).collect::<Vec<_>>();
    for s in ["", ",", "a,b", ",a,,b,", "abc"] {
        assert_eq!(text(pieces(&chars_of(s), ',')), s.split(',').collect::<Vec<_>>());
    }
    for s in ["", " a ", "\u{3000}x\u{a0}", "\t\n", "a b"] {
        assert_eq!(string_of(&trimmed(&chars_of(s))), s.trim());
    }
    assert_eq!(text(words_of(&chars_of(" a\tb,,c  d,"))), vec!["a", "b", "c", "d"]);
    assert!(same_text("ab", "ab") && !same_text("ab", "abc") && !same_text("ab", "aB"));
}
