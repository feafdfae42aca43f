use odis_fca::api::PyFormalContext;
use odis_fca::cxt::{string_chars, CxtError};

fn chars(s: &str) -> Vec<char> {
    s.chars().collect()
}

fn text(v: &[char]) -> String {
    v.iter().collect()
}

const SAMPLE: &str = "B\nanimals\n2\n3\n\nfrog\ndog\nswims\nwalks\nbarks\nXX.\n.XX\n";

#[test]
fn reads_a_burmeister_text() {
    let ctx = PyFormalContext::from_cxt(&chars(SAMPLE)).unwrap();
    assert_eq!(ctx.name(), "animals".to_string());
    assert_eq!(ctx.shape(), (2, 3));
    assert_eq!(ctx.objects(), vec!["frog".to_string(), "dog".to_string()]);
    assert_eq!(ctx.get_cross(&"frog".to_string(), &"swims".to_string()).unwrap(), true);
    assert_eq!(ctx.get_cross(&"frog".to_string(), &"barks".to_string()).unwrap(), false);
    assert_eq!(ctx.get_cross(&"dog".to_string(), &"barks".to_string()).unwrap(), true);
    assert_eq!(ctx.mutation_gen(), 0);
}

#[test]
fn reads_windows_line_ends_and_lower_case_crosses() {
    let t = "B\r\nanimals\r\n2\r\n3\r\n\r\nfrog\r\ndog\r\nswims\r\nwalks\r\nbarks\r\nxx.\r\n.xX\r\n";
    let ctx = PyFormalContext::from_cxt(&chars(t)).unwrap();
    assert_eq!(ctx.attributes()[2], "barks".to_string());
    assert_eq!(ctx.get_cross(&"dog".to_string(), &"walks".to_string()).unwrap(), true);
    assert_eq!(ctx.get_cross(&"dog".to_string(), &"swims".to_string()).unwrap(), false);
}

#[test]
fn writes_the_burmeister_text() {
    let ctx = PyFormalContext::from_cxt(&chars(SAMPLE)).unwrap();
    assert_eq!(text(&ctx.to_cxt()), SAMPLE.to_string());
    let empty = PyFormalContext::new_empty();
    assert_eq!(text(&empty.to_cxt()), "B\n\n0\n0\n\n".to_string());
}

#[test]
fn round_trip_of_a_built_context() {
    let entries: Vec<(String, Vec<String>)> = vec![
        ("a".to_string(), vec!["x".to_string(), "y".to_string()]),
        ("b".to_string(), vec![]),
        ("c".to_string(), vec!["y".to_string()]),
    ];
    let mut ctx = PyFormalContext::from_dict(&entries);
    ctx.set_name("abc".to_string());
    let t = ctx.to_cxt();
    assert_eq!(text(&t), "B\nabc\n3\n2\n\na\nb\nc\nx\ny\nXX\n..\n.X\n".to_string());
    let back = PyFormalContext::from_cxt(&t).unwrap();
    assert_eq!(back.objects(), ctx.objects());
    assert_eq!(back.attributes(), ctx.attributes());
    assert_eq!(back.get_cross(&"c".to_string(), &"y".to_string()).unwrap(), true);
    assert_eq!(back.to_cxt(), t);
}

#[test]
fn counts_that_are_not_numbers() {
    let t = "B\nn\ntwo\n3\n\nfrog\ndog\nswims\nwalks\nbarks\nXX.\n.XX\n";
    assert!(matches!(PyFormalContext::from_cxt(&chars(t)), Err(CxtError::ParseError)));
    let t2 = "B\nn\n2\n\n\nfrog\n";
    assert!(matches!(PyFormalContext::from_cxt(&chars(t2)), Err(CxtError::ParseError)));
    let t3 = "B\nn\n99999999999999999999999\n0\n\n";
    assert!(matches!(PyFormalContext::from_cxt(&chars(t3)), Err(CxtError::ParseError)));
}

#[test]
fn texts_with_the_wrong_layout() {
    // No header.
    assert!(matches!(PyFormalContext::from_cxt(&chars("A\nn\n0\n0\n\n")), Err(CxtError::InvalidFormat)));
    // Too few lines.
    assert!(matches!(PyFormalContext::from_cxt(&chars("B\nn\n0\n")), Err(CxtError::InvalidFormat)));
    // Missing rows.
    let t = "B\nn\n2\n1\n\nfrog\ndog\nswims\nX\n";
    assert!(matches!(PyFormalContext::from_cxt(&chars(t)), Err(CxtError::InvalidFormat)));
    // A row of the wrong width.
    let t2 = "B\nn\n1\n2\n\nfrog\nswims\nwalks\nX\n";
    assert!(matches!(PyFormalContext::from_cxt(&chars(t2)), Err(CxtError::InvalidFormat)));
    // A row with another character.
    let t3 = "B\nn\n1\n2\n\nfrog\nswims\nwalks\nX-\n";
    assert!(matches!(PyFormalContext::from_cxt(&chars(t3)), Err(CxtError::InvalidFormat)));
    // Text after the rows.
    let t4 = "B\nn\n1\n1\n\nfrog\nswims\nX\nmore\n";
    assert!(matches!(PyFormalContext::from_cxt(&chars(t4)), Err(CxtError::InvalidFormat)));
    // The fifth line must be empty.
    let t5 = "B\nn\n0\n0\nx\n";
    assert!(matches!(PyFormalContext::from_cxt(&chars(t5)), Err(CxtError::InvalidFormat)));
}

#[test]
fn string_chars_lists_the_characters() {
    assert_eq!(string_chars(&"añb".to_string()), vec!['a', 'ñ', 'b']);
    assert_eq!(string_chars(&String::new()), Vec::<char>::new());
}
