use kon_rs::input::{parse_bands, parse_schedule};

fn lines(items: &[&str]) -> Vec<String> {
    items.iter().map(|s| s.to_string()).collect()
}

#[test]
fn simple_parse_bands() {
    let expected: Vec<(String, Vec<String>)> = vec![
        (
            "a".to_string(),
            vec!["a".to_string(), "b".to_string(), "c".to_string()],
        ),
        ("b".to_string(), vec!["b".to_string()]),
        ("c".to_string(), vec!["c".to_string()]),
        ("d".to_string(), vec!["d".to_string()]),
    ];

    let actual = parse_bands(&lines(&["a/a/b/c", "b/b", "c/c", "d/d"]));
    assert_eq!(expected, actual);
}

#[test]
fn simple_parse_schedule() {
    let expected: Vec<(String, Vec<bool>)> = vec![
        ("a".to_string(), vec![true, false, true]),
        ("b".to_string(), vec![true, false, false]),
        ("c".to_string(), vec![true, true, true]),
        ("d".to_string(), vec![true, false, true]),
    ];

    let actual = parse_schedule(&lines(&[
        "a/true/false/true",
        "b/true/false/false",
        "c/true/true/true",
        "d/true/false/true",
    ]));
    assert_eq!(expected, actual);
}
