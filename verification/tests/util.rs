use resp_kv::resp::util::{BulkStringTokenCounter, TokenCounter};

#[test]
fn count() {
    let tokens = vec![
        "$4", "home", ":0", "+Hello", "$3", "foo", "$0", "", "$4", "$$$$",
    ];
    let result =
        BulkStringTokenCounter::count(tokens.into_iter().map(|t| t.to_string()).collect());

    assert_eq!(result, 4)
}

#[test]
fn count_edges() {
    assert_eq!(BulkStringTokenCounter::count(Vec::new()), 0);
    assert_eq!(BulkStringTokenCounter::count(vec!["$1".to_string()]), 1);
    assert_eq!(
        BulkStringTokenCounter::count(vec!["+a".to_string(), ":1".to_string()]),
        0
    );
    assert_eq!(
        BulkStringTokenCounter::count(vec![
            "$2".to_string(),
            "$3".to_string(),
            "$4".to_string()
        ]),
        2
    );
}
