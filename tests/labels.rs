use tsdb::labels::{compare_labels, Label, Labels, LabelsError, Matcher, MustMatch, ScratchBuilder};

#[test]
fn test_matches() {
    let m = Matcher::new_must_matcher("name", "value");
    assert_eq!(true, m.matches("value"));
}

#[test]
fn matcher_rejects_other_value() {
    let m = Matcher::new_must_matcher("name", "value");
    assert!(!m.matches("valu"));
    let n = Matcher::MatchNotEqual(MustMatch { name: "name".to_string(), value: "value".to_string() });
    assert!(!n.matches("value"));
    assert!(n.matches("other"));
}

#[test]
fn test_labels() {
    let ls = Labels::from_string(vec!["t1", "t1", "t2", "t2"]).unwrap();
    assert_eq!("{t1=\"t1\", t2=\"t2\"}", ls.to_string());

    let ls = Labels::from_string(vec![]).unwrap();
    assert_eq!("{}", ls.to_string());
}

#[test]
fn labels_sorted_by_name() {
    let ls = Labels::from_string(vec!["zz", "1", "aa", "2", "mm", "3"]).unwrap();
    assert_eq!("{aa=\"2\", mm=\"3\", zz=\"1\"}", ls.to_string());
}

#[test]
fn labels_odd_count() {
    assert_eq!(Err(LabelsError::InvalidNumberOfStrings), Labels::from_string(vec!["a"]));
}

#[test]
fn test_scratch_builder() {
    let mut builder = ScratchBuilder::new();

    let v = vec![
        Label::new("aaa".to_string(), "111".to_string()),
        Label::new("bbb".to_string(), "222".to_string()),
    ];

    for item in v.iter() {
        builder.add(item.name.clone(), item.value.clone());
    }
    builder.sort();

    let ls = Labels::from_string(vec!["aaa", "111", "bbb", "222"]).unwrap();
    assert_eq!(ls, builder.labels());
}

#[test]
fn scratch_builder_sorts() {
    let mut builder = ScratchBuilder::new();
    builder.add("b".to_string(), "1".to_string());
    builder.add("a".to_string(), "2".to_string());
    builder.sort();
    assert_eq!("{a=\"2\", b=\"1\"}", builder.labels().to_string());
}

#[test]
fn label_sequences_compare() {
    let a = Labels::from_string(vec!["a", "1"]).unwrap();
    let b = Labels::from_string(vec!["a", "1", "b", "0"]).unwrap();
    let c = Labels::from_string(vec!["a", "2"]).unwrap();
    assert!(compare_labels(&a, &b) < 0);
    assert!(compare_labels(&b, &c) < 0);
    assert!(compare_labels(&c, &a) > 0);
    assert_eq!(0, compare_labels(&a, &a.clone()));
}
