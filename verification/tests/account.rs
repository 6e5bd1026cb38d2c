use std::collections::HashSet;

use rabo::account::Chart;

#[test]
fn account() {
    let mut chart = Chart::new();
    let a = chart
        .add_top_level_account("Able", &["a"], &[])
        .expect("add Able");
    let b = chart
        .add_child_account(a, "Baker", &["b"], &["x"])
        .expect("add Baker");
    let c = chart
        .add_child_account(
            b,
            "Charlie",
            &["c", "C"], // labels
            &["y", "z"], // tags
        )
        .expect("add Charlie");

    println!("{:?}", chart.account(c));
    assert!(!chart.account(c).is_parent());
    assert_eq!(chart.account(c).bare_name(), "Charlie");
    assert_eq!(chart.full_name(c), "Able:Baker:Charlie");
    let mut names = chart.all_names(c);
    names.sort();
    assert_eq!(
        names,
        vec![
            "Able:Baker:Charlie",
            "C",
            "a:Baker:Charlie",
            "b:Charlie",
            "c",
        ]
    );
    let mut labels = chart.account(c).iter_labels().clone();
    labels.sort();
    assert_eq!(labels, vec!["C", "c"]);
    let mut tags = chart.account(c).iter_tags().clone();
    tags.sort();
    assert_eq!(tags, vec!["y", "z"]);
}

#[test]
fn chart() {
    let mut chart = Chart::new();
    let lines: Vec<String> = r"
Able [a] [A] =x
    Baker [b] =y
        Charlie [c] =z
    Delta [d] =z
        Echo [E] [e]
"
    .lines()
    .map(|l| l.to_string())
    .collect();
    chart.read_from_lines(&lines).expect("read chart");
    let a = chart.get_account("a").expect("a");
    let b = chart.get_account("b").expect("b");
    let c = chart.get_account("c").expect("c");
    let d = chart.get_account("d").expect("d");
    let e = chart.get_account("e").expect("e");

    assert_eq!(chart.get_account("Able"), Some(a));
    assert_eq!(chart.get_account("Baker"), None);
    assert_eq!(chart.get_account("Charlie"), None);
    assert_eq!(chart.get_account("Delta"), None);
    assert_eq!(chart.get_account("Echo"), None);
    assert_eq!(chart.get_account("A"), Some(a));
    assert_eq!(chart.get_account("Able:Baker"), Some(b));
    assert_eq!(chart.get_account("a:Baker"), Some(b));
    assert_eq!(chart.get_account("A:Baker"), Some(b));
    assert_eq!(chart.get_account("Able:Baker:Charlie"), Some(c));
    assert_eq!(chart.get_account("a:Baker:Charlie"), Some(c));
    assert_eq!(chart.get_account("A:Baker:Charlie"), Some(c));
    assert_eq!(chart.get_account("b:Charlie"), Some(c));
    assert_eq!(chart.get_account("Able:Delta"), Some(d));
    assert_eq!(chart.get_account("Able:Delta:Echo"), Some(e));
    assert_eq!(chart.get_account("E"), Some(e));

    assert_eq!(chart.full_name(a), "Able");
    assert_eq!(chart.full_name(b), "Able:Baker");
    assert_eq!(chart.full_name(c), "Able:Baker:Charlie");
    assert_eq!(chart.full_name(d), "Able:Delta");
    assert_eq!(chart.full_name(e), "Able:Delta:Echo");

    assert!(chart.account(a).is_parent());
    assert!(chart.account(b).is_parent());
    assert!(!chart.account(c).is_parent());
    assert!(chart.account(d).is_parent());
    assert!(!chart.account(e).is_parent());

    assert!(chart.contains(a, a));
    assert!(chart.contains(a, b));
    assert!(chart.contains(a, c));
    assert!(chart.contains(b, c));
    assert!(chart.contains(c, c));
    assert!(!chart.contains(b, a));
    assert!(!chart.contains(c, a));
    assert!(!chart.contains(c, b));
    assert!(!chart.contains(c, e));
    assert!(!chart.contains(e, c));

    assert_eq!(chart.relative_name(c, a), Some("Baker:Charlie".to_string()));
    assert_eq!(chart.relative_name(c, b), Some("Charlie".to_string()));
    assert_eq!(chart.relative_name(c, c), None);
    assert_eq!(chart.relative_name(b, c), None);
    assert_eq!(chart.relative_name(c, d), Some("Baker:Charlie".to_string()));
    assert_eq!(chart.relative_name(c, e), Some("Baker:Charlie".to_string()));

    let hs = HashSet::<usize>::from([a, c, d]);
    assert!(hs.contains(&a));
    assert!(!hs.contains(&b));
    assert!(hs.contains(&c));
    assert!(hs.contains(&d));
    assert!(!hs.contains(&e));
}
