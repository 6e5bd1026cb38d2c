use rabo::account::{validate_name, Chart, ChartError};
use rabo::date::{format_contextual_date, format_date, Date};
use rabo::error::InputLoc;
use rabo::journal::split_blocks;
use rabo::money::{default_currency, render_amount, Money};
use rabo::tags::{check_token, Labels, Tags};
use rabo::transaction::{Entry, Transaction, TransactionError};

fn to_lines(text: &str) -> Vec<String> {
    text.lines().map(|l| l.to_string()).collect()
}

#[test]
fn name_validation() {
    assert!(validate_name("Cash").is_ok());
    assert!(validate_name("Petty cash").is_ok());
    assert!(validate_name("x").is_ok());
    assert!(validate_name("").is_err());
    assert!(validate_name("a:b").is_err());
    assert!(validate_name("a  b").is_err());
    assert!(validate_name(" a").is_err());
    assert!(validate_name("a ").is_err());
}

#[test]
fn token_validation() {
    assert!(check_token("abc_123"));
    assert!(check_token("X"));
    assert!(!check_token(""));
    assert!(!check_token("a-b"));
    assert!(!check_token("a b"));
}

#[test]
fn full_paths_resolve() {
    let mut chart = Chart::new();
    chart
        .read_from_lines(&to_lines("Able [a]\n    Baker\n        Charlie\nDelta"))
        .expect("read");
    for id in 0..chart.count() {
        let path = chart.full_name(id);
        assert_eq!(chart.get_account(path.as_str()), Some(id));
    }
}

#[test]
fn alias_resolution_is_stable() {
    let mut chart = Chart::new();
    chart
        .read_from_lines(&to_lines("Able [a]\n    Baker [b]"))
        .expect("read");
    let first = chart.get_account("b:missing");
    let second = chart.get_account("b:missing");
    assert_eq!(first, second);
    let first = chart.get_account("a");
    let second = chart.get_account("a");
    assert_eq!(first, second);
}

#[test]
fn example_labels_substitute() {
    // Example: `Able [a]` with child `Baker`.
    let mut chart = Chart::new();
    chart
        .read_from_lines(&to_lines("Able [a]\n    Baker [b]"))
        .expect("read");
    assert_eq!(
        chart.get_account("Able:Baker"),
        chart.get_account("a:Baker")
    );
    assert!(chart.get_account("Able:Baker").is_some());
    assert_eq!(chart.get_account("Baker"), None);
}

#[test]
fn duplicate_label_rejected_whole() {
    // Two accounts claiming the label `x`: the second insertion fails and
    // the first stays registered.
    let mut chart = Chart::new();
    let err = chart
        .read_from_lines(&to_lines("Able [x]\n    Baker [x]"))
        .expect_err("duplicate label");
    assert_eq!(err.loc.line_number, 2);
    match &err.source {
        ChartError::Duplicate(d) => assert_eq!(d.name, "x"),
        other => panic!("unexpected error: {:?}", other),
    }
    let a = chart.get_account("Able").expect("Able still present");
    assert_eq!(chart.get_account("x"), Some(a));
    assert_eq!(chart.get_account("Baker"), None);
}

#[test]
fn bad_indent_mixed_whitespace() {
    // A line indented with spaces cannot nest under one indented with a
    // tab: no common prefix.
    let mut chart = Chart::new();
    let err = chart
        .read_from_lines(&to_lines("Able\n\tBaker\n  Charlie"))
        .expect_err("bad indent");
    assert_eq!(err.loc.line_number, 3);
    assert!(matches!(err.source, ChartError::BadIndent));
    assert_eq!(err.render(), "bad indent at line 3");
}

#[test]
fn first_line_indented_is_bad() {
    let mut chart = Chart::new();
    let err = chart
        .read_from_lines(&to_lines("    Able"))
        .expect_err("bad indent");
    assert_eq!(err.loc.line_number, 1);
    assert!(matches!(err.source, ChartError::BadIndent));
}

#[test]
fn invalid_name_and_tokens() {
    let mut chart = Chart::new();
    match chart.add_top_level_account("a:b", &[], &[]) {
        Err(ChartError::InvalidName(e)) => assert_eq!(e.name, "a:b"),
        other => panic!("unexpected: {:?}", other),
    }
    match chart.add_top_level_account("Able", &["bad-label"], &[]) {
        Err(ChartError::InvalidLabel(e)) => assert_eq!(e.name, "bad-label"),
        other => panic!("unexpected: {:?}", other),
    }
    match chart.add_top_level_account("Able", &["ok"], &["bad tag"]) {
        Err(ChartError::InvalidTag(e)) => assert_eq!(e.name, "bad tag"),
        other => panic!("unexpected: {:?}", other),
    }
    assert_eq!(chart.count(), 0);
}

#[test]
fn zero_sum_law() {
    let mut chart = Chart::new();
    let a = chart.add_top_level_account("AcctA", &[], &[]).unwrap();
    let b = chart.add_top_level_account("AcctB", &[], &[]).unwrap();
    let date = Date::from_ymd(2021, 12, 29);

    // Two entries of equal and opposite nonzero amount succeed.
    let e1 = Entry::new(&chart, a, "1", None, "").unwrap();
    let e2 = Entry::new(&chart, b, "-1", None, "").unwrap();
    assert!(Transaction::new(date, None, "", "", vec![e1, e2], &[]).is_ok());

    // Amounts that do not cancel fail.
    let e1 = Entry::new(&chart, a, "1", None, "").unwrap();
    let e3 = Entry::new(&chart, b, "-2", None, "").unwrap();
    match Transaction::new(date, None, "", "", vec![e1, e3], &[]) {
        Err(TransactionError::NonZeroSum) => {}
        other => panic!("unexpected: {:?}", other),
    }

    // A single entry fails regardless of amount.
    let e4 = Entry::new(&chart, a, "5", None, "").unwrap();
    match Transaction::new(date, None, "", "", vec![e4], &[]) {
        Err(TransactionError::TooFewEntries) => {}
        other => panic!("unexpected: {:?}", other),
    }

    // A zero amount fails at entry construction.
    match Entry::new(&chart, a, "0", None, "") {
        Err(rabo::transaction::EntryError::ZeroAmount) => {}
        other => panic!("unexpected: {:?}", other),
    }

    // A malformed amount fails at entry construction.
    match Entry::new(&chart, a, "1.2.3", None, "") {
        Err(rabo::transaction::EntryError::MalformedAmount { amount }) => {
            assert_eq!(amount, "1.2.3")
        }
        other => panic!("unexpected: {:?}", other),
    }

    // Many cancelling entries still succeed.
    let mut entries = Vec::new();
    for _ in 0..3 {
        entries.push(Entry::new(&chart, a, "2.50", None, "").unwrap());
        entries.push(Entry::new(&chart, b, "-2.50", None, "").unwrap());
    }
    assert!(Transaction::new(date, None, "w", "", entries, &["t1"]).is_ok());
}

#[test]
fn sum_overflow_reported() {
    // Aligning a huge coarse amount to a very fine scale cannot be
    // represented exactly in the machine integer.
    let mut chart = Chart::new();
    let a = chart.add_top_level_account("A", &[], &[]).unwrap();
    let b = chart.add_top_level_account("B", &[], &[]).unwrap();
    let date = Date::from_ymd(2021, 1, 1);
    let big = Entry::new(&chart, a, "70000000000000000000000000", None, "").unwrap();
    let tiny = Entry::new(&chart, b, "-0.0000000000000000000000000001", None, "").unwrap();
    match Transaction::new(date, None, "", "", vec![big, tiny], &[]) {
        Err(TransactionError::AmountOverflow) => {}
        other => panic!("unexpected: {:?}", other),
    }
}

#[test]
fn transaction_renders_exactly() {
    let mut chart = Chart::new();
    let a = chart.add_top_level_account("A", &[], &[]).unwrap();
    let b = chart.add_top_level_account("B", &[], &[]).unwrap();
    let date = Date::from_ymd(2021, 12, 29);
    let edate = Date::from_ymd(2021, 12, 31);
    let cdate = Date::from_ymd(2021, 11, 30);
    let e1 = Entry::new(&chart, a, "1", Some(cdate), "detail").unwrap();
    let e2 = Entry::new(&chart, b, "-1", None, "").unwrap();
    let t = Transaction::new(date, Some(edate), "Who", "What", vec![e1, e2], &["t"]).unwrap();
    assert_eq!(
        t.render(&chart),
        "29/12/2021=31// Who; What =t\n   A  1.00 ; detail {30/11/}\n   B  -1.00\n"
    );
}

#[test]
fn date_rendering() {
    let d = Date::from_ymd(2021, 1, 5);
    assert_eq!(format_date(&d), "05/01/2021");
    let context_same_year = Date::from_ymd(2021, 7, 1);
    assert_eq!(format_contextual_date(&d, &context_same_year), "05/01/");
    let context_same_month = Date::from_ymd(2021, 1, 20);
    assert_eq!(format_contextual_date(&d, &context_same_month), "05//");
    assert_eq!(format_contextual_date(&d, &d), "");
    let context_other_year = Date::from_ymd(2020, 1, 5);
    assert_eq!(format_contextual_date(&d, &context_other_year), "05/01/2021");
}

#[test]
fn amount_rendering() {
    assert_eq!(render_amount(0, 0), "0");
    assert_eq!(render_amount(100, 2), "1.00");
    assert_eq!(render_amount(1, 2), "0.01");
    assert_eq!(render_amount(-5, 1), "-0.5");
    assert_eq!(render_amount(12345, 0), "12345");
    assert_eq!(render_amount(-12345, 3), "-12.345");
}

#[test]
fn money_parses_through_outside_parser() {
    let m = Money::from_str("1", default_currency()).unwrap();
    // The default currency carries two decimal places: "1" reads as 1.00.
    assert_eq!(m.units(), 100);
    assert_eq!(m.scale(), 2);
    assert!(!m.is_zero());
    let m = Money::from_str("1,234.56", default_currency()).unwrap();
    assert_eq!(m.units(), 123456);
    assert_eq!(m.scale(), 2);
    assert!(Money::from_str("", default_currency()).is_err());
    assert!(Money::from_str("12x", default_currency()).is_err());
}

#[test]
fn exact_addition() {
    let a = Money::from_decimal(150, 2, default_currency()); // 1.50
    let b = Money::from_decimal(-5, 1, default_currency()); // -0.5
    let sum = a.checked_add(&b).unwrap();
    assert_eq!(sum.units(), 100);
    assert_eq!(sum.scale(), 2);
    let zero = Money::from_decimal(-1, 0, default_currency())
        .checked_add(&Money::from_decimal(100, 2, default_currency()))
        .unwrap();
    assert!(zero.is_zero());
}

#[test]
fn tags_render_in_natural_order() {
    // Numeric-aware order: 9 before 10; digits before letters; uppercase
    // before lowercase.
    let tags = Tags::from_iter(&["b", "a", "10", "9", "B"]).unwrap();
    assert_eq!(tags.render(), " =9 =10 =B =a =b");
    let labels = Labels::from_iter(&["x2", "x10", "x1"]).unwrap();
    assert_eq!(labels.render(), " [x1] [x2] [x10]");
}

#[test]
fn tags_with_long_digit_runs_render() {
    // Digit runs longer than a machine word still compare exactly: run
    // length first, then digit by digit.
    let tags = Tags::from_iter(&[
        "99999999999999999999999998",
        "9999999999999999999999999",
        "1000000000000000000000000",
    ])
    .unwrap();
    assert_eq!(
        tags.render(),
        " =1000000000000000000000000 =9999999999999999999999999 =99999999999999999999999998"
    );
}

#[test]
fn tags_deduplicate_and_validate() {
    let tags = Tags::from_iter(&["a", "b", "a"]).unwrap();
    assert_eq!(tags.iter().len(), 2);
    let err = Tags::from_iter(&["ok", "no good"]).unwrap_err();
    assert_eq!(err.name, "no good");
    let err = Labels::from_iter(&["no/good"]).unwrap_err();
    assert_eq!(err.name, "no/good");
}

#[test]
fn write_and_reread_flat_chart() {
    // Round trip for a forest of roots: the serialized lines rebuild the
    // same paths, labels and tags.
    let mut chart = Chart::new();
    chart
        .read_from_lines(&to_lines("Able [a] =x =y\nBaker [b] [B]\nCharlie"))
        .expect("read");
    let written = chart.write_lines();
    assert_eq!(written.len(), 3);
    let mut reread = Chart::new();
    reread.read_from_lines(&written).expect("reread");
    assert_eq!(reread.count(), chart.count());
    for id in 0..chart.count() {
        let path = chart.full_name(id);
        let again = reread.get_account(path.as_str()).expect("path kept");
        let mut labels = chart.account(id).iter_labels().clone();
        let mut labels2 = reread.account(again).iter_labels().clone();
        labels.sort();
        labels2.sort();
        assert_eq!(labels, labels2);
        let mut tags = chart.account(id).iter_tags().clone();
        let mut tags2 = reread.account(again).iter_tags().clone();
        tags.sort();
        tags2.sort();
        assert_eq!(tags, tags2);
    }
}

#[test]
fn write_lines_nested_preorder() {
    let mut chart = Chart::new();
    chart
        .read_from_lines(&to_lines("Able [a]\n    Baker =t\nDelta"))
        .expect("read");
    let written = chart.write_lines();
    assert_eq!(
        written,
        vec!["Able [a]", "Able:Baker =t", "Delta"]
    );
}

#[test]
fn comments_and_blanks_ignored() {
    let mut chart = Chart::new();
    chart
        .read_from_lines(&to_lines("# header\nAble\n\n   # note\n    Baker"))
        .expect("read");
    // The blank line does not close the level: Baker still nests under
    // Able.
    assert!(chart.get_account("Able:Baker").is_some());
}

#[test]
fn unicode_whitespace_lines_are_blank() {
    let mut chart = Chart::new();
    // A line of no-break spaces and one of form feed are blank: they add
    // no account and close no indentation level.
    chart
        .read_from_lines(&to_lines("Able\n\u{A0}\u{A0}\n\x0C\n    Baker"))
        .expect("read");
    assert!(chart.get_account("Able:Baker").is_some());
    assert!(chart.get_account("\u{A0}\u{A0}").is_none());
}

#[test]
fn tag_tokens_stop_at_unicode_whitespace() {
    let mut chart = Chart::new();
    chart.read_from_lines(&to_lines("x =a\x0Cb")).expect("read");
    // The tag token ends at the form feed; the leftover text is trimmed
    // into the bare name.
    let id = chart.get_account("x b").expect("bare name");
    assert_eq!(chart.account(id).iter_tags().clone(), vec!["a"]);
}

#[test]
fn input_loc_renders() {
    let loc = InputLoc::new(3);
    assert_eq!(loc.render(), " at line 3");
    let with_path = loc.with_path("accounts");
    assert_eq!(with_path.render(), " at accounts, line 3");
    let unknown = InputLoc::new(0);
    assert_eq!(unknown.render(), "");
    assert_eq!(unknown.with_path("accounts").render(), " in accounts");
}

#[test]
fn blocks_split_on_blank_lines() {
    let blocks = split_blocks(&to_lines("a\nb\n\n# comment\nc\n\n\n"));
    assert_eq!(blocks.len(), 2);
    assert_eq!(blocks[0].lines.len(), 2);
    assert_eq!(blocks[0].lines[0].text, "a");
    assert_eq!(blocks[0].lines[0].loc.line_number, 1);
    assert_eq!(blocks[0].lines[1].text, "b");
    assert_eq!(blocks[1].lines.len(), 1);
    assert_eq!(blocks[1].lines[0].text, "c");
    assert_eq!(blocks[1].lines[0].loc.line_number, 5);
}

#[test]
fn blocks_split_on_unicode_blank_lines() {
    // An em-space line is blank and separates blocks.
    let blocks = split_blocks(&to_lines("a\n\u{2003}\nb"));
    assert_eq!(blocks.len(), 2);
    assert_eq!(blocks[0].lines[0].text, "a");
    assert_eq!(blocks[1].lines[0].text, "b");
}

#[test]
fn decorations_anywhere_in_line() {
    let mut chart = Chart::new();
    chart
        .read_from_lines(&to_lines("=t1 Current [cur] assets =t2"))
        .expect("read");
    let id = chart.get_account("Current assets").expect("bare name");
    assert_eq!(chart.get_account("cur"), Some(id));
    let mut tags = chart.account(id).iter_tags().clone();
    tags.sort();
    assert_eq!(tags, vec!["t1", "t2"]);
}
