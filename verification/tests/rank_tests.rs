use uranker::mul_thread::mul_reader::MergeHeads;
use uranker::mul_thread::{RankAction, Ranking, TOP_N};

fn head(k: &str, v: u64) -> Option<(String, u64)> {
    Some((k.to_string(), v))
}

#[test]
fn merge_picks_the_largest_head() {
    let heads = MergeHeads::new(vec![head("a", 3), None, head("b", 7), head("c", 7)]);
    assert_eq!(heads.max_index(), 2);
    let none = MergeHeads::new(vec![None, head("z", 0)]);
    assert_eq!(none.max_index(), 0);
}

#[test]
fn merge_pick_advances_one_list() {
    let mut heads = MergeHeads::new(vec![head("a", 3), head("b", 7)]);
    let i = heads.max_index();
    assert_eq!(heads.pick(i, "[\"c\",5]"), head("b", 7));
    assert_eq!(heads.max_index(), 1);
    assert_eq!(heads.pick(1, "[\"c\",5]"), head("c", 5));
    assert_eq!(heads.pick(1, ""), head("c", 5));
    assert_eq!(heads.max_index(), 0);
    assert_eq!(heads.pick(0, "end"), head("a", 3));
    assert_eq!(heads.pick(0, "end"), None);
    assert_eq!(heads.len(), 2);
}

#[test]
fn report_header() {
    assert_eq!(Ranking::header(), "URL, Frequency\n");
}

#[test]
fn report_lines_and_limit() {
    let mut r = Ranking::new(false);
    match r.step("https://a.b", 42) {
        RankAction::Line(l) => assert_eq!(l, "https://a.b, 42\n"),
        _ => panic!("expected a line"),
    }
    // without recorded long URLs the name is written as it is
    match r.step("uranker://5", 1) {
        RankAction::Line(l) => assert_eq!(l, "uranker://5, 1\n"),
        _ => panic!("expected a line"),
    }
    for _ in 2..TOP_N {
        assert!(matches!(r.step("x", 1), RankAction::Line(_)));
    }
    assert!(matches!(r.step("x", 1), RankAction::Stop));
}

#[test]
fn report_long_urls() {
    let mut r = Ranking::new(true);
    match r.step("uranker://123", 9) {
        RankAction::Long(h, rest) => {
            assert_eq!(h, 123);
            assert_eq!(rest, ", 9\n");
        }
        _ => panic!("expected a long URL"),
    }
    assert!(matches!(r.step("uranker://+7", 9), RankAction::Long(7, _)));
    assert!(matches!(r.step("uranker://12x", 9), RankAction::BadLong));
    assert!(matches!(r.step("uranker://", 9), RankAction::BadLong));
    assert!(matches!(r.step("uranker://99999999999999999999", 9), RankAction::BadLong));
    match r.step("uranker:/1", 2) {
        RankAction::Line(l) => assert_eq!(l, "uranker:/1, 2\n"),
        _ => panic!("expected a line"),
    }
}

#[test]
fn merge_of_sorted_lists_is_sorted_and_complete() {
    let lists: Vec<Vec<(&str, u64)>> = vec![
        vec![("a", 9), ("b", 4), ("c", 4)],
        vec![],
        vec![("d", 9), ("e", 5), ("f", 1)],
        vec![("g", 6)],
    ];
    let mut rest: Vec<std::collections::VecDeque<(&str, u64)>> =
        lists.iter().map(|l| l.iter().cloned().collect()).collect();
    let first = rest
        .iter_mut()
        .map(|l| l.pop_front().map(|(k, v)| (k.to_string(), v)))
        .collect();
    let mut heads = MergeHeads::new(first);
    let mut out = Vec::new();
    loop {
        let i = heads.max_index();
        let line = match rest[i].pop_front() {
            Some((k, v)) => format!("[\"{}\",{}]", k, v),
            None => String::new(),
        };
        match heads.pick(i, &line) {
            Some(kv) => out.push(kv),
            None => break,
        }
    }
    let got: Vec<(&str, u64)> = out.iter().map(|(k, v)| (k.as_str(), *v)).collect();
    // on equal counts the lower list goes first
    assert_eq!(
        got,
        vec![("a", 9), ("d", 9), ("g", 6), ("e", 5), ("b", 4), ("c", 4), ("f", 1)]
    );
}
