use hop_kak::hop::{App, Cli, Outcome, ReplaceRange, Response};
use hop_kak::selection::{Pos, Sel};
use hop_kak::trie::ConfigError;

fn sel(line: usize) -> Sel {
    Sel { start: Pos { line, col: 1 }, end: Pos { line, col: 5 } }
}

fn pairs(resp: &Response) -> Vec<(usize, String)> {
    match resp {
        Response::LabelsGenerated { replace_ranges } | Response::Reduced { replace_ranges } => {
            replace_ranges.iter().map(|r| (r.sel.start.line, r.label.clone())).collect()
        }
        Response::Cleanup => panic!("no ranges in a cleanup"),
    }
}

fn keys(s: &str) -> Vec<char> {
    s.chars().collect()
}

#[test]
fn generated_labels_pair_with_selections_in_order() {
    let sels: Vec<Sel> = (1..=4).map(sel).collect();
    let resp = App::generate_labels(sels, keys("abcd")).unwrap();
    assert_eq!(
        pairs(&resp),
        vec![(1, "a".into()), (2, "b".into()), (3, "c".into()), (4, "d".into())]
    );
    assert_eq!(resp.outcome(), Outcome::Active);
}

#[test]
fn ten_selections_follow_the_skewed_code() {
    let sels: Vec<Sel> = (1..=10).map(sel).collect();
    let resp = App::generate_labels(sels, keys("abcd")).unwrap();
    let labels: Vec<String> = pairs(&resp).into_iter().map(|p| p.1).collect();
    assert_eq!(labels, vec!["a", "b", "ca", "cb", "cc", "cd", "da", "db", "dc", "dd"]);
}

#[test]
fn no_selection_gives_no_label() {
    let resp = App::generate_labels(vec![], keys("abcd")).unwrap();
    assert!(pairs(&resp).is_empty());
    assert_eq!(resp.outcome(), Outcome::Exhausted);
}

#[test]
fn one_selection_is_resolved_at_once() {
    let resp = App::generate_labels(vec![sel(7)], keys("zxy")).unwrap();
    assert_eq!(pairs(&resp), vec![(7, "z".into())]);
    assert_eq!(resp.outcome(), Outcome::Resolved(sel(7)));
}

#[test]
fn generation_errors() {
    assert_eq!(App::generate_labels(vec![sel(1)], vec![]).err(), Some(ConfigError::EmptyKeyset));
    assert_eq!(App::generate_labels(vec![], vec![]).err(), Some(ConfigError::EmptyKeyset));
    assert_eq!(
        App::generate_labels(vec![sel(1), sel(2)], keys("a")).err(),
        Some(ConfigError::KeysetTooSmall)
    );
}

#[test]
fn typing_a_label_resolves_its_selection() {
    let n = 10;
    let sels: Vec<Sel> = (1..=n).map(sel).collect();
    let resp = App::generate_labels(sels.clone(), keys("abcd")).unwrap();
    let start = pairs(&resp);
    for (i, (_, label)) in start.iter().enumerate() {
        let mut sels_now = sels.clone();
        let mut labels_now: Vec<String> = start.iter().map(|p| p.1.clone()).collect();
        let mut last = None;
        for c in label.chars() {
            let resp = App::reduce(sels_now.clone(), labels_now.clone(), c.to_string());
            let ranges = match resp {
                Response::Reduced { replace_ranges } => replace_ranges,
                _ => panic!("a single key never cancels"),
            };
            sels_now = ranges.iter().map(|r| r.sel).collect();
            labels_now = ranges.iter().map(|r| r.label.clone()).collect();
            last = Some(Response::Reduced { replace_ranges: ranges });
        }
        let last = last.unwrap();
        assert_eq!(last.outcome(), Outcome::Resolved(sels[i]));
        assert_eq!(labels_now, vec![String::new()]);
    }
}

#[test]
fn reduce_strips_the_key() {
    let resp = App::reduce(
        vec![sel(1), sel(2), sel(3)],
        vec!["ca".into(), "cb".into(), "d".into()],
        "c".into(),
    );
    assert_eq!(pairs(&resp), vec![(1, "a".into()), (2, "b".into())]);
    assert_eq!(resp.outcome(), Outcome::Active);
}

#[test]
fn reduce_zips_as_far_as_both_go() {
    let resp = App::reduce(vec![sel(1), sel(2)], vec!["a".into()], "a".into());
    assert_eq!(pairs(&resp), vec![(1, "".into())]);
}

#[test]
fn missed_key_exhausts() {
    let resp = App::reduce(vec![sel(1), sel(2)], vec!["a".into(), "b".into()], "q".into());
    assert!(pairs(&resp).is_empty());
    assert_eq!(resp.outcome(), Outcome::Exhausted);
}

#[test]
fn escape_cancels() {
    let resp = App::reduce(vec![sel(1)], vec!["a".into()], "<esc>".into());
    assert!(matches!(resp, Response::Cleanup));
    assert_eq!(resp.outcome(), Outcome::Cancelled);
    let resp = App::reduce(vec![], vec![], "<esc>".into());
    assert!(matches!(resp, Response::Cleanup));
    assert_eq!(resp.outcome(), Outcome::Cancelled);
}

#[test]
fn process_generates_without_key_and_reduces_with_one() {
    let app = App::new(Cli {
        keyset: Some("ab".into()),
        sels: Some(" 1.1,1.4   2.1,2.3 bad 3.1,3.2 ".into()),
        labels: None,
        key: None,
    });
    assert_eq!(app.keyset, vec!['a', 'b']);
    assert_eq!(app.sels.len(), 3);
    let resp = app.process().unwrap();
    let labels: Vec<String> = pairs(&resp).into_iter().map(|p| p.1).collect();
    assert_eq!(labels, vec!["a", "ba", "bb"]);

    let app = App::new(Cli {
        keyset: None,
        sels: Some("1.1,1.4 2.1,2.3 3.1,3.2".into()),
        labels: Some("a ba bb".into()),
        key: Some("b".into()),
    });
    assert_eq!(app.labels, vec!["a", "ba", "bb"]);
    let resp = app.process().unwrap();
    assert_eq!(pairs(&resp), vec![(2, "a".into()), (3, "b".into())]);
}

#[test]
fn replace_range_keeps_its_parts() {
    let r = ReplaceRange::new(sel(4), "ab".to_string());
    assert_eq!(r.sel, sel(4));
    assert_eq!(r.label, "ab");
}

#[test]
fn typing_a_proper_prefix_keeps_the_session_active() {
    let sels: Vec<Sel> = (1..=10).map(sel).collect();
    let resp = App::generate_labels(sels.clone(), keys("abcd")).unwrap();
    let start = pairs(&resp);
    for (i, (_, label)) in start.iter().enumerate() {
        if label.chars().count() < 2 {
            continue;
        }
        let first = label.chars().next().unwrap();
        let labels: Vec<String> = start.iter().map(|p| p.1.clone()).collect();
        let resp = App::reduce(sels.clone(), labels, first.to_string());
        assert_eq!(resp.outcome(), Outcome::Active);
        let rest: String = label.chars().skip(1).collect();
        assert!(pairs(&resp).contains(&(sels[i].start.line, rest)));
    }
}
