use zf::filter::{rank_candidates, split_query, Candidate, CollectError, Range, Score};

fn paths(v: &[Candidate]) -> Vec<&str> {
    v.iter().map(|c| c.path.as_str()).collect()
}

fn candidates(items: &[&str], plain: bool) -> Vec<Candidate> {
    let text = items.join("\n");
    Candidate::collect(text.as_bytes(), b'\n', plain).unwrap()
}

#[test]
fn collect_candidates_whitespace() {
    let out = Candidate::collect("first second third fourth".as_bytes(), b' ', false).unwrap();

    assert_eq!(out.len(), 4);
    assert_eq!(out[0].path.as_str(), "first");
    assert_eq!(out[1].path.as_str(), "second");
    assert_eq!(out[2].path.as_str(), "third");
    assert_eq!(out[3].path.as_str(), "fourth");
}

#[test]
fn collect_candidates_newline() {
    let out = Candidate::collect("first\nsecond\nthird\nfourth".as_bytes(), b'\n', false).unwrap();

    assert_eq!(out.len(), 4);
    assert_eq!(out[0].path.as_str(), "first");
    assert_eq!(out[1].path.as_str(), "second");
    assert_eq!(out[2].path.as_str(), "third");
    assert_eq!(out[3].path.as_str(), "fourth");
}

#[test]
fn collect_candidates_excess_newline() {
    let out = Candidate::collect("first   second   third    fourth".as_bytes(), b' ', false).unwrap();

    assert_eq!(out.len(), 4);
    assert_eq!(out[0].path.as_str(), "first");
    assert_eq!(out[1].path.as_str(), "second");
    assert_eq!(out[2].path.as_str(), "third");
    assert_eq!(out[3].path.as_str(), "fourth");
}

#[test]
fn collect_sets_names_unless_plain() {
    let out = Candidate::collect(b"src/main.rs\n\nREADME.md\ndir/\n", b'\n', false).unwrap();
    assert_eq!(paths(&out), vec!["src/main.rs", "README.md", "dir/"]);
    assert_eq!(out[0].name.as_deref(), Some("main.rs"));
    assert_eq!(out[1].name.as_deref(), Some("README.md"));
    assert_eq!(out[2].name.as_deref(), Some(""));
    assert_eq!(out[0].rank, Score { num: 0, den: 1 });
    assert!(out[0].ranges.is_empty());

    let plain = Candidate::collect(b"src/main.rs\nREADME.md", b'\n', true).unwrap();
    assert_eq!(plain.len(), 2);
    assert_eq!(plain[0].name, None);
    assert_eq!(plain[1].name, None);
}

#[test]
fn collect_keeps_multibyte_text() {
    let out = Candidate::collect("dossier/é.txt\nnaïve".as_bytes(), b'\n', false).unwrap();
    assert_eq!(paths(&out), vec!["dossier/é.txt", "naïve"]);
    assert_eq!(out[0].name.as_deref(), Some("é.txt"));
}

#[test]
fn collect_rejects_invalid_utf8() {
    let input: &[u8] = &[b'o', b'k', b'\n', 0xff, 0xfe, b'\n'];
    assert_eq!(Candidate::collect(input, b'\n', false).unwrap_err(), CollectError::InvalidEncoding);
}

#[test]
fn collect_of_empty_input_is_empty() {
    assert!(Candidate::collect(b"", b'\n', false).unwrap().is_empty());
    assert!(Candidate::collect(b"\n\n\n", b'\n', false).unwrap().is_empty());
}

#[test]
fn split_query_keeps_empty_tokens() {
    assert_eq!(split_query("foo bar"), vec!["foo", "bar"]);
    assert_eq!(split_query("foo  bar"), vec!["foo", "", "bar"]);
    assert_eq!(split_query("foo "), vec!["foo", ""]);
    assert_eq!(split_query(""), vec![""]);
}

#[test]
fn scenario_main_only() {
    let c = candidates(&["src/main.rs", "src/lib.rs", "README.md"], false);
    let out = rank_candidates(c, "main", false);
    assert_eq!(paths(&out), vec!["src/main.rs"]);
    // filename match, halved, times coverage 1 - 4/7: 2/2 * 3/7
    assert_eq!(out[0].rank, Score { num: 12, den: 28 });
    assert_eq!(out[0].ranges, vec![Range { start: 4, end: 7 }]);
}

#[test]
fn empty_query_gives_nothing() {
    let c = candidates(&["a", "b", "src/c.rs"], false);
    assert!(rank_candidates(c.clone(), "", false).is_empty());
    assert!(rank_candidates(c, "", true).is_empty());
}

#[test]
fn smart_case_scenarios() {
    let lower = candidates(&["foo.rs"], false);
    assert!(rank_candidates(lower, "FOO", false).is_empty());
    let upper = candidates(&["FOO.rs"], false);
    assert_eq!(paths(&rank_candidates(upper, "foo", false)), vec!["FOO.rs"]);

    let txt = candidates(&["FOO.txt"], false);
    assert_eq!(paths(&rank_candidates(txt, "foo", false)), vec!["FOO.txt"]);
    let txt = candidates(&["foo.txt"], false);
    assert!(rank_candidates(txt, "Foo", false).is_empty());
}

#[test]
fn boundary_bonus_scenario() {
    let c = candidates(&["a_b.txt", "xab.txt"], false);
    let out = rank_candidates(c, "ab", true);
    assert_eq!(paths(&out), vec!["a_b.txt", "xab.txt"]);
    // a_b: 1 + jump of 2 onto a boundary = 3; xab: 1 + 2 mid-word + 1 run = 4
    assert_eq!(out[0].rank, Score { num: 30, den: 28 });
    assert_eq!(out[1].rank, Score { num: 40, den: 28 });
    assert!(out[0].rank.less_than(&out[1].rank));
    assert!(!out[1].rank.less_than(&out[0].rank));

    let sorted = rank_candidates(candidates(&["xab.txt", "a_b.txt"], false), "ab", false);
    assert_eq!(paths(&sorted), vec!["a_b.txt", "xab.txt"]);
}

#[test]
fn exact_filename_beats_partial_coverage() {
    let c = candidates(&["foo_long_name.txt", "src/foo"], false);
    let out = rank_candidates(c, "foo", false);
    assert_eq!(paths(&out), vec!["src/foo", "foo_long_name.txt"]);
    assert_eq!(out[0].rank, Score { num: 6, den: 12 });
    assert_eq!(out[1].rank, Score { num: 56, den: 68 });
}

#[test]
fn every_token_must_match() {
    let c = candidates(&["foo/bar.txt", "foo.txt", "bar.rs", "x/foobar"], false);
    let out = rank_candidates(c, "foo bar", true);
    assert_eq!(paths(&out), vec!["foo/bar.txt", "x/foobar"]);
    assert_eq!(out[0].ranges.len(), 2);
}

#[test]
fn double_space_matches_nothing() {
    let c = candidates(&["foo bar", "foo", "bar"], false);
    assert!(rank_candidates(c, "foo  bar", false).is_empty());
}

#[test]
fn ties_go_shorter_then_lexical() {
    let c = candidates(&["z/xa", "ya", "xa"], false);
    let out = rank_candidates(c, "a", false);
    assert_eq!(paths(&out), vec!["xa", "ya", "z/xa"]);
    assert_eq!(out[0].rank, out[2].rank);
}

#[test]
fn keep_order_follows_input() {
    let c = candidates(&["xab.txt", "nothing", "a_b.txt"], false);
    let out = rank_candidates(c, "ab", true);
    assert_eq!(paths(&out), vec!["xab.txt", "a_b.txt"]);
}

#[test]
fn ranking_twice_gives_the_same() {
    let c = candidates(&["src/main.rs", "src/lib.rs", "main/lib.rs", "domain.rs"], false);
    let a = rank_candidates(c.clone(), "main", false);
    let b = rank_candidates(c, "main", false);
    assert_eq!(paths(&a), paths(&b));
    for (x, y) in a.iter().zip(b.iter()) {
        assert_eq!(x.rank, y.rank);
        assert_eq!(x.ranges, y.ranges);
    }
}

#[test]
fn plain_mode_scores_the_whole_path() {
    let c = candidates(&["src/main.rs"], true);
    let out = rank_candidates(c, "main", false);
    assert_eq!(out.len(), 1);
    // m after a separator, then a contiguous run: 2, over the scale of 4
    assert_eq!(out[0].rank, Score { num: 8, den: 4 });
    assert_eq!(out[0].ranges, vec![Range { start: 4, end: 7 }]);
}

#[test]
fn score_comparison_is_exact() {
    let a = Score { num: 1, den: 3 };
    let b = Score { num: 2, den: 6 };
    assert!(a.equals(&b));
    assert!(!a.less_than(&b));
    assert!(Score { num: 1, den: 4 }.less_than(&a));
    assert_eq!(Score::zero(), Score { num: 0, den: 1 });
}
