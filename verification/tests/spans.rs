use chat_relay::message::{splice, TwitchMessageSimple};
use chat_relay::span::{insert_sorted, merge, normalize};

fn total(spans: &[(u16, u16)]) -> u32 {
    spans.iter().map(|s| (s.1 - s.0) as u32).sum()
}

fn check_disjoint_ascending(spans: &[(u16, u16)]) {
    for s in spans {
        assert!(s.0 < s.1);
    }
    for pair in spans.windows(2) {
        assert!(pair[0].0 < pair[1].0);
        assert!(pair[0].1 <= pair[1].0);
    }
}

#[test]
fn merge_fuses_overlapping_spans() {
    assert_eq!(merge(&vec![(0, 5), (3, 8)]), vec![(0, 8)]);
}

#[test]
fn merge_keeps_separate_spans_apart() {
    assert_eq!(merge(&vec![(0, 3), (5, 8)]), vec![(0, 3), (5, 8)]);
}

#[test]
fn merge_keeps_touching_spans_apart() {
    assert_eq!(merge(&vec![(0, 3), (3, 5)]), vec![(0, 3), (3, 5)]);
}

#[test]
fn merge_drops_a_span_inside_another() {
    assert_eq!(merge(&vec![(0, 10), (2, 4), (10, 12)]), vec![(0, 10), (10, 12)]);
}

#[test]
fn merge_of_nothing_is_nothing() {
    assert_eq!(merge(&vec![]), Vec::<(u16, u16)>::new());
}

#[test]
fn merge_orders_by_start() {
    assert_eq!(merge(&vec![(12, 17), (0, 5)]), vec![(0, 5), (12, 17)]);
}

#[test]
fn merge_chains_through_a_late_span() {
    assert_eq!(merge(&vec![(0, 3), (3, 5), (2, 4)]), vec![(0, 5)]);
}

#[test]
fn merge_output_is_sorted_disjoint_and_no_longer() {
    let cases: Vec<Vec<(u16, u16)>> = vec![
        vec![(5, 9), (0, 2), (1, 6), (20, 30), (25, 26), (8, 10)],
        vec![(0, 1), (1, 2), (2, 3)],
        vec![(7, 9), (7, 8), (7, 12)],
        vec![(100, 200), (0, 65535)],
    ];
    for raw in cases {
        let merged = merge(&raw);
        check_disjoint_ascending(&merged);
        assert!(total(&merged) <= total(&raw));
        for p in 0u32..70 {
            let p = p as u16;
            let in_raw = raw.iter().any(|s| s.0 <= p && p < s.1);
            let in_merged = merged.iter().any(|s| s.0 <= p && p < s.1);
            assert_eq!(in_raw, in_merged);
        }
    }
}

#[test]
fn merge_does_not_depend_on_order() {
    let a = merge(&vec![(0, 3), (2, 6), (10, 12), (11, 15)]);
    let b = merge(&vec![(11, 15), (10, 12), (2, 6), (0, 3)]);
    assert_eq!(a, b);
    assert_eq!(a, vec![(0, 6), (10, 15)]);
}

#[test]
fn merge_is_a_no_op_on_disjoint_spans() {
    let spans = vec![(0, 5), (12, 17)];
    assert_eq!(merge(&spans), spans);
}

#[test]
fn insert_sorted_goes_after_equal_starts() {
    let mut spans = vec![(1, 2), (3, 9), (5, 6)];
    insert_sorted(&mut spans, (3, 4));
    assert_eq!(spans, vec![(1, 2), (3, 9), (3, 4), (5, 6)]);
    insert_sorted(&mut spans, (0, 1));
    assert_eq!(spans[0], (0, 1));
    insert_sorted(&mut spans, (9, 10));
    assert_eq!(spans[spans.len() - 1], (9, 10));
}

#[test]
fn normalize_makes_one_forward_pass() {
    assert_eq!(normalize(&vec![(0, 5), (3, 8), (8, 9), (8, 12)]), vec![(0, 8), (8, 12)]);
}

#[test]
fn add_trigger_merges_as_it_goes() {
    let mut m = TwitchMessageSimple::new("chan".to_string(), "bob".to_string(), "hello".to_string());
    assert!(m.triggers.is_empty());
    m.add_trigger((0, 3));
    assert_eq!(m.triggers, vec![(0, 3)]);
    m.add_trigger((1, 5));
    assert_eq!(m.triggers, vec![(0, 5)]);
    assert_eq!(m.channel, "chan");
    assert_eq!(m.author, "bob");
    assert_eq!(m.message, "hello");
}

#[test]
fn add_trigger_one_by_one_gives_what_merge_gives() {
    let raw = vec![(12, 17), (0, 5), (4, 6), (16, 20), (30, 31)];
    let mut m = TwitchMessageSimple::new(String::new(), String::new(), String::new());
    for span in &raw {
        m.add_trigger(*span);
    }
    assert_eq!(m.triggers, merge(&raw));
    assert_eq!(m.triggers, vec![(0, 6), (12, 20), (30, 31)]);
}

#[test]
fn duplicate_copies_every_field() {
    let mut m = TwitchMessageSimple::new("c".to_string(), "a".to_string(), "text".to_string());
    m.add_trigger((1, 3));
    assert_eq!(m.duplicate(), m);
}

#[test]
fn highlight_marks_each_span() {
    let mut m = TwitchMessageSimple::new(
        "chan".to_string(),
        "bob".to_string(),
        "hello world hello".to_string(),
    );
    m.add_trigger((0, 5));
    m.add_trigger((12, 17));
    assert_eq!(m.message_highlighted("**"), "**hello** world **hello**");
}

#[test]
fn highlight_without_spans_is_the_text() {
    let m = TwitchMessageSimple::new("c".to_string(), "a".to_string(), "plain".to_string());
    assert_eq!(m.message_highlighted("**"), "plain");
}

#[test]
fn highlight_passes_over_spans_that_cannot_be_cut() {
    let mut m = TwitchMessageSimple::new("c".to_string(), "a".to_string(), "héllo".to_string());
    m.triggers = vec![(0, 2), (3, 4), (5, 40)];
    assert_eq!(m.message_highlighted("*"), "hé*l*lo");
}

#[test]
fn highlight_passes_over_a_span_that_overlaps_the_one_before() {
    let mut m = TwitchMessageSimple::new("c".to_string(), "a".to_string(), "abcdef".to_string());
    m.triggers = vec![(0, 3), (2, 5)];
    assert_eq!(m.message_highlighted("_"), "_abc_def");
}

#[test]
fn highlight_for_the_terminal_keeps_the_text_outside_the_spans() {
    let mut m = TwitchMessageSimple::new(
        "c".to_string(),
        "a".to_string(),
        "say hello now".to_string(),
    );
    m.add_trigger((4, 9));
    let shown = m.message_highlighted_term();
    assert!(shown.starts_with("say "));
    assert!(shown.ends_with(" now"));
    assert!(shown.contains("hello"));
}

#[test]
fn splice_puts_each_piece_in_place_of_its_span() {
    let out = splice(
        "0123456789",
        &vec![(1, 3), (5, 6)],
        &vec!["<a>".to_string(), "<b>".to_string()],
    );
    assert_eq!(out, "0<a>34<b>6789");
    let short = splice("0123456789", &vec![(1, 3), (5, 6)], &vec!["<a>".to_string()]);
    assert_eq!(short, "0<a>3456789");
}

#[test]
fn title_and_link_name_the_origin() {
    let m = TwitchMessageSimple::new("chan".to_string(), "bob".to_string(), "hi".to_string());
    assert_eq!(m.title(), "bob ∙ #chan");
    assert_eq!(m.link(), "https://twitch.tv/chan");
}
