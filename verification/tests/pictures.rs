use traceforge::debug::gallery::{document_name, image_name, Manifest};
use traceforge::debug::tikz_log::{graph_node_name, graph_picture, node_id, split_label_prefix, tex_escape};
use traceforge::event::{construct_thread_id, main_thread_id, Event};
use traceforge::exec_graph::ExecutionGraph;
use traceforge::layout::Layout;
use traceforge::must::print::{describe_revisit_item, progress_line};
use traceforge::revisit::{
    compute_inbox_possible_subsets_from_rfs, pop_worklist, push_worklist, subsets_containing,
    RevisitEnum, RevisitQueue,
};
use traceforge::text::{
    decimal, event_name, fmt_event_set, fmt_event_sets, halves, join, padded, parse_number,
    split_words, thread_name,
};

fn e(t: u32, i: u32) -> Event {
    Event::new(construct_thread_id(t), i)
}

#[test]
fn numbers_are_written_and_read() {
    assert_eq!(decimal(0), "0");
    assert_eq!(decimal(1203), "1203");
    assert_eq!(padded(7, 4), "0007");
    assert_eq!(padded(12345, 4), "12345");
    assert_eq!(halves(-3), "-1.50");
    assert_eq!(halves(4), "2.00");
    assert_eq!(parse_number("1203", 2000), Some(1203));
    assert_eq!(parse_number("+5", 9), Some(5));
    assert_eq!(parse_number("2001", 2000), None);
    assert_eq!(parse_number("", 9), None);
    assert_eq!(parse_number("-1", 9), None);
    assert_eq!(parse_number(&decimal(u64::MAX as u128), u64::MAX), Some(u64::MAX));
}

#[test]
fn words_are_joined_and_split() {
    let words = vec!["a".to_string(), "bc".to_string()];
    assert_eq!(join(&words, " "), "a bc");
    assert_eq!(split_words(" a  bc "), words);
}

#[test]
fn events_have_names() {
    assert_eq!(thread_name(construct_thread_id(3)), "t3");
    assert_eq!(event_name(e(3, 4)), "(t3, 4)");
    assert_eq!(fmt_event_set(&vec![e(1, 2), e(3, 4)]), "{(t1, 2), (t3, 4)}");
    assert_eq!(fmt_event_sets(&vec![vec![], vec![e(1, 2)]]), "{}, {(t1, 2)}");
    assert_eq!(
        describe_revisit_item(&RevisitEnum::new_forward(e(1, 2), e(3, 4))),
        "forward (t1, 2) <= (t3, 4)"
    );
    assert_eq!(
        describe_revisit_item(&RevisitEnum::new_forward_inbox(e(1, 2), vec![e(3, 4)])),
        "forward (t1, 2) <= {(t3, 4)}"
    );
    assert_eq!(
        describe_revisit_item(&RevisitEnum::new_backward(e(1, 2), e(3, 4))),
        "backward (t1, 2) <= (t3, 4)"
    );
}

#[test]
fn progress_is_told_in_words() {
    assert_eq!(
        progress_line(3, 2, " (1.00/sec)"),
        "Executions attempted so far: 5 total 3 finished normally 2 blocked (1.00/sec)."
    );
}

#[test]
fn texts_are_escaped_for_tex() {
    assert_eq!(tex_escape("a_b{c}%"), "a\\_b\\{c\\}\\%");
    assert_eq!(tex_escape("x<y"), "x$<$y");
    assert_eq!(tex_escape("\\"), "\\textbackslash{}");
    assert_eq!(split_label_prefix("(t0, 1): End"), "End");
    assert_eq!(split_label_prefix("End"), "End");
    assert_eq!(split_label_prefix("a:\t\u{2003}\n b : c "), "b : c ");
    assert_eq!(graph_node_name(2, 3), "graph_r2_c3");
    assert!(node_id(e(1, 2)) != node_id(e(1, 3)));
}

#[test]
fn a_graph_is_a_picture() {
    let picture = graph_picture(&ExecutionGraph::new());
    assert!(picture.starts_with("\\begin{tikzpicture}[>=stealth, node distance=8mm]\n"));
    assert!(picture.contains("{\\tiny Begin}"));
}

#[test]
fn manifests_are_read_back() {
    let mut m = Manifest::new();
    assert_eq!(m.next_graph_index(), 0);
    assert_eq!(m.add_graph(0, 0, 0, false), 0);
    assert_eq!(m.add_graph(0, 1, 0, true), 1);
    assert_eq!(m.add_graph(1, 0, 1, true), 2);
    let lines = m.save_manifest();
    let mut back = Manifest::load_manifest(&lines);
    assert_eq!(back.save_manifest(), lines);
    back.read_line("no such line");
    assert_eq!(back.save_manifest(), lines);
    assert_eq!(image_name("run", 7), "graphs/run_g0007.png");
    assert_eq!(document_name("run", 7), "run_g0007.tex");
    let html = m.gallery_html("run");
    assert!(html.starts_with("<!doctype html>"));
    assert!(html.contains("run_g0002.png"));
}

#[test]
fn pictures_go_to_the_next_slot() {
    let l = Layout::new();
    let next = l.place(false, true);
    assert_eq!((next.row, next.col), (0, 1));
    let done = next.place(true, true);
    assert_eq!((done.row, done.col, done.row_start), (1, 0, 0));
    assert_eq!(l.next_execution().row, 1);
}

#[test]
fn the_latest_revisit_comes_first() {
    let mut q = RevisitQueue::new();
    assert!(q.is_empty());
    push_worklist(&mut q, 5, RevisitEnum::new_forward(e(0, 1), e(1, 1)));
    push_worklist(&mut q, 9, RevisitEnum::new_forward(e(0, 2), e(1, 1)));
    push_worklist(&mut q, 5, RevisitEnum::new_backward(e(0, 3), e(1, 1)));
    assert_eq!(q.len(), 3);
    assert_eq!(pop_worklist(&mut q).pos(), e(0, 2));
    assert_eq!(pop_worklist(&mut q).pos(), e(0, 3));
    assert_eq!(pop_worklist(&mut q).pos(), e(0, 1));
}

#[test]
fn subsets_have_the_right_sizes() {
    let events = vec![e(0, 1), e(0, 2), e(0, 3)];
    assert_eq!(compute_inbox_possible_subsets_from_rfs(&events, 0, None).len(), 8);
    assert_eq!(compute_inbox_possible_subsets_from_rfs(&events, 2, None).len(), 4);
    assert_eq!(compute_inbox_possible_subsets_from_rfs(&events, 1, Some(2)).len(), 6);
    assert_eq!(compute_inbox_possible_subsets_from_rfs(&events, 4, None).len(), 0);
    let with = subsets_containing(&events, e(0, 2));
    assert_eq!(with.len(), 4);
    assert!(with.iter().all(|s| s.contains(&e(0, 2))));
    assert_eq!(main_thread_id(), construct_thread_id(0));
}
