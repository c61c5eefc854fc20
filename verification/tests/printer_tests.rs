use flexlint::lint::{Checked, CheckedState};
use flexlint::locate::locate;
use flexlint::printer::{collect_by_path, overall_pass, render, Chunk, Color};

fn mk(path: &str, beg: usize, end: usize, state: CheckedState) -> Checked {
    Checked {
        path: String::from(path),
        beg,
        end,
        state,
        name: String::from(""),
        hint: String::from(""),
    }
}

#[test]
fn test_collect_by_path() {
    let mut checked = Vec::new();

    checked.push(Checked {
        path: String::from("bbb"),
        beg: 100,
        end: 200,
        state: CheckedState::Pass,
        name: String::from(""),
        hint: String::from(""),
    });

    checked.push(Checked {
        path: String::from("aaa"),
        beg: 10,
        end: 20,
        state: CheckedState::Pass,
        name: String::from(""),
        hint: String::from(""),
    });

    checked.push(Checked {
        path: String::from("aaa"),
        beg: 0,
        end: 10,
        state: CheckedState::Pass,
        name: String::from(""),
        hint: String::from(""),
    });

    checked.push(Checked {
        path: String::from("bbb"),
        beg: 20,
        end: 30,
        state: CheckedState::Pass,
        name: String::from(""),
        hint: String::from(""),
    });

    let path_checked = collect_by_path(checked);

    assert_eq!(path_checked[0].0, "aaa");
    assert_eq!(path_checked[1].0, "bbb");
    assert_eq!(path_checked[0].1[0].beg, 0);
    assert_eq!(path_checked[0].1[1].beg, 10);
    assert_eq!(path_checked[1].1[0].beg, 20);
    assert_eq!(path_checked[1].1[1].beg, 100);
}

#[test]
fn test_collect_by_path_stable_ties() {
    let a = Checked {
        path: String::from("p"),
        beg: 5,
        end: 9,
        state: CheckedState::Pass,
        name: String::from("first"),
        hint: String::from(""),
    };
    let b = Checked {
        path: String::from("p"),
        beg: 5,
        end: 7,
        state: CheckedState::Fail,
        name: String::from("second"),
        hint: String::from(""),
    };
    let grouped = collect_by_path(vec![a, b]);
    assert_eq!(grouped.len(), 1);
    assert_eq!(grouped[0].1[0].name, "first");
    assert_eq!(grouped[0].1[1].name, "second");
}

#[test]
fn test_overall_pass_iff_no_fail() {
    let all_ok = vec![
        mk("a", 0, 1, CheckedState::Pass),
        mk("a", 2, 3, CheckedState::Skip),
    ];
    assert!(overall_pass(&all_ok));

    let one_fail = vec![
        mk("a", 0, 1, CheckedState::Pass),
        mk("b", 2, 3, CheckedState::Fail),
        mk("a", 4, 5, CheckedState::Skip),
    ];
    assert!(!overall_pass(&one_fail));

    let empty: Vec<Checked> = Vec::new();
    assert!(overall_pass(&empty));
}

#[test]
fn test_locate_values() {
    let text = b"xx\nif y\n".to_vec();
    let (line, col, le) = locate(&text, 3);
    assert_eq!(line, 2);
    assert_eq!(col, 1);
    assert_eq!(le, 7);

    let (line0, col0, le0) = locate(&text, 0);
    assert_eq!(line0, 1);
    assert_eq!(col0, 0);
    assert_eq!(le0, 2);

    let (linee, cole, lee) = locate(&text, 8);
    assert_eq!(linee, 3);
    assert_eq!(cole, 1);
    assert_eq!(lee, 8);
}

fn one_fail_group() -> (Vec<(String, Vec<Checked>)>, Vec<Vec<u8>>) {
    let c = Checked {
        path: String::from("f.c"),
        beg: 3,
        end: 5,
        state: CheckedState::Fail,
        name: String::from("r"),
        hint: String::from("h"),
    };
    let groups = vec![(String::from("f.c"), vec![c])];
    let texts = vec![b"xx\nif y\n".to_vec()];
    (groups, texts)
}

#[test]
fn test_render_simple_exact() {
    let (groups, texts) = one_fail_group();
    let out = render(&groups, &texts, false, false);
    assert_eq!(out.len(), 5);
    assert_eq!(out[0], Chunk { text: b"Fail".to_vec(), color: Color::BrightRed });
    assert_eq!(out[1], Chunk { text: b"\tf.c:2:1".to_vec(), color: Color::BrightBlue });
    // the context is what follows the trigger on its line
    assert_eq!(out[2], Chunk { text: b"\t y".to_vec(), color: Color::White });
    assert_eq!(out[3], Chunk { text: b"\thint: h\n".to_vec(), color: Color::BrightYellow });
    assert_eq!(out[4], Chunk { text: b"".to_vec(), color: Color::Reset });
}

#[test]
fn test_render_pretty_exact() {
    let (groups, texts) = one_fail_group();
    let out = render(&groups, &texts, false, true);
    assert_eq!(out.len(), 11);
    assert_eq!(out[0], Chunk { text: b"Fail".to_vec(), color: Color::BrightRed });
    assert_eq!(out[1], Chunk { text: b": r\n".to_vec(), color: Color::BrightWhite });
    assert_eq!(out[2], Chunk { text: b"   -->".to_vec(), color: Color::BrightBlue });
    assert_eq!(out[3], Chunk { text: b" f.c:2:1\n".to_vec(), color: Color::White });
    assert_eq!(out[4], Chunk { text: b"  |\n".to_vec(), color: Color::BrightBlue });
    assert_eq!(out[5], Chunk { text: b"2 |".to_vec(), color: Color::BrightBlue });
    assert_eq!(out[6], Chunk { text: b" if y\n".to_vec(), color: Color::White });
    assert_eq!(out[7], Chunk { text: b"  |".to_vec(), color: Color::BrightBlue });
    assert_eq!(out[8], Chunk { text: b" ^^".to_vec(), color: Color::BrightYellow });
    assert_eq!(out[9], Chunk { text: b" hint: h\n\n".to_vec(), color: Color::BrightYellow });
    assert_eq!(out[10], Chunk { text: b"".to_vec(), color: Color::Reset });
}

#[test]
fn test_render_hides_pass_unless_verbose() {
    let c = Checked {
        path: String::from("f.c"),
        beg: 3,
        end: 5,
        state: CheckedState::Pass,
        name: String::from("r"),
        hint: String::from("h"),
    };
    let groups = vec![(String::from("f.c"), vec![c])];
    let texts = vec![b"xx\nif y\n".to_vec()];
    let quiet = render(&groups, &texts, false, false);
    assert!(quiet.is_empty());
    let verbose = render(&groups, &texts, true, false);
    assert_eq!(verbose.len(), 5);
    assert_eq!(verbose[0], Chunk { text: b"Pass".to_vec(), color: Color::BrightGreen });
    // in the compact form the hint is shown for every visible state
    assert_eq!(verbose[3], Chunk { text: b"\thint: h\n".to_vec(), color: Color::BrightYellow });
    // in the annotated form the hint is shown only on failure
    let pretty = render(&groups, &texts, true, true);
    assert_eq!(pretty[9], Chunk { text: b"\n\n".to_vec(), color: Color::BrightYellow });
}

#[test]
fn test_render_idempotent() {
    let (groups, texts) = one_fail_group();
    let first = render(&groups, &texts, true, true);
    let second = render(&groups, &texts, true, true);
    assert_eq!(first, second);
    let simple1 = render(&groups, &texts, true, false);
    let simple2 = render(&groups, &texts, true, false);
    assert_eq!(simple1, simple2);
}

#[test]
fn test_render_underline_clamped_to_line() {
    // the match runs past the end of its physical line: the carets stop
    // at the line end
    let c = Checked {
        path: String::from("f.c"),
        beg: 3,
        end: 12,
        state: CheckedState::Fail,
        name: String::from("r"),
        hint: String::from("h"),
    };
    let groups = vec![(String::from("f.c"), vec![c])];
    let texts = vec![b"xx\nif y\nmore".to_vec()];
    let out = render(&groups, &texts, false, true);
    assert_eq!(out[8], Chunk { text: b" ^^^^".to_vec(), color: Color::BrightYellow });
}

#[test]
fn test_render_first_line_full_excerpt() {
    // a match on the first line: the source line starts at offset 0 and
    // the underline padding keeps the carets under the match
    let c = Checked {
        path: String::from("f.c"),
        beg: 1,
        end: 3,
        state: CheckedState::Fail,
        name: String::from("r"),
        hint: String::from("h"),
    };
    let groups = vec![(String::from("f.c"), vec![c])];
    let texts = vec![b"xif y\nz".to_vec()];
    let out = render(&groups, &texts, false, true);
    assert_eq!(out[3], Chunk { text: b" f.c:1:1\n".to_vec(), color: Color::White });
    assert_eq!(out[6], Chunk { text: b" xif y\n".to_vec(), color: Color::White });
    assert_eq!(out[8], Chunk { text: b"  ^^".to_vec(), color: Color::BrightYellow });
}

#[test]
fn test_render_simple_first_line_context() {
    let c = Checked {
        path: String::from("f.c"),
        beg: 1,
        end: 3,
        state: CheckedState::Fail,
        name: String::from("r"),
        hint: String::from("h"),
    };
    let groups = vec![(String::from("f.c"), vec![c])];
    let texts = vec![b"xif y\nz".to_vec()];
    let out = render(&groups, &texts, false, false);
    assert_eq!(out[2], Chunk { text: b"\t y".to_vec(), color: Color::White });
}
