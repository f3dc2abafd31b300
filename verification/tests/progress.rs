//! What the live region renders, and what happens to a line when the work behind
//! it ends.

use pm::progress::{
    format_elapsed, human_bytes, sanitise, LogWriter, Moment, Op, Progress, Task,
};

/// Width every test renders against.
const WIDTH: usize = 60;

/// The moment every test runs at.
const NOW: Moment = Moment { nanos: 5_000_000_000, wall_usec: 1_700_000_000_000_000 };

/// A region that renders normally but draws into nothing in particular.
fn region() -> Progress {
    Progress::to_writer(WIDTH)
}

/// Everything the region has written since it was last asked.
fn written(progress: &mut Progress) -> String {
    progress.take_ops().iter().map(Op::to_text).collect()
}

fn task(progress: &mut Progress, label: &str) -> Task {
    progress.task(label.to_owned(), NOW)
}

fn child(parent: &Task, progress: &mut Progress, label: &str) -> Task {
    parent.child(progress, label.to_owned(), NOW)
}

#[test]
fn a_disabled_region_renders_nothing() {
    let mut progress = Progress::disabled();
    let _task = task(&mut progress, "zlib-1.3.1");

    assert!(
        progress.snapshot(NOW).is_empty(),
        "a disabled region must not render, however many tasks are open on it"
    );
}

#[test]
fn a_task_renders_a_line_carrying_its_label() {
    let mut progress = region();
    let _task = task(&mut progress, "zlib-1.3.1");

    let lines = progress.snapshot(NOW);
    assert_eq!(lines.len(), 1, "one open task is one line");
    assert!(lines[0].contains("zlib-1.3.1"), "the line must name its task: {:?}", lines[0]);
}

#[test]
fn a_child_renders_indented_under_its_parent() {
    let mut progress = region();
    let package = task(&mut progress, "zlib-1.3.1");
    let _command = child(&package, &mut progress, "make");

    let lines = progress.snapshot(NOW);
    assert_eq!(lines.len(), 2, "a parent and a child are two lines");
    assert!(!lines[0].starts_with(' '), "a top-level line must not be indented: {:?}", lines[0]);
    assert!(
        lines[1].starts_with("    "),
        "a child line must be indented under its parent: {:?}",
        lines[1]
    );
    assert!(lines[1].contains("make"));
}

/// Which of `labels` each rendered line carries, in render order.
fn labels_of(lines: &[String], labels: [&'static str; 4]) -> Vec<&'static str> {
    lines
        .iter()
        .map(|line| labels.into_iter().find(|needle| line.contains(needle)).unwrap_or("?"))
        .collect()
}

#[test]
fn a_child_renders_under_its_own_parent_not_at_the_end() {
    let mut progress = region();

    let zlib = task(&mut progress, "zlib-1.3.1");
    let openssl = task(&mut progress, "openssl-3.5");
    let _configure = child(&zlib, &mut progress, "configure");
    let _make = child(&openssl, &mut progress, "make");

    assert_eq!(
        labels_of(&progress.snapshot(NOW), ["zlib-1.3.1", "configure", "openssl-3.5", "make"]),
        ["zlib-1.3.1", "configure", "openssl-3.5", "make"],
        "each command must render beneath the package that opened it"
    );
}

#[test]
fn a_second_child_renders_beside_the_first_not_after_a_later_package() {
    let mut progress = region();

    let zlib = task(&mut progress, "zlib-1.3.1");
    let _configure = child(&zlib, &mut progress, "configure");
    let openssl = task(&mut progress, "openssl-3.5");
    let _make = child(&zlib, &mut progress, "make");

    assert_eq!(
        labels_of(&progress.snapshot(NOW), ["zlib-1.3.1", "configure", "make", "openssl-3.5"]),
        ["zlib-1.3.1", "configure", "make", "openssl-3.5"],
        "a package's later commands must stay with it, not fall under the next package"
    );
    openssl.close(&mut progress, NOW);
}

#[test]
fn dropping_a_task_removes_its_line() {
    let mut progress = region();
    let package = task(&mut progress, "zlib-1.3.1");
    let command = child(&package, &mut progress, "make");
    assert_eq!(progress.snapshot(NOW).len(), 2);
    command.close(&mut progress, NOW);

    assert_eq!(
        progress.snapshot(NOW).len(),
        1,
        "a finished command must not keep a line on screen"
    );
}

#[test]
fn dropping_a_parent_removes_the_children_it_left_behind() {
    let mut progress = region();
    let package = task(&mut progress, "zlib-1.3.1");
    // A child that outlives its parent.
    let command = child(&package, &mut progress, "make");
    package.close(&mut progress, NOW);

    assert!(
        progress.snapshot(NOW).is_empty(),
        "a task's children must not survive it as orphaned lines: {:?}",
        progress.snapshot(NOW)
    );
    command.close(&mut progress, NOW);
}

#[test]
fn a_message_is_rendered_after_the_label() {
    let mut progress = region();
    let task = task(&mut progress, "zlib-1.3.1");
    task.set_message(&mut progress, "CC deflate.o", NOW);

    let line = progress.snapshot(NOW).remove(0);
    let label = line.find("zlib-1.3.1").expect("the label must be rendered");
    let message = line.find("CC deflate.o").expect("the message must be rendered");
    assert!(message > label, "the message follows the label: {line:?}");
}

#[test]
fn a_later_message_replaces_the_one_before_it() {
    let mut progress = region();
    let task = task(&mut progress, "zlib-1.3.1");
    task.set_message(&mut progress, "CC deflate.o", NOW);
    task.set_message(&mut progress, "CC inflate.o", NOW);

    let line = progress.snapshot(NOW).remove(0);
    assert!(line.contains("CC inflate.o"), "{line:?}");
    assert!(
        !line.contains("CC deflate.o"),
        "the previous message must be gone, not appended to: {line:?}"
    );
}

#[test]
fn bytes_render_against_the_total_when_one_is_known() {
    let mut progress = region();
    let task = task(&mut progress, "source.tar.gz");
    task.set_bytes(&mut progress, 14_200_000, Some(22_000_000), NOW);

    let line = progress.snapshot(NOW).remove(0);
    assert!(
        line.contains("13.5MiB/21.0MiB"),
        "a download with a declared length must render both halves: {line:?}"
    );
}

#[test]
fn bytes_render_alone_when_no_total_was_declared() {
    let mut progress = region();
    let task = task(&mut progress, "source.tar.gz");
    task.set_bytes(&mut progress, 14_200_000, None, NOW);

    let line = progress.snapshot(NOW).remove(0);
    assert!(line.contains("13.5MiB"), "{line:?}");
    assert!(
        !line.contains('/'),
        "with no declared length there is nothing to render a total against: {line:?}"
    );
}

#[test]
fn a_line_is_truncated_to_the_width_it_is_drawn_at() {
    let mut progress = region();
    let task = task(&mut progress, "zlib-1.3.1");
    task.set_message(&mut progress, &"x".repeat(400), NOW);

    let line = progress.snapshot(NOW).remove(0);
    assert!(
        line.chars().count() <= WIDTH,
        "a line wider than the terminal wraps, and a wrapped line breaks the \
         redraw; got {} columns",
        line.chars().count()
    );
}

#[test]
fn every_line_carries_an_elapsed_time() {
    let mut progress = region();
    let _task = task(&mut progress, "zlib-1.3.1");

    let line = progress.snapshot(NOW).remove(0);
    assert!(
        line.trim_end().ends_with("s]"),
        "a line must say how long its work has been running: {line:?}"
    );
}

#[test]
fn the_spinner_advances_when_the_region_ticks() {
    let mut progress = region();
    let _task = task(&mut progress, "zlib-1.3.1");

    let before = progress.snapshot(NOW).remove(0);
    progress.tick(NOW);
    let after = progress.snapshot(NOW).remove(0);

    let frame_of = |line: &str| line.chars().next().expect("a line must have a frame");
    assert_ne!(
        frame_of(&before),
        frame_of(&after),
        "the spinner must move, or it does not read as alive"
    );
}

#[test]
fn println_writes_the_line_through_to_the_sink() {
    let mut progress = region();
    let _task = task(&mut progress, "zlib-1.3.1");

    progress.println("INFO building zlib version 1.3.1", NOW);

    assert!(
        written(&mut progress).contains("INFO building zlib version 1.3.1"),
        "a log line must reach the terminal, not be swallowed by the region"
    );
}

#[test]
fn a_disabled_region_still_passes_log_lines_through() {
    let mut progress = Progress::passthrough();

    progress.println("WARN foo-0.1.0 is empty", NOW);

    assert!(
        written(&mut progress).contains("WARN foo-0.1.0 is empty"),
        "turning the region off must not turn logging off"
    );
}

#[test]
fn a_handle_reports_on_a_line_it_does_not_own() {
    let mut progress = region();
    let package = task(&mut progress, "zlib-1.3.1");

    let handle = package.handle();
    handle.set_message(&mut progress, "building", NOW);
    assert_eq!(progress.snapshot(NOW).len(), 1, "a handle opens no new line");
    handle.close(&mut progress, NOW);

    let lines = progress.snapshot(NOW);
    assert_eq!(
        lines.len(),
        1,
        "dropping a handle must not close the line its owner is still using"
    );
    assert!(
        lines[0].contains("building"),
        "a handle writes to the line it refers to: {:?}",
        lines[0]
    );
}

#[test]
fn a_child_of_a_handle_nests_under_the_handles_own_line() {
    let mut progress = region();
    let package = task(&mut progress, "zlib-1.3.1");
    let handle = package.handle();

    let _command = child(&handle, &mut progress, "make");

    let lines = progress.snapshot(NOW);
    assert_eq!(lines.len(), 2);
    assert!(
        lines[1].starts_with("    ") && !lines[1].starts_with("        "),
        "a handle's child sits one level down, not two: {:?}",
        lines[1]
    );
}

#[test]
fn an_empty_region_does_not_touch_the_cursor() {
    let mut progress = region();

    progress.tick(NOW);
    progress.println("INFO nothing is building", NOW);

    assert!(
        !written(&mut progress).contains("\x1b[?25l"),
        "a region with no work on it must leave the cursor alone"
    );
}

#[test]
fn the_cursor_is_hidden_only_while_there_are_lines() {
    let mut progress = region();

    let task = task(&mut progress, "zlib-1.3.1");
    assert!(
        written(&mut progress).contains("\x1b[?25l"),
        "a drawing region must hide the cursor so it does not chase the redraw"
    );
    task.close(&mut progress, NOW);

    assert!(
        written(&mut progress).contains("\x1b[?25h"),
        "the cursor must come back as soon as the region has nothing left to draw"
    );
}

#[test]
fn a_thousand_messages_leave_one_node_capped_at_512_chars() {
    let mut progress = region();
    let task = task(&mut progress, "zlib-1.3.1");

    for i in 0..1000 {
        task.set_message(
            &mut progress,
            &format!("CC file-{i}.o with a fairly long compiler line"),
            NOW,
        );
    }

    let nodes = progress.nodes();
    assert_eq!(nodes.len(), 1, "1000 updates to one node must still be one node");
    assert!(
        nodes[0].text.chars().count() <= 512,
        "the stored text must never exceed the wire cap: got {} chars",
        nodes[0].text.chars().count()
    );
}

#[test]
fn a_message_with_escape_and_carriage_return_comes_back_with_neither() {
    let mut progress = region();
    let task = task(&mut progress, "zlib-1.3.1");

    task.set_message(&mut progress, "progress: 50%\rdone\x1b[2Kmore\r\nstuff", NOW);

    let nodes = progress.nodes();
    assert_eq!(nodes.len(), 1);
    assert!(
        !nodes[0].text.contains('\r') && !nodes[0].text.contains('\x1b'),
        "control characters from untrusted build output must not survive onto the wire: {:?}",
        nodes[0].text
    );
    assert_eq!(nodes[0].text, "progress: 50%done[2Kmorestuff");
}

#[test]
fn sanitise_truncates_with_a_visible_marker_and_never_exceeds_the_cap() {
    let long = "x".repeat(50);

    let result = sanitise(&long, 10);

    assert_eq!(result.chars().count(), 10, "a truncated result stays exactly at the cap");
    assert!(
        result.ends_with('…'),
        "truncation must be visible, not silently indistinguishable from a short message: {result:?}"
    );
}

#[test]
fn sanitise_leaves_short_text_untouched() {
    assert_eq!(sanitise("CC deflate.o", 512), "CC deflate.o");
}

#[test]
fn nodes_reports_the_tree_as_wire_types() {
    let mut progress = region();
    let package = task(&mut progress, "zlib-1.3.1");
    let command = child(&package, &mut progress, "make");
    command.set_message(&mut progress, "CC deflate.o", NOW);

    let nodes = progress.nodes();
    assert_eq!(nodes.len(), 2, "a package and its command are two nodes");

    let root = &nodes[0];
    assert_eq!(root.label, "zlib-1.3.1");
    assert_eq!(root.parent, 0, "a top-level node's parent is the 0 sentinel");
    assert_eq!(root.depth, 0);
    assert_ne!(root.id, 0, "0 is reserved for \"no parent\", so a real id is never 0");
    assert!(root.started_usec > 0, "started_usec must be a real wall-clock reading");

    let child = &nodes[1];
    assert_eq!(child.label, "make");
    assert_eq!(child.parent, root.id, "the command's parent must be the package's wire id");
    assert_eq!(child.depth, 1);
    assert_eq!(child.kind, 1, "kind 1 is Message");
    assert_eq!(child.text, "CC deflate.o");
    assert_eq!(child.done, 0);
    assert_eq!(child.total, 0);
}

#[test]
fn a_disabled_region_reports_no_nodes() {
    let mut progress = Progress::disabled();
    let _task = task(&mut progress, "zlib-1.3.1");

    assert!(
        progress.nodes().is_empty(),
        "a disabled region opens no node in the first place, so there is nothing to report"
    );
}

#[test]
fn silent_mode_is_live_so_a_build_captures_into_it() {
    let mut progress = Progress::silent();
    let task = task(&mut progress, "zlib-1.3.1");

    assert!(task.is_live(), "a build's output is captured when its line is live");
}

#[test]
fn silent_mode_tracks_nodes_exactly_like_a_live_region() {
    let mut progress = Progress::silent();
    let package = task(&mut progress, "zlib-1.3.1");
    let command = child(&package, &mut progress, "make");
    command.set_message(&mut progress, "CC deflate.o", NOW);
    command.set_bytes(&mut progress, 1024, Some(2048), NOW);

    let nodes = progress.nodes();
    assert_eq!(nodes.len(), 2, "bookkeeping runs exactly as it does for a live region");
    assert_eq!(nodes[1].kind, 2, "the latest report replaces the node's detail, as in live mode");
    assert_eq!(nodes[1].done, 1024);
    assert_eq!(nodes[1].total, 2048);

    command.close(&mut progress, NOW);
    assert_eq!(
        progress.nodes().len(),
        1,
        "dropping a task removes its node under silent mode too"
    );
}

#[test]
fn a_silent_region_never_writes() {
    let mut progress = Progress::silent();
    let package = task(&mut progress, "zlib-1.3.1");
    progress.println("INFO building", NOW);
    progress.tick(NOW);
    package.close(&mut progress, NOW);
    progress.finish();

    assert!(progress.take_ops().is_empty());
}

#[test]
fn a_redraw_erases_exactly_what_the_last_one_left() {
    let mut progress = region();
    let package = task(&mut progress, "a");
    let command = child(&package, &mut progress, "b");
    progress.take_ops();

    progress.println("hello", NOW);
    let ops = progress.take_ops();
    assert_eq!(ops.len(), 4);
    assert_eq!(ops[0], Op::Erase(2));
    assert_eq!(ops[1], Op::Line("hello".to_owned()));
    assert_eq!(ops[0].to_text(), "\x1b[1A\x1b[2K\x1b[1A\x1b[2K");

    command.close(&mut progress, NOW);
    assert_eq!(progress.take_ops()[0], Op::Erase(2));
    package.close(&mut progress, NOW);
    let ops = progress.take_ops();
    assert_eq!(ops[0], Op::Erase(1));
    assert_eq!(ops[1], Op::ShowCursor);
    assert_eq!(ops.len(), 2);
}

#[test]
fn finishing_a_region_clears_it_and_gives_the_cursor_back() {
    let mut progress = region();
    let _task = task(&mut progress, "a");
    progress.take_ops();
    progress.finish();

    assert_eq!(progress.take_ops(), vec![Op::Erase(1), Op::ShowCursor]);
}

#[test]
fn a_line_is_spinner_label_message_and_time() {
    let mut progress = Progress::to_writer(30);
    let task = task(&mut progress, "zlib");
    task.set_message(&mut progress, "CC x.o", NOW);

    let later = Moment { nanos: NOW.nanos + 1_250_000_000, wall_usec: 0 };
    assert_eq!(progress.snapshot(later), vec!["⠋ zlib  CC x.o          [1.2s]".to_owned()]);
    progress.tick(NOW);
    assert!(progress.snapshot(later)[0].starts_with('⠙'));
}

#[test]
fn a_line_narrower_than_its_time_shows_the_time_alone() {
    let mut progress = Progress::to_writer(3);
    let _task = task(&mut progress, "zlib");
    assert_eq!(progress.snapshot(NOW), vec!["[0.0s]".to_owned()]);
}

#[test]
fn a_terminal_that_does_not_say_how_wide_it_is_is_eighty_columns_wide() {
    let mut progress = Progress::to_terminal(true, None);
    let _task = task(&mut progress, "zlib");
    assert_eq!(progress.snapshot(NOW)[0].chars().count(), 80);
    progress.resize(Some(40));
    assert_eq!(progress.snapshot(NOW)[0].chars().count(), 40);
    assert!(!Progress::to_terminal(false, Some(40)).live);
}

#[test]
fn opening_and_closing_a_line_leaves_the_others_as_they_were() {
    let mut progress = region();
    let a = task(&mut progress, "a");
    let b = task(&mut progress, "b");
    let before = progress.snapshot(NOW);
    let command = child(&a, &mut progress, "c");
    assert_ne!(progress.snapshot(NOW), before);
    command.close(&mut progress, NOW);
    assert_eq!(progress.snapshot(NOW), before);
    b.close(&mut progress, NOW);
}

#[test]
fn a_detached_task_does_nothing() {
    let mut progress = region();
    let task = Task::detached();
    assert!(!task.is_live());
    task.set_message(&mut progress, "x", NOW);
    task.set_bytes(&mut progress, 1, None, NOW);
    let child = child(&task, &mut progress, "y");
    assert!(!child.is_live());
    task.close(&mut progress, NOW);
    assert!(progress.snapshot(NOW).is_empty());
    assert!(progress.take_ops().is_empty());
}

#[test]
fn sanitise_drops_control_characters_and_keeps_tabs_as_spaces() {
    assert_eq!(sanitise("a\tb\u{7f}c\u{85}d\u{fffd}e\n", 100), "a bcde");
    assert_eq!(sanitise("abc", 0), "");
    assert_eq!(sanitise("abc", 3), "abc");
    assert_eq!(sanitise("abcd", 3), "ab…");
    let once = sanitise("a\x1b[31mlong line that is cut somewhere", 12);
    assert_eq!(sanitise(&once, 12), once);
}

/// The same thing with floating-point numbers.
fn bytes_by_float(bytes: u64) -> String {
    let units = ["B", "KiB", "MiB", "GiB", "TiB"];
    let mut size = bytes as f64;
    let mut unit = 0;
    while size >= 1024.0 && unit + 1 < units.len() {
        size /= 1024.0;
        unit += 1;
    }
    if unit == 0 {
        format!("{bytes}B")
    } else {
        format!("{size:.1}{}", units[unit])
    }
}

#[test]
fn byte_counts_read_as_floating_point_would_round_them() {
    assert_eq!(human_bytes(0), "0B");
    assert_eq!(human_bytes(1023), "1023B");
    assert_eq!(human_bytes(1024), "1.0KiB");
    assert_eq!(human_bytes(1280), "1.2KiB");
    assert_eq!(human_bytes(1792), "1.8KiB");
    assert_eq!(human_bytes(1_048_575), "1024.0KiB");
    assert_eq!(human_bytes(u64::MAX), "16777216.0TiB");

    let mut x: u64 = 88_172_645_463_325_252;
    for round in 0..20_000u32 {
        x ^= x << 13;
        x ^= x >> 7;
        x ^= x << 17;
        let bytes = x >> (round % 64);
        assert_eq!(human_bytes(bytes), bytes_by_float(bytes), "{bytes}");
    }
    for shift in 10..64 {
        for fraction in 0..41u64 {
            let bytes = (1u64 << shift) + (1u64 << shift) / 40 * fraction;
            assert_eq!(human_bytes(bytes), bytes_by_float(bytes), "{bytes}");
        }
    }
}

/// The same thing with floating-point numbers.
fn elapsed_by_float(nanos: u64) -> String {
    let elapsed = std::time::Duration::from_nanos(nanos);
    let seconds = elapsed.as_secs();
    if seconds < 60 {
        format!("{:.1}s", elapsed.as_secs_f64())
    } else {
        format!("{}m{:02}s", seconds / 60, seconds % 60)
    }
}

#[test]
fn elapsed_times_read_as_floating_point_would_round_them() {
    assert_eq!(format_elapsed(0), "0.0s");
    assert_eq!(format_elapsed(150_000_000), "0.1s");
    assert_eq!(format_elapsed(250_000_000), "0.2s");
    assert_eq!(format_elapsed(59_960_000_000), "60.0s");
    assert_eq!(format_elapsed(60_000_000_000), "1m00s");
    assert_eq!(format_elapsed(3_723_999_999_999), "62m03s");

    for tick in 0..1300u64 {
        let half = tick * 50_000_000;
        for nanos in [half.saturating_sub(1), half, half + 1] {
            assert_eq!(format_elapsed(nanos), elapsed_by_float(nanos), "{nanos}");
        }
    }
}

#[test]
fn log_records_are_split_into_lines_that_say_something() {
    let mut writer = LogWriter::new();
    assert_eq!(writer.write(b"INFO one\r\n"), 10);
    assert_eq!(writer.write(b"\n  \t\nINFO two\nlast \xff\r"), 21);
    assert_eq!(writer.emit(), vec!["INFO one", "INFO two", "last \u{fffd}\r"]);
    assert!(writer.emit().is_empty());
}

#[test]
fn a_fresh_region_has_drawn_nothing_and_numbers_from_the_start() {
    let fresh = [
        Progress::to_writer(WIDTH),
        Progress::to_terminal(true, Some(WIDTH)),
        Progress::to_terminal(false, None),
        Progress::disabled(),
        Progress::passthrough(),
        Progress::silent(),
    ];
    for mut progress in fresh {
        assert_eq!((progress.screen.next_id, progress.screen.frame), (0, 0));
        assert_eq!((progress.screen.drawn, progress.screen.cursor_hidden), (0, false));
        assert_eq!(written(&mut progress), "");
        let live = progress.live;
        let first = task(&mut progress, "zlib-1.3.1");
        assert_eq!(first.id, if live { Some(0) } else { None });
        assert_eq!(progress.nodes().first().map(|node| node.id), live.then_some(1));
    }
}
