use coolos::sysmon::{clock, heap_ratio, update, SysMonState};
use coolos::terminal::{
    echo_text, normalize_path, not_found_text, parse_command, parse_usize, resolve_path,
    split_words, uptime_text, Command,
};

fn chars(s: &str) -> Vec<char> {
    s.chars().collect()
}

fn text(v: &[char]) -> String {
    v.iter().collect()
}

#[test]
fn paths_normalize_and_resolve() {
    assert_eq!(text(&normalize_path(&chars("/a//b/./c/../d/"))), "/a/b/d");
    assert_eq!(text(&normalize_path(&chars("/../.."))), "/");
    assert_eq!(text(&resolve_path("/home", "docs")), "/home/docs");
    assert_eq!(text(&resolve_path("/home/", "../etc")), "/etc");
    assert_eq!(text(&resolve_path("/home", "/abs/./x")), "/abs/x");
}

#[test]
fn lines_split_into_words() {
    let w = split_words(&chars("  echo   hello\tworld  "));
    let w: Vec<String> = w.iter().map(|x| text(x)).collect();
    assert_eq!(w, vec!["echo", "hello", "world"]);
    assert!(split_words(&chars("   ")).is_empty());
    assert_eq!(parse_usize(&chars("42")), Some(42));
    assert_eq!(parse_usize(&chars("4x")), None);
    assert_eq!(parse_usize(&chars("")), None);
}

#[test]
fn commands_are_recognised() {
    assert!(matches!(parse_command("   ", "/"), Command::Empty));
    match parse_command("echo hi there", "/") {
        Command::Echo(w) => {
            assert_eq!(echo_text(&w), "hi there \n");
        }
        _ => panic!("echo"),
    }
    match parse_command("cd ..", "/home/user") {
        Command::Cd(p) => assert_eq!(text(&p), "/home"),
        _ => panic!("cd"),
    }
    match parse_command("cd", "/home") {
        Command::Cd(p) => assert_eq!(text(&p), "/"),
        _ => panic!("cd root"),
    }
    match parse_command("ls", "/home") {
        Command::Ls(p) => assert_eq!(text(&p), "/home"),
        _ => panic!("ls"),
    }
    match parse_command("touch", "/") {
        Command::Usage(m) => assert_eq!(text(&m), "usage: touch <path>\n"),
        _ => panic!("touch usage"),
    }
    match parse_command("cat notes.txt", "/docs") {
        Command::Cat(p) => assert_eq!(text(&p), "/docs/notes.txt"),
        _ => panic!("cat"),
    }
    match parse_command("kill abc", "/") {
        Command::Usage(m) => assert_eq!(text(&m), "usage: kill <pid>\n"),
        _ => panic!("kill usage"),
    }
    assert!(matches!(parse_command("wait 7", "/"), Command::Wait(7)));
    match parse_command("clip a  b", "/") {
        Command::Clip(t) => assert_eq!(text(&t), "a b"),
        _ => panic!("clip"),
    }
    match parse_command("exec app x y", "/bin") {
        Command::Exec(p, a) => {
            assert_eq!(text(&p), "/bin/app");
            assert_eq!(a.len(), 2);
        }
        _ => panic!("exec"),
    }
    match parse_command("uptime", "/") {
        Command::Other(n, a) => {
            assert_eq!(text(&n), "uptime");
            assert!(a.is_empty());
        }
        _ => panic!("uptime"),
    }
    match parse_command("frobnicate", "/") {
        Command::Unknown(n) => assert_eq!(not_found_text(&n), "frobnicate: not found. type help\n"),
        _ => panic!("unknown"),
    }
}

#[test]
fn uptime_reads_hours_minutes_seconds() {
    assert_eq!(uptime_text(0), "Up: 0:00:00  (0 ticks)\n");
    assert_eq!(uptime_text(288 * 3725), "Up: 1:02:05  (1072800 ticks)\n");
}

#[test]
fn system_monitor_readout() {
    let mut st = SysMonState::new(520, 300);
    assert!(update(&mut st, 10, 520, 300, Some("GenuineIntel"), 1, 2, 0).is_none());
    let r = update(&mut st, 288 * 3725, 520, 300, Some("GenuineIntel"), 512, 2048, 640).unwrap();
    assert_eq!(r.vendor, "GenuineIntel");
    assert_eq!(r.heap_line, "512 / 2048 B");
    assert_eq!(r.heap_ratio, 25);
    assert_eq!(r.clock, "01:02:05");
    assert_eq!(r.tick_line, "1072800 ticks");
    assert_eq!(r.counter_line, "640");
    assert_eq!(r.pulse, 10);
    assert_eq!(st.last_redraw_tick, 288 * 3725);
    let r = update(&mut st, 288 * 3725 + 1, 600, 300, None, 0, 0, 0).unwrap();
    assert_eq!(r.vendor, "unknown");
    assert_eq!(r.heap_ratio, 0);
    assert_eq!(r.pulse, 8);
    assert_eq!(heap_ratio(usize::MAX, 10), 100);
    assert_eq!(clock(288 * 90_000), "01:00:00");
}

#[test]
fn colour_picker_grid_and_labels() {
    assert_eq!(coolos::colorpicker::swatch_at(25, 60), Some(0));
    assert_eq!(coolos::colorpicker::swatch_at(75, 60), Some(1));
    assert_eq!(coolos::colorpicker::swatch_at(25, 210), Some(12));
    assert_eq!(coolos::colorpicker::swatch_at(10, 60), None);
    assert_eq!(coolos::colorpicker::swatch_at(230, 60), None);
    assert_eq!(coolos::colorpicker::color(11), ("Lt Cyan", 0x55FFFF));
    assert_eq!(coolos::colorpicker::hex_label(0x55FFFF), "#55FFFF");
    assert_eq!(coolos::colorpicker::rgb_label(0xAA5500), "R 170  G 85  B 0");
    assert_eq!(coolos::colorpicker::blend_color(0x000000, 0xFFFFFF, 255), 0xFFFFFF);
    assert_eq!(coolos::colorpicker::blend_color(0xFF0000, 0x000000, 0), 0xFF0000);
    assert_eq!(coolos::colorpicker::blend_color(0x0000AA, 0x051525, 20), 0x0001A0);
    assert_eq!(coolos::colorpicker::channel_fill(140, 255), 138);
    assert_eq!(coolos::colorpicker::channel_fill(140, 85), 46);
}

#[test]
fn text_viewer_scrolls_with_j_and_k() {
    use_viewer();
}

fn use_viewer() {
    let about = coolos::textviewer::about_lines();
    assert_eq!(about[0], " coolOS v1.16");
    assert_eq!(about.len(), 32);
    let mut v = coolos::textviewer::new_view(coolos::textviewer::document("a\nb\nc\nd\n"));
    assert_eq!(v.lines.len(), 4);
    coolos::textviewer::fit(&mut v, 70 + 24);
    assert_eq!(v.rows, 2);
    assert!(!coolos::textviewer::handle_key(&mut v, 'k'));
    assert!(coolos::textviewer::handle_key(&mut v, 'j'));
    assert!(coolos::textviewer::handle_key(&mut v, 'J'));
    assert!(!coolos::textviewer::handle_key(&mut v, 'j'));
    assert_eq!(v.scroll, 2);
    assert_eq!(coolos::textviewer::visible(&v), vec!["c".to_string(), "d".to_string()]);
    assert_eq!(coolos::textviewer::footer(&v), "j/k scroll   line 3/4");
    assert_eq!(coolos::textviewer::progress(&v), 100);
    assert!(!coolos::textviewer::handle_key(&mut v, 'x'));
    assert!(coolos::textviewer::handle_key(&mut v, 'k'));
    assert!(coolos::textviewer::handle_scroll(&mut v, -1));
    assert_eq!(v.scroll, 0);
    assert!(coolos::textviewer::handle_scroll(&mut v, 5));
    assert_eq!(v.scroll, 2);
    assert_eq!(coolos::textviewer::document(""), vec!["(empty file)".to_string()]);
}

#[test]
fn colour_picker_renders_swatches_and_preview() {
    let stride = 480usize;
    let height = 300usize;
    let mut buf = vec![0u32; stride * height];
    coolos::colorpicker::render(Some(11), &mut buf, stride, height);
    let px = |x: usize, y: usize| buf[y * stride + x];
    assert_eq!(px(30, 62), 0x000000);
    assert_eq!(px(180, 162), 0x55FFFF);
    assert_eq!(px(250, 110), 0x55FFFF);
    assert_eq!(px(5, 1), coolos::colorpicker::ACCENT);
    assert_eq!(px(5, 40), coolos::colorpicker::BG_A);
    assert_eq!(px(5, 46), coolos::colorpicker::BG_B);
    assert_eq!(px(167, 149), coolos::colorpicker::ACCENT);
    let drawn_text = (12..20).any(|y| (18..106).any(|x| px(x, y) == coolos::colorpicker::LABEL));
    assert!(drawn_text);
    assert_ne!(coolos::canvas::glyph('A'), [0u8; 8]);
    assert_eq!(coolos::canvas::glyph('\u{263A}'), coolos::canvas::glyph(' '));
}

#[test]
fn help_and_info_output() {
    let help = coolos::terminal::help_text();
    assert!(help.starts_with("Commands:\n  help              list commands\n  clear             clear terminal\n"));
    assert!(help.contains("  http <host> [path]build basic HTTP request\n"));
    assert_eq!(help.lines().count(), 1 + coolos::terminal::HELP_COUNT);
    assert_eq!(
        coolos::terminal::info_text(2 * 1048576 + 5, 8 * 1048576, 3, Some("GenuineIntel"), Some("  Intel CPU  "), "/home"),
        "Heap  : 2 MB / 8 MB\nTasks : 3\nCPU   : GenuineIntel\nBrand : Intel CPU\nCWD   : /home\n"
    );
    assert_eq!(
        coolos::terminal::info_text(1000, 2048, 0, None, None, "/"),
        "Heap  : 1000 B / 2 KB\nTasks : 0\nCWD   : /\n"
    );
}
