use coolos::abi;
use coolos::boot_watchdog::{self, BootWatchdog};
use coolos::clipboard::{self, Clipboard};
use coolos::deferred::{self, DeferredQueue, DeferredWork};
use coolos::event_bus::{self, EventBus};
use coolos::interrupts::{ticks_for_millis, InterruptIndex, MousePacket};
use coolos::jobs::{self, JobState, Jobs};
use coolos::klog::{self, KernelLog};
use coolos::keyboard::{
    self, handle_driver_event, handle_usb_boot_report, pop_input, usb_usage_to_keycode, DecodedKey,
    Key, KeyCode, KeyInput, KeyQueue, KeyState,
};
use coolos::mouse::{self, MouseState};
use coolos::notifications::{self, NotificationCenter};
use coolos::pci::{bar, enable_bus_master, Header, Location};
use coolos::process_model::Signal;
use coolos::rtc::{self, RawRtcSnapshot};
use coolos::search_index::{self, SearchEntry};
use coolos::security;
use coolos::services::{self, ServiceState};
use coolos::slab::{self, SlabStats};

#[test]
fn abi_reports_version_three() {
    assert_eq!(abi::version(), 3);
    assert_eq!(abi::lines()[0], "coolOS-userspace-abi version 3");
}

#[test]
fn event_bus_keeps_the_most_recent_events() {
    let mut bus = EventBus::new();
    let mut log = KernelLog::new();
    for i in 0..100u64 {
        event_bus::emit(&mut bus, &mut log, i, "src", "kind", "detail");
    }
    assert_eq!(klog::lines(&log).last().unwrap(), "99  event src kind detail");
    assert_eq!(bus.events.len(), event_bus::MAX_EVENTS);
    assert_eq!(bus.events[0].id, 5);
    let recent = event_bus::recent(&bus, 2);
    assert_eq!(recent.len(), 2);
    assert_eq!(recent[1].id, 100);
    assert_eq!(event_bus::lines(&bus, 1), vec!["#100 t=99 src:kind detail".to_string()]);
}

#[test]
fn notifications_count_unread_until_marked_read() {
    let mut c = NotificationCenter::new();
    let mut log = KernelLog::new();
    notifications::push(&mut c, &mut log, 1, "A", "one");
    notifications::push(&mut c, &mut log, 2, "B", "two");
    assert_eq!(klog::lines(&log), vec!["1  A: one".to_string(), "2  B: two".to_string()]);
    assert_eq!(notifications::unread_count(&c), 2);
    notifications::mark_all_read(&mut c);
    assert_eq!(notifications::unread_count(&c), 0);
    assert_eq!(notifications::latest(&c, 1)[0].title, "B");
    assert_eq!(notifications::list(&c).len(), 2);
    notifications::clear(&mut c);
    assert_eq!(notifications::list(&c).len(), 0);
}

#[test]
fn jobs_progress_cancel_and_report() {
    let mut j = Jobs::new();
    let mut bus = EventBus::new();
    let mut log = KernelLog::new();
    let id = jobs::start(&mut j, &mut bus, &mut log, 7, "copy", "starting");
    assert_eq!(id, 1);
    jobs::progress(&mut j, &mut bus, &mut log, 8, id, 150, "half");
    assert_eq!(j.jobs[0].progress, 100);
    assert!(jobs::cancel(&mut j, &mut bus, &mut log, 9, id));
    assert!(jobs::is_cancelled(&j, id));
    assert!(!jobs::cancel(&mut j, &mut bus, &mut log, 9, 99));
    assert!(jobs::resume(&mut j, &mut bus, &mut log, 10, id));
    jobs::complete(&mut j, &mut bus, &mut log, 11, id, "done");
    assert_eq!(
        event_bus::lines(&bus, 10),
        vec![
            "#1 t=7 jobs:start copy".to_string(),
            "#2 t=8 jobs:running copy".to_string(),
            "#3 t=9 jobs:cancelled copy".to_string(),
            "#4 t=10 jobs:running copy".to_string(),
            "#5 t=11 jobs:complete copy".to_string(),
        ]
    );
    assert_eq!(klog::lines(&log).len(), 5);

    assert!(j.jobs[0].state == JobState::Complete);
    assert_eq!(jobs::lines(&j), vec!["#1 t=7 complete 100% copy - done".to_string()]);
    let second = jobs::start(&mut j, &mut bus, &mut log, 12, "scan", "");
    assert!(second > id);
    let empty = Jobs::new();
    assert_eq!(jobs::lines(&empty), vec!["no background jobs".to_string()]);
    assert_eq!(JobState::Failed.label(), "failed");
}

#[test]
fn deferred_queue_skips_duplicates_and_drains_in_order() {
    let mut q = DeferredQueue::new();
    deferred::enqueue(&mut q, DeferredWork::FlushKernelLog);
    deferred::enqueue(&mut q, DeferredWork::RefreshSearchIndex);
    deferred::enqueue(&mut q, DeferredWork::FlushKernelLog);
    assert_eq!(q.queue.len(), 2);
    assert_eq!(deferred::lines(&q), vec!["00 flush-kernel-log".to_string(), "01 refresh-search-index".to_string()]);
    let ran = deferred::drain_budget(&mut q, 1);
    assert!(ran == vec![DeferredWork::FlushKernelLog]);
    assert_eq!(q.queue.len(), 1);
    deferred::drain_budget(&mut q, 5);
    assert_eq!(deferred::lines(&q), vec!["deferred queue empty".to_string()]);
}

#[test]
fn clipboard_holds_text_or_paths() {
    let mut cb = Clipboard::new();
    assert_eq!(clipboard::summary(&cb), "empty");
    clipboard::set_text(&mut cb, 1, "héllo");
    assert_eq!(clipboard::summary(&cb), "text 6 bytes");
    assert_eq!(clipboard::get_text(&cb), Some("héllo".to_string()));
    assert!(clipboard::get_paths(&cb).is_none());
    clipboard::set_paths(&mut cb, 2, vec!["/A".to_string(), "/B".to_string()], true);
    assert_eq!(clipboard::summary(&cb), "2 cut path(s)");
    assert_eq!(clipboard::get_paths(&cb), Some((vec!["/A".to_string(), "/B".to_string()], true)));
    assert!(clipboard::get(&cb).is_some());
}

#[test]
fn watchdog_warns_once_per_stall() {
    let mut w = BootWatchdog::new();
    assert_eq!(boot_watchdog::tick_from_irq(&mut w, 5000), None);
    boot_watchdog::record(&mut w, 100, 3);
    assert_eq!(boot_watchdog::tick_from_irq(&mut w, 200), None);
    assert_eq!(boot_watchdog::tick_from_irq(&mut w, 100 + 720), Some(3));
    assert_eq!(boot_watchdog::tick_from_irq(&mut w, 100 + 900), None);
    boot_watchdog::complete(&mut w);
    assert_eq!(boot_watchdog::lines(&w)[0], "boot_complete=yes");
    assert_eq!(boot_watchdog::lines(&w)[1], "last_milestone=3");
}

#[test]
fn timer_and_vectors() {
    assert_eq!(ticks_for_millis(2500), 720);
    assert_eq!(ticks_for_millis(300), 87);
    assert_eq!(InterruptIndex::Mouse.as_u8(), 44);
    assert_eq!(InterruptIndex::Keyboard.as_usize(), 33);
}

#[test]
fn mouse_packets_assemble_and_move_the_cursor() {
    let mut p = MousePacket::new();
    assert_eq!(p.feed(0x00, false), None);
    assert_eq!(p.feed(0x09, false), None);
    assert_eq!(p.feed(0x05, false), None);
    assert_eq!(p.feed(0x03, false), Some([0x09, 0x05, 0x03, 0]));
    let mut m = MouseState::new();
    mouse::init_cursor(&mut m, 640, 480);
    assert_eq!(mouse::pos(&m), (320, 240));
    mouse::handle_packet(&mut m, 640, 480, 0x09, 5, 3, 0);
    assert_eq!(mouse::pos(&m), (325, 237));
    assert_eq!(mouse::buttons(&m), (true, false));
    mouse::handle_packet(&mut m, 640, 480, 0x18, 0xF0, 0, 0);
    assert_eq!(mouse::pos(&m), (309, 237));
    m.intellimouse = true;
    mouse::handle_packet(&mut m, 640, 480, 0x08, 0, 0, 0x0F);
    assert_eq!(mouse::scroll_delta(&mut m), 1);
    assert_eq!(mouse::scroll_delta(&mut m), 0);
    m.scroll = i32::MAX;
    mouse::handle_packet(&mut m, 640, 480, 0x08, 0, 0, 0x0F);
    assert_eq!(mouse::scroll_delta(&mut m), i32::MIN);
    m.x = 5_000_000;
    mouse::handle_packet(&mut m, 640, 480, 0x08, 0, 0, 0);
    assert_eq!(mouse::pos(&m).0, 639);
}

#[test]
fn acpi_reports_tables_in_registry_and_log() {
    let mut state = coolos::acpi::AcpiState::new();
    let mut reg = coolos::device_registry::DeviceRegistry::new();
    let mut log = KernelLog::new();
    let mut rsdp = vec![0u8; 36];
    rsdp[..8].copy_from_slice(b"RSD PTR ");
    rsdp[15] = 0;
    rsdp[16..20].copy_from_slice(&0x000E_0000u32.to_le_bytes());
    coolos::acpi::init(&mut state, &mut reg, &mut log, 4, Some(0xF_0000), &rsdp);
    assert!(state.rsdp_valid);
    assert_eq!(state.xsdt_addr, 0xE_0000);
    assert_eq!(reg.devices.len(), 1);
    assert_eq!(reg.devices[0].status, "tables detected");
    assert_eq!(klog::lines(&log), vec!["4  acpi: RSDP at 0xf0000".to_string()]);
    coolos::acpi::init(&mut state, &mut reg, &mut log, 5, Some(0x1000), &[0u8; 36]);
    assert!(state.rsdp_valid);
    assert_eq!(state.rsdp_addr, 0x1000);
    assert_eq!(reg.devices[0].status, "legacy reboot only");
    assert_eq!(klog::lines(&log)[1], "5  acpi: RSDP unavailable; legacy reboot path active");
}

#[test]
fn key_queue_is_first_in_first_out() {
    let mut q = KeyQueue::new();
    keyboard::push(&mut q, 'a');
    keyboard::push_input(&mut q, KeyInput { key: Key::ArrowUp, modifiers: 0xFF });
    let first = keyboard::pop_input(&mut q).unwrap();
    assert!(first.key == Key::Character('a'));
    assert_eq!(keyboard::pop(&mut q), Some('\u{F700}'));
    assert_eq!(keyboard::pop(&mut q), None);
    let k = KeyInput { key: Key::F4, modifiers: keyboard::MOD_CTRL };
    assert!(k.has_ctrl());
    assert!(!k.has_alt());
    assert_eq!(k.legacy_char(), None);
    for _ in 0..100 {
        keyboard::push(&mut q, 'x');
    }
    assert_eq!(q.items.len(), keyboard::QUEUE_SIZE - 1);
}

#[test]
fn pci_words_decode() {
    assert!(Header::read(0xFFFF_FFFF, 0, 0).is_none());
    let h = Header::read(0x1234_8086, 0x0C03_3001, 0x0080_0000).unwrap();
    assert_eq!(h.vendor_id, 0x8086);
    assert_eq!(h.device_id, 0x1234);
    assert_eq!(h.class, 0x0C);
    assert_eq!(h.subclass, 0x03);
    assert_eq!(h.prog_if, 0x30);
    assert_eq!(h.revision, 0x01);
    assert_eq!(h.header_type, 0x80);
    assert_eq!(bar(0, 0xFEBF_0004, 0x1), Some(0x1_FEBF_0000));
    assert_eq!(bar(0, 0xFEBF_0000, 0), Some(0xFEBF_0000));
    assert_eq!(bar(5, 0xFEBF_0004, 0x1), None);
    assert_eq!(bar(1, 0xC001, 0), None);
    assert_eq!(bar(2, 0, 0), None);
    assert_eq!(bar(2, 0x8, 0), Some(0));
    assert_eq!(bar(2, 0x4, 0), Some(0));
    assert_eq!(enable_bus_master(0x0001), 0x0007);
    let loc = Location { bus: 1, device: 2, function: 3 };
    assert_eq!(loc.address(0x0B), 0x8001_1308);
}

#[test]
fn services_restart_by_policy() {
    let mut bus = EventBus::new();
    let mut log = KernelLog::new();
    let mut s = services::init(&mut bus, &mut log, 1);
    assert_eq!(s.services.len(), 7);
    assert!(services::fail(&mut s, &mut bus, &mut log, 2, "EVENT-BUS"));
    assert!(services::fail(&mut s, &mut bus, &mut log, 2, "search-index"));
    assert!(!services::stop(&mut s, &mut bus, &mut log, 2, "nope"));
    services::supervise(&mut s, &mut bus, &mut log, 3);
    assert_eq!(
        event_bus::lines(&bus, 10),
        vec![
            "#1 t=1 services:boot service supervisor initialized".to_string(),
            "#2 t=2 services:failed event-bus".to_string(),
            "#3 t=2 services:failed search-index".to_string(),
            "#4 t=3 services:restart event-bus".to_string(),
        ]
    );
    assert!(s.services[0].state == ServiceState::Running);
    assert_eq!(s.services[0].restarts, 1);
    assert!(s.services[2].state == ServiceState::Failed);
    assert_eq!(services::lines(&s)[0], "01 event-bus state=running restart=always restarts=1");
}

#[test]
fn slab_counters_track_live_bytes() {
    let mut st = SlabStats::new();
    assert_eq!(slab::lines(&st), vec!["no slab-tracked allocations yet".to_string()]);
    slab::record_alloc(&mut st, "fs", 100);
    slab::record_alloc(&mut st, "fs", 50);
    slab::record_free(&mut st, "fs", 100);
    assert_eq!(slab::lines(&st), vec!["fs allocs=2 frees=1 live=1 bytes_live=50 high_water=150".to_string()]);
}

#[test]
fn security_protects_system_folders() {
    assert!(security::is_protected_path("/config"));
    assert!(security::is_protected_path("/Logs/KERNEL.TXT"));
    assert!(security::is_protected_path("/"));
    assert!(!security::is_protected_path("/Documents/a.txt"));
    assert!(!security::can_write_path("/dev/x"));
    assert!(security::can_write_path("/home"));
    assert!(security::can_read_path("/config"));
    assert_eq!(security::current_user().role, "admin");
}

#[test]
fn signals_parse_by_shell_name() {
    assert!(Signal::parse("sigterm") == Some(Signal::Term));
    assert!(Signal::parse("USR1") == Some(Signal::User1));
    assert!(Signal::parse("kill").is_none());
    assert_eq!(Signal::Int.label(), "INT");
}

fn snapshot(hour: u8, status_b: u8, year: u8, century: u8) -> RawRtcSnapshot {
    RawRtcSnapshot { second: 0x30, minute: 0x45, hour, day: 0x15, month: 0x03, year, century, status_b }
}

#[test]
fn rtc_decodes_bcd_24_hour_clock() {
    let d = rtc::decode(snapshot(0x13, 0x02, 0x24, 0x20)).unwrap();
    assert_eq!((d.year, d.month, d.day, d.hour, d.minute), (2024, 3, 15, 13, 45));
}

#[test]
fn rtc_decodes_12_hour_afternoon_and_two_digit_years() {
    let d = rtc::decode(snapshot(0x81, 0x00, 0x99, 0x00)).unwrap();
    assert_eq!((d.year, d.hour), (1999, 13));
    let d = rtc::decode(snapshot(0x12, 0x00, 0x05, 0xff)).unwrap();
    assert_eq!((d.year, d.hour), (2005, 0));
}

#[test]
fn rtc_rejects_out_of_range_registers() {
    let mut raw = snapshot(0x13, 0x02, 0x24, 0x20);
    raw.month = 0x13;
    assert!(rtc::decode(raw).is_none());
    assert_eq!(rtc::bcd_to_bin(0x59), 59);
    assert!(!rtc::is_valid(60, 0, 0, 1, 1));
}

#[test]
fn fuzzy_score_rewards_adjacent_and_whole_matches() {
    assert_eq!(search_index::fuzzy_score("anything", ""), Some(1));
    // "rea" in "README.TXT": three adjacent bytes (8 each) plus whole match (20).
    assert_eq!(search_index::fuzzy_score("README.TXT", "rea"), Some(44));
    // "rt" in "README.TXT": R at 0 (8), T later (3), no whole match.
    assert_eq!(search_index::fuzzy_score("README.TXT", "rt"), Some(11));
    assert_eq!(search_index::fuzzy_score("README.TXT", "xyz"), None);
    assert_eq!(search_index::fuzzy_score("ab", "ba"), None);
}

#[test]
fn contains_ignore_ascii_finds_any_case() {
    assert!(search_index::contains_ignore_ascii("Hello World", "WORLD"));
    assert!(search_index::contains_ignore_ascii("abc", ""));
    assert!(!search_index::contains_ignore_ascii("ab", "abc"));
    assert!(!search_index::contains_ignore_ascii("Hello", "hex"));
}

#[test]
fn score_entry_takes_best_field() {
    let entry = SearchEntry {
        path: String::from("/DOCS/NOTES.TXT"),
        name: String::from("NOTES.TXT"),
        kind: String::from("file"),
        snippet: String::from("meeting agenda"),
    };
    assert_eq!(search_index::score_entry(&entry, "notes"), Some(60));
    // Only the snippet matches: 3 + 8*5 + 20 - 4.
    assert_eq!(search_index::score_entry(&entry, "agenda"), Some(59));
    assert_eq!(search_index::score_entry(&entry, "qqq"), None);
}

#[test]
fn index_paths_join_and_skip() {
    assert_eq!(search_index::join_path("/", "A.TXT"), "/A.TXT");
    assert_eq!(search_index::join_path("/DOCS", "A.TXT"), "/DOCS/A.TXT");
    assert!(search_index::is_skipped_dir("/dev"));
    assert!(search_index::is_skipped_dir("/Logs"));
    assert!(!search_index::is_skipped_dir("/DOCS"));
}

#[test]
fn snippet_blanks_breaks_and_marks_binary() {
    assert_eq!(search_index::snippet_text(b"line one\nline\ttwo\r\n"), "line one line two  ");
    assert_eq!(search_index::snippet_text(&[0xff, 0xfe, 0x00]), "binary");
    let long = "x".repeat(50);
    assert_eq!(search_index::snippet_text(long.as_bytes()).len(), 42);
    assert_eq!(search_index::snippet_text(b""), "");
}

#[test]
fn usb_boot_reports_become_key_events() {
    assert_eq!(usb_usage_to_keycode(0x04), Some(KeyCode::A));
    assert_eq!(usb_usage_to_keycode(0x28), Some(KeyCode::Enter));
    assert_eq!(usb_usage_to_keycode(0x64), Some(KeyCode::BackSlash));
    assert_eq!(usb_usage_to_keycode(0x00), None);
    assert_eq!(usb_usage_to_keycode(0xE0), None);
    let mut prev = [0u8; 8];
    let ev = handle_usb_boot_report(&mut prev, &[0x02, 0, 0x04, 0x05, 0, 0, 0, 0]);
    assert_eq!(
        ev,
        vec![
            (KeyCode::ShiftLeft, KeyState::Down),
            (KeyCode::A, KeyState::Down),
            (KeyCode::B, KeyState::Down)
        ]
    );
    assert_eq!(prev, [0x02, 0, 0x04, 0x05, 0, 0, 0, 0]);
    let ev = handle_usb_boot_report(&mut prev, &[0, 0, 0x05, 0x06, 0, 0, 0, 0]);
    assert_eq!(
        ev,
        vec![
            (KeyCode::ShiftLeft, KeyState::Up),
            (KeyCode::C, KeyState::Down),
            (KeyCode::A, KeyState::Up)
        ]
    );
    let before = prev;
    assert!(handle_usb_boot_report(&mut prev, &[0, 0, 0x01, 0x01, 0x01, 0x01, 0x01, 0x01]).is_empty());
    assert_eq!(prev, before);
}

#[test]
fn driver_events_track_modifiers_and_shortcuts() {
    let mut q = KeyQueue::new();
    assert!(!handle_driver_event(&mut q, KeyCode::ControlLeft, KeyState::Down, None));
    assert_eq!(q.modifiers, keyboard::MOD_CTRL);
    assert!(handle_driver_event(&mut q, KeyCode::C, KeyState::Down, Some(DecodedKey::Unicode('\u{3}'))));
    let k = pop_input(&mut q).unwrap();
    assert!(k.key == Key::Character('c') && k.modifiers == keyboard::MOD_CTRL);
    assert!(!handle_driver_event(&mut q, KeyCode::ControlLeft, KeyState::Up, None));
    assert_eq!(q.modifiers, 0);
    assert!(handle_driver_event(&mut q, KeyCode::Enter, KeyState::Down, Some(DecodedKey::Unicode('\n'))));
    assert!(pop_input(&mut q).unwrap().key == Key::Enter);
    assert!(handle_driver_event(&mut q, KeyCode::ArrowUp, KeyState::Down, None));
    assert!(pop_input(&mut q).unwrap().key == Key::ArrowUp);
    assert!(!handle_driver_event(&mut q, KeyCode::F1, KeyState::Down, Some(DecodedKey::RawKey(KeyCode::F1))));
    assert!(!handle_driver_event(&mut q, KeyCode::A, KeyState::Up, Some(DecodedKey::Unicode('a'))));
}

#[test]
fn usb_mouse_reports_move_the_cursor() {
    let mut m = MouseState::new();
    mouse::init_cursor(&mut m, 640, 480);
    mouse::handle_usb_boot_report(&mut m, 640, 480, &[0x01, 5, 0xFE]);
    assert_eq!(mouse::pos(&m), (325, 238));
    assert_eq!(mouse::buttons(&m), (true, false));
    mouse::handle_usb_boot_report(&mut m, 640, 480, &[0x02, 0x80, 0x7F, 0xFF]);
    assert_eq!(mouse::pos(&m), (197, 365));
    assert_eq!(mouse::buttons(&m), (false, true));
    assert_eq!(mouse::scroll_delta(&mut m), 1);
    mouse::handle_usb_boot_report(&mut m, 640, 480, &[0x01, 9]);
    assert_eq!(mouse::pos(&m), (197, 365));
}
