use qurb::size::human;
use qurb::tray::host::{advice, available};
use qurb::tray::icon::{paint, Look, SIZE};
use qurb::tray::ui::{
    ago, devices, directory, menu, next_line, shorten, stopped, tooltip, Item, Recent, State,
    Status,
};
use qurb::tray::window::{allowance, recent_text};

/// How much of each pixel the ring covers.
fn coverage(look: Look) -> Vec<Option<u8>> {
    let centre = (SIZE as f32 - 1.0) / 2.0;
    let outer = SIZE as f32 * 0.46;
    let inner = SIZE as f32 * 0.28;
    let mut cover = Vec::new();
    for y in 0..SIZE {
        for x in 0..SIZE {
            let dx = x as f32 - centre;
            let dy = y as f32 - centre;
            let distance = (dx * dx + dy * dy).sqrt();
            let ring = (outer - distance).clamp(0.0, 1.0) * (distance - inner).clamp(0.0, 1.0);
            let gap = look.has_gap() && (-1.2..-0.35).contains(&dy.atan2(dx));
            let covered = if gap { 0.0 } else { ring };
            cover.push(if covered > 0.0 {
                Some((covered.clamp(0.0, 1.0) * 255.0) as u8)
            } else {
                None
            });
        }
    }
    cover
}

fn render(look: Look) -> (Vec<u8>, u32, u32) {
    paint(look, &coverage(look))
}

fn status() -> Status {
    Status {
        state: State::Starting,
        summary: "starting".to_string(),
        files: 0,
        bytes_on_disk: 0,
        peers: 0,
        peers_reachable: 0,
        recent: Vec::new(),
        problem: None,
        used: 0,
    }
}

#[test]
fn an_icon_is_the_size_it_claims() {
    let (pixels, w, h) = render(Look::Settled);
    assert_eq!(w, SIZE);
    assert_eq!(h, SIZE);
    assert_eq!(pixels.len(), (SIZE * SIZE * 4) as usize);
}

/// Every look must actually draw something. An icon that renders empty is
/// invisible in the tray, which is indistinguishable from the program not
/// running, the one thing this must never look like.
#[test]
fn every_look_draws_visible_pixels() {
    for look in [Look::Settled, Look::Working, Look::Alone, Look::Problem] {
        let (pixels, _, _) = render(look);
        let lit = pixels.chunks(4).filter(|p| p[3] > 0).count();
        assert!(lit > 50, "{look:?} drew only {lit} visible pixels");
    }
}

/// The looks must be distinguishable, or the icon says nothing.
#[test]
fn the_looks_differ_from_each_other() {
    let settled = render(Look::Settled).0;
    for look in [Look::Working, Look::Alone, Look::Problem] {
        assert_ne!(render(look).0, settled, "{look:?} looks identical to Settled");
    }
}

#[test]
fn each_state_has_its_look() {
    assert_eq!(Look::from(State::Starting), Look::Working);
    assert_eq!(Look::from(State::Working), Look::Working);
    assert_eq!(Look::from(State::UpToDate), Look::Settled);
    assert_eq!(Look::from(State::Alone), Look::Alone);
    assert_eq!(Look::from(State::Problem), Look::Problem);
}

#[test]
fn a_covered_pixel_has_the_colour_of_the_look() {
    let mut cover = vec![None; 1024];
    cover[33] = Some(200);
    let (pixels, _, _) = paint(Look::Problem, &cover);
    assert_eq!(&pixels[132..136], &[0xD9, 0x4B, 0x2B, 200]);
    assert!(pixels[..132].iter().all(|b| *b == 0));
    assert!(pixels[136..].iter().all(|b| *b == 0));
}

#[test]
fn a_long_path_keeps_its_filename() {
    let long = "Documents/Projects/2026/quarterly/attachments/the-actual-file.pdf";
    let short = shorten(long);
    assert!(short.chars().count() <= 32, "still {} chars", short.chars().count());
    assert!(short.ends_with("the-actual-file.pdf"), "lost the filename: {short}");
}

#[test]
fn a_short_path_is_untouched() {
    assert_eq!(shorten("notes.txt"), "notes.txt");
}

#[test]
fn a_path_of_the_right_length_is_untouched() {
    let fits = "a".repeat(32);
    assert_eq!(shorten(&fits), fits);
    let long = format!("b{fits}");
    assert_eq!(shorten(&long), format!("…{}", "a".repeat(31)));
}

/// "no paired devices" and "none reachable" mean different things and must
/// never be conflated: one is a setup step, the other is a network problem.
#[test]
fn device_counts_distinguish_unpaired_from_unreachable() {
    let mut status = status();
    assert_eq!(devices(&status), "no paired devices");

    status.peers = 2;
    status.peers_reachable = 0;
    assert_eq!(devices(&status), "2 devices · none reachable");

    status.peers_reachable = 2;
    assert_eq!(devices(&status), "2 devices");

    status.peers_reachable = 1;
    assert_eq!(devices(&status), "1 of 2 devices reachable");
}

#[test]
fn sizes_read_as_people_write_them() {
    assert_eq!(human(0), "0 B");
    assert_eq!(human(999), "999 B");
    assert_eq!(human(1536), "1.5 KB");
    assert_eq!(human(4_876_562), "4.7 MB");
}

/// The figures are those that floating-point arithmetic gives.
#[test]
fn sizes_are_rounded_as_floating_point_does() {
    fn by_float(bytes: u64) -> String {
        let units = ["B", "KB", "MB", "GB", "TB"];
        let mut value = bytes as f64;
        let mut unit = 0;
        while value >= 1024.0 && unit < 4 {
            value /= 1024.0;
            unit += 1;
        }
        if unit == 0 {
            format!("{bytes} B")
        } else {
            format!("{value:.1} {}", units[unit])
        }
    }
    let mut sample: Vec<u64> = vec![
        1023, 1024, 1075, 1076, 1280, 1331, 1792, 1048575, 1048576, 1310720, u64::MAX,
        u64::MAX - 1024, (1 << 53) + 1, (1 << 60) + 12345, 9007199254740993, 1125899906842624,
        1153202979583557632, 1153202979583557633, 1153202979583557759, 109951162777,
    ];
    let mut x: u64 = 88172645463325252;
    for i in 0..4000u32 {
        x ^= x << 13;
        x ^= x >> 7;
        x ^= x << 17;
        sample.push(x >> (i % 64));
    }
    // Exactly halfway between two figures, in every unit.
    for shift in [10, 20, 30, 40] {
        for k in 1..400u64 {
            sample.push(((2 * k + 1) << shift) / 20);
            sample.push((k << shift) + (1 << shift) / 4);
            sample.push((k << shift) + (1 << shift) / 4 * 3);
        }
    }
    for bytes in sample {
        assert_eq!(human(bytes), by_float(bytes), "for {bytes}");
    }
}

#[test]
fn times_read_as_people_say_them() {
    assert_eq!(ago(None), "just now");
    assert_eq!(ago(Some(59)), "just now");
    assert_eq!(ago(Some(60)), "1m ago");
    assert_eq!(ago(Some(3599)), "59m ago");
    assert_eq!(ago(Some(3600)), "1h ago");
    assert_eq!(ago(Some(86399)), "23h ago");
    assert_eq!(ago(Some(86400)), "1d ago");
}

#[test]
fn the_menu_says_everything_in_order() {
    let mut s = status();
    s.summary = "up to date".to_string();
    s.files = 1;
    s.bytes_on_disk = 1536;
    s.peers = 1;
    s.peers_reachable = 1;
    s.problem = Some("disk full".to_string());
    for i in 0..7 {
        s.recent.push(Recent { path: format!("f{i}"), elapsed: Some(120) });
    }
    let text = |t: &str| Item::Text(t.to_string());
    assert_eq!(
        menu(&s),
        vec![
            text("qurb — up to date"),
            text("1 file · 1.5 KB · 1 device"),
            Item::Separator,
            text("Recently synced"),
            text("    f0   2m ago"),
            text("    f1   2m ago"),
            text("    f2   2m ago"),
            text("    f3   2m ago"),
            text("    f4   2m ago"),
            Item::Separator,
            text("⚠ disk full"),
            Item::Separator,
            Item::OpenFolder,
            Item::Quit,
        ]
    );
}

#[test]
fn a_quiet_menu_is_short() {
    let items = menu(&status());
    assert_eq!(items.len(), 5);
    assert_eq!(items[1], Item::Text("0 files · 0 B · no paired devices".to_string()));
    assert_eq!(tooltip(&status()), "qurb — starting\nno paired devices");
}

#[test]
fn a_line_is_printed_once() {
    let mut s = status();
    let line = next_line(&s, "").unwrap();
    assert_eq!(line, "qurb: starting — 0 files, no paired devices");
    assert_eq!(next_line(&s, &line), None);
    s.files = 1;
    assert_eq!(next_line(&s, &line).unwrap(), "qurb: starting — 1 file, no paired devices");
}

#[test]
fn the_last_problem_is_what_is_told() {
    let mut s = status();
    assert_eq!(stopped(&s), "the daemon stopped");
    s.problem = Some("no network".to_string());
    assert_eq!(stopped(&s), "no network");
}

#[test]
fn the_directory_is_the_one_given_or_the_usual_one() {
    assert_eq!(directory(Some("/x"), None, false), Ok("/x".to_string()));
    assert_eq!(directory(None, Some("/home/u"), true), Ok("/home/u/qurb".to_string()));
    assert_eq!(
        directory(None, None, true),
        Err("no HOME set, and no directory given".to_string())
    );
    assert!(directory(None, Some("/home/u"), false).unwrap_err().starts_with(
        "no directory given, and /home/u/qurb is not set up."
    ));
}

#[test]
fn the_allowance_says_what_is_left() {
    let none = allowance(0, 1536);
    assert_eq!(none.bar, "1.5 KB used");
    assert_eq!(none.chosen, "No limit — qurb will use what it needs.");
    let under = allowance(4096, 1024);
    assert_eq!(under.bar, "1.0 KB of 4.0 KB");
    assert_eq!(under.chosen, "3.0 KB free within the allowance.");
    let over = allowance(1024, 4096);
    assert_eq!(
        over.chosen,
        "Over by 3.0 KB. qurb keeps files no other device has, even to stay under."
    );
}

#[test]
fn recent_files_come_one_to_a_line() {
    assert_eq!(recent_text(&Vec::new()), "Nothing yet.");
    let recent: Vec<Recent> =
        (0..7).map(|i| Recent { path: format!("f{i}"), elapsed: None }).collect();
    assert_eq!(
        recent_text(&recent),
        "f0   just now\nf1   just now\nf2   just now\nf3   just now\nf4   just now"
    );
}

#[test]
fn a_tray_needs_a_host() {
    let with = vec!["org.a".to_string(), "org.kde.StatusNotifierWatcher-1".to_string()];
    assert_eq!(available(&with), Ok(()));
    let without = vec!["org.kde.StatusNotifier".to_string()];
    assert_eq!(
        available(&without),
        Err("no StatusNotifierWatcher on the session bus".to_string())
    );
}

#[test]
fn advice_depends_on_the_desktop() {
    assert!(advice("ubuntu:gnome").starts_with("  GNOME removed the system tray."));
    assert!(advice("KDE").starts_with("  Nothing on this desktop"));
    assert!(advice("").starts_with("  Nothing on this desktop"));
    assert!(advice("GNOM").starts_with("  Nothing on this desktop"));
}
