use torchrust::config::{default_locale, parse_exclude_list, tax_enabled_setting};
use torchrust::log_path::{
    is_tmp_log_name, manual_log_path, resolve_log_path, select_tmp_log, LogPathConfig, TmpLogFile,
};
use torchrust::log_watcher::{
    initial_read_position, plan_poll, poll_interval, position_after_read, LogWatcher,
};
use torchrust::text::{chars_of, split_chars, string_of, trimmed};
use torchrust::value::i64_to_text;

#[test]
fn default_locale_is_korean() {
    assert_eq!(default_locale(), "ko");
}

#[test]
fn exclude_list_is_split_and_trimmed() {
    assert_eq!(parse_exclude_list(" a, b ,,c , "), vec!["a".to_string(), "b".to_string(), "c".to_string()]);
    assert!(parse_exclude_list("").is_empty());
}

#[test]
fn tax_setting_is_one() {
    assert!(tax_enabled_setting(Some(1)));
    assert!(!tax_enabled_setting(Some(2)));
    assert!(!tax_enabled_setting(None));
}

#[test]
fn manual_path_is_trimmed() {
    let c = LogPathConfig { log_path: Some("  /x/UE_game.log ".to_string()), use_tmp_log: false };
    assert_eq!(manual_log_path(&c), Some("/x/UE_game.log".to_string()));
    let blank = LogPathConfig { log_path: Some("   ".to_string()), use_tmp_log: false };
    assert_eq!(manual_log_path(&blank), None);
    let none = LogPathConfig { log_path: None, use_tmp_log: true };
    assert_eq!(manual_log_path(&none), None);
}

#[test]
fn tmp_log_names() {
    assert!(is_tmp_log_name("UE_game.log"));
    assert!(is_tmp_log_name("UE_game-backup.log"));
    assert!(!is_tmp_log_name("UE_game.txt"));
    assert!(!is_tmp_log_name("game.log"));
}

#[test]
fn tmp_log_picks_newest() {
    let f = |n: &str, m: i128| TmpLogFile { name: n.to_string(), modified: m };
    assert_eq!(select_tmp_log(&vec![]), None);
    assert_eq!(select_tmp_log(&vec![f("UE_game-1.log", 9), f("UE_game.log", 1)]), Some(0));
    assert_eq!(select_tmp_log(&vec![f("UE_game.log", 1), f("UE_game2.log", 2)]), Some(1));
    assert_eq!(select_tmp_log(&vec![f("UE_game-1.log", 3), f("UE_game-2.log", 9), f("UE_game-3.log", 9)]), Some(1));
}

#[test]
fn log_path_priority() {
    let tmp = LogPathConfig { log_path: None, use_tmp_log: true };
    let no_tmp = LogPathConfig { log_path: None, use_tmp_log: false };
    assert_eq!(resolve_log_path(&tmp, Some("m"), Some("t"), Some("d")), Some("m"));
    assert_eq!(resolve_log_path(&tmp, None, Some("t"), Some("d")), Some("t"));
    assert_eq!(resolve_log_path(&no_tmp, None, Some("t"), Some("d")), Some("d"));
    assert_eq!(resolve_log_path::<&str>(&tmp, None, None, None), None);
}

#[test]
fn poll_interval_is_clamped() {
    assert_eq!(poll_interval(0), 1);
    assert_eq!(poll_interval(5), 5);
    assert_eq!(poll_interval(100), 10);
}

#[test]
fn poll_steps() {
    assert_eq!(initial_read_position(true, 500), 0);
    assert_eq!(initial_read_position(false, 500), 500);
    let s = plan_poll(100, 100, false);
    assert_eq!((s.position, s.read_len), (100, 0));
    let s = plan_poll(50, 100, false);
    assert_eq!((s.position, s.read_len), (50, 0));
    let s = plan_poll(1000, 100, false);
    assert_eq!((s.position, s.read_len), (100, 900));
    assert_eq!(position_after_read(&s, 1000), 1000);
    let s = plan_poll(10_000_000, 0, false);
    assert_eq!(s.read_len, 65536);
    let s = plan_poll(10_000_000, 0, true);
    assert_eq!(s.read_len, 2097152);
    let s = plan_poll(65537, 0, true);
    assert_eq!(s.read_len, 65537);
}

#[test]
fn watcher_stop_flag() {
    let w = LogWatcher::new();
    assert!(!w.is_stopped());
    let flag = w.stop_flag();
    w.stop();
    assert!(w.is_stopped());
    assert!(flag.load(std::sync::atomic::Ordering::SeqCst));
}

#[test]
fn text_helpers() {
    let v = chars_of(" \t a b \u{3000}");
    assert_eq!(string_of(&trimmed(&v)), "a b");
    let pieces: Vec<String> = split_chars(&chars_of("a\n\nb"), '\n').iter().map(|p| string_of(p)).collect();
    assert_eq!(pieces, vec!["a".to_string(), "".to_string(), "b".to_string()]);
    assert_eq!(string_of(&i64_to_text(0)), "0");
    assert_eq!(string_of(&i64_to_text(-123)), "-123");
    assert_eq!(string_of(&i64_to_text(i64::MIN)), "-9223372036854775808");
}
