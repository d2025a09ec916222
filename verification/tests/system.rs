//! What the system tells, and starting with it.

use deskfence::autostart::{
    autostart_known, get_autostart, migrate_autostart_to_task, schtasks_line, set_autostart,
    set_autostart_first, set_autostart_next, wallpaper_signature, AutostartCache, Migration, Step,
};
use deskfence::system::{
    drop_effect, drop_verdict, font_px_from_lfheight, icon_size_or_default, is_light_theme,
    item_spacing, log_is_full, log_line, mark_interaction, pids_by_name, shell_display_name,
    spacing_twips, start_desktop_watcher, suggested_rect, system_accent, terminate_step, verb_is,
    z_intent_active, z_scope, z_scope_end, Ending, Moment, Process, ZIntent, DRAGDROP_S_CANCEL,
    DRAGDROP_S_DROP, LOG_LIMIT,
};
use deskfence::utf16::wide;

fn texts<const N: usize>(v: [&str; N]) -> Vec<String> {
    v.map(str::to_string).to_vec()
}

#[test]
fn suggested_rect_preserves_position_and_size() {
    assert_eq!(suggested_rect(-1920, 80, -1520, 380), Some((-1920, 80, 400, 300)));
    assert_eq!(suggested_rect(10, 20, 10, 30), None);
    assert_eq!(suggested_rect(10, 20, 30, 20), None);
    assert_eq!(suggested_rect(i32::MIN, 0, i32::MAX, 10), None);
}

#[test]
fn implausible_sizes_are_replaced() {
    assert_eq!(icon_size_or_default(Some(32)), 32);
    assert_eq!(icon_size_or_default(Some(7)), 48);
    assert_eq!(icon_size_or_default(Some(257)), 48);
    assert_eq!(icon_size_or_default(None), 48);
    assert_eq!(font_px_from_lfheight(-12), 12);
    assert_eq!(font_px_from_lfheight(0), 12);
    assert_eq!(font_px_from_lfheight(3), 8);
    assert_eq!(font_px_from_lfheight(i32::MIN), 48);
    assert_eq!(item_spacing(0x0064_004b), Some((75, 100)));
    assert_eq!(item_spacing(0x0064_0001), None);
    assert_eq!(spacing_twips(" -1125 "), Some(1125));
    assert_eq!(spacing_twips("-2147483648"), Some(2147483648));
    assert_eq!(spacing_twips("x"), None);
}

#[test]
fn names_and_verbs_come_from_filled_buffers() {
    assert!(verb_is(Some(&wide("ReName")), "rename"));
    assert!(!verb_is(Some(&wide("delete")), "rename"));
    assert!(!verb_is(None, "rename"));
    assert_eq!(shell_display_name(Some(&wide("名")), "x"), "名");
    assert_eq!(shell_display_name(Some(&wide("")), "x"), "x");
    assert_eq!(shell_display_name(None, "x"), "x");
}

#[test]
fn colours_of_the_system() {
    assert!(is_light_theme(Some(1)));
    assert!(!is_light_theme(Some(0)));
    assert!(!is_light_theme(None));
    assert_eq!(system_accent(Some(0xff33_2211)), Some((0x11, 0x22, 0x33)));
    assert_eq!(system_accent(Some(0)), None);
    assert_eq!(system_accent(None), None);
}

#[test]
fn lines_of_the_log() {
    let m = Moment { year: 2026, month: 9, day: 8, hour: 7, minute: 6, second: 5 };
    assert_eq!(log_line(&m, "hello"), "[2026-09-08 07:06:05] hello");
    assert!(!log_is_full(LOG_LIMIT));
    assert!(log_is_full(LOG_LIMIT + 1));
}

#[test]
fn other_instances_are_found_and_ended() {
    let list = vec![
        Process { name: "DeskFence.exe".into(), pid: 1 },
        Process { name: "other.exe".into(), pid: 2 },
        Process { name: "deskfence.EXE".into(), pid: 3 },
    ];
    assert_eq!(pids_by_name(&list, "deskfence.exe", 3), vec![1]);
    assert!(terminate_step(0, 9999, 10) == Ending::Done);
    assert!(terminate_step(1, 10, 10) == Ending::Again);
    assert!(terminate_step(1, 11, 10) == Ending::GivenUp);
}

#[test]
fn one_directory_is_watched_once() {
    assert_eq!(start_desktop_watcher(Some("C:\\U"), Some("C:\\P")), texts(["C:\\U", "C:\\P"]));
    assert_eq!(start_desktop_watcher(Some("C:\\Ä"), Some("c:\\ä")), texts(["C:\\Ä"]));
    assert_eq!(start_desktop_watcher(None, Some("C:\\P")), texts(["C:\\P"]));
    assert!(start_desktop_watcher(None, None).is_empty());
}

#[test]
fn scopes_nest() {
    let mut current: Option<ZIntent> = None;
    let outer = z_scope(&mut current, ZIntent::Drag);
    let inner = z_scope(&mut current, ZIntent::Repair);
    assert!(current == Some(ZIntent::Repair));
    z_scope_end(&mut current, inner);
    assert!(current == Some(ZIntent::Drag));
    assert!(z_intent_active(&current));
    z_scope_end(&mut current, outer);
    assert!(!z_intent_active(&current));
    let mut last = 1;
    mark_interaction(&mut last, 7);
    assert_eq!(last, 7);
}

#[test]
fn drags_to_elsewhere_end_by_the_buttons() {
    assert_eq!(drop_verdict(true, true, false), DRAGDROP_S_CANCEL);
    assert_eq!(drop_verdict(false, true, true), DRAGDROP_S_CANCEL);
    assert_eq!(drop_verdict(false, false, false), DRAGDROP_S_DROP);
    assert_eq!(drop_verdict(false, true, false), 0);
    assert_eq!(drop_effect(4), 7);
}

#[test]
fn an_answer_about_starting_is_kept() {
    let mut cache = AutostartCache::Unknown;
    assert_eq!(autostart_known(cache), None);
    assert!(get_autostart(&mut cache, false, true));
    assert!(get_autostart(&mut cache, false, false));
    assert_eq!(autostart_known(cache), Some(true));
    assert!(!set_autostart(&mut cache, false, false));
    assert_eq!(autostart_known(cache), Some(true));
    assert!(set_autostart(&mut cache, false, true));
    assert!(!get_autostart(&mut cache, true, true));
}

#[test]
fn an_old_start_value_becomes_a_task() {
    assert!(migrate_autostart_to_task(false, true, false) == Migration::TryTask);
    assert!(migrate_autostart_to_task(false, true, true) == Migration::DropRunValue);
    assert!(migrate_autostart_to_task(true, true, false) == Migration::Nothing);
    assert!(migrate_autostart_to_task(false, false, true) == Migration::Nothing);
}

fn walk(on: bool, refused: &[Step]) -> (Vec<Step>, bool) {
    let mut s = set_autostart_first("a.exe", on);
    let mut seen = Vec::new();
    loop {
        if let Step::Done { well } = s {
            return (seen, well);
        }
        seen.push(s);
        assert!(seen.len() < 10);
        s = set_autostart_next(s, !refused.contains(&s));
    }
}

#[test]
fn starting_is_switched_on_by_a_task_or_by_a_value() {
    let (seen, well) = walk(true, &[]);
    assert!(well && !seen.contains(&Step::WriteRunValue) && seen.contains(&Step::DropRunValue));
    let (seen, well) = walk(true, &[Step::CreateTask]);
    assert!(well && seen.contains(&Step::MarkFailed) && seen.contains(&Step::WriteRunValue));
    let (_, well) = walk(true, &[Step::CreateTask, Step::OpenRunKey]);
    assert!(!well);
    let (_, well) = walk(true, &[Step::QueryTask, Step::WriteRunValue]);
    assert!(!well);
    let (seen, well) = walk(false, &[]);
    assert!(well && seen.contains(&Step::DeleteTask));
    assert!(set_autostart_first("", true) == Step::Done { well: false });
}

#[test]
fn command_lines_and_signatures() {
    assert_eq!(
        schtasks_line("C:\\Windows", &texts(["/Query", "/TN", "x"])),
        "\"C:\\Windows\\System32\\schtasks.exe\" /Query /TN x"
    );
    assert_eq!(wallpaper_signature("1", "2", &texts(["a", "b"])), "1|2|a\u{1}b");
}
