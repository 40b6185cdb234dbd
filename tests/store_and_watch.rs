use vfx_launcher::locks::ScanTokens;
use vfx_launcher::models::split_setting_list;
use vfx_launcher::config::{get_config, Config, DatabaseConfig, PathsConfig};
use vfx_launcher::paths::{get_database_path, get_network_database_path, get_os_type, normalize_path, OsType};
use vfx_launcher::scan::scan_snapshot;
use vfx_launcher::store::{FileStore, PersistError};
use vfx_launcher::tree::DirTree;
use vfx_launcher::watch::{
    listener_step, watch_dirs, ChangeKind, ListenerAction, ListenerEvent, ListenerState, WatchRegistry,
};

fn strings(v: &[&str]) -> Vec<String> {
    v.iter().map(|s| s.to_string()).collect()
}

fn populated_tree() -> DirTree {
    let mut t = DirTree::new("proj");
    let comp = t.add_dir(0, "comp").unwrap();
    assert!(t.add_file(comp, "a_v001.nk", 0));
    assert!(t.add_file(comp, "a_v002.nk", 0));
    t
}

fn paths_of(store: &FileStore, pid: i64) -> Vec<String> {
    let mut v: Vec<String> = store.files_of(pid).iter().map(|f| f.relative_path.clone()).collect();
    v.sort();
    v
}

#[test]
fn replace_all_twice_is_replace_once() {
    let files = scan_snapshot(1, "/proj", &populated_tree(), &Vec::new(), &strings(&["comp"]), "t");
    let mut once = FileStore::new();
    once.add_project(1);
    assert_eq!(once.replace_all(1, &files), Ok(()));
    let mut twice = FileStore::new();
    twice.add_project(1);
    assert_eq!(twice.replace_all(1, &files), Ok(()));
    assert_eq!(twice.replace_all(1, &files), Ok(()));
    assert_eq!(paths_of(&once, 1), paths_of(&twice, 1));
    assert_eq!(twice.files_of(1).len(), 2);
}

#[test]
fn rescan_replaces_and_empty_scan_empties() {
    let mut store = FileStore::new();
    store.add_project(1);
    store.add_project(2);
    let t = populated_tree();
    let first = scan_snapshot(1, "/proj", &t, &Vec::new(), &strings(&["comp"]), "t1");
    let second = scan_snapshot(1, "/proj", &t, &Vec::new(), &strings(&["comp"]), "t2");
    let other = scan_snapshot(2, "/other", &t, &Vec::new(), &strings(&["comp"]), "t1");
    assert_eq!(store.replace_all(2, &other), Ok(()));
    assert_eq!(store.replace_all(1, &first), Ok(()));
    let after_first = paths_of(&store, 1);
    assert_eq!(store.replace_all(1, &second), Ok(()));
    assert_eq!(paths_of(&store, 1), after_first);
    assert!(store.files_of(1).iter().all(|f| f.created_at == "t2"));
    let empty = scan_snapshot(1, "/proj", &DirTree::new("proj"), &Vec::new(), &strings(&["comp"]), "t3");
    assert!(empty.is_empty());
    assert_eq!(store.replace_all(1, &empty), Ok(()));
    assert!(store.files_of(1).is_empty());
    assert_eq!(store.files_of(2).len(), 2);
}

#[test]
fn replace_all_unknown_project() {
    let mut store = FileStore::new();
    store.add_project(1);
    let files = scan_snapshot(9, "/proj", &populated_tree(), &Vec::new(), &strings(&["comp"]), "t");
    assert_eq!(store.replace_all(9, &files), Err(PersistError::UnknownProject(9)));
    assert!(store.files_of(9).is_empty());
    assert!(!store.project_exists(9));
    assert!(store.project_exists(1));
}

#[test]
fn replace_all_stamps_owner() {
    let mut store = FileStore::new();
    store.add_project(4);
    let files = scan_snapshot(9, "/proj", &populated_tree(), &Vec::new(), &strings(&["comp"]), "t");
    assert_eq!(store.replace_all(4, &files), Ok(()));
    assert!(store.files_of(4).iter().all(|f| f.project_id == 4));
    assert!(store.files_of(9).is_empty());
}

#[test]
fn watch_registry_is_idempotent() {
    let mut reg = WatchRegistry::new();
    assert!(reg.start_watching(1, "/proj"));
    assert!(!reg.start_watching(1, "/elsewhere"));
    assert!(reg.start_watching(2, "/two"));
    let list = reg.watching_projects();
    assert_eq!(list.len(), 2);
    assert_eq!(list[0].project_id, 1);
    assert_eq!(list[0].path, "/proj");
    assert!(list[0].is_watching);
    assert!(reg.stop_watching(1));
    assert!(!reg.stop_watching(1));
    assert!(!reg.is_watching(1));
    assert!(reg.is_watching(2));
    assert_eq!(reg.watching_projects().len(), 1);
}

#[test]
fn watched_directories() {
    let dirs = watch_dirs("/proj", &strings(&["comp", "anim"]));
    assert_eq!(dirs, strings(&["/proj/comp", "/proj/anim"]));
    let dirs = watch_dirs("/proj/", &strings(&["comp"]));
    assert_eq!(dirs, strings(&["/proj/comp"]));
}

#[test]
fn listener_rearms_after_rescan() {
    let s = ListenerState::Listening;
    let (s, a) = listener_step(s, ListenerEvent::Change(ChangeKind::Other));
    assert_eq!((s, a), (ListenerState::Listening, ListenerAction::Nothing));
    let (s, a) = listener_step(s, ListenerEvent::Change(ChangeKind::Modify));
    assert_eq!((s, a), (ListenerState::Debouncing, ListenerAction::WaitDebounce));
    let (s, a) = listener_step(s, ListenerEvent::Change(ChangeKind::Create));
    assert_eq!((s, a), (ListenerState::Debouncing, ListenerAction::Nothing));
    let (s, a) = listener_step(s, ListenerEvent::DebounceElapsed);
    assert_eq!((s, a), (ListenerState::Rescanning, ListenerAction::Rescan));
    let (s, a) = listener_step(s, ListenerEvent::RescanFinished);
    assert_eq!((s, a), (ListenerState::Listening, ListenerAction::Nothing));
    let (s, a) = listener_step(s, ListenerEvent::Change(ChangeKind::Remove));
    assert_eq!((s, a), (ListenerState::Debouncing, ListenerAction::WaitDebounce));
    let (s, a) = listener_step(s, ListenerEvent::Closed);
    assert_eq!((s, a), (ListenerState::Stopped, ListenerAction::Exit));
}

fn paths_cfg() -> PathsConfig {
    PathsConfig { network_base: "//srv/Naboo".to_string(), windows_mapped_drive: "U:".to_string() }
}

#[test]
fn os_names() {
    assert_eq!(get_os_type("linux"), OsType::Linux);
    assert_eq!(get_os_type("windows"), OsType::Windows);
    assert_eq!(get_os_type("macos"), OsType::MacOS);
    assert_eq!(get_os_type("freebsd"), OsType::Unknown);
}

#[test]
fn path_normalization() {
    let c = paths_cfg();
    assert_eq!(normalize_path("//srv/Naboo/proj/a.nk", OsType::Windows, &c), "U:\\proj\\a.nk");
    assert_eq!(normalize_path("C:/x/y", OsType::Windows, &c), "C:\\x\\y");
    assert_eq!(normalize_path("U:\\proj\\a.nk", OsType::Linux, &c), "//srv/Naboo/proj/a.nk");
    assert_eq!(normalize_path("a\\b", OsType::MacOS, &c), "a/b");
    assert_eq!(normalize_path("a\\b", OsType::Unknown, &c), "a\\b");
}

#[test]
fn database_paths() {
    let cfg = get_config(None);
    assert_eq!(cfg.database.mode, "network");
    assert_eq!(
        get_network_database_path(OsType::Linux, &cfg.database),
        "//192.168.100.9/Naboo/DB/vfx_launcher.db"
    );
    assert_eq!(
        get_network_database_path(OsType::MacOS, &cfg.database),
        "/Volumes/Naboo/DB/vfx_launcher.db"
    );
    let db = DatabaseConfig { mode: "network".to_string(), network_path: "//server".to_string(), windows_drive: "U:".to_string() };
    assert_eq!(get_network_database_path(OsType::MacOS, &db), "/Volumes/vfx_launcher.db/");
    let db = DatabaseConfig { mode: "network".to_string(), network_path: "/mnt/db".to_string(), windows_drive: "U:".to_string() };
    assert_eq!(get_network_database_path(OsType::MacOS, &db), "/mnt/db/vfx_launcher.db");
    assert_eq!(get_database_path("local", "/l.db", "/n.db"), "/l.db");
    assert_eq!(get_database_path("network", "/l.db", "/n.db"), "/n.db");
}

#[test]
fn loaded_config_wins() {
    let mut c = Config::default();
    c.database.mode = "local".to_string();
    let got = get_config(Some(c));
    assert_eq!(got.database.mode, "local");
    assert_eq!(Config::default().network.server_port, 8080);
}

#[test]
fn one_scan_per_project() {
    let mut tokens = ScanTokens::new();
    assert!(tokens.try_begin(1));
    assert!(!tokens.try_begin(1));
    assert!(tokens.try_begin(2));
    assert!(tokens.is_scanning(1));
    tokens.finish(1);
    assert!(!tokens.is_scanning(1));
    assert!(tokens.is_scanning(2));
    assert!(tokens.try_begin(1));
}

#[test]
fn stored_lists_split_and_trim() {
    assert_eq!(split_setting_list("*.nk, *.aep"), strings(&["*.nk", "*.aep"]));
    assert_eq!(split_setting_list(" comp ,anim,,"), strings(&["comp", "anim", "", ""]));
    assert_eq!(split_setting_list(""), strings(&[""]));
}
