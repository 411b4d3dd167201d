use zed_workspace_explorer::listing::{
    filter_projects, filter_recent, merge_results, needs_directory_scan, no_results_text,
    project_item, recent_item, separator_item, ListEntry,
};
use zed_workspace_explorer::project::Project;
use zed_workspace_explorer::zed_db::{RemoteInfo, ZedRecentProject};
use zed_workspace_explorer::AlfredOutput;

fn local(path: &str, ts: Option<i64>) -> ZedRecentProject {
    ZedRecentProject { path: path.to_string(), timestamp: ts, remote_info: None }
}

fn project(name: &str, path: &str) -> Project {
    Project { name: name.to_string(), path: path.to_string() }
}

#[test]
fn merge_lists_a_shared_path_once() {
    let recent = vec![local("/home/u/Code/app", Some(1))];
    let scanned = vec![project("app", "/home/u/Code/app"), project("lib", "/home/u/Code/lib")];
    let merged = merge_results(&recent, &scanned, 50, 30);
    assert_eq!(merged.len(), 3);
    assert!(matches!(&merged[0], ListEntry::Recent(p) if p.path == "/home/u/Code/app"));
    assert!(matches!(merged[1], ListEntry::Separator));
    assert!(matches!(&merged[2], ListEntry::Scanned(p) if p.path == "/home/u/Code/lib"));
}

#[test]
fn merge_without_fresh_projects_has_no_separator() {
    let recent = vec![local("/x", None)];
    let merged = merge_results(&recent, &vec![project("x", "/x")], 50, 30);
    assert_eq!(merged.len(), 1);
    let merged = merge_results(&vec![], &vec![project("x", "/x")], 50, 30);
    assert_eq!(merged.len(), 1);
    assert!(matches!(merged[0], ListEntry::Scanned(_)));
}

#[test]
fn merge_respects_limits() {
    let recent: Vec<ZedRecentProject> = (0..5).map(|i| local(&format!("/r{}", i), None)).collect();
    let scanned: Vec<Project> =
        (0..5).map(|i| project(&format!("s{}", i), &format!("/s{}", i))).collect();
    let merged = merge_results(&recent, &scanned, 2, 3);
    assert_eq!(merged.len(), 6);
    assert!(matches!(merged[2], ListEntry::Separator));
    // a record beyond the limit does not hide a scanned project with its path
    let merged = merge_results(&recent, &vec![project("r4", "/r4")], 2, 3);
    assert_eq!(merged.len(), 4);
}

#[test]
fn filters_by_query_and_remote_flag() {
    let recent = vec![
        local("/home/u/Code/zed-tools", None),
        local("/home/u/Code/other", None),
        ZedRecentProject {
            path: "/srv/app".to_string(),
            timestamp: None,
            remote_info: Some(RemoteInfo {
                connection_id: 3,
                kind: "ssh".to_string(),
                host: Some("box".to_string()),
            }),
        },
    ];
    assert_eq!(filter_recent(&recent, "", false).len(), 3);
    let zt = filter_recent(&recent, "zdt", false);
    assert_eq!(zt.len(), 1);
    assert_eq!(zt[0].path, "/home/u/Code/zed-tools");
    let remote_only = filter_recent(&recent, "", true);
    assert_eq!(remote_only.len(), 1);
    assert_eq!(remote_only[0].path, "/srv/app");
    let projects = vec![project("alpha", "/p/alpha"), project("beta", "/p/beta")];
    assert_eq!(filter_projects(&projects, "").len(), 2);
    let b = filter_projects(&projects, "bet");
    assert_eq!(b.len(), 1);
    assert_eq!(b[0].name, "beta");
    assert!(filter_projects(&projects, "qqq").is_empty());
    let mixed = vec![project("MyApp", "/p/MyApp"), project("myapp2", "/p/myapp2")];
    // a pattern with a capital letter is compared exactly, one without ignores case
    assert_eq!(filter_projects(&mixed, "myapp").len(), 2);
    let exact = filter_projects(&mixed, "MA");
    assert_eq!(exact.len(), 1);
    assert_eq!(exact[0].name, "MyApp");
}

#[test]
fn directory_scan_decision() {
    assert!(needs_directory_scan(0, "", false));
    assert!(needs_directory_scan(3, "q", false));
    assert!(!needs_directory_scan(3, "", false));
    assert!(!needs_directory_scan(0, "", true));
}

#[test]
fn items_for_records_and_projects() {
    let p = ZedRecentProject {
        path: "/srv/app".to_string(),
        timestamp: Some(1704164645),
        remote_info: Some(RemoteInfo { connection_id: 3, kind: "ssh".to_string(), host: None }),
    };
    let item = recent_item(&p, "📁");
    assert_eq!(item.title, "🌐 remote 📁app • 2024-01-02 03:04");
    assert_eq!(item.uid, "/srv/app");
    assert_eq!(item.autocomplete, "app");
    assert_eq!(item.icon.icon_type, "fileicon");
    let item = recent_item(&local("/", None), "🟠");
    assert_eq!(item.title, "🟠Unknown");
    let item = project_item(&project("lib", "/p/lib"), "🟤");
    assert_eq!(item.title, "🟤 lib");
    assert_eq!(item.arg, "/p/lib");
    let sep = separator_item("separator-dir", "—— Directory Projects ——");
    assert_eq!(sep.item_type, "default");
    assert_eq!(sep.title, "—— Directory Projects ——");
}

#[test]
fn empty_output_gets_one_placeholder() {
    let mut out = AlfredOutput::new();
    assert!(out.items.is_empty());
    let (title, subtitle) = no_results_text(false, false);
    assert_eq!(title, "No projects found");
    out.add_no_results(title, subtitle);
    assert_eq!(out.items.len(), 1);
    assert_eq!(out.items[0].uid, "no-results");
    assert_eq!(out.items[0].subtitle, "Open projects in Zed or add directories to PROJECT_DIRS");
    assert_eq!(no_results_text(true, true).0, "No remote projects match your search");
    assert_eq!(no_results_text(true, false).1, "Open remote projects in Zed using SSH or dev server");
    let mut out = AlfredOutput::default();
    out.add_item(separator_item("u", "t"));
    assert_eq!(out.items.len(), 1);
}
