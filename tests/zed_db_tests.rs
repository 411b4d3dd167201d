use zed_workspace_explorer::zed_db::{
    collect_recent_candidates, config_dir_candidates, db_dir_path, discover_db_paths,
    get_recent_projects, get_recent_projects_from_db, merge_recent_projects, get_recent_projects_from_kv_store,
    get_recent_projects_from_workspaces, get_zed_config_dir, is_valid_db_directory,
    parse_recent_projects_json, records_from_json, row_entries, DbDirEntry, DbDirListing, JsonDoc, JsonField,
    JsonItem, JsonMember, RemoteInfo, StoreTables, WorkspaceRow, ZedError, ZedRecentProject,
};

fn row(paths: &str, ts: &str, remote: Option<i64>) -> Option<WorkspaceRow> {
    Some(WorkspaceRow {
        paths: paths.to_string(),
        timestamp: ts.to_string(),
        remote_connection_id: remote,
    })
}

fn tables(
    remotes: Option<Vec<Option<RemoteInfo>>>,
    rows: Option<Vec<Option<WorkspaceRow>>>,
    kv: Option<&str>,
    kv_store: Option<&str>,
) -> StoreTables {
    StoreTables {
        remote_connections: remotes,
        workspaces: rows,
        kv: kv.map(|s| s.to_string()),
        kv_store: kv_store.map(|s| s.to_string()),
    }
}

fn remote(id: i64, host: Option<&str>) -> RemoteInfo {
    RemoteInfo { connection_id: id, kind: "ssh".to_string(), host: host.map(|h| h.to_string()) }
}

fn local(path: &str, ts: Option<i64>) -> ZedRecentProject {
    ZedRecentProject { path: path.to_string(), timestamp: ts, remote_info: None }
}

#[test]
fn test_is_valid_db_directory() {
    assert!(is_valid_db_directory("0-preview"));
    assert!(is_valid_db_directory("123-global"));
    assert!(is_valid_db_directory("5-stable"));
    assert!(!is_valid_db_directory("preview"));
    assert!(!is_valid_db_directory("0-unknown"));
    assert!(!is_valid_db_directory("abc-preview"));
}

#[test]
fn db_directory_names_split_at_first_dash() {
    assert!(!is_valid_db_directory("1-2-stable"));
    assert!(!is_valid_db_directory("1-Stable"));
    assert!(!is_valid_db_directory(""));
    assert!(!is_valid_db_directory("-preview"));
}

#[test]
fn config_dir_is_first_existing_candidate() {
    let c = config_dir_candidates("/home/u");
    assert_eq!(
        c,
        vec![
            "/home/u/Library/Application Support/Zed",
            "/home/u/.local/share/zed",
            "/home/u/.var/app/dev.zed.Zed/data/zed",
        ]
    );
    assert_eq!(get_zed_config_dir(&c, &vec![false, true, true]), Ok(c[1].clone()));
    assert_eq!(get_zed_config_dir(&c, &vec![false, false, false]), Err(ZedError::ConfigNotFound));
    assert_eq!(get_zed_config_dir(&vec![], &vec![]), Err(ZedError::ConfigNotFound));
}

#[test]
fn missing_db_directory_gives_no_files() {
    assert_eq!(db_dir_path("/cfg/zed"), "/cfg/zed/db");
    assert_eq!(discover_db_paths(&DbDirListing::Missing), Ok(vec![]));
    assert_eq!(discover_db_paths(&DbDirListing::Unreadable), Err(ZedError::DbDirUnreadable));
}

#[test]
fn db_files_come_from_qualifying_channel_dirs() {
    let entry = |name: &str, is_dir: bool, files: &[&str]| DbDirEntry {
        name: name.to_string(),
        path: format!("/cfg/db/{}", name),
        is_dir,
        files: files.iter().map(|f| f.to_string()).collect(),
    };
    let listing = DbDirListing::Entries(vec![
        entry("0-stable", true, &["db.sqlite", "db"]),
        entry("1-preview", true, &["db.sqlite"]),
        entry("2-global", true, &["other"]),
        entry("0-unknown", true, &["db"]),
        entry("3-stable", false, &["db"]),
    ]);
    assert_eq!(
        discover_db_paths(&listing),
        Ok(vec!["/cfg/db/0-stable/db".to_string(), "/cfg/db/1-preview/db.sqlite".to_string()])
    );
}

#[test]
fn kv_row_round_trip() {
    let t = tables(None, None, Some(r#"[{"path":"/a","timestamp":100}]"#), None);
    let got = get_recent_projects_from_db(&t).unwrap();
    assert_eq!(got.len(), 1);
    assert_eq!(got[0].path, "/a");
    assert_eq!(got[0].timestamp, Some(100));
    assert!(got[0].remote_info.is_none());
}

#[test]
fn kv_tables_are_tried_in_order() {
    let t = tables(None, None, None, Some(r#"[{"path":"/b"}]"#));
    let got = get_recent_projects_from_kv_store(&t).unwrap();
    assert_eq!(got.len(), 1);
    assert_eq!(got[0].path, "/b");
    assert_eq!(got[0].timestamp, None);
    let t = tables(None, None, Some("[]"), Some(r#"[{"path":"/b"}]"#));
    assert!(get_recent_projects_from_kv_store(&t).unwrap().is_empty());
    let t = tables(None, None, None, None);
    assert_eq!(get_recent_projects_from_kv_store(&t).unwrap_err(), ZedError::NoRecentProjectsKey);
    let t = tables(None, None, Some("not json"), Some("[]"));
    assert_eq!(get_recent_projects_from_kv_store(&t).unwrap_err(), ZedError::InvalidJson);
}

#[test]
fn kv_json_items_without_string_path_are_skipped() {
    let got = parse_recent_projects_json(
        r#"[{"path":"/x","timestamp":1.5},{"path":3},7,{"timestamp":4},{"path":"/y","timestamp":-2}]"#,
    )
    .unwrap();
    assert_eq!(got.len(), 2);
    assert_eq!(got[0].path, "/x");
    assert_eq!(got[0].timestamp, None);
    assert_eq!(got[1].path, "/y");
    assert_eq!(got[1].timestamp, Some(-2));
    assert!(parse_recent_projects_json(r#"{"path":"/x"}"#).unwrap().is_empty());
}

#[test]
fn records_from_parsed_json() {
    let doc = Some(JsonDoc::Array(vec![
        JsonItem::Object(vec![
            JsonMember { key: "path".to_string(), value: JsonField::Text("/p".to_string()) },
            JsonMember { key: "timestamp".to_string(), value: JsonField::Number(Some(5)) },
        ]),
        JsonItem::Other,
    ]));
    let got = records_from_json(&doc).unwrap();
    assert_eq!(got.len(), 1);
    assert_eq!(got[0].timestamp, Some(5));
    assert_eq!(records_from_json(&None).unwrap_err(), ZedError::InvalidJson);
    assert!(records_from_json(&Some(JsonDoc::Other)).unwrap().is_empty());
}

#[test]
fn workspace_row_with_two_paths() {
    let t = tables(Some(vec![]), Some(vec![row("/a|/b", "2024-01-02 03:04:05", None)]), None, None);
    let got = get_recent_projects_from_db(&t).unwrap();
    assert_eq!(got.len(), 2);
    assert_eq!(got[0].path, "/a");
    assert_eq!(got[1].path, "/b");
    assert_eq!(got[0].timestamp, got[1].timestamp);
    assert_eq!(got[0].timestamp, Some(1704164645));
    assert!(got[0].remote_info.is_none() && got[1].remote_info.is_none());
}

#[test]
fn workspace_rows_trim_and_dedup_by_key() {
    let remotes = vec![Some(remote(7, Some("box"))), None, Some(remote(8, None))];
    let rows = vec![
        row(" /a | |/b", "bad time", None),
        None,
        row("/a", "2024-01-02 03:04:05", Some(7)),
        row("/a|/b", "2024-01-01 00:00:00", None),
        row("/a", "2024-01-01 00:00:00", Some(7)),
        row("/c", "2024-01-01 00:00:00", Some(99)),
    ];
    let got = get_recent_projects_from_workspaces(&tables(Some(remotes), Some(rows), None, None))
        .unwrap();
    let paths: Vec<&str> = got.iter().map(|p| p.path.as_str()).collect();
    assert_eq!(paths, vec!["/a", "/b", "/a", "/c"]);
    assert_eq!(got[0].timestamp, None);
    let r = got[2].remote_info.as_ref().unwrap();
    assert_eq!(r.connection_id, 7);
    assert_eq!(r.host.as_deref(), Some("box"));
    assert!(got[3].remote_info.is_none());
}

#[test]
fn workspace_schema_falls_back_to_kv() {
    let kv = Some(r#"[{"path":"/k","timestamp":1}]"#);
    let empty = tables(Some(vec![]), Some(vec![]), kv, None);
    assert_eq!(get_recent_projects_from_db(&empty).unwrap()[0].path, "/k");
    let missing = tables(None, Some(vec![row("/w", "x", None)]), kv, None);
    assert_eq!(
        get_recent_projects_from_workspaces(&missing).unwrap_err(),
        ZedError::SchemaUnavailable
    );
    assert_eq!(get_recent_projects_from_db(&missing).unwrap()[0].path, "/k");
    let neither = tables(Some(vec![]), Some(vec![]), None, None);
    assert_eq!(get_recent_projects_from_db(&neither).unwrap_err(), ZedError::NoRecentProjectsKey);
}

#[test]
fn merge_keeps_first_existing_and_sorts_newest_first() {
    let files = vec![
        Ok(vec![local("/a", Some(10)), local("/gone", Some(50)), local("/b", Some(10))]),
        Err(ZedError::InvalidJson),
        Ok(vec![
            local("/a", Some(99)),
            ZedRecentProject {
                path: "/srv".to_string(),
                timestamp: None,
                remote_info: Some(remote(1, None)),
            },
            local("/c", Some(20)),
        ]),
    ];
    let cands = collect_recent_candidates(&files);
    assert_eq!(cands.len(), 6);
    let exists = vec![true, false, true, true, false, true];
    let got = merge_recent_projects(&cands, &exists);
    let paths: Vec<&str> = got.iter().map(|p| p.path.as_str()).collect();
    assert_eq!(paths, vec!["/c", "/b", "/a", "/srv"]);
    assert_eq!(got[2].timestamp, Some(10));
}

#[test]
fn error_messages_are_not_empty() {
    for e in [
        ZedError::ConfigNotFound,
        ZedError::DbDirUnreadable,
        ZedError::NoRecentProjectsKey,
        ZedError::InvalidJson,
        ZedError::StorageFileUnreadable,
        ZedError::SchemaUnavailable,
    ] {
        assert!(!e.message().is_empty());
    }
}

#[test]
fn row_entries_share_timestamp_and_remote() {
    let r = Some(remote(-4, Some("h")));
    let got = row_entries("|/x| /y ||", Some(12), &r);
    assert_eq!(got.len(), 2);
    assert_eq!(got[0].path, "/x");
    assert_eq!(got[1].path, "/y");
    assert_eq!(got[1].timestamp, Some(12));
    assert_eq!(got[1].remote_info.as_ref().unwrap().connection_id, -4);
    assert!(row_entries("", None, &None).is_empty());
}

#[test]
fn merge_keeps_local_and_remote_with_one_path() {
    let cands = vec![
        local("/srv/app", Some(5)),
        ZedRecentProject {
            path: "/srv/app".to_string(),
            timestamp: Some(5),
            remote_info: Some(remote(2, Some("box"))),
        },
        ZedRecentProject {
            path: "/srv/app".to_string(),
            timestamp: Some(9),
            remote_info: Some(remote(2, Some("box"))),
        },
        ZedRecentProject {
            path: "/srv/app".to_string(),
            timestamp: Some(1),
            remote_info: Some(remote(3, None)),
        },
    ];
    let got = merge_recent_projects(&cands, &vec![true, false, false, false]);
    assert_eq!(got.len(), 3);
    assert_eq!(got[0].timestamp, Some(5));
    assert_eq!(got[2].remote_info.as_ref().unwrap().connection_id, 3);
    let ids: Vec<Option<i64>> =
        got.iter().map(|p| p.remote_info.as_ref().map(|r| r.connection_id)).collect();
    assert!(ids.contains(&None) && ids.contains(&Some(2)) && ids.contains(&Some(3)));
}

#[test]
fn recent_projects_from_the_store_read() {
    let listing = DbDirListing::Entries(vec![]);
    let files: Vec<Result<Vec<ZedRecentProject>, ZedError>> =
        vec![Err(ZedError::StorageFileUnreadable), Ok(vec![local("/a", Some(3)), local("/b", Some(4))])];
    assert_eq!(
        get_recent_projects(&vec![false, false, false], &listing, &files, &vec![true, true])
            .unwrap_err(),
        ZedError::ConfigNotFound
    );
    assert_eq!(get_recent_projects(&vec![], &listing, &vec![], &vec![]).unwrap_err(), ZedError::ConfigNotFound);
    let got = get_recent_projects(&vec![false, true, false], &listing, &files, &vec![true, true]).unwrap();
    let paths: Vec<&str> = got.iter().map(|p| p.path.as_str()).collect();
    assert_eq!(paths, vec!["/b", "/a"]);
    assert!(get_recent_projects(&vec![true], &DbDirListing::Missing, &vec![], &vec![])
        .unwrap()
        .is_empty());
    assert_eq!(
        get_recent_projects(&vec![true], &DbDirListing::Unreadable, &vec![], &vec![]).unwrap_err(),
        ZedError::DbDirUnreadable
    );
}
