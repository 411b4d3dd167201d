use vstd::prelude::*;

use serde_json::Value as JsonValue;

use crate::text::{
    decimal, decimal_text, join_path, joined, split_char, split_on, text_eq, trim, trimmed,
};

verus! {

/// A non-local workspace connection (SSH or dev server).
#[derive(Clone, Debug)]
pub struct RemoteInfo {
    pub connection_id: i64,
    pub kind: String,
    pub host: Option<String>,
}

/// One entry of the editor's recent-projects history.
#[derive(Clone, Debug)]
pub struct ZedRecentProject {
    pub path: String,
    pub timestamp: Option<i64>,
    pub remote_info: Option<RemoteInfo>,
}

pub struct RemoteView {
    pub connection_id: i64,
    pub kind: Seq<char>,
    pub host: Option<Seq<char>>,
}

pub struct RecentView {
    pub path: Seq<char>,
    pub timestamp: Option<i64>,
    pub remote: Option<RemoteView>,
}

pub open spec fn opt_text(o: Option<String>) -> Option<Seq<char>> {
    match o {
        Some(t) => Some(t@),
        None => None,
    }
}

impl View for RemoteInfo {
    type V = RemoteView;

    open spec fn view(&self) -> RemoteView {
        RemoteView { connection_id: self.connection_id, kind: self.kind@, host: opt_text(self.host) }
    }
}

pub open spec fn opt_remote(o: Option<RemoteInfo>) -> Option<RemoteView> {
    match o {
        Some(r) => Some(r@),
        None => None,
    }
}

impl View for ZedRecentProject {
    type V = RecentView;

    open spec fn view(&self) -> RecentView {
        RecentView {
            path: self.path@,
            timestamp: self.timestamp,
            remote: opt_remote(self.remote_info),
        }
    }
}

pub open spec fn recents(s: Seq<ZedRecentProject>) -> Seq<RecentView> {
    s.map_values(|p: ZedRecentProject| p@)
}

pub open spec fn text_views(s: Seq<String>) -> Seq<Seq<char>> {
    s.map_values(|t: String| t@)
}

#[derive(Clone, Copy, Debug, PartialEq, Eq, Structural)]
pub enum ZedError {
    /// None of the places where the editor keeps its state exists.
    ConfigNotFound,
    /// The `db` directory exists but could not be listed.
    DbDirUnreadable,
    /// The key-value tables hold no recent-projects entry.
    NoRecentProjectsKey,
    /// The recent-projects entry is not valid JSON.
    InvalidJson,
    /// The storage file could not be opened.
    StorageFileUnreadable,
    /// The workspace tables could not be queried.
    SchemaUnavailable,
}

impl ZedError {
    pub fn message(&self) -> (r: String) {
        match self {
            ZedError::ConfigNotFound => String::from_str("Could not find Zed config directory"),
            ZedError::DbDirUnreadable => String::from_str("Could not list the db directory"),
            ZedError::NoRecentProjectsKey => String::from_str(
                "No recent projects found in database - Zed may not have tracked any projects yet",
            ),
            ZedError::InvalidJson => String::from_str("The recent projects entry is not valid JSON"),
            ZedError::StorageFileUnreadable => String::from_str("Could not open the database file"),
            ZedError::SchemaUnavailable => String::from_str("The workspace tables could not be read"),
        }
    }
}

pub open spec fn config_dir_candidates_of(home: Seq<char>) -> Seq<Seq<char>> {
    seq![
        joined(home, "Library/Application Support/Zed"@),
        joined(home, ".local/share/zed"@),
        joined(home, ".var/app/dev.zed.Zed/data/zed"@),
    ]
}

/// The places where the editor may keep its state, in the order they are tried: the
/// macOS convention, the Linux one, then the Flatpak one.
pub fn config_dir_candidates(home: &str) -> (r: Vec<String>)
    ensures
        text_views(r@) == config_dir_candidates_of(home@),
{
    let mut r: Vec<String> = Vec::new();
    r.push(join_path(home, "Library/Application Support/Zed"));
    r.push(join_path(home, ".local/share/zed"));
    r.push(join_path(home, ".var/app/dev.zed.Zed/data/zed"));
    proof {
        assert(text_views(r@) =~= config_dir_candidates_of(home@));
    }
    r
}

/// The first index from `i` on whose flag is set, or the length.
pub open spec fn first_set_from(s: Seq<bool>, i: int) -> int
    decreases s.len() - i,
{
    if i < 0 || i >= s.len() {
        s.len() as int
    } else if s[i] {
        i
    } else {
        first_set_from(s, i + 1)
    }
}

/// Picks the first candidate that exists (`present[i]` tells whether `candidates[i]`
/// does); fails with `ConfigNotFound` when none does.
pub fn get_zed_config_dir(candidates: &Vec<String>, present: &Vec<bool>) -> (r: Result<
    String,
    ZedError,
>)
    requires
        candidates.len() == present.len(),
    ensures
        match r {
            Ok(c) => first_set_from(present@, 0) < present.len() && c@ == candidates[first_set_from(
                present@,
                0,
            )]@,
            Err(e) => e == ZedError::ConfigNotFound && first_set_from(present@, 0) == present.len(),
        },
{
    let mut i: usize = 0;
    while i < present.len()
        invariant
            candidates.len() == present.len(),
            i <= present.len(),
            first_set_from(present@, 0) == first_set_from(present@, i as int),
        decreases present.len() - i,
    {
        if present[i] {
            return Ok(candidates[i].clone());
        }
        i += 1;
    }
    Err(ZedError::ConfigNotFound)
}

pub open spec fn is_digit(c: char) -> bool {
    '0' <= c && c <= '9'
}

pub open spec fn is_channel(s: Seq<char>) -> bool {
    s == "preview"@ || s == "global"@ || s == "stable"@
}

/// `<digits>-<channel>`, split at the first `-`, with at least one digit.
pub open spec fn valid_db_dir_name(s: Seq<char>) -> bool {
    exists|d: int|
        0 < d < s.len() && #[trigger] s[d] == '-' && (forall|k: int| 0 <= k < d ==> is_digit(s[k]))
            && is_channel(s.subrange(d + 1, s.len() as int))
}

/// Whether a directory name under `db` names a storage channel, such as `0-preview`.
pub fn is_valid_db_directory(dir_name: &str) -> (r: bool)
    ensures
        r == valid_db_dir_name(dir_name@),
{
    let n = dir_name.unicode_len();
    let mut d: usize = 0;
    while d < n && dir_name.get_char(d) != '-'
        invariant
            n == dir_name@.len(),
            d <= n,
            forall|k: int| 0 <= k < d ==> dir_name@[k] != '-',
        decreases n - d,
    {
        d += 1;
    }
    if d == n || d == 0 {
        return false;
    }
    let mut k: usize = 0;
    while k < d
        invariant
            n == dir_name@.len(),
            d < n,
            dir_name@[d as int] == '-',
            forall|m: int| 0 <= m < d ==> dir_name@[m] != '-',
            k <= d,
            forall|m: int| 0 <= m < k ==> is_digit(dir_name@[m]),
        decreases d - k,
    {
        let c = dir_name.get_char(k);
        if !('0' <= c && c <= '9') {
            proof {
                assert forall|e: int|
                    0 <= e < dir_name@.len() && #[trigger] dir_name@[e] == '-' implies !(forall|m: int|
                    0 <= m < e ==> is_digit(dir_name@[m])) by {
                    assert(e >= d);
                    assert(!is_digit(dir_name@[k as int]));
                }
            }
            return false;
        }
        k += 1;
    }
    let suffix = String::from_str(dir_name.substring_char(d + 1, n));
    let r = text_eq(&suffix, "preview") || text_eq(&suffix, "global") || text_eq(&suffix, "stable");
    proof {
        if !r {
            assert forall|e: int|
                0 <= e < dir_name@.len() && #[trigger] dir_name@[e] == '-' && (forall|m: int|
                    0 <= m < e ==> is_digit(dir_name@[m])) implies !is_channel(
                dir_name@.subrange(e + 1, dir_name@.len() as int),
            ) by {
                if e > d {
                    assert(is_digit(dir_name@[d as int]));
                }
            }
        }
    }
    r
}

/// A subdirectory of `db`: its name, its path, whether it is a directory (following
/// links) and the names of the regular files in it.
#[derive(Clone, Debug)]
pub struct DbDirEntry {
    pub name: String,
    pub path: String,
    pub is_dir: bool,
    pub files: Vec<String>,
}

/// What listing `<config>/db` gave.
#[derive(Clone, Debug)]
pub enum DbDirListing {
    Missing,
    Unreadable,
    Entries(Vec<DbDirEntry>),
}

/// The directory that holds the storage channels.
pub fn db_dir_path(config_dir: &str) -> (r: String)
    ensures
        r@ == joined(config_dir@, "db"@),
{
    join_path(config_dir, "db")
}

pub open spec fn has_file(e: DbDirEntry, name: Seq<char>) -> bool {
    exists|i: int| 0 <= i < e.files.len() && #[trigger] e.files[i]@ == name
}

/// The storage file a `db` subdirectory contributes, if any.
pub open spec fn db_file_of(e: DbDirEntry) -> Option<Seq<char>> {
    if e.is_dir && valid_db_dir_name(e.name@) {
        if has_file(e, "db"@) {
            Some(joined(e.path@, "db"@))
        } else if has_file(e, "db.sqlite"@) {
            Some(joined(e.path@, "db.sqlite"@))
        } else {
            None
        }
    } else {
        None
    }
}

pub open spec fn db_files(entries: Seq<DbDirEntry>) -> Seq<Seq<char>>
    decreases entries.len(),
{
    if entries.len() == 0 {
        Seq::<Seq<char>>::empty()
    } else {
        let p = db_files(entries.drop_last());
        match db_file_of(entries.last()) {
            Some(f) => p.push(f),
            None => p,
        }
    }
}

fn holds_file(e: &DbDirEntry, name: &str) -> (r: bool)
    ensures
        r == has_file(*e, name@),
{
    let mut i: usize = 0;
    while i < e.files.len()
        invariant
            i <= e.files.len(),
            forall|k: int| 0 <= k < i ==> #[trigger] e.files[k]@ != name@,
        decreases e.files.len() - i,
    {
        if text_eq(&e.files[i], name) {
            return true;
        }
        i += 1;
    }
    false
}

/// The storage files under `<config>/db`, one per qualifying channel directory, in
/// listing order. A missing `db` directory gives none; an unreadable one fails.
pub fn discover_db_paths(listing: &DbDirListing) -> (r: Result<Vec<String>, ZedError>)
    ensures
        match listing {
            DbDirListing::Missing => r is Ok && r->Ok_0@.len() == 0,
            DbDirListing::Unreadable => r == Err::<Vec<String>, ZedError>(ZedError::DbDirUnreadable),
            DbDirListing::Entries(es) => r is Ok && text_views(r->Ok_0@) == db_files(es@),
        },
{
    match listing {
        DbDirListing::Missing => Ok(Vec::new()),
        DbDirListing::Unreadable => Err(ZedError::DbDirUnreadable),
        DbDirListing::Entries(es) => {
            let mut r: Vec<String> = Vec::new();
            let mut i: usize = 0;
            while i < es.len()
                invariant
                    i <= es.len(),
                    text_views(r@) == db_files(es@.subrange(0, i as int)),
                decreases es.len() - i,
            {
                let e = &es[i];
                proof {
                    assert(es@.subrange(0, i + 1).drop_last() =~= es@.subrange(0, i as int));
                }
                let ghost prev = r@;
                if e.is_dir && is_valid_db_directory(e.name.as_str()) {
                    if holds_file(e, "db") {
                        r.push(join_path(e.path.as_str(), "db"));
                    } else if holds_file(e, "db.sqlite") {
                        r.push(join_path(e.path.as_str(), "db.sqlite"));
                    }
                }
                proof {
                    assert(text_views(r@) =~= match db_file_of(*e) {
                        Some(f) => text_views(prev).push(f),
                        None => text_views(prev),
                    });
                }
                i += 1;
            }
            proof {
                assert(es@.subrange(0, es.len() as int) =~= es@);
            }
            Ok(r)
        },
    }
}

/// One row of the `workspaces` table.
#[derive(Clone, Debug)]
pub struct WorkspaceRow {
    pub paths: String,
    pub timestamp: String,
    pub remote_connection_id: Option<i64>,
}

/// A JSON field value, as far as the recent-projects entry needs it: a string, a number
/// with its value where that is an `i64` integer, or anything else.
#[derive(Clone, Debug)]
pub enum JsonField {
    Text(String),
    Number(Option<i64>),
    Other,
}

#[derive(Clone, Debug)]
pub struct JsonMember {
    pub key: String,
    pub value: JsonField,
}

#[derive(Clone, Debug)]
pub enum JsonItem {
    Object(Vec<JsonMember>),
    Other,
}

/// A parsed JSON document: an array of items, or anything else.
#[derive(Clone, Debug)]
pub enum JsonDoc {
    Array(Vec<JsonItem>),
    Other,
}

/// What one storage file holds, as read from it. `None` marks a query that failed (a
/// table that does not exist, say); a `None` row is one whose columns could not be
/// read. `kv` and `kv_store` hold the recent-projects value of the table of that name.
#[derive(Clone, Debug)]
pub struct StoreTables {
    pub remote_connections: Option<Vec<Option<RemoteInfo>>>,
    pub workspaces: Option<Vec<Option<WorkspaceRow>>>,
    pub kv: Option<String>,
    pub kv_store: Option<String>,
}

/// The epoch seconds `chrono` parses out of `s` in the format `fmt`, read as UTC, or
/// `None` where it rejects the text.
pub uninterp spec fn parsed_datetime(s: Seq<char>, fmt: Seq<char>) -> Option<i64>;

/// Relies on `chrono::NaiveDateTime::parse_from_str` and `and_utc().timestamp()`: the
/// result depends on the two texts alone.
#[verifier::external_body]
fn parse_datetime(s: &str, fmt: &str) -> (r: Option<i64>)
    ensures
        r == parsed_datetime(s@, fmt@),
{
    chrono::NaiveDateTime::parse_from_str(s, fmt).ok().map(|dt| dt.and_utc().timestamp())
}

/// What `serde_json::from_str` makes of a text, as a `JsonDoc`, or `None` where the
/// text is not JSON.
pub uninterp spec fn json_doc_of(s: Seq<char>) -> Option<JsonDoc>;

/// Relies on `serde_json::from_str` into a `serde_json::Value` and on
/// `serde_json::Number::as_i64`; the body only carries the value over into `JsonDoc`.
#[verifier::external_body]
fn parse_json(s: &str) -> (r: Option<JsonDoc>)
    ensures
        r == json_doc_of(s@),
{
    match serde_json::from_str::<JsonValue>(s) {
        Ok(JsonValue::Array(a)) => Some(JsonDoc::Array(a.into_iter().map(|i| match i {
            JsonValue::Object(m) => JsonItem::Object(m.into_iter().map(|(key, f)| JsonMember { key, value: match f {
                JsonValue::String(t) => JsonField::Text(t),
                JsonValue::Number(n) => JsonField::Number(n.as_i64()),
                _ => JsonField::Other,
            } }).collect()),
            _ => JsonItem::Other,
        }).collect())),
        Ok(_) => Some(JsonDoc::Other),
        Err(_) => None,
    }
}

/// The last remote-connection row with the given id.
pub open spec fn remote_lookup(rows: Seq<Option<RemoteInfo>>, id: i64) -> Option<RemoteInfo>
    decreases rows.len(),
{
    if rows.len() == 0 {
        None
    } else {
        match rows.last() {
            Some(r) if r.connection_id == id => Some(r),
            _ => remote_lookup(rows.drop_last(), id),
        }
    }
}

pub open spec fn timestamp_format() -> Seq<char> {
    "%Y-%m-%d %H:%M:%S"@
}

/// One record per non-blank piece, trimmed, sharing the row's timestamp and remote.
pub open spec fn segment_records(
    segs: Seq<Seq<char>>,
    ts: Option<i64>,
    remote: Option<RemoteView>,
) -> Seq<RecentView>
    decreases segs.len(),
{
    if segs.len() == 0 {
        Seq::<RecentView>::empty()
    } else {
        let p = segment_records(segs.drop_last(), ts, remote);
        if trimmed(segs.last()).len() == 0 {
            p
        } else {
            p.push(RecentView { path: trimmed(segs.last()), timestamp: ts, remote })
        }
    }
}

pub open spec fn row_remote(row: WorkspaceRow, remotes: Seq<Option<RemoteInfo>>) -> Option<RemoteInfo> {
    match row.remote_connection_id {
        Some(id) => remote_lookup(remotes, id),
        None => None,
    }
}

pub open spec fn row_records(row: WorkspaceRow, remotes: Seq<Option<RemoteInfo>>) -> Seq<RecentView> {
    segment_records(
        split_on(row.paths@, '|'),
        parsed_datetime(row.timestamp@, timestamp_format()),
        opt_remote(row_remote(row, remotes)),
    )
}

pub open spec fn rows_records(
    rows: Seq<Option<WorkspaceRow>>,
    remotes: Seq<Option<RemoteInfo>>,
) -> Seq<RecentView>
    decreases rows.len(),
{
    if rows.len() == 0 {
        Seq::<RecentView>::empty()
    } else {
        rows_records(rows.drop_last(), remotes) + match rows.last() {
            Some(row) => row_records(row, remotes),
            None => Seq::<RecentView>::empty(),
        }
    }
}

/// Remote entries are told apart by connection and path, local ones by path.
pub open spec fn dedup_key(r: RecentView) -> Seq<char> {
    match r.remote {
        Some(ri) => "remote:"@ + decimal(ri.connection_id as int) + ": "@ + r.path,
        None => r.path,
    }
}

/// The first record of each key, in order.
pub open spec fn first_per_key(s: Seq<RecentView>) -> Seq<RecentView>
    decreases s.len(),
{
    if s.len() == 0 {
        s
    } else {
        let p = first_per_key(s.drop_last());
        if exists|k: int| 0 <= k < s.len() - 1 && #[trigger] dedup_key(s[k]) == dedup_key(s.last()) {
            p
        } else {
            p.push(s.last())
        }
    }
}

pub open spec fn workspace_records(
    rows: Seq<Option<WorkspaceRow>>,
    remotes: Seq<Option<RemoteInfo>>,
) -> Seq<RecentView> {
    first_per_key(rows_records(rows, remotes))
}

fn copy_remote(r: &RemoteInfo) -> (c: RemoteInfo)
    ensures
        c@ == r@,
{
    let host = match &r.host {
        Some(h) => Some(h.clone()),
        None => None,
    };
    RemoteInfo { connection_id: r.connection_id, kind: r.kind.clone(), host }
}

fn copy_opt_remote(r: &Option<RemoteInfo>) -> (c: Option<RemoteInfo>)
    ensures
        opt_remote(c) == opt_remote(*r),
{
    match r {
        Some(ri) => Some(copy_remote(ri)),
        None => None,
    }
}

pub(crate) fn copy_recent(p: &ZedRecentProject) -> (c: ZedRecentProject)
    ensures
        c@ == p@,
{
    ZedRecentProject {
        path: p.path.clone(),
        timestamp: p.timestamp,
        remote_info: copy_opt_remote(&p.remote_info),
    }
}

fn find_remote(remotes: &Vec<Option<RemoteInfo>>, id: i64) -> (r: Option<RemoteInfo>)
    ensures
        opt_remote(r) == opt_remote(remote_lookup(remotes@, id)),
{
    let mut i: usize = remotes.len();
    proof {
        assert(remotes@.subrange(0, i as int) =~= remotes@);
    }
    while i > 0
        invariant
            i <= remotes.len(),
            remote_lookup(remotes@, id) == remote_lookup(remotes@.subrange(0, i as int), id),
        decreases i,
    {
        proof {
            assert(remotes@.subrange(0, i as int).drop_last() =~= remotes@.subrange(0, i - 1));
        }
        match &remotes[i - 1] {
            Some(ri) => {
                if ri.connection_id == id {
                    return Some(copy_remote(ri));
                }
            },
            None => {},
        }
        i -= 1;
    }
    None
}

fn key_of(p: &ZedRecentProject) -> (k: String)
    ensures
        k@ == dedup_key(p@),
{
    match &p.remote_info {
        Some(ri) => String::from_str("remote:").concat(decimal_text(ri.connection_id).as_str()).concat(
            ": ",
        ).concat(p.path.as_str()),
        None => p.path.clone(),
    }
}

/// The records of one workspace row, given its parsed timestamp and its resolved remote
/// connection: one per non-blank `|`-separated path, trimmed.
pub fn row_entries(paths: &str, timestamp: Option<i64>, remote: &Option<RemoteInfo>) -> (r: Vec<
    ZedRecentProject,
>)
    ensures
        recents(r@) == segment_records(split_on(paths@, '|'), timestamp, opt_remote(*remote)),
{
    let segs = split_char(paths, '|');
    let ghost sp = split_on(paths@, '|');
    let mut out: Vec<ZedRecentProject> = Vec::new();
    let mut j: usize = 0;
    while j < segs.len()
        invariant
            j <= segs.len(),
            segs.len() == sp.len(),
            forall|k: int| 0 <= k < segs.len() ==> #[trigger] segs[k]@ == sp[k],
            recents(out@) == segment_records(sp.subrange(0, j as int), timestamp, opt_remote(*remote)),
        decreases segs.len() - j,
    {
        let t = trim(segs[j].as_str());
        proof {
            assert(sp.subrange(0, j + 1).drop_last() =~= sp.subrange(0, j as int));
        }
        if t.as_str().unicode_len() > 0 {
            let ghost prev = out@;
            out.push(ZedRecentProject { path: t, timestamp, remote_info: copy_opt_remote(remote) });
            proof {
                assert(recents(out@) =~= recents(prev).push(out@.last()@));
            }
        }
        j += 1;
    }
    proof {
        assert(sp.subrange(0, segs.len() as int) =~= sp);
    }
    out
}

fn push_row_records(row: &WorkspaceRow, remotes: &Vec<Option<RemoteInfo>>, out: &mut Vec<ZedRecentProject>)
    ensures
        recents(final(out)@) == recents(old(out)@) + row_records(*row, remotes@),
{
    let remote = match row.remote_connection_id {
        Some(id) => find_remote(remotes, id),
        None => None,
    };
    let ts = parse_datetime(row.timestamp.as_str(), "%Y-%m-%d %H:%M:%S");
    let entries = row_entries(row.paths.as_str(), ts, &remote);
    let ghost start = recents(out@);
    let mut j: usize = 0;
    while j < entries.len()
        invariant
            j <= entries.len(),
            recents(out@) == start + recents(entries@.subrange(0, j as int)),
        decreases entries.len() - j,
    {
        let ghost prev = out@;
        out.push(copy_recent(&entries[j]));
        proof {
            assert(recents(out@) =~= recents(prev).push(entries[j as int]@));
            assert(recents(entries@.subrange(0, j + 1)) =~= recents(entries@.subrange(0, j as int)).push(
                entries[j as int]@,
            ));
        }
        j += 1;
    }
    proof {
        assert(entries@.subrange(0, entries.len() as int) =~= entries@);
    }
}

fn keep_first_per_key(found: &Vec<ZedRecentProject>) -> (r: Vec<ZedRecentProject>)
    ensures
        recents(r@) == first_per_key(recents(found@)),
{
    let mut keys: Vec<String> = Vec::new();
    let mut r: Vec<ZedRecentProject> = Vec::new();
    let mut i: usize = 0;
    while i < found.len()
        invariant
            i <= found.len(),
            keys.len() == i,
            forall|k: int| 0 <= k < i ==> #[trigger] keys[k]@ == dedup_key(found[k]@),
            recents(r@) == first_per_key(recents(found@).subrange(0, i as int)),
        decreases found.len() - i,
    {
        let key = key_of(&found[i]);
        let mut dup = false;
        let mut k: usize = 0;
        while k < i
            invariant
                i < found.len(),
                keys.len() == i,
                k <= i,
                key@ == dedup_key(found[i as int]@),
                dup == exists|m: int| 0 <= m < k && #[trigger] keys[m]@ == key@,
            decreases i - k,
        {
            if keys[k] == key {
                dup = true;
            }
            k += 1;
        }
        let ghost s = recents(found@).subrange(0, i + 1);
        proof {
            assert(s.drop_last() =~= recents(found@).subrange(0, i as int));
            assert(s.last() == found[i as int]@);
            if dup {
                let m = choose|m: int| 0 <= m < i && #[trigger] keys[m]@ == key@;
                assert(s[m] == found[m]@);
                assert(dedup_key(s[m]) == dedup_key(s.last()));
            } else {
                assert forall|m: int| 0 <= m < s.len() - 1 implies !(#[trigger] dedup_key(s[m]) == dedup_key(s.last())) by {
                    assert(s[m] == found[m]@);
                    assert(keys[m]@ == dedup_key(found[m]@));
                }
            }
        }
        if !dup {
            let ghost prev = r@;
            r.push(copy_recent(&found[i]));
            proof {
                assert(recents(r@) =~= recents(prev).push(found[i as int]@));
            }
        }
        keys.push(key);
        i += 1;
    }
    proof {
        assert(recents(found@).subrange(0, found.len() as int) =~= recents(found@));
    }
    r
}

/// Reads the workspace schema: one record per path of each row, the row's remote
/// connection resolved by id, the first record of each key kept.
fn read_workspaces(rows: &Vec<Option<WorkspaceRow>>, remotes: &Vec<Option<RemoteInfo>>) -> (r: Vec<
    ZedRecentProject,
>)
    ensures
        recents(r@) == workspace_records(rows@, remotes@),
{
    let mut all: Vec<ZedRecentProject> = Vec::new();
    let mut i: usize = 0;
    while i < rows.len()
        invariant
            i <= rows.len(),
            recents(all@) == rows_records(rows@.subrange(0, i as int), remotes@),
        decreases rows.len() - i,
    {
        proof {
            assert(rows@.subrange(0, i + 1).drop_last() =~= rows@.subrange(0, i as int));
        }
        match &rows[i] {
            Some(row) => {
                push_row_records(row, remotes, &mut all);
            },
            None => {
                proof {
                    assert(recents(all@) =~= recents(all@) + Seq::<RecentView>::empty());
                }
            },
        }
        i += 1;
    }
    proof {
        assert(rows@.subrange(0, rows.len() as int) =~= rows@);
    }
    keep_first_per_key(&all)
}

pub open spec fn result_view(r: Result<Vec<ZedRecentProject>, ZedError>) -> Result<
    Seq<RecentView>,
    ZedError,
> {
    match r {
        Ok(v) => Ok(recents(v@)),
        Err(e) => Err(e),
    }
}

/// The workspace-schema records of a file, or `SchemaUnavailable` where a query failed.
pub open spec fn workspaces_result(t: StoreTables) -> Result<Seq<RecentView>, ZedError> {
    match (t.remote_connections, t.workspaces) {
        (Some(rc), Some(ws)) => Ok(workspace_records(ws@, rc@)),
        _ => Err(ZedError::SchemaUnavailable),
    }
}

pub fn get_recent_projects_from_workspaces(t: &StoreTables) -> (r: Result<
    Vec<ZedRecentProject>,
    ZedError,
>)
    ensures
        result_view(r) == workspaces_result(*t),
{
    match (&t.remote_connections, &t.workspaces) {
        (Some(rc), Some(ws)) => Ok(read_workspaces(ws, rc)),
        _ => Err(ZedError::SchemaUnavailable),
    }
}

/// Position of the first member with the given key, or the length.
pub open spec fn member_pos(ms: Seq<JsonMember>, key: Seq<char>, j: int) -> int
    decreases ms.len() - j,
{
    if j < 0 || j >= ms.len() {
        ms.len() as int
    } else if ms[j].key@ == key {
        j
    } else {
        member_pos(ms, key, j + 1)
    }
}

pub open spec fn member(ms: Seq<JsonMember>, key: Seq<char>) -> Option<JsonField> {
    let p = member_pos(ms, key, 0);
    if 0 <= p < ms.len() {
        Some(ms[p].value)
    } else {
        None
    }
}

/// The record an item of the recent-projects array stands for: an object with a string
/// `path`, and an integer `timestamp` where it has one.
pub open spec fn item_record(it: JsonItem) -> Option<RecentView> {
    match it {
        JsonItem::Object(ms) => match member(ms@, "path"@) {
            Some(JsonField::Text(p)) => Some(
                RecentView {
                    path: p@,
                    timestamp: match member(ms@, "timestamp"@) {
                        Some(JsonField::Number(n)) => n,
                        _ => None,
                    },
                    remote: None,
                },
            ),
            _ => None,
        },
        JsonItem::Other => None,
    }
}

pub open spec fn kv_records(items: Seq<JsonItem>) -> Seq<RecentView>
    decreases items.len(),
{
    if items.len() == 0 {
        Seq::<RecentView>::empty()
    } else {
        let p = kv_records(items.drop_last());
        match item_record(items.last()) {
            Some(r) => p.push(r),
            None => p,
        }
    }
}

/// The records a parsed recent-projects value gives: those of its items when it is an
/// array, none when it is anything else, `InvalidJson` when it did not parse.
pub open spec fn json_records(doc: Option<JsonDoc>) -> Result<Seq<RecentView>, ZedError> {
    match doc {
        Some(JsonDoc::Array(items)) => Ok(kv_records(items@)),
        Some(JsonDoc::Other) => Ok(Seq::<RecentView>::empty()),
        None => Err(ZedError::InvalidJson),
    }
}

/// The key-value schema: the `kv` table is asked first, then `kv_store`.
pub open spec fn kv_result(t: StoreTables) -> Result<Seq<RecentView>, ZedError> {
    match t.kv {
        Some(text) => json_records(json_doc_of(text@)),
        None => match t.kv_store {
            Some(text) => json_records(json_doc_of(text@)),
            None => Err(ZedError::NoRecentProjectsKey),
        },
    }
}

/// A storage file's records: the workspace schema's when it gives at least one, else
/// the key-value schema's.
pub open spec fn storage_result(t: StoreTables) -> Result<Seq<RecentView>, ZedError> {
    match workspaces_result(t) {
        Ok(v) if v.len() > 0 => Ok(v),
        _ => kv_result(t),
    }
}

fn member_index(ms: &Vec<JsonMember>, key: &str) -> (r: usize)
    ensures
        r as int == member_pos(ms@, key@, 0),
{
    let mut j: usize = 0;
    while j < ms.len() && !text_eq(&ms[j].key, key)
        invariant
            j <= ms.len(),
            member_pos(ms@, key@, 0) == member_pos(ms@, key@, j as int),
        decreases ms.len() - j,
    {
        j += 1;
    }
    j
}

fn record_of_item(it: &JsonItem) -> (r: Option<ZedRecentProject>)
    ensures
        match r {
            Some(p) => item_record(*it) == Some(p@),
            None => item_record(*it) is None,
        },
{
    match it {
        JsonItem::Object(ms) => {
            let pi = member_index(ms, "path");
            if pi < ms.len() {
                match &ms[pi].value {
                    JsonField::Text(p) => {
                        let ti = member_index(ms, "timestamp");
                        let ts = if ti < ms.len() {
                            match &ms[ti].value {
                                JsonField::Number(n) => *n,
                                _ => None,
                            }
                        } else {
                            None
                        };
                        Some(ZedRecentProject { path: p.clone(), timestamp: ts, remote_info: None })
                    },
                    _ => None,
                }
            } else {
                None
            }
        },
        JsonItem::Other => None,
    }
}

/// The records of a parsed recent-projects value (see `json_records`).
pub fn records_from_json(doc: &Option<JsonDoc>) -> (r: Result<Vec<ZedRecentProject>, ZedError>)
    ensures
        result_view(r) == json_records(*doc),
{
    match doc {
        Some(JsonDoc::Array(items)) => {
            let mut r: Vec<ZedRecentProject> = Vec::new();
            let mut i: usize = 0;
            while i < items.len()
                invariant
                    i <= items.len(),
                    recents(r@) == kv_records(items@.subrange(0, i as int)),
                decreases items.len() - i,
            {
                proof {
                    assert(items@.subrange(0, i + 1).drop_last() =~= items@.subrange(0, i as int));
                }
                match record_of_item(&items[i]) {
                    Some(p) => {
                        let ghost prev = r@;
                        r.push(p);
                        proof {
                            assert(recents(r@) =~= recents(prev).push(p@));
                        }
                    },
                    None => {},
                }
                i += 1;
            }
            proof {
                assert(items@.subrange(0, items.len() as int) =~= items@);
            }
            Ok(r)
        },
        Some(JsonDoc::Other) => {
            let r: Vec<ZedRecentProject> = Vec::new();
            proof {
                assert(recents(r@) =~= Seq::<RecentView>::empty());
            }
            Ok(r)
        },
        None => Err(ZedError::InvalidJson),
    }
}

/// Parses the recent-projects value of the key-value schema.
pub fn parse_recent_projects_json(json_str: &str) -> (r: Result<Vec<ZedRecentProject>, ZedError>)
    ensures
        result_view(r) == json_records(json_doc_of(json_str@)),
{
    let doc = parse_json(json_str);
    records_from_json(&doc)
}

pub fn get_recent_projects_from_kv_store(t: &StoreTables) -> (r: Result<
    Vec<ZedRecentProject>,
    ZedError,
>)
    ensures
        result_view(r) == kv_result(*t),
{
    match &t.kv {
        Some(text) => parse_recent_projects_json(text.as_str()),
        None => match &t.kv_store {
            Some(text) => parse_recent_projects_json(text.as_str()),
            None => Err(ZedError::NoRecentProjectsKey),
        },
    }
}

/// Reads one storage file: the workspace schema first, the key-value schema where the
/// first fails or gives nothing.
pub fn get_recent_projects_from_db(t: &StoreTables) -> (r: Result<Vec<ZedRecentProject>, ZedError>)
    ensures
        result_view(r) == storage_result(*t),
{
    match get_recent_projects_from_workspaces(t) {
        Ok(v) => {
            if v.len() > 0 {
                return Ok(v);
            }
        },
        Err(_) => {},
    }
    get_recent_projects_from_kv_store(t)
}

/// The records of every file that could be read, file by file.
pub open spec fn ok_records(files: Seq<Result<Vec<ZedRecentProject>, ZedError>>) -> Seq<RecentView>
    decreases files.len(),
{
    if files.len() == 0 {
        Seq::<RecentView>::empty()
    } else {
        ok_records(files.drop_last()) + match files.last() {
            Ok(v) => recents(v@),
            Err(_) => Seq::<RecentView>::empty(),
        }
    }
}

/// Gathers the records of the files that were read; a file that failed adds none.
pub fn collect_recent_candidates(files: &Vec<Result<Vec<ZedRecentProject>, ZedError>>) -> (r: Vec<
    ZedRecentProject,
>)
    ensures
        recents(r@) == ok_records(files@),
{
    let mut r: Vec<ZedRecentProject> = Vec::new();
    let mut i: usize = 0;
    while i < files.len()
        invariant
            i <= files.len(),
            recents(r@) == ok_records(files@.subrange(0, i as int)),
        decreases files.len() - i,
    {
        proof {
            assert(files@.subrange(0, i + 1).drop_last() =~= files@.subrange(0, i as int));
        }
        match &files[i] {
            Ok(v) => {
                let ghost base = recents(r@);
                let mut j: usize = 0;
                while j < v.len()
                    invariant
                        j <= v.len(),
                        recents(r@) == base + recents(v@.subrange(0, j as int)),
                    decreases v.len() - j,
                {
                    let ghost prev = r@;
                    r.push(copy_recent(&v[j]));
                    proof {
                        assert(recents(r@) =~= recents(prev).push(v[j as int]@));
                        assert(recents(v@.subrange(0, j + 1)) =~= recents(
                            v@.subrange(0, j as int),
                        ).push(v[j as int]@));
                    }
                    j += 1;
                }
                proof {
                    assert(v@.subrange(0, v.len() as int) =~= v@);
                }
            },
            Err(_) => {
                proof {
                    assert(recents(r@) =~= recents(r@) + Seq::<RecentView>::empty());
                }
            },
        }
        i += 1;
    }
    proof {
        assert(files@.subrange(0, files.len() as int) =~= files@);
    }
    r
}

/// The remote connection a record belongs to, if any.
pub open spec fn connection_of(r: RecentView) -> Option<i64> {
    match r.remote {
        Some(ri) => Some(ri.connection_id),
        None => None,
    }
}

/// Two records stand for the same entry when path and remote connection agree: a local
/// path and a remote one with the same text are distinct.
pub open spec fn same_entry(a: RecentView, b: RecentView) -> bool {
    a.path == b.path && connection_of(a) == connection_of(b)
}

fn is_same_entry(a: &ZedRecentProject, b: &ZedRecentProject) -> (r: bool)
    ensures
        r == same_entry(a@, b@),
{
    let same_connection = match (&a.remote_info, &b.remote_info) {
        (Some(x), Some(y)) => x.connection_id == y.connection_id,
        (None, None) => true,
        _ => false,
    };
    same_connection && a.path == b.path
}

/// The records kept across files: the first of each entry, where it is remote or its
/// path exists (`exists[i]` tells whether the `i`-th record's path does).
pub open spec fn kept_recent(s: Seq<RecentView>, exists: Seq<bool>) -> Seq<RecentView>
    decreases s.len(),
{
    if s.len() == 0 {
        s
    } else {
        let p = kept_recent(s.drop_last(), exists);
        let x = s.last();
        if (exists|k: int| 0 <= k < p.len() && #[trigger] same_entry(p[k], x)) {
            p
        } else if x.remote is Some || exists[s.len() - 1] {
            p.push(x)
        } else {
            p
        }
    }
}

/// `Option<i64>`'s order: nothing before any value.
pub open spec fn ts_less(a: Option<i64>, b: Option<i64>) -> bool {
    match (a, b) {
        (None, Some(_)) => true,
        (Some(x), Some(y)) => x < y,
        _ => false,
    }
}

/// What `Path`'s order says of two text paths (it compares them component by component).
pub uninterp spec fn path_less(a: Seq<char>, b: Seq<char>) -> bool;

/// Relies on `Ord for std::path::Path`: the order depends on the two texts alone.
#[verifier::external_body]
fn path_lt(a: &str, b: &str) -> (r: bool)
    ensures
        r == path_less(a@, b@),
{
    std::path::Path::new(a) < std::path::Path::new(b)
}

/// Newest first, and among equal timestamps the greater path first.
pub open spec fn goes_before(a: RecentView, b: RecentView) -> bool {
    ts_less(b.timestamp, a.timestamp) || (b.timestamp == a.timestamp && path_less(b.path, a.path))
}

pub open spec fn recent_slot(s: Seq<RecentView>, x: RecentView, j: int) -> int
    decreases s.len() - j,
{
    if j < 0 || j >= s.len() {
        s.len() as int
    } else if goes_before(x, s[j]) {
        j
    } else {
        recent_slot(s, x, j + 1)
    }
}

/// A stable sort by `goes_before`, one record inserted at a time.
pub open spec fn sorted_recent(s: Seq<RecentView>) -> Seq<RecentView>
    decreases s.len(),
{
    if s.len() == 0 {
        s
    } else {
        let p = sorted_recent(s.drop_last());
        p.insert(recent_slot(p, s.last(), 0), s.last())
    }
}

fn before(a: &ZedRecentProject, b: &ZedRecentProject) -> (r: bool)
    ensures
        r == goes_before(a@, b@),
{
    let ts_gt = match (b.timestamp, a.timestamp) {
        (None, Some(_)) => true,
        (Some(x), Some(y)) => x < y,
        _ => false,
    };
    ts_gt || (b.timestamp == a.timestamp && path_lt(b.path.as_str(), a.path.as_str()))
}

/// Merges the records of all files: the first record of each entry is kept where it is
/// remote or its path exists, then all are sorted newest first, ties by path descending.
pub fn merge_recent_projects(candidates: &Vec<ZedRecentProject>, exists: &Vec<bool>) -> (r: Vec<
    ZedRecentProject,
>)
    requires
        candidates.len() == exists.len(),
    ensures
        recents(r@) == sorted_recent(kept_recent(recents(candidates@), exists@)),
{
    let mut kept: Vec<ZedRecentProject> = Vec::new();
    let mut i: usize = 0;
    while i < candidates.len()
        invariant
            candidates.len() == exists.len(),
            i <= candidates.len(),
            recents(kept@) == kept_recent(recents(candidates@).subrange(0, i as int), exists@),
        decreases candidates.len() - i,
    {
        let x = &candidates[i];
        let mut dup = false;
        let mut k: usize = 0;
        while k < kept.len()
            invariant
                k <= kept.len(),
                dup == exists|m: int| 0 <= m < k && #[trigger] same_entry(kept[m]@, x@),
            decreases kept.len() - k,
        {
            if is_same_entry(&kept[k], x) {
                dup = true;
            }
            k += 1;
        }
        let ghost s = recents(candidates@).subrange(0, i + 1);
        let ghost p = recents(kept@);
        proof {
            assert(s.drop_last() =~= recents(candidates@).subrange(0, i as int));
            assert(s.last() == x@);
            if dup {
                let m = choose|m: int| 0 <= m < kept.len() && #[trigger] same_entry(kept[m]@, x@);
                assert(p[m] == kept[m]@);
                assert(same_entry(p[m], x@));
            } else {
                assert forall|m: int| 0 <= m < p.len() implies !#[trigger] same_entry(p[m], x@) by {
                    assert(p[m] == kept[m]@);
                }
            }
        }
        if !dup && (x.remote_info.is_some() || exists[i]) {
            kept.push(copy_recent(x));
            proof {
                assert(recents(kept@) =~= p.push(x@));
            }
        }
        i += 1;
    }
    proof {
        assert(recents(candidates@).subrange(0, candidates.len() as int) =~= recents(candidates@));
    }
    let mut r: Vec<ZedRecentProject> = Vec::new();
    let ghost ks = recents(kept@);
    let mut i: usize = 0;
    while i < kept.len()
        invariant
            i <= kept.len(),
            ks == recents(kept@),
            recents(r@) == sorted_recent(ks.subrange(0, i as int)),
        decreases kept.len() - i,
    {
        let x = copy_recent(&kept[i]);
        let mut j: usize = 0;
        while j < r.len() && !before(&x, &r[j])
            invariant
                j <= r.len(),
                recent_slot(recents(r@), x@, 0) == recent_slot(recents(r@), x@, j as int),
            decreases r.len() - j,
        {
            j += 1;
        }
        proof {
            assert(ks.subrange(0, i + 1).drop_last() =~= ks.subrange(0, i as int));
        }
        let ghost prev = recents(r@);
        r.insert(j, x);
        proof {
            assert(recents(r@) =~= prev.insert(j as int, x@));
        }
        i += 1;
    }
    proof {
        assert(ks.subrange(0, kept.len() as int) =~= ks);
    }
    r
}

/// The recent projects of the state store, from what was read of it: `present` tells
/// which config-directory candidates exist, `listing` is the listing of the chosen
/// directory's `db`, `files` the result of reading each storage file found there, and
/// `exists` whether the path of each record read exists.
pub open spec fn store_result(
    present: Seq<bool>,
    listing: DbDirListing,
    files: Seq<Result<Vec<ZedRecentProject>, ZedError>>,
    exists: Seq<bool>,
) -> Result<Seq<RecentView>, ZedError> {
    if first_set_from(present, 0) == present.len() {
        Err(ZedError::ConfigNotFound)
    } else {
        match listing {
            DbDirListing::Missing => Ok(Seq::<RecentView>::empty()),
            DbDirListing::Unreadable => Err(ZedError::DbDirUnreadable),
            DbDirListing::Entries(_) => Ok(sorted_recent(kept_recent(ok_records(files), exists))),
        }
    }
}

/// Reads the editor's recent projects out of what was read of its state store (see
/// `store_result`): no config directory is an error, a missing `db` directory gives no
/// records, and a storage file that failed adds none while the others still count.
pub fn get_recent_projects(
    present: &Vec<bool>,
    listing: &DbDirListing,
    files: &Vec<Result<Vec<ZedRecentProject>, ZedError>>,
    exists: &Vec<bool>,
) -> (r: Result<Vec<ZedRecentProject>, ZedError>)
    requires
        exists.len() == ok_records(files@).len(),
    ensures
        result_view(r) == store_result(present@, *listing, files@, exists@),
{
    let mut i: usize = 0;
    while i < present.len() && !present[i]
        invariant
            i <= present.len(),
            first_set_from(present@, 0) == first_set_from(present@, i as int),
        decreases present.len() - i,
    {
        i += 1;
    }
    if i == present.len() {
        return Err(ZedError::ConfigNotFound);
    }
    match listing {
        DbDirListing::Missing => {
            let r: Vec<ZedRecentProject> = Vec::new();
            proof {
                assert(recents(r@) =~= Seq::<RecentView>::empty());
            }
            Ok(r)
        },
        DbDirListing::Unreadable => Err(ZedError::DbDirUnreadable),
        DbDirListing::Entries(_) => {
            let candidates = collect_recent_candidates(files);
            Ok(merge_recent_projects(&candidates, exists))
        },
    }
}

/// Over a `db` listing of any length, the storage files found are exactly those of the
/// qualifying entries: a directory whose name is `<digits>-<channel>` and that holds `db`
/// or `db.sqlite` contributes its file, and every file found comes from such an entry.
pub proof fn lemma_db_files_from_qualifying_dirs(es: Seq<DbDirEntry>)
    ensures
        forall|i: int|
            0 <= i < es.len() && (#[trigger] es[i]).is_dir && valid_db_dir_name(es[i].name@) && (
            has_file(es[i], "db"@) || has_file(es[i], "db.sqlite"@)) ==> db_file_of(es[i]) is Some
                && db_files(es).contains(db_file_of(es[i])->Some_0),
        forall|f: Seq<char>|
            #[trigger] db_files(es).contains(f) ==> exists|i: int|
                0 <= i < es.len() && es[i].is_dir && valid_db_dir_name(es[i].name@) && #[trigger] db_file_of(es[i])
                    == Some(f),
    decreases es.len(),
{
    if es.len() > 0 {
        let t = es.drop_last();
        lemma_db_files_from_qualifying_dirs(t);
        let p = db_files(t);
        let d = db_files(es);
        assert forall|i: int|
            0 <= i < es.len() && (#[trigger] es[i]).is_dir && valid_db_dir_name(es[i].name@) && (
            has_file(es[i], "db"@) || has_file(es[i], "db.sqlite"@)) implies db_file_of(es[i]) is Some
            && d.contains(db_file_of(es[i])->Some_0) by {
            let f = db_file_of(es[i])->Some_0;
            if i < es.len() - 1 {
                assert(t[i] == es[i]);
                let k = choose|k: int| 0 <= k < p.len() && p[k] == f;
                assert(d[k] == f);
            } else {
                assert(d[d.len() - 1] == f);
            }
        }
        assert forall|f: Seq<char>| #[trigger] d.contains(f) implies exists|i: int|
            0 <= i < es.len() && es[i].is_dir && valid_db_dir_name(es[i].name@) && #[trigger] db_file_of(es[i])
                == Some(f) by {
            let k = choose|k: int| 0 <= k < d.len() && d[k] == f;
            if k < p.len() {
                assert(p[k] == f);
                assert(p.contains(f));
                let i = choose|i: int|
                    0 <= i < t.len() && t[i].is_dir && valid_db_dir_name(t[i].name@) && #[trigger] db_file_of(t[i])
                        == Some(f);
                assert(es[i] == t[i]);
            } else {
                assert(db_file_of(es[es.len() - 1]) == Some(f));
            }
        }
    }
}

} // verus!
