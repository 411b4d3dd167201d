use vstd::prelude::*;

use crate::alfred::{AlfredIcon, AlfredItem, ItemView};
use crate::project::{Project, ProjectView, ScanNode, copy_project, scan_result, views};
use crate::zed_db::{RecentView, ZedRecentProject, copy_recent, opt_text, recents};

verus! {

pub open spec fn is_ascii_upper(c: char) -> bool {
    'A' <= c && c <= 'Z'
}

/// `char::eq_ignore_ascii_case`, or plain equality when `exact`.
pub open spec fn chars_match(a: char, b: char, exact: bool) -> bool {
    a == b || (!exact && ((is_ascii_upper(a) && (b as u32) == (a as u32) + 32) || (is_ascii_upper(
        b,
    ) && (a as u32) == (b as u32) + 32)))
}

/// Whether `pattern` occurs in `text` as a subsequence, characters compared by
/// `chars_match`.
pub open spec fn is_subsequence(pattern: Seq<char>, text: Seq<char>, exact: bool) -> bool
    decreases text.len(),
{
    if pattern.len() == 0 {
        true
    } else if text.len() == 0 {
        false
    } else if chars_match(text[0], pattern[0], exact) {
        is_subsequence(pattern.drop_first(), text.drop_first(), exact)
    } else {
        is_subsequence(pattern, text.drop_first(), exact)
    }
}

/// Whether the skim fuzzy matcher, with its default smart case, finds `pattern` in
/// `choice`: an empty pattern always matches; otherwise the pattern must be a subsequence
/// of the choice, compared exactly when the pattern holds an ASCII capital and ignoring
/// ASCII case when it does not.
pub open spec fn fuzzy_matches(choice: Seq<char>, pattern: Seq<char>) -> bool {
    pattern.len() == 0 || is_subsequence(
        pattern,
        choice,
        exists|i: int| 0 <= i < pattern.len() && #[trigger] is_ascii_upper(pattern[i]),
    )
}

/// Relies on `fuzzy_matcher::skim::SkimMatcherV2::fuzzy_match` with default settings: it
/// returns a score exactly when `cheap_matches` finds the pattern as a subsequence.
#[verifier::external_body]
fn fuzzy_match(choice: &str, pattern: &str) -> (r: bool)
    ensures
        r == fuzzy_matches(choice@, pattern@),
{
    fuzzy_matcher::FuzzyMatcher::fuzzy_match(
        &fuzzy_matcher::skim::SkimMatcherV2::default(),
        choice,
        pattern,
    ).is_some()
}

/// The last component of a path, as `Path::file_name` gives it.
pub uninterp spec fn file_name_of(path: Seq<char>) -> Option<Seq<char>>;

/// Relies on `std::path::Path::file_name`: it depends on the text alone.
#[verifier::external_body]
fn file_name(path: &str) -> (r: Option<String>)
    ensures
        opt_text(r) == file_name_of(path@),
{
    std::path::Path::new(path).file_name().and_then(|n| n.to_str()).map(|n| n.to_string())
}

/// The text `chrono` writes for the UTC time `ts` seconds after the epoch in the format
/// `fmt`, or `None` where the time is out of its range.
pub uninterp spec fn formatted_time(ts: i64, fmt: Seq<char>) -> Option<Seq<char>>;

/// Relies on `chrono::DateTime::from_timestamp` and `format`: the text depends on the
/// two arguments alone. Only the one format the listing uses is admitted, since
/// formatting panics on a format string that chrono cannot read.
#[verifier::external_body]
fn format_time(ts: i64, fmt: &str) -> (r: Option<String>)
    requires
        fmt@ == "%Y-%m-%d %H:%M"@,
    ensures
        opt_text(r) == formatted_time(ts, fmt@),
{
    chrono::DateTime::from_timestamp(ts, 0).map(|d| d.format(fmt).to_string())
}

pub open spec fn name_or(path: Seq<char>, fallback: Seq<char>) -> Seq<char> {
    match file_name_of(path) {
        Some(n) => n,
        None => fallback,
    }
}

/// A history record is listed when it is remote or remote records are not asked for
/// alone, and the query is empty or matches its name or its path.
pub open spec fn recent_matches(p: RecentView, query: Seq<char>, remote_only: bool) -> bool {
    (!remote_only || p.remote is Some) && (query.len() == 0 || fuzzy_matches(
        name_or(p.path, Seq::<char>::empty()),
        query,
    ) || fuzzy_matches(p.path, query))
}

pub open spec fn recent_filtered(s: Seq<RecentView>, query: Seq<char>, remote_only: bool) -> Seq<
    RecentView,
>
    decreases s.len(),
{
    if s.len() == 0 {
        s
    } else {
        let p = recent_filtered(s.drop_last(), query, remote_only);
        if recent_matches(s.last(), query, remote_only) {
            p.push(s.last())
        } else {
            p
        }
    }
}

pub open spec fn project_matches(p: ProjectView, query: Seq<char>) -> bool {
    query.len() == 0 || fuzzy_matches(p.name, query) || fuzzy_matches(p.path, query)
}

pub open spec fn projects_filtered(s: Seq<ProjectView>, query: Seq<char>) -> Seq<ProjectView>
    decreases s.len(),
{
    if s.len() == 0 {
        s
    } else {
        let p = projects_filtered(s.drop_last(), query);
        if project_matches(s.last(), query) {
            p.push(s.last())
        } else {
            p
        }
    }
}

/// The history records that the query and the remote-only flag let through, in order.
pub fn filter_recent(recent: &Vec<ZedRecentProject>, query: &str, remote_only: bool) -> (r: Vec<
    ZedRecentProject,
>)
    ensures
        recents(r@) == recent_filtered(recents(recent@), query@, remote_only),
{
    let empty_query = query.unicode_len() == 0;
    let mut r: Vec<ZedRecentProject> = Vec::new();
    let mut i: usize = 0;
    while i < recent.len()
        invariant
            i <= recent.len(),
            empty_query == (query@.len() == 0),
            recents(r@) == recent_filtered(recents(recent@).subrange(0, i as int), query@, remote_only),
        decreases recent.len() - i,
    {
        let p = &recent[i];
        let keep = if remote_only && p.remote_info.is_none() {
            false
        } else if empty_query {
            true
        } else {
            let name = match file_name(p.path.as_str()) {
                Some(n) => n,
                None => String::new(),
            };
            fuzzy_match(name.as_str(), query) || fuzzy_match(p.path.as_str(), query)
        };
        proof {
            assert(recents(recent@).subrange(0, i + 1).drop_last() =~= recents(recent@).subrange(
                0,
                i as int,
            ));
            assert(recents(recent@)[i as int] == p@);
        }
        if keep {
            let ghost prev = r@;
            r.push(copy_recent(p));
            proof {
                assert(recents(r@) =~= recents(prev).push(p@));
            }
        }
        i += 1;
    }
    proof {
        assert(recents(recent@).subrange(0, recent.len() as int) =~= recents(recent@));
    }
    r
}

/// The scanned projects whose name or path the query matches (all of them for an empty
/// query), in order.
pub fn filter_projects(projects: &Vec<Project>, query: &str) -> (r: Vec<Project>)
    ensures
        views(r@) == projects_filtered(views(projects@), query@),
{
    let empty_query = query.unicode_len() == 0;
    let mut r: Vec<Project> = Vec::new();
    let mut i: usize = 0;
    while i < projects.len()
        invariant
            i <= projects.len(),
            empty_query == (query@.len() == 0),
            views(r@) == projects_filtered(views(projects@).subrange(0, i as int), query@),
        decreases projects.len() - i,
    {
        let p = &projects[i];
        let keep = empty_query || fuzzy_match(p.name.as_str(), query) || fuzzy_match(
            p.path.as_str(),
            query,
        );
        proof {
            assert(views(projects@).subrange(0, i + 1).drop_last() =~= views(projects@).subrange(
                0,
                i as int,
            ));
            assert(views(projects@)[i as int] == p@);
        }
        if keep {
            let ghost prev = r@;
            r.push(copy_project(p));
            proof {
                assert(views(r@) =~= views(prev).push(p@));
            }
        }
        i += 1;
    }
    proof {
        assert(views(projects@).subrange(0, projects.len() as int) =~= views(projects@));
    }
    r
}

/// Whether the directory scan is run: never for remote records alone, else when no
/// history record is listed or a query is active.
pub fn needs_directory_scan(listed_recent: usize, query: &str, remote_only: bool) -> (r: bool)
    ensures
        r == (!remote_only && (listed_recent == 0 || query@.len() > 0)),
{
    !remote_only && (listed_recent == 0 || query.unicode_len() > 0)
}

/// One entry of the merged list.
#[derive(Clone, Debug)]
pub enum ListEntry {
    Recent(ZedRecentProject),
    Separator,
    Scanned(Project),
}

pub enum EntryView {
    Recent(RecentView),
    Separator,
    Scanned(ProjectView),
}

impl View for ListEntry {
    type V = EntryView;

    open spec fn view(&self) -> EntryView {
        match self {
            ListEntry::Recent(p) => EntryView::Recent(p@),
            ListEntry::Separator => EntryView::Separator,
            ListEntry::Scanned(p) => EntryView::Scanned(p@),
        }
    }
}

pub open spec fn entries(s: Seq<ListEntry>) -> Seq<EntryView> {
    s.map_values(|e: ListEntry| e@)
}

pub open spec fn at_most<T>(s: Seq<T>, n: nat) -> Seq<T> {
    if s.len() > n {
        s.take(n as int)
    } else {
        s
    }
}

/// Whether some listed history record has the project's path.
pub open spec fn already_listed(p: ProjectView, shown: Seq<RecentView>) -> bool {
    exists|k: int| 0 <= k < shown.len() && #[trigger] shown[k].path == p.path
}

/// The scanned projects whose path no listed history record has, in order.
pub open spec fn fresh_projects(s: Seq<ProjectView>, shown: Seq<RecentView>) -> Seq<ProjectView>
    decreases s.len(),
{
    if s.len() == 0 {
        s
    } else {
        let p = fresh_projects(s.drop_last(), shown);
        if already_listed(s.last(), shown) {
            p
        } else {
            p.push(s.last())
        }
    }
}

/// The merged list: the first `max_recent` history records, then the first
/// `max_scanned` scanned projects that no listed record duplicates, with a separator
/// between the two groups when both are non-empty.
pub open spec fn merged(
    recent: Seq<RecentView>,
    scanned: Seq<ProjectView>,
    max_recent: nat,
    max_scanned: nat,
) -> Seq<EntryView> {
    let r = at_most(recent, max_recent);
    let d = at_most(fresh_projects(scanned, r), max_scanned);
    r.map_values(|p: RecentView| EntryView::Recent(p)) + (if r.len() > 0 && d.len() > 0 {
        seq![EntryView::Separator]
    } else {
        Seq::<EntryView>::empty()
    }) + d.map_values(|p: ProjectView| EntryView::Scanned(p))
}

/// Merges listed history records with scanned projects (see `merged`).
pub fn merge_results(
    recent: &Vec<ZedRecentProject>,
    scanned: &Vec<Project>,
    max_recent: usize,
    max_scanned: usize,
) -> (r: Vec<ListEntry>)
    ensures
        entries(r@) == merged(recents(recent@), views(scanned@), max_recent as nat, max_scanned as nat),
{
    let ghost rs = at_most(recents(recent@), max_recent as nat);
    let n_recent = if recent.len() > max_recent {
        max_recent
    } else {
        recent.len()
    };
    let mut shown: Vec<ListEntry> = Vec::new();
    let mut i: usize = 0;
    while i < n_recent
        invariant
            n_recent <= recent.len(),
            rs.len() == n_recent,
            rs == at_most(recents(recent@), max_recent as nat),
            i <= n_recent,
            entries(shown@) == rs.take(i as int).map_values(|p: RecentView| EntryView::Recent(p)),
        decreases n_recent - i,
    {
        let ghost prev = shown@;
        let e = ListEntry::Recent(copy_recent(&recent[i]));
        shown.push(e);
        proof {
            assert(rs[i as int] == recent[i as int]@);
            assert(entries(shown@) =~= entries(prev).push(EntryView::Recent(rs[i as int])));
            assert(entries(shown@) =~= rs.take(i + 1).map_values(
                |p: RecentView| EntryView::Recent(p),
            ));
        }
        i += 1;
    }
    proof {
        assert(rs.take(n_recent as int) =~= rs);
    }
    let mut fresh: Vec<Project> = Vec::new();
    let mut j: usize = 0;
    while j < scanned.len()
        invariant
            n_recent <= recent.len(),
            rs.len() == n_recent,
            forall|k: int| 0 <= k < n_recent ==> #[trigger] rs[k] == recent[k]@,
            j <= scanned.len(),
            views(fresh@) == fresh_projects(views(scanned@).subrange(0, j as int), rs),
        decreases scanned.len() - j,
    {
        let p = &scanned[j];
        let mut dup = false;
        let mut k: usize = 0;
        while k < n_recent
            invariant
                n_recent <= recent.len(),
                k <= n_recent,
                dup == exists|m: int| 0 <= m < k && #[trigger] recent[m].path@ == p.path@,
            decreases n_recent - k,
        {
            if recent[k].path == p.path {
                dup = true;
            }
            k += 1;
        }
        proof {
            assert(views(scanned@).subrange(0, j + 1).drop_last() =~= views(scanned@).subrange(
                0,
                j as int,
            ));
            assert(views(scanned@)[j as int] == p@);
            if dup {
                let m = choose|m: int| 0 <= m < n_recent && #[trigger] recent[m].path@ == p.path@;
                assert(rs[m].path == p@.path);
            } else {
                assert forall|m: int| 0 <= m < rs.len() implies !(#[trigger] rs[m].path == p@.path) by {
                    assert(rs[m] == recent[m]@);
                }
            }
        }
        if !dup {
            let ghost prev = fresh@;
            fresh.push(copy_project(p));
            proof {
                assert(views(fresh@) =~= views(prev).push(p@));
            }
        }
        j += 1;
    }
    proof {
        assert(views(scanned@).subrange(0, scanned.len() as int) =~= views(scanned@));
    }
    let ghost ds = at_most(views(fresh@), max_scanned as nat);
    let n_fresh = if fresh.len() > max_scanned {
        max_scanned
    } else {
        fresh.len()
    };
    let ghost head = entries(shown@);
    if n_recent > 0 && n_fresh > 0 {
        shown.push(ListEntry::Separator);
    }
    let ghost mid = entries(shown@);
    proof {
        assert(mid =~= head + (if rs.len() > 0 && ds.len() > 0 {
            seq![EntryView::Separator]
        } else {
            Seq::<EntryView>::empty()
        }));
    }
    let mut t: usize = 0;
    while t < n_fresh
        invariant
            n_fresh <= fresh.len(),
            ds.len() == n_fresh,
            ds == at_most(views(fresh@), max_scanned as nat),
            t <= n_fresh,
            entries(shown@) == mid + ds.take(t as int).map_values(|p: ProjectView| EntryView::Scanned(p)),
        decreases n_fresh - t,
    {
        let ghost prev = shown@;
        let e = ListEntry::Scanned(copy_project(&fresh[t]));
        shown.push(e);
        proof {
            assert(ds[t as int] == fresh[t as int]@);
            assert(entries(shown@) =~= entries(prev).push(EntryView::Scanned(ds[t as int])));
            assert(entries(shown@) =~= mid + ds.take(t + 1).map_values(
                |p: ProjectView| EntryView::Scanned(p),
            ));
        }
        t += 1;
    }
    proof {
        assert(ds.take(n_fresh as int) =~= ds);
    }
    shown
}

/// A scanned project whose path a listed history record has never shows up in the
/// merged list a second time: the history copy is listed and no scanned entry has that
/// path.
pub proof fn lemma_merge_keeps_one_copy(
    recent: Seq<RecentView>,
    scanned: Seq<ProjectView>,
    max_recent: nat,
    max_scanned: nat,
    k: int,
)
    requires
        0 <= k < recent.len(),
        k < max_recent,
    ensures
        merged(recent, scanned, max_recent, max_scanned).contains(EntryView::Recent(recent[k])),
        forall|i: int|
            0 <= i < merged(recent, scanned, max_recent, max_scanned).len() ==> match #[trigger] merged(
                recent,
                scanned,
                max_recent,
                max_scanned,
            )[i] {
                EntryView::Scanned(p) => p.path != recent[k].path,
                _ => true,
            },
{
    let r = at_most(recent, max_recent);
    let f = fresh_projects(scanned, r);
    let d = at_most(f, max_scanned);
    let m = merged(recent, scanned, max_recent, max_scanned);
    let sep: Seq<EntryView> = if r.len() > 0 && d.len() > 0 {
        seq![EntryView::Separator]
    } else {
        Seq::<EntryView>::empty()
    };
    let rm = r.map_values(|p: RecentView| EntryView::Recent(p));
    let dm = d.map_values(|p: ProjectView| EntryView::Scanned(p));
    assert(m == rm + sep + dm);
    assert(r[k] == recent[k]);
    assert(m[k] == EntryView::Recent(recent[k]));
    lemma_fresh_not_listed(scanned, r);
    assert forall|i: int| 0 <= i < m.len() implies match #[trigger] m[i] {
        EntryView::Scanned(p) => p.path != recent[k].path,
        _ => true,
    } by {
        if i >= rm.len() + sep.len() {
            let j = i - rm.len() - sep.len();
            assert(m[i] == dm[j]);
            assert(d[j] == f[j]);
            assert(!already_listed(f[j], r));
            assert(r[k].path == recent[k].path);
        } else if i >= rm.len() {
            assert(m[i] == sep[i - rm.len()]);
        } else {
            assert(m[i] == rm[i]);
        }
    }
}

pub proof fn lemma_fresh_not_listed(s: Seq<ProjectView>, shown: Seq<RecentView>)
    ensures
        forall|j: int|
            0 <= j < fresh_projects(s, shown).len() ==> !already_listed(
                #[trigger] fresh_projects(s, shown)[j],
                shown,
            ),
    decreases s.len(),
{
    if s.len() > 0 {
        lemma_fresh_not_listed(s.drop_last(), shown);
        let p = fresh_projects(s.drop_last(), shown);
        let f = fresh_projects(s, shown);
        assert forall|j: int| 0 <= j < f.len() implies !already_listed(#[trigger] f[j], shown) by {
            if j < p.len() {
                assert(f[j] == p[j]);
            }
        }
    }
}

/// `🌐 <host> ` before a remote record's title (`remote` where the host is unknown).
pub open spec fn remote_prefix(p: RecentView) -> Seq<char> {
    match p.remote {
        Some(ri) => "🌐 "@ + match ri.host {
            Some(h) => h,
            None => "remote"@,
        } + " "@,
        None => Seq::<char>::empty(),
    }
}

/// ` • <date time>` after a record's title where its timestamp can be written.
pub open spec fn time_suffix(p: RecentView) -> Seq<char> {
    match p.timestamp {
        Some(t) => match formatted_time(t, "%Y-%m-%d %H:%M"@) {
            Some(d) => " • "@ + d,
            None => Seq::<char>::empty(),
        },
        None => Seq::<char>::empty(),
    }
}

pub open spec fn recent_item_view(p: RecentView, icon: Seq<char>) -> ItemView {
    let name = name_or(p.path, "Unknown"@);
    ItemView {
        uid: p.path,
        item_type: "file"@,
        title: remote_prefix(p) + icon + name + time_suffix(p),
        subtitle: p.path,
        arg: p.path,
        autocomplete: name,
        icon_type: "fileicon"@,
        icon_path: p.path,
    }
}

/// The launcher item of a history record, with the given badge.
pub fn recent_item(p: &ZedRecentProject, icon: &str) -> (r: AlfredItem)
    ensures
        r@ == recent_item_view(p@, icon@),
{
    let name = match file_name(p.path.as_str()) {
        Some(n) => n,
        None => String::from_str("Unknown"),
    };
    let prefix = match &p.remote_info {
        Some(ri) => {
            let host = match &ri.host {
                Some(h) => h.clone(),
                None => String::from_str("remote"),
            };
            String::from_str("🌐 ").concat(host.as_str()).concat(" ")
        },
        None => String::new(),
    };
    let suffix = match p.timestamp {
        Some(t) => match format_time(t, "%Y-%m-%d %H:%M") {
            Some(d) => String::from_str(" • ").concat(d.as_str()),
            None => String::new(),
        },
        None => String::new(),
    };
    let title = prefix.concat(icon).concat(name.as_str()).concat(suffix.as_str());
    AlfredItem {
        uid: p.path.clone(),
        item_type: String::from_str("file"),
        title,
        subtitle: p.path.clone(),
        arg: p.path.clone(),
        autocomplete: name,
        icon: AlfredIcon { icon_type: String::from_str("fileicon"), path: p.path.clone() },
    }
}

pub open spec fn project_item_view(p: ProjectView, icon: Seq<char>) -> ItemView {
    ItemView {
        uid: p.path,
        item_type: "file"@,
        title: icon + " "@ + p.name,
        subtitle: p.path,
        arg: p.path,
        autocomplete: p.name,
        icon_type: "fileicon"@,
        icon_path: p.path,
    }
}

/// The launcher item of a scanned project, with the given badge.
pub fn project_item(p: &Project, icon: &str) -> (r: AlfredItem)
    ensures
        r@ == project_item_view(p@, icon@),
{
    AlfredItem {
        uid: p.path.clone(),
        item_type: String::from_str("file"),
        title: String::from_str(icon).concat(" ").concat(p.name.as_str()),
        subtitle: p.path.clone(),
        arg: p.path.clone(),
        autocomplete: p.name.clone(),
        icon: AlfredIcon { icon_type: String::from_str("fileicon"), path: p.path.clone() },
    }
}

pub open spec fn separator_view(uid: Seq<char>, title: Seq<char>) -> ItemView {
    ItemView {
        uid,
        item_type: "default"@,
        title,
        subtitle: Seq::<char>::empty(),
        arg: Seq::<char>::empty(),
        autocomplete: Seq::<char>::empty(),
        icon_type: "default"@,
        icon_path: Seq::<char>::empty(),
    }
}

/// The labelled item placed between history records and scanned projects.
pub fn separator_item(uid: &str, title: &str) -> (r: AlfredItem)
    ensures
        r@ == separator_view(uid@, title@),
{
    AlfredItem {
        uid: String::from_str(uid),
        item_type: String::from_str("default"),
        title: String::from_str(title),
        subtitle: String::new(),
        arg: String::new(),
        autocomplete: String::new(),
        icon: AlfredIcon { icon_type: String::from_str("default"), path: String::new() },
    }
}

/// The explanation shown when the list is empty, by mode and by whether a query is
/// active: a title and a subtitle.
pub fn no_results_text(remote_only: bool, query_active: bool) -> (r: (&'static str, &'static str))
    ensures
        r.0@ == (if remote_only {
            if query_active {
                "No remote projects match your search"@
            } else {
                "No remote projects found"@
            }
        } else if query_active {
            "No projects match your search"@
        } else {
            "No projects found"@
        }),
        r.1@ == (if query_active {
            "Try a different search term"@
        } else if remote_only {
            "Open remote projects in Zed using SSH or dev server"@
        } else {
            "Open projects in Zed or add directories to PROJECT_DIRS"@
        }),
{
    if remote_only {
        if query_active {
            ("No remote projects match your search", "Try a different search term")
        } else {
            ("No remote projects found", "Open remote projects in Zed using SSH or dev server")
        }
    } else if query_active {
        ("No projects match your search", "Try a different search term")
    } else {
        ("No projects found", "Open projects in Zed or add directories to PROJECT_DIRS")
    }
}

/// The same for what a directory scan reports: a path that is both a listed history record
/// and a project found by `detect_projects` appears once in the merged list, as the
/// history record.
pub proof fn lemma_scanned_path_listed_once(
    recent: Seq<RecentView>,
    roots: Seq<ScanNode>,
    max_depth: int,
    max_recent: nat,
    max_scanned: nat,
    k: int,
)
    requires
        0 <= k < recent.len(),
        k < max_recent,
    ensures
        merged(recent, scan_result(roots, max_depth), max_recent, max_scanned).contains(
            EntryView::Recent(recent[k]),
        ),
        forall|i: int|
            0 <= i < merged(recent, scan_result(roots, max_depth), max_recent, max_scanned).len()
                ==> match #[trigger] merged(
                recent,
                scan_result(roots, max_depth),
                max_recent,
                max_scanned,
            )[i] {
                EntryView::Scanned(p) => p.path != recent[k].path,
                _ => true,
            },
{
    lemma_merge_keeps_one_copy(recent, scan_result(roots, max_depth), max_recent, max_scanned, k);
}

} // verus!
