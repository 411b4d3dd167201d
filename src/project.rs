use vstd::prelude::*;

use crate::text::{
    chars_of, ends_with, ends_with_chars, join_path, joined, lex_less, lex_lt, lower_of,
    remove_char, split_char, split_on, text_eq, to_lowercase, trim, trimmed, without_char,
};

verus! {

broadcast use vstd::std_specs::vec::axiom_vec_index_decreases;

/// One entry directly inside a directory; `is_dir` and `is_file` follow symbolic links.
#[derive(Clone, Debug)]
pub struct DirChild {
    pub name: String,
    pub is_dir: bool,
    pub is_file: bool,
}

/// What project detection reads of one directory: its base name, whether it is a
/// directory at all, and its immediate entries.
#[derive(Clone, Debug)]
pub struct DirSnapshot {
    pub name: String,
    pub is_dir: bool,
    pub entries: Vec<DirChild>,
}

/// A directory of a scanned tree: its snapshot, the path it was reached by, its
/// symlink-resolved path (the path itself where resolving failed) and the
/// subdirectories the walk may enter.
#[derive(Debug)]
pub struct ScanNode {
    pub dir: DirSnapshot,
    pub path: String,
    pub canonical: String,
    pub children: Vec<ScanNode>,
}

#[derive(Clone, Debug)]
pub struct Project {
    pub name: String,
    pub path: String,
}

pub struct ProjectView {
    pub name: Seq<char>,
    pub path: Seq<char>,
}

impl View for Project {
    type V = ProjectView;

    open spec fn view(&self) -> ProjectView {
        ProjectView { name: self.name@, path: self.path@ }
    }
}

/// Names that are never projects themselves.
pub open spec fn excluded_name(s: Seq<char>) -> bool {
    (s.len() > 0 && s[0] == '.') || s == "node_modules"@ || s == "target"@ || s == "dist"@ || s
        == "build"@ || s == "__pycache__"@ || s == "vendor"@
}

/// Names the scan does not descend into.
pub open spec fn pruned_name(s: Seq<char>) -> bool {
    (s.len() > 0 && s[0] == '.') || s == "node_modules"@ || s == "target"@ || s == "__pycache__"@
}

pub open spec fn is_marker_file(s: Seq<char>) -> bool {
    s == "package.json"@ || s == "Cargo.toml"@ || s == "pyproject.toml"@ || s
        == "requirements.txt"@ || s == "go.mod"@ || s == "composer.json"@ || s == "Gemfile"@ || s
        == "Makefile"@ || s == "CMakeLists.txt"@ || s == "pom.xml"@ || s == "build.gradle"@
}

/// A name matches a pattern whose `*` stands for any prefix: it ends with the rest.
pub open spec fn pattern_match(name: Seq<char>, pattern: Seq<char>) -> bool {
    ends_with(name, without_char(pattern, '*'))
}

pub open spec fn has_marker_suffix(s: Seq<char>) -> bool {
    pattern_match(s, "*.xcodeproj"@) || pattern_match(s, "*.xcworkspace"@) || pattern_match(
        s,
        "*.sln"@,
    )
}

pub open spec fn marks_project(c: DirChild) -> bool {
    (c.is_dir && c.name@ == ".git"@) || (c.is_file && is_marker_file(c.name@)) || has_marker_suffix(
        c.name@,
    )
}

pub open spec fn has_child_dir(d: DirSnapshot, name: Seq<char>) -> bool {
    exists|i: int| 0 <= i < d.entries.len() && #[trigger] d.entries[i].is_dir && d.entries[i].name@ == name
}

pub open spec fn has_child_file(d: DirSnapshot, name: Seq<char>) -> bool {
    exists|i: int| 0 <= i < d.entries.len() && #[trigger] d.entries[i].is_file && d.entries[i].name@ == name
}

/// A directory is a project when its name is not excluded and it holds a `.git`
/// directory, a marker file, or an entry with a marker suffix.
pub open spec fn is_project_dir(d: DirSnapshot) -> bool {
    d.is_dir && !excluded_name(d.name@) && exists|i: int|
        0 <= i < d.entries.len() && #[trigger] marks_project(d.entries[i])
}

/// The directories that the walk visits and finds to be projects, in visiting order:
/// a directory is tested, and its children are visited only when its depth is below
/// `max_depth` and its name is not pruned.
pub open spec fn visit(n: ScanNode, depth: int, max_depth: int) -> Seq<ScanNode>
    decreases n, n.children.len() + 1,
{
    let here: Seq<ScanNode> = if is_project_dir(n.dir) {
        seq![n]
    } else {
        Seq::<ScanNode>::empty()
    };
    if pruned_name(n.dir.name@) || depth >= max_depth {
        here
    } else {
        here + visit_children(n, n.children.len() as int, depth + 1, max_depth)
    }
}

/// The visits of the first `k` children of `n`, in order.
pub open spec fn visit_children(n: ScanNode, k: int, depth: int, max_depth: int) -> Seq<ScanNode>
    decreases n, k,
{
    if k <= 0 || k > n.children.len() {
        Seq::<ScanNode>::empty()
    } else {
        visit_children(n, k - 1, depth, max_depth) + visit(n.children[k - 1], depth, max_depth)
    }
}

/// The visits of the first `k` roots, each walked from depth 0.
pub open spec fn visit_roots(roots: Seq<ScanNode>, k: int, max_depth: int) -> Seq<ScanNode>
    decreases k,
{
    if k <= 0 || k > roots.len() {
        Seq::<ScanNode>::empty()
    } else {
        visit_roots(roots, k - 1, max_depth) + visit(roots[k - 1], 0, max_depth)
    }
}

pub open spec fn project_name(n: ScanNode) -> Seq<char> {
    if n.dir.name@.len() == 0 {
        "Unknown"@
    } else {
        n.dir.name@
    }
}

pub open spec fn project_of(n: ScanNode) -> ProjectView {
    ProjectView { name: project_name(n), path: n.canonical@ }
}

pub open spec fn views(s: Seq<Project>) -> Seq<ProjectView> {
    s.map_values(|p: Project| p@)
}

pub open spec fn found_projects(s: Seq<ScanNode>) -> Seq<ProjectView> {
    s.map_values(|n: ScanNode| project_of(n))
}

/// The first project reported for each resolved path, in finding order.
pub open spec fn first_per_path(s: Seq<ProjectView>) -> Seq<ProjectView>
    decreases s.len(),
{
    if s.len() == 0 {
        s
    } else {
        let p = first_per_path(s.drop_last());
        if exists|k: int| 0 <= k < s.len() - 1 && #[trigger] s[k].path == s.last().path {
            p
        } else {
            p.push(s.last())
        }
    }
}

/// Where a stable sort by lower-cased name puts `x` among the already sorted `s`:
/// after every entry whose key does not come after its own.
pub open spec fn name_slot(s: Seq<ProjectView>, x: ProjectView, j: int) -> int
    decreases s.len() - j,
{
    if j < 0 || j >= s.len() {
        s.len() as int
    } else if lex_less(lower_of(x.name), lower_of(s[j].name)) {
        j
    } else {
        name_slot(s, x, j + 1)
    }
}

/// A stable sort by lower-cased name, one entry inserted at a time.
pub open spec fn sorted_by_name(s: Seq<ProjectView>) -> Seq<ProjectView>
    decreases s.len(),
{
    if s.len() == 0 {
        s
    } else {
        let p = sorted_by_name(s.drop_last());
        p.insert(name_slot(p, s.last(), 0), s.last())
    }
}

/// What a scan of `roots` to `max_depth` levels reports.
pub open spec fn scan_result(roots: Seq<ScanNode>, max_depth: int) -> Seq<ProjectView> {
    sorted_by_name(first_per_path(found_projects(visit_roots(roots, roots.len() as int, max_depth))))
}

pub open spec fn default_dir_names() -> Seq<Seq<char>> {
    seq![
        "Projects"@,
        "Code"@,
        "Developer"@,
        "GitHub"@,
        "Development"@,
        "Sites"@,
        "workspace"@,
    ]
}

/// The trimmed, non-empty pieces of a comma-separated list, in order.
pub open spec fn listed_dirs(pieces: Seq<Seq<char>>) -> Seq<Seq<char>>
    decreases pieces.len(),
{
    if pieces.len() == 0 {
        Seq::<Seq<char>>::empty()
    } else {
        let p = listed_dirs(pieces.drop_last());
        if trimmed(pieces.last()).len() == 0 {
            p
        } else {
            p.push(trimmed(pieces.last()))
        }
    }
}

/// The directories to scan: the default names under `home`, then the entries of the
/// comma-separated `custom` list.
pub open spec fn project_dirs(home: Seq<char>, custom: Option<Seq<char>>) -> Seq<Seq<char>> {
    default_dir_names().map_values(|d: Seq<char>| joined(home, d)) + match custom {
        Some(c) => listed_dirs(split_on(c, ',')),
        None => Seq::<Seq<char>>::empty(),
    }
}

/// True when `name` ends with `pattern` once the pattern's `*` are left out.
pub fn wildcard_match(name: &str, pattern: &str) -> (r: bool)
    ensures
        r == pattern_match(name@, pattern@),
{
    let p = remove_char(&chars_of(pattern), '*');
    ends_with_chars(&chars_of(name), &p)
}

fn is_excluded_name(s: &String) -> (r: bool)
    ensures
        r == excluded_name(s@),
{
    let n = s.as_str().unicode_len();
    (n > 0 && s.as_str().get_char(0) == '.') || text_eq(s, "node_modules") || text_eq(s, "target")
        || text_eq(s, "dist") || text_eq(s, "build") || text_eq(s, "__pycache__") || text_eq(
        s,
        "vendor",
    )
}

/// Whether the scan stays out of a directory of this name.
pub fn is_pruned_name(s: &String) -> (r: bool)
    ensures
        r == pruned_name(s@),
{
    let n = s.as_str().unicode_len();
    (n > 0 && s.as_str().get_char(0) == '.') || text_eq(s, "node_modules") || text_eq(s, "target")
        || text_eq(s, "__pycache__")
}

fn is_marker_file_name(s: &String) -> (r: bool)
    ensures
        r == is_marker_file(s@),
{
    text_eq(s, "package.json") || text_eq(s, "Cargo.toml") || text_eq(s, "pyproject.toml")
        || text_eq(s, "requirements.txt") || text_eq(s, "go.mod") || text_eq(s, "composer.json")
        || text_eq(s, "Gemfile") || text_eq(s, "Makefile") || text_eq(s, "CMakeLists.txt")
        || text_eq(s, "pom.xml") || text_eq(s, "build.gradle")
}

fn child_marks_project(c: &DirChild) -> (r: bool)
    ensures
        r == marks_project(*c),
{
    (c.is_dir && text_eq(&c.name, ".git")) || (c.is_file && is_marker_file_name(&c.name))
        || wildcard_match(c.name.as_str(), "*.xcodeproj") || wildcard_match(
        c.name.as_str(),
        "*.xcworkspace",
    ) || wildcard_match(c.name.as_str(), "*.sln")
}

/// Whether the directory is a project (see `is_project_dir`).
pub fn is_project(dir: &DirSnapshot) -> (r: bool)
    ensures
        r == is_project_dir(*dir),
{
    if !dir.is_dir {
        return false;
    }
    if is_excluded_name(&dir.name) {
        return false;
    }
    let mut i: usize = 0;
    while i < dir.entries.len()
        invariant
            dir.is_dir,
            !excluded_name(dir.name@),
            i <= dir.entries.len(),
            forall|k: int| 0 <= k < i ==> !#[trigger] marks_project(dir.entries[k]),
        decreases dir.entries.len() - i,
    {
        if child_marks_project(&dir.entries[i]) {
            assert(marks_project(dir.entries[i as int]));
            return true;
        }
        i += 1;
    }
    false
}

fn find_child(dir: &DirSnapshot, name: &str, want_dir: bool) -> (r: bool)
    ensures
        r == (if want_dir {
            has_child_dir(*dir, name@)
        } else {
            has_child_file(*dir, name@)
        }),
{
    let mut i: usize = 0;
    while i < dir.entries.len()
        invariant
            i <= dir.entries.len(),
            forall|k: int|
                0 <= k < i ==> !(#[trigger] dir.entries[k].name@ == name@ && (if want_dir {
                    dir.entries[k].is_dir
                } else {
                    dir.entries[k].is_file
                })),
        decreases dir.entries.len() - i,
    {
        let c = &dir.entries[i];
        if (if want_dir {
            c.is_dir
        } else {
            c.is_file
        }) && text_eq(&c.name, name) {
            return true;
        }
        i += 1;
    }
    false
}

pub open spec fn icon_for(d: DirSnapshot) -> Seq<char> {
    if !has_child_dir(d, ".git"@) {
        "📁"@
    } else if has_child_file(d, "package.json"@) {
        "🟢"@
    } else if has_child_file(d, "Cargo.toml"@) {
        "🟤"@
    } else if has_child_file(d, "pyproject.toml"@) || has_child_file(d, "requirements.txt"@) {
        "🔵"@
    } else if has_child_file(d, "go.mod"@) {
        "🟢"@
    } else if has_child_file(d, "composer.json"@) {
        "🟣"@
    } else if has_child_file(d, "Gemfile"@) {
        "🔴"@
    } else {
        "🟠"@
    }
}

/// The badge shown beside a project: one per ecosystem for git checkouts, a folder
/// otherwise.
pub fn get_icon_for_project(dir: &DirSnapshot) -> (r: &'static str)
    ensures
        r@ == icon_for(*dir),
{
    if !find_child(dir, ".git", true) {
        "📁"
    } else if find_child(dir, "package.json", false) {
        "🟢"
    } else if find_child(dir, "Cargo.toml", false) {
        "🟤"
    } else if find_child(dir, "pyproject.toml", false) || find_child(
        dir,
        "requirements.txt",
        false,
    ) {
        "🔵"
    } else if find_child(dir, "go.mod", false) {
        "🟢"
    } else if find_child(dir, "composer.json", false) {
        "🟣"
    } else if find_child(dir, "Gemfile", false) {
        "🔴"
    } else {
        "🟠"
    }
}

fn make_project(n: &ScanNode) -> (p: Project)
    ensures
        p@ == project_of(*n),
{
    let name = if n.dir.name.as_str().unicode_len() == 0 {
        String::from_str("Unknown")
    } else {
        n.dir.name.clone()
    };
    Project { name, path: n.canonical.clone() }
}

pub(crate) fn copy_project(p: &Project) -> (r: Project)
    ensures
        r@ == p@,
{
    Project { name: p.name.clone(), path: p.path.clone() }
}

fn collect(n: &ScanNode, depth: usize, max_depth: usize, out: &mut Vec<Project>)
    ensures
        views(final(out)@) == views(old(out)@) + found_projects(
            visit(*n, depth as int, max_depth as int),
        ),
    decreases n,
{
    let ghost start = views(out@);
    let ghost here: Seq<ScanNode> = if is_project_dir(n.dir) {
        seq![*n]
    } else {
        Seq::<ScanNode>::empty()
    };
    if is_project(&n.dir) {
        out.push(make_project(n));
    }
    proof {
        assert(views(out@) =~= start + found_projects(here));
    }
    if is_pruned_name(&n.dir.name) || depth >= max_depth {
        return;
    }
    let mut i: usize = 0;
    while i < n.children.len()
        invariant
            depth < max_depth,
            i <= n.children.len(),
            views(out@) == start + found_projects(here) + found_projects(
                visit_children(*n, i as int, depth + 1, max_depth as int),
            ),
        decreases n.children.len() - i,
    {
        let ghost before = views(out@);
        collect(&n.children[i], depth + 1, max_depth, out);
        proof {
            let a = visit_children(*n, i as int, depth + 1, max_depth as int);
            let b = visit(n.children[i as int], depth + 1, max_depth as int);
            assert(visit_children(*n, i + 1, depth + 1, max_depth as int) == a + b);
            assert(found_projects(a + b) =~= found_projects(a) + found_projects(b));
        }
        i += 1;
        proof {
            assert(views(out@) =~= start + found_projects(here) + found_projects(
                visit_children(*n, i as int, depth + 1, max_depth as int),
            ));
        }
    }
    proof {
        assert(found_projects(
            here + visit_children(*n, n.children.len() as int, depth + 1, max_depth as int),
        ) =~= found_projects(here) + found_projects(
            visit_children(*n, n.children.len() as int, depth + 1, max_depth as int),
        ));
    }
}

fn keep_first_per_path(found: &Vec<Project>) -> (r: Vec<Project>)
    ensures
        views(r@) == first_per_path(views(found@)),
{
    let mut r: Vec<Project> = Vec::new();
    let mut i: usize = 0;
    while i < found.len()
        invariant
            i <= found.len(),
            views(r@) == first_per_path(views(found@).subrange(0, i as int)),
        decreases found.len() - i,
    {
        let mut dup = false;
        let mut k: usize = 0;
        while k < i
            invariant
                i < found.len(),
                k <= i,
                dup == exists|m: int| 0 <= m < k && #[trigger] found[m].path@ == found[i as int].path@,
            decreases i - k,
        {
            if found[k].path == found[i].path {
                dup = true;
            }
            k += 1;
        }
        let ghost s = views(found@).subrange(0, i + 1);
        proof {
            assert(s.drop_last() =~= views(found@).subrange(0, i as int));
            assert(s.last() == found[i as int]@);
            if dup {
                let m = choose|m: int| 0 <= m < i && #[trigger] found[m].path@ == found[i as int].path@;
                assert(s[m].path == s.last().path);
            } else {
                assert forall|m: int| 0 <= m < s.len() - 1 implies !(#[trigger] s[m].path == s.last().path) by {
                    assert(s[m] == found[m]@);
                }
            }
        }
        if !dup {
            r.push(copy_project(&found[i]));
            proof {
                assert(views(r@) =~= first_per_path(views(found@).subrange(0, i as int)).push(
                    found[i as int]@,
                ));
            }
        }
        i += 1;
    }
    proof {
        assert(views(found@).subrange(0, found.len() as int) =~= views(found@));
    }
    r
}

fn sort_by_name(v: &Vec<Project>) -> (r: Vec<Project>)
    ensures
        views(r@) == sorted_by_name(views(v@)),
{
    let mut r: Vec<Project> = Vec::new();
    let mut i: usize = 0;
    while i < v.len()
        invariant
            i <= v.len(),
            views(r@) == sorted_by_name(views(v@).subrange(0, i as int)),
        decreases v.len() - i,
    {
        let x = copy_project(&v[i]);
        let key = chars_of(to_lowercase(x.name.as_str()).as_str());
        let mut j: usize = 0;
        while j < r.len() && !lex_lt(&key, &chars_of(to_lowercase(r[j].name.as_str()).as_str()))
            invariant
                j <= r.len(),
                key@ == lower_of(x@.name),
                name_slot(views(r@), x@, 0) == name_slot(views(r@), x@, j as int),
            decreases r.len() - j,
        {
            j += 1;
        }
        let ghost s = views(v@).subrange(0, i + 1);
        proof {
            assert(s.drop_last() =~= views(v@).subrange(0, i as int));
            assert(s.last() == x@);
        }
        let ghost prev = views(r@);
        r.insert(j, x);
        proof {
            assert(views(r@) =~= prev.insert(j as int, x@));
        }
        i += 1;
    }
    proof {
        assert(views(v@).subrange(0, v.len() as int) =~= views(v@));
    }
    r
}

/// Scans each root to `max_depth` levels (a root is level 0) and reports every project
/// directory once per resolved path, sorted by lower-cased name.
pub fn detect_projects(roots: &Vec<ScanNode>, max_depth: usize) -> (r: Vec<Project>)
    ensures
        views(r@) == scan_result(roots@, max_depth as int),
{
    let mut found: Vec<Project> = Vec::new();
    let mut i: usize = 0;
    while i < roots.len()
        invariant
            i <= roots.len(),
            views(found@) == found_projects(visit_roots(roots@, i as int, max_depth as int)),
        decreases roots.len() - i,
    {
        collect(&roots[i], 0, max_depth, &mut found);
        proof {
            let a = visit_roots(roots@, i as int, max_depth as int);
            let b = visit(roots@[i as int], 0, max_depth as int);
            assert(found_projects(a + b) =~= found_projects(a) + found_projects(b));
        }
        i += 1;
    }
    let unique = keep_first_per_path(&found);
    sort_by_name(&unique)
}

pub open spec fn text_views(s: Seq<String>) -> Seq<Seq<char>> {
    s.map_values(|t: String| t@)
}

pub open spec fn opt_text(o: Option<String>) -> Option<Seq<char>> {
    match o {
        Some(t) => Some(t@),
        None => None,
    }
}

/// The directories to scan for projects: the common project folders under `home`,
/// then the entries of the comma-separated `custom` list.
pub fn get_project_directories(home: &str, custom: &Option<String>) -> (r: Vec<String>)
    ensures
        text_views(r@) == project_dirs(home@, opt_text(*custom)),
{
    let mut r: Vec<String> = Vec::new();
    r.push(join_path(home, "Projects"));
    r.push(join_path(home, "Code"));
    r.push(join_path(home, "Developer"));
    r.push(join_path(home, "GitHub"));
    r.push(join_path(home, "Development"));
    r.push(join_path(home, "Sites"));
    r.push(join_path(home, "workspace"));
    let ghost defaults = default_dir_names().map_values(|d: Seq<char>| joined(home@, d));
    proof {
        assert(text_views(r@) =~= defaults);
    }
    match custom {
        Some(c) => {
            let pieces = split_char(c.as_str(), ',');
            let ghost sp = split_on(c@, ',');
            let mut i: usize = 0;
            while i < pieces.len()
                invariant
                    i <= pieces.len(),
                    pieces.len() == sp.len(),
                    forall|k: int| 0 <= k < pieces.len() ==> #[trigger] pieces[k]@ == sp[k],
                    text_views(r@) == defaults + listed_dirs(sp.subrange(0, i as int)),
                decreases pieces.len() - i,
            {
                let t = trim(pieces[i].as_str());
                proof {
                    assert(sp.subrange(0, i + 1).drop_last() =~= sp.subrange(0, i as int));
                }
                if t.as_str().unicode_len() > 0 {
                    let ghost prev = r@;
                    r.push(t);
                    proof {
                        assert(text_views(r@) =~= text_views(prev).push(t@));
                        assert(text_views(r@) =~= defaults + listed_dirs(
                            sp.subrange(0, i as int),
                        ).push(trimmed(sp[i as int])));
                    }
                }
                i += 1;
            }
            proof {
                assert(sp.subrange(0, pieces.len() as int) =~= sp);
            }
        },
        None => {
            proof {
                assert(defaults + Seq::<Seq<char>>::empty() =~= defaults);
            }
        },
    }
    r
}

/// The names that mark build output and dependency folders.
pub open spec fn in_exclusion_set(s: Seq<char>) -> bool {
    s == "node_modules"@ || s == "target"@ || s == "dist"@ || s == "build"@ || s == "__pycache__"@
        || s == "vendor"@
}

/// A directory named like build output or a dependency folder is never a project,
/// whatever marker files it holds.
pub proof fn lemma_excluded_dir_is_not_project(d: DirSnapshot)
    requires
        in_exclusion_set(d.name@),
    ensures
        !is_project_dir(d),
{
}

/// A directory holding a `.git` directory is a project, with no other marker, unless its
/// own name is excluded.
pub proof fn lemma_git_dir_is_project(d: DirSnapshot)
    requires
        d.is_dir,
        !excluded_name(d.name@),
        has_child_dir(d, ".git"@),
    ensures
        is_project_dir(d),
{
    let i = choose|i: int| 0 <= i < d.entries.len() && #[trigger] d.entries[i].is_dir && d.entries[i].name@ == ".git"@;
    assert(marks_project(d.entries[i]));
}

/// Whether the child indices `p` lead from `n` down the tree.
pub open spec fn valid_path(n: ScanNode, p: Seq<int>) -> bool
    decreases p.len(),
{
    p.len() == 0 || (0 <= p[0] < n.children.len() && valid_path(n.children[p[0]], p.drop_first()))
}

/// The node that the child indices `p` lead to from `n`.
pub open spec fn node_at(n: ScanNode, p: Seq<int>) -> ScanNode
    decreases p.len(),
{
    if p.len() == 0 || !(0 <= p[0] < n.children.len()) {
        n
    } else {
        node_at(n.children[p[0]], p.drop_first())
    }
}

/// Whether no directory passed on the way down `p` (the end excluded) has a pruned name.
pub open spec fn open_path(n: ScanNode, p: Seq<int>) -> bool
    decreases p.len(),
{
    p.len() == 0 || (!pruned_name(n.dir.name@) && 0 <= p[0] < n.children.len() && open_path(
        n.children[p[0]],
        p.drop_first(),
    ))
}

proof fn lemma_concat_contains<T>(a: Seq<T>, b: Seq<T>, x: T)
    ensures
        (a + b).contains(x) <==> (a.contains(x) || b.contains(x)),
{
    if (a + b).contains(x) {
        let i = choose|i: int| 0 <= i < (a + b).len() && (a + b)[i] == x;
        if i < a.len() {
            assert(a[i] == x);
        } else {
            assert(b[i - a.len()] == x);
        }
    }
    if a.contains(x) {
        let i = choose|i: int| 0 <= i < a.len() && a[i] == x;
        assert((a + b)[i] == x);
    }
    if b.contains(x) {
        let i = choose|i: int| 0 <= i < b.len() && b[i] == x;
        assert((a + b)[a.len() + i] == x);
    }
}

proof fn lemma_step_path(n: ScanNode, i: int, p: Seq<int>)
    requires
        0 <= i < n.children.len(),
    ensures
        valid_path(n.children[i], p) ==> valid_path(n, seq![i] + p),
        node_at(n, seq![i] + p) == node_at(n.children[i], p),
        (seq![i] + p).len() == p.len() + 1,
{
    assert((seq![i] + p).drop_first() =~= p);
}

proof fn lemma_visit_depth(n: ScanNode, d: int, max_depth: int, m: ScanNode)
    requires
        d <= max_depth,
        visit(n, d, max_depth).contains(m),
    ensures
        exists|p: Seq<int>| valid_path(n, p) && node_at(n, p) == m && d + p.len() <= max_depth,
    decreases n, n.children.len() + 1,
{
    let here: Seq<ScanNode> = if is_project_dir(n.dir) {
        seq![n]
    } else {
        Seq::<ScanNode>::empty()
    };
    let e = Seq::<int>::empty();
    if here.contains(m) {
        assert(valid_path(n, e) && node_at(n, e) == m);
    } else {
        let vc = visit_children(n, n.children.len() as int, d + 1, max_depth);
        assert(!(pruned_name(n.dir.name@) || d >= max_depth));
        lemma_concat_contains(here, vc, m);
        lemma_children_depth(n, n.children.len() as int, d + 1, max_depth, m);
        let (i, p) = choose|i: int, p: Seq<int>|
            0 <= i < n.children.len() && valid_path(n.children[i], p) && node_at(n.children[i], p)
                == m && d + 1 + p.len() <= max_depth;
        lemma_step_path(n, i, p);
        assert(valid_path(n, seq![i] + p) && node_at(n, seq![i] + p) == m);
    }
}

proof fn lemma_children_depth(n: ScanNode, k: int, d: int, max_depth: int, m: ScanNode)
    requires
        d <= max_depth,
        visit_children(n, k, d, max_depth).contains(m),
    ensures
        exists|i: int, p: Seq<int>|
            0 <= i < n.children.len() && valid_path(n.children[i], p) && node_at(n.children[i], p)
                == m && d + p.len() <= max_depth,
    decreases n, k,
{
    if k <= 0 || k > n.children.len() {
        assert(visit_children(n, k, d, max_depth).len() == 0);
    } else {
        let a = visit_children(n, k - 1, d, max_depth);
        let b = visit(n.children[k - 1], d, max_depth);
        lemma_concat_contains(a, b, m);
        if a.contains(m) {
            lemma_children_depth(n, k - 1, d, max_depth, m);
        } else {
            lemma_visit_depth(n.children[k - 1], d, max_depth, m);
            let p = choose|p: Seq<int>|
                valid_path(n.children[k - 1], p) && node_at(n.children[k - 1], p) == m && d + p.len()
                    <= max_depth;
            assert(valid_path(n.children[k - 1], p));
        }
    }
}

proof fn lemma_visit_reaches(n: ScanNode, d: int, max_depth: int, p: Seq<int>)
    requires
        valid_path(n, p),
        open_path(n, p),
        d + p.len() <= max_depth,
        is_project_dir(node_at(n, p).dir),
    ensures
        visit(n, d, max_depth).contains(node_at(n, p)),
    decreases n, n.children.len() + 1,
{
    let here: Seq<ScanNode> = if is_project_dir(n.dir) {
        seq![n]
    } else {
        Seq::<ScanNode>::empty()
    };
    if p.len() == 0 {
        assert(node_at(n, p) == n);
        assert(visit(n, d, max_depth)[0] == n);
    } else {
        let i = p[0];
        let c = n.children[i];
        let q = p.drop_first();
        lemma_visit_reaches(c, d + 1, max_depth, q);
        assert(node_at(n, p) == node_at(c, q));
        let vc = visit_children(n, n.children.len() as int, d + 1, max_depth);
        lemma_children_contains(n, n.children.len() as int, d + 1, max_depth, i, node_at(c, q));
        lemma_concat_contains(here, vc, node_at(c, q));
    }
}

proof fn lemma_children_contains(n: ScanNode, k: int, d: int, max_depth: int, i: int, m: ScanNode)
    requires
        0 <= i < k <= n.children.len(),
        visit(n.children[i], d, max_depth).contains(m),
    ensures
        visit_children(n, k, d, max_depth).contains(m),
    decreases k,
{
    let a = visit_children(n, k - 1, d, max_depth);
    let b = visit(n.children[k - 1], d, max_depth);
    if i < k - 1 {
        lemma_children_contains(n, k - 1, d, max_depth, i, m);
    }
    lemma_concat_contains(a, b, m);
}

proof fn lemma_roots_contains(roots: Seq<ScanNode>, k: int, max_depth: int, m: ScanNode)
    requires
        0 <= k <= roots.len(),
    ensures
        visit_roots(roots, k, max_depth).contains(m) <==> exists|i: int|
            0 <= i < k && #[trigger] visit(roots[i], 0, max_depth).contains(m),
    decreases k,
{
    if k > 0 {
        lemma_roots_contains(roots, k - 1, max_depth, m);
        lemma_concat_contains(
            visit_roots(roots, k - 1, max_depth),
            visit(roots[k - 1], 0, max_depth),
            m,
        );
    }
}

/// Whether some entry has the given path.
pub open spec fn lists_path(u: Seq<ProjectView>, path: Seq<char>) -> bool {
    exists|k: int| 0 <= k < u.len() && #[trigger] u[k].path == path
}

proof fn lemma_first_per_path(s: Seq<ProjectView>)
    ensures
        forall|x: ProjectView| #[trigger] first_per_path(s).contains(x) ==> s.contains(x),
        forall|j: int| 0 <= j < s.len() ==> lists_path(first_per_path(s), #[trigger] s[j].path),
    decreases s.len(),
{
    if s.len() > 0 {
        let t = s.drop_last();
        lemma_first_per_path(t);
        let p = first_per_path(t);
        let f = first_per_path(s);
        assert forall|x: ProjectView| #[trigger] f.contains(x) implies s.contains(x) by {
            let i = choose|i: int| 0 <= i < f.len() && f[i] == x;
            if i < p.len() {
                assert(f[i] == p[i]);
                assert(p.contains(x));
                let h = choose|h: int| 0 <= h < t.len() && t[h] == x;
                assert(s[h] == x);
            } else {
                assert(x == s.last());
                assert(s[s.len() - 1] == x);
            }
        }
        assert forall|j: int| 0 <= j < s.len() implies lists_path(f, #[trigger] s[j].path) by {
            if j < s.len() - 1 {
                assert(s[j] == t[j]);
                assert(lists_path(p, t[j].path));
                let k = choose|k: int| 0 <= k < p.len() && #[trigger] p[k].path == t[j].path;
                assert(f[k] == p[k]);
            } else if exists|h: int| 0 <= h < s.len() - 1 && #[trigger] s[h].path == s.last().path {
                let h = choose|h: int| 0 <= h < s.len() - 1 && #[trigger] s[h].path == s.last().path;
                assert(s[h] == t[h]);
                assert(lists_path(p, t[h].path));
                let k = choose|k: int| 0 <= k < p.len() && #[trigger] p[k].path == t[h].path;
                assert(f[k] == p[k]);
            } else {
                assert(f[p.len() as int] == s.last());
            }
        }
    }
}

proof fn lemma_name_slot(s: Seq<ProjectView>, x: ProjectView, j: int)
    requires
        0 <= j <= s.len(),
    ensures
        j <= name_slot(s, x, j) <= s.len(),
    decreases s.len() - j,
{
    if j < s.len() && !lex_less(lower_of(x.name), lower_of(s[j].name)) {
        lemma_name_slot(s, x, j + 1);
    }
}

proof fn lemma_sorted_same_items(s: Seq<ProjectView>)
    ensures
        sorted_by_name(s).len() == s.len(),
        forall|x: ProjectView| #[trigger] sorted_by_name(s).contains(x) <==> s.contains(x),
    decreases s.len(),
{
    if s.len() > 0 {
        let t = s.drop_last();
        lemma_sorted_same_items(t);
        let p = sorted_by_name(t);
        let j = name_slot(p, s.last(), 0);
        lemma_name_slot(p, s.last(), 0);
        p.insert_ensures(j, s.last());
        let f = sorted_by_name(s);
        assert(f == p.insert(j, s.last()));
        assert forall|x: ProjectView| #[trigger] f.contains(x) <==> s.contains(x) by {
            if f.contains(x) {
                let i = choose|i: int| 0 <= i < f.len() && f[i] == x;
                if i < j {
                    assert(p[i] == x);
                    assert(p.contains(x));
                } else if i == j {
                    assert(s[s.len() - 1] == x);
                } else {
                    assert(p[i - 1] == x);
                    assert(p.contains(x));
                }
                if p.contains(x) {
                    let h = choose|h: int| 0 <= h < t.len() && t[h] == x;
                    assert(s[h] == x);
                }
            }
            if s.contains(x) {
                let i = choose|i: int| 0 <= i < s.len() && s[i] == x;
                if i == s.len() - 1 {
                    assert(f[j] == x);
                } else {
                    assert(t[i] == x);
                    assert(t.contains(x));
                    assert(p.contains(x));
                    let h = choose|h: int| 0 <= h < p.len() && p[h] == x;
                    assert(f == p.insert(j, s.last()));
                    if h < j {
                        assert(f[h] == x);
                    } else {
                        assert(f[h + 1] == x);
                    }
                }
            }
        }
    }
}

/// Nothing deeper than `max_depth` levels below a root is reported: every reported
/// project is a directory reached from a root in at most `max_depth` steps.
pub proof fn lemma_scan_depth_bound(roots: Seq<ScanNode>, max_depth: int, q: ProjectView)
    requires
        0 <= max_depth,
        scan_result(roots, max_depth).contains(q),
    ensures
        exists|i: int, p: Seq<int>|
            0 <= i < roots.len() && valid_path(roots[i], p) && p.len() <= max_depth && project_of(
                node_at(roots[i], p),
            ) == q,
{
    let v = visit_roots(roots, roots.len() as int, max_depth);
    let f = found_projects(v);
    lemma_sorted_same_items(first_per_path(f));
    lemma_first_per_path(f);
    assert(f.contains(q));
    let h = choose|h: int| 0 <= h < f.len() && f[h] == q;
    let m = v[h];
    assert(v.contains(m));
    lemma_roots_contains(roots, roots.len() as int, max_depth, m);
    let i = choose|i: int| 0 <= i < roots.len() && #[trigger] visit(roots[i], 0, max_depth).contains(m);
    lemma_visit_depth(roots[i], 0, max_depth, m);
    let p = choose|p: Seq<int>| valid_path(roots[i], p) && node_at(roots[i], p) == m && 0 + p.len() <= max_depth;
    assert(project_of(node_at(roots[i], p)) == q);
}

/// A project directory at most `max_depth` levels below a root, reached without passing
/// through a pruned directory, is reported (under its resolved path).
pub proof fn lemma_scan_reaches_depth(roots: Seq<ScanNode>, max_depth: int, i: int, p: Seq<int>)
    requires
        0 <= i < roots.len(),
        valid_path(roots[i], p),
        open_path(roots[i], p),
        p.len() <= max_depth,
        is_project_dir(node_at(roots[i], p).dir),
    ensures
        exists|j: int|
            0 <= j < scan_result(roots, max_depth).len() && #[trigger] scan_result(roots, max_depth)[j].path
                == node_at(roots[i], p).canonical@,
{
    let m = node_at(roots[i], p);
    let v = visit_roots(roots, roots.len() as int, max_depth);
    let f = found_projects(v);
    let u = first_per_path(f);
    lemma_visit_reaches(roots[i], 0, max_depth, p);
    lemma_roots_contains(roots, roots.len() as int, max_depth, m);
    assert(visit(roots[i], 0, max_depth).contains(m));
    assert(v.contains(m));
    let h = choose|h: int| 0 <= h < v.len() && v[h] == m;
    assert(f[h] == project_of(m));
    lemma_first_per_path(f);
    assert(lists_path(u, f[h].path));
    let k = choose|k: int| 0 <= k < u.len() && #[trigger] u[k].path == f[h].path;
    assert(u.contains(u[k]));
    lemma_sorted_same_items(u);
    let r = sorted_by_name(u);
    assert(r.contains(u[k]));
    let j = choose|j: int| 0 <= j < r.len() && r[j] == u[k];
    assert(scan_result(roots, max_depth) == r);
    assert(f[h].path == m.canonical@);
    assert(scan_result(roots, max_depth)[j].path == m.canonical@);
}

} // verus!
