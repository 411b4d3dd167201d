use zed_workspace_explorer::project::{
    detect_projects, get_icon_for_project, get_project_directories, is_project, wildcard_match,
    DirChild, DirSnapshot, ScanNode,
};

fn child(name: &str, is_dir: bool) -> DirChild {
    DirChild { name: name.to_string(), is_dir, is_file: !is_dir }
}

fn dir(name: &str, entries: Vec<DirChild>) -> DirSnapshot {
    DirSnapshot { name: name.to_string(), is_dir: true, entries }
}

fn node(name: &str, path: &str, entries: Vec<DirChild>, children: Vec<ScanNode>) -> ScanNode {
    ScanNode {
        dir: dir(name, entries),
        path: path.to_string(),
        canonical: path.to_string(),
        children,
    }
}

#[test]
fn test_is_project_git() {
    let d = dir("tmpA1b2C3", vec![child(".git", true)]);
    assert!(is_project(&d));
}

#[test]
fn test_is_project_package_json() {
    let d = dir("tmpD4e5F6", vec![child("package.json", false)]);
    assert!(is_project(&d));
}

#[test]
fn test_is_not_project() {
    let d = dir("tmpG7h8I9", vec![]);
    assert!(!is_project(&d));
}

#[test]
fn test_skip_hidden_dirs() {
    let d = dir(".hidden", vec![child("package.json", false)]);
    assert!(!is_project(&d));
}

#[test]
fn excluded_names_are_never_projects() {
    for name in ["node_modules", "target", "dist", "build", "__pycache__", "vendor"] {
        let d = dir(
            name,
            vec![child(".git", true), child("package.json", false), child("Cargo.toml", false)],
        );
        assert!(!is_project(&d), "{}", name);
    }
}

#[test]
fn git_directory_alone_makes_a_project() {
    assert!(is_project(&dir("app", vec![child(".git", true)])));
    assert!(!is_project(&dir("app", vec![child(".git", false)])));
}

#[test]
fn not_a_directory_is_not_a_project() {
    let d = DirSnapshot { name: "app".to_string(), is_dir: false, entries: vec![child(".git", true)] };
    assert!(!is_project(&d));
}

#[test]
fn marker_suffix_is_an_ending_match() {
    assert!(is_project(&dir("ios", vec![child("App.xcodeproj", true)])));
    assert!(is_project(&dir("win", vec![child("Tool.sln", false)])));
    assert!(!is_project(&dir("win", vec![child("Tool.sln.bak", false)])));
    assert!(!is_project(&dir("misc", vec![child("notes.txt", false)])));
}

#[test]
fn wildcard_drops_stars_and_matches_endings() {
    assert!(wildcard_match("App.xcworkspace", "*.xcworkspace"));
    assert!(wildcard_match(".sln", "*.sln"));
    assert!(!wildcard_match("sln", "*.sln"));
    assert!(!wildcard_match("App.xcodeproj", "*.sln"));
}

#[test]
fn icons_by_ecosystem() {
    assert_eq!(get_icon_for_project(&dir("p", vec![])), "📁");
    assert_eq!(get_icon_for_project(&dir("p", vec![child("package.json", false)])), "📁");
    assert_eq!(
        get_icon_for_project(&dir("p", vec![child(".git", true), child("package.json", false)])),
        "🟢"
    );
    assert_eq!(
        get_icon_for_project(&dir("p", vec![child(".git", true), child("Cargo.toml", false)])),
        "🟤"
    );
    assert_eq!(
        get_icon_for_project(&dir("p", vec![child(".git", true), child("requirements.txt", false)])),
        "🔵"
    );
    assert_eq!(
        get_icon_for_project(&dir("p", vec![child(".git", true), child("go.mod", false)])),
        "🟢"
    );
    assert_eq!(
        get_icon_for_project(&dir("p", vec![child(".git", true), child("composer.json", false)])),
        "🟣"
    );
    assert_eq!(
        get_icon_for_project(&dir("p", vec![child(".git", true), child("Gemfile", false)])),
        "🔴"
    );
    assert_eq!(get_icon_for_project(&dir("p", vec![child(".git", true)])), "🟠");
}

fn chain(max_levels: usize) -> ScanNode {
    // root/l1/l2/.../lN, where only the deepest directory holds a marker file
    let mut path = "/root".to_string();
    let mut paths = vec![];
    for i in 1..=max_levels {
        path = format!("{}/l{}", path, i);
        paths.push(path.clone());
    }
    let mut current: Option<ScanNode> = None;
    for (i, p) in paths.iter().enumerate().rev() {
        let name = format!("l{}", i + 1);
        let entries = if current.is_none() { vec![child("Makefile", false)] } else { vec![] };
        let children = current.take().into_iter().collect();
        current = Some(node(&name, p, entries, children));
    }
    node("root", "/root", vec![], current.into_iter().collect())
}

#[test]
fn depth_bound_stops_below_max_depth() {
    // the project directory l3 sits three levels below the root
    let roots = vec![chain(3)];
    assert!(detect_projects(&roots, 2).is_empty());
    let found = detect_projects(&roots, 3);
    assert_eq!(found.len(), 1);
    assert_eq!(found[0].name, "l3");
    assert_eq!(found[0].path, "/root/l1/l2/l3");
}

#[test]
fn scan_prunes_hidden_and_dependency_dirs() {
    let inner = node("lib", "/r/node_modules/lib", vec![child("package.json", false)], vec![]);
    let nm = node("node_modules", "/r/node_modules", vec![], vec![inner]);
    let hidden_inner = node("x", "/r/.cache/x", vec![child("Makefile", false)], vec![]);
    let hidden = node(".cache", "/r/.cache", vec![], vec![hidden_inner]);
    let roots = vec![node("r", "/r", vec![], vec![nm, hidden])];
    assert!(detect_projects(&roots, 5).is_empty());
}

#[test]
fn scan_dedups_by_resolved_path_and_sorts_by_name() {
    let a = node("Beta", "/r/Beta", vec![child("Cargo.toml", false)], vec![]);
    let mut link = node("alias", "/r/alias", vec![child("Cargo.toml", false)], vec![]);
    link.canonical = "/r/Beta".to_string();
    let c = node("alpha", "/r/alpha", vec![child("go.mod", false)], vec![]);
    let d = node("Gamma", "/r/Gamma", vec![child("pom.xml", false)], vec![]);
    let roots = vec![node("r", "/r", vec![], vec![d, a, link, c])];
    let found = detect_projects(&roots, 1);
    let names: Vec<&str> = found.iter().map(|p| p.name.as_str()).collect();
    assert_eq!(names, vec!["alpha", "Beta", "Gamma"]);
    assert_eq!(found[1].path, "/r/Beta");
}

#[test]
fn scan_over_several_roots() {
    let r1 = node("one", "/one", vec![child(".git", true)], vec![]);
    let r2 = node("two", "/two", vec![child("Makefile", false)], vec![]);
    let found = detect_projects(&vec![r2, r1], 0);
    assert_eq!(found.len(), 2);
    assert_eq!(found[0].name, "one");
    assert_eq!(found[1].name, "two");
}

#[test]
fn project_directories_defaults_and_custom() {
    let dirs = get_project_directories("/home/u", &None);
    assert_eq!(
        dirs,
        vec![
            "/home/u/Projects",
            "/home/u/Code",
            "/home/u/Developer",
            "/home/u/GitHub",
            "/home/u/Development",
            "/home/u/Sites",
            "/home/u/workspace",
        ]
    );
    let dirs = get_project_directories("/home/u/", &Some(" /a , ,/b\t,".to_string()));
    assert_eq!(dirs.len(), 9);
    assert_eq!(dirs[0], "/home/u/Projects");
    assert_eq!(dirs[7], "/a");
    assert_eq!(dirs[8], "/b");
}
