use orbutils::menus::{bar_menus, entry_icon, entry_text, MenuEntry};
use orbutils::order::{lex_less, sorted_indices};
use orbutils::packages::{
    desktop_apps, desktop_entry_package, entry_categories, exec_key_of, icon_is_path,
    manifest_values, package_accepts, packages_by_name,
    packages_for_path, shown_desktop_file, PackageInfo,
};

fn strings(v: &[&str]) -> Vec<String> {
    v.iter().map(|s| s.to_string()).collect()
}

fn pkg(id: &str, name: &str, command: &str, categories: &[&str], accepts: &[&str]) -> PackageInfo {
    PackageInfo {
        id: id.to_string(),
        name: name.to_string(),
        command: command.to_string(),
        categories: strings(categories),
        accepts: strings(accepts),
    }
}

fn chars(s: &str) -> Vec<char> {
    s.chars().collect()
}

#[test]
fn lex_less_is_string_order() {
    let words = ["", "A", "B", "a", "ab", "b", "é", "ż"];
    for x in words {
        for y in words {
            assert_eq!(lex_less(&chars(x), &chars(y)), x < y, "{:?} < {:?}", x, y);
        }
    }
}

#[test]
fn sorted_indices_is_stable() {
    let keys = strings(&["b", "a", "b", "A", ""]);
    assert_eq!(sorted_indices(&keys), vec![4, 3, 1, 0, 2]);
    assert!(sorted_indices(&Vec::new()).is_empty());
}

#[test]
fn sorted_indices_matches_std_sort() {
    let keys = strings(&["Terminal", "Files", "Editor", "files", "Editor", "Zed", "Ąb"]);
    let mut expect: Vec<usize> = (0..keys.len()).collect();
    expect.sort_by(|a, b| keys[*a].cmp(&keys[*b]));
    assert_eq!(sorted_indices(&keys), expect);
}

#[test]
fn exec_key_is_program_file_name() {
    assert_eq!(exec_key_of("/usr/bin/editor %f", "Editor"), chars("editor"));
    assert_eq!(exec_key_of("  term -e sh", "Terminal"), chars("term"));
    assert_eq!(exec_key_of("dir/", "X"), chars(""));
    assert_eq!(exec_key_of("   ", "Name"), chars("Name"));
    assert_eq!(exec_key_of("", "Name"), chars("Name"));
}

#[test]
fn desktop_apps_merges_and_sorts() {
    let packages = vec![
        pkg("editor", "Editor", "/usr/bin/editor %f", &[], &[]),
        pkg("editor.desktop", "Text Editor", "editor", &[], &[]),
        pkg("term", "Alpha", "", &[], &[]),
        pkg("files.desktop", "Files", "files --x", &[], &[]),
        pkg("files", "Zfiles", "/bin/files", &[], &[]),
    ];
    // the XDG editor replaces the manifest one; the blank exec is dropped;
    // the manifest files package does not replace the XDG one
    assert_eq!(desktop_apps(&packages), vec![3, 1]);
}

#[test]
fn desktop_apps_one_icon_per_program() {
    let packages = vec![
        pkg("b", "B", "prog", &[], &[]),
        pkg("a", "A", "/x/prog --flag", &[], &[]),
        pkg("c", "C", "other", &[], &[]),
        pkg("d.desktop", "D", "other", &[], &[]),
        pkg("e.desktop", "E", "other", &[], &[]),
    ];
    assert_eq!(desktop_apps(&packages), vec![0, 3]);
    assert!(desktop_apps(&Vec::new()).is_empty());
}

#[test]
fn packages_by_name_stable() {
    let packages = vec![
        pkg("1", "Terminal", "t", &[], &[]),
        pkg("2", "Editor", "e", &[], &[]),
        pkg("3", "Terminal", "t2", &[], &[]),
    ];
    assert_eq!(packages_by_name(&packages), vec![1, 0, 2]);
}

#[test]
fn accepts_patterns() {
    assert!(package_accepts(&strings(&["*.txt"]), "notes.txt"));
    assert!(!package_accepts(&strings(&["*.txt"]), "notes.md"));
    assert!(package_accepts(&strings(&["*.md", "image/*"]), "image/png"));
    assert!(!package_accepts(&strings(&["image"]), "image"));
    assert!(package_accepts(&strings(&["*"]), "anything"));
    assert!(!package_accepts(&Vec::new(), "x"));
}

#[test]
fn packages_for_path_in_order() {
    let packages = vec![
        pkg("a", "A", "a", &[], &["*.txt"]),
        pkg("b", "B", "b", &[], &["image/*"]),
        pkg("c", "C", "c", &[], &["*.txt", "*.md"]),
    ];
    assert_eq!(packages_for_path(&packages, "notes.txt"), vec![0, 2]);
    assert_eq!(packages_for_path(&packages, "image/png"), vec![1]);
    assert!(packages_for_path(&packages, "x.bin").is_empty());
}

#[test]
fn hidden_desktop_files() {
    assert!(shown_desktop_file("notes.txt"));
    assert!(!shown_desktop_file(".hidden"));
    assert!(shown_desktop_file(""));
}

#[test]
fn bar_menus_split() {
    let packages = vec![
        pkg("zeta", "Zeta", "z", &[], &[]),
        pkg("alpha", "Alpha", "a", &["Games", "Tools"], &[]),
        pkg("beta", "Beta", "b", &[], &[]),
        pkg("gamma", "Gamma", "g", &["Games"], &[]),
    ];
    let m = bar_menus(&packages);
    assert_eq!(m.bar, vec![2, 0]);
    assert_eq!(m.categories, strings(&["Games", "Tools"]));
    assert_eq!(m.members, vec![vec![1, 3], vec![1]]);
}

#[test]
fn bar_menus_repeated_category() {
    let packages = vec![
        pkg("x", "X", "x", &["B", "A", "B"], &[]),
        pkg("y", "Y", "y", &["A"], &[]),
    ];
    let m = bar_menus(&packages);
    assert!(m.bar.is_empty());
    assert_eq!(m.categories, strings(&["A", "B"]));
    assert_eq!(m.members, vec![vec![0, 1], vec![0, 0]]);
}

#[test]
fn desktop_apps_one_icon_per_program_many() {
    let programs = ["ed", "/usr/bin/ed", "term", "files", "  ", "/opt/x/term -e", "web"];
    let mut packages = Vec::new();
    for k in 0..40usize {
        let exec = programs[(k * 7 + 3) % programs.len()];
        let id = if k % 3 == 0 { format!("p{}.desktop", k) } else { format!("p{}", k) };
        let name = format!("N{}", (k * 13) % 17);
        packages.push(pkg(&id, &name, exec, &[], &[]));
    }
    let r = desktop_apps(&packages);
    let key = |i: usize| exec_key_of(&packages[i].command, &packages[i].name);
    // no program twice, names in order
    for a in 0..r.len() {
        assert!(!packages[r[a]].command.is_empty());
        for b in a + 1..r.len() {
            assert_ne!(key(r[a]), key(r[b]));
            assert!(packages[r[a]].name <= packages[r[b]].name);
        }
    }
    // every program with a command has an icon, from an XDG entry when it has one
    for j in 0..packages.len() {
        if packages[j].command.is_empty() {
            continue;
        }
        let a = r.iter().position(|&i| key(i) == key(j)).unwrap();
        if packages[j].id.ends_with(".desktop") {
            assert!(packages[r[a]].id.ends_with(".desktop"));
        }
    }
}

#[test]
fn bar_menus_place_every_package() {
    let cats = [&[][..], &["Games"][..], &["Tools", "Games"][..], &[][..], &["Office"][..]];
    let mut packages = Vec::new();
    for k in 0..25usize {
        let id = format!("id{}", (k * 7) % 25);
        packages.push(pkg(&id, "n", "e", cats[k % cats.len()], &[]));
    }
    let m = bar_menus(&packages);
    for (i, p) in packages.iter().enumerate() {
        if p.categories.is_empty() {
            assert!(m.bar.contains(&i));
        } else {
            assert!(!m.bar.contains(&i));
            for c in &p.categories {
                let k = m.categories.iter().position(|x| x == c).unwrap();
                assert!(m.members[k].contains(&i));
            }
        }
    }
    // the bar is sorted by id, the categories by name
    for w in m.bar.windows(2) {
        assert!(packages[w[0]].id <= packages[w[1]].id);
    }
    assert_eq!(m.categories, strings(&["Games", "Office", "Tools"]));
}

#[test]
fn manifest_values_in_order() {
    let m = "name=Editor\nexec=editor %f\naccept=*.txt\naccept=*.md\r\nname2=x\n accept=no\nicon=";
    assert_eq!(manifest_values(m, "name"), strings(&["Editor"]));
    assert_eq!(manifest_values(m, "accept"), strings(&["*.txt", "*.md"]));
    assert_eq!(manifest_values(m, "exec"), strings(&["editor %f"]));
    assert_eq!(manifest_values(m, "icon"), strings(&[""]));
    assert!(manifest_values(m, "category").is_empty());
    assert!(manifest_values("", "name").is_empty());
}

#[test]
fn bar_menus_start_and_submenus() {
    let packages = vec![
        pkg("zeta", "Zeta", "z", &[], &[]),
        pkg("alpha", "Alpha", "a", &["Games", "Tools"], &[]),
        pkg("gamma", "Gamma", "g", &["Games"], &[]),
    ];
    let m = bar_menus(&packages);
    assert_eq!(m.start, vec![MenuEntry::Category(0), MenuEntry::Category(1), MenuEntry::Logout]);
    assert_eq!(
        m.submenus,
        vec![
            vec![MenuEntry::Package(1), MenuEntry::Package(2), MenuEntry::GoBack],
            vec![MenuEntry::Package(1), MenuEntry::GoBack],
        ]
    );
    let text = |e| entry_text(e, &m.categories, &packages);
    assert_eq!(text(MenuEntry::Category(1)), ("Tools".to_string(), "category=Tools".to_string()));
    assert_eq!(text(MenuEntry::Package(2)), ("Gamma".to_string(), "g".to_string()));
    assert_eq!(text(MenuEntry::GoBack), ("Go back".to_string(), "exit".to_string()));
    assert_eq!(text(MenuEntry::Logout), ("Logout".to_string(), "exit".to_string()));
    assert_eq!(entry_icon(MenuEntry::Category(0)), Some("mimetypes/inode-directory.png"));
    assert_eq!(entry_icon(MenuEntry::GoBack), Some("mimetypes/inode-directory.png"));
    assert_eq!(entry_icon(MenuEntry::Logout), Some("actions/system-log-out.png"));
    assert_eq!(entry_icon(MenuEntry::Package(0)), None);
}

#[test]
fn bar_menus_without_categories_has_only_logout() {
    let m = bar_menus(&vec![pkg("a", "A", "a", &[], &[])]);
    assert_eq!(m.start, vec![MenuEntry::Logout]);
    assert!(m.submenus.is_empty());
}

#[test]
fn menu_entries_act_through_menu_step() {
    let cats = strings(&["Games"]);
    let (_, exec) = entry_text(MenuEntry::Category(0), &cats, &Vec::new());
    assert_eq!(
        orbutils::launcher::menu_step(None, Some(&exec)),
        orbutils::launcher::MenuStep::Show(Some("Games".to_string()))
    );
    let (_, back) = entry_text(MenuEntry::GoBack, &cats, &Vec::new());
    assert_eq!(
        orbutils::launcher::menu_step(Some("Games"), Some(&back)),
        orbutils::launcher::MenuStep::Show(None)
    );
    let (_, out) = entry_text(MenuEntry::Logout, &cats, &Vec::new());
    assert_eq!(orbutils::launcher::menu_step(None, Some(&out)), orbutils::launcher::MenuStep::Logout);
}

#[test]
fn entry_categories_split() {
    assert_eq!(entry_categories("Utility;TextEditor;"), strings(&["Utility", "TextEditor"]));
    assert_eq!(entry_categories(";;A;;B"), strings(&["A", "B"]));
    assert!(entry_categories("").is_empty());
    assert_eq!(entry_categories("Game"), strings(&["Game"]));
}

#[test]
fn desktop_entry_packages() {
    let p = desktop_entry_package("ed.desktop", Some("Ed"), Some("ed %f"), Some("Dev;"), None, None)
        .unwrap();
    assert_eq!((p.id.as_str(), p.name.as_str(), p.command.as_str()), ("ed.desktop", "Ed", "ed %f"));
    assert_eq!(p.categories, strings(&["Dev"]));
    assert!(p.accepts.is_empty());
    assert!(desktop_entry_package("x", Some("X"), Some("x"), None, Some("true"), None).is_none());
    assert!(desktop_entry_package("x", Some("X"), Some("x"), None, None, Some("true")).is_none());
    assert!(desktop_entry_package("x", None, Some("x"), None, None, None).is_none());
    assert!(desktop_entry_package("x", Some("X"), None, None, None, None).is_none());
    let p = desktop_entry_package("x", Some("X"), Some("x"), None, Some("false"), None).unwrap();
    assert!(p.categories.is_empty());
}

#[test]
fn icon_paths() {
    assert!(icon_is_path("/usr/share/icons/x.png"));
    assert!(!icon_is_path("text-editor"));
    assert!(!icon_is_path(""));
}
