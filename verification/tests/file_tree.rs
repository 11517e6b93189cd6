use macro_editor::file_tree::{DirChild, DirListing, FileTree};

fn child(dir: &str, name: &str, is_dir: bool) -> DirChild {
    DirChild { path: format!("{}/{}", dir, name), name: name.to_string(), is_dir }
}

fn listings() -> Vec<DirListing> {
    vec![
        DirListing {
            dir: "/p".to_string(),
            children: vec![
                child("/p", "main.rs", false),
                child("/p", "src", true),
                child("/p", ".git", true),
                child("/p", "Cargo.toml", false),
                child("/p", "docs", true),
            ],
        },
        DirListing {
            dir: "/p/src".to_string(),
            children: vec![
                child("/p/src", "lib.rs", false),
                child("/p/src", ".hidden", false),
                child("/p/src", "app.rs", false),
            ],
        },
    ]
}

fn names(t: &FileTree) -> Vec<String> {
    t.entries.iter().map(|e| format!("{}{}", "  ".repeat(e.depth), e.name)).collect()
}

#[test]
fn new_tree_lists_dirs_first_then_names() {
    let t = FileTree::new("/p".to_string(), &listings());
    assert_eq!(names(&t), vec![".git", "docs", "src", "Cargo.toml", "main.rs"]);
    assert_eq!(t.selected, 0);
}

#[test]
fn activate_dir_expands_and_hides_dotfiles_below_top() {
    let mut t = FileTree::new("/p".to_string(), &listings());
    t.selected = 2;
    assert_eq!(t.activate(&listings()), None);
    assert_eq!(names(&t), vec![".git", "docs", "src", "  app.rs", "  lib.rs", "Cargo.toml", "main.rs"]);
    assert!(t.entries[2].is_expanded);
    // collapse again
    assert_eq!(t.activate(&listings()), None);
    assert_eq!(names(&t), vec![".git", "docs", "src", "Cargo.toml", "main.rs"]);
}

#[test]
fn activate_file_returns_its_path() {
    let mut t = FileTree::new("/p".to_string(), &listings());
    t.selected = 4;
    assert_eq!(t.activate(&listings()), Some("/p/main.rs".to_string()));
}

#[test]
fn click_row_past_end_is_nothing() {
    let mut t = FileTree::new("/p".to_string(), &listings());
    assert_eq!(t.click_row(10, &listings()), None);
    assert_eq!(t.selected, 0);
    assert_eq!(t.click_row(3, &listings()), Some("/p/Cargo.toml".to_string()));
    assert_eq!(t.selected, 3);
}

#[test]
fn move_up_down_stay_in_range() {
    let mut t = FileTree::new("/p".to_string(), &listings());
    t.move_up();
    assert_eq!(t.selected, 0);
    for _ in 0..10 {
        t.move_down();
    }
    assert_eq!(t.selected, 4);
}

#[test]
fn scroll_to_selected_shows_selection() {
    let mut t = FileTree::new("/p".to_string(), &listings());
    t.selected = 4;
    t.scroll_to_selected(2);
    assert_eq!(t.scroll, 3);
    t.selected = 0;
    t.scroll_to_selected(2);
    assert_eq!(t.scroll, 0);
    t.scroll_to_selected(0);
    assert_eq!(t.scroll, 0);
}

#[test]
fn wanted_listings_names_root_expanded_and_selected_dir() {
    let mut t = FileTree::new("/p".to_string(), &listings());
    t.selected = 2;
    t.activate(&listings());
    t.selected = 1;
    assert_eq!(t.wanted_listings(), vec!["/p".to_string(), "/p/src".to_string(), "/p/docs".to_string()]);
}

#[test]
fn wanted_listings_for_click_names_the_clicked_dir() {
    let mut t = FileTree::new("/p".to_string(), &listings());
    t.scroll = 1;
    // Row 1 + 1 is "src", a directory.
    assert_eq!(t.wanted_listings_for_click(1), vec!["/p".to_string(), "/p/src".to_string()]);
    // Row 1 + 3 is "main.rs", a file.
    assert_eq!(t.wanted_listings_for_click(3), vec!["/p".to_string()]);
    assert_eq!(t.wanted_listings_for_click(40), vec!["/p".to_string()]);
}

#[test]
fn scroll_to_selected_moves_least() {
    let mut t = FileTree::new("/p".to_string(), &listings());
    t.scroll = 1;
    t.selected = 4;
    t.scroll_to_selected(2);
    assert_eq!(t.scroll, 3);
    t.selected = 3;
    t.scroll_to_selected(2);
    assert_eq!(t.scroll, 3);
    t.selected = 0;
    t.scroll_to_selected(2);
    assert_eq!(t.scroll, 0);
}
