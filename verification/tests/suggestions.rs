use strata::suggestions::{
    completes, rank_search_suggestions, select_path_suggestions, suggestion_label,
    suggestion_parent, Candidate, MAX_SUGGESTIONS,
};

fn child(path: &str, is_directory: bool) -> Candidate {
    Candidate { path: path.to_string(), is_directory, offered: Some(path.to_string()) }
}

#[test]
fn completions_are_folders_matching_the_prefix_in_name_order() {
    let children = vec![
        child("/d/Documents", true),
        child("/d/downloads", true),
        child("/d/Desktop", true),
        child("/d/notes.txt", false),
        child("/d/dev.txt", false),
        child("/d/Music", true),
    ];
    let r = select_path_suggestions("d", children);
    assert_eq!(r, vec!["/d/Desktop", "/d/Documents", "/d/downloads"]);
}

#[test]
fn hidden_folders_need_a_dot_prefix() {
    let children = vec![child("/d/.config", true), child("/d/code", true), child("/d/.cache", true)];
    let r = select_path_suggestions("", children);
    assert_eq!(r, vec!["/d/code"]);
    let children = vec![child("/d/.config", true), child("/d/code", true), child("/d/.cache", true)];
    let r = select_path_suggestions(".c", children);
    assert_eq!(r, vec!["/d/.cache", "/d/.config"]);
}

#[test]
fn completions_are_capped_and_keep_listing_order_for_equal_names() {
    let mut children = Vec::new();
    for name in ["k", "j", "i", "h", "g", "f", "e", "d", "c", "b", "a"] {
        children.push(child(&format!("/x/{name}"), true));
    }
    children.push(child("/y/A", true));
    let r = select_path_suggestions("", children);
    assert_eq!(r.len(), MAX_SUGGESTIONS);
    assert_eq!(r, vec!["/x/a", "/y/A", "/x/b", "/x/c", "/x/d", "/x/e", "/x/f", "/x/g"]);
}

#[test]
fn completions_use_the_offered_path_and_drop_children_outside_the_root() {
    let children = vec![
        Candidate { path: "/d/link".to_string(), is_directory: true, offered: Some("/r/zeta".to_string()) },
        Candidate { path: "/d/lib".to_string(), is_directory: true, offered: None },
        Candidate { path: "/d/lab".to_string(), is_directory: true, offered: Some("/r/alpha".to_string()) },
    ];
    let r = select_path_suggestions("l", children);
    assert_eq!(r, vec!["/r/alpha", "/r/zeta"]);
}

#[test]
fn completion_test_lowercases_names() {
    assert!(completes("doc", "/h/Documents", true));
    assert!(!completes("doc", "/h/Documents", false));
    assert!(!completes("doc", "/h/..", true));
    assert!(completes("", "/h/x", true));
}

#[test]
fn search_results_are_folders_shallowest_first() {
    let hits = vec![
        child("/a/b/c/deep", true),
        child("/a/file", false),
        child("/a/shallow", true),
        child("/a/b/mid", true),
        child("/a/other", true),
    ];
    let r = rank_search_suggestions(hits);
    assert_eq!(r, vec!["/a/shallow", "/a/other", "/a/b/mid", "/a/b/c/deep"]);
}

#[test]
fn search_results_are_capped() {
    let mut hits = Vec::new();
    for i in 0..20 {
        hits.push(child(&format!("/r/{}/d{}", i % 3, i), true));
    }
    hits.push(child("/top", true));
    let r = rank_search_suggestions(hits);
    assert_eq!(r.len(), MAX_SUGGESTIONS);
    assert_eq!(r[0], "/top");
    assert_eq!(r[1], "/r/0/d0");
    assert_eq!(r[7], "/r/0/d6");
}

#[test]
fn search_results_without_an_offered_path_are_dropped() {
    let hits = vec![Candidate { path: "/out".to_string(), is_directory: true, offered: None }];
    assert!(rank_search_suggestions(hits).is_empty());
    assert!(rank_search_suggestions(Vec::new()).is_empty());
}

#[test]
fn labels_show_the_final_name_and_the_parent() {
    assert_eq!(suggestion_label("/home/u/Music"), "Music");
    assert_eq!(suggestion_label("/"), "/");
    assert_eq!(suggestion_parent("/home/u/Music").as_deref(), Some("/home/u"));
    assert_eq!(suggestion_parent("/"), None);
}
