use strata::destination::{
    directory_within, folder_input_path, path_listing_query, rebind_candidate,
    resolve_destination_path,
};

#[test]
fn tilde_alone_is_the_home_folder() {
    assert_eq!(resolve_destination_path("~", "/base", "/home/u"), "/home/u");
}

#[test]
fn surrounding_white_space_is_ignored() {
    assert_eq!(resolve_destination_path("  ~ \t", "/base", "/home/u"), "/home/u");
    assert_eq!(
        resolve_destination_path("\u{3000}docs\u{a0}\n", "/base", "/home/u"),
        "/base/docs"
    );
}

#[test]
fn tilde_slash_is_inside_the_home_folder() {
    assert_eq!(resolve_destination_path("~/docs", "/base", "/home/u"), "/home/u/docs");
    assert_eq!(resolve_destination_path("~/", "/base", "/home/u"), "/home/u/");
    assert_eq!(resolve_destination_path("~/docs", "/base", "/home/u/"), "/home/u/docs");
}

#[test]
fn tilde_slash_then_an_absolute_path_is_that_path() {
    assert_eq!(resolve_destination_path("~//etc", "/base", "/home/u"), "/etc");
}

#[test]
fn absolute_text_stands_for_itself() {
    assert_eq!(resolve_destination_path("/etc/x", "/base", "/home/u"), "/etc/x");
}

#[test]
fn relative_text_is_inside_the_base_folder() {
    assert_eq!(resolve_destination_path("docs/a", "/base", "/home/u"), "/base/docs/a");
    assert_eq!(resolve_destination_path("docs", "/", "/home/u"), "/docs");
    assert_eq!(resolve_destination_path("~docs", "/base", "/home/u"), "/base/~docs");
    assert_eq!(resolve_destination_path("", "/base", "/home/u"), "/base/");
}

#[test]
fn resolution_matches_path_join() {
    let base = std::path::Path::new("/srv/data");
    for input in ["a", "a/b", "../up", "./x", "/abs", "with space"] {
        let expected = base.join(input.trim());
        assert_eq!(
            resolve_destination_path(input, "/srv/data", "/home/u"),
            expected.to_string_lossy()
        );
    }
}

#[test]
fn folder_input_ends_with_one_separator() {
    assert_eq!(folder_input_path("~/Documents"), "~/Documents/");
    assert_eq!(folder_input_path("~/Documents/"), "~/Documents/");
    assert_eq!(folder_input_path("/"), "/");
    assert_eq!(folder_input_path(""), "/");
    let once = folder_input_path("/srv/x");
    assert_eq!(folder_input_path(&once), once);
}

#[test]
fn partial_name_lists_the_parent_with_a_lower_cased_prefix() {
    let q = path_listing_query("~/Doc", "/base", "/home/u");
    assert_eq!(q.directory, "/home/u");
    assert_eq!(q.prefix, "doc");
    let q = path_listing_query("Über", "/base", "/home/u");
    assert_eq!(q.directory, "/base");
    assert_eq!(q.prefix, "über");
}

#[test]
fn trailing_separator_lists_the_folder_itself() {
    let q = path_listing_query("~/Documents/  ", "/base", "/home/u");
    assert_eq!(q.directory, "/home/u/Documents/");
    assert_eq!(q.prefix, "");
}

#[test]
fn written_back_folder_lists_its_contents() {
    let text = folder_input_path("/srv/data");
    let q = path_listing_query(&text, "/base", "/home/u");
    assert_eq!(q.directory, "/srv/data/");
    assert_eq!(q.prefix, "");
}

#[test]
fn root_and_parent_references_list_as_path_does() {
    let q = path_listing_query("/", "/base", "/home/u");
    assert_eq!(q.directory, "/");
    assert_eq!(q.prefix, "");
    let q = path_listing_query("x/..", "/base", "/home/u");
    assert_eq!(q.directory, "/base/x");
    assert_eq!(q.prefix, "");
}

#[test]
fn within_root_is_component_wise() {
    assert_eq!(directory_within("/srv", "/srv/a").as_deref(), Some("/srv/a"));
    assert_eq!(directory_within("/srv", "/srv").as_deref(), Some("/srv"));
    assert_eq!(directory_within("/srv", "/srvx/a"), None);
    assert_eq!(directory_within("/srv/a", "/srv"), None);
}

#[test]
fn rebinding_keeps_the_path_relative_to_the_root() {
    assert_eq!(
        rebind_candidate("/mnt/old", "/mnt/old/a/b", "/mnt/new").as_deref(),
        Some("/mnt/new/a/b")
    );
    assert_eq!(rebind_candidate("/mnt/old", "/mnt/old", "/mnt/new").as_deref(), Some("/mnt/new/"));
    assert_eq!(rebind_candidate("/mnt/old", "/elsewhere", "/mnt/new"), None);
}

#[test]
fn written_back_folders_resolve_to_themselves() {
    let text = folder_input_path("/srv/data");
    assert_eq!(resolve_destination_path(&text, "/base", "/home/u"), "/srv/data/");
    let text = folder_input_path("~/Music");
    assert_eq!(resolve_destination_path(&text, "/base", "/home/u"), "/home/u/Music/");
    let text = folder_input_path("~");
    assert_eq!(resolve_destination_path(&text, "/base", "/home/u"), "/home/u/");
    assert_eq!(
        std::path::Path::new(&resolve_destination_path(&text, "/base", "/home/u")),
        std::path::Path::new("/home/u")
    );
}
