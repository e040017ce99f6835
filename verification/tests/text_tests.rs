use quark::text::{
    extract_vars_from_string, format_size, get_base_path, get_path_and_file, get_project_version,
    remove_last_slash, replace_all, u64_to_dec,
};

#[test]
fn extract_single_var() {
    let text = "My ${variable}";
    let var = extract_vars_from_string(text);
    assert_eq!(var, ["variable"]);
}

#[test]
fn extract_multiples_var() {
    let text = "${var1} and ${var2} and ${var3}";
    let var = extract_vars_from_string(text);
    assert_eq!(var, ["var1", "var2", "var3"]);
}

#[test]
fn extract_none() {
    let var = extract_vars_from_string("no variables here");
    assert!(var.is_empty());
}

#[test]
fn remove_last_slash_cases() {
    assert_eq!(remove_last_slash("/a/b/"), "/a/b");
    assert_eq!(remove_last_slash("/a/b"), "/a/b");
    assert_eq!(remove_last_slash(""), "");
    assert_eq!(remove_last_slash("/"), "");
}

#[test]
fn base_path_cuts_query_and_fragment() {
    assert_eq!(get_base_path("/p?q=1"), "/p");
    assert_eq!(get_base_path("/p#frag"), "/p");
    assert_eq!(get_base_path("/p"), "/p");
}

#[test]
fn path_and_file_split() {
    let (dir, file) = get_path_and_file("/srv/site/404.html", true);
    assert_eq!(dir, "/srv/site");
    assert_eq!(file, Some("404.html".to_string()));
    let (dir, file) = get_path_and_file("/srv/site", false);
    assert_eq!(dir, "/srv/site");
    assert_eq!(file, None);
    let (dir, file) = get_path_and_file("plain.txt", true);
    assert_eq!(dir, "");
    assert_eq!(file, Some("plain.txt".to_string()));
}

#[test]
fn format_size_units() {
    assert_eq!(format_size(512), "512 B");
    assert_eq!(format_size(1024), "1.0 KB");
    assert_eq!(format_size(1536), "1.5 KB");
    assert_eq!(format_size(1048576), "1.0 MB");
    assert_eq!(format_size(1073741824), "1.0 GB");
    assert_eq!(format_size(1099511627776), "1.0 TB");
}

#[test]
fn decimal_rendering() {
    assert_eq!(u64_to_dec(0), "0");
    assert_eq!(u64_to_dec(443), "443");
    assert_eq!(u64_to_dec(18446744073709551615), "18446744073709551615");
}

#[test]
fn replace_all_occurrences() {
    assert_eq!(replace_all("http://${p}/x/${p}", "${p}", "h"), "http://h/x/h");
    assert_eq!(replace_all("abc", "z", "y"), "abc");
}

#[test]
fn version_string() {
    assert_eq!(get_project_version(), "quark v.1.0.0");
}
