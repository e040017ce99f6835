use quark::serve_file::{
    DirEntryInfo, DirFallback, FileDecision, display_directory_content, open_file_headers,
    sanitize_path, serve_file,
};

#[test]
fn sanitize_drops_dot_segments() {
    assert_eq!(sanitize_path("/srv/public/../../etc/passwd"), "/srv/public/etc/passwd");
    assert_eq!(sanitize_path("a/./b//c"), "a/b/c");
    assert_eq!(sanitize_path("/"), "/");
    assert_eq!(sanitize_path("/srv/x"), "/srv/x");
}

#[test]
fn traversal_stays_under_root() {
    let sanitized = sanitize_path("/srv/public/../../etc/passwd");
    assert!(sanitized.starts_with("/srv/public"));
}

#[test]
fn directory_without_slash_redirects() {
    let d = serve_file("/srv/public", "/docs", "/docs", &None, false, false, false, true);
    match d {
        FileDecision::ServeIndexOr { index_path, on_missing } => {
            assert_eq!(index_path, "/srv/public/docs/index.html");
            match on_missing {
                DirFallback::RedirectSlash { location } => assert_eq!(location, "/docs/"),
                _ => panic!("expected the slash redirect"),
            }
        }
        _ => panic!("expected the index attempt"),
    }
}

#[test]
fn directory_with_slash_lists_when_allowed() {
    let d = serve_file("/srv/public", "/docs/", "/docs/", &None, false, false, false, true);
    match d {
        FileDecision::ServeIndexOr { on_missing, .. } => match on_missing {
            DirFallback::ListDir { dir } => assert_eq!(dir, "/srv/public/docs"),
            _ => panic!("expected the listing"),
        },
        _ => panic!("expected the index attempt"),
    }
}

#[test]
fn forbidden_directory_is_403() {
    let d = serve_file("/srv/public", "/docs/", "/docs/", &None, false, true, false, true);
    match d {
        FileDecision::ServeIndexOr { on_missing, .. } => {
            assert!(matches!(on_missing, DirFallback::Forbidden));
        }
        _ => panic!("expected the index attempt"),
    }
}

#[test]
fn fallback_file_serves_missing_as_404() {
    let fb = Some("/srv/404.html".to_string());
    let d = serve_file("/srv/app", "/missing", "/missing", &fb, true, true, false, false);
    match d {
        FileDecision::ServeFileAt { path, status } => {
            assert_eq!(path, "/srv/404.html");
            assert_eq!(status, 404);
        }
        _ => panic!("expected the fallback"),
    }
}

#[test]
fn plain_file_serves_200() {
    let d = serve_file("/srv/app", "/a.txt", "/a.txt", &None, false, true, true, false);
    match d {
        FileDecision::ServeFileAt { path, status } => {
            assert_eq!(path, "/srv/app/a.txt");
            assert_eq!(status, 200);
        }
        _ => panic!("expected the file"),
    }
}

#[test]
fn mime_type_from_extension() {
    let (status, headers) = open_file_headers("/srv/index.html");
    assert_eq!(status, 200);
    assert_eq!(headers[0].0, "Content-Type");
    assert_eq!(headers[0].1, "text/html");
    let (_, headers) = open_file_headers("/srv/unknown.zzz9");
    assert_eq!(headers[0].1, "application/octet-stream");
}

#[test]
fn listing_shows_name_date_and_size() {
    let entries = vec![
        DirEntryInfo {
            name: "a.txt".to_string(),
            is_dir: false,
            size: 1536,
            modified_unix: 86400,
        },
        DirEntryInfo { name: "sub".to_string(), is_dir: true, size: 0, modified_unix: 0 },
    ];
    let page = display_directory_content("/docs", &entries);
    assert_eq!(page.status, 200);
    assert!(page.body.contains("Index of /docs"));
    assert!(page.body.contains("a.txt"));
    assert!(page.body.contains("1.5 KB"));
    assert!(page.body.contains("02-Jan-1970 00:00:00"));
    assert!(page.body.contains("<a href=\"..\">..</a>"));
    assert!(page.body.contains("quark v.1.0.0"));
}

#[test]
fn listing_at_top_has_no_parent_link() {
    let page = display_directory_content("", &Vec::new());
    assert!(!page.body.contains("<a href=\"..\">"));
}
