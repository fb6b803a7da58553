use manifold::asset::{
    answer_file, asset_content_type, asset_host_url, asset_request_text, forbidden, found_file,
    index_name, lies_inside, not_found, parse_request, path_extension, plan_asset, response_body, AssetStep,
};

fn find(request: &str) -> manifold::asset::FileRequest {
    match plan_asset(request.as_bytes()) {
        AssetStep::Find(q) => q,
        AssetStep::Answer(_) => unreachable!(),
    }
}

#[test]
fn requests_are_read_back() {
    assert_eq!(asset_host_url(), "in-memory://asset-host");
    for path in ["/a/b.css", "a/b.css"] {
        let request = asset_request_text(path);
        assert_eq!(
            request,
            "GET /a/b.css HTTP/1.1\r\nHost: asset-host\r\nConnection: close\r\n\r\n"
        );
        assert_eq!(parse_request(&request), ("GET".to_string(), "/a/b.css".to_string()));
        assert_eq!(find(&request).file, "a/b.css");
    }
    assert_eq!(parse_request("GET\r\n"), ("GET".to_string(), "/".to_string()));
    assert_eq!(find("GET / HTTP/1.1\r\n").file, "index.html");
    assert_eq!(find("GET //x HTTP/1.1\r\n").file, "x");
}

#[test]
fn other_methods_are_refused() {
    match plan_asset(b"POST /x HTTP/1.1\r\n\r\n") {
        AssetStep::Answer(a) => {
            assert_eq!(
                a.response,
                "HTTP/1.1 405 Method Not Allowed\r\nContent-Length: 0\r\n\r\n"
            );
            assert_eq!(
                a.log.as_deref(),
                Some("[WARN][AssetHost] POST /x - 405 Method Not Allowed")
            );
        }
        AssetStep::Find(_) => unreachable!(),
    }
}

#[test]
fn files_are_given_back() {
    let q = find("GET /page.html HTTP/1.1\r\n\r\n");
    let file = b"a\r\n\r\nb".to_vec();
    let (head, log) = found_file(&q, "/root/page.html", file.len());
    assert_eq!(
        head,
        "HTTP/1.1 200 OK\r\nContent-Type: text/html; charset=utf-8\r\nContent-Length: 6\r\nConnection: close\r\n\r\n"
    );
    assert_eq!(log, "[INFO][AssetHost] GET /page.html - 200 OK (6 bytes)");
    let mut response = head.into_bytes();
    response.extend_from_slice(&file);
    assert_eq!(response_body(response), file);
    assert_eq!(response_body(b"no head".to_vec()), b"no head".to_vec());
    assert_eq!(response_body(not_found().response.into_bytes()), Vec::<u8>::new());
}

#[test]
fn files_outside_of_the_root_are_refused() {
    let q = find("GET /../secret HTTP/1.1\r\n\r\n");
    let a = forbidden(&q);
    assert_eq!(a.response, "HTTP/1.1 403 Forbidden\r\nContent-Length: 0\r\n\r\n");
    assert_eq!(
        a.log.as_deref(),
        Some("[WARN][AssetHost] GET /../secret - 403 Forbidden (path traversal)")
    );
    assert!(not_found().log.is_none());
}

#[test]
fn content_has_a_type() {
    for (extension, kind) in [
        ("html", "text/html; charset=utf-8"),
        ("js", "application/javascript; charset=utf-8"),
        ("css", "text/css; charset=utf-8"),
        ("json", "application/json; charset=utf-8"),
        ("png", "image/png"),
        ("jpg", "image/jpeg"),
        ("jpeg", "image/jpeg"),
        ("gif", "image/gif"),
        ("svg", "image/svg+xml"),
        ("webp", "image/webp"),
        ("bin", "application/octet-stream"),
        ("", "application/octet-stream"),
    ] {
        assert_eq!(asset_content_type(&format!("/a.b/name.{}", extension)), kind);
    }
    assert_eq!(asset_content_type("/a.html/name"), "application/octet-stream");
}

#[test]
fn extensions_are_those_of_paths() {
    for path in [
        "a.html", "/a/b.js", "/a.b/c", ".html", "/x/.html", "/x/..html", "a.", "..", "/a/..", ".", "",
        "/", "a.html/", "a.html/.", "a.html//./", "a.tar.gz", "./a.css", "a/./b.png", "a.b/..",
    ] {
        let known = std::path::Path::new(path).extension().and_then(|e| e.to_str()).unwrap_or("");
        assert_eq!(path_extension(path), known, "{}", path);
    }
}

#[test]
fn files_are_answered_for() {
    let q = find("GET /page.html HTTP/1.1\r\n\r\n");
    let found = answer_file(&q, true, "/root/page.html", Some(b"hi".to_vec()));
    let (head, log) = found_file(&q, "/root/page.html", 2);
    assert_eq!(found.head, head);
    assert_eq!(found.body, b"hi".to_vec());
    assert_eq!(found.log, Some(log));
    let absent = answer_file(&q, true, "/root/page.html", None);
    assert_eq!(absent.head, not_found().response);
    assert!(absent.body.is_empty());
    assert_eq!(absent.log, None);
    for body in [None, Some(b"secret".to_vec())] {
        let outside = answer_file(&q, false, "/etc/page.html", body);
        assert_eq!(outside.head, forbidden(&q).response);
        assert!(outside.body.is_empty());
        assert_eq!(outside.log, forbidden(&q).log);
    }
}

#[test]
fn what_lies_inside_begins_with_the_names_of_the_root() {
    for (root, found, inside) in [
        ("/srv/app", "/srv/app", true),
        ("/srv/app", "/srv/app/", true),
        ("/srv/app/", "/srv/app/a.css", true),
        ("/srv/app", "/srv//app/./a.css", true),
        ("/srv/app", "/srv/app/../secret", true),
        ("/srv/app", "/srv/application/a.css", false),
        ("/srv/app", "/srv", false),
        ("/srv/app", "srv/app/a.css", false),
        ("/", "/etc/passwd", true),
        ("", "/etc/passwd", true),
        ("app", "app/a", true),
        ("./app", "app/a", false),
        ("./app", "./app/a", true),
        ("app", "/app", false),
        (".", "a", false),
    ] {
        assert_eq!(lies_inside(root, found), inside);
        assert_eq!(std::path::Path::new(found).starts_with(root), inside);
    }
}

#[test]
fn a_directory_is_served_by_its_index() {
    assert_eq!(index_name(true), Some("index.html"));
    assert_eq!(index_name(false), None);
}
