//! Uploads.

use localhost::config::types::{Method, RouteConfig};
use localhost::handlers::upload::{
    extract_boundary, extract_filename_from_disposition, handle, memmem, parse_multipart,
    sanitise_filename, write_failed,
};
use localhost::http::request::types::{HeaderMap, Request, Version};

const ROOT: &str = "/tmp/upload_test";

fn post_request(path: &str, body: &[u8], content_type: &str) -> Request {
    let mut headers = HeaderMap::new();
    headers.insert("Content-Type", content_type);
    headers.insert("Content-Length", &body.len().to_string());
    Request {
        method: Method::Post,
        path: path.into(),
        query: String::new(),
        version: Version::Http11,
        headers,
        body: body.to_vec(),
    }
}

fn route_for(root: &str) -> RouteConfig {
    RouteConfig {
        path: "/upload".into(),
        root: Some(root.into()),
        ..Default::default()
    }
}

// ---- raw upload -----------------------------------------------------------

#[test]
fn raw_upload_creates_file() {
    let req = post_request("/upload/hello.txt", b"file content", "text/plain");
    let plan = handle(&req, &route_for(ROOT), 1_000_000);
    assert_eq!(plan.response.status.code(), 201);
    assert_eq!(plan.writes.len(), 1);
    assert_eq!(plan.writes[0].dest, format!("{ROOT}/hello.txt"));
    assert_eq!(plan.writes[0].data, b"file content");
}

#[test]
fn raw_upload_overwrites_existing() {
    let req = post_request("/upload/data.bin", b"new content", "application/octet-stream");
    let plan = handle(&req, &route_for(ROOT), 1_000_000);
    assert_eq!(plan.response.status.code(), 201);
    assert_eq!(plan.writes[0].dest, format!("{ROOT}/data.bin"));
    assert_eq!(plan.writes[0].data, b"new content");
}

#[test]
fn raw_upload_fallback_filename() {
    // Path with no filename segment → uses "upload".
    let req = post_request("/", b"data", "application/octet-stream");
    let plan = handle(&req, &route_for(ROOT), 1_000_000);
    assert_eq!(plan.response.status.code(), 201);
    assert_eq!(plan.writes[0].dest, format!("{ROOT}/upload"));
}

#[test]
fn upload_body_exceeding_limit_returns_413() {
    let req = post_request("/upload/big.bin", b"1234567890", "application/octet-stream");
    let plan = handle(&req, &route_for(ROOT), 5); // limit 5 bytes
    assert_eq!(plan.response.status.code(), 413);
    assert!(plan.writes.is_empty());
}

#[test]
fn upload_without_root_returns_403() {
    let req = post_request("/upload/file.txt", b"data", "text/plain");
    let route = RouteConfig { path: "/upload".into(), root: None, ..Default::default() };
    let plan = handle(&req, &route, 1_000_000);
    assert_eq!(plan.response.status.code(), 403);
    assert!(plan.writes.is_empty());
}

#[test]
fn failed_write_returns_500() {
    assert_eq!(write_failed().status.code(), 500);
}

// ---- sanitise_filename ----------------------------------------------------

#[test]
fn sanitise_removes_path_separators() {
    assert_eq!(sanitise_filename("../../etc/passwd"), "....etcpasswd");
    assert_eq!(sanitise_filename("normal.txt"), "normal.txt");
}

#[test]
fn sanitise_removes_null_bytes() {
    let name = "file\0name.txt";
    assert_eq!(sanitise_filename(name), "filename.txt");
}

// ---- boundary extraction --------------------------------------------------

#[test]
fn extract_boundary_standard() {
    let ct = "multipart/form-data; boundary=----WebKitFormBoundary123";
    assert_eq!(extract_boundary(ct), Some("----WebKitFormBoundary123".to_string()));
}

#[test]
fn extract_boundary_quoted() {
    let ct = "multipart/form-data; boundary=\"myboundary\"";
    assert_eq!(extract_boundary(ct), Some("myboundary".to_string()));
}

#[test]
fn extract_boundary_missing_returns_none() {
    assert_eq!(extract_boundary("multipart/form-data"), None);
}

#[test]
fn filename_in_disposition() {
    assert_eq!(
        extract_filename_from_disposition(
            "Content-Type: text/plain\r\nContent-Disposition: form-data; name=\"f\"; filename=\"a.txt\""
        ),
        Some("a.txt".to_string())
    );
    assert_eq!(extract_filename_from_disposition("Content-Disposition: form-data; name=\"f\""), None);
}

// ---- multipart parsing ----------------------------------------------------

#[test]
fn multipart_single_file_part() {
    let boundary = "testboundary";
    let body = format!(
        "--{boundary}\r\n\
         Content-Disposition: form-data; name=\"file\"; filename=\"hello.txt\"\r\n\
         Content-Type: text/plain\r\n\
         \r\n\
         Hello, world!\r\n\
         --{boundary}--\r\n"
    );
    let parts = parse_multipart(body.as_bytes(), boundary.as_bytes()).unwrap();
    assert_eq!(parts.len(), 1);
    assert_eq!(parts[0].filename.as_deref(), Some("hello.txt"));
    assert_eq!(parts[0].data, b"Hello, world!");
}

#[test]
fn multipart_skips_non_file_fields() {
    let boundary = "bnd";
    let body = format!(
        "--{boundary}\r\n\
         Content-Disposition: form-data; name=\"description\"\r\n\
         \r\n\
         some text\r\n\
         --{boundary}\r\n\
         Content-Disposition: form-data; name=\"upload\"; filename=\"img.png\"\r\n\
         Content-Type: image/png\r\n\
         \r\n\
         PNGDATA\r\n\
         --{boundary}--\r\n"
    );
    let parts = parse_multipart(body.as_bytes(), boundary.as_bytes()).unwrap();
    assert_eq!(parts.len(), 2);
    // description part has no filename.
    assert!(parts[0].filename.is_none());
    assert_eq!(parts[1].filename.as_deref(), Some("img.png"));

    // Only the file part is written.
    let ct = format!("multipart/form-data; boundary={boundary}");
    let plan = handle(&post_request("/upload", body.as_bytes(), &ct), &route_for(ROOT), 1_000_000);
    assert_eq!(plan.writes.len(), 1);
    assert_eq!(plan.writes[0].data, b"PNGDATA");
}

#[test]
fn multipart_full_upload_integration() {
    let boundary = "xboundary";
    let body = format!(
        "--{boundary}\r\n\
         Content-Disposition: form-data; name=\"f\"; filename=\"up.txt\"\r\n\
         \r\n\
         uploaded\r\n\
         --{boundary}--\r\n"
    );
    let ct = format!("multipart/form-data; boundary={boundary}");
    let req = post_request("/upload", body.as_bytes(), &ct);
    let plan = handle(&req, &route_for(ROOT), 1_000_000);
    assert_eq!(plan.response.status.code(), 201);
    assert_eq!(plan.writes[0].dest, format!("{ROOT}/up.txt"));
    assert_eq!(plan.writes[0].data, b"uploaded");
}

#[test]
fn multipart_without_boundary_is_bad() {
    let req = post_request("/upload", b"x", "multipart/form-data");
    assert_eq!(handle(&req, &route_for(ROOT), 100).response.status.code(), 400);
}

#[test]
fn multipart_names_stay_under_the_root() {
    let body = b"--b\r\nContent-Disposition: form-data; filename=\"../../x\"\r\n\r\nd\r\n--b--\r\n";
    let req = post_request("/upload", body, "multipart/form-data; boundary=b");
    for w in handle(&req, &route_for(ROOT), 1000).writes {
        assert!(w.dest.starts_with("/tmp/upload_test/"));
        assert!(!w.dest.contains("/../"));
    }
}

// ---- memmem helper --------------------------------------------------------

#[test]
fn memmem_finds_needle() {
    assert_eq!(memmem(b"hello world", b"world", 0), Some(6));
    assert_eq!(memmem(b"hello", b"xyz", 0), None);
    assert_eq!(memmem(b"aabaa", b"aa", 1), Some(3));
}

#[test]
fn form_reads_back() {
    let parts: [(&str, &[u8]); 3] =
        [("a.txt", b"one\r\n--other"), ("b.txt", b""), ("c.txt", b"\r\n\r\n--")];
    let mut body = Vec::new();
    for (name, data) in &parts {
        body.extend_from_slice(b"--B-x\r\n");
        body.extend_from_slice(format!("Content-Disposition: form-data; filename=\"{name}\"").as_bytes());
        body.extend_from_slice(b"\r\n\r\n");
        body.extend_from_slice(data);
        body.extend_from_slice(b"\r\n");
    }
    body.extend_from_slice(b"--B-x--\r\n");
    let read = parse_multipart(&body, b"B-x").unwrap();
    assert_eq!(read.len(), 3);
    for (part, (name, data)) in read.iter().zip(parts.iter()) {
        assert_eq!(part.filename.as_deref(), Some(*name));
        assert_eq!(&part.data[..], *data);
    }
}

#[test]
fn multipart_errors_say_why() {
    assert_eq!(
        parse_multipart(b"--b\r\nA: b", b"b").err(),
        Some("malformed multipart: missing part header terminator")
    );
    assert_eq!(
        parse_multipart(b"--b\r\n\xff\r\n\r\nx", b"b").err(),
        Some("multipart header is not UTF-8")
    );
    let ct = "multipart/form-data; boundary=b";
    for body in [&b"nothing"[..], &b"--b\r\nA: b\r\n\r\nx\r\n--b--"[..]] {
        let plan = handle(&post_request("/upload", body, ct), &route_for(ROOT), 1_000);
        assert_eq!(plan.response.status.code(), 400);
    }
}

#[test]
fn filename_reads_back_beyond_ascii() {
    assert_eq!(
        extract_filename_from_disposition(
            "Content-Disposition: form-data; name=\"f\"; filename=\"\u{e9}.png\"\r\nContent-Type: image/png"
        ),
        Some("\u{e9}.png".to_string())
    );
}
