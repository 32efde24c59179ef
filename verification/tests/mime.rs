//! Media types.

use localhost::utils::mime::{from_extension, from_path};

#[test]
fn html_mime() {
    assert_eq!(from_path("/index.html"), "text/html; charset=utf-8");
    assert_eq!(from_path("/page.htm"),   "text/html; charset=utf-8");
}

#[test]
fn css_js_json() {
    assert_eq!(from_path("/style.css"),    "text/css; charset=utf-8");
    assert_eq!(from_path("/app.js"),       "application/javascript; charset=utf-8");
    assert_eq!(from_path("/data.json"),    "application/json");
}

#[test]
fn image_types() {
    assert_eq!(from_path("/logo.png"),  "image/png");
    assert_eq!(from_path("/photo.jpg"), "image/jpeg");
    assert_eq!(from_path("/icon.ico"),  "image/x-icon");
}

#[test]
fn unknown_extension_fallback() {
    assert_eq!(from_path("/file.xyz"),  "application/octet-stream");
    assert_eq!(from_path("/file"),      "application/octet-stream");
}

#[test]
fn path_with_directory_components() {
    assert_eq!(from_path("/static/css/app.css"), "text/css; charset=utf-8");
    assert_eq!(from_path("/a/b/c/d.json"),       "application/json");
}

#[test]
fn wasm_type() {
    assert_eq!(from_path("/module.wasm"), "application/wasm");
}

#[test]
fn case_of_the_extension_makes_no_difference() {
    assert_eq!(from_path("/LOGO.PNG"), "image/png");
    assert_eq!(from_extension("png"), "image/png");
    assert_eq!(from_extension("nope"), "application/octet-stream");
}
