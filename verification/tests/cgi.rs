//! Scripts: which one a request asks for, how it is run, and what its output
//! comes to.

use localhost::cgi::executor::{exec_plan, started, CgiError};
use localhost::cgi::io::{
    pump_stdin, pump_stdout, stdin_written, StdinOutcome, StdinStep, StdoutOutcome,
};
use localhost::cgi::{build_response, cgi_target, file_extension, CgiProcess, CgiTarget};
use localhost::config::types::{Method, RouteConfig, ServerConfig};
use localhost::handlers::{FileKind, Observed};
use localhost::http::request::types::{HeaderMap, Request, Version};
use localhost::http::response::writer::EAGAIN;
use localhost::server::connection::PeerAddr;
use localhost::string_map::StringMap;

fn req(path: &str) -> Request {
    Request {
        method: Method::Get,
        path: path.into(),
        query: String::new(),
        version: Version::Http11,
        headers: HeaderMap::new(),
        body: Vec::new(),
    }
}

fn peer() -> PeerAddr {
    PeerAddr { ip: "127.0.0.1".into(), port: 1234 }
}

fn cgi_route(root: &str) -> RouteConfig {
    let mut exts = StringMap::new();
    exts.insert("sh".to_string(), "/bin/sh".to_string());
    RouteConfig {
        path: "/".into(),
        root: Some(root.into()),
        cgi_extensions: exts,
        ..Default::default()
    }
}

fn seen(root: &str, path: &str) -> Observed {
    Observed {
        real_root: Some(root.into()),
        real_path: Some(path.into()),
        kind: FileKind::File,
    }
}

fn nothing_seen(root: &str) -> Observed {
    Observed { real_root: Some(root.into()), real_path: None, kind: FileKind::Other }
}

// ---- cgi_target -----------------------------------------------------------

#[test]
fn resolves_existing_cgi_script() {
    let route = cgi_route("/tmp/cgi_target");
    let target = cgi_target(&req("/run.sh"), &route, &seen("/tmp/cgi_target", "/tmp/cgi_target/run.sh"))
        .expect("should resolve");
    assert_eq!(target.interpreter, "/bin/sh");
    assert!(target.script_path.ends_with("run.sh"));
    assert_eq!(target.script_dir, "/tmp/cgi_target");
}

#[test]
fn missing_script_returns_none() {
    let route = cgi_route("/tmp/cgi_target");
    assert!(cgi_target(&req("/nope.sh"), &route, &nothing_seen("/tmp/cgi_target")).is_none());
}

#[test]
fn non_cgi_extension_returns_none() {
    let route = cgi_route("/tmp/cgi_target");
    let seen = seen("/tmp/cgi_target", "/tmp/cgi_target/page.html");
    assert!(cgi_target(&req("/page.html"), &route, &seen).is_none());
}

#[test]
fn extension_is_matched_whatever_its_case() {
    let route = cgi_route("/srv");
    assert!(cgi_target(&req("/run.SH"), &route, &seen("/srv", "/srv/run.SH")).is_some());
}

#[test]
fn script_outside_the_root_is_not_run() {
    let route = cgi_route("/srv/www");
    assert!(cgi_target(&req("/run.sh"), &route, &seen("/srv/www", "/etc/run.sh")).is_none());
}

// ---- build_response -------------------------------------------------------

#[test]
fn build_response_parses_valid_cgi_output() {
    let raw = b"Content-Type: text/plain\r\n\r\nhello".to_vec();
    let resp = build_response(raw);
    assert_eq!(resp.status.code(), 200);
    assert_eq!(resp.body, b"hello");
}

#[test]
fn build_response_502_on_garbage() {
    let resp = build_response(b"no separator here".to_vec());
    assert_eq!(resp.status.code(), 502);
}

#[test]
fn file_extension_cases() {
    assert_eq!(file_extension("/cgi-bin/run.py"), Some("py"));
    assert_eq!(file_extension("/run.SH"), Some("SH"));
    assert_eq!(file_extension("/noext"), None);
    assert_eq!(file_extension("/"), None);
}

// ---- running --------------------------------------------------------------

fn target(interpreter: &str) -> CgiTarget {
    CgiTarget {
        interpreter: interpreter.into(),
        script_path: "/tmp/whatever.sh".into(),
        script_dir: "/tmp".into(),
    }
}

#[test]
fn spawn_reports_error_for_bad_argument() {
    // interior NUL
    let err = exec_plan(&target("/bin/sh\0bad"), &req("/x.sh"), &ServerConfig::default(), 8080, &peer());
    assert!(matches!(err, Err(CgiError::BadArgument)));
}

#[test]
fn plan_names_program_script_and_directory() {
    let plan = exec_plan(&target("/bin/sh"), &req("/x.sh"), &ServerConfig::default(), 8080, &peer())
        .unwrap();
    assert_eq!(plan.program, "/bin/sh");
    assert_eq!(plan.script, "/tmp/whatever.sh");
    assert_eq!(plan.dir, "/tmp");
    assert!(plan.env.iter().any(|e| e == "SERVER_PORT=8080"));
    assert!(plan.env.iter().all(|e| !e.contains('\0')));
}

#[test]
fn cgi_error_messages() {
    assert_eq!(CgiError::Pipe(24).message(), "pipe2 failed: errno 24");
    assert_eq!(CgiError::Fork(-1).message(), "fork failed: errno -1");
    assert_eq!(CgiError::BadArgument.message(), "CGI argument contained a NUL byte");
}

fn process(body: &[u8]) -> CgiProcess {
    let mut r = req("/x.sh");
    r.body = body.to_vec();
    started(7, 3, 4, &r)
}

#[test]
fn input_is_written_in_parts_and_then_closed() {
    let mut p = process(b"payload-123");
    assert_eq!(pump_stdin(&mut p), StdinStep::Write(3));
    assert_eq!(stdin_written(&mut p, 7, 0, false), StdinStep::Write(3));
    assert_eq!(p.body_cursor, 7);
    assert_eq!(
        stdin_written(&mut p, -1, EAGAIN, true),
        StdinStep::Stop { outcome: StdinOutcome::Wrote, close: None }
    );
    assert_eq!(
        stdin_written(&mut p, 4, 0, false),
        StdinStep::Stop { outcome: StdinOutcome::Finished, close: Some(3) }
    );
    assert_eq!(p.stdin_fd, None);
    assert_eq!(
        pump_stdin(&mut p),
        StdinStep::Stop { outcome: StdinOutcome::Finished, close: None }
    );
}

#[test]
fn input_that_is_not_taken() {
    let mut p = process(b"abc");
    assert_eq!(
        stdin_written(&mut p, -1, EAGAIN, false),
        StdinStep::Stop { outcome: StdinOutcome::WouldBlock, close: None }
    );
    assert_eq!(
        stdin_written(&mut p, -1, 32, false),
        StdinStep::Stop { outcome: StdinOutcome::Broken, close: Some(3) }
    );
}

#[test]
fn output_is_collected_until_its_end() {
    let mut p = process(b"");
    assert_eq!(pump_stdout(&mut p, 5, b"hello???", 0), None);
    assert_eq!(pump_stdout(&mut p, -1, b"", EAGAIN), Some(StdoutOutcome::Pending));
    assert_eq!(pump_stdout(&mut p, -1, b"", 5), Some(StdoutOutcome::Error));
    assert_eq!(pump_stdout(&mut p, 0, b"", 0), Some(StdoutOutcome::Eof));
    assert_eq!(p.out_buf, b"hello");
}
