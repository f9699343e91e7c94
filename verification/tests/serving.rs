use wisp_web::html;
use wisp_web::message::Request;
use wisp_web::render::{error_page, extract_inline_styles, Canvas};
use wisp_web::site::{answer_with_file, content_type, file_response, plan, static_target, ServerAction};
use wisp_web::tls::generate_self_signed;
use wisp_web::values::Color;

#[test]
fn static_paths_and_types() {
    assert_eq!(static_target("/"), "index.html");
    assert_eq!(static_target("//a/b.css"), "a/b.css");
    assert_eq!(content_type("a/b.css"), "text/css");
    assert_eq!(content_type("index.html"), "text/html");
    assert_eq!(content_type("img.png"), "application/octet-stream");
}

#[test]
fn file_answers() {
    let ok = file_response("x.html", Some(b"<p>".to_vec()));
    assert_eq!(ok.status, 200);
    assert_eq!(ok.headers[0], ("content-type".to_string(), "text/html".to_string()));
    assert_eq!(ok.headers[1], ("content-length".to_string(), "3".to_string()));
    let missing = file_response("x.html", None);
    assert_eq!(missing.status, 404);
    assert_eq!(missing.body, b"not found".to_vec());
    let hello = answer_with_file("index.html", true, None);
    assert_eq!(hello.status, 200);
    assert_eq!(hello.body, b"hello over wisp://\n".to_vec());
    let page = answer_with_file("index.html", true, Some(b"hi".to_vec()));
    assert_eq!(page.body, b"hi".to_vec());
}

#[test]
fn server_plans() {
    match plan(&Request::new("GET", "/")) {
        ServerAction::ReadFile { rel, root_page } => {
            assert_eq!(rel, "index.html");
            assert!(root_page);
        }
        ServerAction::Respond(_) => panic!("expected a file read"),
    }
    match plan(&Request::new("GET", "/docs/a.css")) {
        ServerAction::ReadFile { rel, root_page } => {
            assert_eq!(rel, "docs/a.css");
            assert!(!root_page);
        }
        ServerAction::Respond(_) => panic!("expected a file read"),
    }
    match plan(&Request::new("GET", "/echo").with_body(b"ping".to_vec())) {
        ServerAction::Respond(r) => {
            assert_eq!(r.body, b"ping".to_vec());
            assert_eq!(r.headers[0].1, "application/octet-stream");
        }
        ServerAction::ReadFile { .. } => panic!("expected an answer"),
    }
    match plan(&Request::new("DELETE", "/")) {
        ServerAction::Respond(r) => assert_eq!((r.status, r.reason.as_str()), (405, "METHOD_NOT_ALLOWED")),
        ServerAction::ReadFile { .. } => panic!("expected an answer"),
    }
}

#[test]
fn inline_styles_are_collected_in_order() {
    let dom = html::parse("<html><head><style>a{}</style></head><body><style>b{}</style></body></html>".to_string());
    assert_eq!(extract_inline_styles(&dom), "a{}\nb{}\n");
}

#[test]
fn canvas_fill_put_get_and_blit() {
    let mut c = Canvas::new(3, 2, Color { r: 1, g: 2, b: 3, a: 255 });
    assert_eq!(c.pixels, vec![0x010203; 6]);
    c.put(2, 1, 7);
    assert_eq!(c.get(2, 1), 7);
    assert_eq!(c.pixels[5], 7);
    let mut page = Canvas::new(2, 3, Color::black());
    page.put(0, 1, 9);
    let mut window = Canvas::new(3, 3, Color::white());
    window.blit(&page, 1, 1);
    assert_eq!(window.pixels, vec![0xffffff, 0xffffff, 0xffffff, 9, 0, 0xffffff, 0, 0, 0xffffff]);
}

#[test]
fn error_page_escapes_tags() {
    assert_eq!(error_page("bad <x>"), "<body><h1>Could not load page</h1><p>bad &lt;x></p></body>");
}

#[test]
fn self_signed_certificate_is_made() {
    let (cert, key) = generate_self_signed(vec!["localhost".to_string()]).unwrap();
    assert!(!cert.is_empty());
    assert!(!key.is_empty());
}

#[test]
fn certificate_names_the_hosts() {
    let (cert, _) = generate_self_signed(vec!["example.test".to_string()]).unwrap();
    let needle = b"example.test";
    assert!(cert.windows(needle.len()).any(|w| w == needle));
}
