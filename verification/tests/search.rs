use wisp_web::crawl::{crawled_doc, page_title, parse_sites};
use wisp_web::index::{extract_title_and_text, Doc, Index};
use wisp_web::message::{Request, Response};
use wisp_web::search_page::{escape_html, page_shell, query_param, route, url_decode, SHELL_HEAD, SHELL_TAIL};

fn doc(addr: &str, path: &str, title: &str, text: &str) -> Doc {
    Doc { addr: addr.to_string(), path: path.to_string(), title: title.to_string(), text: text.to_string() }
}

fn sample() -> Index {
    Index::build(vec![
        doc("a:1", "/", "Rust notes", "rust is a language. rust rust"),
        doc("b:1", "/x", "Cooking", "bread and rust-free pans"),
        doc("c:1", "/y", "Nothing", "unrelated words"),
    ])
}

#[test]
fn search_ranks_best_first_with_title_bonus() {
    let idx = sample();
    // doc 0: "rust" appears once in the title and three times in the text, plus the title bonus
    assert_eq!(idx.search("rust"), vec![(0, 9), (1, 1)]);
    assert_eq!(idx.search("RUST!"), vec![(0, 9), (1, 1)]);
    assert_eq!(idx.search("pans bread"), vec![(1, 2)]);
    assert_eq!(idx.search("zebra"), vec![]);
    assert_eq!(idx.search(""), vec![]);
    assert_eq!(idx.docs().len(), 3);
}

#[test]
fn search_repeated_query_term_counts_twice_and_ties_keep_index_order() {
    let idx = Index::build(vec![doc("a", "/", "", "x"), doc("b", "/", "", "x")]);
    assert_eq!(idx.search("x"), vec![(0, 1), (1, 1)]);
    assert_eq!(idx.search("x x"), vec![(0, 2), (1, 2)]);
    assert_eq!(idx.try_search("x").unwrap(), vec![(0, 1), (1, 1)]);
    assert!(Index::try_build(vec![doc("a", "/", "t", "t")]).is_some());
}

#[test]
fn title_and_text_from_html() {
    let (title, text) = extract_title_and_text(
        "<html><head><title> My  &amp; Page </title><style>p{}</style></head><body><p>Hello&nbsp;<b>world</b></p><script>x()</script>bye</body></html>",
    );
    assert_eq!(title, "My & Page");
    assert_eq!(text, "Hello worldbye");
}

#[test]
fn url_decoding_and_query_parameters() {
    assert_eq!(url_decode("a+b%20c%41"), "a b cA");
    assert_eq!(url_decode("100%"), "100%");
    assert_eq!(url_decode("%zz"), "%zz");
    assert_eq!(url_decode("%ff"), "\u{FFFD}");
    assert_eq!(query_param("/search?x=1&q=hello+world", "q"), Some("hello world".to_string()));
    assert_eq!(query_param("/search?q", "q"), None);
    assert_eq!(query_param("/search", "q"), None);
}

#[test]
fn escaping_and_shell() {
    assert_eq!(escape_html("<a href=\"x\">&</a>"), "&lt;a href=\"x\"&gt;&amp;&lt;/a&gt;");
    let page = page_shell("BODY");
    assert!(page.starts_with("<html><head><title>wisp search</title></head><body>\n<style>\n  body { background-color"));
    assert!(page.ends_with("BODY\n</body></html>"));
    assert_eq!(page, format!("{}BODY{}", SHELL_HEAD, SHELL_TAIL));
}

fn body_text(resp: &Response) -> String {
    String::from_utf8(resp.body.clone()).unwrap()
}

#[test]
fn search_routes() {
    let idx = sample();
    let home = route(&Request::new("GET", "/"), &idx).unwrap();
    assert_eq!(home.status, 200);
    assert_eq!(home.headers[0], ("content-type".to_string(), "text/html".to_string()));
    assert!(body_text(&home).contains("USE PATH /search?q=YOURQUERY TO SEARCH."));

    let res = route(&Request::new("GET", "/search?q=rust"), &idx).unwrap();
    let body = body_text(&res);
    assert!(body.contains("<p>RESULTS FOR: rust</p>"));
    assert!(body.contains("<div class=\"result\"><p>Rust notes (SCORE 9)</p><p>wisp://a:1/</p><p>rust is a language. rust rust...</p></div>"));
    assert!(body.find("Rust notes").unwrap() < body.find("Cooking").unwrap());

    let none = route(&Request::new("GET", "/search?q=%3Cb%3E"), &idx).unwrap();
    let body = body_text(&none);
    assert!(body.contains("<p>RESULTS FOR: &lt;b&gt;</p>"));
    assert!(body.contains("NO RESULTS."));

    let missing = route(&Request::new("POST", "/"), &idx).unwrap();
    assert_eq!((missing.status, missing.reason.as_str()), (404, "NOT_FOUND"));
    assert!(route(&Request::new("GET", "/search?q=%a\u{e9}"), &idx).is_none());
}

#[test]
fn sites_file_and_titles() {
    let sites = parse_sites("# comment\n\n  127.0.0.1:8443 /docs  \r\nexample:1\n");
    assert_eq!(
        sites,
        vec![
            ("127.0.0.1:8443".to_string(), "/docs".to_string()),
            ("example:1".to_string(), "/".to_string()),
        ]
    );
    assert_eq!(page_title(String::new(), "h:1", "/p"), "h:1/p");
    assert_eq!(page_title("T".to_string(), "h:1", "/p"), "T");
}

#[test]
fn search_is_deterministic_and_title_bonus_orders_equal_counts() {
    let idx = Index::build(vec![
        doc("a", "/", "plain", "kiwi"),
        doc("b", "/", "Kiwi facts", "nothing here"),
    ]);
    // both hold "kiwi" once; the one with it in the title scores 5 more and comes first
    assert_eq!(idx.search("kiwi"), vec![(1, 6), (0, 1)]);
    assert_eq!(idx.search("kiwi"), idx.search("kiwi"));
}

#[test]
fn fetched_page_becomes_a_document() {
    let d = crawled_doc("h:1", "/p", b"<title>T</title><p>Hi \xff</p>");
    assert_eq!((d.addr.as_str(), d.path.as_str(), d.title.as_str()), ("h:1", "/p", "T"));
    assert_eq!(d.text, "Hi \u{FFFD}");
    let untitled = crawled_doc("h:1", "/p", b"<p>x</p>");
    assert_eq!(untitled.title, "h:1/p");
}
