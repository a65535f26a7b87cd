use zhtta::cache::FileCache;
use zhtta::dynamic::PagePiece;
use zhtta::queue::RequestQueue;
use zhtta::server::{get_args, ArgsError, PeerAddr, Route, ServerConfig, WebServer};

const OK_HEAD: &str = "HTTP/1.1 200 OK\r\nContent-Type: text/html; charset=UTF-8\r\n\r\n";

#[test]
fn counter_page_shows_count() {
    let style = "<doctype !html><html><head><title>Hello, Rust!</title>
             <style>body { background-color: #884414; color: #FFEEAA}
                    h1 { font-size:2cm; text-align: center; color: black; text-shadow: 0 0 4mm red }
                    h2 { font-size:2cm; text-align: center; color: black; text-shadow: 0 0 4mm green }
             </style></head>
             <body>";
    let expected = format!(
        "{}{}<h1>Greetings, Krusty!</h1>
                     <h2>Visitor count: {}</h2></body></html>\r\n",
        OK_HEAD, style, 42
    );
    assert_eq!(WebServer::respond_with_counter_page(42), expected.into_bytes());
    let zero = String::from_utf8(WebServer::respond_with_counter_page(0)).unwrap();
    assert!(zero.contains("<h2>Visitor count: 0</h2>"));
}

#[test]
fn error_page_names_path() {
    assert_eq!(
        WebServer::respond_with_error_page("/srv/www/missing.html"),
        b"HTTP/1.1 404 Not Found\r\n\r\nCannot open: /srv/www/missing.html".to_vec()
    );
}

#[test]
fn static_file_is_sent_in_whole_buffers_and_cached() {
    let mut cache = FileCache::new();
    assert!(WebServer::cached_static_file(&cache, b"/www/a.txt").is_none());
    let chunks = vec![b"abc".to_vec(), Vec::new()];
    let first = WebServer::respond_with_static_file(&mut cache, b"/www/a.txt", &chunks);
    let mut expected = OK_HEAD.as_bytes().to_vec();
    expected.extend_from_slice(b"abc");
    expected.extend(std::iter::repeat(0u8).take(1021 + 1024));
    assert_eq!(first, expected);
    assert_eq!(WebServer::cached_static_file(&cache, b"/www/a.txt"), Some(first));
    assert!(WebServer::cached_static_file(&cache, b"/www/b.txt").is_none());
}

#[test]
fn static_file_of_full_buffers() {
    let mut cache = FileCache::new();
    let full = vec![7u8; 1024];
    let chunks = vec![full.clone(), full.clone(), Vec::new()];
    let r = WebServer::respond_with_static_file(&mut cache, b"f", &chunks);
    assert_eq!(r.len(), OK_HEAD.len() + 3 * 1024);
    assert_eq!(&r[OK_HEAD.len()..OK_HEAD.len() + 2048], &vec![7u8; 2048][..]);
    assert!(r[OK_HEAD.len() + 2048..].iter().all(|b| *b == 0));
}

#[test]
fn priority_of_requests() {
    assert_eq!(WebServer::request_priority(b"1.2.3.4:5", 10), u64::MAX - 9);
    assert_eq!(WebServer::request_priority(b"1.2.3.4:5", 0), 0);
    assert_eq!(WebServer::request_priority(b"128.143.1.1:80", 10), 990);
    assert_eq!(WebServer::request_priority(b"137.54.0.1:1", 5000), u64::MAX - 3999);
    assert_eq!(WebServer::request_priority(b"10.128.143.1:1", 5000), u64::MAX - 4999);
}

#[test]
fn smaller_files_and_preferred_peers_first() {
    let small = WebServer::request_priority(b"9.9.9.9:1", 100);
    let large = WebServer::request_priority(b"9.9.9.9:1", 100000);
    assert!(small > large);
    let preferred = WebServer::request_priority(b"128.143.0.1:2", 5000);
    let other = WebServer::request_priority(b"9.9.9.9:1", 5000);
    assert!(preferred > other);
}

#[test]
fn queue_serves_smallest_file_first() {
    let mut q = RequestQueue::new();
    WebServer::enqueue_static_file_request(&mut q, b"9.9.9.9:1".to_vec(), b"./big".to_vec(), 50000);
    WebServer::enqueue_static_file_request(&mut q, b"9.9.9.9:2".to_vec(), b"./small".to_vec(), 20);
    WebServer::enqueue_static_file_request(&mut q, b"9.9.9.9:3".to_vec(), b"./mid".to_vec(), 3000);
    let first = WebServer::dequeue_static_file_request(&mut q).unwrap();
    assert_eq!(first.path, b"./small".to_vec());
    assert_eq!(first.priority, u64::MAX - 19);
    assert_eq!(WebServer::dequeue_static_file_request(&mut q).unwrap().path, b"./mid".to_vec());
    assert_eq!(WebServer::dequeue_static_file_request(&mut q).unwrap().path, b"./big".to_vec());
    assert!(WebServer::dequeue_static_file_request(&mut q).is_none());
}

#[test]
fn peer_names() {
    let v4 = Some(PeerAddr::V4 { a: 127, b: 0, c: 0, d: 1, port: 4414 });
    assert_eq!(WebServer::get_peer_name(&v4), b"127.0.0.1:4414".to_vec());
    let v4b = Some(PeerAddr::V4 { a: 255, b: 10, c: 200, d: 9, port: 65535 });
    assert_eq!(WebServer::get_peer_name(&v4b), b"255.10.200.9:65535".to_vec());
    assert_eq!(WebServer::get_peer_name(&None), Vec::<u8>::new());
    let other = Some(PeerAddr::Other(b"[::1]:8080".to_vec()));
    assert_eq!(WebServer::get_peer_name(&other), b"[::1]:8080".to_vec());
}

#[test]
fn request_paths() {
    assert_eq!(WebServer::request_path(b"GET /index.html HTTP/1.1\r\n\r\n"), Some(b"./index.html".to_vec()));
    assert_eq!(WebServer::request_path(b"GET / HTTP/1.1"), Some(b"./".to_vec()));
    assert_eq!(WebServer::request_path(b"GET  x"), Some(b".".to_vec()));
    assert_eq!(WebServer::request_path(b"GET /"), None);
    assert_eq!(WebServer::request_path(b""), None);
}

#[test]
fn routes() {
    assert_eq!(WebServer::route_request(b"./", "/srv/www/./", true, true), Route::CounterPage);
    assert_eq!(WebServer::route_request(b"./", "/srv/www/./", false, false), Route::CounterPage);
    assert_eq!(WebServer::route_request(b"./a.html", "/srv/www/./a.html", false, false), Route::ErrorPage);
    assert_eq!(WebServer::route_request(b"./d", "/srv/www/./d", true, true), Route::ErrorPage);
    assert_eq!(WebServer::route_request(b"./a.shtml", "/srv/www/./a.shtml", true, false), Route::DynamicPage);
    assert_eq!(WebServer::route_request(b"./a.html", "/srv/www/./a.html", true, false), Route::StaticFile);
    assert_eq!(WebServer::route_request(b"./a.SHTML", "/srv/www/./a.SHTML", true, false), Route::StaticFile);
    assert_eq!(WebServer::route_request(b"./.shtml", "/srv/www/./.shtml", true, false), Route::StaticFile);
    assert_eq!(WebServer::route_request(b"./shtml", "/srv/www/./shtml", true, false), Route::StaticFile);
    assert_eq!(WebServer::route_request(b"./b.shtml/", "/srv/www/./b.shtml/", true, false), Route::DynamicPage);
    assert_eq!(WebServer::route_request(b"./b.shtml/.", "/srv/www/./b.shtml/.", true, false), Route::DynamicPage);
    assert_eq!(WebServer::route_request(b"./x.shtml/..", "/srv/www/./x.shtml/..", true, false), Route::StaticFile);
    assert_eq!(WebServer::route_request(b"./a.b.shtml", "/srv/www/./a.b.shtml", true, false), Route::DynamicPage);
    assert_eq!(WebServer::route_request(b"./a.shtml.x", "/srv/www/./a.shtml.x", true, false), Route::StaticFile);
}

#[test]
fn routes_by_given_extension() {
    let shtml = Some(b"shtml".to_vec());
    assert_eq!(WebServer::route_for_extension(b"./a", &shtml, true, false), Route::DynamicPage);
    assert_eq!(WebServer::route_for_extension(b"./a", &None, true, false), Route::StaticFile);
    assert_eq!(WebServer::route_for_extension(b"./a", &Some(b"html".to_vec()), true, false), Route::StaticFile);
    assert_eq!(WebServer::route_for_extension(b"./", &shtml, true, false), Route::CounterPage);
    assert_eq!(WebServer::route_for_extension(b"./a", &shtml, false, false), Route::ErrorPage);
    assert_eq!(WebServer::route_for_extension(b"./a", &shtml, true, true), Route::ErrorPage);
}

#[test]
fn dynamic_page_through_server() {
    let page = WebServer::respond_with_dynamic_page(b"<!--#exec cmd=\"date\" -->");
    assert!(page.complete);
    assert_eq!(page.pieces[1], PagePiece::Command(b"date".to_vec()));
}

#[test]
fn visits_are_counted() {
    assert_eq!(WebServer::record_visit(0), 1);
    assert_eq!(WebServer::record_visit(41), 42);
    assert_eq!(WebServer::record_visit(u64::MAX), 0);
}

#[test]
fn server_settings() {
    let s = WebServer::new(b"0.0.0.0".to_vec(), 8080, b"/srv".to_vec());
    assert_eq!(s.ip, b"0.0.0.0".to_vec());
    assert_eq!(s.port, 8080);
    assert_eq!(s.www_dir_path, b"/srv".to_vec());
}

#[test]
fn args_defaults() {
    assert_eq!(
        get_args(false, None, None, None),
        Ok(ServerConfig { ip: b"127.0.0.1".to_vec(), port: 4414, www_dir: b"./www".to_vec() })
    );
}

#[test]
fn args_given() {
    assert_eq!(
        get_args(false, Some(b"10.0.0.1".to_vec()), Some(b"8080".to_vec()), Some(b"/var/www".to_vec())),
        Ok(ServerConfig { ip: b"10.0.0.1".to_vec(), port: 8080, www_dir: b"/var/www".to_vec() })
    );
}

#[test]
fn args_errors() {
    assert_eq!(get_args(true, None, None, None), Err(ArgsError::Help));
    assert_eq!(get_args(true, None, Some(b"x".to_vec()), None), Err(ArgsError::Help));
    assert_eq!(get_args(false, None, Some(b"80x".to_vec()), None), Err(ArgsError::InvalidPort));
    assert_eq!(
        get_args(false, None, Some(b"18446744073709551616".to_vec()), None),
        Err(ArgsError::InvalidPort)
    );
}
