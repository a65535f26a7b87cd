//! The web server's decisions: what it answers to each request, how it
//! orders and caches static files, and its settings.
use vstd::prelude::*;
use vstd::string::*;
use crate::cache::FileCache;
use crate::dynamic::{split_dynamic_page, DynamicPage, dynamic_pieces, piece_views};
use crate::queue::{HttpRequest, RequestQueue, RequestView, first_max_index};
use crate::argv::tokens;
use crate::text::{
    decimal, find, find_from, first_occurrence, first_occurrence_from, format_decimal, has_prefix,
    parse_u64, parse_u64_spec, push_all, starts_with, copy_range, occurs_at,
    lemma_first_occurrence_is, lemma_occurrence_first_byte,
};

verus! {

/// The server's name and version.
pub const SERVER_NAME: &'static str = "Zhtta Version 0.5";

/// The number of workers that serve static files.
pub const NUM_PROCESS: usize = 4;

/// The address the server listens on unless told otherwise.
pub const IP: &'static str = "127.0.0.1";

/// The port the server listens on unless told otherwise.
pub const PORT: u64 = 4414;

/// The directory the server serves unless told otherwise.
pub const WWW_DIR: &'static str = "./www";

/// The head of a successful response.
pub const HTTP_OK: &'static str = "HTTP/1.1 200 OK\r\nContent-Type: text/html; charset=UTF-8\r\n\r\n";

/// The head of a response for a missing file.
pub const HTTP_BAD: &'static str = "HTTP/1.1 404 Not Found\r\n\r\n";

/// The start of the visitor counter page.
pub const COUNTER_STYLE: &'static str = "<doctype !html><html><head><title>Hello, Rust!</title>\n             <style>body { background-color: #884414; color: #FFEEAA}\n                    h1 { font-size:2cm; text-align: center; color: black; text-shadow: 0 0 4mm red }\n                    h2 { font-size:2cm; text-align: center; color: black; text-shadow: 0 0 4mm green }\n             </style></head>\n             <body>";

/// The counter page's text before the count.
pub const COUNTER_GREETING: &'static str = "<h1>Greetings, Krusty!</h1>\n                     <h2>Visitor count: ";

/// The counter page's text after the count.
pub const COUNTER_END: &'static str = "</h2></body></html>\r\n";

/// The error page's text before the path.
pub const CANNOT_OPEN: &'static str = "Cannot open: ";

/// `128.143`: peers whose address starts with this get their requests served sooner.
pub open spec fn cville_prefix_1() -> Seq<u8> {
    seq![49u8, 50u8, 56u8, 46u8, 49u8, 52u8, 51u8]
}

/// `137.54`: peers whose address starts with this get their requests served sooner.
pub open spec fn cville_prefix_2() -> Seq<u8> {
    seq![49u8, 51u8, 55u8, 46u8, 53u8, 52u8]
}

/// The extension of dynamic pages.
pub const DYNAMIC_EXTENSION: &'static str = "shtml";

/// How much a peer from one of the preferred networks is moved up.
pub const PEER_BONUS: u64 = 1000;

/// The size of the buffer that a static file is read in.
pub const CHUNK_SIZE: usize = 1024;

/// The bytes of a text constant.
fn text_bytes(s: &str) -> (r: Vec<u8>)
    ensures
        r@ == s.spec_bytes(),
{
    let b = s.as_bytes();
    let mut v: Vec<u8> = Vec::new();
    push_all(&mut v, b);
    v
}

/// What the server answers to a request for a path.
#[derive(PartialEq, Eq, Structural, Clone, Copy, Debug)]
pub enum Route {
    /// The visitor counter page (the path `/`).
    CounterPage,
    /// The error page: the file does not exist or is a directory.
    ErrorPage,
    /// A dynamic page (`.shtml`), with its commands run.
    DynamicPage,
    /// A static file, queued by priority.
    StaticFile,
}

/// A peer's address as the network layer gives it.
#[derive(PartialEq, Eq, Debug)]
pub enum PeerAddr {
    /// An IPv4 address and port.
    V4 { a: u8, b: u8, c: u8, d: u8, port: u16 },
    /// Any other address, already in its text form.
    Other(Vec<u8>),
}

/// The settings of a server.
#[derive(PartialEq, Eq, Debug)]
pub struct ServerConfig {
    pub ip: Vec<u8>,
    pub port: u64,
    pub www_dir: Vec<u8>,
}

/// Why the settings could not be read.
#[derive(PartialEq, Eq, Structural, Clone, Copy, Debug)]
pub enum ArgsError {
    /// Help was asked for: the usage is shown instead.
    Help,
    /// The port given is not an unsigned number.
    InvalidPort,
}

/// The parts of a path that name something, in order: its non-empty parts
/// between `/`, other than `.`.
pub open spec fn named_parts(parts: Seq<Seq<u8>>) -> Seq<Seq<u8>>
    decreases parts.len(),
{
    if parts.len() == 0 {
        Seq::empty()
    } else {
        let prev = named_parts(parts.drop_last());
        if parts.last() == seq![46u8] {
            prev
        } else {
            prev.push(parts.last())
        }
    }
}

/// The file name of a path (its last component), as `Path::file_name`
/// gives it: none when the path has no named part or ends in `..`.
pub open spec fn file_name_spec(path: Seq<u8>) -> Option<Seq<u8>> {
    let n = named_parts(tokens(path, 47u8));
    if n.len() == 0 || n.last() == seq![46u8, 46u8] {
        None
    } else {
        Some(n.last())
    }
}

/// The index of the last `.` in `f`, if any.
pub open spec fn last_dot(f: Seq<u8>) -> Option<int>
    decreases f.len(),
{
    if f.len() == 0 {
        None
    } else if f.last() == 46u8 {
        Some(f.len() - 1)
    } else {
        last_dot(f.drop_last())
    }
}

/// The extension of a path, as `Path::extension` gives it: the part of the
/// file name after its last `.`; none when there is no file name, no `.` in
/// it, or its only `.` starts it.
pub open spec fn extension_spec(path: Seq<u8>) -> Option<Seq<u8>> {
    match file_name_spec(path) {
        None => None,
        Some(f) => match last_dot(f) {
            None => None,
            Some(k) => if k == 0 {
                None
            } else {
                Some(f.subrange(k + 1, f.len() as int))
            },
        },
    }
}

/// Calls `std::path::Path::extension` on `path`. Claimed, as its
/// documentation says: the result is the part of the file name (the last
/// component) after its last dot, and none when there is no file name, no
/// dot in it, or the name begins with its only dot.
#[verifier::external_body]
fn extension_of(path: &str) -> (r: Option<Vec<u8>>)
    ensures
        match r {
            Some(e) => extension_spec(path.spec_bytes()) == Some(e@),
            None => extension_spec(path.spec_bytes()) is None,
        },
{
    std::path::Path::new(path).extension().map(|e| e.as_encoded_bytes().to_vec())
}

/// `/` and `.`, the path that asks for the counter page.
pub open spec fn counter_path() -> Seq<u8> {
    seq![46u8, 47u8]
}

/// The counter page for `visitor_count` visitors.
pub open spec fn counter_page(visitor_count: u64) -> Seq<u8> {
    HTTP_OK.spec_bytes() + COUNTER_STYLE.spec_bytes() + COUNTER_GREETING.spec_bytes() + decimal(
        visitor_count as nat,
    ) + COUNTER_END.spec_bytes()
}

/// The error page for `path`.
pub open spec fn error_page(path: Seq<u8>) -> Seq<u8> {
    HTTP_BAD.spec_bytes() + CANNOT_OPEN.spec_bytes() + path
}

/// The response that sends a static file's body.
pub open spec fn static_response(body: Seq<u8>) -> Seq<u8> {
    HTTP_OK.spec_bytes() + body
}

/// A read buffer: the bytes read, then zeros up to the buffer's size.
pub open spec fn padded(chunk: Seq<u8>) -> Seq<u8> {
    chunk + Seq::new((1024 - chunk.len()) as nat, |i: int| 0u8)
}

/// What is sent and cached for a file read in `chunks`: each read buffer whole.
pub open spec fn static_body(chunks: Seq<Seq<u8>>) -> Seq<u8>
    decreases chunks.len(),
{
    if chunks.len() == 0 {
        Seq::empty()
    } else {
        static_body(chunks.drop_last()) + padded(chunks.last())
    }
}

/// The priority of a request for a file of `file_size` bytes from `peer`:
/// larger files come later, peers from the preferred networks sooner; the
/// arithmetic wraps around modulo 2^64.
pub open spec fn priority_spec(peer: Seq<u8>, file_size: u64) -> u64 {
    let bonus: int = (if has_prefix(peer, cville_prefix_1()) {
        1000int
    } else {
        0int
    }) + (if has_prefix(peer, cville_prefix_2()) {
        1000int
    } else {
        0int
    });
    ((bonus - file_size) % 0x1_0000_0000_0000_0000) as u64
}

/// The text of an IPv4 socket address: `a.b.c.d:port`.
pub open spec fn ipv4_text(a: u8, b: u8, c: u8, d: u8, port: u16) -> Seq<u8> {
    decimal(a as nat) + seq![46u8] + decimal(b as nat) + seq![46u8] + decimal(c as nat) + seq![46u8]
        + decimal(d as nat) + seq![58u8] + decimal(port as nat)
}

/// The name of a peer: its address as text, or nothing when it is unknown.
pub open spec fn peer_name_spec(peer: Option<PeerAddr>) -> Seq<u8> {
    match peer {
        None => Seq::empty(),
        Some(PeerAddr::V4 { a, b, c, d, port }) => ipv4_text(a, b, c, d, port),
        Some(PeerAddr::Other(t)) => t@,
    }
}

/// The path asked for in a request: the text between the first two spaces
/// (the request line's target), with `.` put before it; none when the
/// request holds fewer than two spaces.
pub open spec fn request_path_spec(request: Seq<u8>) -> Option<Seq<u8>> {
    match first_occurrence(request, seq![32u8]) {
        None => None,
        Some(i) => match first_occurrence_from(request, seq![32u8], i + 1) {
            None => None,
            Some(j) => Some(seq![46u8] + request.subrange(i + 1, j)),
        },
    }
}

/// Where a request goes: the counter page for `./`; the error page when the
/// file is missing or is a directory; a dynamic page for `.shtml` files; a
/// static file otherwise.
pub open spec fn route_by_extension(
    path_str: Seq<u8>,
    extension: Option<Seq<u8>>,
    file_exists: bool,
    is_dir: bool,
) -> Route {
    if path_str == counter_path() {
        Route::CounterPage
    } else if !file_exists || is_dir {
        Route::ErrorPage
    } else if extension == Some(DYNAMIC_EXTENSION.spec_bytes()) {
        Route::DynamicPage
    } else {
        Route::StaticFile
    }
}

/// Where a request goes, given the full path of the file asked for.
pub open spec fn route_spec(path_str: Seq<u8>, full_path: Seq<u8>, file_exists: bool, is_dir: bool) -> Route {
    route_by_extension(path_str, extension_spec(full_path), file_exists, is_dir)
}

/// The web server's settings.
pub struct WebServer {
    pub ip: Vec<u8>,
    pub port: u64,
    pub www_dir_path: Vec<u8>,
}

impl WebServer {
    /// A server for the address `ip`:`port` that serves the directory `www_dir`.
    pub fn new(ip: Vec<u8>, port: u64, www_dir: Vec<u8>) -> (s: WebServer)
        ensures
            s.ip@ == ip@,
            s.port == port,
            s.www_dir_path@ == www_dir@,
    {
        WebServer { ip, port, www_dir_path: www_dir }
    }

    /// The visitor count after one more visit (wrapping around at 2^64).
    pub fn record_visit(visitor_count: u64) -> (r: u64)
        ensures
            r == (visitor_count + 1) % 0x1_0000_0000_0000_0000,
    {
        visitor_count.wrapping_add(1)
    }

    /// The counter page, showing `visitor_count`.
    pub fn respond_with_counter_page(visitor_count: u64) -> (r: Vec<u8>)
        ensures
            r@ == counter_page(visitor_count),
    {
        let mut r = text_bytes(HTTP_OK);
        push_all(&mut r, COUNTER_STYLE.as_bytes());
        push_all(&mut r, COUNTER_GREETING.as_bytes());
        let digits = format_decimal(visitor_count);
        push_all(&mut r, digits.as_slice());
        push_all(&mut r, COUNTER_END.as_bytes());
        r
    }

    /// The error page for a path that cannot be served.
    pub fn respond_with_error_page(path: &str) -> (r: Vec<u8>)
        ensures
            r@ == error_page(path.spec_bytes()),
    {
        let mut r = text_bytes(HTTP_BAD);
        push_all(&mut r, CANNOT_OPEN.as_bytes());
        push_all(&mut r, path.as_bytes());
        r
    }

    /// The response for a static file when the cache holds it.
    pub fn cached_static_file(cache: &FileCache, path: &[u8]) -> (r: Option<Vec<u8>>)
        ensures
            match r {
                Some(resp) => cache@.contains_key(path@) && resp@ == static_response(
                    cache@[path@],
                ),
                None => !cache@.contains_key(path@),
            },
    {
        match cache.lookup(path) {
            Some(content) => {
                let mut r = text_bytes(HTTP_OK);
                push_all(&mut r, content.as_slice());
                Some(r)
            },
            None => None,
        }
    }

    /// The response for a static file read in `chunks` (each read buffer of
    /// 1024 bytes, of which the first bytes were read); the body is cached
    /// for the path.
    pub fn respond_with_static_file(cache: &mut FileCache, path: &[u8], chunks: &Vec<Vec<u8>>) -> (r:
        Vec<u8>)
        requires
            forall|i: int| 0 <= i < chunks@.len() ==> (#[trigger] chunks@[i])@.len() <= 1024,
        ensures
            r@ == static_response(static_body(crate::argv::vecs_view(chunks@))),
            final(cache)@ == old(cache)@.insert(path@, static_body(crate::argv::vecs_view(chunks@))),
    {
        let ghost cs = crate::argv::vecs_view(chunks@);
        let mut body: Vec<u8> = Vec::new();
        let mut i: usize = 0;
        assert(cs.subrange(0, 0) =~= Seq::<Seq<u8>>::empty());
        while i < chunks.len()
            invariant
                cs == crate::argv::vecs_view(chunks@),
                i <= chunks@.len(),
                forall|k: int| 0 <= k < chunks@.len() ==> (#[trigger] chunks@[k])@.len() <= 1024,
                body@ == static_body(cs.subrange(0, i as int)),
            decreases chunks@.len() - i,
        {
            let chunk = &chunks[i];
            assert(cs[i as int] == chunk@);
            let ghost before = body@;
            push_all(&mut body, chunk.as_slice());
            let mut k: usize = chunk.len();
            while k < 1024
                invariant
                    chunk@.len() <= k <= 1024,
                    body@ == before + chunk@ + Seq::new((k - chunk@.len()) as nat, |j: int| 0u8),
                decreases 1024 - k,
            {
                body.push(0u8);
                k = k + 1;
                assert(body@ =~= before + chunk@ + Seq::new((k - chunk@.len()) as nat, |j: int| 0u8));
            }
            assert(cs.subrange(0, i + 1).drop_last() =~= cs.subrange(0, i as int));
            assert(body@ =~= before + padded(chunk@));
            i = i + 1;
        }
        assert(cs.subrange(0, cs.len() as int) =~= cs);
        let mut r = text_bytes(HTTP_OK);
        push_all(&mut r, body.as_slice());
        let path_copy = copy_range(path, 0, path.len());
        assert(path_copy@ =~= path@);
        cache.insert(path_copy, body);
        r
    }

    /// The priority of a request for a file of `file_size` bytes from the
    /// peer named `peer_name`.
    pub fn request_priority(peer_name: &[u8], file_size: u64) -> (p: u64)
        ensures
            p == priority_spec(peer_name@, file_size),
    {
        let prefix_1: Vec<u8> = vec![49u8, 50u8, 56u8, 46u8, 49u8, 52u8, 51u8];
        let prefix_2: Vec<u8> = vec![49u8, 51u8, 55u8, 46u8, 53u8, 52u8];
        let mut priority: u64 = 0u64.wrapping_sub(file_size);
        if starts_with(peer_name, prefix_1.as_slice()) {
            priority = priority.wrapping_add(PEER_BONUS);
        }
        if starts_with(peer_name, prefix_2.as_slice()) {
            priority = priority.wrapping_add(PEER_BONUS);
        }
        priority
    }

    /// Queues a request for the static file `path` (of `file_size` bytes)
    /// from `peer_name`, with its priority.
    pub fn enqueue_static_file_request(
        queue: &mut RequestQueue,
        peer_name: Vec<u8>,
        path: Vec<u8>,
        file_size: u64,
    )
        ensures
            final(queue)@ == old(queue)@.push(
                RequestView {
                    peer_name: peer_name@,
                    path: path@,
                    priority: priority_spec(peer_name@, file_size),
                },
            ),
    {
        let priority = Self::request_priority(peer_name.as_slice(), file_size);
        queue.push(HttpRequest { peer_name, path, priority });
    }

    /// Takes the next request to serve: one of highest priority.
    pub fn dequeue_static_file_request(queue: &mut RequestQueue) -> (r: Option<HttpRequest>)
        ensures
            match r {
                None => old(queue)@.len() == 0 && final(queue)@ == old(queue)@,
                Some(req) => {
                    &&& old(queue)@.len() > 0
                    &&& req@ == old(queue)@[first_max_index(old(queue)@)]
                    &&& final(queue)@ == old(queue)@.remove(first_max_index(old(queue)@))
                },
            },
    {
        queue.maybe_pop()
    }

    /// The name of a peer: its address as text, or the empty text.
    pub fn get_peer_name(peer: &Option<PeerAddr>) -> (r: Vec<u8>)
        ensures
            r@ == peer_name_spec(*peer),
    {
        match peer {
            None => Vec::new(),
            Some(PeerAddr::V4 { a, b, c, d, port }) => {
                let mut r = format_decimal(*a as u64);
                r.push(46u8);
                push_all(&mut r, format_decimal(*b as u64).as_slice());
                r.push(46u8);
                push_all(&mut r, format_decimal(*c as u64).as_slice());
                r.push(46u8);
                push_all(&mut r, format_decimal(*d as u64).as_slice());
                r.push(58u8);
                push_all(&mut r, format_decimal(*port as u64).as_slice());
                assert(r@ =~= ipv4_text(*a, *b, *c, *d, *port));
                r
            },
            Some(PeerAddr::Other(t)) => copy_range(t.as_slice(), 0, t.len()),
        }
    }

    /// The path that a request asks for (`.` and the request line's target).
    pub fn request_path(request: &[u8]) -> (r: Option<Vec<u8>>)
        ensures
            match r {
                Some(p) => request_path_spec(request@) == Some(p@),
                None => request_path_spec(request@) is None,
            },
    {
        let space: Vec<u8> = vec![32u8];
        assert(space@ =~= seq![32u8]);
        match find(request, space.as_slice()) {
            None => None,
            Some(i) => {
                proof {
                    crate::text::lemma_first_occurrence_from(request@, seq![32u8], 0);
                }
                let n = request.len();
                assert(i < n);
                match find_from(request, space.as_slice(), i + 1) {
                    None => None,
                    Some(j) => {
                        proof {
                            crate::text::lemma_first_occurrence_from(request@, seq![32u8], i + 1);
                        }
                        let mut p: Vec<u8> = Vec::new();
                        p.push(46u8);
                        let target = copy_range(request, i + 1, j);
                        push_all(&mut p, target.as_slice());
                        assert(p@ =~= seq![46u8] + request@.subrange(i + 1, j as int));
                        Some(p)
                    },
                }
            },
        }
    }

    /// Where a request for `path_str` goes, given the extension of the file
    /// asked for and what the file is.
    pub fn route_for_extension(
        path_str: &[u8],
        extension: &Option<Vec<u8>>,
        file_exists: bool,
        is_dir: bool,
    ) -> (r: Route)
        ensures
            r == route_by_extension(
                path_str@,
                match extension {
                    Some(e) => Some(e@),
                    None => None,
                },
                file_exists,
                is_dir,
            ),
    {
        let counter: Vec<u8> = vec![46u8, 47u8];
        if path_str.len() == 2 && starts_with(path_str, counter.as_slice()) {
            assert(path_str@.subrange(0, 2) =~= path_str@);
            return Route::CounterPage;
        }
        proof {
            if path_str@ == counter_path() {
                assert(path_str@.subrange(0, 2) =~= path_str@);
            }
        }
        if !file_exists || is_dir {
            return Route::ErrorPage;
        }
        let dynamic = DYNAMIC_EXTENSION.as_bytes();
        match extension {
            Some(ext) => {
                if ext.len() == dynamic.len() && starts_with(ext.as_slice(), dynamic) {
                    assert(ext@.subrange(0, dynamic@.len() as int) =~= ext@);
                    Route::DynamicPage
                } else {
                    proof {
                        if ext@ == dynamic@ {
                            assert(ext@.subrange(0, dynamic@.len() as int) =~= ext@);
                        }
                    }
                    Route::StaticFile
                }
            },
            None => Route::StaticFile,
        }
    }

    /// Where a request for `path_str` goes; `full_path` is the file's path
    /// in the served directory, and `file_exists` and `is_dir` say what it is.
    pub fn route_request(path_str: &[u8], full_path: &str, file_exists: bool, is_dir: bool) -> (r: Route)
        ensures
            r == route_spec(path_str@, full_path.spec_bytes(), file_exists, is_dir),
    {
        let extension = extension_of(full_path);
        Self::route_for_extension(path_str, &extension, file_exists, is_dir)
    }

    /// What is sent for a dynamic page: its text, with the commands of its
    /// `#exec cmd="..."` directives placed before their comments.
    pub fn respond_with_dynamic_page(file: &[u8]) -> (page: DynamicPage)
        ensures
            piece_views(page.pieces@) == dynamic_pieces(file@).0,
            page.complete == dynamic_pieces(file@).1,
    {
        split_dynamic_page(file)
    }
}

/// The settings from the command line: `help` when help was asked for, and
/// the values given for the address, the port and the directory.
pub open spec fn config_spec(help: bool, ip: Option<Seq<u8>>, port: Option<Seq<u8>>, www: Option<Seq<u8>>) -> Result<
    (Seq<u8>, u64, Seq<u8>),
    ArgsError,
> {
    if help {
        Err(ArgsError::Help)
    } else {
        let p = match port {
            None => Some(PORT),
            Some(t) => parse_u64_spec(t),
        };
        match p {
            None => Err(ArgsError::InvalidPort),
            Some(p) => Ok(
                (
                    match ip {
                        Some(i) => i,
                        None => IP.spec_bytes(),
                    },
                    p,
                    match www {
                        Some(w) => w,
                        None => WWW_DIR.spec_bytes(),
                    },
                ),
            ),
        }
    }
}

/// The settings from the options given on the command line; defaults fill
/// in what is not given.
pub fn get_args(help: bool, ip: Option<Vec<u8>>, port: Option<Vec<u8>>, www: Option<Vec<u8>>) -> (r:
    Result<ServerConfig, ArgsError>)
    ensures
        match (r, config_spec(
            help,
            match ip {
                Some(v) => Some(v@),
                None => None,
            },
            match port {
                Some(v) => Some(v@),
                None => None,
            },
            match www {
                Some(v) => Some(v@),
                None => None,
            },
        )) {
            (Ok(c), Ok((i, p, w))) => c.ip@ == i && c.port == p && c.www_dir@ == w,
            (Err(e), Err(f)) => e == f,
            _ => false,
        },
{
    if help {
        return Err(ArgsError::Help);
    }
    let port_value = match port {
        None => PORT,
        Some(t) => match parse_u64(t.as_slice()) {
            Some(p) => p,
            None => {
                return Err(ArgsError::InvalidPort);
            },
        },
    };
    let ip_value = match ip {
        Some(i) => i,
        None => text_bytes(IP),
    };
    let www_value = match www {
        Some(w) => w,
        None => text_bytes(WWW_DIR),
    };
    Ok(ServerConfig { ip: ip_value, port: port_value, www_dir: www_value })
}

/// Each option is read on its own: a valid `--port` gives the port whether
/// or not `--ip` and `--www` are given, the address and the directory are
/// the ones given (or their defaults) whatever the other options are, and
/// only the port can make the settings invalid.
pub proof fn law_options_read_independently(
    ip: Option<Seq<u8>>,
    port: Option<Seq<u8>>,
    www: Option<Seq<u8>>,
    t: Seq<u8>,
    p: u64,
    i: Seq<u8>,
    w: Seq<u8>,
    bad: Seq<u8>,
)
    requires
        parse_u64_spec(t) == Some(p),
    ensures
        config_spec(false, ip, Some(t), www) matches Ok((_, q, _)) && q == p,
        config_spec(false, ip, None, www) matches Ok((_, q, _)) && q == PORT,
        config_spec(false, Some(i), port, www) is Ok ==> (config_spec(false, Some(i), port, www)
            matches Ok((ci, _, _)) && ci == i),
        config_spec(false, None, port, www) is Ok ==> (config_spec(false, None, port, www)
            matches Ok((ci, _, _)) && ci == IP.spec_bytes()),
        config_spec(false, ip, port, Some(w)) is Ok ==> (config_spec(false, ip, port, Some(w))
            matches Ok((_, _, cw)) && cw == w),
        config_spec(false, ip, port, None) is Ok ==> (config_spec(false, ip, port, None)
            matches Ok((_, _, cw)) && cw == WWW_DIR.spec_bytes()),
        (config_spec(false, ip, port, www) is Ok) == (config_spec(false, None, port, None) is Ok),
        config_spec(true, ip, port, www) == Err::<(Seq<u8>, u64, Seq<u8>), ArgsError>(
            ArgsError::Help,
        ),
        parse_u64_spec(bad) is None ==> config_spec(false, ip, Some(bad), www) == Err::<
            (Seq<u8>, u64, Seq<u8>),
            ArgsError,
        >(ArgsError::InvalidPort),
{
}

/// Once a static file has been served from disk, the cache answers later
/// requests for it with the very response that was sent the first time.
pub proof fn law_cached_response_repeats_first(
    cache: Map<Seq<u8>, Seq<u8>>,
    path: Seq<u8>,
    chunks: Seq<Seq<u8>>,
)
    ensures
        cache.insert(path, static_body(chunks)).contains_key(path),
        static_response(cache.insert(path, static_body(chunks))[path]) == static_response(
            static_body(chunks),
        ),
{
}

/// A file read in `n` buffers is sent as `n` whole buffers: each buffer's
/// bytes read stand at its place, followed by zeros.
pub proof fn law_static_body_layout(chunks: Seq<Seq<u8>>, i: int, j: int)
    requires
        forall|k: int| 0 <= k < chunks.len() ==> (#[trigger] chunks[k]).len() <= 1024,
        0 <= i < chunks.len(),
        0 <= j < 1024,
    ensures
        static_body(chunks).len() == 1024 * chunks.len(),
        static_body(chunks)[1024 * i + j] == if j < chunks[i].len() {
            chunks[i][j]
        } else {
            0u8
        },
    decreases chunks.len(),
{
    lemma_static_body_len(chunks);
    let p = chunks.drop_last();
    lemma_static_body_len(p);
    if i < chunks.len() - 1 {
        law_static_body_layout(p, i, j);
        assert(p[i] == chunks[i]);
    } else {
        assert(chunks.last() == chunks[i]);
    }
}

proof fn lemma_static_body_len(chunks: Seq<Seq<u8>>)
    requires
        forall|k: int| 0 <= k < chunks.len() ==> (#[trigger] chunks[k]).len() <= 1024,
    ensures
        static_body(chunks).len() == 1024 * chunks.len(),
    decreases chunks.len(),
{
    if chunks.len() > 0 {
        let p = chunks.drop_last();
        assert forall|k: int| 0 <= k < p.len() implies (#[trigger] p[k]).len() <= 1024 by {
            assert(p[k] == chunks[k]);
        }
        lemma_static_body_len(p);
        assert(chunks.last() == chunks[chunks.len() - 1]);
    }
}

/// A static file's response is the `200` head followed by the whole body:
/// its length is the head's length plus the body's, whatever the body's size.
pub proof fn law_static_response_sends_whole_body(body: Seq<u8>)
    ensures
        static_response(body).len() == HTTP_OK.spec_bytes().len() + body.len(),
        static_response(body).subrange(0, HTTP_OK.spec_bytes().len() as int) == HTTP_OK.spec_bytes(),
        static_response(body).subrange(
            HTTP_OK.spec_bytes().len() as int,
            static_response(body).len() as int,
        ) == body,
{
    let head = HTTP_OK.spec_bytes();
    assert(static_response(body).subrange(0, head.len() as int) =~= head);
    assert(static_response(body).subrange(head.len() as int, static_response(body).len() as int)
        =~= body);
}

/// A file read in `n` buffers is answered with the `200` head and then all
/// `n` buffers whole: byte `j` of buffer `i` stands right after the head and
/// the `i` buffers before it.
pub proof fn law_static_file_sends_every_buffer(chunks: Seq<Seq<u8>>, i: int, j: int)
    requires
        forall|k: int| 0 <= k < chunks.len() ==> (#[trigger] chunks[k]).len() <= 1024,
        0 <= i < chunks.len(),
        0 <= j < 1024,
    ensures
        static_response(static_body(chunks)).len() == HTTP_OK.spec_bytes().len() + 1024
            * chunks.len(),
        static_response(static_body(chunks))[HTTP_OK.spec_bytes().len() + 1024 * i + j] == if j
            < chunks[i].len() {
            chunks[i][j]
        } else {
            0u8
        },
{
    law_static_body_layout(chunks, i, j);
    law_static_response_sends_whole_body(static_body(chunks));
    let head = HTTP_OK.spec_bytes();
    assert(static_response(static_body(chunks))[head.len() + 1024 * i + j] == static_body(
        chunks,
    )[1024 * i + j]);
}

/// An existing file that is not a directory is never answered with the
/// error page (unless it is `./`): `.shtml` files are dynamic pages and
/// every other file, whatever its extension, is a static file.
pub proof fn law_existing_file_is_served(path_str: Seq<u8>, extension: Option<Seq<u8>>)
    requires
        path_str != counter_path(),
    ensures
        route_by_extension(path_str, extension, true, false) != Route::ErrorPage,
        extension == Some(DYNAMIC_EXTENSION.spec_bytes()) ==> route_by_extension(
            path_str,
            extension,
            true,
            false,
        ) == Route::DynamicPage,
        extension != Some(DYNAMIC_EXTENSION.spec_bytes()) ==> route_by_extension(
            path_str,
            extension,
            true,
            false,
        ) == Route::StaticFile,
{
}

/// The same for a request given by the full path of its file: the file's
/// extension alone tells a dynamic page from a static file.
pub proof fn law_existing_path_is_served(path_str: Seq<u8>, full_path: Seq<u8>)
    requires
        path_str != counter_path(),
    ensures
        route_spec(path_str, full_path, true, false) != Route::ErrorPage,
        extension_spec(full_path) == Some(DYNAMIC_EXTENSION.spec_bytes()) ==> route_spec(
            path_str,
            full_path,
            true,
            false,
        ) == Route::DynamicPage,
        extension_spec(full_path) != Some(DYNAMIC_EXTENSION.spec_bytes()) ==> route_spec(
            path_str,
            full_path,
            true,
            false,
        ) == Route::StaticFile,
{
    law_existing_file_is_served(path_str, extension_spec(full_path));
}

/// The target of a request ends at the second space, whatever follows it:
/// for a method `m` and a target `t` without spaces, the request
/// `m t rest` asks for `.t`.
pub proof fn law_target_ends_at_second_space(m: Seq<u8>, t: Seq<u8>, rest: Seq<u8>)
    requires
        !m.contains(32u8),
        !t.contains(32u8),
    ensures
        request_path_spec(m + seq![32u8] + t + seq![32u8] + rest) == Some(seq![46u8] + t),
{
    let sp = seq![32u8];
    let s = m + sp + t + sp + rest;
    let a = m.len() as int;
    let b = a + 1 + t.len();
    assert(s.subrange(a, a + 1) =~= sp);
    assert(s.subrange(b, b + 1) =~= sp);
    assert forall|j: int| 0 <= j < a implies !occurs_at(s, sp, j) by {
        if occurs_at(s, sp, j) {
            lemma_occurrence_first_byte(s, sp, j);
            assert(s[j] == m[j]);
        }
    }
    lemma_first_occurrence_is(s, sp, 0, a);
    assert forall|j: int| a + 1 <= j < b implies !occurs_at(s, sp, j) by {
        if occurs_at(s, sp, j) {
            lemma_occurrence_first_byte(s, sp, j);
            assert(s[j] == t[j - a - 1]);
        }
    }
    lemma_first_occurrence_is(s, sp, a + 1, b);
    assert(s.subrange(a + 1, b) =~= t);
}

/// Among peers outside the preferred networks, a request for a smaller
/// (non-empty) file has the higher priority.
pub proof fn law_smaller_files_first(peer1: Seq<u8>, peer2: Seq<u8>, size1: u64, size2: u64)
    requires
        !has_prefix(peer1, cville_prefix_1()),
        !has_prefix(peer1, cville_prefix_2()),
        !has_prefix(peer2, cville_prefix_1()),
        !has_prefix(peer2, cville_prefix_2()),
        0 < size1 < size2,
    ensures
        priority_spec(peer1, size1) > priority_spec(peer2, size2),
{
}

/// For a file of more than 1000 bytes, a peer from a preferred network gets
/// a higher priority than any other peer asking for the same file.
pub proof fn law_preferred_peers_first(pref: Seq<u8>, other: Seq<u8>, size: u64)
    requires
        has_prefix(pref, cville_prefix_1()) || has_prefix(pref, cville_prefix_2()),
        !has_prefix(other, cville_prefix_1()),
        !has_prefix(other, cville_prefix_2()),
        size > 1000,
    ensures
        priority_spec(pref, size) > priority_spec(other, size),
{
    if has_prefix(pref, cville_prefix_1()) && has_prefix(pref, cville_prefix_2()) {
        assert(pref.subrange(0, 7)[1] == pref[1]);
        assert(pref.subrange(0, 6)[1] == pref[1]);
    }
}

/// The path `./` always gets the counter page, whatever the file system holds.
pub proof fn law_root_is_counter_page(full_path: Seq<u8>, file_exists: bool, is_dir: bool)
    ensures
        route_spec(counter_path(), full_path, file_exists, is_dir) == Route::CounterPage,
{
}

/// A missing file or a directory (other than `./`) gets the error page.
pub proof fn law_missing_file_gets_error_page(path_str: Seq<u8>, full_path: Seq<u8>, is_dir: bool)
    requires
        path_str != counter_path(),
    ensures
        route_spec(path_str, full_path, false, is_dir) == Route::ErrorPage,
        route_spec(path_str, full_path, true, true) == Route::ErrorPage,
{
}

/// The count shown on the counter page reads back as the count.
pub proof fn law_counter_page_shows_count(visitor_count: u64)
    ensures
        ({
            let start = HTTP_OK.spec_bytes().len() + COUNTER_STYLE.spec_bytes().len()
                + COUNTER_GREETING.spec_bytes().len();
            let shown = counter_page(visitor_count).subrange(
                start as int,
                (start + decimal(visitor_count as nat).len()) as int,
            );
            parse_u64_spec(shown) == Some(visitor_count)
        }),
{
    let head = HTTP_OK.spec_bytes() + COUNTER_STYLE.spec_bytes() + COUNTER_GREETING.spec_bytes();
    let d = decimal(visitor_count as nat);
    assert(counter_page(visitor_count) == head + d + COUNTER_END.spec_bytes());
    assert((head + d + COUNTER_END.spec_bytes()).subrange(head.len() as int, (head.len() + d.len()) as int) =~= d);
    crate::text::lemma_parse_format_roundtrip(visitor_count);
}

} // verus!
