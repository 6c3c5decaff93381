//! The static file router's answers: what it sends for a missing path, a
//! directory and a file, once the file system has been consulted.
use vstd::prelude::*;
use vstd::string::StringExecFns;

use crate::http::{Request, Response, ResponseView, StatusCode};
use vstd::utf8::encode_utf8;

verus! {

/// An entry of a directory listing: the entry's path and its file name, as
/// text.
pub struct DirEntry {
    pub path: String,
    pub name: String,
}

/// What the file system said about the path a request names.
pub enum Lookup {
    /// The path's metadata could not be read.
    Missing,
    /// The path is a directory; its listing, unless reading it failed.
    Directory(Option<Vec<DirEntry>>),
    /// The path is a file; the buffer it was read into, unless opening or
    /// reading it failed.
    File(Option<Vec<u8>>),
}

/// One list item per entry, in order.
pub open spec fn entries_html(entries: Seq<DirEntry>) -> Seq<char>
    decreases entries.len(),
{
    if entries.len() == 0 {
        Seq::empty()
    } else {
        entries_html(entries.drop_last()) + "<li><a href=\""@ + entries.last().path@ + "\">"@
            + entries.last().name@ + "</a>"@
    }
}

/// The page that lists the directory `path`.
pub open spec fn dir_page_text(path: Seq<char>, entries: Seq<DirEntry>) -> Seq<char> {
    "<html><head><title>"@ + path + "</title></head><body><h1>"@ + path + "</h1><ul>"@
        + entries_html(entries) + "</ol></body></html>"@
}

/// A `200 OK` response with no headers and the body `body`.
pub open spec fn ok_with_body(r: ResponseView, body: Seq<u8>) -> bool {
    &&& r.status_code == StatusCode::OK
    &&& r.headers == Seq::<(Seq<char>, Seq<char>)>::empty()
    &&& r.body == body
}

/// The page that lists the directory `path` with the entries `entries`, as
/// a `200 OK` response whose body is the page's UTF-8 text.
pub fn dir_page(path: &str, entries: &Vec<DirEntry>) -> (r: Response)
    ensures
        ok_with_body(r@, encode_utf8(dir_page_text(path@, entries@))),
{
    let mut t = String::from_str("<html><head><title>");
    t.append(path);
    t.append("</title></head><body><h1>");
    t.append(path);
    t.append("</h1><ul>");
    let ghost prefix = t@;
    let n = entries.len();
    let mut i: usize = 0;
    while i < n
        invariant
            n == entries@.len(),
            i <= n,
            t@ == prefix + entries_html(entries@.take(i as int)),
        decreases n - i,
    {
        t.append("<li><a href=\"");
        t.append(entries[i].path.as_str());
        t.append("\">");
        t.append(entries[i].name.as_str());
        t.append("</a>");
        assert(entries@.take(i + 1).drop_last() =~= entries@.take(i as int));
        i += 1;
    }
    assert(entries@.take(n as int) =~= entries@);
    t.append("</ol></body></html>");
    let mut r = Response::ok();
    r.extend(t.as_str().as_bytes());
    assert(r@.body =~= encode_utf8(dir_page_text(path@, entries@)));
    r
}

/// The router's answer to `req`, given what the file system said about the
/// path it names: a directory's listing page (its title is the request's
/// URI), a file's buffer as the body, and otherwise an empty `200 OK`.
pub fn static_response(req: &Request, lookup: Lookup) -> (r: Response)
    ensures
        match lookup {
            Lookup::Directory(Some(entries)) => ok_with_body(
                r@,
                encode_utf8(dir_page_text(req@.uri, entries@)),
            ),
            Lookup::File(Some(contents)) => ok_with_body(r@, contents@),
            _ => ok_with_body(r@, Seq::empty()),
        },
{
    match lookup {
        Lookup::Directory(Some(entries)) => dir_page(req.uri(), &entries),
        Lookup::File(Some(contents)) => {
            let mut r = Response::ok();
            r.extend(contents.as_slice());
            assert(r@.body =~= contents@);
            r
        },
        _ => Response::ok(),
    }
}

/// The listing links every entry to its path as given and shows its name as
/// given: one entry's item is `<li><a href="PATH">NAME</a>`, and the items of
/// two runs of entries follow each other.
pub proof fn law_listing_links_entries_as_given(a: Seq<DirEntry>, b: Seq<DirEntry>, e: DirEntry)
    ensures
        entries_html(seq![e]) == "<li><a href=\""@ + e.path@ + "\">"@ + e.name@ + "</a>"@,
        entries_html(a + b) == entries_html(a) + entries_html(b),
    decreases b.len(),
{
    assert(seq![e].drop_last() =~= Seq::<DirEntry>::empty());
    assert(entries_html(seq![e].drop_last()) == Seq::<char>::empty());
    assert(seq![e].last() == e);
    assert(entries_html(seq![e]) =~= "<li><a href=\""@ + e.path@ + "\">"@ + e.name@ + "</a>"@);
    if b.len() == 0 {
        assert(a + b =~= a);
        assert(entries_html(a) + entries_html(b) =~= entries_html(a));
    } else {
        law_listing_links_entries_as_given(a, b.drop_last(), e);
        assert((a + b).drop_last() =~= a + b.drop_last());
        assert((a + b).last() == b.last());
        let x = entries_html(a);
        let y = entries_html(b.drop_last());
        assert(entries_html(a + b) == x + y + "<li><a href=\""@ + b.last().path@ + "\">"@
            + b.last().name@ + "</a>"@);
        assert(x + y + "<li><a href=\""@ + b.last().path@ + "\">"@ + b.last().name@ + "</a>"@
            =~= x + (y + "<li><a href=\""@ + b.last().path@ + "\">"@ + b.last().name@ + "</a>"@));
    }
}

/// The listing page of `path`: its title and heading are `path` as given,
/// followed by the entries' items and the closing tags.
pub proof fn law_dir_page_shows_path(path: Seq<char>, entries: Seq<DirEntry>)
    ensures
        dir_page_text(path, entries) == "<html><head><title>"@ + path
            + "</title></head><body><h1>"@ + path + "</h1><ul>"@ + entries_html(entries)
            + "</ol></body></html>"@,
{
}

} // verus!
