//! Media types by file extension.

use vstd::prelude::*;
use vstd::string::*;

use crate::text;

verus! {

/// The media type for an extension in lowercase, without its dot.
pub open spec fn media_type(ext: Seq<char>) -> Seq<char> {
    if ext == "html"@ || ext == "htm"@ {
        "text/html; charset=utf-8"@
    } else if ext == "css"@ {
        "text/css; charset=utf-8"@
    } else if ext == "js"@ || ext == "mjs"@ {
        "application/javascript; charset=utf-8"@
    } else if ext == "json"@ {
        "application/json"@
    } else if ext == "txt"@ {
        "text/plain; charset=utf-8"@
    } else if ext == "md"@ {
        "text/markdown; charset=utf-8"@
    } else if ext == "csv"@ {
        "text/csv; charset=utf-8"@
    } else if ext == "xml"@ {
        "application/xml"@
    } else if ext == "svg"@ {
        "image/svg+xml"@
    } else if ext == "png"@ {
        "image/png"@
    } else if ext == "jpg"@ || ext == "jpeg"@ {
        "image/jpeg"@
    } else if ext == "gif"@ {
        "image/gif"@
    } else if ext == "webp"@ {
        "image/webp"@
    } else if ext == "ico"@ {
        "image/x-icon"@
    } else if ext == "bmp"@ {
        "image/bmp"@
    } else if ext == "tiff"@ || ext == "tif"@ {
        "image/tiff"@
    } else if ext == "avif"@ {
        "image/avif"@
    } else if ext == "woff"@ {
        "font/woff"@
    } else if ext == "woff2"@ {
        "font/woff2"@
    } else if ext == "ttf"@ {
        "font/ttf"@
    } else if ext == "otf"@ {
        "font/otf"@
    } else if ext == "mp3"@ {
        "audio/mpeg"@
    } else if ext == "ogg"@ {
        "audio/ogg"@
    } else if ext == "wav"@ {
        "audio/wav"@
    } else if ext == "mp4"@ {
        "video/mp4"@
    } else if ext == "webm"@ {
        "video/webm"@
    } else if ext == "ogv"@ {
        "video/ogg"@
    } else if ext == "pdf"@ {
        "application/pdf"@
    } else if ext == "zip"@ {
        "application/zip"@
    } else if ext == "gz"@ || ext == "tgz"@ {
        "application/gzip"@
    } else if ext == "tar"@ {
        "application/x-tar"@
    } else if ext == "wasm"@ {
        "application/wasm"@
    } else if ext == "atom"@ {
        "application/atom+xml"@
    } else if ext == "rss"@ {
        "application/rss+xml"@
    } else {
        "application/octet-stream"@
    }
}

/// What follows the last dot of a path; empty where there is no dot.
pub open spec fn extension(path: Seq<char>) -> Seq<char> {
    if path.contains('.') {
        path.skip(text::after_last(path, '.'))
    } else {
        Seq::empty()
    }
}

/// The media type for an extension in lowercase, without its dot. An extension
/// that is not known, or is not there, stands for bytes of any kind.
pub fn from_extension(ext: &str) -> (r: &'static str)
    ensures
        r@ == media_type(ext@),
{
    if text::same(ext, "html") || text::same(ext, "htm") {
        "text/html; charset=utf-8"
    } else if text::same(ext, "css") {
        "text/css; charset=utf-8"
    } else if text::same(ext, "js") || text::same(ext, "mjs") {
        "application/javascript; charset=utf-8"
    } else if text::same(ext, "json") {
        "application/json"
    } else if text::same(ext, "txt") {
        "text/plain; charset=utf-8"
    } else if text::same(ext, "md") {
        "text/markdown; charset=utf-8"
    } else if text::same(ext, "csv") {
        "text/csv; charset=utf-8"
    } else if text::same(ext, "xml") {
        "application/xml"
    } else if text::same(ext, "svg") {
        "image/svg+xml"
    } else if text::same(ext, "png") {
        "image/png"
    } else if text::same(ext, "jpg") || text::same(ext, "jpeg") {
        "image/jpeg"
    } else if text::same(ext, "gif") {
        "image/gif"
    } else if text::same(ext, "webp") {
        "image/webp"
    } else if text::same(ext, "ico") {
        "image/x-icon"
    } else if text::same(ext, "bmp") {
        "image/bmp"
    } else if text::same(ext, "tiff") || text::same(ext, "tif") {
        "image/tiff"
    } else if text::same(ext, "avif") {
        "image/avif"
    } else if text::same(ext, "woff") {
        "font/woff"
    } else if text::same(ext, "woff2") {
        "font/woff2"
    } else if text::same(ext, "ttf") {
        "font/ttf"
    } else if text::same(ext, "otf") {
        "font/otf"
    } else if text::same(ext, "mp3") {
        "audio/mpeg"
    } else if text::same(ext, "ogg") {
        "audio/ogg"
    } else if text::same(ext, "wav") {
        "audio/wav"
    } else if text::same(ext, "mp4") {
        "video/mp4"
    } else if text::same(ext, "webm") {
        "video/webm"
    } else if text::same(ext, "ogv") {
        "video/ogg"
    } else if text::same(ext, "pdf") {
        "application/pdf"
    } else if text::same(ext, "zip") {
        "application/zip"
    } else if text::same(ext, "gz") || text::same(ext, "tgz") {
        "application/gzip"
    } else if text::same(ext, "tar") {
        "application/x-tar"
    } else if text::same(ext, "wasm") {
        "application/wasm"
    } else if text::same(ext, "atom") {
        "application/atom+xml"
    } else if text::same(ext, "rss") {
        "application/rss+xml"
    } else {
        "application/octet-stream"
    }
}

/// The media type of a file by the extension of its path, in whatever case.
pub fn from_path(path: &str) -> (r: &'static str)
    ensures
        r@ == media_type(text::lower(extension(path@))),
{
    let v = text::chars_of(path);
    let n: usize = text::find_after_last(v.as_slice(), '.');
    proof {
        text::lemma_after_last(path@, '.');
        if path@.contains('.') {
            let i = choose|i: int| 0 <= i < path@.len() && path@[i] == '.';
            assert(n > 0);
        } else if n > 0 {
            assert(path@[n - 1] == '.');
        }
        assert(path@.skip(n as int) =~= path@.subrange(n as int, path@.len() as int));
        reveal_strlit("");
        assert(""@ =~= Seq::empty());
    }
    let ext: &str = if n > 0 {
        path.substring_char(n, v.len())
    } else {
        ""
    };
    from_extension(text::lower_text(ext).as_str())
}

/// The case of ASCII letters in an extension makes no difference.
pub proof fn lemma_extension_case(a: Seq<char>, b: Seq<char>)
    requires
        vstd::utf8::is_ascii_chars(a),
        vstd::utf8::is_ascii_chars(b),
        text::equal_ignoring_case(a, b),
    ensures
        media_type(text::lower(a)) == media_type(text::lower(b)),
{
}

/// The extension of a path is what follows its last full stop; without one there
/// is none.
pub proof fn lemma_extension(stem: Seq<char>, ext: Seq<char>)
    requires
        !ext.contains('.'),
    ensures
        extension(stem + seq!['.'] + ext) == ext,
        extension(ext) == Seq::<char>::empty(),
{
    let s = stem + seq!['.'] + ext;
    let n = stem.len() as int + 1;
    assert(s[n - 1] == '.');
    text::lemma_after_last(s, '.');
    let k = text::after_last(s, '.');
    if k < n {
        assert(s[n - 1] != '.');
    }
    if k > n {
        assert(s[k - 1] == ext[k - 1 - n]);
        assert(ext.contains(ext[k - 1 - n]));
    }
    assert(s.skip(n) =~= ext);
}

/// The media types of the extensions that are known.
pub proof fn lemma_media_types(ext: Seq<char>)
    ensures
        media_type("html"@) == "text/html; charset=utf-8"@,
        media_type("htm"@) == "text/html; charset=utf-8"@,
        media_type("css"@) == "text/css; charset=utf-8"@,
        media_type("js"@) == "application/javascript; charset=utf-8"@,
        media_type("mjs"@) == "application/javascript; charset=utf-8"@,
        media_type("json"@) == "application/json"@,
        media_type("txt"@) == "text/plain; charset=utf-8"@,
        media_type("md"@) == "text/markdown; charset=utf-8"@,
        media_type("csv"@) == "text/csv; charset=utf-8"@,
        media_type("xml"@) == "application/xml"@,
        media_type("svg"@) == "image/svg+xml"@,
        media_type("png"@) == "image/png"@,
        media_type("jpg"@) == "image/jpeg"@,
        media_type("jpeg"@) == "image/jpeg"@,
        media_type("gif"@) == "image/gif"@,
        media_type("webp"@) == "image/webp"@,
        media_type("ico"@) == "image/x-icon"@,
        media_type("bmp"@) == "image/bmp"@,
        media_type("tiff"@) == "image/tiff"@,
        media_type("tif"@) == "image/tiff"@,
        media_type("avif"@) == "image/avif"@,
        media_type("woff"@) == "font/woff"@,
        media_type("woff2"@) == "font/woff2"@,
        media_type("ttf"@) == "font/ttf"@,
        media_type("otf"@) == "font/otf"@,
        media_type("mp3"@) == "audio/mpeg"@,
        media_type("ogg"@) == "audio/ogg"@,
        media_type("wav"@) == "audio/wav"@,
        media_type("mp4"@) == "video/mp4"@,
        media_type("webm"@) == "video/webm"@,
        media_type("ogv"@) == "video/ogg"@,
        media_type("pdf"@) == "application/pdf"@,
        media_type("zip"@) == "application/zip"@,
        media_type("gz"@) == "application/gzip"@,
        media_type("tgz"@) == "application/gzip"@,
        media_type("tar"@) == "application/x-tar"@,
        media_type("wasm"@) == "application/wasm"@,
        media_type("atom"@) == "application/atom+xml"@,
        media_type("rss"@) == "application/rss+xml"@,
        (ext != "html"@ && ext != "htm"@ && ext != "css"@ && ext != "js"@ && ext != "mjs"@ && ext != "json"@ && ext != "txt"@ && ext != "md"@ && ext != "csv"@ && ext != "xml"@ && ext != "svg"@ && ext != "png"@ && ext != "jpg"@ && ext != "jpeg"@ && ext != "gif"@ && ext != "webp"@ && ext != "ico"@ && ext != "bmp"@ && ext != "tiff"@ && ext != "tif"@ && ext != "avif"@ && ext != "woff"@ && ext != "woff2"@ && ext != "ttf"@ && ext != "otf"@ && ext != "mp3"@ && ext != "ogg"@ && ext != "wav"@ && ext != "mp4"@ && ext != "webm"@ && ext != "ogv"@ && ext != "pdf"@ && ext != "zip"@ && ext != "gz"@ && ext != "tgz"@ && ext != "tar"@ && ext != "wasm"@ && ext != "atom"@ && ext != "rss"@) ==> media_type(ext)
            == "application/octet-stream"@,
{
    reveal_strlit("html");
    assert("html"@.len() == 4 && "html"@[0] == 'h' && "html"@[1] == 't' && "html"@[2] == 'm' && "html"@[3] == 'l');
    reveal_strlit("htm");
    assert("htm"@.len() == 3 && "htm"@[0] == 'h' && "htm"@[1] == 't' && "htm"@[2] == 'm');
    reveal_strlit("css");
    assert("css"@.len() == 3 && "css"@[0] == 'c' && "css"@[1] == 's' && "css"@[2] == 's');
    reveal_strlit("js");
    assert("js"@.len() == 2 && "js"@[0] == 'j' && "js"@[1] == 's');
    reveal_strlit("mjs");
    assert("mjs"@.len() == 3 && "mjs"@[0] == 'm' && "mjs"@[1] == 'j' && "mjs"@[2] == 's');
    reveal_strlit("json");
    assert("json"@.len() == 4 && "json"@[0] == 'j' && "json"@[1] == 's' && "json"@[2] == 'o' && "json"@[3] == 'n');
    reveal_strlit("txt");
    assert("txt"@.len() == 3 && "txt"@[0] == 't' && "txt"@[1] == 'x' && "txt"@[2] == 't');
    reveal_strlit("md");
    assert("md"@.len() == 2 && "md"@[0] == 'm' && "md"@[1] == 'd');
    reveal_strlit("csv");
    assert("csv"@.len() == 3 && "csv"@[0] == 'c' && "csv"@[1] == 's' && "csv"@[2] == 'v');
    reveal_strlit("xml");
    assert("xml"@.len() == 3 && "xml"@[0] == 'x' && "xml"@[1] == 'm' && "xml"@[2] == 'l');
    reveal_strlit("svg");
    assert("svg"@.len() == 3 && "svg"@[0] == 's' && "svg"@[1] == 'v' && "svg"@[2] == 'g');
    reveal_strlit("png");
    assert("png"@.len() == 3 && "png"@[0] == 'p' && "png"@[1] == 'n' && "png"@[2] == 'g');
    reveal_strlit("jpg");
    assert("jpg"@.len() == 3 && "jpg"@[0] == 'j' && "jpg"@[1] == 'p' && "jpg"@[2] == 'g');
    reveal_strlit("jpeg");
    assert("jpeg"@.len() == 4 && "jpeg"@[0] == 'j' && "jpeg"@[1] == 'p' && "jpeg"@[2] == 'e' && "jpeg"@[3] == 'g');
    reveal_strlit("gif");
    assert("gif"@.len() == 3 && "gif"@[0] == 'g' && "gif"@[1] == 'i' && "gif"@[2] == 'f');
    reveal_strlit("webp");
    assert("webp"@.len() == 4 && "webp"@[0] == 'w' && "webp"@[1] == 'e' && "webp"@[2] == 'b' && "webp"@[3] == 'p');
    reveal_strlit("ico");
    assert("ico"@.len() == 3 && "ico"@[0] == 'i' && "ico"@[1] == 'c' && "ico"@[2] == 'o');
    reveal_strlit("bmp");
    assert("bmp"@.len() == 3 && "bmp"@[0] == 'b' && "bmp"@[1] == 'm' && "bmp"@[2] == 'p');
    reveal_strlit("tiff");
    assert("tiff"@.len() == 4 && "tiff"@[0] == 't' && "tiff"@[1] == 'i' && "tiff"@[2] == 'f' && "tiff"@[3] == 'f');
    reveal_strlit("tif");
    assert("tif"@.len() == 3 && "tif"@[0] == 't' && "tif"@[1] == 'i' && "tif"@[2] == 'f');
    reveal_strlit("avif");
    assert("avif"@.len() == 4 && "avif"@[0] == 'a' && "avif"@[1] == 'v' && "avif"@[2] == 'i' && "avif"@[3] == 'f');
    reveal_strlit("woff");
    assert("woff"@.len() == 4 && "woff"@[0] == 'w' && "woff"@[1] == 'o' && "woff"@[2] == 'f' && "woff"@[3] == 'f');
    reveal_strlit("woff2");
    assert("woff2"@.len() == 5 && "woff2"@[0] == 'w' && "woff2"@[1] == 'o' && "woff2"@[2] == 'f' && "woff2"@[3] == 'f' && "woff2"@[4] == '2');
    reveal_strlit("ttf");
    assert("ttf"@.len() == 3 && "ttf"@[0] == 't' && "ttf"@[1] == 't' && "ttf"@[2] == 'f');
    reveal_strlit("otf");
    assert("otf"@.len() == 3 && "otf"@[0] == 'o' && "otf"@[1] == 't' && "otf"@[2] == 'f');
    reveal_strlit("mp3");
    assert("mp3"@.len() == 3 && "mp3"@[0] == 'm' && "mp3"@[1] == 'p' && "mp3"@[2] == '3');
    reveal_strlit("ogg");
    assert("ogg"@.len() == 3 && "ogg"@[0] == 'o' && "ogg"@[1] == 'g' && "ogg"@[2] == 'g');
    reveal_strlit("wav");
    assert("wav"@.len() == 3 && "wav"@[0] == 'w' && "wav"@[1] == 'a' && "wav"@[2] == 'v');
    reveal_strlit("mp4");
    assert("mp4"@.len() == 3 && "mp4"@[0] == 'm' && "mp4"@[1] == 'p' && "mp4"@[2] == '4');
    reveal_strlit("webm");
    assert("webm"@.len() == 4 && "webm"@[0] == 'w' && "webm"@[1] == 'e' && "webm"@[2] == 'b' && "webm"@[3] == 'm');
    reveal_strlit("ogv");
    assert("ogv"@.len() == 3 && "ogv"@[0] == 'o' && "ogv"@[1] == 'g' && "ogv"@[2] == 'v');
    reveal_strlit("pdf");
    assert("pdf"@.len() == 3 && "pdf"@[0] == 'p' && "pdf"@[1] == 'd' && "pdf"@[2] == 'f');
    reveal_strlit("zip");
    assert("zip"@.len() == 3 && "zip"@[0] == 'z' && "zip"@[1] == 'i' && "zip"@[2] == 'p');
    reveal_strlit("gz");
    assert("gz"@.len() == 2 && "gz"@[0] == 'g' && "gz"@[1] == 'z');
    reveal_strlit("tgz");
    assert("tgz"@.len() == 3 && "tgz"@[0] == 't' && "tgz"@[1] == 'g' && "tgz"@[2] == 'z');
    reveal_strlit("tar");
    assert("tar"@.len() == 3 && "tar"@[0] == 't' && "tar"@[1] == 'a' && "tar"@[2] == 'r');
    reveal_strlit("wasm");
    assert("wasm"@.len() == 4 && "wasm"@[0] == 'w' && "wasm"@[1] == 'a' && "wasm"@[2] == 's' && "wasm"@[3] == 'm');
    reveal_strlit("atom");
    assert("atom"@.len() == 4 && "atom"@[0] == 'a' && "atom"@[1] == 't' && "atom"@[2] == 'o' && "atom"@[3] == 'm');
    reveal_strlit("rss");
    assert("rss"@.len() == 3 && "rss"@[0] == 'r' && "rss"@[1] == 's' && "rss"@[2] == 's');
}

} // verus!
