//! The media type under which a file is served, by the extension of its
//! name.

use crate::bytes::{after_last, find_after_last};
use crate::locate::{DOT, SLASH};
use crate::text::{lossy_text, to_text};
use vstd::prelude::*;

verus! {

/// The extension of a file name: what follows the last `.` in the part of
/// the name after its last `/`. A name without a `.`, a name whose only
/// `.` comes first, and the name `..` have none.
pub open spec fn extension_of(name: Seq<u8>) -> Option<Seq<u8>> {
    let start = after_last(name, name.len() as int, SLASH);
    let file = name.skip(start);
    let dot = after_last(file, file.len() as int, DOT);
    if dot <= 1 || file == seq![DOT, DOT] {
        None
    } else {
        Some(file.skip(dot))
    }
}

/// Finds the extension of a file name.
pub fn extension(name: &[u8]) -> (r: Option<&[u8]>)
    ensures
        match r {
            Some(ext) => extension_of(name@) == Some(ext@),
            None => extension_of(name@) is None,
        },
{
    let n: usize = name.len();
    let start: usize = find_after_last(name, n, SLASH);
    let file = vstd::slice::slice_subrange(name, start, n);
    let dot: usize = find_after_last(file, file.len(), DOT);
    if dot <= 1 {
        return None;
    }
    if file.len() == 2 && file[0] == DOT && file[1] == DOT {
        assert(file@ =~= seq![DOT, DOT]);
        return None;
    }
    assert(file@ != seq![DOT, DOT]) by {
        if file@ == seq![DOT, DOT] {
            assert(file@.len() == 2);
            assert(file@[0] == DOT && file@[1] == DOT);
        }
    }
    let ext = vstd::slice::slice_subrange(file, dot, file.len());
    Some(ext)
}

/// The media type for an extension; `application/octet-stream` for one that
/// is not known.
pub open spec fn content_type_of(ext: Seq<char>) -> Seq<char> {
    if ext == "html"@ {
        "text/html; charset=utf-8"@
    } else if ext == "css"@ {
        "text/css; charset=utf-8"@
    } else if ext == "js"@ {
        "text/javascript; charset=utf-8"@
    } else if ext == "json"@ {
        "application/json; charset=utf-8"@
    } else if ext == "png"@ {
        "image/png; charset=utf-8"@
    } else if ext == "jpg"@ || ext == "jpeg"@ {
        "image/jpeg; charset=utf-8"@
    } else if ext == "gif"@ {
        "image/gif; charset=utf-8"@
    } else if ext == "svg"@ {
        "image/svg+xml; charset=utf-8"@
    } else if ext == "ico"@ {
        "image/x-icon; charset=utf-8"@
    } else if ext == "ttf"@ {
        "font/ttf; charset=utf-8"@
    } else if ext == "woff"@ {
        "font/woff; charset=utf-8"@
    } else if ext == "woff2"@ {
        "font/woff2; charset=utf-8"@
    } else if ext == "eot"@ {
        "application/vnd.ms-fontobject; charset=utf-8"@
    } else if ext == "otf"@ {
        "font/otf; charset=utf-8"@
    } else if ext == "txt"@ {
        "text/plain; charset=utf-8"@
    } else if ext == "pdf"@ {
        "application/pdf; charset=utf-8"@
    } else if ext == "doc"@ {
        "application/msword; charset=utf-8"@
    } else if ext == "docx"@ {
        "application/vnd.openxmlformats-officedocument.wordprocessingml.document; charset=utf-8"@
    } else if ext == "xls"@ {
        "application/vnd.ms-excel; charset=utf-8"@
    } else if ext == "xlsx"@ {
        "application/vnd.openxmlformats-officedocument.spreadsheetml.sheet; charset=utf-8"@
    } else if ext == "ppt"@ {
        "application/vnd.ms-powerpoint; charset=utf-8"@
    } else if ext == "pptx"@ {
        "application/vnd.openxmlformats-officedocument.presentationml.presentation; charset=utf-8"@
    } else if ext == "xml"@ {
        "application/xml; charset=utf-8"@
    } else if ext == "zip"@ {
        "application/zip; charset=utf-8"@
    } else if ext == "rar"@ {
        "application/x-rar-compressed; charset=utf-8"@
    } else if ext == "7z"@ {
        "application/x-7z-compressed; charset=utf-8"@
    } else if ext == "gz"@ {
        "application/gzip; charset=utf-8"@
    } else if ext == "tar"@ {
        "application/x-tar; charset=utf-8"@
    } else if ext == "swf"@ {
        "application/x-shockwave-flash; charset=utf-8"@
    } else if ext == "flv"@ {
        "video/x-flv; charset=utf-8"@
    } else if ext == "avi"@ {
        "video/x-msvideo; charset=utf-8"@
    } else if ext == "mov"@ {
        "video/quicktime; charset=utf-8"@
    } else if ext == "mp4"@ || ext == "f4v"@ || ext == "f4p"@ || ext == "f4a"@ || ext == "f4b"@ {
        "video/mp4; charset=utf-8"@
    } else if ext == "mp3"@ {
        "audio/mpeg; charset=utf-8"@
    } else if ext == "wav"@ {
        "audio/x-wav; charset=utf-8"@
    } else if ext == "ogg"@ {
        "audio/ogg; charset=utf-8"@
    } else if ext == "webm"@ {
        "video/webm; charset=utf-8"@
    } else if ext == "mpg"@ || ext == "mpeg"@ || ext == "mpe"@ || ext == "mp2"@ {
        "video/mpeg; charset=utf-8"@
    } else if ext == "m4v"@ {
        "video/x-m4v; charset=utf-8"@
    } else if ext == "3gp"@ {
        "video/3gpp; charset=utf-8"@
    } else if ext == "3g2"@ {
        "video/3gpp2; charset=utf-8"@
    } else if ext == "mkv"@ || ext == "amv"@ {
        "video/x-matroska; charset=utf-8"@
    } else if ext == "m3u"@ {
        "audio/x-mpegurl; charset=utf-8"@
    } else if ext == "m3u8"@ {
        "application/vnd.apple.mpegurl; charset=utf-8"@
    } else if ext == "ts"@ {
        "video/mp2t; charset=utf-8"@
    } else if ext == "webp"@ {
        "image/webp; charset=utf-8"@
    } else if ext == "bmp"@ {
        "image/bmp; charset=utf-8"@
    } else if ext == "tif"@ || ext == "tiff"@ {
        "image/tiff; charset=utf-8"@
    } else if ext == "psd"@ {
        "image/vnd.adobe.photoshop; charset=utf-8"@
    } else if ext == "ai"@ || ext == "eps"@ || ext == "ps"@ {
        "application/postscript; charset=utf-8"@
    } else if ext == "dwg"@ {
        "image/vnd.dwg; charset=utf-8"@
    } else if ext == "dxf"@ {
        "image/vnd.dxf; charset=utf-8"@
    } else if ext == "rtf"@ {
        "application/rtf; charset=utf-8"@
    } else if ext == "odt"@ {
        "application/vnd.oasis.opendocument.text; charset=utf-8"@
    } else if ext == "ods"@ {
        "application/vnd.oasis.opendocument.spreadsheet; charset=utf-8"@
    } else if ext == "wasm"@ {
        "application/wasm; charset=utf-8"@
    } else {
        "application/octet-stream; charset=utf-8"@
    }
}

/// Tests whether two strings are the same text, with `==` on `str`.
///
/// Believed, not proved: `==` on strings is equality of their characters.
#[verifier::external_body]
fn same_text(a: &str, b: &str) -> (r: bool)
    ensures
        r == (a@ == b@),
{
    a == b
}

/// The media type for an extension.
pub fn content_type(ext: &str) -> (r: &'static str)
    ensures
        r@ == content_type_of(ext@),
{
    if same_text(ext, "html") {
        "text/html; charset=utf-8"
    } else if same_text(ext, "css") {
        "text/css; charset=utf-8"
    } else if same_text(ext, "js") {
        "text/javascript; charset=utf-8"
    } else if same_text(ext, "json") {
        "application/json; charset=utf-8"
    } else if same_text(ext, "png") {
        "image/png; charset=utf-8"
    } else if same_text(ext, "jpg") || same_text(ext, "jpeg") {
        "image/jpeg; charset=utf-8"
    } else if same_text(ext, "gif") {
        "image/gif; charset=utf-8"
    } else if same_text(ext, "svg") {
        "image/svg+xml; charset=utf-8"
    } else if same_text(ext, "ico") {
        "image/x-icon; charset=utf-8"
    } else if same_text(ext, "ttf") {
        "font/ttf; charset=utf-8"
    } else if same_text(ext, "woff") {
        "font/woff; charset=utf-8"
    } else if same_text(ext, "woff2") {
        "font/woff2; charset=utf-8"
    } else if same_text(ext, "eot") {
        "application/vnd.ms-fontobject; charset=utf-8"
    } else if same_text(ext, "otf") {
        "font/otf; charset=utf-8"
    } else if same_text(ext, "txt") {
        "text/plain; charset=utf-8"
    } else if same_text(ext, "pdf") {
        "application/pdf; charset=utf-8"
    } else if same_text(ext, "doc") {
        "application/msword; charset=utf-8"
    } else if same_text(ext, "docx") {
        "application/vnd.openxmlformats-officedocument.wordprocessingml.document; charset=utf-8"
    } else if same_text(ext, "xls") {
        "application/vnd.ms-excel; charset=utf-8"
    } else if same_text(ext, "xlsx") {
        "application/vnd.openxmlformats-officedocument.spreadsheetml.sheet; charset=utf-8"
    } else if same_text(ext, "ppt") {
        "application/vnd.ms-powerpoint; charset=utf-8"
    } else if same_text(ext, "pptx") {
        "application/vnd.openxmlformats-officedocument.presentationml.presentation; charset=utf-8"
    } else if same_text(ext, "xml") {
        "application/xml; charset=utf-8"
    } else if same_text(ext, "zip") {
        "application/zip; charset=utf-8"
    } else if same_text(ext, "rar") {
        "application/x-rar-compressed; charset=utf-8"
    } else if same_text(ext, "7z") {
        "application/x-7z-compressed; charset=utf-8"
    } else if same_text(ext, "gz") {
        "application/gzip; charset=utf-8"
    } else if same_text(ext, "tar") {
        "application/x-tar; charset=utf-8"
    } else if same_text(ext, "swf") {
        "application/x-shockwave-flash; charset=utf-8"
    } else if same_text(ext, "flv") {
        "video/x-flv; charset=utf-8"
    } else if same_text(ext, "avi") {
        "video/x-msvideo; charset=utf-8"
    } else if same_text(ext, "mov") {
        "video/quicktime; charset=utf-8"
    } else if same_text(ext, "mp4") || same_text(ext, "f4v") || same_text(ext, "f4p") || same_text(
        ext,
        "f4a",
    ) || same_text(ext, "f4b") {
        "video/mp4; charset=utf-8"
    } else if same_text(ext, "mp3") {
        "audio/mpeg; charset=utf-8"
    } else if same_text(ext, "wav") {
        "audio/x-wav; charset=utf-8"
    } else if same_text(ext, "ogg") {
        "audio/ogg; charset=utf-8"
    } else if same_text(ext, "webm") {
        "video/webm; charset=utf-8"
    } else if same_text(ext, "mpg") || same_text(ext, "mpeg") || same_text(ext, "mpe") || same_text(
        ext,
        "mp2",
    ) {
        "video/mpeg; charset=utf-8"
    } else if same_text(ext, "m4v") {
        "video/x-m4v; charset=utf-8"
    } else if same_text(ext, "3gp") {
        "video/3gpp; charset=utf-8"
    } else if same_text(ext, "3g2") {
        "video/3gpp2; charset=utf-8"
    } else if same_text(ext, "mkv") || same_text(ext, "amv") {
        "video/x-matroska; charset=utf-8"
    } else if same_text(ext, "m3u") {
        "audio/x-mpegurl; charset=utf-8"
    } else if same_text(ext, "m3u8") {
        "application/vnd.apple.mpegurl; charset=utf-8"
    } else if same_text(ext, "ts") {
        "video/mp2t; charset=utf-8"
    } else if same_text(ext, "webp") {
        "image/webp; charset=utf-8"
    } else if same_text(ext, "bmp") {
        "image/bmp; charset=utf-8"
    } else if same_text(ext, "tif") || same_text(ext, "tiff") {
        "image/tiff; charset=utf-8"
    } else if same_text(ext, "psd") {
        "image/vnd.adobe.photoshop; charset=utf-8"
    } else if same_text(ext, "ai") || same_text(ext, "eps") || same_text(ext, "ps") {
        "application/postscript; charset=utf-8"
    } else if same_text(ext, "dwg") {
        "image/vnd.dwg; charset=utf-8"
    } else if same_text(ext, "dxf") {
        "image/vnd.dxf; charset=utf-8"
    } else if same_text(ext, "rtf") {
        "application/rtf; charset=utf-8"
    } else if same_text(ext, "odt") {
        "application/vnd.oasis.opendocument.text; charset=utf-8"
    } else if same_text(ext, "ods") {
        "application/vnd.oasis.opendocument.spreadsheet; charset=utf-8"
    } else if same_text(ext, "wasm") {
        "application/wasm; charset=utf-8"
    } else {
        "application/octet-stream; charset=utf-8"
    }
}

/// The media type under which the file `name` is served, or `None` where
/// the name has no extension.
pub fn content_type_for(name: &[u8]) -> (r: Option<&'static str>)
    ensures
        match extension_of(name@) {
            Some(ext) => r is Some && r->0@ == content_type_of(lossy_text(ext)),
            None => r is None,
        },
{
    match extension(name) {
        Some(ext) => {
            let text = to_text(ext);
            Some(content_type(text.as_str()))
        },
        None => None,
    }
}

} // verus!
