//! What identifies a media file: its name, its size and the MD5 of its first 16 MiB.
use vstd::prelude::*;
use md5::Digest;
use crate::path::{file_name, stem, file_name_of, stem_of};
use crate::text::{chars_of, string_of, owned, rfind_char, rsplit_once};
use crate::url_text::{spec_url_parts, spec_url_decode, url_parts, url_decode, parts_view};
use crate::json::str_eq;
use crate::num::{parse_unsigned, parse_u64};

verus! {

/// How many bytes from the start of a media file are hashed.
pub const HASH_BYTES: u64 = 16 * 1024 * 1024;

/// The facts sent to identify a media file.
pub struct FileInfo {
    pub name: String,
    pub size: u64,
    pub first_16m_md5: String,
}

/// The lower-case hexadecimal MD5 digest of the bytes.
pub uninterp spec fn spec_md5_hex(data: Seq<u8>) -> Seq<char>;

/// Calls `md5::Md5` (the `md-5` crate) on the bytes and writes the digest in lower-case
/// hexadecimal. The contract names the result and says nothing more of it.
#[verifier::external_body]
fn md5_bytes(data: &[u8]) -> (r: String)
    ensures
        r@ == spec_md5_hex(data@),
{
    let mut hasher = md5::Md5::new();
    hasher.update(data);
    format!("{:x}", hasher.finalize())
}

pub open spec fn video_word() -> Seq<char> {
    seq!['v', 'i', 'd', 'e', 'o']
}

pub open spec fn unknown_word() -> Seq<char> {
    seq!['u', 'n', 'k', 'n', 'o', 'w', 'n']
}

/// The name of a local media file: the stem of its file name, `video` when it has none.
pub open spec fn spec_local_name(path: Seq<char>) -> Seq<char> {
    match file_name(path) {
        Some(n) => stem(n),
        None => video_word(),
    }
}

pub fn local_media_name(path: &str) -> (r: String)
    ensures
        r@ == spec_local_name(path@),
{
    match file_name_of(path) {
        Some(n) => stem_of(n.as_str()),
        None => {
            proof {
                reveal_strlit("video");
                assert("video"@ =~= video_word());
            }
            owned("video")
        },
    }
}

/// The name of a media file served over HTTP, from the parts of its URL: the last
/// segment of the URL's path (`unknown` when it is missing or empty), percent-decoded
/// when that succeeds.
pub open spec fn http_name_of_parts(parts: Option<(Seq<char>, Option<Seq<Seq<char>>>)>) -> Seq<char> {
    let raw = match parts {
        Some((_, Some(segs))) => if segs.len() > 0 && segs.last().len() > 0 {
            segs.last()
        } else {
            unknown_word()
        },
        _ => unknown_word(),
    };
    match spec_url_decode(raw) {
        Some(d) => d,
        None => raw,
    }
}

/// The name of a media file served over HTTP.
pub open spec fn spec_http_name(url: Seq<char>) -> Seq<char> {
    http_name_of_parts(spec_url_parts(url))
}

/// The name of a media file served over HTTP, from the scheme and path segments of its URL.
pub fn http_name_from_parts(parts: Option<(String, Option<Vec<String>>)>) -> (r: String)
    ensures
        r@ == http_name_of_parts(parts_view(parts)),
{
    proof {
        reveal_strlit("unknown");
        assert("unknown"@ =~= unknown_word());
    }
    let raw = match parts {
        Some((_, Some(v))) => {
            let ghost sv = Seq::new(v@.len(), |i: int| v@[i]@);
            if v.len() > 0 && chars_of(v[v.len() - 1].as_str()).len() > 0 {
                assert(sv.last() == v@[v@.len() - 1]@);
                v[v.len() - 1].clone()
            } else {
                proof {
                    if v@.len() > 0 {
                        assert(sv.last() == v@[v@.len() - 1]@);
                    }
                }
                owned("unknown")
            }
        },
        _ => owned("unknown"),
    };
    match url_decode(raw.as_str()) {
        Some(d) => d,
        None => raw,
    }
}

pub fn http_media_name(url: &str) -> (r: String)
    ensures
        r@ == spec_http_name(url@),
{
    http_name_from_parts(url_parts(url))
}

/// Where a media file is read from.
#[derive(Debug, PartialEq, Eq, Structural, Clone, Copy)]
pub enum MediaSource {
    /// An `http` or `https` URL.
    Http,
    /// An `ftp` URL.
    Ftp,
    /// A `file` URL.
    FileUrl,
    /// A local path: anything that is not a URL of those schemes.
    Local,
}

/// Where a media file is read from, by the scheme of its URL.
pub open spec fn source_of_parts(parts: Option<(Seq<char>, Option<Seq<Seq<char>>>)>) -> MediaSource {
    match parts {
        Some((scheme, _)) => {
            if scheme == seq!['h', 't', 't', 'p'] || scheme == seq!['h', 't', 't', 'p', 's'] {
                MediaSource::Http
            } else if scheme == seq!['f', 't', 'p'] {
                MediaSource::Ftp
            } else if scheme == seq!['f', 'i', 'l', 'e'] {
                MediaSource::FileUrl
            } else {
                MediaSource::Local
            }
        },
        None => MediaSource::Local,
    }
}

/// Where a media file is read from, from the scheme and path segments of its URL.
pub fn media_source_of_parts(parts: &Option<(String, Option<Vec<String>>)>) -> (r: MediaSource)
    ensures
        r == source_of_parts(parts_view(*parts)),
{
    proof {
        reveal_strlit("http");
        reveal_strlit("https");
        reveal_strlit("ftp");
        reveal_strlit("file");
        assert("http"@ =~= seq!['h', 't', 't', 'p']);
        assert("https"@ =~= seq!['h', 't', 't', 'p', 's']);
        assert("ftp"@ =~= seq!['f', 't', 'p']);
        assert("file"@ =~= seq!['f', 'i', 'l', 'e']);
    }
    match parts {
        Some((scheme, _)) => {
            if str_eq(scheme.as_str(), "http") || str_eq(scheme.as_str(), "https") {
                MediaSource::Http
            } else if str_eq(scheme.as_str(), "ftp") {
                MediaSource::Ftp
            } else if str_eq(scheme.as_str(), "file") {
                MediaSource::FileUrl
            } else {
                MediaSource::Local
            }
        },
        None => MediaSource::Local,
    }
}

/// Where the media file that `input` names is read from.
pub fn media_source(input: &str) -> (r: MediaSource)
    ensures
        r == source_of_parts(spec_url_parts(input@)),
{
    media_source_of_parts(&url_parts(input))
}

/// The total size in a `Content-Range` value: the number after its last slash.
pub open spec fn spec_range_total(v: Seq<char>) -> Option<int> {
    match rsplit_once(v, '/') {
        Some((_, size)) => match parse_unsigned(size) {
            Some(n) => if n <= u64::MAX {
                Some(n)
            } else {
                None
            },
            None => None,
        },
        None => None,
    }
}

pub fn content_range_total(value: &str) -> (r: Option<u64>)
    ensures
        match r {
            Some(n) => spec_range_total(value@) == Some(n as int),
            None => spec_range_total(value@) == None::<int>,
        },
{
    let c = chars_of(value);
    let n = c.len();
    assert(c@.subrange(0, n as int) =~= c@);
    match crate::text::rfind_in(&c, 0, n, '/') {
        Some(k) => {
            assert(c@.skip(k + 1) =~= c@.subrange(k + 1, n as int));
            parse_u64(&c, k + 1, n)
        },
        None => None,
    }
}

/// Why the size of a remote file is unknown.
#[derive(PartialEq, Eq, Structural, Clone, Copy)]
pub enum SizeError {
    /// A `Content-Range` header without a readable total.
    InvalidContentRange,
    /// An empty `Content-Length` header.
    EmptyContentLength,
    /// A `Content-Length` header that is not a number.
    InvalidContentLength,
    /// A `Content-Length` header with a number past `u64::MAX`.
    ContentLengthTooLarge,
    /// Neither header.
    Missing,
}

/// Whether `c` is an optional `+` and at least one ASCII digit.
fn digits_only(c: &Vec<char>) -> (b: bool)
    ensures
        b == (parse_unsigned(c@) is Some),
{
    let mut i: usize = 0;
    if c.len() > 0 && c[0] == '+' {
        i = 1;
    }
    let start = i;
    let ghost d = if c@.len() > 0 && c@[0] == '+' {
        c@.drop_first()
    } else {
        c@
    };
    assert(d =~= c@.skip(start as int));
    assert(parse_unsigned(c@) == if d.len() > 0 && crate::num::all_digits(d) {
        Some(crate::num::digits_value(d))
    } else {
        None
    });
    if i >= c.len() {
        assert(d.len() == 0);
        return false;
    }
    while i < c.len()
        invariant
            start <= i <= c@.len(),
            d =~= c@.skip(start as int),
            d.len() > 0,
            parse_unsigned(c@) == if d.len() > 0 && crate::num::all_digits(d) {
                Some(crate::num::digits_value(d))
            } else {
                None
            },
            forall|j: int| start <= j < i ==> crate::num::is_digit(#[trigger] c@[j]),
        decreases c@.len() - i,
    {
        if !('0' <= c[i] && c[i] <= '9') {
            assert(!crate::num::is_digit(d[i - start]));
            return false;
        }
        i = i + 1;
    }
    assert(crate::num::all_digits(d)) by {
        assert forall|j: int| 0 <= j < d.len() implies crate::num::is_digit(#[trigger] d[j]) by {
            assert(d[j] == c@[start + j]);
        }
    }
    true
}

/// The size of a remote file from the `Content-Range` header, else the `Content-Length` header.
pub fn file_size_from_headers(content_range: Option<String>, content_length: Option<String>) -> (r:
    Result<u64, SizeError>)
    ensures
        match content_range {
            Some(cr) => match spec_range_total(cr@) {
                Some(n) => r == Ok::<u64, SizeError>(n as u64),
                None => r == Err::<u64, SizeError>(SizeError::InvalidContentRange),
            },
            None => match content_length {
                Some(cl) => match parse_unsigned(cl@) {
                    Some(n) => if n <= u64::MAX {
                        r == Ok::<u64, SizeError>(n as u64)
                    } else {
                        r == Err::<u64, SizeError>(SizeError::ContentLengthTooLarge)
                    },
                    None => if cl@.len() == 0 {
                        r == Err::<u64, SizeError>(SizeError::EmptyContentLength)
                    } else {
                        r == Err::<u64, SizeError>(SizeError::InvalidContentLength)
                    },
                },
                None => r == Err::<u64, SizeError>(SizeError::Missing),
            },
        },
{
    match content_range {
        Some(cr) => match content_range_total(cr.as_str()) {
            Some(n) => Ok(n),
            None => Err(SizeError::InvalidContentRange),
        },
        None => match content_length {
            Some(cl) => {
                let c = chars_of(cl.as_str());
                assert(c@.subrange(0, c@.len() as int) =~= c@);
                match parse_u64(&c, 0, c.len()) {
                    Some(n) => Ok(n),
                    None => {
                        if c.len() == 0 {
                            Err(SizeError::EmptyContentLength)
                        } else if digits_only(&c) {
                            Err(SizeError::ContentLengthTooLarge)
                        } else {
                            Err(SizeError::InvalidContentLength)
                        }
                    },
                }
            },
            None => Err(SizeError::Missing),
        },
    }
}

/// The text after the last slash of a path (the whole path when it has none).
pub open spec fn last_piece(p: Seq<char>) -> Seq<char> {
    match rfind_char(p, '/') {
        Some(i) => p.skip(i + 1),
        None => p,
    }
}

/// The name of a media file on an FTP server: the last piece of its path, cut at its last dot.
pub open spec fn spec_ftp_name(remote_path: Seq<char>) -> Seq<char> {
    let last = last_piece(remote_path);
    match rsplit_once(last, '.') {
        Some((before, _)) => before,
        None => last,
    }
}

pub fn ftp_media_name(remote_path: &str) -> (r: String)
    ensures
        r@ == spec_ftp_name(remote_path@),
{
    let c = chars_of(remote_path);
    let n = c.len();
    assert(c@.subrange(0, n as int) =~= c@);
    let start = match crate::text::rfind_in(&c, 0, n, '/') {
        Some(k) => k + 1,
        None => 0,
    };
    let ghost last = last_piece(remote_path@);
    assert(last =~= c@.subrange(start as int, n as int));
    match crate::text::rfind_in(&c, start, n, '.') {
        Some(d) => {
            assert(last.take(d - start) =~= c@.subrange(start as int, d as int));
            string_of(&c, start, d)
        },
        None => string_of(&c, start, n),
    }
}

/// Whether an FTP URL's path names a file: it is neither empty nor `/`.
pub fn ftp_path_names_file(remote_path: &str) -> (b: bool)
    ensures
        b == !(remote_path@.len() == 0 || remote_path@ == seq!['/']),
{
    let c = chars_of(remote_path);
    if c.len() == 0 {
        return false;
    }
    if c.len() == 1 && c[0] == '/' {
        assert(c@ =~= seq!['/']);
        return false;
    }
    proof {
        if c@.len() == 1 {
            assert(c@[0] != '/');
            assert(c@ != seq!['/']);
        } else {
            assert(c@.len() != seq!['/'].len());
        }
    }
    true
}

impl SizeError {
    /// The message that reports the error.
    pub fn to_message(&self) -> (r: String)
        ensures
            r@ == match *self {
                SizeError::InvalidContentRange => "无效的 Content-Range"@,
                SizeError::EmptyContentLength => "cannot parse integer from empty string"@,
                SizeError::InvalidContentLength => "invalid digit found in string"@,
                SizeError::ContentLengthTooLarge => "number too large to fit in target type"@,
                SizeError::Missing => "服务器未提供文件大小信息"@,
            },
    {
        match self {
            SizeError::InvalidContentRange => owned("无效的 Content-Range"),
            SizeError::EmptyContentLength => owned("cannot parse integer from empty string"),
            SizeError::InvalidContentLength => owned("invalid digit found in string"),
            SizeError::ContentLengthTooLarge => owned("number too large to fit in target type"),
            SizeError::Missing => owned("服务器未提供文件大小信息"),
        }
    }
}

/// What a media file served over HTTP is known by: its name, its size, and the MD5 of the
/// bytes read from its start; nothing when no byte could be read.
pub fn http_file_info(name: String, size: u64, head: &[u8]) -> (r: Option<FileInfo>)
    ensures
        match r {
            Some(f) => head@.len() > 0 && f.name@ == name@ && f.size == size && f.first_16m_md5@
                == spec_md5_hex(head@),
            None => head@.len() == 0,
        },
{
    if head.len() == 0 {
        return None;
    }
    Some(FileInfo { name, size, first_16m_md5: md5_bytes(head) })
}

/// What a local media file is known by: the name its path gives, its size, and the MD5
/// of the bytes read from its start.
pub fn local_file_info(path: &str, size: u64, head: &[u8]) -> (r: FileInfo)
    ensures
        r.name@ == spec_local_name(path@),
        r.size == size,
        r.first_16m_md5@ == spec_md5_hex(head@),
{
    FileInfo { name: local_media_name(path), size, first_16m_md5: md5_bytes(head) }
}

/// What a media file on an FTP server is known by: the name its path gives, its size, and
/// the MD5 of the bytes read from its start.
pub fn ftp_file_info(remote_path: &str, size: u64, head: &[u8]) -> (r: FileInfo)
    ensures
        r.name@ == spec_ftp_name(remote_path@),
        r.size == size,
        r.first_16m_md5@ == spec_md5_hex(head@),
{
    FileInfo { name: ftp_media_name(remote_path), size, first_16m_md5: md5_bytes(head) }
}


/// A local media file is named by the stem of its file name, `video` when the path names
/// no file; a media file served over HTTP without a usable last path segment is named
/// `unknown` (decoded as the crate decodes it).
pub proof fn law_media_names(path: Seq<char>, parts: Option<(Seq<char>, Option<Seq<Seq<char>>>)>)
    ensures
        file_name(path) matches Some(n) ==> spec_local_name(path) == stem(n),
        file_name(path) is None ==> spec_local_name(path) == seq!['v', 'i', 'd', 'e', 'o'],
        !(parts matches Some((_, Some(segs))) && segs.len() > 0 && segs.last().len() > 0)
            ==> http_name_of_parts(parts) == (match spec_url_decode(
            seq!['u', 'n', 'k', 'n', 'o', 'w', 'n'],
        ) {
            Some(d) => d,
            None => seq!['u', 'n', 'k', 'n', 'o', 'w', 'n'],
        }),
        forall|s: Seq<char>, segs: Seq<Seq<char>>|
            parts == Some((s, Some(segs))) && segs.len() > 0 && segs.last().len() > 0
                ==> http_name_of_parts(parts) == (match spec_url_decode(segs.last()) {
                Some(d) => d,
                None => segs.last(),
            }),
{
}

/// `http` and `https` URLs are read over HTTP, `ftp` URLs over FTP, `file` URLs from the
/// file they name, and anything else as a local path.
pub proof fn law_media_source_schemes(parts: Option<(Seq<char>, Option<Seq<Seq<char>>>)>)
    ensures
        forall|s: Seq<char>, x: Option<Seq<Seq<char>>>|
            parts == Some((s, x)) && (s == seq!['h', 't', 't', 'p'] || s == seq!['h', 't', 't', 'p', 's'])
                ==> source_of_parts(parts) == MediaSource::Http,
        forall|s: Seq<char>, x: Option<Seq<Seq<char>>>|
            parts == Some((s, x)) && s == seq!['f', 't', 'p'] ==> source_of_parts(parts)
                == MediaSource::Ftp,
        forall|s: Seq<char>, x: Option<Seq<Seq<char>>>|
            parts == Some((s, x)) && s == seq!['f', 'i', 'l', 'e'] ==> source_of_parts(parts)
                == MediaSource::FileUrl,
        parts is None ==> source_of_parts(parts) == MediaSource::Local,
        forall|s: Seq<char>, x: Option<Seq<Seq<char>>>|
            parts == Some((s, x)) && s != seq!['h', 't', 't', 'p'] && s != seq!['h', 't', 't', 'p', 's']
                && s != seq!['f', 't', 'p'] && s != seq!['f', 'i', 'l', 'e'] ==> source_of_parts(parts)
                == MediaSource::Local,
{
}


/// The size in a `Content-Range` value is the number after its last slash: for any text
/// before a `/` and a run of ASCII digits after it, the size is the digits' value, when it
/// fits in a `u64`.
pub proof fn law_range_total_after_last_slash(before: Seq<char>, digits: Seq<char>)
    requires
        digits.len() > 0,
        crate::num::all_digits(digits),
    ensures
        crate::num::digits_value(digits) <= u64::MAX ==> spec_range_total(before + seq!['/'] + digits)
            == Some(crate::num::digits_value(digits)),
        crate::num::digits_value(digits) > u64::MAX ==> spec_range_total(before + seq!['/'] + digits)
            is None,
{
    let v = before + seq!['/'] + digits;
    let k = before.len() as int;
    assert forall|j: int| k < j < v.len() implies v[j] != '/' by {
        assert(v[j] == digits[j - k - 1]);
        assert(crate::num::is_digit(digits[j - k - 1]));
    }
    assert(v[k] == '/');
    crate::text::lemma_rfind_char_at(v, '/', k);
    assert(v.take(k) =~= before);
    assert(v.skip(k + 1) =~= digits);
    assert(digits[0] != '+') by {
        assert(crate::num::is_digit(digits[0]));
    }
}

} // verus!
