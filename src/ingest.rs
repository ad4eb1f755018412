use vstd::prelude::*;

use crate::query::strings_view;
use crate::text::{chars_of, has_at, has_at_exec, string_from, string_of};
use vstd::utf8::encode_utf8;

verus! {

// ---------------------------------------------------------------- outside items

#[verifier::external_type_specification]
#[verifier::external_body]
pub struct ExIoError(std::io::Error);

#[verifier::external_type_specification]
#[verifier::external_body]
pub struct ExDocError(epub::doc::DocError);

#[verifier::external_type_specification]
#[verifier::external_body]
pub struct ExParseError(url::ParseError);

/// A parsed EPUB container held in memory. Verus cannot declare
/// `epub::doc::EpubDoc` itself (its reader parameter is bound by `std::io`
/// traits), so the document stays behind this handle and the functions below.
#[verifier::external_body]
pub struct Epub {
    doc: epub::doc::EpubDoc<std::io::Cursor<Vec<u8>>>,
}

/// An opened EPUB document together with the bytes it was read from.
pub struct EpubFile {
    doc: Epub,
    bytes: Ghost<Seq<u8>>,
}

impl EpubFile {
    /// The archive bytes this document was opened from.
    pub closed spec fn bytes(&self) -> Seq<u8> {
        self.bytes@
    }
}

/// The BLAKE3 digest of some bytes, written as 64 lower-case hex digits.
pub uninterp spec fn blake3_hex(bytes: Seq<u8>) -> Seq<char>;

/// The name-based (version 5) UUID of `name` in the namespace `namespace`.
pub uninterp spec fn uuid_v5_of(namespace: u128, name: Seq<u8>) -> u128;

/// The zstd frame of `data` at compression level 8.
pub uninterp spec fn zstd_level8(data: Seq<u8>) -> Seq<u8>;

/// `s` with its `%XX` escapes decoded, invalid UTF-8 replaced by U+FFFD.
pub uninterp spec fn percent_decoded(s: Seq<char>) -> Seq<char>;

/// The serialization of `s` parsed as a URL, without its fragment; `None`
/// when `s` is no URL.
pub uninterp spec fn url_without_fragment(s: Seq<char>) -> Option<Seq<char>>;

/// The bytes of `META-INF/container.xml` in a zip archive, if it has one.
pub uninterp spec fn epub_container(bytes: Seq<u8>) -> Option<Seq<u8>>;

/// Whether the bytes open as an EPUB document.
pub uninterp spec fn epub_opens(bytes: Seq<u8>) -> bool;

/// The resource ids of an EPUB's reading order (spine).
pub uninterp spec fn epub_spine(bytes: Seq<u8>) -> Seq<Seq<char>>;

/// The text of the resource with id `id`, if there is one and it is text.
pub uninterp spec fn epub_resource_text(bytes: Seq<u8>, id: Seq<char>) -> Option<Seq<char>>;

/// The archive path of the resource with id `id`, if there is one.
pub uninterp spec fn epub_resource_path(bytes: Seq<u8>, id: Seq<char>) -> Option<Seq<char>>;

/// The navigation points of an EPUB: label and target path, in order.
pub uninterp spec fn epub_toc(bytes: Seq<u8>) -> Seq<(Seq<char>, Seq<char>)>;

/// The value of the first metadata item with that property.
pub uninterp spec fn epub_mdata(bytes: Seq<u8>, property: Seq<char>) -> Option<Seq<char>>;

/// Whether two strings name the same path (`Path` equality: by components).
pub uninterp spec fn same_path(a: Seq<char>, b: Seq<char>) -> bool;

/// Relies on `blake3::hash` and the `Display` of its `Hash`: the digest of the
/// bytes as 64 lower-case hex digits.
#[verifier::external_body]
fn content_hash(bytes: &[u8]) -> (r: String)
    ensures
        r@ == blake3_hex(bytes@),
        r@.len() == 64,
{
    blake3::hash(bytes).to_string()
}

/// Relies on `uuid::Uuid::new_v5`: the version 5 UUID of `name` in `namespace`.
#[verifier::external_body]
fn uuid_v5(namespace: u128, name: &[u8]) -> (r: u128)
    ensures
        r == uuid_v5_of(namespace, name@),
{
    uuid::Uuid::new_v5(&uuid::Uuid::from_u128(namespace), name).as_u128()
}

/// Relies on `zstd::stream::encode_all` at level 8: on success, the zstd frame
/// of the data.
#[verifier::external_body]
fn compress(data: &[u8]) -> (r: Result<Vec<u8>, std::io::Error>)
    ensures
        r matches Ok(v) ==> v@ == zstd_level8(data@),
{
    zstd::stream::encode_all(data, 8)
}

/// Relies on `percent_encoding::percent_decode_str` and `decode_utf8_lossy`.
#[verifier::external_body]
fn percent_decode(s: &str) -> (r: String)
    ensures
        r@ == percent_decoded(s@),
{
    percent_encoding::percent_decode_str(s).decode_utf8_lossy().to_string()
}

/// Relies on `url::Url::parse`, then `Url::set_fragment(None)` and the URL's
/// serialization: the link without its fragment.
#[verifier::external_body]
fn link_url(s: &str) -> (r: Result<String, url::ParseError>)
    ensures
        r is Ok <==> url_without_fragment(s@) is Some,
        r matches Ok(u) ==> url_without_fragment(s@) == Some(u@),
{
    let mut url = url::Url::parse(s)?;
    url.set_fragment(None);
    Ok(url.to_string())
}

/// Relies on `epub::archive::EpubArchive::from_reader` and `get_container_file`:
/// the bytes of `META-INF/container.xml`.
#[verifier::external_body]
fn container_file(bytes: &[u8]) -> (r: Option<Vec<u8>>)
    ensures
        r is Some <==> epub_container(bytes@) is Some,
        r matches Some(c) ==> epub_container(bytes@) == Some(c@),
{
    let archive = epub::archive::EpubArchive::from_reader(std::io::Cursor::new(bytes.to_vec()));
    archive.and_then(|mut a| a.get_container_file()).ok()
}

/// Relies on `epub::doc::EpubDoc::from_reader`, which reads the container. It
/// opens the container that `container_file` reads, then panics when the
/// `full-path` of its root file has no parent: the `requires` leaves that out.
#[verifier::external_body]
fn open_epub(bytes: Vec<u8>) -> (r: Result<EpubFile, epub::doc::DocError>)
    requires
        epub_container(bytes@) matches Some(c) ==> root_paths_have_parents(c),
    ensures
        r is Ok <==> epub_opens(bytes@),
        r matches Ok(d) ==> d.bytes() == bytes@,
{
    let ghost b = bytes@;
    epub::doc::EpubDoc::from_reader(std::io::Cursor::new(bytes)).map(
        |doc| EpubFile { doc: Epub { doc }, bytes: Ghost(b) },
    )
}

/// Relies on the `spine` field of `epub::doc::EpubDoc`: the resource ids of the
/// reading order.
#[verifier::external_body]
fn spine_ids(doc: &EpubFile) -> (r: Vec<String>)
    ensures
        r@.map_values(|s: String| s@) == epub_spine(doc.bytes()),
{
    doc.doc.doc.spine.iter().map(|item| item.idref.clone()).collect()
}

/// Relies on `epub::doc::EpubDoc::get_resource_str`: the text of a resource.
#[verifier::external_body]
fn resource_text(doc: &mut EpubFile, id: &str) -> (r: Option<String>)
    ensures
        final(doc).bytes() == old(doc).bytes(),
        r is Some <==> epub_resource_text(old(doc).bytes(), id@) is Some,
        r matches Some(t) ==> epub_resource_text(old(doc).bytes(), id@) == Some(t@),
{
    doc.doc.doc.get_resource_str(id).map(|(content, _mime)| content)
}

/// Relies on the `toc` field of `epub::doc::EpubDoc`: each navigation point's
/// label and target path, in order.
#[verifier::external_body]
fn toc_links(doc: &EpubFile) -> (r: Vec<(String, String)>)
    ensures
        r@.len() == epub_toc(doc.bytes()).len(),
        forall|j: int|
            0 <= j < r@.len() ==> (#[trigger] r@[j]).0@ == epub_toc(doc.bytes())[j].0 && r@[j].1@
                == epub_toc(doc.bytes())[j].1,
{
    doc.doc.doc.toc.iter().map(|nav| (nav.label.clone(), nav.content.to_string_lossy().to_string())).collect()
}

/// Relies on `epub::doc::EpubDoc::mdata`: the value of the first metadata item
/// with that property.
#[verifier::external_body]
fn metadata(doc: &EpubFile, property: &str) -> (r: Option<String>)
    ensures
        r is Some <==> epub_mdata(doc.bytes(), property@) is Some,
        r matches Some(v) ==> epub_mdata(doc.bytes(), property@) == Some(v@),
{
    doc.doc.doc.mdata(property).map(|item| item.value.clone())
}

/// Relies on `epub::doc::EpubDoc::resource_uri_to_chapter`: the spine position
/// of a resource whose path is `path`. Which one, when several resources share
/// the path, depends on the order of a hash map, so only this is stated: a
/// position found holds such a resource; none is found when no spine entry
/// does; one is found when some spine entry does and every resource at that
/// path is in the spine.
#[verifier::external_body]
fn spine_position(doc: &EpubFile, path: &str) -> (r: Option<usize>)
    ensures
        r matches Some(p) ==> p < epub_spine(doc.bytes()).len() && (epub_resource_path(
            doc.bytes(),
            epub_spine(doc.bytes())[p as int],
        ) matches Some(rp) && same_path(rp, path@)),
        (forall|p: int|
            0 <= p < epub_spine(doc.bytes()).len() ==> !(epub_resource_path(
                doc.bytes(),
                #[trigger] epub_spine(doc.bytes())[p],
            ) matches Some(rp) && same_path(rp, path@))) ==> r is None,
        path_resolves(doc.bytes(), path@) ==> r is Some,
{
    doc.doc.doc.resource_uri_to_chapter(&std::path::PathBuf::from(path))
}

} // verus!

verus! {

// ---------------------------------------------------------------- records

/// A book of the library, identified by its content.
#[derive(Clone, Debug)]
pub struct Book {
    pub id: u128,
    pub identifier: String,
    pub language: String,
    pub title: String,
    pub creator: Option<String>,
    pub description: Option<String>,
    pub publisher: Option<String>,
    /// The content hash of the archive.
    pub hash: String,
}

/// A chapter: one entry of a book's reading order, compressed.
#[derive(Clone, Debug)]
pub struct Chapter {
    pub id: u128,
    pub book_id: u128,
    /// 1-based position in the reading order.
    pub index: usize,
    pub content: Vec<u8>,
}

/// An entry of a book's table of contents.
#[derive(Clone, Debug)]
pub struct Toc {
    /// Assigned by storage; 0 until stored.
    pub id: i64,
    pub book_id: u128,
    /// Position in the navigation order.
    pub index: usize,
    pub chapter_id: u128,
    pub title: String,
}

/// Why a file did not become a book.
#[derive(Clone, Debug)]
pub enum IngestError {
    UnreadableFile,
    /// The container could not be read as an EPUB.
    MalformedArchive,
    /// A resource of the reading order could not be read as text.
    MissingResource,
    CompressionFailed,
    /// A table-of-contents target is not a valid link.
    InvalidTocLink,
    /// A table-of-contents target is not part of the reading order.
    UnresolvableTocReference,
    /// A required metadata property is absent.
    MissingMetadata(String),
}

/// The namespace of book identifiers: the nil UUID.
pub const BOOK_NAMESPACE: u128 = 0;

/// The identifier of a book whose archive holds `bytes`.
pub open spec fn book_id_of(bytes: Seq<u8>) -> u128 {
    uuid_v5_of(BOOK_NAMESPACE, bytes)
}

/// The identifier of a chapter of the book `book_id` whose text is `content`.
pub open spec fn chapter_id_of(book_id: u128, content: Seq<u8>) -> u128 {
    uuid_v5_of(book_id, content)
}

/// `c` is the chapter at position `i` of the book `book_id`: its identifier
/// and compressed content come from one and the same text.
pub open spec fn is_chapter(c: Chapter, book_id: u128, i: int) -> bool {
    &&& c.book_id == book_id
    &&& c.index == i + 1
    &&& exists|text: Seq<u8>|
        #[trigger] chapter_id_of(book_id, text) == c.id && c.content@ == zstd_level8(text)
}

/// `t` is entry `j` of the table of contents of the book `book_id`, pointing
/// at one of its chapters.
pub open spec fn is_toc_entry(t: Toc, book_id: u128, j: int, chapters: Seq<Chapter>) -> bool {
    &&& t.id == 0
    &&& t.book_id == book_id
    &&& t.index == j
    &&& exists|p: int| 0 <= p < chapters.len() && #[trigger] chapters[p].id == t.chapter_id
}

/// A book, its chapters and its table of contents, as parsed from `bytes`
/// whose content hash is `hash`.
pub open spec fn is_parsed_book(
    book: Book,
    chapters: Seq<Chapter>,
    toc: Seq<Toc>,
    hash: Seq<char>,
    bytes: Seq<u8>,
) -> bool {
    &&& book.id == book_id_of(bytes)
    &&& book.hash@ == hash
    &&& forall|i: int| 0 <= i < chapters.len() ==> is_chapter(#[trigger] chapters[i], book.id, i)
    &&& forall|j: int| 0 <= j < toc.len() ==> is_toc_entry(#[trigger] toc[j], book.id, j, chapters)
}

// ---------------------------------------------------------------- parsing

pub open spec fn kw_scheme() -> Seq<char> {
    seq!['e', 'p', 'u', 'b', ':', '/', '/', '/']
}

/// Where `s` starts once every leading `epub:///` is removed.
pub open spec fn scheme_end(s: Seq<char>, i: int) -> int
    decreases s.len() - i,
{
    if 0 <= i && has_at(s, i, kw_scheme()) {
        scheme_end(s, i + 8)
    } else {
        i
    }
}

/// `s` with every leading `epub:///` removed.
pub open spec fn cut_scheme(s: Seq<char>) -> Seq<char> {
    s.subrange(scheme_end(s, 0), s.len() as int)
}

/// `s` with every leading `epub:///` removed.
pub fn strip_scheme(s: &str) -> (r: String)
    ensures
        r@ == cut_scheme(s@),
{
    let cs = chars_of(s);
    let mut i: usize = 0;
    while has_at_exec(&cs, i, &['e', 'p', 'u', 'b', ':', '/', '/', '/'])
        invariant
            i <= cs.len(),
            cs@ == s@,
            scheme_end(s@, i as int) == scheme_end(s@, 0),
        decreases cs.len() - i,
    {
        i += 8;
    }
    string_of(&cs, i, cs.len())
}

/// The archive path that a table-of-contents target names: the target read as
/// a link under `epub:///`, without its fragment, with the scheme removed and
/// its escapes decoded. `None` when it is no valid link.
pub open spec fn link_path_of(target: Seq<char>) -> Option<Seq<char>> {
    match url_without_fragment(kw_scheme() + target) {
        Some(u) => Some(percent_decoded(cut_scheme(u))),
        None => None,
    }
}

fn link_path(target: &str) -> (r: Result<String, IngestError>)
    ensures
        match link_path_of(target@) {
            Some(p) => r matches Ok(s) && s@ == p,
            None => r matches Err(IngestError::InvalidTocLink),
        },
{
    let mut full = string_from(&['e', 'p', 'u', 'b', ':', '/', '/', '/']);
    full.append(target);
    let url = match link_url(full.as_str()) {
        Ok(u) => u,
        Err(_) => return Err(IngestError::InvalidTocLink),
    };
    let relative = strip_scheme(url.as_str());
    Ok(percent_decode(relative.as_str()))
}

// The container file names the package's root file in `full-path`; opening an
// archive whose root path has no parent (empty, or only `/` and `.`) panics, so
// such archives are refused first. The check is conservative: every
// `full-path` attribute must be written without entity references and hold a
// character other than `/` and `.`.

/// `full-path`
pub open spec fn kw_full_path() -> Seq<u8> {
    seq![102u8, 117u8, 108u8, 108u8, 45u8, 112u8, 97u8, 116u8, 104u8]
}

pub open spec fn bytes_at(c: Seq<u8>, i: int, w: Seq<u8>) -> bool {
    0 <= i && i + w.len() <= c.len() && c.subrange(i, i + w.len()) == w
}

pub open spec fn is_xml_space(b: u8) -> bool {
    b == 32u8 || b == 9u8 || b == 10u8 || b == 13u8
}

pub open spec fn skip_xml_space(c: Seq<u8>, i: int) -> int
    decreases c.len() - i,
{
    if 0 <= i < c.len() && is_xml_space(c[i]) {
        skip_xml_space(c, i + 1)
    } else {
        i
    }
}

/// First position at or after `i` that holds `b`, or `c.len()`.
pub open spec fn find_byte(c: Seq<u8>, b: u8, i: int) -> int
    decreases c.len() - i,
{
    if 0 <= i < c.len() {
        if c[i] == b {
            i
        } else {
            find_byte(c, b, i + 1)
        }
    } else {
        c.len() as int
    }
}

/// The quoted value of an attribute whose name ends at `p`: `= "v"` or `= 'v'`.
pub open spec fn attr_value(c: Seq<u8>, p: int) -> Option<Seq<u8>> {
    let q = skip_xml_space(c, p);
    if 0 <= q < c.len() && c[q] == 61u8 {
        let r = skip_xml_space(c, q + 1);
        if 0 <= r < c.len() && (c[r] == 34u8 || c[r] == 39u8) {
            let e = find_byte(c, c[r], r + 1);
            if e < c.len() {
                Some(c.subrange(r + 1, e))
            } else {
                None
            }
        } else {
            None
        }
    } else {
        None
    }
}

/// A path written without entity references, with a character other than `/`
/// and `.`: it has a component other than the root, hence a parent.
pub open spec fn path_value_has_parent(v: Seq<u8>) -> bool {
    &&& forall|k: int| 0 <= k < v.len() ==> v[k] != 38u8
    &&& exists|k: int| 0 <= k < v.len() && v[k] != 47u8 && v[k] != 46u8
}

/// The container file has a `full-path` attribute, and each one names a path
/// that has a parent.
pub open spec fn root_paths_have_parents(c: Seq<u8>) -> bool {
    &&& exists|i: int| bytes_at(c, i, kw_full_path())
    &&& forall|i: int|
        #[trigger] bytes_at(c, i, kw_full_path()) ==> (attr_value(c, i + 9) matches Some(v)
            && path_value_has_parent(v))
}

fn bytes_at_exec(c: &Vec<u8>, i: usize, w: &[u8]) -> (r: bool)
    ensures
        r == bytes_at(c@, i as int, w@),
{
    if i > c.len() || w.len() > c.len() - i {
        return false;
    }
    let mut k: usize = 0;
    while k < w.len()
        invariant
            i + w.len() <= c.len(),
            k <= w.len(),
            forall|j: int| 0 <= j < k ==> c@[i + j] == w@[j],
        decreases w.len() - k,
    {
        if c[i + k] != w[k] {
            assert(c@.subrange(i as int, i + w.len())[k as int] != w@[k as int]);
            return false;
        }
        k += 1;
    }
    assert(c@.subrange(i as int, i + w.len()) =~= w@);
    true
}

fn skip_xml_space_exec(c: &Vec<u8>, i: usize) -> (r: usize)
    requires
        i <= c.len(),
    ensures
        r == skip_xml_space(c@, i as int),
        i <= r <= c.len(),
{
    let mut k = i;
    while k < c.len() && (c[k] == 32u8 || c[k] == 9u8 || c[k] == 10u8 || c[k] == 13u8)
        invariant
            i <= k <= c.len(),
            skip_xml_space(c@, k as int) == skip_xml_space(c@, i as int),
        decreases c.len() - k,
    {
        k += 1;
    }
    k
}

fn attr_value_ok(c: &Vec<u8>, p: usize) -> (r: bool)
    requires
        p <= c.len(),
    ensures
        r == (attr_value(c@, p as int) matches Some(v) && path_value_has_parent(v)),
{
    let q = skip_xml_space_exec(c, p);
    if q >= c.len() || c[q] != 61u8 {
        return false;
    }
    let r = skip_xml_space_exec(c, q + 1);
    if r >= c.len() || !(c[r] == 34u8 || c[r] == 39u8) {
        return false;
    }
    let quote = c[r];
    let mut e = r + 1;
    let mut no_amp = true;
    let mut other = false;
    while e < c.len() && c[e] != quote
        invariant
            r + 1 <= e <= c.len(),
            r < c.len(),
            quote == c@[r as int],
            find_byte(c@, quote, e as int) == find_byte(c@, quote, r + 1),
            no_amp == forall|k: int| r + 1 <= k < e ==> c@[k] != 38u8,
            other == exists|k: int| r + 1 <= k < e && c@[k] != 47u8 && c@[k] != 46u8,
        decreases c.len() - e,
    {
        no_amp = no_amp && c[e] != 38u8;
        other = other || (c[e] != 47u8 && c[e] != 46u8);
        e += 1;
    }
    if e >= c.len() {
        return false;
    }
    let ghost v = c@.subrange(r + 1, e as int);
    assert(forall|k: int| 0 <= k < v.len() ==> v[k] == c@[r + 1 + k]);
    proof {
        if no_amp {
            assert forall|k: int| 0 <= k < v.len() implies v[k] != 38u8 by {
                assert(v[k] == c@[r + 1 + k]);
            }
        } else {
            let k = choose|k: int| r + 1 <= k < e && !(c@[k] != 38u8);
            assert(v[k - r - 1] == c@[k]);
        }
        if other {
            let k = choose|k: int| r + 1 <= k < e && c@[k] != 47u8 && c@[k] != 46u8;
            assert(v[k - r - 1] == c@[k]);
        } else {
            assert forall|k: int| 0 <= k < v.len() implies !(v[k] != 47u8 && v[k] != 46u8) by {
                assert(v[k] == c@[r + 1 + k]);
            }
        }
    }
    no_amp && other
}

/// Whether opening this container file is safe: see `root_paths_have_parents`.
fn check_root_paths(c: &Vec<u8>) -> (r: bool)
    ensures
        r == root_paths_have_parents(c@),
{
    let mut found = false;
    let mut i: usize = 0;
    while i < c.len()
        invariant
            i <= c.len(),
            found == exists|j: int| 0 <= j < i && bytes_at(c@, j, kw_full_path()),
            forall|j: int|
                0 <= j < i && #[trigger] bytes_at(c@, j, kw_full_path()) ==> (attr_value(c@, j + 9) matches Some(v)
                    && path_value_has_parent(v)),
        decreases c.len() - i,
    {
        assert([102u8, 117u8, 108u8, 108u8, 45u8, 112u8, 97u8, 116u8, 104u8]@ == kw_full_path());
        if bytes_at_exec(c, i, &[102u8, 117u8, 108u8, 108u8, 45u8, 112u8, 97u8, 116u8, 104u8]) {
            found = true;
            if !attr_value_ok(c, i + 9) {
                return false;
            }
        }
        i += 1;
    }
    assert(forall|j: int| #[trigger] bytes_at(c@, j, kw_full_path()) ==> 0 <= j < c@.len());
    found
}

/// The chapter that a table-of-contents entry resolves to, by its spine
/// position, given the chapter identifiers in spine order.
pub fn resolve_toc_target(chapter_ids: &Vec<u128>, position: Option<usize>) -> (r: Result<
    u128,
    IngestError,
>)
    ensures
        match position {
            Some(p) => if p < chapter_ids@.len() {
                r == Ok::<u128, IngestError>(chapter_ids@[p as int])
            } else {
                r matches Err(IngestError::UnresolvableTocReference)
            },
            None => r matches Err(IngestError::UnresolvableTocReference),
        },
{
    match position {
        Some(p) => if p < chapter_ids.len() {
            Ok(chapter_ids[p])
        } else {
            Err(IngestError::UnresolvableTocReference)
        },
        None => Err(IngestError::UnresolvableTocReference),
    }
}

/// A required metadata value: present, or the error that names the property.
pub fn require_metadata(tag: &str, value: Option<String>) -> (r: Result<String, IngestError>)
    ensures
        match value {
            Some(v) => r matches Ok(s) && s@ == v@,
            None => r matches Err(IngestError::MissingMetadata(t)) && t@ == tag@,
        },
{
    match value {
        Some(v) => Ok(v),
        None => Err(IngestError::MissingMetadata(String::from_str(tag))),
    }
}

/// The required metadata property `tag` of a document.
pub fn get_metadata(doc: &EpubFile, tag: &str) -> (r: Result<String, IngestError>)
    ensures
        match epub_mdata(doc.bytes(), tag@) {
            Some(v) => r matches Ok(s) && s@ == v,
            None => r matches Err(IngestError::MissingMetadata(t)) && t@ == tag@,
        },
{
    require_metadata(tag, metadata(doc, tag))
}

pub open spec fn opt_view(o: Option<String>) -> Option<Seq<char>> {
    match o {
        Some(s) => Some(s@),
        None => None,
    }
}

/// The archive's container is safe to open and the archive opens as an EPUB.
pub open spec fn archive_opens(b: Seq<u8>) -> bool {
    &&& epub_container(b) matches Some(c) && root_paths_have_parents(c)
    &&& epub_opens(b)
}

/// The first of `identifier`, `language`, `title` that the metadata lacks.
pub open spec fn first_missing(b: Seq<u8>) -> Option<Seq<char>> {
    if epub_mdata(b, "identifier"@) is None {
        Some("identifier"@)
    } else if epub_mdata(b, "language"@) is None {
        Some("language"@)
    } else if epub_mdata(b, "title"@) is None {
        Some("title"@)
    } else {
        None
    }
}

/// Every resource of the reading order can be read as text.
pub open spec fn spine_readable(b: Seq<u8>) -> bool {
    forall|i: int|
        0 <= i < epub_spine(b).len() ==> #[trigger] epub_resource_text(b, epub_spine(b)[i]) is Some
}

/// The text of spine entry `i`.
pub open spec fn spine_text(b: Seq<u8>, i: int) -> Seq<char> {
    epub_resource_text(b, epub_spine(b)[i])->Some_0
}

/// Every table-of-contents target is a valid link.
pub open spec fn links_valid(b: Seq<u8>) -> bool {
    forall|j: int| 0 <= j < epub_toc(b).len() ==> #[trigger] link_path_of(epub_toc(b)[j].1) is Some
}

/// Spine entry `p` is a resource at `path`.
pub open spec fn spine_entry_at(b: Seq<u8>, p: int, path: Seq<char>) -> bool {
    0 <= p < epub_spine(b).len() && (epub_resource_path(b, epub_spine(b)[p]) matches Some(rp)
        && same_path(rp, path))
}

/// The archive path of table-of-contents entry `j`.
pub open spec fn toc_path(b: Seq<u8>, j: int) -> Seq<char> {
    link_path_of(epub_toc(b)[j].1)->Some_0
}

/// Some spine entry is a resource at `path`.
pub open spec fn path_in_spine(b: Seq<u8>, path: Seq<char>) -> bool {
    exists|p: int| #[trigger] spine_entry_at(b, p, path)
}

/// Some spine entry is at `path`, and every resource at `path` is in the spine.
pub open spec fn path_resolves(b: Seq<u8>, path: Seq<char>) -> bool {
    &&& path_in_spine(b, path)
    &&& forall|id: Seq<char>|
        (#[trigger] epub_resource_path(b, id) matches Some(rp) && same_path(rp, path))
            ==> epub_spine(b).contains(id)
}

/// Every table-of-contents target resolves to a spine entry without doubt.
pub open spec fn links_resolve(b: Seq<u8>) -> bool {
    forall|j: int| 0 <= j < epub_toc(b).len() ==> #[trigger] path_resolves(b, toc_path(b, j))
}

/// Every table-of-contents target is a resource of the reading order.
pub open spec fn links_in_spine(b: Seq<u8>) -> bool {
    forall|j: int| 0 <= j < epub_toc(b).len() ==> #[trigger] path_in_spine(b, toc_path(b, j))
}

/// What a successful parse of `b` gives: the book with its identifier, hash and
/// metadata; one chapter per spine entry, in reading order, whose identifier
/// and compressed content come from that entry's text; one table-of-contents
/// entry per navigation point, in navigation order, with its label, pointing
/// at the chapter of a spine entry at the navigation point's path (fragment
/// dropped, escapes decoded).
pub open spec fn epub_book(
    hash: Seq<char>,
    b: Seq<u8>,
    book: Book,
    chapters: Seq<Chapter>,
    toc: Seq<Toc>,
) -> bool {
    &&& archive_opens(b)
    &&& first_missing(b) is None
    &&& spine_readable(b)
    &&& links_valid(b)
    &&& book.id == book_id_of(b)
    &&& book.hash@ == hash
    &&& Some(book.identifier@) == epub_mdata(b, "identifier"@)
    &&& Some(book.language@) == epub_mdata(b, "language"@)
    &&& Some(book.title@) == epub_mdata(b, "title"@)
    &&& opt_view(book.creator) == epub_mdata(b, "creator"@)
    &&& opt_view(book.description) == epub_mdata(b, "description"@)
    &&& opt_view(book.publisher) == epub_mdata(b, "publisher"@)
    &&& chapters.len() == epub_spine(b).len()
    &&& forall|i: int|
        0 <= i < chapters.len() ==> {
            &&& (#[trigger] chapters[i]).book_id == book.id
            &&& chapters[i].index == i + 1
            &&& chapters[i].id == chapter_id_of(book.id, encode_utf8(spine_text(b, i)))
            &&& chapters[i].content@ == zstd_level8(encode_utf8(spine_text(b, i)))
        }
    &&& toc.len() == epub_toc(b).len()
    &&& forall|j: int|
        0 <= j < toc.len() ==> {
            &&& (#[trigger] toc[j]).id == 0
            &&& toc[j].book_id == book.id
            &&& toc[j].index == j
            &&& toc[j].title@ == epub_toc(b)[j].0
            &&& exists|p: int|
                #[trigger] spine_entry_at(b, p, toc_path(b, j)) && toc[j].chapter_id == chapters[p].id
        }
}

/// Parses an archive into its book, chapters and table of contents.
///
/// The checks come in this order, each error exactly when the earlier checks
/// pass: the archive must open (`MalformedArchive`); identifier, language and
/// title must be present (`MissingMetadata`, naming the first missing one);
/// every spine entry must read as text (`MissingResource`); every
/// table-of-contents target must be a valid link (`InvalidTocLink`) and a
/// resource of the spine (`UnresolvableTocReference`; where a resource outside
/// the spine shares the path, the document's lookup decides); then every
/// chapter is compressed (`CompressionFailed`, decided by the compressor).
pub fn process_epub(hash: String, buff: Vec<u8>) -> (r: Result<(Book, Vec<Chapter>, Vec<Toc>), IngestError>)
    ensures
        !archive_opens(buff@) ==> r matches Err(IngestError::MalformedArchive),
        archive_opens(buff@) && first_missing(buff@) is Some ==> (r matches Err(
            IngestError::MissingMetadata(t),
        ) && Some(t@) == first_missing(buff@)),
        archive_opens(buff@) && first_missing(buff@) is None && !spine_readable(buff@) ==> r matches Err(
            IngestError::MissingResource,
        ),
        archive_opens(buff@) && first_missing(buff@) is None && spine_readable(buff@) && !links_valid(
            buff@,
        ) ==> r matches Err(IngestError::InvalidTocLink),
        archive_opens(buff@) && first_missing(buff@) is None && spine_readable(buff@) && links_valid(
            buff@,
        ) && !links_in_spine(buff@) ==> r matches Err(IngestError::UnresolvableTocReference),
        archive_opens(buff@) && first_missing(buff@) is None && spine_readable(buff@) && links_valid(
            buff@,
        ) && links_resolve(buff@) ==> r is Ok || r matches Err(IngestError::CompressionFailed),
        r matches Ok((book, chapters, toc)) ==> epub_book(hash@, buff@, book, chapters@, toc@)
            && is_parsed_book(book, chapters@, toc@, hash@, buff@),
{
    let ghost b = buff@;
    parse_archive(hash, buff, Ghost(b))
}

fn parse_archive(hash: String, buff: Vec<u8>, Ghost(b): Ghost<Seq<u8>>) -> (r: Result<(Book, Vec<Chapter>, Vec<Toc>), IngestError>)
    requires
        buff@ == b,
    ensures
        !archive_opens(b) ==> r matches Err(IngestError::MalformedArchive),
        archive_opens(b) && first_missing(b) is Some ==> (r matches Err(
            IngestError::MissingMetadata(t),
        ) && Some(t@) == first_missing(b)),
        archive_opens(b) && first_missing(b) is None && !spine_readable(b) ==> r matches Err(
            IngestError::MissingResource,
        ),
        archive_opens(b) && first_missing(b) is None && spine_readable(b) && !links_valid(
            b,
        ) ==> r matches Err(IngestError::InvalidTocLink),
        archive_opens(b) && first_missing(b) is None && spine_readable(b) && links_valid(
            b,
        ) && !links_in_spine(b) ==> r matches Err(IngestError::UnresolvableTocReference),
        archive_opens(b) && first_missing(b) is None && spine_readable(b) && links_valid(
            b,
        ) && links_resolve(b) ==> r is Ok || r matches Err(IngestError::CompressionFailed),
        r matches Ok((book, chapters, toc)) ==> epub_book(hash@, b, book, chapters@, toc@)
            && is_parsed_book(book, chapters@, toc@, hash@, b),
{
    let book_id = uuid_v5(BOOK_NAMESPACE, buff.as_slice());
    let container = match container_file(buff.as_slice()) {
        Some(c) => c,
        None => return Err(IngestError::MalformedArchive),
    };
    if !check_root_paths(&container) {
        return Err(IngestError::MalformedArchive);
    }
    let mut doc = match open_epub(buff) {
        Ok(d) => d,
        Err(_) => return Err(IngestError::MalformedArchive),
    };
    let identifier = match get_metadata(&doc, "identifier") {
        Ok(v) => v,
        Err(e) => return Err(e),
    };
    let language = match get_metadata(&doc, "language") {
        Ok(v) => v,
        Err(e) => return Err(e),
    };
    let title = match get_metadata(&doc, "title") {
        Ok(v) => v,
        Err(e) => return Err(e),
    };
    let ghost hash_view = hash@;
    assert(first_missing(b) is None);
    let ids = spine_ids(&doc);
    let ghost spine = epub_spine(b);
    assert(ids@.len() == spine.len());
    let mut texts: Vec<String> = Vec::new();
    for i in 0..ids.len()
        invariant
            doc.bytes() == b,
            archive_opens(b),
            first_missing(b) is None,
            Some(identifier@) == epub_mdata(b, "identifier"@),
            Some(language@) == epub_mdata(b, "language"@),
            Some(title@) == epub_mdata(b, "title"@),
            book_id == book_id_of(b),
            hash@ == hash_view,
            spine == epub_spine(b),
            ids@.map_values(|s: String| s@) == spine,
            texts@.len() == i,
            forall|k: int| 0 <= k < i ==> epub_resource_text(b, spine[k]) == Some((#[trigger] texts@[k])@),
    {
        assert(ids@.map_values(|s: String| s@)[i as int] == ids@[i as int]@);
        match resource_text(&mut doc, ids[i].as_str()) {
            Some(t) => {
                texts.push(t);
            },
            None => {
                assert(epub_resource_text(b, spine[i as int]) is None);
                return Err(IngestError::MissingResource);
            },
        }
    }
    assert(spine_readable(b)) by {
        assert forall|k: int| 0 <= k < spine.len() implies #[trigger] epub_resource_text(b, spine[k]) is Some by {
            assert(epub_resource_text(b, spine[k]) == Some(texts@[k]@));
        }
    }
    let links = toc_links(&doc);
    let ghost nav = epub_toc(b);
    let mut paths: Vec<String> = Vec::new();
    for j in 0..links.len()
        invariant
            doc.bytes() == b,
            archive_opens(b),
            first_missing(b) is None,
            Some(identifier@) == epub_mdata(b, "identifier"@),
            Some(language@) == epub_mdata(b, "language"@),
            Some(title@) == epub_mdata(b, "title"@),
            book_id == book_id_of(b),
            hash@ == hash_view,
            spine_readable(b),
            texts@.len() == spine.len(),
            spine == epub_spine(b),
            forall|k: int| 0 <= k < texts@.len() ==> epub_resource_text(b, spine[k]) == Some((#[trigger] texts@[k])@),
            links@.len() == nav.len(),
            nav == epub_toc(b),
            forall|k: int| 0 <= k < links@.len() ==> (#[trigger] links@[k]).0@ == nav[k].0 && links@[k].1@ == nav[k].1,
            paths@.len() == j,
            forall|k: int| 0 <= k < j ==> link_path_of(nav[k].1) == Some((#[trigger] paths@[k])@),
    {
        let _ = links[j].1.as_str();
        match link_path(links[j].1.as_str()) {
            Ok(p) => {
                paths.push(p);
            },
            Err(e) => {
                assert(!links_valid(b)) by {
                    assert(link_path_of(epub_toc(b)[j as int].1) is None);
                }
                return Err(e);
            },
        }
    }
    assert(links_valid(b)) by {
        assert forall|k: int| 0 <= k < nav.len() implies #[trigger] link_path_of(nav[k].1) is Some by {
            assert(link_path_of(nav[k].1) == Some(paths@[k]@));
        }
    }
    let mut chapter_ids: Vec<u128> = Vec::new();
    for i in 0..texts.len()
        invariant
            doc.bytes() == b,
            archive_opens(b),
            first_missing(b) is None,
            Some(identifier@) == epub_mdata(b, "identifier"@),
            Some(language@) == epub_mdata(b, "language"@),
            Some(title@) == epub_mdata(b, "title"@),
            book_id == book_id_of(b),
            hash@ == hash_view,
            spine_readable(b),
            links_valid(b),
            chapter_ids@.len() == i,
            forall|k: int|
                0 <= k < i ==> #[trigger] chapter_ids@[k] == chapter_id_of(book_id, encode_utf8(texts@[k]@)),
    {
        chapter_ids.push(uuid_v5(book_id, texts[i].as_str().as_bytes()));
    }
    let mut toc: Vec<Toc> = Vec::new();
    for j in 0..links.len()
        invariant
            doc.bytes() == b,
            archive_opens(b),
            first_missing(b) is None,
            Some(identifier@) == epub_mdata(b, "identifier"@),
            Some(language@) == epub_mdata(b, "language"@),
            Some(title@) == epub_mdata(b, "title"@),
            book_id == book_id_of(b),
            hash@ == hash_view,
            spine_readable(b),
            links_valid(b),
            texts@.len() == spine.len(),
            forall|k: int| 0 <= k < texts@.len() ==> epub_resource_text(b, spine[k]) == Some((#[trigger] texts@[k])@),
            forall|k: int|
                0 <= k < texts@.len() ==> #[trigger] chapter_ids@[k] == chapter_id_of(book_id, encode_utf8(texts@[k]@)),
            links@.len() == nav.len(),
            nav == epub_toc(b),
            spine == epub_spine(b),
            paths@.len() == nav.len(),
            chapter_ids@.len() == spine.len(),
            forall|k: int| 0 <= k < links@.len() ==> (#[trigger] links@[k]).0@ == nav[k].0,
            forall|k: int| 0 <= k < nav.len() ==> link_path_of(nav[k].1) == Some((#[trigger] paths@[k])@),
            toc@.len() == j,
            forall|k: int| 0 <= k < j ==> #[trigger] path_in_spine(b, toc_path(b, k)),
            forall|k: int|
                0 <= k < j ==> {
                    &&& (#[trigger] toc@[k]).id == 0
                    &&& toc@[k].book_id == book_id
                    &&& toc@[k].index == k
                    &&& toc@[k].title@ == nav[k].0
                    &&& exists|p: int|
                        #[trigger] spine_entry_at(b, p, toc_path(b, k)) && toc@[k].chapter_id
                            == chapter_ids@[p]
                },
    {
        assert(toc_path(b, j as int) == paths@[j as int]@);
        let pos = spine_position(&doc, paths[j].as_str());
        let chapter_id = match resolve_toc_target(&chapter_ids, pos) {
            Ok(id) => id,
            Err(e) => {
                assert(pos is None);
                assert(!links_resolve(b)) by {
                    assert(!path_resolves(b, toc_path(b, j as int)));
                }
                return Err(e);
            },
        };
        let ghost p = pos->Some_0 as int;
        assert(spine_entry_at(b, p, toc_path(b, j as int)));
        assert(path_in_spine(b, toc_path(b, j as int)));
        assert(chapter_id == chapter_ids@[p]);
        let ghost before = toc@;
        toc.push(Toc { id: 0, book_id, index: j, chapter_id, title: links[j].0.clone() });
        proof {
            assert(toc@[j as int].chapter_id == chapter_ids@[p]);
            assert(spine_entry_at(b, p, toc_path(b, j as int)) && toc@[j as int].chapter_id
                == chapter_ids@[p]);
            assert forall|k: int| 0 <= k < j implies toc@[k] == before[k] by {}
        }
    }
    let mut chapters: Vec<Chapter> = Vec::new();
    for i in 0..texts.len()
        invariant
            doc.bytes() == b,
            archive_opens(b),
            first_missing(b) is None,
            Some(identifier@) == epub_mdata(b, "identifier"@),
            Some(language@) == epub_mdata(b, "language"@),
            Some(title@) == epub_mdata(b, "title"@),
            book_id == book_id_of(b),
            hash@ == hash_view,
            spine_readable(b),
            links_valid(b),
            links_in_spine(b),
            spine == epub_spine(b),
            nav == epub_toc(b),
            forall|k: int| 0 <= k < texts@.len() ==> epub_resource_text(b, spine[k]) == Some((#[trigger] texts@[k])@),
            toc@.len() == nav.len(),
            forall|k: int|
                0 <= k < toc@.len() ==> {
                    &&& (#[trigger] toc@[k]).id == 0
                    &&& toc@[k].book_id == book_id
                    &&& toc@[k].index == k
                    &&& toc@[k].title@ == nav[k].0
                    &&& exists|p: int|
                        #[trigger] spine_entry_at(b, p, toc_path(b, k)) && toc@[k].chapter_id
                            == chapter_ids@[p]
                },
            texts@.len() == spine.len(),
            chapter_ids@.len() == spine.len(),
            forall|k: int|
                0 <= k < texts@.len() ==> #[trigger] chapter_ids@[k] == chapter_id_of(book_id, encode_utf8(texts@[k]@)),
            chapters@.len() == i,
            forall|k: int|
                0 <= k < i ==> {
                    &&& (#[trigger] chapters@[k]).book_id == book_id
                    &&& chapters@[k].index == k + 1
                    &&& chapters@[k].id == chapter_ids@[k]
                    &&& chapters@[k].content@ == zstd_level8(encode_utf8(texts@[k]@))
                },
    {
        match compress(texts[i].as_str().as_bytes()) {
            Ok(content) => {
                chapters.push(Chapter { id: chapter_ids[i], book_id, index: i + 1, content });
            },
            Err(_) => return Err(IngestError::CompressionFailed),
        }
    }
    let book = Book {
        id: book_id,
        identifier,
        language,
        title,
        creator: metadata(&doc, "creator"),
        description: metadata(&doc, "description"),
        publisher: metadata(&doc, "publisher"),
        hash,
    };
    proof {
        assert forall|i: int| 0 <= i < chapters@.len() implies spine_text(b, i) == texts@[i]@ by {
            assert(epub_resource_text(b, spine[i]) == Some(texts@[i]@));
        }
        assert forall|i: int| 0 <= i < chapters@.len() implies is_chapter(#[trigger] chapters@[i], book_id, i) by {
            assert(chapter_id_of(book_id, encode_utf8(texts@[i]@)) == chapters@[i].id);
        }
        assert forall|j: int| 0 <= j < toc@.len() implies is_toc_entry(#[trigger] toc@[j], book_id, j, chapters@) by {
            assert(toc@[j].id == 0);
            let p = choose|p: int| #[trigger] spine_entry_at(b, p, toc_path(b, j)) && toc@[j].chapter_id == chapter_ids@[p];
            assert(chapters@[p].id == toc@[j].chapter_id);
        }
    }
    Ok((book, chapters, toc))
}

} // verus!

verus! {

// ---------------------------------------------------------------- dedup and batches

/// The hashes that a scan admits, in order, when `known` is already stored
/// and the files it reads have the hashes `hs`.
pub open spec fn admitted(known: Set<Seq<char>>, hs: Seq<Seq<char>>) -> Seq<Seq<char>>
    decreases hs.len(),
{
    if hs.len() == 0 {
        seq![]
    } else {
        let a = admitted(known, hs.drop_last());
        if known.contains(hs.last()) || a.contains(hs.last()) {
            a
        } else {
            a.push(hs.last())
        }
    }
}

/// Admits a content hash only if it is neither stored nor already admitted
/// during this scan.
pub struct DedupFilter {
    known: Vec<String>,
    accepted: Vec<String>,
    offered: Ghost<Seq<Seq<char>>>,
}

fn contains_string(v: &Vec<String>, s: &String) -> (r: bool)
    ensures
        r == strings_view(v@).contains(s@),
{
    let mut k: usize = 0;
    while k < v.len()
        invariant
            k <= v.len(),
            forall|j: int| 0 <= j < k ==> v@[j]@ != s@,
        decreases v.len() - k,
    {
        if v[k] == *s {
            assert(strings_view(v@)[k as int] == s@);
            return true;
        }
        k += 1;
    }
    proof {
        if strings_view(v@).contains(s@) {
            let j = choose|j: int| 0 <= j < v@.len() && strings_view(v@)[j] == s@;
            assert(v@[j]@ == s@);
        }
    }
    false
}

impl DedupFilter {
    /// The hashes already stored.
    pub closed spec fn known(&self) -> Set<Seq<char>> {
        strings_view(self.known@).to_set()
    }

    /// The hashes offered so far, in order.
    pub closed spec fn offered(&self) -> Seq<Seq<char>> {
        self.offered@
    }

    pub closed spec fn wf(&self) -> bool {
        strings_view(self.accepted@) == admitted(self.known(), self.offered@)
    }

    pub fn new(stored: Vec<String>) -> (r: DedupFilter)
        ensures
            r.wf(),
            r.known() == strings_view(stored@).to_set(),
            r.offered() == Seq::<Seq<char>>::empty(),
    {
        let offered: Ghost<Seq<Seq<char>>> = Ghost(Seq::empty());
        let r = DedupFilter { known: stored, accepted: Vec::new(), offered };
        assert(strings_view(r.accepted@) =~= Seq::<Seq<char>>::empty());
        r
    }

    /// Offers a hash; true when it is admitted.
    pub fn accept(&mut self, hash: &String) -> (r: bool)
        requires
            old(self).wf(),
        ensures
            final(self).wf(),
            final(self).known() == old(self).known(),
            final(self).offered() == old(self).offered().push(hash@),
            r == (admitted(final(self).known(), final(self).offered()) == admitted(
                old(self).known(),
                old(self).offered(),
            ).push(hash@)),
            r == !(old(self).known().contains(hash@) || admitted(
                old(self).known(),
                old(self).offered(),
            ).contains(hash@)),
    {
        let ghost prev = admitted(self.known(), self.offered@);
        let ghost hs = self.offered@.push(hash@);
        assert(hs.drop_last() =~= self.offered@);
        let in_known = contains_string(&self.known, hash);
        assert(in_known == self.known().contains(hash@));
        let in_accepted = contains_string(&self.accepted, hash);
        proof {
            self.offered@ = hs;
        }
        if in_known || in_accepted {
            assert(prev.len() != prev.push(hash@).len());
            false
        } else {
            proof {
                crate::query::lemma_strings_push(self.accepted@, *hash);
            }
            self.accepted.push(hash.clone());
            true
        }
    }
}

/// Books are committed in batches of this many.
pub const BATCH_SIZE: usize = 8;

/// A book parsed from an archive: the book, its chapters, its table of contents.
pub type ParsedBook = (Book, Vec<Chapter>, Vec<Toc>);

/// A parsed book whose archive had some bytes with the given hash.
pub open spec fn is_parsed(b: ParsedBook) -> bool {
    exists|bytes: Seq<u8>| #[trigger] parsed_from(b, bytes)
}

/// `b` is what parsing the archive `bytes`, hashed, gives.
pub open spec fn parsed_from(b: ParsedBook, bytes: Seq<u8>) -> bool {
    &&& epub_book(blake3_hex(bytes), bytes, b.0, b.1@, b.2@)
    &&& is_parsed_book(b.0, b.1@, b.2@, blake3_hex(bytes), bytes)
}

/// What offering the archive `bytes` to a session does, once its hash is
/// admitted: the archive fails and the failure is kept, or its parsed book
/// joins the pending ones, handing out the batch when it is full.
pub open spec fn offered_admitted(
    old_pending: Seq<ParsedBook>,
    old_failures: nat,
    new_pending: Seq<ParsedBook>,
    new_failures: nat,
    r: Option<Vec<ParsedBook>>,
    bytes: Seq<u8>,
) -> bool {
    ||| new_failures == old_failures + 1 && new_pending == old_pending && r is None
    ||| exists|p: ParsedBook|
        #[trigger] parsed_from(p, bytes) && new_failures == old_failures && match r {
            Some(batch) => batch@ == old_pending.push(p) && new_pending.len() == 0,
            None => new_pending == old_pending.push(p),
        }
}

/// One scan of a directory tree: files are offered one by one; admitted ones
/// are parsed and gathered into batches, failures are kept.
pub struct Ingest {
    filter: DedupFilter,
    pending: Vec<ParsedBook>,
    failures: Vec<IngestError>,
}

impl Ingest {
    pub closed spec fn wf(&self) -> bool {
        &&& self.filter.wf()
        &&& self.pending@.len() < BATCH_SIZE
        &&& forall|k: int| 0 <= k < self.pending@.len() ==> is_parsed(#[trigger] self.pending@[k])
    }

    /// The hashes already stored when the scan began.
    pub closed spec fn known(&self) -> Set<Seq<char>> {
        self.filter.known()
    }

    /// The content hashes of the files offered so far, in order.
    pub closed spec fn offered(&self) -> Seq<Seq<char>> {
        self.filter.offered()
    }

    /// The books parsed and not yet handed out.
    pub closed spec fn pending(&self) -> Seq<ParsedBook> {
        self.pending@
    }

    /// How many admitted files failed to parse.
    pub closed spec fn failure_count(&self) -> nat {
        self.failures@.len()
    }

    pub fn new(stored: Vec<String>) -> (r: Ingest)
        ensures
            r.wf(),
            r.known() == strings_view(stored@).to_set(),
            r.offered() == Seq::<Seq<char>>::empty(),
            r.pending() == Seq::<ParsedBook>::empty(),
            r.failure_count() == 0,
    {
        Ingest { filter: DedupFilter::new(stored), pending: Vec::new(), failures: Vec::new() }
    }

    /// Offers the bytes of one file. Its content hash goes through the dedup
    /// filter; an admitted archive is parsed, and a failure to parse is kept
    /// rather than stopping the scan. Returns a full batch once one is ready.
    pub fn offer(&mut self, bytes: Vec<u8>) -> (r: Option<Vec<ParsedBook>>)
        requires
            old(self).wf(),
        ensures
            final(self).wf(),
            final(self).known() == old(self).known(),
            final(self).offered() == old(self).offered().push(blake3_hex(bytes@)),
            r matches Some(batch) ==> batch@.len() == BATCH_SIZE && final(self).pending().len() == 0
                && forall|k: int| 0 <= k < batch@.len() ==> is_parsed(#[trigger] batch@[k]),
            r is None ==> final(self).pending().len() <= old(self).pending().len() + 1,
            old(self).known().contains(blake3_hex(bytes@)) || admitted(
                old(self).known(),
                old(self).offered(),
            ).contains(blake3_hex(bytes@)) ==> r is None && final(self).pending() == old(
                self,
            ).pending() && final(self).failure_count() == old(self).failure_count(),
            final(self).failure_count() <= old(self).failure_count() + 1,
            !(old(self).known().contains(blake3_hex(bytes@)) || admitted(
                old(self).known(),
                old(self).offered(),
            ).contains(blake3_hex(bytes@))) ==> offered_admitted(
                old(self).pending(),
                old(self).failure_count(),
                final(self).pending(),
                final(self).failure_count(),
                r,
                bytes@,
            ),
            !(old(self).known().contains(blake3_hex(bytes@)) || admitted(
                old(self).known(),
                old(self).offered(),
            ).contains(blake3_hex(bytes@))) && !archive_opens(bytes@) ==> final(self).failure_count()
                == old(self).failure_count() + 1,
    {
        let hash = content_hash(bytes.as_slice());
        if !self.filter.accept(&hash) {
            return None;
        }
        let ghost b = bytes@;
        match process_epub(hash, bytes) {
            Ok(parsed) => {
                let ghost p = parsed;
                assert(parsed_from(p, b));
                self.pending.push(parsed);
                if self.pending.len() == BATCH_SIZE {
                    let mut batch: Vec<ParsedBook> = Vec::new();
                    batch.append(&mut self.pending);
                    assert(batch@ =~= old(self).pending@.push(p));
                    Some(batch)
                } else {
                    None
                }
            },
            Err(e) => {
                self.failures.push(e);
                None
            },
        }
    }

    /// Ends the scan: the last, partial batch and the failures.
    pub fn finish(self) -> (r: (Vec<ParsedBook>, Vec<IngestError>))
        requires
            self.wf(),
        ensures
            r.0@ == self.pending(),
            r.0@.len() < BATCH_SIZE,
            r.1@.len() == self.failure_count(),
    {
        (self.pending, self.failures)
    }
}

// ---------------------------------------------------------------- laws

proof fn lemma_admitted_facts(known: Set<Seq<char>>, hs: Seq<Seq<char>>)
    ensures
        admitted(known, hs).no_duplicates(),
        forall|k: int|
            0 <= k < admitted(known, hs).len() ==> !known.contains(#[trigger] admitted(known, hs)[k]),
        forall|k: int|
            0 <= k < hs.len() ==> known.contains(#[trigger] hs[k]) || admitted(known, hs).contains(
                hs[k],
            ),
        forall|x: Seq<char>| admitted(known, hs).contains(x) ==> hs.contains(x),
    decreases hs.len(),
{
    if hs.len() > 0 {
        let p = hs.drop_last();
        lemma_admitted_facts(known, p);
        let a = admitted(known, p);
        assert forall|k: int| 0 <= k < hs.len() implies known.contains(#[trigger] hs[k])
            || admitted(known, hs).contains(hs[k]) by {
            if k < p.len() {
                assert(p[k] == hs[k]);
                if a.contains(hs[k]) {
                    let j = choose|j: int| 0 <= j < a.len() && a[j] == hs[k];
                    assert(admitted(known, hs)[j] == hs[k]);
                }
            } else {
                if a.contains(hs.last()) {
                    let j = choose|j: int| 0 <= j < a.len() && a[j] == hs.last();
                    assert(admitted(known, hs)[j] == hs.last());
                } else if !known.contains(hs.last()) {
                    assert(admitted(known, hs)[a.len() as int] == hs.last());
                }
            }
        }
        assert forall|x: Seq<char>| admitted(known, hs).contains(x) implies hs.contains(x) by {
            let j = choose|j: int| 0 <= j < admitted(known, hs).len() && admitted(known, hs)[j] == x;
            if j < a.len() {
                assert(a[j] == x);
                assert(a.contains(x));
                assert(p.contains(x));
                let i = choose|i: int| 0 <= i < p.len() && p[i] == x;
                assert(hs[i] == x);
            } else {
                assert(hs[hs.len() - 1] == x);
            }
        }
    }
}

proof fn lemma_all_known_admits_nothing(known: Set<Seq<char>>, hs: Seq<Seq<char>>)
    requires
        forall|k: int| 0 <= k < hs.len() ==> known.contains(#[trigger] hs[k]),
    ensures
        admitted(known, hs) == Seq::<Seq<char>>::empty(),
    decreases hs.len(),
{
    if hs.len() > 0 {
        let p = hs.drop_last();
        assert forall|k: int| 0 <= k < p.len() implies known.contains(#[trigger] p[k]) by {
            assert(p[k] == hs[k]);
        }
        lemma_all_known_admits_nothing(known, p);
        assert(known.contains(hs[hs.len() - 1]));
    }
}

/// Scanning is idempotent. A scan admits each new content hash exactly once:
/// what it admits holds no repeats and nothing already stored, and every hash
/// it saw is stored or admitted. Scanning the same files again, once the
/// admitted books are stored, admits nothing.
pub proof fn lemma_rescan_admits_nothing(known: Set<Seq<char>>, hs: Seq<Seq<char>>)
    ensures
        admitted(known, hs).no_duplicates(),
        forall|k: int|
            0 <= k < admitted(known, hs).len() ==> !known.contains(#[trigger] admitted(known, hs)[k]),
        forall|k: int|
            0 <= k < hs.len() ==> known.contains(#[trigger] hs[k]) || admitted(known, hs).contains(
                hs[k],
            ),
        admitted(known.union(admitted(known, hs).to_set()), hs) == Seq::<Seq<char>>::empty(),
{
    lemma_admitted_facts(known, hs);
    let k2 = known.union(admitted(known, hs).to_set());
    assert forall|k: int| 0 <= k < hs.len() implies k2.contains(#[trigger] hs[k]) by {
        if admitted(known, hs).contains(hs[k]) {
            assert(admitted(known, hs).to_set().contains(hs[k]));
        }
    }
    lemma_all_known_admits_nothing(k2, hs);
}

/// Identity is deterministic. Archives with the same bytes get the same book
/// identifier and, spine position by spine position, the same chapter
/// identifiers; the same chapter text gets the same chapter identifier in both.
pub proof fn lemma_identity_is_deterministic(
    b1: Book,
    c1: Seq<Chapter>,
    t1: Seq<Toc>,
    b2: Book,
    c2: Seq<Chapter>,
    t2: Seq<Toc>,
    bytes1: Seq<u8>,
    bytes2: Seq<u8>,
    text: Seq<u8>,
)
    requires
        epub_book(blake3_hex(bytes1), bytes1, b1, c1, t1),
        epub_book(blake3_hex(bytes2), bytes2, b2, c2, t2),
        bytes1 == bytes2,
    ensures
        b1.id == b2.id,
        b1.hash@ == b2.hash@,
        c1.len() == c2.len(),
        forall|i: int| 0 <= i < c1.len() ==> (#[trigger] c1[i]).id == c2[i].id,
        chapter_id_of(b1.id, text) == chapter_id_of(b2.id, text),
{
    assert forall|i: int| 0 <= i < c1.len() implies (#[trigger] c1[i]).id == c2[i].id by {
        assert(c2[i].index == i + 1);
    }
}

/// Table-of-contents entries resolve. Every entry of a parsed book belongs to
/// the book and names the identifier of a chapter of that book at some spine
/// position.
pub proof fn lemma_toc_integrity(
    book: Book,
    chapters: Seq<Chapter>,
    toc: Seq<Toc>,
    hash: Seq<char>,
    bytes: Seq<u8>,
    j: int,
)
    requires
        is_parsed_book(book, chapters, toc, hash, bytes),
        0 <= j < toc.len(),
    ensures
        toc[j].book_id == book.id,
        exists|p: int|
            0 <= p < chapters.len() && #[trigger] chapters[p].id == toc[j].chapter_id
                && chapters[p].book_id == book.id && chapters[p].index == p + 1,
{
    assert(is_toc_entry(toc[j], book.id, j, chapters));
    let p = choose|p: int| 0 <= p < chapters.len() && #[trigger] chapters[p].id == toc[j].chapter_id;
    assert(is_chapter(chapters[p], book.id, p));
}

} // verus!
