use ereader::ingest::{
    process_epub, require_metadata, resolve_toc_target, strip_scheme, DedupFilter,
    Ingest, IngestError, BATCH_SIZE,
};

fn crc32(data: &[u8]) -> u32 {
    let mut crc: u32 = 0xffff_ffff;
    for &b in data {
        crc ^= b as u32;
        for _ in 0..8 {
            let mask = (crc & 1).wrapping_neg();
            crc = (crc >> 1) ^ (0xedb8_8320 & mask);
        }
    }
    !crc
}

/// A zip archive whose entries are stored without compression.
fn stored_zip(entries: &[(&str, &[u8])]) -> Vec<u8> {
    let mut out: Vec<u8> = Vec::new();
    let mut central: Vec<u8> = Vec::new();
    for (name, data) in entries {
        let offset = out.len() as u32;
        let crc = crc32(data);
        let header = |sig: u32, buf: &mut Vec<u8>, central: bool| {
            buf.extend_from_slice(&sig.to_le_bytes());
            if central {
                buf.extend_from_slice(&20u16.to_le_bytes());
            }
            buf.extend_from_slice(&20u16.to_le_bytes());
            buf.extend_from_slice(&0u16.to_le_bytes());
            buf.extend_from_slice(&0u16.to_le_bytes());
            buf.extend_from_slice(&0u16.to_le_bytes());
            buf.extend_from_slice(&33u16.to_le_bytes());
            buf.extend_from_slice(&crc.to_le_bytes());
            buf.extend_from_slice(&(data.len() as u32).to_le_bytes());
            buf.extend_from_slice(&(data.len() as u32).to_le_bytes());
            buf.extend_from_slice(&(name.len() as u16).to_le_bytes());
            buf.extend_from_slice(&0u16.to_le_bytes());
        };
        header(0x0403_4b50, &mut out, false);
        out.extend_from_slice(name.as_bytes());
        out.extend_from_slice(data);
        header(0x0201_4b50, &mut central, true);
        central.extend_from_slice(&0u16.to_le_bytes());
        central.extend_from_slice(&0u16.to_le_bytes());
        central.extend_from_slice(&0u16.to_le_bytes());
        central.extend_from_slice(&0u32.to_le_bytes());
        central.extend_from_slice(&offset.to_le_bytes());
        central.extend_from_slice(name.as_bytes());
    }
    let cd_offset = out.len() as u32;
    out.extend_from_slice(&central);
    out.extend_from_slice(&0x0605_4b50u32.to_le_bytes());
    out.extend_from_slice(&0u16.to_le_bytes());
    out.extend_from_slice(&0u16.to_le_bytes());
    out.extend_from_slice(&(entries.len() as u16).to_le_bytes());
    out.extend_from_slice(&(entries.len() as u16).to_le_bytes());
    out.extend_from_slice(&(central.len() as u32).to_le_bytes());
    out.extend_from_slice(&cd_offset.to_le_bytes());
    out.extend_from_slice(&0u16.to_le_bytes());
    out
}

const CONTAINER: &str = r#"<?xml version="1.0"?>
<container version="1.0" xmlns="urn:oasis:names:tc:opendocument:xmlns:container">
<rootfiles><rootfile full-path="OEBPS/content.opf" media-type="application/oebps-package+xml"/></rootfiles>
</container>"#;

struct Layout<'a> {
    title: Option<&'a str>,
    identifier: &'a str,
    chapters: &'a [(&'a str, &'a str)],
    toc: &'a [(&'a str, &'a str)],
}

/// An EPUB 2 archive: chapters are (file name, text), toc entries (label, target).
fn epub(spec: &Layout) -> Vec<u8> {
    let mut items = String::new();
    let mut spine = String::new();
    for (k, (file, _)) in spec.chapters.iter().enumerate() {
        items.push_str(&format!(
            "<item id=\"c{}\" href=\"{}\" media-type=\"application/xhtml+xml\"/>",
            k, file
        ));
        spine.push_str(&format!("<itemref idref=\"c{}\"/>", k));
    }
    let title = match spec.title {
        Some(t) => format!("<dc:title>{}</dc:title>", t),
        None => String::new(),
    };
    let opf = format!(
        r#"<?xml version="1.0"?>
<package xmlns="http://www.idpf.org/2007/opf" version="2.0" unique-identifier="bookid">
<metadata xmlns:dc="http://purl.org/dc/elements/1.1/">
<dc:identifier id="bookid">{}</dc:identifier><dc:language>en</dc:language>{}<dc:creator>Ann</dc:creator>
</metadata>
<manifest>{}<item id="ncx" href="toc.ncx" media-type="application/x-dtbncx+xml"/></manifest>
<spine toc="ncx">{}</spine>
</package>"#,
        spec.identifier, title, items, spine
    );
    let mut nav = String::new();
    for (k, (label, target)) in spec.toc.iter().enumerate() {
        nav.push_str(&format!(
            "<navPoint id=\"n{}\" playOrder=\"{}\"><navLabel><text>{}</text></navLabel><content src=\"{}\"/></navPoint>",
            k,
            k + 1,
            label,
            target
        ));
    }
    let ncx = format!(
        r#"<?xml version="1.0"?>
<ncx xmlns="http://www.daisy.org/z3986/2005/ncx/" version="2005-1"><head></head>
<docTitle><text>Book</text></docTitle><navMap>{}</navMap></ncx>"#,
        nav
    );
    let names: Vec<String> = spec.chapters.iter().map(|(f, _)| format!("OEBPS/{}", f)).collect();
    let mut entries: Vec<(&str, &[u8])> = vec![
        ("mimetype", b"application/epub+zip"),
        ("META-INF/container.xml", CONTAINER.as_bytes()),
        ("OEBPS/content.opf", opf.as_bytes()),
        ("OEBPS/toc.ncx", ncx.as_bytes()),
    ];
    for (k, (_, text)) in spec.chapters.iter().enumerate() {
        entries.push((names[k].as_str(), text.as_bytes()));
    }
    stored_zip(&entries)
}

const ONE: &str = "<html><body><p>one</p></body></html>";
const TWO: &str = "<html><body><p>two</p></body></html>";

fn sample(identifier: &str) -> Vec<u8> {
    epub(&Layout {
        title: Some("Test Book"),
        identifier,
        chapters: &[("c1.xhtml", ONE), ("c 2.xhtml", TWO)],
        toc: &[("One", "c1.xhtml"), ("Two", "c 2.xhtml#part")],
    })
}

fn hash_of(bytes: &[u8]) -> String {
    blake3::hash(bytes).to_string()
}

fn decompress(c: &ereader::ingest::Chapter) -> String {
    String::from_utf8(zstd::stream::decode_all(c.content.as_slice()).unwrap()).unwrap()
}

#[test]
fn epub_becomes_book_chapters_and_toc() {
    let bytes = sample("urn:test:1");
    let (book, chapters, toc) = process_epub(hash_of(&bytes), bytes.clone()).expect("parses");
    assert_eq!(book.title, "Test Book");
    assert_eq!(book.identifier, "urn:test:1");
    assert_eq!(book.language, "en");
    assert_eq!(book.creator, Some("Ann".to_string()));
    assert_eq!(book.publisher, None);
    assert_eq!(book.hash, hash_of(&bytes));
    assert_eq!(book.id, uuid::Uuid::new_v5(&uuid::Uuid::nil(), &bytes).as_u128());
    assert_ne!(book.id, 0);
    assert_eq!(chapters.len(), 2);
    assert_eq!(chapters[0].index, 1);
    assert_eq!(chapters[1].index, 2);
    assert_eq!(decompress(&chapters[0]), ONE);
    assert_eq!(decompress(&chapters[1]), TWO);
    assert_ne!(chapters[0].content, ONE.as_bytes());
    let ns = uuid::Uuid::from_u128(book.id);
    assert_eq!(chapters[1].id, uuid::Uuid::new_v5(&ns, TWO.as_bytes()).as_u128());
    assert_eq!(toc.len(), 2);
    assert_eq!(toc[0].title, "One");
    assert_eq!(toc[0].index, 0);
    assert_eq!(toc[0].chapter_id, chapters[0].id);
    assert_eq!(toc[1].title, "Two");
    assert_eq!(toc[1].index, 1);
    assert_eq!(toc[1].chapter_id, chapters[1].id);
    assert!(toc.iter().all(|t| t.book_id == book.id));
}

#[test]
fn identical_bytes_give_identical_ids() {
    let bytes = sample("urn:test:1");
    let (b1, c1, _) = process_epub(hash_of(&bytes), bytes.clone()).unwrap();
    let (b2, c2, _) = process_epub(hash_of(&bytes), bytes.clone()).unwrap();
    assert_eq!(b1.id, b2.id);
    assert_eq!(c1[0].id, c2[0].id);
    assert_eq!(c1[1].id, c2[1].id);
    let other = sample("urn:test:2");
    let (b3, c3, _) = process_epub(hash_of(&other), other).unwrap();
    assert_ne!(b1.id, b3.id);
    assert_ne!(c1[0].id, c3[0].id);
}

#[test]
fn toc_target_outside_spine_is_an_error() {
    let bytes = epub(&Layout {
        title: Some("T"),
        identifier: "urn:x",
        chapters: &[("c1.xhtml", ONE)],
        toc: &[("Lost", "missing.xhtml")],
    });
    let r = process_epub(hash_of(&bytes), bytes);
    assert!(matches!(r, Err(IngestError::UnresolvableTocReference)));
}

#[test]
fn missing_title_is_an_error() {
    let bytes = epub(&Layout {
        title: None,
        identifier: "urn:x",
        chapters: &[("c1.xhtml", ONE)],
        toc: &[("One", "c1.xhtml")],
    });
    match process_epub(hash_of(&bytes), bytes) {
        Err(IngestError::MissingMetadata(tag)) => assert_eq!(tag, "title"),
        other => panic!("unexpected {:?}", other),
    }
}

#[test]
fn garbage_is_a_malformed_archive() {
    let r = process_epub("h".to_string(), b"not a zip".to_vec());
    assert!(matches!(r, Err(IngestError::MalformedArchive)));
}

#[test]
fn rescanning_an_unchanged_tree_adds_nothing() {
    let a = sample("urn:a");
    let b = sample("urn:b");
    let mut scan = Ingest::new(Vec::new());
    assert!(scan.offer(a.clone()).is_none());
    assert!(scan.offer(a.clone()).is_none());
    assert!(scan.offer(b.clone()).is_none());
    let (books, failures) = scan.finish();
    assert!(failures.is_empty());
    assert_eq!(books.len(), 2);
    assert_eq!(books[0].0.hash, hash_of(&a));
    assert_eq!(books[1].0.hash, hash_of(&b));
    let stored: Vec<String> = books.iter().map(|b| b.0.hash.clone()).collect();
    let mut again = Ingest::new(stored);
    assert!(again.offer(b).is_none());
    assert!(again.offer(a).is_none());
    let (books, failures) = again.finish();
    assert!(books.is_empty());
    assert!(failures.is_empty());
}

#[test]
fn failures_are_kept_and_scan_goes_on() {
    let mut scan = Ingest::new(Vec::new());
    assert!(scan.offer(b"broken".to_vec()).is_none());
    assert!(scan.offer(sample("urn:ok")).is_none());
    let (books, failures) = scan.finish();
    assert_eq!(books.len(), 1);
    assert_eq!(failures.len(), 1);
    assert!(matches!(failures[0], IngestError::MalformedArchive));
}

#[test]
fn books_come_out_in_full_batches() {
    let mut scan = Ingest::new(Vec::new());
    let mut batches = Vec::new();
    for k in 0..(BATCH_SIZE + 1) {
        if let Some(batch) = scan.offer(sample(&format!("urn:n{}", k))) {
            batches.push(batch);
        }
    }
    assert_eq!(batches.len(), 1);
    assert_eq!(batches[0].len(), BATCH_SIZE);
    let (rest, _) = scan.finish();
    assert_eq!(rest.len(), 1);
}

#[test]
fn dedup_filter_accepts_each_new_hash_once() {
    let mut f = DedupFilter::new(vec!["old".to_string()]);
    assert!(!f.accept(&"old".to_string()));
    assert!(f.accept(&"new".to_string()));
    assert!(!f.accept(&"new".to_string()));
    assert!(f.accept(&"other".to_string()));
}

#[test]
fn scheme_prefixes_are_all_removed() {
    assert_eq!(strip_scheme("epub:///epub:///OEBPS/a.xhtml"), "OEBPS/a.xhtml");
    assert_eq!(strip_scheme("OEBPS/epub:///a"), "OEBPS/epub:///a");
    assert_eq!(strip_scheme(""), "");
}

#[test]
fn toc_target_resolution_checks_position() {
    let chapter_ids: Vec<u128> = vec![11, 12];
    assert!(matches!(resolve_toc_target(&chapter_ids, Some(1)), Ok(12)));
    assert!(matches!(
        resolve_toc_target(&chapter_ids, Some(2)),
        Err(IngestError::UnresolvableTocReference)
    ));
    assert!(matches!(
        resolve_toc_target(&chapter_ids, None),
        Err(IngestError::UnresolvableTocReference)
    ));
}

#[test]
fn required_metadata_names_the_missing_property() {
    assert_eq!(require_metadata("language", Some("en".to_string())).unwrap(), "en");
    match require_metadata("language", None) {
        Err(IngestError::MissingMetadata(t)) => assert_eq!(t, "language"),
        other => panic!("unexpected {:?}", other),
    }
}

#[test]
fn root_path_without_parent_is_malformed() {
    for root in ["", "/", "/./"] {
        let container = format!(
            r#"<?xml version="1.0"?><container xmlns="urn:oasis:names:tc:opendocument:xmlns:container"><rootfiles><rootfile full-path="{}" media-type="application/oebps-package+xml"/></rootfiles></container>"#,
            root
        );
        let bytes = stored_zip(&[
            ("mimetype", b"application/epub+zip"),
            ("META-INF/container.xml", container.as_bytes()),
        ]);
        let r = process_epub(hash_of(&bytes), bytes);
        assert!(matches!(r, Err(IngestError::MalformedArchive)));
    }
}

#[test]
fn missing_chapter_resource_is_an_error() {
    let mut bytes = sample("urn:gone");
    // rename the second chapter's entry so the spine points at nothing
    let needle = b"OEBPS/c 2.xhtml";
    let mut k = 0;
    while k + needle.len() <= bytes.len() {
        if &bytes[k..k + needle.len()] == needle {
            bytes[k + 6] = b'd';
        }
        k += 1;
    }
    let r = process_epub(hash_of(&bytes), bytes);
    assert!(matches!(r, Err(IngestError::MissingResource)));
}
