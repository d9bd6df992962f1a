use librarian::doc::{Doc, DocId};
use librarian::library::{Library, LibraryError, DEFAULT_LIMIT};
use librarian::DocHash;

fn doc(title: &str, authors: &[&str], content: &[u8]) -> Doc {
    Doc {
        title: title.to_string(),
        authors: authors.iter().map(|a| a.to_string()).collect(),
        keywords: vec![],
        extension: String::from("pdf"),
        show: true,
        hash: DocHash::from_bytes(content),
    }
}

fn library() -> Library {
    Library::with_root(String::from("/tmp/books"))
}

#[test]
fn blake3_of_empty_input() {
    assert_eq!(
        DocHash::from_bytes(b"").to_hex(),
        "af1349b9f5f9a1a6a0404dea36dcc9499bcb25c9adc112b7cc9a93cae41f3262"
    );
}

#[test]
fn hex_spelling_of_hash() {
    let mut bytes = [0u8; 32];
    bytes[0] = 0xab;
    bytes[31] = 0x0f;
    let h = DocHash(bytes);
    let hex = h.to_hex();
    assert_eq!(hex.len(), 64);
    assert!(hex.starts_with("ab00"));
    assert!(hex.ends_with("000f"));
}

#[test]
fn filename_joins_hash_and_extension() {
    let d = Doc { hash: DocHash([0x11; 32]), ..doc("T", &[], b"x") };
    assert_eq!(d.filename(), format!("{}.pdf", "11".repeat(32)));
}

#[test]
fn insert_lowercases_extension() {
    let mut lib = library();
    let d = Doc { extension: String::from("PDF"), ..doc("Title", &[], b"content") };
    let id = lib.insert(d).unwrap();
    assert_eq!(lib.get(id).unwrap().extension, "pdf");
    let name = lib.file_name(id).unwrap();
    assert!(name.ends_with(".pdf"));
    assert_eq!(name.len(), 64 + 4);
}

#[test]
fn identities_are_sequential() {
    let mut lib = library();
    assert_eq!(lib.insert(doc("A", &[], b"a")).unwrap(), DocId(0));
    assert_eq!(lib.insert(doc("B", &[], b"b")).unwrap(), DocId(1));
    lib.remove(DocId(1)).unwrap();
    assert_eq!(lib.insert(doc("C", &[], b"c")).unwrap(), DocId(2));
}

#[test]
fn duplicate_content_is_refused() {
    let mut lib = library();
    lib.insert(doc("A", &[], b"same")).unwrap();
    assert_eq!(lib.insert(doc("B", &[], b"same")), Err(LibraryError::DuplicateDocument));
    assert_eq!(lib.documents().len(), 1);
}

#[test]
fn removed_content_can_be_stored_again() {
    let mut lib = library();
    let id = lib.insert(doc("A", &[], b"same")).unwrap();
    lib.remove(id).unwrap();
    assert_eq!(lib.insert(doc("A", &[], b"same")), Ok(DocId(1)));
}

#[test]
fn get_and_remove_unknown_identity() {
    let mut lib = library();
    assert_eq!(lib.get(DocId(0)).err(), Some(LibraryError::NotFound));
    assert_eq!(lib.remove(DocId(3)), Err(LibraryError::NotFound));
}

#[test]
fn inserted_document_found_by_title_substring() {
    let mut lib = library();
    let id = lib.insert(doc("Gödel, Escher, Bach", &["Hofstadter"], b"geb")).unwrap();
    lib.insert(doc("Unrelated", &["Nobody"], b"other")).unwrap();
    assert!(lib.search("escher").contains(&id));
    assert!(lib.search("ESCH").contains(&id));
    assert!(lib.search("Gödel").contains(&id));
}

#[test]
fn removed_document_is_not_found() {
    let mut lib = library();
    let id = lib.insert(doc("Structure and Interpretation", &["Abelson"], b"sicp")).unwrap();
    assert!(lib.search("structure").contains(&id));
    lib.remove(id).unwrap();
    assert!(!lib.search("structure").contains(&id));
    assert_eq!(lib.get(id).err(), Some(LibraryError::NotFound));
    assert_eq!(lib.remove(id), Err(LibraryError::NotFound));
    assert_eq!(lib.documents().len(), 1);
}

#[test]
fn reload_gives_same_results() {
    let mut lib = library();
    lib.insert(doc("The Art of Computer Programming", &["Knuth"], b"taocp")).unwrap();
    lib.insert(doc("Concrete Mathematics", &["Graham", "Knuth", "Patashnik"], b"cm")).unwrap();
    lib.insert(doc("Programming Pearls", &["Bentley"], b"pearls")).unwrap();
    let reloaded = Library::load(lib.root().clone(), lib.documents().clone());
    for q in ["knuth", "programming", "math", "pearls", "xyz"] {
        assert_eq!(lib.search_scored(q), reloaded.search_scored(q));
    }
    assert_eq!(reloaded.documents().len(), 3);
}

#[test]
fn load_skips_removed_documents() {
    let mut lib = library();
    let a = lib.insert(doc("Alpha Book", &[], b"a")).unwrap();
    let b = lib.insert(doc("Alpha Book", &[], b"b")).unwrap();
    lib.remove(a).unwrap();
    let reloaded = Library::load(lib.root().clone(), lib.documents().clone());
    assert_eq!(reloaded.search("alpha"), vec![b]);
    assert_eq!(reloaded.get(a).err(), Some(LibraryError::NotFound));
}

#[test]
fn search_limit_is_configurable() {
    let mut lib = library();
    for i in 0..15u8 {
        lib.insert(doc("Common Title", &[], &[i])).unwrap();
    }
    assert_eq!(lib.limit(), DEFAULT_LIMIT);
    assert_eq!(lib.search("common").len(), 10);
    lib.set_limit(3);
    assert_eq!(lib.search("common"), vec![DocId(0), DocId(1), DocId(2)]);
}

#[test]
fn scenario_two_classics() {
    let mut lib = library();
    let mut sicp = doc("Structure and Interpretation", &["Abelson", "Sussman"], b"sicp");
    let knr = doc("The C Programming Language", &["Kernighan", "Ritchie"], b"knr");
    // pick contents for the first document whose hash differs from the
    // second's in its first two hex digits
    let mut n: u32 = 0;
    while sicp.hash.to_hex()[..2] == knr.hash.to_hex()[..2] {
        n += 1;
        sicp.hash = DocHash::from_bytes(format!("sicp{}", n).as_bytes());
    }
    let id1 = lib.insert(sicp.clone()).unwrap();
    let id2 = lib.insert(knr).unwrap();
    assert_eq!(lib.search("prog"), vec![id2]);
    // "and" is a gram of the first title only
    assert_eq!(lib.search("and"), vec![id1]);
    assert_eq!(lib.get_hash(&sicp.hash.to_hex()[..2]), Ok(id1));
}

#[test]
fn scenario_shared_prefix_is_ambiguous() {
    let mut seen: std::collections::HashMap<String, Vec<u8>> = std::collections::HashMap::new();
    let mut pair = None;
    for i in 0u32..1_000_000 {
        let content = i.to_le_bytes().to_vec();
        let prefix = DocHash::from_bytes(&content).to_hex()[..4].to_string();
        if let Some(other) = seen.get(&prefix) {
            pair = Some((other.clone(), content));
            break;
        }
        seen.insert(prefix, content);
    }
    let (a, b) = pair.unwrap();
    let ha = DocHash::from_bytes(&a);
    let hb = DocHash::from_bytes(&b);
    let mut lib = library();
    let ida = lib.insert(doc("First", &[], &a)).unwrap();
    let idb = lib.insert(doc("Second", &[], &b)).unwrap();
    let prefix = ha.to_hex()[..4].to_string();
    assert_eq!(prefix, hb.to_hex()[..4]);
    assert_eq!(lib.get_hash(&prefix), Err(LibraryError::AmbiguousPrefix));
    assert_eq!(lib.get_hash(&ha.to_hex()), Ok(ida));
    assert_eq!(lib.get_hash(&hb.to_hex()), Ok(idb));
    assert_eq!(lib.get_hash(&ha.to_hex().to_uppercase()), Ok(ida));
}

#[test]
fn resolve_prefix_errors() {
    let mut lib = library();
    assert_eq!(lib.get_hash("ab"), Err(LibraryError::NotFound));
    let id = lib.insert(doc("Only", &[], b"only")).unwrap();
    let hex = lib.get(id).unwrap().hash.to_hex();
    assert_eq!(lib.get_hash(""), Ok(id));
    assert_eq!(lib.get_hash(&hex[..1]), Ok(id));
    assert_eq!(lib.get_hash(&hex[..5]), Ok(id));
    assert_eq!(lib.get_hash(&hex), Ok(id));
    assert_eq!(lib.get_hash("xyz"), Err(LibraryError::InvalidIdentity));
    assert_eq!(lib.get_hash(&format!("{}0", hex)), Err(LibraryError::InvalidIdentity));
    let other = if hex.starts_with('0') { "1" } else { "0" };
    assert_eq!(lib.get_hash(other), Err(LibraryError::NotFound));
    lib.remove(id).unwrap();
    assert_eq!(lib.get_hash(&hex), Err(LibraryError::NotFound));
}

#[test]
fn odd_length_prefix_selects_half_byte() {
    let mut lib = library();
    let mut bytes_a = [0u8; 32];
    bytes_a[0] = 0xa3;
    let mut bytes_b = [0u8; 32];
    bytes_b[0] = 0xa7;
    let da = Doc { hash: DocHash(bytes_a), ..doc("A", &[], b"") };
    let db = Doc { hash: DocHash(bytes_b), ..doc("B", &[], b"") };
    let ia = lib.insert(da).unwrap();
    let ib = lib.insert(db).unwrap();
    assert_eq!(lib.get_hash("a"), Err(LibraryError::AmbiguousPrefix));
    assert_eq!(lib.get_hash("a3"), Ok(ia));
    assert_eq!(lib.get_hash("A7"), Ok(ib));
    assert_eq!(lib.get_hash("a30"), Ok(ia));
    assert_eq!(lib.get_hash("a31"), Err(LibraryError::NotFound));
    assert_eq!(lib.get_hash("b"), Err(LibraryError::NotFound));
}
