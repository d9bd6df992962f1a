use librarian::doc::{join, Doc, DocId};
use librarian::library::{Library, LibraryError};
use librarian::DocHash;

fn sample() -> (Library, DocId, DocId) {
    let mut lib = Library::with_root(String::from("root"));
    let a = lib
        .insert(Doc {
            title: String::from("Structure and Interpretation"),
            authors: vec![String::from("Abelson"), String::from("Sussman")],
            keywords: vec![String::from("lisp")],
            extension: String::from("pdf"),
            show: true,
            hash: DocHash::from_bytes(b"sicp"),
        })
        .unwrap();
    let b = lib
        .insert(Doc {
            title: String::from("The C Programming Language"),
            authors: vec![String::from("Kernighan"), String::from("Ritchie")],
            keywords: vec![],
            extension: String::from("epub"),
            show: true,
            hash: DocHash::from_bytes(b"knr"),
        })
        .unwrap();
    (lib, a, b)
}

#[test]
fn join_puts_separator_between() {
    let parts = vec![String::from("a"), String::from("b"), String::from("c")];
    assert_eq!(join(&parts, ", "), "a, b, c");
    assert_eq!(join(&vec![String::from("x")], ", "), "x");
    assert_eq!(join(&vec![], ", "), "");
}

#[test]
fn parse_identity() {
    assert_eq!(DocId::parse("0"), Some(DocId(0)));
    assert_eq!(DocId::parse("42"), Some(DocId(42)));
    assert_eq!(DocId::parse("+7"), Some(DocId(7)));
    assert_eq!(DocId::parse(""), None);
    assert_eq!(DocId::parse("+"), None);
    assert_eq!(DocId::parse("4a"), None);
    assert_eq!(DocId::parse("-1"), None);
    assert_eq!(DocId::parse(&usize::MAX.to_string()), Some(DocId(usize::MAX)));
    assert_eq!(DocId::parse("99999999999999999999999"), None);
}

#[test]
fn hash_from_hex() {
    let h = DocHash::from_bytes(b"abc");
    assert_eq!(DocHash::from_hex(&h.to_hex()), Some(h));
    assert_eq!(DocHash::from_hex(&h.to_hex().to_uppercase()), Some(h));
    assert_eq!(DocHash::from_hex(&h.to_hex()[..62]), None);
    assert_eq!(DocHash::from_hex(&"g".repeat(64)), None);
}

#[test]
fn metadata_of_visible_document() {
    let (mut lib, a, _) = sample();
    let m = lib.metadata(a).unwrap();
    assert_eq!(m.id, a);
    assert_eq!(m.name, "Structure and Interpretation");
    assert_eq!(m.description, "Abelson, Sussman");
    lib.remove(a).unwrap();
    assert_eq!(lib.metadata(a).err(), Some(LibraryError::NotFound));
}

#[test]
fn result_metas_in_order() {
    let (lib, a, b) = sample();
    let ms = lib.result_metas(&vec![String::from("1"), String::from("0")]).unwrap();
    assert_eq!(ms.len(), 2);
    assert_eq!(ms[0].id, b);
    assert_eq!(ms[1].id, a);
    assert_eq!(ms[0].description, "Kernighan, Ritchie");
    assert_eq!(
        lib.result_metas(&vec![String::from("0"), String::from("x")]).err(),
        Some(LibraryError::InvalidIdentity)
    );
    assert_eq!(lib.result_metas(&vec![String::from("5")]).err(), Some(LibraryError::NotFound));
}

#[test]
fn search_terms_joins_with_spaces() {
    let (lib, _, b) = sample();
    let terms = vec![String::from("c"), String::from("programming")];
    assert_eq!(lib.search_terms(&terms), lib.search("c programming"));
    assert!(lib.search_terms(&terms).contains(&b));
}

#[test]
fn keyword_and_author_fields_are_searched() {
    let (lib, a, b) = sample();
    assert_eq!(lib.search("lisp"), vec![a]);
    assert_eq!(lib.search("ritchie"), vec![b]);
    assert!(lib.search("zz").is_empty());
}
