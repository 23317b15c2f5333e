use house::err::Error;
use house::query::{Queryable, StrEquals, Term};
use house::utils::{bytes_to_u64, u64_to_bytes};
use house::{Object, Store};

#[derive(Debug, Clone, PartialEq)]
struct Book {
    title: String,
    page_count: u32,
}

impl Queryable for Book {
    fn query_terms(&self) -> Vec<Term<'_>> {
        vec![Term { field: "title", value: self.title.as_bytes() }]
    }

    fn encode(&self) -> Result<Vec<u8>, Error> {
        if self.title.len() > 255 {
            return Err(Error::Custom(String::from("title too long")));
        }
        let mut out = Vec::new();
        out.push(self.title.len() as u8);
        out.extend_from_slice(self.title.as_bytes());
        out.extend_from_slice(&self.page_count.to_be_bytes());
        Ok(out)
    }

    fn decode(bytes: &[u8]) -> Result<Self, Error> {
        if bytes.is_empty() {
            return Err(Error::Custom(String::from("empty")));
        }
        let n = bytes[0] as usize;
        if bytes.len() != 1 + n + 4 {
            return Err(Error::Custom(String::from("bad length")));
        }
        let title = String::from_utf8(bytes[1..1 + n].to_vec())
            .map_err(|_| Error::Custom(String::from("bad utf8")))?;
        let mut pc = [0u8; 4];
        pc.copy_from_slice(&bytes[1 + n..]);
        Ok(Book { title, page_count: u32::from_be_bytes(pc) })
    }
}

/// A record whose encoding always fails, to observe that a failed
/// create leaves no partial state behind.
#[derive(Debug, Clone)]
struct Broken;

impl Queryable for Broken {
    fn query_terms(&self) -> Vec<Term<'_>> {
        vec![Term { field: "x", value: b"y" }]
    }

    fn encode(&self) -> Result<Vec<u8>, Error> {
        Err(Error::Custom(String::from("cannot encode")))
    }

    fn decode(_bytes: &[u8]) -> Result<Self, Error> {
        Ok(Broken)
    }
}

fn open_store<T: Queryable>(names: (&[u8], &[u8])) -> Store<T> {
    let db = sled::Config::new().temporary(true).open().unwrap();
    let tree = db.open_tree(names.0).unwrap();
    let meta = db.open_tree(names.1).unwrap();
    Store::new(db, tree, meta).unwrap()
}

#[test]
fn identifier_round_trip() {
    for v in [0u64, 1, 200, 255, 256, 65535, 1 << 40, u64::MAX] {
        let bytes = u64_to_bytes(v);
        assert_eq!(bytes_to_u64(&bytes).unwrap(), v);
    }
    assert_eq!(u64_to_bytes(1), [0, 0, 0, 0, 0, 0, 0, 1]);
    assert_eq!(bytes_to_u64(&[0, 0, 0, 0, 0, 0, 1, 0]).unwrap(), 256);
}

#[test]
fn identifier_wrong_length_is_custom_error() {
    match bytes_to_u64(&[1, 2, 3]) {
        Err(Error::Custom(_)) => (),
        other => panic!("expected a custom error, got {:?}", other.is_ok()),
    }
}

#[test]
fn create_then_find_round_trips() {
    let store: Store<Book> = open_store((b"books", b"books_meta"));
    let book = Book { title: String::from("The Great Gatsby"), page_count: 200 };
    let mut store = store;
    let id = store.create(&book).unwrap();
    let found = store.find(id).unwrap().unwrap();
    assert_eq!(found.id, id);
    assert_eq!(*found.record(), book);
    assert!(store.find(id + 1).unwrap().is_none());
}

#[test]
fn scenario_update_moves_query_results() {
    let mut store: Store<Book> = open_store((b"books", b"books_meta"));
    let book = Book { title: String::from("The Great Gatsby"), page_count: 200 };
    let id1 = store.create(&book).unwrap();

    let found = store.find(id1).unwrap().unwrap();
    assert_eq!(*found.record(), book);

    let mut obj = Object { id: id1, inner: book };
    obj.inner.title = String::from("The Greatest");
    store.update(&obj).unwrap();

    let old_hits =
        store.filter(StrEquals("title", "The Great Gatsby")).unwrap().all().unwrap();
    assert!(old_hits.is_empty());

    let new_hits = store.filter(StrEquals("title", "The Greatest")).unwrap().all().unwrap();
    assert_eq!(new_hits.len(), 1);
    assert_eq!(new_hits[0].id, id1);
    assert_eq!(new_hits[0].record().title, "The Greatest");

    let first = store.filter(StrEquals("title", "The Greatest")).unwrap().first().unwrap();
    assert_eq!(first.unwrap().id, id1);
    let none = store.filter(StrEquals("title", "The Great Gatsby")).unwrap().first().unwrap();
    assert!(none.is_none());
}

#[test]
fn index_matches_exactly_the_records_with_the_value() {
    let mut store: Store<Book> = open_store((b"books", b"books_meta"));
    let a = store.create(&Book { title: String::from("dune"), page_count: 1 }).unwrap();
    let b = store.create(&Book { title: String::from("dune"), page_count: 2 }).unwrap();
    let c = store.create(&Book { title: String::from("emma"), page_count: 3 }).unwrap();

    let mut dune: Vec<u64> = store
        .filter(StrEquals("title", "dune"))
        .unwrap()
        .all()
        .unwrap()
        .iter()
        .map(|o| o.id)
        .collect();
    dune.sort();
    let mut expected = vec![a, b];
    expected.sort();
    assert_eq!(dune, expected);

    let emma = store.filter(StrEquals("title", "emma")).unwrap().all().unwrap();
    assert_eq!(emma.len(), 1);
    assert_eq!(emma[0].id, c);

    let nobody = store.filter(StrEquals("title", "persuasion")).unwrap().all().unwrap();
    assert!(nobody.is_empty());
}

#[test]
fn update_multi_commits_every_object() {
    let mut store: Store<Book> = open_store((b"books", b"books_meta"));
    let a = store.create(&Book { title: String::from("one"), page_count: 1 }).unwrap();
    let b = store.create(&Book { title: String::from("two"), page_count: 2 }).unwrap();
    let objs = vec![
        Object { id: a, inner: Book { title: String::from("uno"), page_count: 1 } },
        Object { id: b, inner: Book { title: String::from("dos"), page_count: 2 } },
    ];
    store.update_multi(&objs).unwrap();

    assert_eq!(store.find(a).unwrap().unwrap().record().title, "uno");
    assert_eq!(store.find(b).unwrap().unwrap().record().title, "dos");
    assert!(store.filter(StrEquals("title", "one")).unwrap().all().unwrap().is_empty());
    let uno = store.filter(StrEquals("title", "uno")).unwrap().all().unwrap();
    assert_eq!(uno.len(), 1);
    assert_eq!(uno[0].id, a);

    let everything = store.all().unwrap();
    assert_eq!(everything.len(), 2);
    let mut ids: Vec<u64> = everything.iter().map(|o| o.id).collect();
    ids.sort();
    let mut expected = vec![a, b];
    expected.sort();
    assert_eq!(ids, expected);
}

#[test]
fn failed_create_leaves_no_partial_state() {
    let mut store: Store<Broken> = open_store((b"broken", b"broken_meta"));
    assert!(store.create(&Broken).is_err());
    assert!(store.all().unwrap().is_empty());
    assert!(store.filter(StrEquals("x", "y")).unwrap().all().unwrap().is_empty());
}

#[test]
fn update_on_unknown_identifier_establishes_it() {
    let mut store: Store<Book> = open_store((b"books", b"books_meta"));
    let obj = Object { id: 42, inner: Book { title: String::from("ghost"), page_count: 9 } };
    store.update(&obj).unwrap();
    let found = store.find(42).unwrap().unwrap();
    assert_eq!(found.record().title, "ghost");
    let hits = store.filter(StrEquals("title", "ghost")).unwrap().all().unwrap();
    assert_eq!(hits.len(), 1);
    assert_eq!(hits[0].id, 42);
}
