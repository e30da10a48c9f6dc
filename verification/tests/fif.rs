use file_index::fif::format::{FifError, Region};
use file_index::fif::reader::{
    binary_contains, compare_bytes, retain_found, FifReader, Order, Request, Step,
};
use file_index::fif::{reserve_header, reserve_offsets, try_from_inverted_index};
use file_index::index::InvertedIndex;

fn u32_fields(bytes: &[u8]) -> Vec<u32> {
    bytes
        .chunks_exact(std::mem::size_of::<u32>())
        .map(|field| u32::from_le_bytes(field.try_into().unwrap()))
        .collect()
}

fn index_of(paths: &[&str]) -> InvertedIndex {
    let paths: Vec<String> = paths.iter().map(|p| p.to_string()).collect();
    InvertedIndex::from_paths(&paths)
}

/// Opens a reader on a file held in `bytes`, handing it the header's bytes.
fn open_reader(bytes: Vec<u8>) -> Result<FifReader, FifError> {
    let head = bytes[..bytes.len().min(32)].to_vec();
    FifReader::new(head, bytes.len() as u64)
}

/// Answers a reader's requests from bytes in memory, and counts them.
struct Loaded {
    reader: FifReader,
    bytes: Vec<u8>,
    requests: std::cell::RefCell<Vec<Request>>,
}

impl Loaded {
    fn answer(&self, request: Request) -> Vec<u8> {
        self.requests.borrow_mut().push(request);
        let start = request.offset as usize;
        self.bytes[start..start + request.len as usize].to_vec()
    }

    fn run<T>(&self, mut step: impl FnMut(Vec<u8>) -> Step<T>) -> T {
        let mut reply = Vec::new();
        loop {
            match step(reply) {
                Step::Read(request) => reply = self.answer(request),
                Step::Done(result) => return result,
            }
        }
    }

    fn document(&self, index: u32) -> Result<Option<String>, FifError> {
        let mut task = self.reader.document(index);
        self.run(|reply| task.step(reply))
    }

    fn term(&self, index: u32) -> Result<Option<String>, FifError> {
        let mut task = self.reader.term(index);
        self.run(|reply| task.step(reply))
    }

    fn postings(&self, term_index: u32) -> Result<Option<Vec<u32>>, FifError> {
        let mut task = self.reader.postings(term_index);
        self.run(|reply| task.step(reply))
    }

    fn find_term(&self, needle: &str) -> Result<Option<u32>, FifError> {
        let mut task = self.reader.find_term(needle);
        self.run(|reply| task.step(reply))
    }

    fn postings_for_term(&self, term: &str) -> Result<Option<Vec<u32>>, FifError> {
        let mut task = self.reader.postings_for_term(term);
        self.run(|reply| task.step(reply))
    }

    fn and_search(&self, query_terms: &[String]) -> Result<Vec<u32>, FifError> {
        let mut task = self.reader.and_search(query_terms);
        self.run(|reply| task.step(reply))
    }
}

fn loaded(bytes: Vec<u8>) -> Loaded {
    let reader = open_reader(bytes.clone()).unwrap();
    Loaded { reader, bytes, requests: std::cell::RefCell::new(Vec::new()) }
}

fn reader_of(paths: &[&str]) -> Loaded {
    loaded(try_from_inverted_index(&index_of(paths)).unwrap())
}

#[test]
fn reserves_fif_header() {
    let mut bytes = Vec::new();

    reserve_header(&mut bytes);

    assert_eq!(
        bytes,
        [
            b'F', b'I', b'F', 0, // magic
            1, 0, 0, 0, // version
            0, 0, 0, 0, // Document Count
            32, 0, 0, 0, // Document Table Offset
            0, 0, 0, 0, // Term Count
            0, 0, 0, 0, // Term Table Offset
            0, 0, 0, 0, // Postings Count
            0, 0, 0, 0, // Postings Table Offset
        ]
    );
}

#[test]
fn reserves_offsets_section() {
    let mut document_offsets = Vec::new();
    let mut term_offsets = Vec::new();
    let mut posting_offsets = Vec::new();

    reserve_offsets(&mut document_offsets, 3, 1);
    reserve_offsets(&mut term_offsets, 5, 1);
    reserve_offsets(&mut posting_offsets, 7, 2);

    assert_eq!(document_offsets, vec![0; 3 * std::mem::size_of::<u32>()]);
    assert_eq!(term_offsets, vec![0; 5 * std::mem::size_of::<u32>()]);
    assert_eq!(posting_offsets, vec![0; 7 * 2 * std::mem::size_of::<u32>()]);
}

#[test]
fn empty_binary_index_format() {
    let index = InvertedIndex::default();
    let bytes = try_from_inverted_index(&index).unwrap();

    assert_eq!(bytes.len(), 32);
    assert_eq!(&bytes[0..4], b"FIF\0");

    let fields = u32_fields(&bytes[4..]);

    assert_eq!(fields, [1, 0, 32, 0, 0, 0, 0]);
}

#[test]
fn reads_empty_encoded_index() {
    let bytes = try_from_inverted_index(&InvertedIndex::default()).unwrap();
    let reader = loaded(bytes);

    assert_eq!(reader.document(0), Ok(None));
    assert_eq!(reader.term(0), Ok(None));
}

#[test]
fn reads_documents_terms_and_postings_from_encoder() {
    let directory = "/tmp/file-index-reader-1700000000";
    let reader = reader_of(&[
        &format!("{directory}/alpha.txt"),
        &format!("{directory}/beta.txt"),
    ]);

    let txt_index = reader.find_term("txt").unwrap().unwrap();
    assert_eq!(reader.term(txt_index).unwrap().as_deref(), Some("txt"));
    let postings = reader.postings_for_term("txt").unwrap().unwrap();
    assert_eq!(postings.len(), 2);
    for posting in postings {
        assert!(reader.document(posting).unwrap().unwrap().ends_with(".txt"));
    }
    assert_eq!(reader.and_search(&["txt".into()]).unwrap().len(), 2);
    assert!(
        reader
            .and_search(&["txt".into(), "missing".into()])
            .unwrap()
            .is_empty()
    );
    assert_eq!(reader.postings_for_term("missing").unwrap(), None);
    assert_eq!(reader.document(2).unwrap(), None);
}

#[test]
fn rejects_invalid_magic() {
    let mut bytes = vec![0; 32];
    bytes[..4].copy_from_slice(b"NOPE");

    let error = open_reader(bytes).err().unwrap();
    assert_eq!(error, FifError::NotFif);
}

#[test]
fn encodes_the_exact_layout() {
    // Documents "a/x" and "b/x": terms a, b, x in byte order.
    let bytes = try_from_inverted_index(&index_of(&["a/x", "b/x"])).unwrap();
    let header = u32_fields(&bytes[4..32]);
    // version, 2 documents at 32, 3 terms at 40, 3 posting lists at 52
    assert_eq!(header, [1, 2, 32, 3, 40, 3, 52]);
    // Strings start at 32 + 8 + 12 + 24 = 76.
    assert_eq!(u32_fields(&bytes[32..40]), [76, 80]);
    assert_eq!(&bytes[76..84], b"a/x\0b/x\0");
    assert_eq!(u32_fields(&bytes[40..52]), [84, 86, 88]);
    assert_eq!(&bytes[84..90], b"a\0b\0x\0");
    // Lists: a -> [0], b -> [1], x -> [0, 1].
    assert_eq!(u32_fields(&bytes[52..76]), [90, 1, 94, 1, 98, 2]);
    assert_eq!(u32_fields(&bytes[90..]), [0, 1, 0, 1]);
    assert_eq!(bytes.len(), 106);
}

#[test]
fn reads_back_every_document_term_and_posting_list() {
    let reader = reader_of(&["/docs/Report.pdf", "/docs/notes/report.txt", "/music/song.mp3"]);
    assert_eq!(reader.document(0).unwrap().as_deref(), Some("/docs/Report.pdf"));
    assert_eq!(reader.document(1).unwrap().as_deref(), Some("/docs/notes/report.txt"));
    assert_eq!(reader.document(2).unwrap().as_deref(), Some("/music/song.mp3"));
    assert_eq!(reader.document(3).unwrap(), None);
    let terms: Vec<String> = (0..)
        .map(|i| reader.term(i).unwrap())
        .take_while(|t| t.is_some())
        .map(|t| t.unwrap())
        .collect();
    assert_eq!(
        terms,
        ["docs", "mp3", "music", "notes", "pdf", "report", "song", "txt"]
    );
    assert_eq!(reader.postings(0).unwrap(), Some(vec![0, 1]));
    assert_eq!(reader.postings(5).unwrap(), Some(vec![0, 1]));
    assert_eq!(reader.postings(7).unwrap(), Some(vec![1]));
    assert_eq!(reader.postings(8).unwrap(), None);
}

#[test]
fn finds_every_term_and_nothing_else() {
    let reader = reader_of(&["/docs/Report.pdf", "/docs/notes/report.txt", "/music/song.mp3"]);
    assert_eq!(reader.find_term("docs"), Ok(Some(0)));
    assert_eq!(reader.find_term("pdf"), Ok(Some(4)));
    assert_eq!(reader.find_term("txt"), Ok(Some(7)));
    assert_eq!(reader.find_term("Report"), Ok(None));
    assert_eq!(reader.find_term("zzz"), Ok(None));
    assert_eq!(reader.find_term(""), Ok(None));
    assert_eq!(reader.postings_for_term("song").unwrap(), Some(vec![2]));
}

#[test]
fn and_search_intersects_posting_lists() {
    let reader = reader_of(&[
        "/docs/Report.pdf",
        "/docs/notes/report.txt",
        "/music/song.mp3",
        "/docs/report-2024.txt",
    ]);
    assert_eq!(reader.and_search(&["report".into()]).unwrap(), vec![0, 1, 3]);
    assert_eq!(
        reader.and_search(&["docs".into(), "txt".into()]).unwrap(),
        vec![1, 3]
    );
    assert_eq!(
        reader.and_search(&["txt".into(), "docs".into(), "notes".into()]).unwrap(),
        vec![1]
    );
    assert!(reader.and_search(&[]).unwrap().is_empty());
    assert!(reader.and_search(&["music".into(), "pdf".into()]).unwrap().is_empty());
    assert!(reader.and_search(&["nothing".into(), "docs".into()]).unwrap().is_empty());
}

#[test]
fn rejects_short_files() {
    assert_eq!(open_reader(vec![]).err(), Some(FifError::UnexpectedEof));
    assert_eq!(open_reader(b"FI".to_vec()).err(), Some(FifError::UnexpectedEof));
    assert_eq!(open_reader(b"FIF\0\x01".to_vec()).err(), Some(FifError::UnexpectedEof));
    assert_eq!(open_reader(b"NOT".to_vec()).err(), Some(FifError::UnexpectedEof));
    assert_eq!(open_reader(b"NOTFIF".to_vec()).err(), Some(FifError::NotFif));
}

fn header(fields: [u32; 7]) -> Vec<u8> {
    let mut bytes = b"FIF\0".to_vec();
    for field in fields {
        bytes.extend_from_slice(&field.to_le_bytes());
    }
    bytes
}

#[test]
fn rejects_other_versions() {
    assert_eq!(
        open_reader(header([2, 0, 32, 0, 0, 0, 0])).err(),
        Some(FifError::UnsupportedVersion(2))
    );
}

#[test]
fn rejects_differing_term_and_posting_counts() {
    assert_eq!(
        open_reader(header([1, 0, 32, 1, 0, 0, 0])).err(),
        Some(FifError::CountMismatch)
    );
}

#[test]
fn rejects_tables_inside_the_header_or_past_the_end() {
    assert_eq!(
        open_reader(header([1, 1, 8, 0, 0, 0, 0])).err(),
        Some(FifError::InvalidTableOffset(Region::DocumentTable))
    );
    assert_eq!(
        open_reader(header([1, 1, 32, 0, 0, 0, 0])).err(),
        Some(FifError::OutOfBounds(Region::DocumentTable))
    );
    assert_eq!(
        open_reader(header([1, 0, 32, 1, 31, 1, 32])).err(),
        Some(FifError::InvalidTableOffset(Region::TermTable))
    );
    let mut bytes = header([1, 0, 32, 1, 32, 1, 36]);
    bytes.extend_from_slice(&[0; 8]);
    assert_eq!(
        open_reader(bytes).err(),
        Some(FifError::OutOfBounds(Region::PostingTable))
    );
    // An empty table may lie anywhere.
    assert!(open_reader(header([1, 0, 0, 0, 0, 0, 0])).is_ok());
}

#[test]
fn reports_broken_strings_and_lists() {
    // One document, one term and its posting list.
    let mut bytes = header([1, 1, 32, 1, 36, 1, 40]);
    bytes.extend_from_slice(&48u32.to_le_bytes()); // document 0 at 48
    bytes.extend_from_slice(&56u32.to_le_bytes()); // term 0 at 56
    bytes.extend_from_slice(&52u32.to_le_bytes()); // list 0 at 52
    bytes.extend_from_slice(&3u32.to_le_bytes()); // of 3 ids
    bytes.extend_from_slice(b"ab\xff\0"); // 48: not UTF-8
    bytes.extend_from_slice(&7u32.to_le_bytes()); // 52: the only id stored
    bytes.extend_from_slice(b"xyzw"); // 56: no terminating zero
    let reader = loaded(bytes);
    assert_eq!(reader.document(0), Err(FifError::InvalidUtf8));
    assert_eq!(reader.term(0), Err(FifError::Unterminated));
    assert_eq!(reader.postings(0), Err(FifError::OutOfBounds(Region::PostingList)));
    assert_eq!(reader.find_term("xyz"), Err(FifError::Unterminated));
    assert_eq!(reader.and_search(&["xyz".into()]), Err(FifError::Unterminated));
}

#[test]
fn reports_offsets_past_the_end() {
    let mut bytes = header([1, 1, 32, 0, 0, 0, 0]);
    bytes.extend_from_slice(&100u32.to_le_bytes());
    let reader = loaded(bytes);
    assert_eq!(reader.document(0), Err(FifError::OutOfBounds(Region::Text)));
}

#[test]
fn compares_bytes_lexicographically() {
    assert_eq!(compare_bytes(b"abc", b"abd"), Order::Less);
    assert_eq!(compare_bytes(b"abc", b"abc"), Order::Equal);
    assert_eq!(compare_bytes(b"abcd", b"abc"), Order::Greater);
    assert_eq!(compare_bytes(b"", b"a"), Order::Less);
    assert_eq!(compare_bytes(b"b", b"abc"), Order::Greater);
}

#[test]
fn binary_search_finds_exactly_the_ids_of_an_increasing_list() {
    let list = vec![1, 3, 5, 8, 13, 21];
    for x in 0..25 {
        assert_eq!(binary_contains(&list, x), list.contains(&x), "id {x}");
    }
    assert!(!binary_contains(&vec![], 0));
}

#[test]
fn retains_the_matches_found_in_a_posting_list() {
    assert_eq!(retain_found(&vec![0, 2, 4, 6], &vec![1, 2, 3, 6, 9]), vec![2, 6]);
    assert!(retain_found(&vec![0, 2], &vec![]).is_empty());
}

#[test]
fn term_lookup_reads_few_terms_and_never_the_whole_file() {
    let reader = reader_of(&["/docs/Report.pdf", "/docs/notes/report.txt", "/music/song.mp3"]);
    // Eight terms: a lookup reads at most floor(log2 8) + 1 = 4 of them.
    for needle in ["docs", "mp3", "music", "notes", "pdf", "report", "song", "txt", "zzz", "", "a"] {
        reader.requests.borrow_mut().clear();
        reader.find_term(needle).unwrap();
        let requests = reader.requests.borrow();
        let entries = requests.iter().filter(|request| request.len == 4).count();
        assert!(entries >= 1 && entries <= 4, "{needle}: {entries} term entries read");
        let bytes_read: u64 = requests.iter().map(|request| request.len).sum();
        assert!(bytes_read < reader.bytes.len() as u64);
    }
}

#[test]
fn an_empty_term_table_is_never_read() {
    let reader = loaded(try_from_inverted_index(&InvertedIndex::default()).unwrap());
    assert_eq!(reader.find_term("docs"), Ok(None));
    assert!(reader.requests.borrow().is_empty());
}

#[test]
fn and_search_ignores_query_order_and_repeats() {
    let reader = reader_of(&[
        "/docs/Report.pdf",
        "/docs/notes/report.txt",
        "/music/song.mp3",
        "/docs/report-2024.txt",
    ]);
    let forward = reader.and_search(&["docs".into(), "txt".into()]).unwrap();
    let backward = reader.and_search(&["txt".into(), "docs".into(), "txt".into()]).unwrap();
    assert_eq!(forward, vec![1, 3]);
    assert_eq!(backward, forward);
}

#[test]
fn another_query_term_only_narrows_the_matches() {
    let reader = reader_of(&[
        "/docs/Report.pdf",
        "/docs/notes/report.txt",
        "/music/song.mp3",
        "/docs/report-2024.txt",
    ]);
    let wide = reader.and_search(&["report".into()]).unwrap();
    let narrow = reader.and_search(&["report".into(), "txt".into()]).unwrap();
    assert_eq!(wide, vec![0, 1, 3]);
    assert_eq!(narrow, vec![1, 3]);
    let kept: Vec<u32> = wide.iter().copied().filter(|id| narrow.contains(id)).collect();
    assert_eq!(kept, narrow);
}

fn le(v: u32) -> Vec<u8> {
    v.to_le_bytes().to_vec()
}

#[test]
fn tasks_run_on_bytes_in_memory() {
    // Documents x and y; terms a < b; postings a: [0, 1], b: [1].
    let bytes = [
        b"FIF\0".to_vec(),
        le(1), le(2), le(32), le(2), le(40), le(2), le(48),
        le(64), le(66), le(68), le(70), le(72), le(2), le(80), le(1),
        b"x\0y\0a\0b\0".to_vec(),
        le(0), le(1), le(1),
    ]
    .concat();
    let reader = open_reader(bytes.clone()).unwrap();
    assert_eq!(reader.document(0).run(&bytes), Ok(Some("x".to_string())));
    assert_eq!(reader.document(1).run(&bytes), Ok(Some("y".to_string())));
    assert_eq!(reader.document(2).run(&bytes), Ok(None));
    assert_eq!(reader.term(0).run(&bytes), Ok(Some("a".to_string())));
    assert_eq!(reader.term(1).run(&bytes), Ok(Some("b".to_string())));
    assert_eq!(reader.term(2).run(&bytes), Ok(None));
    assert_eq!(reader.postings(0).run(&bytes), Ok(Some(vec![0, 1])));
    assert_eq!(reader.find_term("b").run(&bytes), Ok(Some(1)));
    assert_eq!(reader.postings_for_term("b").run(&bytes), Ok(Some(vec![1])));
    assert_eq!(reader.and_search(&["a".into(), "b".into()]).run(&bytes), Ok(vec![1]));
}

#[test]
fn a_read_past_the_end_finishes_without_asking() {
    let bytes = try_from_inverted_index(&index_of(&["/a/b.txt"])).unwrap();
    let reader = open_reader(bytes).unwrap();
    assert!(matches!(reader.document(1).step(Vec::new()), Step::Done(Ok(None))));
    assert!(matches!(reader.term(99).step(Vec::new()), Step::Done(Ok(None))));
    assert!(matches!(reader.postings(99).step(Vec::new()), Step::Done(Ok(None))));
}

#[test]
fn a_string_without_terminator_is_an_error() {
    let bytes = [b"FIF\0".to_vec(), le(1), le(1), le(32), le(0), le(0), le(0), le(0), le(36), b"ab".to_vec()].concat();
    let reader = open_reader(bytes.clone()).unwrap();
    assert_eq!(reader.document(0).run(&bytes), Err(FifError::Unterminated));
}
