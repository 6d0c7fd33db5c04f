use doc_search::indexing::DocumentIndex;
use doc_search::indexing::InputDocument;
use tantivy::postings::Postings;
use tantivy::schema::Field;
use tantivy::schema::IndexRecordOption;
use tantivy::schema::Schema;
use tantivy::schema::TextFieldIndexing;
use tantivy::schema::TextOptions;
use tantivy::schema::Value;
use tantivy::schema::STORED;
use tantivy::DocAddress;
use tantivy::DocSet;
use tantivy::Index;
use tantivy::IndexWriter;
use tantivy::Searcher;
use tantivy::TantivyDocument;
use tantivy::Term;
use tantivy::TERMINATED;

struct Engine {
    searcher: Searcher,
    place: Field,
    name: Field,
    contents: Field,
}

fn engine(docs: &Vec<InputDocument>, tokenizer: &str) -> Engine {
    let mut schema_builder = Schema::builder();
    let place = schema_builder.add_u64_field("place", STORED);
    let name = schema_builder.add_text_field("name", STORED);
    let terms = TextFieldIndexing::default()
        .set_tokenizer(tokenizer)
        .set_index_option(IndexRecordOption::WithFreqs);
    let contents = schema_builder.add_text_field("contents", TextOptions::default().set_indexing_options(terms));
    let index = Index::create_in_ram(schema_builder.build());

    let mut writer: IndexWriter = index.writer_with_num_threads(1, 50_000_000).unwrap();
    for (i, doc) in docs.iter().enumerate() {
        let mut entry = TantivyDocument::default();
        entry.add_u64(place, i as u64);
        entry.add_text(name, doc.name());
        entry.add_text(contents, doc.contents());
        writer.add_document(entry).unwrap();
    }
    writer.commit().unwrap();

    Engine { searcher: index.reader().unwrap().searcher(), place, name, contents }
}

fn answer(engine: &Engine, term: &str) -> Vec<(String, u64)> {
    let term = Term::from_field_text(engine.contents, term);
    let mut found: Vec<(u64, String, u64)> = Vec::new();
    for (segment, reader) in engine.searcher.segment_readers().iter().enumerate() {
        let inverted = reader.inverted_index(engine.contents).unwrap();
        if let Some(mut postings) = inverted.read_postings(&term, IndexRecordOption::WithFreqs).unwrap() {
            let mut doc_id = postings.doc();
            while doc_id != TERMINATED {
                let stored: TantivyDocument =
                    engine.searcher.doc(DocAddress::new(segment as u32, doc_id)).unwrap();
                let place = stored.get_first(engine.place).unwrap().as_u64().unwrap();
                let name = stored.get_first(engine.name).unwrap().as_str().unwrap().to_string();
                found.push((place, name, postings.term_freq() as u64));
                doc_id = postings.advance();
            }
        }
    }
    found.sort_by(|x, y| x.0.cmp(&y.0));
    found.into_iter().map(|x| (x.1, x.2)).collect()
}

fn space_travel() -> Vec<InputDocument> {
    vec![InputDocument::new("one",
                            "Consequently, spacecraft at warp velocity can continue to interact with objects in \"normal space\"."),
         InputDocument::new("two",
                            "The Hitchhiker's Guide to the Galaxy is a comedy science fiction series created by Douglas Adams."),
         InputDocument::new("three",
                            "The Infinite Improbability Drive is a faster-than-light drive. In the 2005 film, for instance, the first time the Improbability Drive is used, the entire ship, after traveling at extreme velocity, arrives at its destination, ends up as a giant ball of yarn for a few seconds, and the main characters are rendered as animated yarn dolls.")]
}

#[test]
fn index_answers_as_tantivy_does_with_terms_cut_at_white_space() {
    let docs = space_travel();
    let index = DocumentIndex::build_index(&docs).unwrap();
    let other = engine(&docs, "whitespace");

    for term in ["velocity", "velocity,", "the", "The", "is", "Drive", "drive.", "yarn", "a", "2005",
                 "faster-than-light", "\"normal", "space\".", "missing", "Velocity", ""] {
        assert_eq!(index.search(term), answer(&other, term));
    }
    assert_eq!(answer(&other, "velocity"), vec![("one".to_string(), 1)]);
    assert_eq!(answer(&other, "the"), vec![("two".to_string(), 1), ("three".to_string(), 5)]);
}

#[test]
fn index_answers_as_tantivy_does_on_a_made_up_corpus() {
    let mut docs = Vec::new();
    let mut seed: u64 = 2024;
    for d in 0..25 {
        let mut contents = String::new();
        for _ in 0..60 {
            seed = seed.wrapping_mul(6364136223846793005).wrapping_add(1442695040888963407);
            let word = (seed >> 33) % 17;
            let gap = ["  ", " ", "\t", "\n", " \r\n"][((seed >> 20) % 5) as usize];
            contents.push_str(&format!("t{}{}", word, gap));
        }
        docs.push(InputDocument::new(&format!("doc{}", d), &contents));
    }
    let index = DocumentIndex::build_index(&docs).unwrap();
    let other = engine(&docs, "whitespace");

    for word in 0..18 {
        let term = format!("t{}", word);
        assert_eq!(index.search(&term), answer(&other, &term));
    }
}

// With the terms that tantivy cuts when it is not told how, which end at
// punctuation and are folded to lower case, "velocity" is found in "three"
// as well, and "The" nowhere.
#[test]
fn tantivy_left_to_itself_cuts_terms_at_punctuation() {
    let docs = space_travel();
    let index = DocumentIndex::build_index(&docs).unwrap();
    let other = engine(&docs, "default");

    assert_eq!(answer(&other, "velocity"), vec![("one".to_string(), 1), ("three".to_string(), 1)]);
    assert_eq!(index.search("velocity"), vec![("one".to_string(), 1)]);

    assert_eq!(answer(&other, "The"), vec![]);
    assert_eq!(index.search("The"), vec![("two".to_string(), 1), ("three".to_string(), 1)]);
}

// Tantivy cuts at the white space of ASCII alone; the index cuts at every
// character that is white space.
#[test]
fn tantivy_cuts_at_ascii_white_space_only() {
    let docs = vec![InputDocument::new("wide", "alpha\u{a0}beta"),
                    InputDocument::new("plain", "alpha beta")];
    let index = DocumentIndex::build_index(&docs).unwrap();
    let other = engine(&docs, "whitespace");

    assert_eq!(answer(&other, "alpha"), vec![("plain".to_string(), 1)]);
    assert_eq!(answer(&other, "alpha\u{a0}beta"), vec![("wide".to_string(), 1)]);
    assert_eq!(index.search("alpha"), vec![("wide".to_string(), 1), ("plain".to_string(), 1)]);
    assert_eq!(index.search("alpha\u{a0}beta"), vec![]);
}
