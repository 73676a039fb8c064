use declarative_dataflow::{PlainFile, Source};

#[test]
fn plain_file_location() {
    let s = Source::PlainFile(PlainFile { path: "facts.txt".to_string() });
    assert_eq!(s.location(), "facts.txt");
}
