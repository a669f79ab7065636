use cindex::format::{decode_index, encode_index};
use cindex::index::{Index, IndexError};
use cindex::merge::merge;
use cindex::planner::{plan, Regex};
use cindex::query::{evaluate, intersect, union, Query};
use cindex::trigram::{extract, ExtractConfig, SkipReason};
use cindex::writer::IndexWriter;

fn tri(s: &str) -> u32 {
    let b = s.as_bytes();
    ((b[0] as u32) << 16) | ((b[1] as u32) << 8) | (b[2] as u32)
}

fn build(files: &[(&str, &str)]) -> Index {
    let mut w = IndexWriter::new(ExtractConfig::standard());
    for (name, content) in files {
        w.add_file(name.as_bytes().to_vec(), content.as_bytes()).unwrap();
    }
    w.flush().unwrap()
}

fn names(ix: &Index) -> Vec<String> {
    ix.names.iter().map(|n| String::from_utf8(n.clone()).unwrap()).collect()
}

#[test]
fn two_files_share_a_trigram() {
    let ix = build(&[("a.txt", "hello world"), ("b.txt", "goodbye world")]);
    assert_eq!(ix.file_id(b"a.txt"), Some(0));
    assert_eq!(ix.file_id(b"b.txt"), Some(1));
    assert_eq!(ix.posting_list(tri("wor")), vec![0, 1]);
    assert_eq!(ix.posting_list(tri("hel")), vec![0]);
    assert_eq!(ix.posting_list(tri("zzz")), Vec::<u32>::new());
}

#[test]
fn every_trigram_of_a_file_lists_it() {
    let ix = build(&[("a", "abcd"), ("b", "bcde")]);
    assert_eq!(ix.posting_list(tri("abc")), vec![0]);
    assert_eq!(ix.posting_list(tri("bcd")), vec![0, 1]);
    assert_eq!(ix.posting_list(tri("cde")), vec![1]);
    for p in &ix.postings {
        assert!(p.ids.windows(2).all(|w| w[0] < w[1]));
    }
}

#[test]
fn oversized_file_is_skipped() {
    let cfg = ExtractConfig { max_file_len: 1_000_000, ..ExtractConfig::standard() };
    let mut w = IndexWriter::new(cfg);
    let big = vec![b'a'; 10 * 1024 * 1024];
    assert_eq!(
        w.add_file(b"big.bin".to_vec(), &big),
        Err(IndexError::Skipped(SkipReason::TooLarge))
    );
    w.add_file(b"small.txt".to_vec(), b"aaaa").unwrap();
    let ix = w.flush().unwrap();
    assert_eq!(names(&ix), vec!["small.txt".to_string()]);
    assert_eq!(ix.posting_list(tri("aaa")), vec![0]);
    assert_eq!(ix.file_id(b"big.bin"), None);
}

#[test]
fn skip_reasons() {
    let cfg = ExtractConfig { max_line_len: 4, ..ExtractConfig::standard() };
    assert_eq!(extract(b"abc\nabcde\n", &cfg), Err(SkipReason::LineTooLong));
    assert!(extract(b"abcd\nabcd", &cfg).is_ok());
    let cfg = ExtractConfig { max_trigram_count: 2, ..ExtractConfig::standard() };
    assert_eq!(extract(b"abcdef", &cfg), Err(SkipReason::TooManyTrigrams));
    assert_eq!(extract(b"abcd", &cfg), Ok(vec![tri("abc"), tri("bcd")]));
    let cfg = ExtractConfig::standard();
    assert_eq!(extract(&[0xff, 0xfe, 0xfd, 0xfc], &cfg), Err(SkipReason::InvalidEncoding));
}

#[test]
fn extraction_is_sorted_and_repeatable() {
    let cfg = ExtractConfig::standard();
    let first = extract(b"zyxwzyx", &cfg).unwrap();
    assert_eq!(first, vec![tri("wzy"), tri("xwz"), tri("yxw"), tri("zyx")]);
    assert_eq!(extract(b"zyxwzyx", &cfg), Ok(first));
    assert_eq!(extract(b"ab", &cfg), Ok(vec![]));
}

#[test]
fn invalid_pairs_break_trigrams() {
    let cfg = ExtractConfig { max_invalid_ppm: 1_000_000, ..ExtractConfig::standard() };
    let v = extract(&[b'a', b'b', 0x80, b'c', b'd', b'e'], &cfg).unwrap();
    assert_eq!(v, vec![tri("cde"), (0x80 << 16) | ((b'c' as u32) << 8) | (b'd' as u32)]);
}

#[test]
fn writer_rejects_misuse() {
    let mut w = IndexWriter::new(ExtractConfig::standard());
    assert_eq!(w.add_file(b"b".to_vec(), b"xyz"), Ok(0));
    assert_eq!(w.add_file(b"a".to_vec(), b"xyz"), Err(IndexError::OutOfOrder));
    assert_eq!(w.add_file(b"b".to_vec(), b"xyz"), Err(IndexError::OutOfOrder));
    assert!(w.flush().is_ok());
    assert!(matches!(w.flush(), Err(IndexError::AlreadyFlushed)));
    assert_eq!(w.add_file(b"c".to_vec(), b"xyz"), Err(IndexError::AlreadyFlushed));
}

#[test]
fn names_and_ids_round_trip() {
    let ix = build(&[("a", "one"), ("b", "two"), ("c", "three")]);
    for i in 0..3u32 {
        let n = ix.name(i).unwrap().clone();
        assert_eq!(ix.file_id(&n), Some(i));
    }
    assert_eq!(ix.name(3), Err(IndexError::NotFound));
    assert_eq!(names(&ix), vec!["a", "b", "c"]);
}

#[test]
fn paths_are_recorded() {
    let mut w = IndexWriter::new(ExtractConfig::standard());
    w.add_paths(vec![b"/src".to_vec(), b"/usr/include".to_vec()]);
    let ix = w.flush().unwrap();
    assert_eq!(ix.paths, vec![b"/src".to_vec(), b"/usr/include".to_vec()]);
}

#[test]
fn merge_renumbers_in_name_order() {
    let a = build(&[("a", "alpha"), ("c", "gamma")]);
    let b = build(&[("b", "beta alpha"), ("d", "delta")]);
    let m = merge(&a, &b).unwrap();
    assert_eq!(names(&m.index), vec!["a", "b", "c", "d"]);
    assert_eq!(m.renumber_a, vec![0, 2]);
    assert_eq!(m.renumber_b, vec![1, 3]);
    assert_eq!(m.index.posting_list(tri("alp")), vec![0, 1]);
    assert_eq!(m.index.posting_list(tri("gam")), vec![2]);
    assert_eq!(m.index.posting_list(tri("del")), vec![3]);
    assert_eq!(m.index.posting_list(tri("lta")), vec![3]);
}

#[test]
fn merge_equals_building_over_the_union() {
    let a = build(&[("a", "hello"), ("c", "shell")]);
    let b = build(&[("b", "yellow")]);
    let m = merge(&a, &b).unwrap();
    let whole = build(&[("a", "hello"), ("b", "yellow"), ("c", "shell")]);
    assert_eq!(m.index.names, whole.names);
    assert_eq!(m.index.postings.len(), whole.postings.len());
    for (x, y) in m.index.postings.iter().zip(whole.postings.iter()) {
        assert_eq!(x.trigram, y.trigram);
        assert_eq!(x.ids, y.ids);
    }
}

#[test]
fn concatenated_literals_need_trigrams_across_the_cut() {
    let lit = |s: &str| Regex::Literal(s.as_bytes().to_vec());
    let r = Regex::Concat(Box::new(lit("ab")), Box::new(lit("cd")));
    let ix = build(&[("a", "abcd"), ("b", "ab cd"), ("c", "xbcd")]);
    assert_eq!(evaluate(&ix, &plan(&r)), vec![0]);
    let q = Query::And(
        Box::new(Query::And(Box::new(Query::All), Box::new(Query::Tri(tri("abc"))))),
        Box::new(Query::Tri(tri("bcd"))),
    );
    assert_eq!(evaluate(&ix, &q), vec![0]);
}

#[test]
fn merge_with_a_name_in_both_is_duplicate_name() {
    let a = build(&[("a", "one"), ("m", "two")]);
    let b = build(&[("b", "three"), ("m", "four")]);
    assert!(matches!(merge(&a, &b), Err(IndexError::DuplicateName)));
}

#[test]
fn merge_refuses_shared_names() {
    let a = build(&[("a", "hello")]);
    let b = build(&[("a", "hello")]);
    assert!(matches!(merge(&a, &b), Err(IndexError::DuplicateName)));
}

#[test]
fn encoded_index_reads_back() {
    let mut w = IndexWriter::new(ExtractConfig::standard());
    w.add_paths(vec![b"/root".to_vec()]);
    w.add_file(b"/root/a.txt".to_vec(), b"hello world").unwrap();
    w.add_file(b"/root/b.txt".to_vec(), b"goodbye world").unwrap();
    let ix = w.flush().unwrap();
    let bytes = encode_index(&ix);
    assert!(bytes.starts_with(b"csearch index 1\n"));
    assert!(bytes.ends_with(b"\ncsearch trailr\n"));
    let back = decode_index(&bytes).unwrap();
    assert_eq!(back.paths, ix.paths);
    assert_eq!(back.names, ix.names);
    assert_eq!(back.posting_list(tri("wor")), vec![0, 1]);
    assert_eq!(back.posting_list(tri("hel")), vec![0]);
    assert_eq!(encode_index(&back), bytes);
}

#[test]
fn corrupt_bytes_are_refused() {
    let ix = build(&[("a", "hello")]);
    let bytes = encode_index(&ix);
    assert!(matches!(decode_index(&bytes[..bytes.len() - 1]), Err(IndexError::CorruptIndex)));
    let mut bad = bytes.clone();
    bad[0] = b'X';
    assert!(matches!(decode_index(&bad), Err(IndexError::CorruptIndex)));
    assert!(matches!(decode_index(b""), Err(IndexError::CorruptIndex)));
}

#[test]
fn list_operations() {
    assert_eq!(intersect(&vec![1, 3, 5, 7], &vec![3, 4, 5, 8]), vec![3, 5]);
    assert_eq!(union(&vec![1, 3, 5], &vec![2, 3, 9]), vec![1, 2, 3, 5, 9]);
    assert_eq!(intersect(&vec![], &vec![1]), Vec::<u32>::new());
    assert_eq!(union(&vec![], &vec![]), Vec::<u32>::new());
}

#[test]
fn queries_select_candidates() {
    let ix = build(&[("a.txt", "hello world"), ("b.txt", "goodbye world"), ("c.txt", "nothing")]);
    assert_eq!(evaluate(&ix, &Query::All), vec![0, 1, 2]);
    assert_eq!(evaluate(&ix, &Query::Tri(tri("wor"))), vec![0, 1]);
    let q = Query::And(Box::new(Query::Tri(tri("wor"))), Box::new(Query::Tri(tri("goo"))));
    assert_eq!(evaluate(&ix, &q), vec![1]);
    let q = Query::Or(Box::new(Query::Tri(tri("hel"))), Box::new(Query::Tri(tri("thi"))));
    assert_eq!(evaluate(&ix, &q), vec![0, 2]);
}

#[test]
fn planned_queries_keep_true_matches() {
    let ix = build(&[("a.txt", "hello world"), ("b.txt", "goodbye world"), ("c.txt", "nothing")]);
    let lit = |s: &str| Regex::Literal(s.as_bytes().to_vec());
    let r = Regex::Alternate(Box::new(lit("hello")), Box::new(lit("goodbye")));
    assert_eq!(evaluate(&ix, &plan(&r)), vec![0, 1]);
    let r = Regex::Concat(Box::new(lit("wor")), Box::new(Regex::Star(Box::new(lit("x")))));
    assert_eq!(evaluate(&ix, &plan(&r)), vec![0, 1]);
    let r = Regex::Concat(Box::new(lit("go")), Box::new(lit("od")));
    assert_eq!(evaluate(&ix, &plan(&r)), vec![1]);
    let r = Regex::Concat(Box::new(lit("wo")), Box::new(Regex::Class(b"rx".to_vec())));
    assert_eq!(evaluate(&ix, &plan(&r)), vec![0, 1, 2]);
    let r = Regex::Star(Box::new(lit("nothing")));
    assert_eq!(evaluate(&ix, &plan(&r)), vec![0, 1, 2]);
    assert_eq!(evaluate(&ix, &plan(&lit("noth"))), vec![2]);
}
