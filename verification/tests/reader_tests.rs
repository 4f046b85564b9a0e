use std::collections::hash_map::DefaultHasher;
use std::hash::Hasher;
use uranker::reader::d_writer::{DWriter, WriteAction};
use uranker::reader::iter_reader::{buf_pick, IterReader, ReadStep, BUF_SIZE};
use uranker::reader::long_log::{long_url_place, print_long_log, read_long_log};
use uranker::reader::{long_url_name, UrlBatch, BUF_MAX};

/// Runs a reader over `data`, handing it blocks of at most its capacity.
fn read_all(reader: &mut IterReader, data: &[u8]) -> Vec<String> {
    let cap = reader.capacity();
    let mut pos = 0;
    let mut out = Vec::new();
    loop {
        let mut step = reader.next_step();
        loop {
            match step {
                ReadStep::Load => {
                    let end = std::cmp::min(pos + cap, data.len());
                    let block = data[pos..end].to_vec();
                    pos = end;
                    step = reader.load(block);
                }
                ReadStep::Yield(s) => {
                    out.push(s);
                    break;
                }
                ReadStep::End => return out,
            }
        }
    }
}

#[test]
fn test_iter() {
    let mut text = String::new();
    for i in 1..=1000 {
        text.push_str(&format!("rc-{}\n", i));
    }
    let mut ir = IterReader::new(b'\n');
    let records = read_all(&mut ir, text.as_bytes());
    let mut i = 1;
    for record in records {
        assert_eq!(record, format!("rc-{}", i));
        i += 1;
    }
    assert_eq!(i, 1001);
    assert_eq!(BUF_SIZE, 6 * 1024 * 1024);
}

#[test]
fn reader_crosses_block_boundaries() {
    let mut ir = IterReader::new_with_capacity(b'\n', 8);
    let got = read_all(&mut ir, b"rc-1\nrc-2\nrc-3\nrc-4\n");
    assert_eq!(got, vec!["rc-1", "rc-2", "rc-3", "rc-4"]);
    assert!(ir.long_urls().is_empty());
}

#[test]
fn reader_skips_blank_lines_across_blocks() {
    let mut ir = IterReader::new_with_capacity(b'\n', 8);
    let got = read_all(&mut ir, b"rc-1\nrc-2\nrc-3\n\n\nrc-4");
    assert_eq!(got, vec!["rc-1", "rc-2", "rc-3", "rc-4"]);
    let mut ir = IterReader::new_with_capacity(b'\n', 4);
    let got = read_all(&mut ir, b"ab\n\n\n\n\n\n\n\n\n\ncd\n\n\n");
    assert_eq!(got, vec!["ab", "cd"]);
    assert!(ir.long_urls().is_empty());
}

#[test]
fn reader_of_empty_file_gives_nothing() {
    let mut ir = IterReader::new_with_capacity(b'\n', 8);
    assert!(read_all(&mut ir, b"").is_empty());
}

#[test]
fn reader_names_long_urls_by_hash() {
    let mut ir = IterReader::new_with_capacity(b'\n', 4);
    let got = read_all(&mut ir, b"abcdefghijklmnop\nxy\nabcdefghijklmnop\n");
    // the URL spans more than two blocks: the first two blocks go into the
    // hash together, then every later block
    let mut h = DefaultHasher::new();
    h.write(b"abcdefgh");
    h.write(b"ijkl");
    h.write(b"mnop");
    h.write(b"");
    let name = format!("uranker://{}", h.finish());
    assert_eq!(got, vec![name.clone(), "xy".to_string(), name.clone()]);
    // the first position and the length of the first appearance are kept
    assert_eq!(ir.long_urls().get(&h.finish()), Some(&(0, 16)));
    assert_eq!(ir.long_urls().len(), 1);
}

#[test]
fn long_url_position_is_its_byte_offset() {
    let mut ir = IterReader::new_with_capacity(b'\n', 4);
    let got = read_all(&mut ir, b"\nxy\nabcdefghijklmnop\n");
    let mut h = DefaultHasher::new();
    h.write(b"abcdefgh");
    h.write(b"ijkl");
    h.write(b"mnop");
    h.write(b"");
    let name = format!("uranker://{}", h.finish());
    assert_eq!(got, vec!["xy".to_string(), name]);
    // the URL begins after the blank line, "xy" and its divider
    assert_eq!(ir.long_urls().get(&h.finish()), Some(&(4, 16)));
}

#[test]
fn long_url_length_counts_raw_bytes() {
    let mut data = vec![0xE9u8; 16];
    data.push(b'\n');
    let mut ir = IterReader::new_with_capacity(b'\n', 4);
    let got = read_all(&mut ir, &data);
    // each byte is read as one character, hashed in its UTF-8 form
    let part = |n: usize| std::iter::repeat('\u{e9}').take(n).collect::<String>();
    let mut h = DefaultHasher::new();
    h.write(part(8).as_bytes());
    h.write(part(4).as_bytes());
    h.write(part(4).as_bytes());
    h.write(b"");
    assert_eq!(got, vec![format!("uranker://{}", h.finish())]);
    assert_eq!(ir.long_urls().get(&h.finish()), Some(&(0, 16)));
}

#[test]
fn can_load_checks_the_limit() {
    let mut ir = IterReader::new_with_capacity(b'\n', 4);
    assert!(ir.can_load(4));
    assert!(ir.can_load(usize::MAX));
    assert!(matches!(ir.next_step(), ReadStep::Load));
    assert!(matches!(ir.load(b"ab\nc".to_vec()), ReadStep::Yield(_)));
    // four bytes were read: the count of bytes read must stay in a usize
    assert!(ir.can_load(usize::MAX - 4));
    assert!(!ir.can_load(usize::MAX - 3));
}

#[test]
fn buf_pick_skips_leading_dividers() {
    let buf = b"\n\nab\ncd".to_vec();
    let (s, full, cur, n) = buf_pick(&buf, 100, b'\n', 0, String::new(), true);
    assert_eq!((s.as_str(), full, cur, n), ("ab", true, 5, 2));
    let (s, full, cur, n) = buf_pick(&buf, 100, b'\n', 5, String::new(), true);
    // the file has ended (the block is short) but no stop follows "cd"
    assert_eq!((s.as_str(), full, cur, n), ("cd", false, 5, 2));
    let (s, full, cur, n) = buf_pick(&buf, 7, b'\n', 0, "x".to_string(), false);
    // going on with a URL: a divider right away ends it
    assert_eq!((s.as_str(), full, cur, n), ("x", true, 1, 0));
}

#[test]
fn buf_pick_stops_at_zero_after_file_end() {
    let buf = b"ab\0cd".to_vec();
    let (s, full, cur, n) = buf_pick(&buf, 10, b'\n', 0, String::new(), true);
    assert_eq!((s.as_str(), full, cur, n), ("ab", true, 3, 2));
    let (s, full, _, n) = buf_pick(&buf, 5, b'\n', 0, String::new(), true);
    assert_eq!((s.as_str(), full, n), ("ab\0cd", false, 5));
}

#[test]
fn long_url_name_is_scheme_and_hash() {
    assert_eq!(long_url_name(0), "uranker://0");
    assert_eq!(long_url_name(18446744073709551615), "uranker://18446744073709551615");
}

#[test]
fn batch_sends_when_full() {
    let mut b = UrlBatch::new(b'\n');
    assert!(!b.must_send("abc"));
    assert_eq!(b.append("abc"), 3);
    assert_eq!(b.len(), 4);
    let big = "x".repeat(BUF_MAX - 4);
    assert!(b.must_send(&big));
    // the batch is unchanged until it has been sent
    assert_eq!(b.contents(), "abc\n");
    assert_eq!(b.len(), 4);
    assert_eq!(b.take(), "abc\n");
    b.append(&big);
    assert_eq!(b.len(), BUF_MAX - 3);
    assert_eq!(b.take(), format!("{}\n", big));
    assert_eq!(b.len(), 0);
}

#[test]
fn dwriter_rolls_over() {
    let mut w = DWriter::new();
    assert!(matches!(w.write(10), WriteAction::Write));
    assert!(matches!(w.write(u32::MAX as usize - 10), WriteAction::Write));
    assert!(matches!(w.write(1), WriteAction::Roll(1)));
    assert!(matches!(w.write(5), WriteAction::Write));
}

#[test]
fn batch_write_sends_the_full_batch_first() {
    let mut b = UrlBatch::new(b'\n');
    assert_eq!(b.write("abc"), (None, 3));
    let big = "x".repeat(BUF_MAX - 4);
    let (sent, n) = b.write(&big);
    assert_eq!(sent, Some("abc\n".to_string()));
    assert_eq!(n, BUF_MAX - 4);
    assert_eq!(b.len(), BUF_MAX - 3);
    // a batch filled to the limit is sent before the next URL
    let mut c = UrlBatch::new(b'\n');
    let exact = "y".repeat(BUF_MAX - 1);
    assert_eq!(c.write(&exact), (None, BUF_MAX - 1));
    assert_eq!(c.len(), BUF_MAX);
    let (sent, _) = c.write("z");
    assert_eq!(sent, Some(format!("{}\n", exact)));
    assert_eq!(c.take(), "z\n");
}

#[test]
fn long_log_round_trips() {
    let mut m = std::collections::HashMap::new();
    m.insert(7u64, (4usize, 16usize));
    m.insert(18446744073709551615u64, (0usize, 3usize));
    let text = print_long_log(&m);
    let back = read_long_log(&text).unwrap();
    assert_eq!(back.len(), 2);
    assert_eq!(long_url_place(&back, 7), Some((4, 16)));
    assert_eq!(long_url_place(&back, 18446744073709551615), Some((0, 3)));
    assert_eq!(long_url_place(&back, 8), None);
}

#[test]
fn long_log_reads_json_objects_only() {
    let m = read_long_log("{\"12\":[3,40]}").unwrap();
    assert_eq!(long_url_place(&m, 12), Some((3, 40)));
    assert!(read_long_log("[1,2]").is_none());
    assert!(read_long_log("{\"x\":[3,40]}").is_none());
    assert!(read_long_log("").is_none());
}

#[test]
fn last_url_without_divider() {
    // within the last block it comes out whole
    let mut ir = IterReader::new_with_capacity(b'\n', 8);
    assert_eq!(read_all(&mut ir, b"ab\ncd"), vec!["ab", "cd"]);
    // past the end of its block, the empty read at the end names it by hash
    let mut ir = IterReader::new_with_capacity(b'\n', 4);
    let got = read_all(&mut ir, b"ab\ncdef");
    let mut h = DefaultHasher::new();
    h.write(b"cdef");
    h.write(b"");
    assert_eq!(got, vec!["ab".to_string(), format!("uranker://{}", h.finish())]);
    assert_eq!(ir.long_urls().get(&h.finish()), Some(&(3, 4)));
    let mut ir = IterReader::new_with_capacity(b'\n', 4);
    let got = read_all(&mut ir, b"abcdefghij");
    let mut h = DefaultHasher::new();
    h.write(b"abcdefgh");
    h.write(b"ij");
    h.write(b"");
    assert_eq!(got, vec![format!("uranker://{}", h.finish())]);
    assert_eq!(ir.long_urls().get(&h.finish()), Some(&(0, 10)));
}

#[test]
fn split_batches_lose_nothing() {
    let mut b = UrlBatch::new(b'\n');
    let mut sent: Vec<String> = Vec::new();
    let mut expected = String::new();
    for i in 0..40 {
        let url = format!("{}{}", i, "u".repeat(1024 * 1024 - 3 + i % 5));
        expected.push_str(&url);
        expected.push('\n');
        let (full, n) = b.write(&url);
        assert_eq!(n, url.len());
        if let Some(batch) = full {
            sent.push(batch);
        }
    }
    sent.push(b.take());
    assert!(sent.len() > 1);
    assert!(sent.iter().all(|s| s.len() <= BUF_MAX));
    assert_eq!(sent.concat(), expected);
}
