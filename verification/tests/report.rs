use logagg::chunks::{aggregate, compute_boundaries, process_chunk};
use logagg::parser::parse_line;
use logagg::render::{build_report, render_json};
use logagg::table::{merge_fits, merge_maps, DateCount, PathCounts, VisitTable};

fn table_of(lines: &[u8]) -> VisitTable {
    aggregate(lines, 1)
}

#[test]
fn parse_well_formed_line() {
    let r = parse_line(b"https://example.com/blog/foo,2024-05-01T12:00:00+00:00");
    let (path, date) = r.expect("line should parse");
    assert_eq!(path, b"/blog/foo".to_vec());
    assert_eq!(date, b"2024-05-01".to_vec());
}

#[test]
fn parse_line_without_scheme() {
    assert!(parse_line(b"not-a-url,2024-05-01T12:00:00+00:00").is_none());
}

#[test]
fn parse_line_without_path_slash() {
    assert!(parse_line(b"https://example.com,2024-05-01T12:00:00+00:00").is_none());
}

#[test]
fn parse_line_without_comma() {
    assert!(parse_line(b"https://example.com/a 2024-05-01T12:00:00+00:00").is_none());
}

#[test]
fn parse_empty_line() {
    assert!(parse_line(b"").is_none());
}

#[test]
fn parse_line_short_timestamp() {
    assert!(parse_line(b"https://example.com/a,2024-05").is_none());
}

#[test]
fn parse_line_invalid_utf8_url() {
    // 0xFF can not appear in UTF-8 text, so the record is skipped.
    let line: Vec<u8> = vec![
        b'h', b't', b't', b'p', b's', b':', b'/', b'/', b'x', 0xFF, b'/', b'a', b',', b'2', b'0',
        b'2', b'4', b'-', b'0', b'1', b'-', b'0', b'1', b'T', b'0', b'0',
    ];
    assert!(parse_line(&line).is_none());
}

#[test]
fn parse_line_uses_last_comma() {
    let r = parse_line(b"https://x/a,b,2024-05-01T12:00:00+00:00");
    let (path, date) = r.expect("line should parse");
    assert_eq!(path, b"/a,b".to_vec());
    assert_eq!(date, b"2024-05-01".to_vec());
}

#[test]
fn merge_with_empty_is_identity() {
    let input = b"https://x/a,2024-01-01T00:00:00+00:00\nhttps://x/b,2024-01-02T00:00:00+00:00\n";
    let t = table_of(input);
    let before = render_json(&t);
    let merged = merge_maps(t, VisitTable::new());
    assert_eq!(render_json(&merged), before);
    let t2 = table_of(input);
    let merged2 = merge_maps(VisitTable::new(), t2);
    assert_eq!(render_json(&merged2), before);
}

#[test]
fn merge_is_associative_and_commutative() {
    let a_in = b"https://x/a,2024-01-01T00:00:00+00:00\nhttps://x/b,2024-01-02T00:00:00+00:00\n";
    let b_in = b"https://x/a,2024-01-01T05:00:00+00:00\nhttps://x/c,2024-02-02T00:00:00+00:00\n";
    let c_in = b"https://x/b,2024-01-02T07:00:00+00:00\nhttps://x/a,2024-03-03T00:00:00+00:00\n";
    let left = merge_maps(merge_maps(table_of(a_in), table_of(b_in)), table_of(c_in));
    let right = merge_maps(table_of(a_in), merge_maps(table_of(b_in), table_of(c_in)));
    let swapped = merge_maps(merge_maps(table_of(b_in), table_of(a_in)), table_of(c_in));
    let l = render_json(&left);
    assert_eq!(l, render_json(&right));
    assert_eq!(l, render_json(&swapped));
    assert_eq!(left.get_count(b"/a", b"2024-01-01"), 2);
    assert_eq!(left.get_count(b"/b", b"2024-01-02"), 2);
    assert_eq!(left.get_count(b"/c", b"2024-02-02"), 1);
}

#[test]
fn chunk_count_invariance() {
    let mut input = Vec::new();
    for i in 0..50 {
        input.extend_from_slice(
            format!("https://x/p{},2024-01-{:02}T00:00:00+00:00\n", i % 7, (i % 28) + 1).as_bytes(),
        );
    }
    let one = aggregate(&input, 1);
    let expected = render_json(&one);
    for k in 2..12 {
        let many = aggregate(&input, k);
        assert_eq!(render_json(&many), expected);
    }
}

#[test]
fn boundaries_are_record_aligned() {
    let input = b"https://x/a,2024-01-01T00:00:00+00:00\nhttps://x/bb,2024-01-02T00:00:00+00:00\nhttps://x/c,2024-01-03T00:00:00+00:00\n";
    for n in [0usize, 1, 2, 3, 5, 50] {
        let bounds = compute_boundaries(input, n);
        assert_eq!(bounds[0], 0);
        assert_eq!(*bounds.last().unwrap(), input.len());
        for w in bounds.windows(2) {
            assert!(w[0] <= w[1]);
        }
        for &b in &bounds[1..bounds.len() - 1] {
            assert!(b == input.len() || input[b - 1] == b'\n');
        }
    }
}

#[test]
fn sorted_deterministic_output() {
    let input = b"https://x/b,2024-02-01T00:00:00+00:00\nhttps://x/a,2024-01-05T00:00:00+00:00\nhttps://x/a,2024-01-01T00:00:00+00:00\n";
    let t = table_of(input);
    let out = String::from_utf8(render_json(&t)).expect("report is UTF-8");
    let a = out.find("\\/a").expect("path /a rendered");
    let b = out.find("\\/b").expect("path /b rendered");
    assert!(a < b);
    let d1 = out.find("2024-01-01").expect("earlier date rendered");
    let d5 = out.find("2024-01-05").expect("later date rendered");
    assert!(d1 < d5);
}

#[test]
fn end_to_end_scenario() {
    let input = b"https://x/a,2024-01-01T00:00:00+00:00\nhttps://x/a,2024-01-01T01:00:00+00:00\nhttps://x/b,2024-01-02T00:00:00+00:00\n";
    let t = table_of(input);
    let out = render_json(&t);
    let expected = "{\n    \"\\/a\": {\n        \"2024-01-01\": 2\n    },\n    \"\\/b\": {\n        \"2024-01-02\": 1\n    }\n}";
    assert_eq!(String::from_utf8(out).unwrap(), expected);
}

#[test]
fn slashes_are_escaped() {
    let input = b"https://x/blog/foo/bar,2024-01-01T00:00:00+00:00\n";
    let t = table_of(input);
    let out = String::from_utf8(render_json(&t)).unwrap();
    assert!(out.contains("\"\\/blog\\/foo\\/bar\""));
    // No bare slash inside the key: every one carries its backslash.
    let key = "\\/blog\\/foo\\/bar";
    let bytes = key.as_bytes();
    for (i, &c) in bytes.iter().enumerate() {
        if c == b'/' {
            assert!(i >= 1 && bytes[i - 1] == b'\\');
        }
    }
}

#[test]
fn counts_render_as_decimal() {
    let mut input = Vec::new();
    for _ in 0..12 {
        input.extend_from_slice(b"https://x/a,2024-01-01T00:00:00+00:00\n");
    }
    let t = table_of(&input);
    assert_eq!(t.get_count(b"/a", b"2024-01-01"), 12);
    let out = String::from_utf8(render_json(&t)).unwrap();
    assert!(out.contains("\"2024-01-01\": 12\n"));
}

#[test]
fn empty_input_renders_empty_object() {
    let t = table_of(b"");
    assert_eq!(t.num_paths(), 0);
    assert_eq!(String::from_utf8(render_json(&t)).unwrap(), "{\n}");
}

#[test]
fn malformed_lines_are_skipped() {
    let input = b"garbage\n\nhttps://x/a,2024-01-01T00:00:00+00:00\nhttps://x,2024-01-01T00:00:00+00:00\nhttps://x/a,short\n";
    let t = table_of(input);
    assert_eq!(t.num_paths(), 1);
    assert_eq!(t.get_count(b"/a", b"2024-01-01"), 1);
}

#[test]
fn final_line_without_newline_counts() {
    let input = b"https://x/a,2024-01-01T00:00:00+00:00\nhttps://x/a,2024-01-01T02:00:00+00:00";
    let t = process_chunk(input);
    assert_eq!(t.get_count(b"/a", b"2024-01-01"), 2);
}

#[test]
fn tables_are_well_formed() {
    let input = b"https://x/b,2024-02-01T00:00:00+00:00\nhttps://x/a,2024-01-05T00:00:00+00:00\n";
    let t = table_of(input);
    assert!(t.is_well_formed());
    assert!(VisitTable::new().is_well_formed());
}

#[test]
fn detects_ill_formed_tables() {
    let unsorted = VisitTable {
        entries: vec![
            PathCounts {
                path: b"/b".to_vec(),
                dates: vec![DateCount { date: b"2024-01-01".to_vec(), count: 1 }],
            },
            PathCounts {
                path: b"/a".to_vec(),
                dates: vec![DateCount { date: b"2024-01-01".to_vec(), count: 1 }],
            },
        ],
    };
    assert!(!unsorted.is_well_formed());
    let zero_count = VisitTable {
        entries: vec![PathCounts {
            path: b"/a".to_vec(),
            dates: vec![DateCount { date: b"2024-01-01".to_vec(), count: 0 }],
        }],
    };
    assert!(!zero_count.is_well_formed());
    let no_dates = VisitTable {
        entries: vec![PathCounts { path: b"/a".to_vec(), dates: vec![] }],
    };
    assert!(!no_dates.is_well_formed());
}

#[test]
fn add_count_sorts_whatever_the_insertion_order() {
    let mut t = VisitTable::new();
    t.add_count(b"/c", b"2024-03-01", 3);
    t.add_count(b"/a", b"2024-02-01", 1);
    t.add_count(b"/a", b"2024-01-01", 2);
    t.add_count(b"/b", b"2024-01-15", 5);
    t.add_count(b"/a", b"2024-02-01", 4);
    assert!(t.is_well_formed());
    assert_eq!(t.num_paths(), 3);
    assert_eq!(t.get_count(b"/a", b"2024-02-01"), 5);
    let out = String::from_utf8(render_json(&t)).unwrap();
    let a = out.find("\\/a").unwrap();
    let b = out.find("\\/b").unwrap();
    let c = out.find("\\/c").unwrap();
    assert!(a < b && b < c);
    let d1 = out.find("2024-01-01").unwrap();
    let d2 = out.find("2024-02-01").unwrap();
    assert!(d1 < d2);
}

#[test]
fn merge_fits_detects_overflow() {
    let mut a = VisitTable::new();
    a.add_count(b"/a", b"2024-01-01", u64::MAX - 1);
    let mut b = VisitTable::new();
    b.add_count(b"/a", b"2024-01-01", 1);
    assert!(merge_fits(&a, &b));
    let merged = merge_maps(a, b);
    assert_eq!(merged.get_count(b"/a", b"2024-01-01"), u64::MAX);
    let mut c = VisitTable::new();
    c.add_count(b"/a", b"2024-01-01", 1);
    assert!(!merge_fits(&merged, &c));
}

#[test]
fn build_report_matches_aggregate_then_render() {
    let input = b"https://x/a,2024-01-01T00:00:00+00:00\nhttps://x/b,2024-01-02T00:00:00+00:00\n";
    let direct = render_json(&aggregate(input, 3));
    assert_eq!(build_report(input, 1), direct);
    assert_eq!(build_report(input, 8), direct);
}

#[test]
fn get_count_of_absent_keys_is_zero() {
    let t = table_of(b"https://x/a,2024-01-01T00:00:00+00:00\n");
    assert_eq!(t.get_count(b"/a", b"2024-01-02"), 0);
    assert_eq!(t.get_count(b"/b", b"2024-01-01"), 0);
}
