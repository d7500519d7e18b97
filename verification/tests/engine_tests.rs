use ex_merge_sort::chunk::{count_roughly, Chunk, RoughCount};
use ex_merge_sort::sort;
use ex_merge_sort::sort_by_key;
use std::str;

fn recs(lines: &[&str]) -> Vec<Vec<u8>> {
    lines.iter().map(|l| l.as_bytes().to_vec()).collect()
}

#[test]
fn test_rough_count_classification() {
    assert_eq!(count_roughly(&recs(&[])), RoughCount::Zero);
    assert_eq!(count_roughly(&recs(&["a\n"])), RoughCount::One);
    assert_eq!(count_roughly(&recs(&["a\n", "b\n"])), RoughCount::Two);
    assert_eq!(
        count_roughly(&recs(&["a\n", "b\n", "c\n"])),
        RoughCount::ThreeOrMore
    );
    assert_eq!(
        count_roughly(&recs(&["a\n", "b\n", "c\n", "d\n"])),
        RoughCount::ThreeOrMore
    );
}

#[test]
fn test_fit_in_buffer_boundary() {
    let c = Chunk::new(recs(&["ab\n", "c\n"]), 5);
    assert!(c.fit_in_buffer());
    let c = Chunk::new(recs(&["ab\n", "c\n"]), 4);
    assert!(!c.fit_in_buffer());
}

#[test]
fn test_split_two_records() {
    let c = Chunk::new(recs(&["ab\n", "c\n"]), 1);
    let (c1, c2) = c.split();
    assert_eq!(c1.records, recs(&["ab\n"]));
    assert_eq!(c2.records, recs(&["c\n"]));
    assert_eq!(c1.rough_count, RoughCount::One);
    assert_eq!(c2.rough_count, RoughCount::One);
}

#[test]
fn test_split_by_byte_midpoint() {
    // 12 bytes in all; the midpoint of 6 falls inside the second record.
    let c = Chunk::new(recs(&["aaaa\n", "bb\n", "ccc\n"]), 1);
    let (c1, c2) = c.split();
    assert_eq!(c1.records, recs(&["aaaa\n", "bb\n"]));
    assert_eq!(c2.records, recs(&["ccc\n"]));
}

#[test]
fn test_split_oversized_first_record() {
    // The first record alone crosses the midpoint: the split degenerates.
    let c = Chunk::new(recs(&["aaaaaaaaaa\n", "b\n"]), 1);
    let (c1, c2) = c.split();
    // A rough count of exactly two still forces a one/one split.
    assert_eq!(c1.records.len(), 1);
    assert_eq!(c2.records.len(), 1);
    let c = Chunk::new(recs(&["aaaaaaaaaa\n", "b\n", "c\n"]), 1);
    let (c1, c2) = c.split();
    assert_eq!(c1.records, recs(&["aaaaaaaaaa\n"]));
    assert_eq!(c2.records, recs(&["b\n", "c\n"]));
}

#[test]
fn test_large_record_escape_hatch() {
    // One record longer than the whole capacity, followed by smaller ones.
    let big = "m".repeat(40) + "\n";
    let input = format!("{}b\na\n", big).into_bytes();
    let out = sort(input, 8);
    let expected = format!("a\nb\n{}", big);
    assert_eq!(expected, str::from_utf8(&out).unwrap());
}

#[test]
fn test_split_degenerates_to_zero() {
    // The byte midpoint is only reached at the last record, so the split
    // leaves its second half empty and the whole chunk is sorted in memory
    // even though it exceeds the capacity.
    let input = "b\na\nmmmmmmmmmmmm\n".as_bytes().to_vec();
    let out = sort(input, 5);
    assert_eq!("a\nb\nmmmmmmmmmmmm\n", str::from_utf8(&out).unwrap());
}

#[test]
fn test_capacity_independence() {
    let input = "d\nb\ne\na\nc\n";
    let mut outputs = Vec::new();
    for cap in [1u64, 3, 6, 1024] {
        outputs.push(sort(input.as_bytes().to_vec(), cap));
    }
    for out in &outputs {
        assert_eq!("a\nb\nc\nd\ne\n", str::from_utf8(out).unwrap());
    }
}

#[test]
fn test_idempotent_on_sorted_input() {
    let input = "a\nb\nc\nd\n";
    for cap in [1u64, 4, 1024] {
        let out = sort(input.as_bytes().to_vec(), cap);
        assert_eq!(input, str::from_utf8(&out).unwrap());
    }
}

#[test]
fn test_merge_tie_break_prefers_second() {
    // Equal keys under the default order: "a\r\n" and "a\n" both trim to "a".
    // A capacity that forces a split sends them through the merge, which
    // emits the second chunk's record first.
    let input = "a\r\na\n".as_bytes().to_vec();
    let out = sort(input, 1);
    assert_eq!("a\na\r\n", str::from_utf8(&out).unwrap());
}

#[test]
fn test_in_buffer_sort_keeps_tied_records() {
    // The same tied records sorted entirely in memory keep their order.
    let input = "a\r\na\n".as_bytes().to_vec();
    let out = sort(input, 1024);
    assert_eq!("a\r\na\n", str::from_utf8(&out).unwrap());
}

#[test]
fn test_unterminated_final_record() {
    // The final record keeps its missing terminator; bytes are emitted
    // verbatim in sorted order, with nothing added or removed.
    let input = "b\na".as_bytes().to_vec();
    let out = sort(input, 1024);
    assert_eq!("ab\n", str::from_utf8(&out).unwrap());
}

#[test]
fn test_trailing_terminators_ignored_by_default_order() {
    let input = "b\r\na\n".as_bytes().to_vec();
    let out = sort(input, 1024);
    assert_eq!("a\nb\r\n", str::from_utf8(&out).unwrap());
}

#[test]
fn test_empty_lines_sort_first() {
    // An empty line trims to nothing, which sorts before any other record.
    let input = "b\n\na\n".as_bytes().to_vec();
    let out = sort(input, 1024);
    assert_eq!("\na\nb\n", str::from_utf8(&out).unwrap());
}

#[test]
fn test_empty_lines_with_split() {
    let input = "b\n\na\n\n".as_bytes().to_vec();
    let out = sort(input, 2);
    assert_eq!("\n\na\nb\n", str::from_utf8(&out).unwrap());
}

#[test]
fn test_sort_by_key_length() {
    let input = "ccc\na\nbb\n".as_bytes().to_vec();
    let out = sort_by_key(input, 4, |v: &Vec<u8>| v.len());
    assert_eq!("a\nbb\nccc\n", str::from_utf8(&out).unwrap());
}

#[test]
fn test_sort_by_key_reversed_bytes() {
    // Key: the record's stripped bytes reversed, so "ba" sorts before "ab".
    let input = "ab\nba\n".as_bytes().to_vec();
    let conv = |v: &Vec<u8>| {
        let mut k: Vec<u8> = v
            .iter()
            .copied()
            .filter(|b| *b != b'\n' && *b != b'\r')
            .collect();
        k.reverse();
        k
    };
    let out = sort_by_key(input, 2, conv);
    assert_eq!("ba\nab\n", str::from_utf8(&out).unwrap());
}
