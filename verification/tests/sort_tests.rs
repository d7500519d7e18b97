use ex_merge_sort::sort;
use ex_merge_sort::sort_by;
use std::cmp::Ordering;
use std::str;

const JUGEMU: &str = "寿限無、寿限無、
五劫の擦り切れ、
海砂利水魚の、
水行末・雲来末・風来末、
喰う寝る処に住む処、
藪ら柑子の藪柑子、
パイポ・パイポ・パイポのシューリンガン、
シューリンガンのグーリンダイ、
グーリンダイのポンポコピーのポンポコナの、
長久命の長助
";

const JUGEMU_SORTED: &str = "グーリンダイのポンポコピーのポンポコナの、
シューリンガンのグーリンダイ、
パイポ・パイポ・パイポのシューリンガン、
五劫の擦り切れ、
喰う寝る処に住む処、
寿限無、寿限無、
水行末・雲来末・風来末、
海砂利水魚の、
藪ら柑子の藪柑子、
長久命の長助
";

#[test]
fn test_sort_in_buf() {
    let fin = JUGEMU.as_bytes().to_vec();
    let buf = sort(fin, 1024);
    assert_eq!(JUGEMU_SORTED, str::from_utf8(&buf).unwrap());
}

#[test]
fn test_sort_using_file() {
    let fin = JUGEMU.as_bytes().to_vec();
    let buf = sort(fin, 50);
    assert_eq!(JUGEMU_SORTED, str::from_utf8(&buf).unwrap());
}

#[test]
fn test_sort_empty() {
    let fin = Vec::new();
    let buf = sort(fin, 50);
    assert_eq!("", str::from_utf8(&buf).unwrap());
}

#[test]
fn test_sort_one_line() {
    let fin = "寿限無、寿限無、\n".as_bytes().to_vec();
    let buf = sort(fin, 50);
    assert_eq!("寿限無、寿限無、\n", str::from_utf8(&buf).unwrap());
}

#[test]
fn test_sort_two_lines() {
    let fin = "寿限無、寿限無、\n五劫の擦り切れ、\n".as_bytes().to_vec();
    let buf = sort(fin, 50);
    assert_eq!(
        "五劫の擦り切れ、\n寿限無、寿限無、\n",
        str::from_utf8(&buf).unwrap()
    );
}

#[test]
fn test_sort_three_lines() {
    let fin = "寿限無、寿限無、\n五劫の擦り切れ、\n海砂利水魚の、\n"
        .as_bytes()
        .to_vec();
    let buf = sort(fin, 50);
    assert_eq!(
        "五劫の擦り切れ、\n寿限無、寿限無、\n海砂利水魚の、\n",
        str::from_utf8(&buf).unwrap()
    );
}

fn stripped(v: &Vec<u8>) -> &[u8] {
    let mut e = v.len();
    while e > 0 && (v[e - 1] == b'\n' || v[e - 1] == b'\r') {
        e -= 1;
    }
    &v[..e]
}

#[test]
fn test_sort_desc() {
    let fin = JUGEMU.as_bytes().to_vec();
    let cmp = |a: &Vec<u8>, b: &Vec<u8>| -> Ordering { stripped(b).cmp(stripped(a)) };
    let buf = sort_by(fin, 50, cmp);
    assert_eq!(
        "長久命の長助
藪ら柑子の藪柑子、
海砂利水魚の、
水行末・雲来末・風来末、
寿限無、寿限無、
喰う寝る処に住む処、
五劫の擦り切れ、
パイポ・パイポ・パイポのシューリンガン、
シューリンガンのグーリンダイ、
グーリンダイのポンポコピーのポンポコナの、
",
        str::from_utf8(&buf).unwrap()
    );
}
