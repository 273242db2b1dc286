use rustc_utils::str_ops::{join, repeat, replace, replacen, to_ascii_lowercase, to_ascii_uppercase};

#[test]
fn replace_basic_usage() {
    let s = "this is old";
    assert_eq!("this is new", replace(s, "old", "new"));
}

#[test]
fn replace_when_the_pattern_does_not_match() {
    let s = "this is old";
    assert_eq!(s, replace(s, "cookie monster", "little lamb"));
}

#[test]
fn replacen_basic_usage() {
    let s = "foo foo 123 foo";
    assert_eq!("new new 123 foo", replacen(s, "foo", "new", 2));
    assert_eq!("faa fao 123 foo", replacen(s, "o", "a", 3));
}

#[test]
fn replacen_when_the_pattern_does_not_match() {
    let s = "this is old";
    assert_eq!(s, replacen(s, "cookie monster", "little lamb", 10));
}

#[test]
fn replace_takes_non_overlapping_matches_from_the_front() {
    assert_eq!(replace("aaaa", "aa", "b"), "bb");
    assert_eq!(replace("aaa", "aa", "b"), "ba");
    assert_eq!(replace("abababa", "aba", "X"), "XbX");
}

#[test]
fn replace_with_empty_pattern_inserts_at_every_boundary() {
    assert_eq!(replace("ab", "", "-"), "-a-b-");
    assert_eq!(replace("", "", "-"), "-");
    assert_eq!(replace("é", "", "|"), "|é|");
    assert_eq!(replacen("abc", "", "-", 2), "-a-bc");
}

#[test]
fn replace_agrees_with_std() {
    let hays = ["", "a", "aaaa", "abcabcab", "héllo wörld", "ααβα", "xyxyxyz"];
    let pats = ["", "a", "aa", "ab", "cab", "ö", "α", "xyz", "zz"];
    for h in hays {
        for p in pats {
            assert_eq!(replace(h, p, "<>"), h.replace(p, "<>"), "{:?} {:?}", h, p);
            for n in 0..4 {
                assert_eq!(replacen(h, p, "_", n), h.replacen(p, "_", n), "{:?} {:?} {}", h, p, n);
            }
        }
    }
}

#[test]
fn repeat_basic_usage() {
    assert_eq!(repeat("abc", 4), String::from("abcabcabcabc"));
    assert_eq!(repeat("abc", 0), "");
    assert_eq!(repeat("", 5), "");
}

#[test]
fn ascii_case_changes_leave_other_letters() {
    let s = "Grüße, Jürgen ❤";
    assert_eq!("GRüßE, JüRGEN ❤", to_ascii_uppercase(s));
    assert_eq!("grüße, jürgen ❤", to_ascii_lowercase(s));
}

#[test]
fn join_and_concat() {
    let parts = vec!["hello".to_string(), "world".to_string()];
    assert_eq!(join(&parts, " "), "hello world");
    assert_eq!(rustc_utils::str_ops::concat(&parts), "helloworld");
    assert_eq!(join(&[], ", "), "");
    assert_eq!(join(&["one".to_string()], ", "), "one");
    assert_eq!(join(&["a".to_string(), "".to_string(), "c".to_string()], "::"), "a::::c");
}
