use rustc_utils::char_pattern::{CharEq, CharEqSearcher};
use rustc_utils::pattern::SearchStep;

fn steps(h: &str, p: CharEq) -> Vec<SearchStep> {
    let mut s = CharEqSearcher::new(h, p);
    let mut out = Vec::new();
    loop {
        let step = s.next();
        if step == SearchStep::Done {
            return out;
        }
        out.push(step);
    }
}

fn match_ranges(h: &str, p: CharEq) -> Vec<(usize, usize)> {
    let mut s = CharEqSearcher::new(h, p);
    let mut out = Vec::new();
    while let Some(m) = s.next_match() {
        out.push(m);
    }
    out
}

fn match_ranges_back(h: &str, p: CharEq) -> Vec<(usize, usize)> {
    let mut s = CharEqSearcher::new(h, p);
    let mut out = Vec::new();
    while let Some(m) = s.next_match_back() {
        out.push(m);
    }
    out
}

#[test]
fn a_char_matches_at_index_one_in_baaaab() {
    assert!(CharEq::Single('a').is_contained_in("baaaab"));
    assert_eq!(match_ranges("baaaab", CharEq::Single('a'))[0], (1, 2));
}

#[test]
fn every_character_is_reported_once_in_order() {
    assert_eq!(
        steps("cbaab", CharEq::Single('a')),
        vec![
            SearchStep::Reject(0, 1),
            SearchStep::Reject(1, 2),
            SearchStep::Match(2, 3),
            SearchStep::Match(3, 4),
            SearchStep::Reject(4, 5),
        ]
    );
    assert_eq!(steps("", CharEq::Single('a')), vec![]);
}

#[test]
fn byte_ranges_cover_multibyte_characters() {
    assert_eq!(
        steps("aé€😀", CharEq::AnyOf(vec!['€', 'a'])),
        vec![
            SearchStep::Match(0, 1),
            SearchStep::Reject(1, 3),
            SearchStep::Match(3, 6),
            SearchStep::Reject(6, 10),
        ]
    );
}

#[test]
fn matches_agree_with_std() {
    let hays = ["", "abc", "héllo wörld", "ααβα", "a€b€c", "😀x😀"];
    for h in hays {
        for c in ['a', 'ö', 'α', '€', '😀', 'z'] {
            let expected: Vec<(usize, usize)> = h.match_indices(c).map(|(i, m)| (i, i + m.len())).collect();
            assert_eq!(match_ranges(h, CharEq::Single(c)), expected);
            let mut back = match_ranges_back(h, CharEq::Single(c));
            back.reverse();
            assert_eq!(back, expected);
        }
        let set = ['l', 'β', '€'];
        let expected: Vec<(usize, usize)> = h.match_indices(&set[..]).map(|(i, m)| (i, i + m.len())).collect();
        assert_eq!(match_ranges(h, CharEq::AnyOf(set.to_vec())), expected);
    }
}

#[test]
fn rejects_from_both_ends() {
    let mut s = CharEqSearcher::new("aab", CharEq::Single('a'));
    assert_eq!(s.next_reject(), Some((2, 3)));
    assert_eq!(s.next_reject(), None);
    let mut s = CharEqSearcher::new("baa", CharEq::Single('a'));
    assert_eq!(s.next_reject_back(), Some((0, 1)));
    assert_eq!(s.next_reject_back(), None);
}

#[test]
fn prefix_suffix_containment_of_characters() {
    assert!(CharEq::Single('h').is_prefix_of("héllo"));
    assert!(!CharEq::Single('é').is_prefix_of("héllo"));
    assert!(CharEq::AnyOf(vec!['x', 'o']).is_suffix_of("héllo"));
    assert!(!CharEq::Single('h').is_suffix_of("héllo"));
    assert!(!CharEq::Single('h').is_prefix_of(""));
    assert!(CharEq::Single('é').is_contained_in("héllo"));
    assert!(!CharEq::AnyOf(vec![]).is_contained_in("héllo"));
    assert!(CharEq::Single('a').only_ascii());
    assert!(!CharEq::AnyOf(vec!['a', 'é']).only_ascii());
}
