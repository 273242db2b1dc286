use rustc_utils::pattern::{is_contained_in, is_prefix_of, is_suffix_of, SearchStep, StrSearcher};

fn forward_steps(haystack: &str, needle: &str) -> Vec<SearchStep> {
    let mut s = StrSearcher::new(haystack, needle);
    let mut out = Vec::new();
    loop {
        let step = s.next();
        out.push(step);
        if step == SearchStep::Done {
            return out;
        }
        assert!(out.len() < 10_000);
    }
}

fn backward_steps(haystack: &str, needle: &str) -> Vec<SearchStep> {
    let mut s = StrSearcher::new(haystack, needle);
    let mut out = Vec::new();
    loop {
        let step = s.next_back();
        out.push(step);
        if step == SearchStep::Done {
            return out;
        }
        assert!(out.len() < 10_000);
    }
}

fn forward_matches(haystack: &str, needle: &str) -> Vec<(usize, usize)> {
    let mut s = StrSearcher::new(haystack, needle);
    let mut out = Vec::new();
    while let Some(m) = s.next_match() {
        out.push(m);
        assert!(out.len() < 10_000);
    }
    out
}

fn backward_matches(haystack: &str, needle: &str) -> Vec<(usize, usize)> {
    let mut s = StrSearcher::new(haystack, needle);
    let mut out = Vec::new();
    while let Some(m) = s.next_match_back() {
        out.push(m);
        assert!(out.len() < 10_000);
    }
    out
}

/// Leftmost non-overlapping occurrences, found by trying every position.
fn naive_forward(haystack: &str, needle: &str) -> Vec<(usize, usize)> {
    let h = haystack.as_bytes();
    let n = needle.as_bytes();
    let mut out = Vec::new();
    let mut pos = 0;
    while pos + n.len() <= h.len() {
        if &h[pos..pos + n.len()] == n {
            out.push((pos, pos + n.len()));
            pos += n.len();
        } else {
            pos += 1;
        }
    }
    out
}

/// Rightmost non-overlapping occurrences, found by trying every position.
fn naive_backward(haystack: &str, needle: &str) -> Vec<(usize, usize)> {
    let h = haystack.as_bytes();
    let n = needle.as_bytes();
    let mut out = Vec::new();
    let mut end = h.len();
    while end >= n.len() {
        if &h[end - n.len()..end] == n {
            out.push((end - n.len(), end));
            end -= n.len();
        } else if end == 0 {
            break;
        } else {
            end -= 1;
        }
    }
    out
}

fn words(alphabet: &[char], max_len: usize) -> Vec<String> {
    let mut all = vec![String::new()];
    let mut last = vec![String::new()];
    for _ in 0..max_len {
        let mut next = Vec::new();
        for w in &last {
            for c in alphabet {
                let mut v = w.clone();
                v.push(*c);
                next.push(v);
            }
        }
        all.extend(next.iter().cloned());
        last = next;
    }
    all
}

#[test]
fn doc_example_aaa_in_cbaaaaab() {
    assert_eq!(forward_matches("cbaaaaab", "aaa"), vec![(2, 5)]);
    assert_eq!(backward_matches("cbaaaaab", "aaa"), vec![(4, 7)]);
}

#[test]
fn forward_steps_cover_the_haystack() {
    for (h, n) in [("cbaaaaab", "aaa"), ("abcabcab", "cab"), ("xxxx", "y"), ("aaaa", "aa"), ("héllo wörld", "ö")] {
        let steps = forward_steps(h, n);
        let mut at = 0;
        for step in &steps {
            match *step {
                SearchStep::Match(a, b) => {
                    assert_eq!(a, at);
                    assert_eq!(&h.as_bytes()[a..b], n.as_bytes());
                    at = b;
                }
                SearchStep::Reject(a, b) => {
                    assert_eq!(a, at);
                    assert!(b > a);
                    assert!(h.is_char_boundary(b));
                    at = b;
                }
                SearchStep::Done => assert_eq!(at, h.len()),
            }
        }
    }
}

#[test]
fn backward_steps_cover_the_haystack() {
    for (h, n) in [("cbaaaaab", "aaa"), ("abcabcab", "cab"), ("xxxx", "y"), ("aaaa", "aa"), ("héllo wörld", "é")] {
        let steps = backward_steps(h, n);
        let mut at = h.len();
        for step in &steps {
            match *step {
                SearchStep::Match(a, b) => {
                    assert_eq!(b, at);
                    assert_eq!(&h.as_bytes()[a..b], n.as_bytes());
                    at = a;
                }
                SearchStep::Reject(a, b) => {
                    assert_eq!(b, at);
                    assert!(a < b);
                    assert!(h.is_char_boundary(a));
                    at = a;
                }
                SearchStep::Done => assert_eq!(at, 0),
            }
        }
    }
}

#[test]
fn empty_needle_matches_at_every_boundary() {
    assert_eq!(
        forward_steps("ab", ""),
        vec![
            SearchStep::Match(0, 0),
            SearchStep::Reject(0, 1),
            SearchStep::Match(1, 1),
            SearchStep::Reject(1, 2),
            SearchStep::Match(2, 2),
            SearchStep::Done,
        ]
    );
    assert_eq!(
        forward_steps("é", ""),
        vec![SearchStep::Match(0, 0), SearchStep::Reject(0, 2), SearchStep::Match(2, 2), SearchStep::Done]
    );
    assert_eq!(
        backward_steps("aé", ""),
        vec![
            SearchStep::Match(3, 3),
            SearchStep::Reject(1, 3),
            SearchStep::Match(1, 1),
            SearchStep::Reject(0, 1),
            SearchStep::Match(0, 0),
            SearchStep::Done,
        ]
    );
    assert_eq!(forward_matches("ab", ""), vec![(0, 0), (1, 1), (2, 2)]);
    assert_eq!(backward_matches("ab", ""), vec![(2, 2), (1, 1), (0, 0)]);
    assert_eq!(forward_steps("", ""), vec![SearchStep::Match(0, 0), SearchStep::Done]);
}

#[test]
fn multibyte_matches_and_rejects_fall_on_boundaries() {
    assert_eq!(forward_matches("aéb", "é"), vec![(1, 3)]);
    assert_eq!(forward_matches("ααβαα", "αα"), vec![(0, 4), (6, 10)]);
    assert_eq!(backward_matches("ααβαα", "αα"), vec![(6, 10), (0, 4)]);
    let mut s = StrSearcher::new("日本語", "語");
    let (a, b) = s.next_reject().unwrap();
    assert_eq!(a, 0);
    assert!(b == 3 || b == 6);
    assert_eq!(s.next_match(), Some((6, 9)));
    assert_eq!(s.next(), SearchStep::Done);
}

#[test]
fn agrees_with_a_naive_search_on_small_words() {
    let haystacks = words(&['a', 'b'], 8);
    let needles = words(&['a', 'b'], 4);
    for h in &haystacks {
        for n in needles.iter().filter(|n| !n.is_empty()) {
            assert_eq!(forward_matches(h, n), naive_forward(h, n), "forward {:?} in {:?}", n, h);
            assert_eq!(backward_matches(h, n), naive_backward(h, n), "backward {:?} in {:?}", n, h);
        }
    }
}

#[test]
fn agrees_with_a_naive_search_on_three_letters() {
    let haystacks = words(&['a', 'b', 'c'], 6);
    let needles = words(&['a', 'b', 'c'], 4);
    for h in &haystacks {
        for n in needles.iter().filter(|n| !n.is_empty()) {
            assert_eq!(forward_matches(h, n), naive_forward(h, n), "forward {:?} in {:?}", n, h);
            assert_eq!(backward_matches(h, n), naive_backward(h, n), "backward {:?} in {:?}", n, h);
        }
    }
}

#[test]
fn longer_needles_of_long_and_short_period() {
    let h = "the quick brown fox jumps over the lazy dog; the quick brown fox";
    assert_eq!(forward_matches(h, "quick brown"), vec![(4, 15), (49, 60)]);
    assert_eq!(forward_matches(h, "the"), naive_forward(h, "the"));
    assert_eq!(backward_matches(h, "fox"), naive_backward(h, "fox"));
    let h = "abababababcababab";
    assert_eq!(forward_matches(h, "ababab"), naive_forward(h, "ababab"));
    assert_eq!(backward_matches(h, "ababab"), naive_backward(h, "ababab"));
    assert_eq!(forward_matches(h, "abc"), vec![(8, 11)]);
}

#[test]
fn reject_steps_skip_matches() {
    let mut s = StrSearcher::new("xaax", "aa");
    assert_eq!(s.next_reject(), Some((0, 1)));
    assert_eq!(s.next_reject(), Some((3, 4)));
    assert_eq!(s.next_reject(), None);
    let mut s = StrSearcher::new("xaax", "aa");
    assert_eq!(s.next_reject_back(), Some((3, 4)));
    assert_eq!(s.next_reject_back(), Some((0, 1)));
    assert_eq!(s.next_reject_back(), None);
}

#[test]
fn haystack_is_kept() {
    let s = StrSearcher::new("haystack", "st");
    assert_eq!(s.haystack(), "haystack");
}

#[test]
fn prefix_suffix_and_containment() {
    assert!(is_prefix_of("ab", "abc"));
    assert!(is_prefix_of("", "abc"));
    assert!(!is_prefix_of("bc", "abc"));
    assert!(!is_prefix_of("abcd", "abc"));
    assert!(is_suffix_of("bc", "abc"));
    assert!(is_suffix_of("", "abc"));
    assert!(!is_suffix_of("ab", "abc"));
    assert!(!is_suffix_of("xabc", "abc"));
    assert!(is_contained_in("needle", "a haystack with a needle in it"));
    assert!(!is_contained_in("xyz", "abc"));
    assert!(is_contained_in("", ""));
    assert!(is_contained_in("é", "café"));
}

#[test]
fn empty_needle_stays_done() {
    let mut s = StrSearcher::new("ab", "");
    assert_eq!(s.next(), SearchStep::Match(0, 0));
    assert_eq!(s.next(), SearchStep::Reject(0, 1));
    assert_eq!(s.next(), SearchStep::Match(1, 1));
    assert_eq!(s.next(), SearchStep::Reject(1, 2));
    assert_eq!(s.next(), SearchStep::Match(2, 2));
    assert_eq!(s.next(), SearchStep::Done);
    assert_eq!(s.next(), SearchStep::Done);
    assert_eq!(s.next(), SearchStep::Done);

    let mut s = StrSearcher::new("ab", "");
    assert_eq!(s.next_back(), SearchStep::Match(2, 2));
    assert_eq!(s.next_back(), SearchStep::Reject(1, 2));
    assert_eq!(s.next_back(), SearchStep::Match(1, 1));
    assert_eq!(s.next_back(), SearchStep::Reject(0, 1));
    assert_eq!(s.next_back(), SearchStep::Match(0, 0));
    assert_eq!(s.next_back(), SearchStep::Done);
    assert_eq!(s.next_back(), SearchStep::Done);
}
