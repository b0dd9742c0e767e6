use x_aho_corasick::iter;
use x_aho_corasick::iter_ol;
use x_aho_corasick::ring_buffer::RingBuffer;
use x_aho_corasick::{FastPatternMatcher, Match};

fn all_of(mut it: iter::MatchIterator) -> Vec<Match> {
    it.collect_all()
}

fn all_overlapping_of(mut it: iter_ol::MatchIterator) -> Vec<Match> {
    it.collect_all()
}

fn is_occurrence(patterns: &[&[u8]], text: &[u8], m: &Match) -> bool {
    let p = patterns[m.pattern_index()];
    let s = m.start_pos();
    s + p.len() <= text.len() && &text[s..s + p.len()] == p
}

const WORDS: [&str; 8] = ["ma", "mama", "cat", "at", "ма", "кошка", "лужа", "каша"];
const TEXT: &str = "мама (mama) вела кошку (cat) к луже, а в каше была (was) малина (macatma)!";

#[test]
fn match_accessors_return_what_was_stored() {
    let m = Match::new(7, 3);
    assert_eq!(m.start_pos(), 7);
    assert_eq!(m.start(), 7);
    assert_eq!(m.pattern_index(), 3);
    assert_eq!(m.pattern(), 3);
}

#[test]
fn non_overlapping_matches_are_occurrences_and_disjoint() {
    let patterns: Vec<&[u8]> = WORDS.iter().map(|w| w.as_bytes()).collect();
    let matcher = FastPatternMatcher::new(&patterns);
    let text = TEXT.as_bytes();
    let ms = all_of(matcher.find_all_bytes_in(text));
    assert_eq!(ms.len(), 9);
    for m in &ms {
        assert!(is_occurrence(&patterns, text, m));
    }
    for w in ms.windows(2) {
        assert!(w[0].start_pos() + patterns[w[0].pattern_index()].len() <= w[1].start_pos());
    }
}

#[test]
fn overlapping_matches_are_all_occurrences() {
    let patterns: Vec<&[u8]> = vec![b"he", b"she", b"his", b"hers"];
    let matcher = FastPatternMatcher::new(&patterns);
    let text = b"ushers";
    let ms = all_overlapping_of(matcher.find_all_bytes_overlapping_in(text));
    // every occurrence, by end position, longest first
    assert_eq!(ms, vec![Match::new(1, 1), Match::new(2, 0), Match::new(2, 3)]);
    for m in &ms {
        assert!(is_occurrence(&patterns, text, m));
    }
}

#[test]
fn overlapping_keeps_the_last_32_matches_ending_at_a_byte() {
    let words: Vec<Vec<u8>> = (1..=40).map(|n| vec![b'a'; n]).collect();
    let patterns: Vec<&[u8]> = words.iter().map(|w| w.as_slice()).collect();
    let matcher = FastPatternMatcher::new(&patterns);
    let text = vec![b'a'; 40];
    let ms = all_overlapping_of(matcher.find_all_bytes_overlapping_in(&text));
    // min(i + 1, 32) matches end at byte i
    assert_eq!(ms.len(), 528 + 8 * 32);
    // at the last byte the 8 longest of the 40 matches are dropped
    let last = &ms[ms.len() - 32..];
    assert_eq!(last[0], Match::new(8, 31));
    assert_eq!(last[31], Match::new(39, 0));
}

#[test]
fn find_any_is_the_first_non_overlapping_match() {
    let patterns: Vec<&[u8]> = WORDS.iter().map(|w| w.as_bytes()).collect();
    let matcher = FastPatternMatcher::new(&patterns);
    let text = "the (cat) sat on a mat";
    let first = matcher.find_any_in(text);
    let all = all_of(matcher.find_all_in(text));
    assert_eq!(first, Some(all[0]));
    assert_eq!(first, Some(Match::new(5, 2)));
    assert_eq!(matcher.find_any_byte_in(text.as_bytes()), first);
}

#[test]
fn duplicate_patterns_are_reported_under_the_last_index() {
    let patterns: Vec<&[u8]> = vec![b"ab", b"xy", b"ab"];
    let matcher = FastPatternMatcher::new(&patterns);
    assert_eq!(all_of(matcher.find_all_bytes_in(b"zab")), vec![Match::new(1, 2)]);
    assert_eq!(all_overlapping_of(matcher.find_all_bytes_overlapping_in(b"zab")), vec![Match::new(1, 2)]);
}

#[test]
fn empty_pattern_only_in_non_overlapping_search() {
    let patterns: Vec<&[u8]> = vec![b"", b"a"];
    let matcher = FastPatternMatcher::new(&patterns);
    // the state after "b" is the start state, which spells the empty pattern
    assert_eq!(all_of(matcher.find_all_bytes_in(b"ba")), vec![Match::new(1, 0), Match::new(1, 1)]);
    assert_eq!(all_overlapping_of(matcher.find_all_bytes_overlapping_in(b"ba")), vec![Match::new(1, 1)]);
}

#[test]
fn non_overlapping_reports_a_pattern_inside_the_state() {
    let patterns: Vec<&[u8]> = vec![b"abcd", b"bc"];
    let matcher = FastPatternMatcher::new(&patterns);
    // after "abc" the state is "abc", no pattern, but its suffix "bc" is one
    assert_eq!(all_of(matcher.find_all_bytes_in(b"abce")), vec![Match::new(1, 1)]);
    // "bc" ends before "abcd" does, so it is the one reported
    assert_eq!(all_of(matcher.find_all_bytes_in(b"abcd")), vec![Match::new(1, 1)]);
    assert_eq!(matcher.find_any_byte_in(b"abce"), Some(Match::new(1, 1)));
    assert_eq!(matcher.find_any_in("abce"), Some(Match::new(1, 1)));
    assert_eq!(
        all_overlapping_of(matcher.find_all_bytes_overlapping_in(b"abce")),
        vec![Match::new(1, 1)]
    );
}

#[test]
fn non_overlapping_prefers_the_longest_of_the_patterns_ending_first() {
    let patterns: Vec<&[u8]> = vec![b"c", b"abc", b"bc"];
    let matcher = FastPatternMatcher::new(&patterns);
    assert_eq!(all_of(matcher.find_all_bytes_in(b"xabcabc")), vec![Match::new(1, 1), Match::new(4, 1)]);
    assert_eq!(all_of(matcher.find_all_bytes_in(b"xbcc")), vec![Match::new(1, 2), Match::new(3, 0)]);
}

#[test]
fn find_any_is_some_exactly_when_a_pattern_occurs() {
    let patterns: Vec<&[u8]> = vec![b"needle", b"dle"];
    let matcher = FastPatternMatcher::new(&patterns);
    assert_eq!(matcher.find_any_byte_in(b"haystack"), None);
    assert_eq!(matcher.find_any_byte_in(b"a needl"), None);
    assert_eq!(matcher.find_any_byte_in(b"a needle"), Some(Match::new(2, 0)));
    assert_eq!(matcher.find_any_byte_in(b"neeedle"), Some(Match::new(4, 1)));
}

#[test]
fn pattern_longer_than_text_and_no_patterns() {
    let patterns: Vec<&[u8]> = vec![b"abcdef"];
    let matcher = FastPatternMatcher::new(&patterns);
    assert_eq!(matcher.find_any_byte_in(b"abc"), None);
    let none: Vec<&[u8]> = vec![];
    let empty = FastPatternMatcher::new(&none);
    assert_eq!(all_of(empty.find_all_bytes_in(b"abc")), vec![]);
    assert_eq!(all_overlapping_of(empty.find_all_bytes_overlapping_in(b"abc")), vec![]);
}

#[test]
fn exhausted_iterators_stay_exhausted() {
    let patterns: Vec<&[u8]> = vec![b"a"];
    let matcher = FastPatternMatcher::new(&patterns);
    let mut it = matcher.find_all_bytes_in(b"a");
    assert_eq!(it.next(), Some(Match::new(0, 0)));
    assert_eq!(it.next(), None);
    assert_eq!(it.next(), None);
    assert_eq!(it.collect_all(), vec![]);
    let mut it = matcher.find_all_bytes_overlapping_in(b"a");
    assert_eq!(it.next(), Some(Match::new(0, 0)));
    assert_eq!(it.next(), None);
    assert_eq!(it.next(), None);
}

#[test]
fn ring_buffer_wraps_around_in_order() {
    let mut buf = RingBuffer::new();
    for i in 0..30u32 {
        buf.push_back(i);
    }
    for i in 0..20u32 {
        assert_eq!(buf.pop_front(), Some(i));
    }
    for i in 30..50u32 {
        buf.push_back(i);
    }
    assert_eq!(buf.len(), 30);
    for i in 20..50u32 {
        assert_eq!(buf.pop_front(), Some(i));
    }
    assert_eq!(buf.pop_front(), None);
}

#[test]
fn non_overlapping_matches_cover_every_occurrence() {
    let patterns: Vec<&[u8]> = vec![b"aa"];
    let matcher = FastPatternMatcher::new(&patterns);
    let text = b"aaaaa";
    let ms = all_of(matcher.find_all_bytes_in(text));
    assert_eq!(ms, vec![Match::new(0, 0), Match::new(2, 0)]);
    for start in 0..4usize {
        assert!(ms.iter().any(|m| m.start_pos() < start + 2 && start < m.start_pos() + 2));
    }
}

#[test]
fn a_byte_absent_from_all_patterns_restarts_the_search() {
    let patterns: Vec<&[u8]> = vec![b"abc", b"bcd", b"cd"];
    let matcher = FastPatternMatcher::new(&patterns);
    let a = b"xabcd";
    let b = b"bcdab";
    let mut whole = a.to_vec();
    whole.push(b'#');
    whole.extend_from_slice(b);
    let mut expected = all_of(matcher.find_all_bytes_in(a));
    for m in all_of(matcher.find_all_bytes_in(b)) {
        expected.push(Match::new((m.start_pos() + a.len() + 1) as u32, m.pattern_index() as u32));
    }
    assert_eq!(all_of(matcher.find_all_bytes_in(&whole)), expected);
    assert_eq!(expected, vec![Match::new(1, 0), Match::new(6, 1)]);
}

#[test]
fn overlapping_search_of_a_prefix_is_a_prefix_of_the_search() {
    let patterns: Vec<&[u8]> = vec![b"he", b"she", b"his", b"hers"];
    let matcher = FastPatternMatcher::new(&patterns);
    let text = b"ushershis";
    let whole = all_overlapping_of(matcher.find_all_bytes_overlapping_in(text));
    for e in 0..=text.len() {
        let part = all_overlapping_of(matcher.find_all_bytes_overlapping_in(&text[..e]));
        let within: Vec<Match> = whole
            .iter()
            .copied()
            .filter(|m| m.start_pos() + patterns[m.pattern_index()].len() <= e)
            .collect();
        assert_eq!(part, within);
        assert_eq!(&whole[..part.len()], &part[..]);
    }
}

#[test]
fn reordering_patterns_only_renames_indices() {
    let p: Vec<&[u8]> = vec![b"he", b"she", b"his", b"hers"];
    let q: Vec<&[u8]> = vec![b"hers", b"he", b"his", b"she"];
    let perm = [1usize, 3, 2, 0];
    let text = b"ushershis";
    let from_p = all_overlapping_of(FastPatternMatcher::new(&p).find_all_bytes_overlapping_in(text));
    let from_q = all_overlapping_of(FastPatternMatcher::new(&q).find_all_bytes_overlapping_in(text));
    let renamed: Vec<Match> = from_p
        .iter()
        .map(|m| Match::new(m.start_pos() as u32, perm[m.pattern_index()] as u32))
        .collect();
    assert_eq!(from_q, renamed);
}

#[test]
fn first_match_depends_only_on_the_bytes_up_to_its_end() {
    let patterns: Vec<&[u8]> = vec![b"bc", b"abcd"];
    let matcher = FastPatternMatcher::new(&patterns);
    let first = matcher.find_any_byte_in(b"abcxyz").unwrap();
    assert_eq!(first, Match::new(1, 0));
    assert_eq!(matcher.find_any_byte_in(b"abcd"), Some(first));
    assert_eq!(matcher.find_any_byte_in(b"abc"), Some(first));
}

#[test]
fn non_overlapping_matches_appear_in_order_among_overlapping_ones() {
    let patterns: Vec<&[u8]> = vec![b"ab", b"b", b"bab", b"abab"];
    let matcher = FastPatternMatcher::new(&patterns);
    let text = b"ababbab";
    let non = all_of(matcher.find_all_bytes_in(text));
    let all = all_overlapping_of(matcher.find_all_bytes_overlapping_in(text));
    let mut at = 0;
    for m in &non {
        while all[at] != *m {
            at += 1;
        }
        at += 1;
    }
    assert!(!non.is_empty());
}
