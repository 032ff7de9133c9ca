use search_criteria::{
    multiword_rewrite_matches, prepare_raw_matches, BareMatch, DocIndex, DocumentId,
    PostingsTable, QueryEnhancer, QueryWordAutomaton, RawDocument, SimpleMatch,
};

fn at(attribute: u16, query_index: u16, word_index: u16) -> SimpleMatch {
    SimpleMatch { query_index, distance: 0, attribute, word_index, is_exact: true }
}

fn plain(count: usize) -> Vec<QueryWordAutomaton> {
    vec![QueryWordAutomaton { phrase_query: None }; count]
}

fn enhancer(replacements: &[(u32, u32)]) -> QueryEnhancer {
    QueryEnhancer { replacements: replacements.to_vec() }
}

fn phrase_of_two() -> Vec<QueryWordAutomaton> {
    vec![
        QueryWordAutomaton { phrase_query: Some((0, 2)) },
        QueryWordAutomaton { phrase_query: Some((1, 2)) },
        QueryWordAutomaton { phrase_query: None },
    ]
}

#[test]
fn nothing_to_rewrite() {
    let mut matches = vec![at(1, 2, 7), at(0, 1, 4), at(0, 0, 9), at(0, 1, 4), at(0, 0, 3)];
    let e = enhancer(&[(0, 1), (1, 2), (2, 3)]);
    let set = multiword_rewrite_matches(&mut matches, &e, &plain(3));
    assert_eq!(set, vec![at(0, 0, 3), at(0, 0, 9), at(0, 1, 4), at(1, 2, 7)]);
    // the matches themselves are left sorted by attribute, word and position
    assert_eq!(matches, vec![at(0, 0, 3), at(0, 0, 9), at(0, 1, 4), at(0, 1, 4), at(1, 2, 7)]);
}

#[test]
fn no_matches() {
    let set = multiword_rewrite_matches(&mut [], &enhancer(&[]), &[]);
    assert_eq!(set, vec![]);
}

#[test]
fn result_is_sorted_by_all_fields() {
    let a = SimpleMatch { query_index: 0, distance: 1, attribute: 0, word_index: 0, is_exact: false };
    let b = SimpleMatch { query_index: 0, distance: 0, attribute: 5, word_index: 9, is_exact: true };
    let c = SimpleMatch { query_index: 0, distance: 0, attribute: 5, word_index: 9, is_exact: false };
    let d = SimpleMatch { query_index: 0, distance: 0, attribute: 4, word_index: 9, is_exact: true };
    let mut matches = vec![a, b, c, d];
    let set = multiword_rewrite_matches(&mut matches, &enhancer(&[(0, 1)]), &plain(1));
    assert_eq!(set, vec![d, c, b, a]);
}

#[test]
fn order_of_matches_does_not_matter() {
    let e = enhancer(&[(0, 2), (1, 2), (2, 4)]);
    let mut one = vec![at(0, 0, 0), at(0, 1, 1), at(0, 2, 2), at(0, 1, 9)];
    let mut two = vec![at(0, 1, 9), at(0, 2, 2), at(0, 2, 2), at(0, 1, 1), at(0, 0, 0)];
    let first = multiword_rewrite_matches(&mut one, &e, &plain(3));
    let second = multiword_rewrite_matches(&mut two, &e, &plain(3));
    assert_eq!(first, second);
}

#[test]
fn phrase_keeps_side_by_side() {
    let e = enhancer(&[(0, 1), (1, 2), (2, 3)]);
    let mut matches = vec![
        at(0, 0, 5),
        at(0, 0, 9),
        at(0, 1, 4),
        at(0, 1, 6),
        at(0, 2, 30),
        // another attribute, where the words do not stand side by side
        at(1, 0, 5),
        at(1, 1, 6),
    ];
    let set = multiword_rewrite_matches(&mut matches, &e, &phrase_of_two());
    assert_eq!(set, vec![at(0, 0, 5), at(0, 1, 4), at(0, 2, 30)]);
}

#[test]
fn phrase_without_its_next_word() {
    let e = enhancer(&[(0, 1), (1, 2), (2, 3)]);
    let mut matches = vec![at(0, 0, 5), at(0, 2, 4)];
    let set = multiword_rewrite_matches(&mut matches, &e, &phrase_of_two());
    assert_eq!(set, vec![at(0, 2, 4)]);
}

#[test]
fn phrase_without_its_first_word() {
    let e = enhancer(&[(0, 1), (1, 2), (2, 3)]);
    let mut matches = vec![at(0, 1, 5), at(0, 2, 4)];
    let set = multiword_rewrite_matches(&mut matches, &e, &phrase_of_two());
    assert_eq!(set, vec![at(0, 2, 4)]);
}

#[test]
fn phrase_start_taken_for_the_second_word() {
    // three words that each start a phrase: the second one is taken for what
    // follows the first, so the third one begins anew
    let start = QueryWordAutomaton { phrase_query: Some((0, 2)) };
    let automatons = vec![start, start, start, QueryWordAutomaton { phrase_query: None }];
    let e = enhancer(&[(0, 1), (1, 2), (2, 3), (3, 4)]);
    let mut matches = vec![at(0, 0, 3), at(0, 1, 2), at(0, 2, 1)];
    let set = multiword_rewrite_matches(&mut matches, &e, &automatons);
    assert_eq!(set, vec![at(0, 0, 3), at(0, 1, 2)]);
    let mut matches = vec![at(0, 0, 3), at(0, 1, 2), at(0, 2, 1), at(0, 3, 0)];
    let set = multiword_rewrite_matches(&mut matches, &e, &automatons);
    assert_eq!(set, vec![at(0, 0, 3), at(0, 1, 2), at(0, 2, 1), at(0, 3, 0)]);
}

#[test]
fn second_word_of_a_phrase_needs_no_automaton() {
    let automatons = vec![QueryWordAutomaton { phrase_query: Some((0, 2)) }];
    let e = enhancer(&[(0, 1), (1, 2)]);
    let mut matches = vec![at(0, 0, 8), at(0, 1, 7)];
    let set = multiword_rewrite_matches(&mut matches, &e, &automatons);
    assert_eq!(set, vec![at(0, 0, 8), at(0, 1, 7)]);
}

#[test]
fn entire_padding_is_inserted() {
    let e = enhancer(&[(0, 3), (3, 4)]);
    let mut matches = vec![at(0, 0, 0), at(0, 1, 1)];
    let set = multiword_rewrite_matches(&mut matches, &e, &plain(2));
    assert_eq!(set, vec![at(0, 0, 0), at(0, 1, 1), at(0, 2, 2), at(0, 3, 3)]);
}

#[test]
fn padding_carries_the_match() {
    let m = SimpleMatch { query_index: 0, distance: 2, attribute: 3, word_index: 5, is_exact: false };
    let set = multiword_rewrite_matches(&mut [m], &enhancer(&[(4, 6)]), &plain(1));
    let first = SimpleMatch { query_index: 4, ..m };
    let second = SimpleMatch { query_index: 5, word_index: 6, ..m };
    assert_eq!(set, vec![first, second]);
}

#[test]
fn padding_already_there() {
    let e = enhancer(&[(0, 2), (1, 2), (2, 3)]);
    let mut matches = vec![at(0, 0, 0), at(0, 1, 1), at(0, 2, 5)];
    let set = multiword_rewrite_matches(&mut matches, &e, &plain(3));
    // the padding is not counted, so nothing is moved on
    assert_eq!(set, vec![at(0, 0, 0), at(0, 1, 1), at(0, 2, 5)]);
}

#[test]
fn words_before_the_one_found_are_inserted() {
    let e = enhancer(&[(0, 3), (2, 3), (3, 4)]);
    let mut matches = vec![at(0, 0, 0), at(0, 1, 1), at(0, 2, 2)];
    let set = multiword_rewrite_matches(&mut matches, &e, &plain(3));
    assert_eq!(set, vec![at(0, 0, 0), at(0, 1, 1), at(0, 2, 2), at(0, 3, 3)]);
}

#[test]
fn padding_found_at_several_positions() {
    let e = enhancer(&[(0, 4), (1, 2), (2, 3), (9, 10)]);
    let mut matches = vec![at(0, 0, 0), at(0, 1, 1), at(0, 2, 2), at(0, 3, 3)];
    let set = multiword_rewrite_matches(&mut matches, &e, &plain(4));
    // the last word of the padding is found nowhere, and not inserted
    assert_eq!(set, vec![at(0, 0, 0), at(0, 1, 1), at(0, 2, 2), at(0, 9, 3)]);
}

#[test]
fn padding_found_behind_a_gap() {
    // the next position is far away, and still answers
    let e = enhancer(&[(0, 2), (1, 2)]);
    let mut matches = vec![at(0, 0, 0), at(0, 1, 40)];
    let set = multiword_rewrite_matches(&mut matches, &e, &plain(2));
    assert_eq!(set, vec![at(0, 0, 0), at(0, 1, 1), at(0, 1, 40)]);
}

#[test]
fn widest_padding_at_a_position_counts() {
    let e = enhancer(&[(0, 2), (2, 6), (6, 7)]);
    let mut matches = vec![at(0, 0, 0), at(0, 1, 0), at(0, 2, 1)];
    let set = multiword_rewrite_matches(&mut matches, &e, &plain(3));
    assert_eq!(
        set,
        vec![
            at(0, 0, 0),
            at(0, 1, 1),
            at(0, 2, 0),
            at(0, 3, 1),
            at(0, 4, 2),
            at(0, 5, 3),
            at(0, 6, 4),
        ]
    );
}

#[test]
fn padding_stays_in_its_attribute() {
    let e = enhancer(&[(0, 3), (3, 4)]);
    let mut matches = vec![at(0, 0, 0), at(0, 1, 1), at(1, 1, 1)];
    let set = multiword_rewrite_matches(&mut matches, &e, &plain(2));
    assert_eq!(set, vec![at(0, 0, 0), at(0, 1, 1), at(0, 2, 2), at(0, 3, 3), at(1, 3, 1)]);

    // each attribute alone gives its part
    let mut here = vec![at(0, 0, 0), at(0, 1, 1)];
    let mut there = vec![at(1, 1, 1)];
    let mut parts = multiword_rewrite_matches(&mut here, &e, &plain(2));
    parts.extend(multiword_rewrite_matches(&mut there, &e, &plain(2)));
    assert_eq!(parts, set);
}

#[test]
fn last_position_of_an_attribute() {
    let mut matches = vec![at(0, 0, 65535)];
    let set = multiword_rewrite_matches(&mut matches, &enhancer(&[(0, 1)]), &plain(1));
    assert_eq!(set, vec![at(0, 0, 65535)]);
    let mut matches = vec![at(0, 0, 65534)];
    let set = multiword_rewrite_matches(&mut matches, &enhancer(&[(0, 2)]), &plain(1));
    assert_eq!(set, vec![at(0, 0, 65534), at(0, 1, 65535)]);
}

#[test]
fn query_indices_are_truncated() {
    let mut matches = vec![at(0, 0, 1)];
    let set = multiword_rewrite_matches(&mut matches, &enhancer(&[(65537, 65539)]), &plain(1));
    assert_eq!(set, vec![at(0, 1, 1), at(0, 2, 2)]);
}

fn raw(query_index: u16, distance: u8, is_exact: bool, postings_list: u32) -> BareMatch<u32> {
    BareMatch { document_id: DocumentId(7), query_index, distance, is_exact, postings_list }
}

fn place(attribute: u16, word_index: u16) -> DocIndex {
    DocIndex { attribute, word_index }
}

#[test]
fn raw_matches_are_prepared_once() {
    let mut postings = PostingsTable {
        lists: vec![vec![place(0, 4), place(1, 2)], vec![], vec![place(0, 5)]],
    };
    let done = at(3, 3, 3);
    let mut documents = vec![
        RawDocument {
            raw_matches: vec![raw(1, 2, false, 2), raw(0, 1, true, 0), raw(0, 0, true, 1)],
            processed_matches: vec![],
            processed_distances: vec![Some(9)],
        },
        RawDocument {
            raw_matches: vec![raw(0, 0, true, 0)],
            processed_matches: vec![done],
            processed_distances: vec![],
        },
        RawDocument { raw_matches: vec![], processed_matches: vec![], processed_distances: vec![] },
    ];
    let e = enhancer(&[(0, 1), (1, 2)]);
    let expected = vec![
        SimpleMatch { query_index: 0, distance: 1, attribute: 0, word_index: 4, is_exact: true },
        SimpleMatch { query_index: 0, distance: 1, attribute: 1, word_index: 2, is_exact: true },
        SimpleMatch { query_index: 1, distance: 2, attribute: 0, word_index: 5, is_exact: false },
    ];
    for _ in 0..2 {
        prepare_raw_matches(&mut documents, &mut postings, &e, &plain(2));
        assert_eq!(documents[0].processed_matches, expected);
        assert_eq!(documents[0].processed_distances, vec![Some(9)]);
        assert_eq!(documents[0].raw_matches.len(), 3);
        assert_eq!(documents[1].processed_matches, vec![done]);
        assert_eq!(documents[2].processed_matches, vec![]);
    }
}
