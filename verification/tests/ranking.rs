use std::cmp::Ordering;

use search_criteria::{
    prepare_query_distances, Attribute, BareMatch, Criterion, DocIndex, DocumentId, Exact,
    PostingsTable, Proximity, QueryEnhancer, QueryWordAutomaton, RawDocument, SimpleMatch,
    StableDocId, Typo, Words, WordsPosition,
};

type Document = RawDocument<u32>;

fn postings() -> PostingsTable {
    PostingsTable { lists: vec![] }
}

fn name(criterion: &impl Criterion<PostingsTable>) -> String {
    criterion.name().to_string()
}

fn order(criterion: &impl Criterion<PostingsTable>, lhs: &Document, rhs: &Document) -> Ordering {
    let postings = postings();
    let ordering = criterion.evaluate(lhs, rhs, &postings);
    assert_eq!(criterion.evaluate(rhs, lhs, &postings), ordering.reverse());
    assert_eq!(criterion.eq(lhs, rhs, &postings), ordering == Ordering::Equal);
    ordering
}

fn raw(id: u64, query_index: u16, distance: u8, is_exact: bool) -> BareMatch<u32> {
    BareMatch { document_id: DocumentId(id), query_index, distance, is_exact, postings_list: 0 }
}

fn document(raw_matches: Vec<BareMatch<u32>>) -> Document {
    RawDocument { raw_matches, processed_matches: vec![], processed_distances: vec![] }
}

fn processed(matches: &[(u16, u16, u16)]) -> Document {
    let processed_matches = matches
        .iter()
        .map(|&(query_index, attribute, word_index)| SimpleMatch {
            query_index,
            distance: 0,
            attribute,
            word_index,
            is_exact: false,
        })
        .collect();
    RawDocument { raw_matches: vec![], processed_matches, processed_distances: vec![] }
}

fn with_distances(distances: &[Option<u8>]) -> Document {
    RawDocument {
        raw_matches: vec![],
        processed_matches: vec![],
        processed_distances: distances.to_vec(),
    }
}

fn enhancer(replacements: &[(u32, u32)]) -> QueryEnhancer {
    QueryEnhancer { replacements: replacements.to_vec() }
}

#[test]
fn names_of_the_criteria() {
    assert_eq!(Typo.name(), "typo");
    assert_eq!(name(&Words), "words");
    assert_eq!(name(&Proximity), "proximity");
    assert_eq!(name(&Attribute), "attribute");
    assert_eq!(name(&WordsPosition), "words position");
    assert_eq!(name(&Exact), "exact");
    assert_eq!(name(&StableDocId), "stable document id");
}

#[test]
fn replacements_are_found() {
    assert_eq!(enhancer(&[(0, 1), (4, 9)]).replacement(1), 4..9);
}

#[test]
fn closest_distance_of_each_word() {
    let e = enhancer(&[(0, 1), (1, 3), (0, 3), (5, 6)]);
    let mut documents = vec![document(vec![
        raw(0, 0, 2, false),
        raw(0, 1, 1, false),
        raw(0, 2, 2, false),
        raw(0, 2, 1, false),
        raw(0, 3, 0, false),
    ])];
    prepare_query_distances(&mut documents, &e);
    let expected = vec![Some(1), Some(1), Some(1), None, None, Some(0)];
    assert_eq!(documents[0].processed_distances, expected);
    prepare_query_distances(&mut documents, &e);
    assert_eq!(documents[0].processed_distances, expected);
    assert_eq!(documents[0].raw_matches.len(), 5);
}

#[test]
fn a_match_that_reaches_less_far_cuts_the_distances() {
    let e = enhancer(&[(0, 3), (0, 1), (4, 2)]);
    let mut documents = vec![document(vec![raw(0, 0, 3, false), raw(0, 1, 1, false)])];
    prepare_query_distances(&mut documents, &e);
    assert_eq!(documents[0].processed_distances, vec![Some(1)]);
    // words that end before they begin are none, and still reach this far
    let mut documents = vec![document(vec![raw(0, 0, 3, false), raw(0, 2, 1, false)])];
    prepare_query_distances(&mut documents, &e);
    assert_eq!(documents[0].processed_distances, vec![Some(3), Some(3)]);
}

#[test]
fn known_distances_stay() {
    let mut documents = vec![with_distances(&[None]), document(vec![])];
    documents[0].raw_matches.push(raw(0, 0, 0, true));
    prepare_query_distances(&mut documents, &enhancer(&[(0, 1)]));
    assert_eq!(documents[0].processed_distances, vec![None]);
    assert_eq!(documents[1].processed_distances, vec![]);
}

#[test]
fn more_words_first() {
    let two = with_distances(&[Some(0), None, Some(3)]);
    let one = with_distances(&[None, None, None, Some(0)]);
    assert_eq!(order(&Words, &two, &one), Ordering::Less);
    assert_eq!(order(&Words, &one, &with_distances(&[Some(2)])), Ordering::Equal);
    assert_eq!(order(&Words, &one, &with_distances(&[])), Ordering::Less);
}

#[test]
fn words_prepares_distances() {
    let e = enhancer(&[(0, 2), (2, 3)]);
    let mut documents = vec![
        document(vec![raw(0, 1, 0, true)]),
        document(vec![raw(1, 0, 1, false), raw(1, 1, 0, true)]),
    ];
    Words.prepare(&mut documents, &mut postings(), &e, &[]);
    assert_eq!(documents[0].processed_distances, vec![None, None, Some(0)]);
    assert_eq!(documents[1].processed_distances, vec![Some(1), Some(1), Some(0)]);
    assert_eq!(order(&Words, &documents[0], &documents[1]), Ordering::Greater);
}

#[test]
fn typo_prepares_distances() {
    let e = enhancer(&[(0, 1), (1, 2)]);
    let mut documents = vec![document(vec![raw(0, 0, 1, false), raw(0, 1, 2, true)])];
    Typo.prepare(&mut documents, &mut postings(), &e, &[]);
    assert_eq!(documents[0].processed_distances, vec![Some(1), Some(2)]);
}

#[test]
fn typos_of_found_words() {
    assert_eq!(Typo.typos(&[Some(1), None, Some(0), Some(3), None]), vec![1, 0, 3]);
    assert_eq!(Typo.typos(&[]), vec![]);
}

#[test]
fn larger_scores_first() {
    assert_eq!(Typo.evaluate_scores(1000, 768), Ordering::Less);
    assert_eq!(Typo.evaluate_scores(768, 1000), Ordering::Greater);
    assert_eq!(Typo.evaluate_scores(768, 768), Ordering::Equal);
}

#[test]
fn closer_words_first() {
    // next to each other, in the order of the query
    let one = processed(&[(0, 0, 3), (1, 0, 4)]);
    // in the opposite order, one more
    let two = processed(&[(0, 0, 4), (1, 0, 3)]);
    assert_eq!(order(&Proximity, &one, &two), Ordering::Less);
    // at the same position, as far as next to each other
    assert_eq!(order(&Proximity, &one, &processed(&[(0, 0, 4), (1, 0, 4)])), Ordering::Equal);
    // the closest two matches count
    let close = processed(&[(0, 0, 0), (0, 0, 9), (1, 0, 10), (1, 0, 30)]);
    assert_eq!(order(&Proximity, &one, &close), Ordering::Equal);
}

#[test]
fn distances_are_not_told_apart_from_eight_on() {
    let eight = processed(&[(0, 0, 0), (1, 0, 8)]);
    let far = processed(&[(0, 0, 0), (1, 0, 500)]);
    let elsewhere = processed(&[(0, 0, 0), (1, 1, 1)]);
    let backwards = processed(&[(0, 0, 500), (1, 0, 0)]);
    let seven = processed(&[(0, 0, 0), (1, 0, 7)]);
    assert_eq!(order(&Proximity, &eight, &far), Ordering::Equal);
    assert_eq!(order(&Proximity, &eight, &elsewhere), Ordering::Equal);
    assert_eq!(order(&Proximity, &eight, &backwards), Ordering::Less);
    assert_eq!(order(&Proximity, &seven, &eight), Ordering::Less);
}

#[test]
fn distances_of_following_words_are_summed_up() {
    // 2 + 3
    let five = processed(&[(0, 0, 0), (1, 0, 2), (4, 0, 5)]);
    let also_five = processed(&[(0, 0, 0), (1, 0, 5)]);
    let four = processed(&[(0, 0, 0), (1, 0, 4)]);
    assert_eq!(order(&Proximity, &five, &also_five), Ordering::Equal);
    assert_eq!(order(&Proximity, &five, &four), Ordering::Greater);
    // a single word and no word are no distance apart
    assert_eq!(order(&Proximity, &processed(&[(3, 0, 9)]), &processed(&[])), Ordering::Equal);
    assert_eq!(order(&Proximity, &processed(&[]), &four), Ordering::Less);
}

#[test]
fn smaller_attributes_first() {
    let one = processed(&[(0, 4, 0), (0, 0, 0), (1, 1, 0)]);
    let two = processed(&[(0, 2, 0)]);
    assert_eq!(order(&Attribute, &one, &two), Ordering::Less);
    // only the first match of a word counts
    let one_as_well = processed(&[(0, 1, 0), (0, 0, 7)]);
    assert_eq!(order(&Attribute, &one, &one_as_well), Ordering::Equal);
    assert_eq!(order(&Attribute, &two, &processed(&[])), Ordering::Less);
    assert_eq!(order(&Attribute, &processed(&[(0, 65535, 0)]), &processed(&[])), Ordering::Equal);
}

#[test]
fn positions_of_first_matches_are_summed_up() {
    let seven = processed(&[(0, 0, 3), (0, 0, 1), (2, 0, 4)]);
    let eight = processed(&[(0, 0, 8)]);
    assert_eq!(order(&WordsPosition, &seven, &eight), Ordering::Less);
    assert_eq!(order(&WordsPosition, &seven, &processed(&[(1, 5, 7)])), Ordering::Equal);
    assert_eq!(order(&WordsPosition, &processed(&[]), &seven), Ordering::Less);
    // a word that comes again is counted again
    let again = processed(&[(0, 0, 3), (2, 0, 4), (0, 0, 1)]);
    assert_eq!(order(&WordsPosition, &again, &eight), Ordering::Equal);
}

#[test]
fn matches_are_prepared_for_their_criteria() {
    let e = enhancer(&[(0, 1), (1, 2)]);
    let automatons = [QueryWordAutomaton { phrase_query: None }; 2];
    let lists = vec![
        vec![DocIndex { attribute: 2, word_index: 1 }],
        vec![DocIndex { attribute: 2, word_index: 4 }],
    ];
    let found = document(vec![
        raw(0, 0, 0, true),
        BareMatch { postings_list: 1, ..raw(0, 1, 0, true) },
    ]);
    let expected = vec![
        SimpleMatch { query_index: 0, distance: 0, attribute: 2, word_index: 1, is_exact: true },
        SimpleMatch { query_index: 1, distance: 0, attribute: 2, word_index: 4, is_exact: true },
    ];
    let mut table = PostingsTable { lists };
    let mut documents = vec![found.clone()];
    Proximity.prepare(&mut documents, &mut table, &e, &automatons);
    assert_eq!(documents[0].processed_matches, expected);
    let three = processed(&[(0, 0, 0), (1, 0, 3)]);
    assert_eq!(order(&Proximity, &documents[0], &three), Ordering::Equal);
    let mut documents = vec![found.clone()];
    Attribute.prepare(&mut documents, &mut table, &e, &automatons);
    assert_eq!(documents[0].processed_matches, expected);
    let mut documents = vec![found];
    WordsPosition.prepare(&mut documents, &mut table, &e, &automatons);
    assert_eq!(documents[0].processed_matches, expected);
    assert_eq!(table.lists.len(), 2);
}

#[test]
fn exact_words_first() {
    let mut documents = vec![
        document(vec![
            raw(0, 1, 0, false),
            raw(0, 0, 0, false),
            raw(0, 1, 0, true),
            raw(0, 0, 1, true),
        ]),
        document(vec![raw(1, 0, 0, true), raw(1, 0, 1, true), raw(1, 3, 0, false)]),
    ];
    Exact.prepare(&mut documents, &mut postings(), &enhancer(&[]), &[]);
    let sorted: Vec<(u16, bool)> =
        documents[0].raw_matches.iter().map(|m| (m.query_index, m.is_exact)).collect();
    assert_eq!(sorted, vec![(0, true), (0, false), (1, true), (1, false)]);
    // two words against one
    assert_eq!(order(&Exact, &documents[0], &documents[1]), Ordering::Less);
    assert_eq!(order(&Exact, &documents[1], &document(vec![])), Ordering::Less);
}

#[test]
fn exactness_is_read_off_the_first_match() {
    let hidden = document(vec![raw(0, 0, 0, false), raw(0, 0, 0, true)]);
    assert_eq!(order(&Exact, &hidden, &document(vec![])), Ordering::Equal);
}

#[test]
fn smaller_identifiers_first() {
    let mut documents = vec![
        document(vec![raw(3, 0, 0, true), raw(0, 0, 0, true)]),
        document(vec![raw(4, 0, 0, true)]),
    ];
    StableDocId.prepare(&mut documents, &mut postings(), &enhancer(&[]), &[]);
    assert_eq!(order(&StableDocId, &documents[0], &documents[1]), Ordering::Less);
    let same = document(vec![raw(4, 9, 3, false)]);
    assert_eq!(order(&StableDocId, &same, &documents[1]), Ordering::Equal);
}

#[test]
fn documents_are_sortable() {
    let documents = vec![
        processed(&[(0, 0, 0), (1, 0, 9)]),
        processed(&[(0, 0, 0), (1, 0, 1)]),
        processed(&[(0, 1, 4), (1, 1, 2)]),
    ];
    for a in &documents {
        for b in &documents {
            for c in &documents {
                let ab = order(&Proximity, a, b);
                if ab != Ordering::Greater && order(&Proximity, b, c) != Ordering::Greater {
                    assert_ne!(order(&Proximity, a, c), Ordering::Greater);
                }
            }
        }
    }
}

#[test]
fn sorting_by_exactness_does_not_change_prepared_matches() {
    let e = enhancer(&[(0, 2), (2, 3)]);
    let automatons = [QueryWordAutomaton { phrase_query: None }; 2];
    let mut table = PostingsTable {
        lists: vec![
            vec![DocIndex { attribute: 0, word_index: 1 }],
            vec![DocIndex { attribute: 0, word_index: 2 }, DocIndex { attribute: 0, word_index: 1 }],
        ],
    };
    let found = document(vec![
        BareMatch { postings_list: 1, ..raw(0, 1, 0, false) },
        raw(0, 0, 1, false),
        BareMatch { postings_list: 1, ..raw(0, 0, 0, true) },
    ]);
    let mut plain = vec![found.clone()];
    Proximity.prepare(&mut plain, &mut table, &e, &automatons);
    let mut sorted = vec![found];
    Exact.prepare(&mut sorted, &mut table, &e, &automatons);
    Proximity.prepare(&mut sorted, &mut table, &e, &automatons);
    assert_eq!(plain[0].processed_matches, sorted[0].processed_matches);
    assert!(!plain[0].processed_matches.is_empty());
}

#[test]
fn distances_of_many_words_can_be_summed_up() {
    // 7282 words, each one far before the next one: 9 * 7281
    let far: Vec<(u16, u16, u16)> = (0..7282).map(|q| (q, 0, 8 * (7281 - q))).collect();
    let near: Vec<(u16, u16, u16)> = (0..7282).map(|q| (q, 0, q)).collect();
    assert_eq!(order(&Proximity, &processed(&near), &processed(&far)), Ordering::Less);
}
