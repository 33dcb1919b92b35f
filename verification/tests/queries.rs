use std::collections::HashMap;

use everyfile::model::SearchResult;
use everyfile::paths::FilePath;
use everyfile::query::{
    normalize_search_text, rank_candidates, rank_candidates_with_options, CancellationToken,
    QueryCandidate, QuerySession, RankedResults, SortDirection, SortField, SortOrder,
};
use everyfile::relevance::has_segment_prefix;
use everyfile::text::chars_of;
use everyfile::unicode::strip_latin_marks;

fn candidate(id: u64, name: &str, path: &str) -> QueryCandidate {
    QueryCandidate {
        result: SearchResult {
            entry_id: id,
            name: name.into(),
            path: FilePath::new(path),
            size: 0,
            created_ns: None,
            modified_ns: None,
        },
        normalized_name: normalize_search_text(name),
        normalized_path: normalize_search_text(path),
    }
}

fn ranked(
    candidates: Vec<QueryCandidate>,
    field: SortField,
    direction: SortDirection,
    limit: usize,
) -> RankedResults {
    rank_candidates_with_options(
        "",
        candidates,
        &HashMap::new(),
        limit,
        SortOrder { field, direction },
        &CancellationToken::default(),
    )
}

fn ids(rows: &[SearchResult]) -> Vec<u64> {
    rows.iter().map(|row| row.entry_id).collect()
}

#[test]
fn canonical_casefold_and_latin_diacritics_share_one_form() {
    assert_eq!(normalize_search_text("CAFÉ"), "cafe");
    assert_eq!(normalize_search_text("Cafe\u{301}"), "cafe");
    assert_eq!(normalize_search_text("Straße"), "strasse");
}

#[test]
fn and_terms_may_split_between_name_and_path() {
    let results = rank_candidates(
        "budget quarterly",
        vec![candidate(1, "Budget.txt", "/Reports/Quarterly/Budget.txt")],
        &HashMap::new(),
        100,
    );
    assert_eq!(results.len(), 1);
}

#[test]
fn match_classes_precede_recent_history() {
    let candidates = vec![
        candidate(1, "report", "/long/report"),
        candidate(2, "my-report", "/short/my-report"),
    ];
    let recent = HashMap::from([(2, 999)]);
    let results = rank_candidates("report", candidates, &recent, 100);
    assert_eq!(results[0].entry_id, 1);
}

#[test]
fn recent_history_breaks_only_late_same_class_ties() {
    let candidates = vec![
        candidate(1, "a-report", "/a/a-report"),
        candidate(2, "b-report", "/b/b-report"),
    ];
    let recent = HashMap::from([(2, 99)]);
    let results = rank_candidates("report", candidates, &recent, 100);
    assert_eq!(results[0].entry_id, 2);
}

#[test]
fn every_relevance_class_has_the_locked_order() {
    let candidates = vec![
        candidate(5, "other", "/report/other"),
        candidate(4, "myreport", "/myreport"),
        candidate(3, "my-report", "/my-report"),
        candidate(2, "report-final", "/report-final"),
        candidate(1, "report", "/report"),
    ];
    let ids: Vec<_> = rank_candidates("report", candidates, &HashMap::new(), 100)
        .into_iter()
        .map(|result| result.entry_id)
        .collect();
    assert_eq!(ids, vec![1, 2, 3, 4, 5]);
}

#[test]
fn name_term_count_then_lengths_then_path_are_stable_ties() {
    let candidates = vec![
        candidate(4, "alpha-long", "/z/quarterly/alpha-long"),
        candidate(3, "alpha", "/long/quarterly/alpha"),
        candidate(2, "alpha", "/b/quarterly/alpha"),
        candidate(1, "alpha-quarterly", "/a/alpha-quarterly"),
    ];
    let ids: Vec<_> = rank_candidates("alpha quarterly", candidates, &HashMap::new(), 100)
        .into_iter()
        .map(|result| result.entry_id)
        .collect();
    assert_eq!(ids, vec![1, 2, 3, 4]);
}

#[test]
fn non_latin_diacritics_are_not_discarded() {
    assert_ne!(normalize_search_text("ά"), normalize_search_text("α"));
}

#[test]
fn every_selected_field_supports_both_directions() {
    let mut first = candidate(1, "alpha", "/z/alpha");
    first.result.size = 10;
    first.result.created_ns = Some(10);
    first.result.modified_ns = Some(30);
    let mut second = candidate(2, "beta", "/a/beta");
    second.result.size = 20;
    second.result.created_ns = Some(20);
    second.result.modified_ns = Some(20);
    for field in [
        SortField::ModificationTime,
        SortField::CreationTime,
        SortField::FileName,
        SortField::FullPath,
        SortField::FileSize,
    ] {
        let ascending = ranked(
            vec![first.clone(), second.clone()],
            field,
            SortDirection::Ascending,
            100,
        );
        let descending = ranked(
            vec![first.clone(), second.clone()],
            field,
            SortDirection::Descending,
            100,
        );
        let ascending_ids: Vec<_> = ascending.rows.iter().map(|row| row.entry_id).collect();
        let descending_ids: Vec<_> = descending.rows.iter().map(|row| row.entry_id).collect();
        assert_eq!(
            descending_ids,
            ascending_ids.into_iter().rev().collect::<Vec<_>>()
        );
    }
}

#[test]
fn missing_metadata_is_last_in_both_directions() {
    let mut missing = candidate(1, "missing", "/missing");
    missing.result.modified_ns = None;
    let mut present = candidate(2, "present", "/present");
    present.result.modified_ns = Some(5);
    for direction in [SortDirection::Ascending, SortDirection::Descending] {
        let result = ranked(
            vec![missing.clone(), present.clone()],
            SortField::ModificationTime,
            direction,
            100,
        );
        assert_eq!(
            result
                .rows
                .iter()
                .map(|row| row.entry_id)
                .collect::<Vec<_>>(),
            vec![2, 1]
        );
    }
}

#[test]
fn high_match_queries_retain_only_the_requested_frontier() {
    let candidates: Vec<_> = (0..10_000)
        .map(|id| candidate(id, &format!("file-{id}"), &format!("/{id}")))
        .collect();
    let result = ranked(
        candidates,
        SortField::FileName,
        SortDirection::Ascending,
        100,
    );
    assert_eq!(result.exact_total, 10_000);
    assert_eq!(result.rows.len(), 100);
    assert_eq!(result.max_retained, 100);
}

#[test]
fn cancelled_query_publishes_no_rows_for_every_sort() {
    for field in [
        SortField::Relevance,
        SortField::ModificationTime,
        SortField::CreationTime,
        SortField::FileName,
        SortField::FullPath,
        SortField::FileSize,
    ] {
        let cancellation = CancellationToken::default();
        cancellation.cancel();
        let result = rank_candidates_with_options(
            "",
            vec![candidate(1, "old", "/old")],
            &HashMap::new(),
            100,
            SortOrder {
                field,
                direction: SortDirection::Ascending,
            },
            &cancellation,
        );
        assert!(result.cancelled);
        assert!(result.rows.is_empty());
        assert_eq!(result.exact_total, 0);
        assert_eq!(result.max_retained, 0);
    }
}

#[test]
fn later_frontier_preserves_the_first_page_prefix() {
    let corpus: Vec<_> = (0..250)
        .rev()
        .map(|id| candidate(id, &format!("file-{id:03}"), &format!("/{id:03}")))
        .collect();
    let first = ranked(
        corpus.clone(),
        SortField::FileName,
        SortDirection::Ascending,
        100,
    );
    let later = ranked(corpus, SortField::FileName, SortDirection::Ascending, 200);
    assert_eq!(first.rows, later.rows[..100]);
    assert_eq!(later.exact_total, 250);
}

#[test]
fn ascii_text_is_lower_cased() {
    assert_eq!(normalize_search_text("AZ az_09 [~]"), "az az_09 [~]");
    assert_eq!(normalize_search_text(""), "");
}

#[test]
fn marks_stay_behind_other_characters_than_latin_ones() {
    let text: Vec<char> = "e\u{301}x\u{3b1}\u{301}\u{302}o\u{308}".chars().collect();
    let marks: Vec<bool> = text
        .iter()
        .map(|character| matches!(*character as u32, 0x300..=0x36F))
        .collect();
    assert_eq!(
        strip_latin_marks(&text, &marks),
        "ex\u{3b1}\u{301}\u{302}o"
    );
    assert_eq!(strip_latin_marks(&['\u{301}', 'a'], &[true, false]), "\u{301}a");
}

#[test]
fn composed_and_decomposed_spellings_outside_latin_agree() {
    assert_eq!(
        normalize_search_text("\u{386}"),
        normalize_search_text("\u{391}\u{301}")
    );
    assert_eq!(normalize_search_text("\u{386}"), "\u{3b1}\u{301}");
}

#[test]
fn white_space_separates_terms_and_empty_terms_disappear() {
    let results = rank_candidates(
        "\u{3000} b\t\ta \n",
        vec![
            candidate(1, "ab", "/x/ab"),
            candidate(2, "a", "/x/a"),
            candidate(3, "c", "/ba/c"),
        ],
        &HashMap::new(),
        10,
    );
    assert_eq!(ids(&results), vec![1, 3]);
}

#[test]
fn a_query_without_terms_matches_everything() {
    let results = rank_candidates(
        "   ",
        vec![candidate(1, "bb", "/bb"), candidate(2, "a", "/a")],
        &HashMap::new(),
        10,
    );
    assert_eq!(ids(&results), vec![2, 1]);
}

#[test]
fn segments_start_behind_separators_and_occurrences_do_not_overlap() {
    let prefix = |name: &str, term: &str| has_segment_prefix(&chars_of(name), &chars_of(term));
    assert!(prefix("report", "rep"));
    assert!(prefix("my report", "rep"));
    assert!(prefix("my(report)", "rep"));
    assert!(prefix("a.b-c_d/e", "e"));
    assert!(!prefix("myreport", "rep"));
    assert!(prefix("xab ab", "ab"));
    assert!(!prefix("xa.a.a", "a.a"));
    assert!(prefix("anything", ""));
}

#[test]
fn descending_relevance_is_the_reverse_order() {
    let corpus = vec![
        candidate(1, "report", "/report"),
        candidate(2, "my-report", "/my-report"),
        candidate(3, "other", "/report/other"),
    ];
    let results = rank_candidates_with_options(
        "report",
        corpus,
        &HashMap::new(),
        10,
        SortOrder {
            field: SortField::Relevance,
            direction: SortDirection::Descending,
        },
        &CancellationToken::default(),
    );
    assert_eq!(ids(&results.rows), vec![3, 2, 1]);
    assert_eq!(results.max_retained, 3);
    assert!(!results.cancelled);
}

#[test]
fn equal_fields_fall_back_to_relevance_name_and_path() {
    let corpus = vec![
        candidate(1, "longer", "/longer"),
        candidate(2, "b", "/b"),
        candidate(3, "a", "/a"),
    ];
    for direction in [SortDirection::Ascending, SortDirection::Descending] {
        let results = ranked(corpus.clone(), SortField::FileSize, direction, 10);
        assert_eq!(ids(&results.rows), vec![3, 2, 1]);
    }
}

#[test]
fn equal_matches_keep_their_order() {
    let corpus = vec![candidate(9, "same", "/same"), candidate(4, "same", "/same")];
    let results = ranked(corpus, SortField::FileName, SortDirection::Ascending, 10);
    assert_eq!(ids(&results.rows), vec![9, 4]);
}

#[test]
fn a_frontier_of_zero_counts_without_retaining() {
    let results = ranked(
        vec![candidate(1, "a", "/a"), candidate(2, "b", "/b")],
        SortField::FileName,
        SortDirection::Ascending,
        0,
    );
    assert_eq!(results.exact_total, 2);
    assert_eq!(results.max_retained, 0);
    assert!(results.rows.is_empty());
}

#[test]
fn a_session_publishes_rows_only_where_it_was_not_cancelled() {
    for cancelled in [false, true] {
        let mut session = QuerySession::new("a", 1, SortOrder::default());
        session.offer(candidate(1, "ba", "/ba"), &HashMap::new());
        session.offer(candidate(2, "x", "/x"), &HashMap::new());
        session.offer(candidate(3, "ab", "/ab"), &HashMap::new());
        let results = session.finish(cancelled);
        assert_eq!(results.cancelled, cancelled);
        assert_eq!(results.exact_total, 2);
        assert_eq!(results.max_retained, 1);
        assert_eq!(ids(&results.rows), if cancelled { vec![] } else { vec![3] });
    }
}

#[test]
fn marks_stay_on_signs_among_the_latin_letters() {
    for text in ["_\u{301}", "[\u{301}", "`\u{302}", "\u{d7}\u{301}", "\u{f7}\u{301}"] {
        assert_eq!(normalize_search_text(text), text);
    }
    assert_eq!(normalize_search_text("Z\u{301}z\u{30c}\u{d8}\u{301}"), "zz\u{f8}");
}

#[test]
fn normalizing_twice_changes_nothing() {
    for code in (0..0x3_2000u32).chain(0xE_0000..0xE_0200) {
        if let Some(character) = char::from_u32(code) {
            let text = format!("{character}\u{301}\u{345}");
            let once = normalize_search_text(&text);
            assert_eq!(normalize_search_text(&once), once, "{code:x}");
        }
    }
}

#[test]
fn neither_candidates_nor_terms_have_to_be_in_order() {
    let corpus = || {
        vec![
            candidate(1, "annual report", "/x/annual report"),
            candidate(2, "report of the annual", "/y/report of the annual"),
            candidate(3, "report", "/annual/report"),
        ]
    };
    let mut reversed = corpus();
    reversed.reverse();
    let expected = ids(&rank_candidates("annual report", corpus(), &HashMap::new(), 10));
    assert_eq!(expected.len(), 3);
    for (query, candidates) in [
        ("annual report", reversed.clone()),
        ("report annual", corpus()),
        ("report annual", reversed),
    ] {
        assert_eq!(ids(&rank_candidates(query, candidates, &HashMap::new(), 10)), expected);
    }
}

#[test]
fn marks_vanish_on_latin_letters_of_every_block() {
    for base in ['\u{25b}', '\u{2c61}', '\u{a740}', '\u{ab30}', '\u{ff45}'] {
        let plain = normalize_search_text(&base.to_string());
        assert_eq!(normalize_search_text(&format!("{base}\u{301}")), plain);
    }
}

#[test]
fn a_term_is_a_segment_prefix_where_an_occurrence_starts_a_segment() {
    let prefix = |name: &str, term: &str| has_segment_prefix(&chars_of(name), &chars_of(term));
    for (name, term, expected) in [
        ("aaa", "aa", true),
        ("xaaa", "aa", false),
        ("xaa-aa", "aa", true),
        ("xa.aa", "a", true),
        ("xabab", "ab", false),
    ] {
        assert_eq!(prefix(name, term), expected, "{name} {term}");
    }
}

#[test]
fn histories_leave_the_structure_of_a_ranking_alone() {
    let corpus: Vec<_> = (0..60u64)
        .map(|id| {
            let name = format!("{}report{}", "x".repeat((id % 3) as usize), id % 7);
            candidate(id, &name, &format!("/{}/{name}", "d".repeat((id % 4) as usize)))
        })
        .collect();
    let structure = |recent: &HashMap<u64, u64>| -> Vec<(usize, usize)> {
        rank_candidates("report", corpus.clone(), recent, 60)
            .iter()
            .map(|row| (row.name.len(), row.path.as_str().len()))
            .collect()
    };
    let plain = structure(&HashMap::new());
    let opened: HashMap<u64, u64> = (0..60).map(|id| (id, (id * 37) % 11)).collect();
    assert_eq!(structure(&opened), plain);
    assert_ne!(
        ids(&rank_candidates("report", corpus.clone(), &opened, 60)),
        ids(&rank_candidates("report", corpus.clone(), &HashMap::new(), 60))
    );
}

#[test]
fn a_token_is_unset_until_it_is_cancelled() {
    let token = CancellationToken::default();
    let held = token.clone();
    assert!(!token.is_cancelled() && !held.is_cancelled());
    token.cancel();
    assert!(token.is_cancelled() && held.is_cancelled());
}
