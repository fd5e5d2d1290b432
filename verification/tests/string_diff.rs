use rdiff::string_diff::{find_diff, nw_score, EditDistance, OperationScore};
use rdiff::{Delete, Diff, Insert};

struct ExampleScores;

// The scores of the well-known worked example of the algorithm.
impl OperationScore for ExampleScores {
    fn insert_score(&self, _: char) -> i32 {
        -2
    }

    fn delete_score(&self, _: char) -> i32 {
        -2
    }

    fn substitution_score(&self, _: char, _: char) -> i32 {
        -1
    }

    fn match_score(&self, _: char) -> i32 {
        2
    }

    fn spec_insert_score(&self, c: char) -> i32 {
        self.insert_score(c)
    }

    fn spec_delete_score(&self, c: char) -> i32 {
        self.delete_score(c)
    }

    fn spec_substitution_score(&self, old: char, new: char) -> i32 {
        self.substitution_score(old, new)
    }

    fn spec_match_score(&self, c: char) -> i32 {
        self.match_score(c)
    }
}

fn check_string_diff<S: OperationScore>(
    start: &str,
    new: &str,
    scorer: S,
    inserts: &[(usize, &str)],
    deletes: &[(usize, usize)],
) {
    let diff = find_diff(start, new, &scorer);
    let mut expected = Diff::new();
    for (position, data) in inserts {
        expected.add_insert(*position, data.bytes().collect());
    }
    for (position, len) in deletes {
        expected.add_delete(*position, *len);
    }
    let expected_inserts: Vec<Insert> = inserts
        .iter()
        .map(|(position, data)| Insert::new(data.bytes().collect(), *position))
        .collect();
    let expected_deletes: Vec<Delete> =
        deletes.iter().map(|(position, len)| Delete::new(*position, *len)).collect();
    assert_eq!(&expected_inserts, diff.inserts());
    assert_eq!(&expected_deletes, diff.deletes());
    assert_eq!(expected, diff);
    assert_eq!(diff.apply_to_string(start).unwrap(), new.to_string());
}

#[test]
fn string_diff_score() {
    assert_eq!(nw_score("ACGC", "CGTAT", &EditDistance {}), vec![-4, -3, -2, -3, -4, -5]);
    assert_eq!(nw_score("AGTA", "TATGC", &EditDistance {}), vec![-4, -3, -2, -3, -4, -5]);

    assert_eq!(nw_score("ACGC", "CGTAT", &ExampleScores {}), vec![-8, -4, 0, 1, -1, -3]);
    assert_eq!(nw_score("AGTA", "TATGC", &ExampleScores {}), vec![-8, -4, 0, -2, -1, -3]);
}

#[test]
fn string_diff_do_find_diff() {
    check_string_diff("kitten", "kettle", EditDistance, &[(1, "e"), (5, "l")], &[(2, 1), (6, 1)]);
    check_string_diff(
        "meadow",
        "yellowing",
        EditDistance,
        &[(0, "y"), (3, "ll"), (9, "ing")],
        &[(1, 1), (4, 2)],
    );

    check_string_diff(" I've", " I", EditDistance, &[], &[(2, 3)]);

    check_string_diff(
        " I've got a new place",
        " I found a new place",
        EditDistance,
        &[(6, "f"), (9, "und")],
        &[(2, 3), (4, 1), (8, 1)],
    );
    check_string_diff(
        "Since my baby left me I've got a new place to dwell\nI walk down a lonely street to Heartbreak Hotel.",
        "Since my baby left me I found a new place to dwell\nDown at the end of 'Lonely Street' to 'Heartbreak Hotel.'",
        EditDistance,
        &[(27, "f"), (30, "und"), (56, "Down"), (64, "t the"), (72, "en"), (75, " "), (77, "f"), (81, "'L"), (92, "S"), (99, "'"), (104, "'"), (122, "'")],
        &[(23, 3), (25, 1), (29, 1), (55, 1), (56, 1), (62, 2), (69, 2), (72, 3), (79, 1)],
    );
}

#[test]
fn find_diff_of_empty_strings() {
    assert!(find_diff("", "", &EditDistance).is_empty());
    let only_new = find_diff("", "abc", &EditDistance);
    assert_eq!(only_new.inserts(), &vec![Insert::new(b"abc".to_vec(), 0)]);
    assert_eq!(only_new.deletes().len(), 0);
    let only_old = find_diff("abc", "", &EditDistance);
    assert_eq!(only_old.inserts().len(), 0);
    assert_eq!(only_old.deletes(), &vec![Delete::new(0, 3)]);
    assert!(find_diff("same", "same", &EditDistance).is_empty());
}

#[test]
fn find_diff_counts_positions_in_bytes() {
    let diff = find_diff("naïve", "naive", &EditDistance);
    assert_eq!(diff.apply_to_string("naïve").unwrap(), "naive".to_string());
    let total: usize = diff.inserts().iter().map(|i| i.get_data().len()).sum::<usize>()
        + diff.deletes().iter().map(|d| d.get_length()).sum::<usize>();
    // one character of two bytes goes, one of one byte comes
    assert_eq!(total, 3);
    let back = find_diff("héllo wörld", "hello world", &EditDistance);
    assert_eq!(back.apply_to_string("héllo wörld").unwrap(), "hello world".to_string());
    let forth = find_diff("grüße", "große grüße", &EditDistance);
    assert_eq!(forth.apply_to_string("grüße").unwrap(), "große grüße".to_string());
}

#[test]
fn find_diff_is_as_short_as_the_edit_distance() {
    let cases: Vec<(&str, &str, usize)> = vec![
        ("kitten", "kettle", 4),
        ("meadow", "yellowing", 9),
        (" I've", " I", 3),
        ("", "abc", 3),
        ("abc", "", 3),
        ("abc", "abc", 0),
        ("a", "b", 2),
        ("ab", "ba", 2),
    ];
    for (old, new, distance) in cases {
        let diff = find_diff(old, new, &EditDistance);
        let total: usize = diff.inserts().iter().map(|i| i.get_data().len()).sum::<usize>()
            + diff.deletes().iter().map(|d| d.get_length()).sum::<usize>();
        assert_eq!(total, distance);
        assert_eq!(diff.apply_to_string(old).unwrap(), new.to_string());
    }
}

#[test]
fn score_row_of_empty_strings() {
    assert_eq!(nw_score("", "", &EditDistance), vec![0]);
    assert_eq!(nw_score("", "abc", &EditDistance), vec![0, -1, -2, -3]);
    assert_eq!(nw_score("abc", "", &EditDistance), vec![-3]);
    assert_eq!(nw_score("abc", "abc", &ExampleScores), vec![-6, -2, 2, 6]);
}

#[test]
fn edit_distance_scores() {
    let scorer = EditDistance;
    assert_eq!(scorer.insert_score('a'), -1);
    assert_eq!(scorer.delete_score('a'), -1);
    assert_eq!(scorer.substitution_score('a', 'b'), -2);
    assert_eq!(scorer.match_score('a'), 0);
}
