use rdiff::hirschberg::{find_diff, nw_score, EditDistance, OperationScore};
use rdiff::{Delete, Insert};

struct WorkedExampleScores;

impl OperationScore for WorkedExampleScores {
    fn insert_score(&self, _: char) -> i32 {
        -2
    }

    fn delete_score(&self, _: char) -> i32 {
        -2
    }

    fn substitution_score(&self, _: char, _: char) -> i32 {
        -1
    }

    fn match_score(&self, _: char) -> i32 {
        2
    }

    fn spec_insert_score(&self, c: char) -> i32 {
        self.insert_score(c)
    }

    fn spec_delete_score(&self, c: char) -> i32 {
        self.delete_score(c)
    }

    fn spec_substitution_score(&self, old: char, new: char) -> i32 {
        self.substitution_score(old, new)
    }

    fn spec_match_score(&self, c: char) -> i32 {
        self.match_score(c)
    }
}

fn check_hirschberg(start: &str, new: &str, inserts: &[(usize, &str)], deletes: &[(usize, usize)]) {
    let diff = find_diff(start, new, &EditDistance);
    let expected_inserts: Vec<Insert> = inserts
        .iter()
        .map(|(position, data)| Insert::new(data.bytes().collect(), *position))
        .collect();
    let expected_deletes: Vec<Delete> =
        deletes.iter().map(|(position, len)| Delete::new(*position, *len)).collect();
    assert_eq!(&expected_inserts, diff.inserts());
    assert_eq!(&expected_deletes, diff.deletes());
    assert_eq!(diff.apply_to_string(start).unwrap(), new.to_string());
}

#[test]
fn hirschberg_score() {
    assert_eq!(nw_score("ACGC", "CGTAT", &EditDistance {}), vec![-4, -3, -2, -3, -4, -5]);
    assert_eq!(nw_score("AGTA", "TATGC", &EditDistance {}), vec![-4, -3, -2, -3, -4, -5]);

    assert_eq!(nw_score("ACGC", "CGTAT", &WorkedExampleScores {}), vec![-8, -4, 0, 1, -1, -3]);
    assert_eq!(nw_score("AGTA", "TATGC", &WorkedExampleScores {}), vec![-8, -4, 0, -2, -1, -3]);
}

#[test]
fn hirschberg_do_find_diff() {
    check_hirschberg("kitten", "kettle", &[(1, "e"), (5, "l")], &[(2, 1), (6, 1)]);
    check_hirschberg(
        "meadow",
        "yellowing",
        &[(0, "y"), (3, "ll"), (9, "ing")],
        &[(1, 1), (4, 2)],
    );

    check_hirschberg(" I've", " I", &[], &[(2, 3)]);

    check_hirschberg(
        " I've got a new place",
        " I found a new place",
        &[(6, "f"), (9, "und")],
        &[(2, 3), (4, 1), (8, 1)],
    );
    check_hirschberg(
        "Since my baby left me I've got a new place to dwell\nI walk down a lonely street to Heartbreak Hotel.",
        "Since my baby left me I found a new place to dwell\nDown at the end of 'Lonely Street' to 'Heartbreak Hotel.'",
        &[(27, "f"), (30, "und"), (56, "Down"), (64, "t the"), (72, "en"), (75, " "), (77, "f"), (81, "'L"), (92, "S"), (99, "'"), (104, "'"), (122, "'")],
        &[(23, 3), (25, 1), (29, 1), (55, 1), (56, 1), (62, 2), (69, 2), (72, 3), (79, 1)],
    );
}
