use boggler::board::Board;
use boggler::solver::{BTNode, BoardSolution, BogglerTrie};

fn words(ws: &[&str]) -> Vec<String> {
    ws.iter().map(|w| String::from(*w)).collect()
}

#[test]
fn new_empty() {
    let v: Vec<String> = Vec::new();
    let bt = BogglerTrie::new(v);
    assert!(bt.root.children.is_empty());
}

#[test]
fn new_one_word() {
    let bt = BogglerTrie::new(words(&["her"]));
    let node = bt
        .root
        .child('h')
        .and_then(|c1| c1.child('e'))
        .and_then(|c2| c2.child('r'))
        .unwrap();
    let res = node.full_word.as_ref().unwrap();
    assert_eq!(String::from("her"), *res);
}

#[test]
fn two_new_words() {
    let bt = BogglerTrie::new(words(&["her", "hero"]));
    let n1 = bt
        .root
        .child('h')
        .and_then(|c1| c1.child('e'))
        .and_then(|c2| c2.child('r'))
        .unwrap();
    let r1 = n1.full_word.as_ref().unwrap();
    let n2 = n1.child('o').unwrap();
    let r2 = n2.full_word.as_ref().unwrap();
    assert_eq!(String::from("her"), *r1);
    assert_eq!(String::from("hero"), *r2);
}

#[test]
fn find() {
    let bt = BogglerTrie::new(words(&["her", "hero", "heroin", "heroine", "heroic", "heroism"]));
    match &bt.find(String::from("her")).take() {
        None => panic!("'her' not found"),
        Some(w) => assert_eq!(String::from("her"), *w),
    }
    match &bt.find(String::from("hero")).take() {
        None => panic!("'hero' not found"),
        Some(w) => assert_eq!(String::from("hero"), *w),
    }
    match &bt.find(String::from("heroin")).take() {
        None => panic!("'heroin' not found"),
        Some(w) => assert_eq!(String::from("heroin"), *w),
    }
    match &bt.find(String::from("heroine")).take() {
        None => panic!("'heroine' not found"),
        Some(w) => assert_eq!(String::from("heroine"), *w),
    }
    match &bt.find(String::from("heroic")).take() {
        None => panic!("'heroic' not found"),
        Some(w) => assert_eq!(String::from("heroic"), *w),
    }
    match &bt.find(String::from("heroism")).take() {
        None => panic!("'heroism'not found"),
        Some(w) => assert_eq!(String::from("heroism"), *w),
    }
    match &bt.find(String::from("here")).take() {
        None => (),
        Some(_) => panic!("found 'here'"),
    }
}

#[test]
fn count_word_no_q() {
    assert_eq!(3, BogglerTrie::count_word("her"));
}

#[test]
fn count_word_q() {
    assert_eq!(6, BogglerTrie::count_word("aqueous"));
}

#[test]
fn count_word_u_no_q() {
    assert_eq!(4, BogglerTrie::count_word("four"));
}

#[test]
fn prepare_word_lowercase() {
    let res = BogglerTrie::prepare_word(String::from("Heron")).unwrap();
    assert_eq!(String::from("heron"), res);
}

#[test]
fn find_letter() {
    let mut bt = BogglerTrie { root: BTNode::new() };
    bt.add_word(&String::from("a"));
    assert!(bt.find_letter('a').is_some());
}

#[test]
fn prepare_word_rejects_nonalpha() {
    assert!(BogglerTrie::prepare_word(String::from("don't")).is_none());
    assert!(BogglerTrie::prepare_word(String::from("héron")).is_none());
    assert!(BogglerTrie::prepare_word(String::from("a b c")).is_none());
}

#[test]
fn insertion_length_filter() {
    let bt = BogglerTrie::new(words(&["ab", "qu", "abcdefghijklmnopq"]));
    assert!(bt.find(String::from("ab")).is_none());
    assert!(bt.find(String::from("qu")).is_none());
    assert!(bt.find(String::from("abcdefghijklmnopq")).is_none());
    assert!(bt.root.children.is_empty());
}

#[test]
fn insert_idempotent_lookup() {
    let once = BogglerTrie::new(words(&["her"]));
    let twice = BogglerTrie::new(words(&["her", "her"]));
    assert_eq!(once.find(String::from("her")), Some(String::from("her")));
    assert_eq!(twice.find(String::from("her")), Some(String::from("her")));
    let node = twice
        .root
        .child('h')
        .and_then(|c1| c1.child('e'))
        .and_then(|c2| c2.child('r'))
        .unwrap();
    assert!(node.children.is_empty());
    assert_eq!(node.full_word, Some(String::from("her")));
}

#[test]
fn solution_no_double_count() {
    let mut sol = BoardSolution::new();
    sol.add_word(String::from("her"));
    sol.add_word(String::from("hero"));
    assert_eq!(sol.score, 7);
    assert_eq!(sol.words.len(), 2);
    sol.add_word(String::from("her"));
    assert_eq!(sol.score, 7);
    assert_eq!(sol.words.len(), 2);
}

#[test]
fn from_ascii_words_unfiltered() {
    let bt = BogglerTrie::from_ascii_words(words(&["a", "Her"]));
    assert_eq!(bt.find(String::from("a")), Some(String::from("a")));
    assert_eq!(bt.find(String::from("Her")), Some(String::from("Her")));
    assert!(bt.find(String::from("her")).is_none());
}

fn row(faces: &[&str]) -> Vec<String> {
    faces.iter().map(|f| String::from(*f)).collect()
}

#[test]
fn end_to_end_single_word() {
    let board = Board::new(vec![
        row(&["h", "e", "r", "x"]),
        row(&["x", "x", "x", "x"]),
        row(&["x", "x", "x", "x"]),
        row(&["x", "x", "x", "x"]),
    ]);
    let bt = BogglerTrie::new(words(&["her"]));
    let sol = bt.solve(&board);
    assert_eq!(sol.words, vec![String::from("her")]);
    assert_eq!(sol.score, 3);
}

#[test]
fn compound_tile_match() {
    let board = Board::new(vec![row(&["qu", "i"]), row(&["z", "x"])]);
    let bt = BogglerTrie::new(words(&["quiz"]));
    let sol = bt.solve(&board);
    assert_eq!(sol.words, vec![String::from("quiz")]);
    assert_eq!(sol.score, 3);
}

#[test]
fn compound_tile_no_false_match() {
    // 'q' and 'u' sit on the board, but not adjacent in the right order, and
    // there is no compound tile: "quiz" must not be found.
    let board = Board::new(vec![
        row(&["q", "x", "i"]),
        row(&["x", "x", "z"]),
        row(&["u", "x", "x"]),
    ]);
    let bt = BogglerTrie::new(words(&["quiz"]));
    let sol = bt.solve(&board);
    assert!(sol.words.is_empty());
    assert_eq!(sol.score, 0);
}

#[test]
fn solve_deduplicates_words() {
    // Two disjoint paths spell the same word; it is collected once.
    let board = Board::new(vec![row(&["h", "e", "r"]), row(&["x", "x", "x"]), row(&["h", "e", "r"])]);
    let bt = BogglerTrie::new(words(&["her"]));
    let sol = bt.solve(&board);
    assert_eq!(sol.words, vec![String::from("her")]);
    assert_eq!(sol.score, 3);
}
