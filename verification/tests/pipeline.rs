use fivewords::candidates::extract_candidates;
use fivewords::index::DisjointIndex;
use fivewords::letterset::WordSet;
use fivewords::materialize::Materializer;
use fivewords::search::{find_solutions, solve, Solution};

fn tokens(words: &[&str]) -> Vec<Vec<u8>> {
    words.iter().map(|w| w.as_bytes().to_vec()).collect()
}

fn mask(word: &str) -> u32 {
    WordSet::from_word(word.as_bytes()).0
}

// five pairwise disjoint five-letter words covering every letter but Q
const COVER: [&str; 5] = ["fjord", "gucks", "nymph", "vibex", "waltz"];

#[test]
fn extraction_filters_and_orders() {
    let toks = tokens(&["abcde", "toolong", "ab1", "eerie", "vwxyz", "edcba", "x"]);
    let cands = extract_candidates(&toks);
    // "eerie" has repeated letters, "edcba" is an anagram of "abcde";
    // only the two distinct five-letter patterns remain, in numeric order
    assert_eq!(cands.len(), 2);
    assert_eq!(cands[0].0, mask("vwxyz"));
    assert_eq!(cands[1].0, mask("abcde"));
    assert!(cands[0].0 < cands[1].0);
}

#[test]
fn extraction_deduplicates_anagrams() {
    let toks = tokens(&["least", "slate", "stale", "tales", "steal"]);
    let cands = extract_candidates(&toks);
    assert_eq!(cands.len(), 1);
    assert_eq!(cands[0].0, mask("least"));
}

#[test]
fn extraction_drops_non_alphabetic() {
    let toks = tokens(&["ab3de", "fjord"]);
    let cands = extract_candidates(&toks);
    assert_eq!(cands.len(), 1);
    assert_eq!(cands[0].0, mask("fjord"));
}

#[test]
fn index_edges_point_forward_and_disjoint() {
    let toks = tokens(&COVER);
    let cands = extract_candidates(&toks);
    let idx = DisjointIndex::build(cands);
    assert_eq!(idx.adj.len(), idx.words.len());
    for i in 0..idx.words.len() {
        for &k in &idx.adj[i] {
            assert!(k > i);
            assert!(k < idx.words.len());
            assert_eq!(idx.words[i].intersection(idx.words[k]), WordSet::empty());
        }
        // completeness: every later disjoint candidate is listed
        for k in i + 1..idx.words.len() {
            if idx.words[i].intersection(idx.words[k]) == WordSet::empty() {
                assert!(idx.adj[i].contains(&k));
            }
        }
    }
}

fn sorted_cover_masks() -> Vec<u32> {
    let mut ms: Vec<u32> = COVER.iter().map(|w| mask(w)).collect();
    ms.sort();
    ms
}

fn solution_masks(s: &Solution) -> Vec<u32> {
    vec![s.0 .0, s.1 .0, s.2 .0, s.3 .0, s.4 .0]
}

#[test]
fn scenario_one_cover_found_exactly_once() {
    // the five covering words plus one overlapping bystander
    let mut words: Vec<&str> = COVER.to_vec();
    words.push("abcde");
    let toks = tokens(&words);
    let solutions = solve(&toks);
    assert_eq!(solutions.len(), 1);
    assert_eq!(solution_masks(&solutions[0]), sorted_cover_masks());
}

#[test]
fn scenario_one_union_covers_25_letters() {
    let toks = tokens(&COVER);
    let solutions = solve(&toks);
    assert_eq!(solutions.len(), 1);
    let s = &solutions[0];
    let union = s.0.union(s.1).union(s.2).union(s.3).union(s.4);
    assert_eq!(union.size(), 25);
    // every pair is disjoint
    let ms = solution_masks(s);
    for i in 0..5 {
        for j in i + 1..5 {
            assert_eq!(ms[i] & ms[j], 0);
        }
    }
}

#[test]
fn scenario_two_shared_letter_no_solutions() {
    // every word holds an 'a': no five disjoint sets can exist
    let toks = tokens(&["abcde", "afghi", "ajklm", "anopr", "astuv", "awxyz"]);
    let solutions = solve(&toks);
    assert_eq!(solutions.len(), 0);
}

#[test]
fn scenario_three_anagram_spellings_resolve_consistently() {
    // "drojf" spells the same letter set as "fjord"
    let mut words: Vec<&str> = COVER.to_vec();
    words.push("drojf");
    let toks = tokens(&words);
    let solutions = solve(&toks);
    assert_eq!(solutions.len(), 1);

    let mut mat = Materializer::new();
    let fjord_set = WordSet::from_word(b"fjord");
    let first = mat.resolve(&toks, fjord_set).unwrap();
    let second = mat.resolve(&toks, fjord_set).unwrap();
    // the same spelling both times: the first one in the list
    assert_eq!(first, b"fjord".to_vec());
    assert_eq!(second, first);
}

#[test]
fn no_duplicate_solutions() {
    let mut words: Vec<&str> = COVER.to_vec();
    words.push("drojf"); // anagram duplicate of a member
    words.push("skcug"); // anagram duplicate of another
    let toks = tokens(&words);
    let solutions = solve(&toks);
    assert_eq!(solutions.len(), 1);
}

#[test]
fn find_solutions_matches_solve() {
    let toks = tokens(&COVER);
    let cands = extract_candidates(&toks);
    let idx = DisjointIndex::build(cands);
    let from_idx = find_solutions(&idx);
    let from_solve = solve(&toks);
    assert_eq!(from_idx.len(), from_solve.len());
    assert_eq!(solution_masks(&from_idx[0]), solution_masks(&from_solve[0]));
}

#[test]
fn materializer_resolves_first_spelling() {
    let toks = tokens(&["least", "slate", "fjord"]);
    let mut mat = Materializer::new();
    let spelled = mat.resolve(&toks, WordSet::from_word(b"stale")).unwrap();
    assert_eq!(spelled, b"least".to_vec());
}

#[test]
fn materializer_reports_missing_set() {
    let toks = tokens(&["fjord"]);
    let mut mat = Materializer::new();
    assert!(mat.resolve(&toks, WordSet::from_word(b"gucks")).is_none());
}

#[test]
fn materialize_full_solution() {
    let toks = tokens(&COVER);
    let solutions = solve(&toks);
    let mut mat = Materializer::new();
    let spellings = mat.materialize(&toks, solutions[0]).unwrap();
    assert_eq!(spellings.len(), 5);
    let mut expected: Vec<(u32, &str)> = COVER.iter().map(|w| (mask(w), *w)).collect();
    expected.sort();
    for i in 0..5 {
        assert_eq!(spellings[i], expected[i].1.as_bytes().to_vec());
    }
}
