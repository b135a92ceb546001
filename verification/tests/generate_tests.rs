use rand::rngs::StdRng;
use rand::SeedableRng;

use patgen::charset::CharsetPattern;
use patgen::engine::{generate, generate_many};
use patgen::node::Node;
use patgen::parser::compile;

fn chars(s: &str) -> Vec<char> {
    s.chars().collect()
}

fn gen_with_seed(pattern: &str, seed: u64) -> String {
    let node = compile(&chars(pattern)).unwrap();
    let mut rng = StdRng::seed_from_u64(seed);
    generate(&node, &mut rng)
}

fn is_consonant(c: char) -> bool {
    CharsetPattern::Consonant.charset().contains(&c)
}

fn is_vowel(c: char) -> bool {
    CharsetPattern::Vowel.charset().contains(&c)
}

#[test]
fn bare_class_generates_one_consonant() {
    for seed in 0..50u64 {
        let out = gen_with_seed("c", seed);
        assert_eq!(out.chars().count(), 1);
        assert!(is_consonant(out.chars().next().unwrap()));
    }
}

#[test]
fn fixed_count_generates_exactly_three_consonants() {
    for seed in 0..50u64 {
        let out = gen_with_seed("c:3", seed);
        assert_eq!(out.chars().count(), 3);
        assert!(out.chars().all(is_consonant));
    }
}

#[test]
fn bounded_range_generates_two_to_four_vowels() {
    for seed in 0..100u64 {
        let out = gen_with_seed("v:2:4", seed);
        let n = out.chars().count();
        assert!(2 <= n && n <= 4);
        assert!(out.chars().all(is_vowel));
    }
}

#[test]
fn sequence_generates_consonant_then_vowel() {
    for seed in 0..50u64 {
        let out = gen_with_seed("[c-v]", seed);
        let cs: Vec<char> = out.chars().collect();
        assert_eq!(cs.len(), 2);
        assert!(is_consonant(cs[0]));
        assert!(is_vowel(cs[1]));
    }
}

#[test]
fn alternation_generates_one_consonant_or_one_vowel() {
    for seed in 0..100u64 {
        let out = gen_with_seed("{c-v}", seed);
        let cs: Vec<char> = out.chars().collect();
        assert_eq!(cs.len(), 1);
        assert!(is_consonant(cs[0]) || is_vowel(cs[0]));
    }
}

#[test]
fn alternation_never_interleaves_children() {
    for seed in 0..100u64 {
        let out = gen_with_seed("{d:2-%XY}", seed);
        let digits = out.chars().all(|c| c.is_ascii_digit());
        assert!(out == "XY" || (digits && out.chars().count() == 2));
    }
}

#[test]
fn literal_is_returned_verbatim() {
    for seed in 0..5u64 {
        assert_eq!(gen_with_seed("%hi", seed), "hi");
        assert_eq!(gen_with_seed("s", seed), " ");
        assert!(gen_with_seed("%AB-d", seed).starts_with("AB"));
    }
}

#[test]
fn subsequence_picks_one_character_of_the_output() {
    for seed in 0..50u64 {
        let out = gen_with_seed("%abc#", seed);
        let cs: Vec<char> = out.chars().collect();
        assert_eq!(cs.len(), 1);
        assert!(cs[0] == 'a' || cs[0] == 'b' || cs[0] == 'c');
    }
}

#[test]
fn subsequence_of_empty_output_is_empty() {
    let node = Node::Subsequence(Box::new(Node::ProbabilisticInclusion(
        Box::new(Node::Literal(vec!['x'])),
        0,
    )));
    for seed in 0..20u64 {
        let mut rng = StdRng::seed_from_u64(seed);
        assert_eq!(generate(&node, &mut rng), "");
    }
}

#[test]
fn zero_percent_inclusion_never_includes() {
    let node = Node::ProbabilisticInclusion(Box::new(Node::Literal(vec!['x'])), 0);
    for seed in 0..20u64 {
        let mut rng = StdRng::seed_from_u64(seed);
        assert_eq!(generate(&node, &mut rng), "");
    }
}

#[test]
fn full_percent_inclusion_always_includes() {
    let node = Node::ProbabilisticInclusion(Box::new(Node::Literal(vec!['x'])), 100);
    for seed in 0..20u64 {
        let mut rng = StdRng::seed_from_u64(seed);
        assert_eq!(generate(&node, &mut rng), "x");
    }
}

#[test]
fn middling_inclusion_returns_child_output_or_nothing() {
    let node = Node::ProbabilisticInclusion(Box::new(Node::Literal(vec!['x'])), 50);
    let mut saw_empty = false;
    let mut saw_x = false;
    for seed in 0..100u64 {
        let mut rng = StdRng::seed_from_u64(seed);
        let out = generate(&node, &mut rng);
        assert!(out == "" || out == "x");
        saw_empty = saw_empty || out == "";
        saw_x = saw_x || out == "x";
    }
    assert!(saw_empty && saw_x);
}

#[test]
fn identical_seeds_generate_identical_outputs() {
    for seed in 0..20u64 {
        let a = gen_with_seed("c:2:4-v-{d-%AB}", seed);
        let b = gen_with_seed("c:2:4-v-{d-%AB}", seed);
        assert_eq!(a, b);
    }
}

#[test]
fn generate_many_threads_one_source_through_the_run() {
    let node = compile(&chars("c:1:8")).unwrap();
    let mut rng1 = StdRng::seed_from_u64(7);
    let many = generate_many(&node, &mut rng1, 5);
    assert_eq!(many.len(), 5);
    let mut rng2 = StdRng::seed_from_u64(7);
    for out in many.iter() {
        assert_eq!(*out, generate(&node, &mut rng2));
    }
}

#[test]
fn complex_pattern_has_expected_shape() {
    for seed in 0..50u64 {
        let out = gen_with_seed("c:2:4-v-{d-%AB}", seed);
        let cs: Vec<char> = out.chars().collect();
        let lead = cs.iter().take_while(|c| is_consonant(**c)).count();
        assert!(2 <= lead && lead <= 4);
        assert!(is_vowel(cs[lead]));
        let rest: String = cs[lead + 1..].iter().collect();
        assert!(rest == "AB" || (rest.chars().count() == 1 && rest.chars().all(|c| c.is_ascii_digit())));
    }
}
