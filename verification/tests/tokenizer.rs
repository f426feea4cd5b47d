use panel_chat::panelist::{Panelist, lookup_by_name, lookup_by_number, is_panelist_number};
use panel_chat::tokenizer::read_tokens;

fn panelist(name: &str, description: &str, prelude: &str) -> Panelist {
    Panelist {
        name: name.as_bytes().to_vec(),
        description: description.as_bytes().to_vec(),
        prelude: prelude.as_bytes().to_vec(),
    }
}

fn reference_roster() -> Vec<Panelist> {
    vec![
        panelist("Rachel", "An MSNBC host", "Answer sarcastically."),
        panelist("Tucker", "A Fox News Host", "Answer with bias."),
        panelist("Quincy", "A QAnon believer", "Answer badly."),
        panelist("Michio", "A Physicist", "Answer accurately."),
        panelist("Giorgio", "An Ancient Astronaut Theorist", "Answer with aliens."),
        panelist("Chandler", "The King of Sarcasm", "Answer with snark."),
        panelist("Alan", "A Zen Buddist", "Answer philosophically."),
        panelist("Rusty", "A Software Engineer", "Answer with Rust."),
    ]
}

fn sorted(mut v: Vec<usize>) -> Vec<usize> {
    v.sort();
    v
}

#[test]
fn test2() {
    let roster = reference_roster();
    // Rachel, Tucker, Rusty as roster indices.
    let a: Vec<usize> = vec![0, 1, 7];
    let test_inputs = vec![
        "Rachel 1 3 alan what does it all mean",
        "rachel tucker 5 This is the question",
        "Quit",
        " all what do you tink of global warming?",
        "Why is the sky blue?",
    ];
    for input in test_inputs {
        println!("input:{input}");
        let r = read_tokens(&roster, input.as_bytes());
        println!(" Question: {}", &input[r.question_start..]);
        for x in r.addressees.iter() {
            println!("{x}");
        }
    }
    let r = lookup_by_name(&roster, "Rachel".as_bytes()).unwrap();
    println!(" found panelist {:?}", r);

    let who = read_tokens(
        &roster,
        " tucker 8 rachel who won the 2020 presidential election?".as_bytes(),
    );
    assert!(sorted(who.addressees) == a);

    let who = read_tokens(&roster, " 7 who won the 2020 presidential election?".as_bytes());
    assert!(who.addressees == vec![6]); // Alan
    assert_eq!(is_panelist_number(&roster, "9".as_bytes()), None);
    assert_eq!(is_panelist_number(&roster, "8".as_bytes()), Some(7));
    assert_eq!(is_panelist_number(&roster, "1".as_bytes()), Some(0));
    assert_eq!(is_panelist_number(&roster, "2".as_bytes()), Some(1));
}

#[test]
fn quit_lines_address_nobody() {
    let roster = reference_roster();
    for input in ["Quit", "QUIT", "Quit now", "QUIT 1 rachel why?"] {
        let r = read_tokens(&roster, input.as_bytes());
        assert!(r.addressees.is_empty());
        assert_eq!(r.question_start, 0);
    }
}

#[test]
fn lowercase_quit_is_not_the_keyword() {
    // Only the spellings `Quit` and `QUIT` are recognized as a prefix; a
    // lower-case `quit` is scanned as an unknown name and draws the
    // random fallback.
    let roster = reference_roster();
    let r = read_tokens(&roster, "quit now".as_bytes());
    assert!(!r.addressees.is_empty() && r.addressees.len() <= 2);
    assert!(r.addressees.iter().all(|&i| i < 8));
    assert_eq!(r.question_start, 0);
}

#[test]
fn chained_names_and_numbers() {
    let roster = reference_roster();
    let input = "Rachel 1 3 alan what does it all mean";
    let r = read_tokens(&roster, input.as_bytes());
    // Rachel (name), 1 -> Rachel again, 3 -> Quincy, alan -> Alan; the
    // scan stops at "what".
    assert_eq!(sorted(r.addressees), vec![0, 2, 6]);
    assert_eq!(&input[r.question_start..], " what does it all mean");
}

#[test]
fn all_keyword_addresses_whole_roster() {
    let roster = reference_roster();
    let input = " all what do you tink of global warming?";
    let r = read_tokens(&roster, input.as_bytes());
    assert_eq!(sorted(r.addressees), vec![0, 1, 2, 3, 4, 5, 6, 7]);
    assert_eq!(&input[r.question_start..], " what do you tink of global warming?");
}

#[test]
fn scan_continues_after_the_wildcard() {
    // A matched wildcard is not an unmatched token: the scan resolves
    // `rachel` after it and only then stops, at `why`.
    let roster = reference_roster();
    let input = "all rachel why?";
    let r = read_tokens(&roster, input.as_bytes());
    assert_eq!(sorted(r.addressees), vec![0, 1, 2, 3, 4, 5, 6, 7]);
    assert_eq!(&input[r.question_start..], " why?");
}

#[test]
fn unknown_first_word_draws_random_pair() {
    let roster = reference_roster();
    let r = read_tokens(&roster, "Why is the sky blue?".as_bytes());
    // Two independent uniform picks; a collision collapses to one entry.
    assert!(1 <= r.addressees.len() && r.addressees.len() <= 2);
    assert!(r.addressees.iter().all(|&i| i < 8));
    if r.addressees.len() == 2 {
        assert_ne!(r.addressees[0], r.addressees[1]);
    }
    assert_eq!(r.question_start, 0);
}

#[test]
fn number_bounds() {
    let roster = reference_roster();
    assert_eq!(lookup_by_number(&roster, "0".as_bytes()), None);
    assert_eq!(lookup_by_number(&roster, "9".as_bytes()), None);
    assert_eq!(lookup_by_number(&roster, "1".as_bytes()), Some(0));
    assert_eq!(lookup_by_number(&roster, "8".as_bytes()), Some(7));
}

#[test]
fn number_parse_failures_and_variants() {
    let roster = reference_roster();
    assert_eq!(lookup_by_number(&roster, "".as_bytes()), None);
    assert_eq!(lookup_by_number(&roster, "+".as_bytes()), None);
    assert_eq!(lookup_by_number(&roster, "1a".as_bytes()), None);
    assert_eq!(lookup_by_number(&roster, "-1".as_bytes()), None);
    assert_eq!(lookup_by_number(&roster, "99999999999999999999999999".as_bytes()), None);
    // The usual unsigned-integer grammar: an optional leading plus sign
    // and leading zeros are accepted.
    assert_eq!(lookup_by_number(&roster, "+8".as_bytes()), Some(7));
    assert_eq!(lookup_by_number(&roster, "007".as_bytes()), Some(6));
}

#[test]
fn name_lookup_is_case_insensitive() {
    let roster = reference_roster();
    let a = lookup_by_name(&roster, "rAcHel".as_bytes());
    let b = lookup_by_name(&roster, "RACHEL".as_bytes());
    assert_eq!(a, Some(0));
    assert_eq!(a, b);
    assert_eq!(lookup_by_name(&roster, "nobody".as_bytes()), None);
}

#[test]
fn empty_line_is_not_an_error() {
    let roster = reference_roster();
    let r = read_tokens(&roster, b"");
    assert!(r.addressees.is_empty());
    assert_eq!(r.question_start, 0);
}

#[test]
fn leading_number_miss_stops_without_fallback() {
    // A failing number token stops the scan without the random fallback,
    // unlike a failing name token; the caller sees an empty set.
    let roster = reference_roster();
    let r = read_tokens(&roster, " 9 who won?".as_bytes());
    assert!(r.addressees.is_empty());
    assert_eq!(r.question_start, 0);
}

#[test]
fn unterminated_trailing_token_is_not_looked_up() {
    // Tokens are delimited by Other bytes only; a name that runs to the
    // end of the line is never terminated, so it is never looked up.
    let roster = reference_roster();
    let r = read_tokens(&roster, "rachel".as_bytes());
    assert!(r.addressees.is_empty());
    assert_eq!(r.question_start, 0);
}

#[test]
fn mixed_letter_digit_run_is_one_token() {
    // "alan3" is one token (no Other byte between the letters and the
    // digit), misses the roster, and draws the fallback.
    let roster = reference_roster();
    let r = read_tokens(&roster, "alan3 hello".as_bytes());
    assert!(1 <= r.addressees.len() && r.addressees.len() <= 2);
    assert!(r.addressees.iter().all(|&i| i < 8));
    assert_eq!(r.question_start, 0);
}

#[test]
fn tokenize_is_deterministic_without_fallback() {
    // Every token of the prefix resolves explicitly, so no randomness is
    // involved and two scans agree exactly.
    let roster = reference_roster();
    let input = "rachel tucker 5 This is the question";
    let r1 = read_tokens(&roster, input.as_bytes());
    let r2 = read_tokens(&roster, input.as_bytes());
    assert_eq!(sorted(r1.addressees.clone()), sorted(r2.addressees.clone()));
    assert_eq!(r1.question_start, r2.question_start);
    // rachel -> 0, tucker -> 1, 5 -> Giorgio at index 4.
    assert_eq!(sorted(r1.addressees), vec![0, 1, 4]);
    assert_eq!(&input[r1.question_start..], " This is the question");
}

#[test]
fn matched_prefix_stands_when_a_later_token_misses() {
    // Once somebody has been addressed, an unknown word merely ends the
    // scan: no fallback, and the prefix keeps what it matched.
    let roster = reference_roster();
    let input = "tucker nonsense rachel";
    let r = read_tokens(&roster, input.as_bytes());
    assert_eq!(r.addressees, vec![1]);
    assert_eq!(&input[r.question_start..], " nonsense rachel");
}
