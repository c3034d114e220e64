use textdist::tokenize::{
    token_set, token_sort, AlphaNumericTokenizer, ScoreKind, TokenCmp, TokenJoin, TokenizerNaive,
    TokenizerSeq,
};

fn word_split(c: char) -> bool {
    match c {
        '\n' | '|' | '-' => true,
        _ => false,
    }
}

fn tokens_filter(c: char) -> bool {
    match c {
        '-' | '|' | '*' | ')' | '(' | '&' => true,
        _ => false,
    }
}

#[test]
fn tokenizer_sequencer() {
    let an = AlphaNumericTokenizer;
    let one = an.sequencer("Marriot &Beaches Resort|").join(" ");
    let two = an.sequencer("Marriot& Beaches^ Resort").join(" ");
    assert_eq!(one, two);
}

#[test]
fn on_pre_process() {
    let res = TokenizerNaive::pre_process("Hotel & Ristorante Bellora");
    assert_eq!(res, "hotel ristorante bellora");

    let res1 = TokenizerNaive::pre_process("Auténtico Hotel");
    assert_eq!(res1, "auténtico hotel");

    let res2 = TokenizerNaive::pre_process("Residence Chalet de l'Adonis");
    assert_eq!(res2, "residence chalet de l adonis");

    let res6 = TokenizerNaive::pre_process("HOTEL EXCELSIOR");
    assert_eq!(res6, "hotel excelsior");

    let res6 = TokenizerNaive::pre_process("Kotedzai Trys pusys,Pylimo ");
    assert_eq!(res6, "kotedzai trys pusys pylimo");

    let res6 = TokenizerNaive::pre_process("Inbursa Cancún Las Américas");
    assert_eq!(res6, "inbursa cancún las américas");
}

#[test]
fn on_tokens_alphanumeric() {
    let res3 = TokenizerNaive::tokens_alphanumeric("|HelLo tHere");
    assert_eq!(res3, " HelLo tHere");

    let res4 = TokenizerNaive::tokens_alphanumeric("HelLo|tHere");
    assert_eq!(res4, "HelLo tHere");

    let res5 = TokenizerNaive::tokens_alphanumeric("HelLo * & )(tHere");
    assert_eq!(res5, "HelLo       tHere");
}

#[test]
fn on_tokens_lower() {
    let res = TokenizerNaive::tokens_lower_str("HelLo tHerE");
    assert_eq!(res, "hello there")
}

#[test]
fn on_tokens_simple() {
    assert_eq!(
        TokenizerNaive::tokens("hello there"),
        ["h", "e", "l", "l", "o", " ", "t", "h", "e", "r", "e"]
    )
}

#[test]
fn on_tokens_lower_filter() {
    let res = TokenizerNaive::tokens_lower_with_filter("|HelLo tHere", &tokens_filter);
    assert_eq!(res, " hello there");

    let res1 = TokenizerNaive::tokens_lower_with_filter("HelLo|tHere", &tokens_filter);
    assert_eq!(res1, "hello there");

    let res2 = TokenizerNaive::tokens_lower_with_filter("HelLo tHere", &tokens_filter);
    assert_eq!(res2, "hello there");

    let res6 =
        TokenizerNaive::tokens_lower_with_filter("****HelLo *() $& )(tH*ere", &tokens_filter);
    assert_eq!(res6, "    hello     $    th ere");
}

#[test]
fn on_word_splitter() {
    let res = TokenizerNaive::word_splitter("HelLo|tHere", &word_split);
    assert_eq!(res, vec!["HelLo", "tHere"])
}

#[test]
fn on_similarity_identity() {
    let t = TokenCmp::new_from_str("hello", "hello");
    assert_eq!(t.similarity(), 100);
}

#[test]
fn on_similarity_high() {
    let t = TokenCmp::new_from_str("hello b", "hello");
    assert_eq!(t.similarity(), 83);
}

#[test]
fn on_token_sort() {
    let s1 = "Marriot Beaches Resort foo";
    let s2 = "Beaches Resort Marriot bar";
    assert_eq!(TokenCmp::new_from_str(s1, s2).similarity(), 62);
    let sim = token_sort(s1, s2, TokenJoin::Concat, ScoreKind::Full);
    assert_eq!(sim, 87);
}

#[test]
fn on_amstel_match_for_nate() {
    let sabre = "INTERCONTINENTAL AMSTEL AMS";
    let ean = "InterContinental Amstel Amsterdam";
    assert_eq!(TokenCmp::new_from_str(sabre, ean).similarity(), 20);
    assert_eq!(TokenCmp::new_from_str(sabre, ean).partial_similarity(), 14);
    assert_eq!(token_sort(sabre, ean, TokenJoin::Concat, ScoreKind::Full), 79);

    assert_eq!(token_sort(sabre, ean, TokenJoin::Concat, ScoreKind::Partial), 78);
}

#[test]
fn on_partial_similarity_identity() {
    let t = TokenCmp::new_from_str("hello", "hello");
    assert_eq!(t.partial_similarity(), 100);
}

#[test]
fn on_partial_similarity_high() {
    let t = TokenCmp::new_from_str("hello b", "hello");
    assert_eq!(t.partial_similarity(), 100);
}

#[test]
fn on_similarity_and_whitespace_difference() {
    let t1 = TokenCmp::new_from_str("hello bar", "hello");
    let t2 = TokenCmp::new_from_str("hellobar", "hello");
    let sim1 = t1.similarity();
    let sim2 = t2.similarity();
    assert_ne!(sim1, sim2);
    assert!(sim1 < sim2);
    assert_eq!(sim1, 71);
    assert_eq!(sim2, 77);
}

#[test]
fn on_token_set_full() {
    assert_eq!(
        token_set(
            "new york mets vs atlanta braves",
            "atlanta braves vs new york mets",
            ScoreKind::Full
        ),
        100
    );
    assert_eq!(token_set("a b", "b c", ScoreKind::Full), 67);
}

#[test]
fn on_token_set_partial() {
    assert_eq!(token_set("a b", "b c", ScoreKind::Partial), 100);
}

#[test]
fn on_token_sort_spaced() {
    assert_eq!(
        token_sort("hello world", "world hello", TokenJoin::Spaced, ScoreKind::Full),
        100
    );
}

#[test]
fn on_matching_blocks_method() {
    let t = TokenCmp::new_from_str("abcd", "abd");
    // "abcd" is lexicographically smaller, so it plays the first role
    assert_eq!(t.matching_blocks(), vec![(0, 0, 2), (3, 2, 1), (4, 3, 0)]);
}

#[test]
fn on_sequencer_lowercases() {
    let an = AlphaNumericTokenizer;
    assert_eq!(an.sequencer("AbC dEf"), vec!["abc", "def"]);
    assert_eq!(an.token("AbC dEf"), "abc def");
}
