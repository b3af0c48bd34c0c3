use bbow::Bbow;

#[test]
fn test_new_is_empty() {
    let bbow = Bbow::new();
    assert!(bbow.is_empty());
    assert_eq!(bbow.len(), 0);
    assert_eq!(bbow.count(), 0);
}

#[test]
fn test_b_banana() {
    let bbow = Bbow::new().extend_from_text("b b b-banana b");
    assert_eq!(0, bbow.match_count("b-banana"));
    assert_eq!(3, bbow.match_count("b"));
}

#[test]
fn test_cant_stop() {
    let bbow = Bbow::new().extend_from_text("Can't stop this! Stop!");
    assert_eq!(2, bbow.len());
    assert_eq!(3, bbow.count());
}

#[test]
fn test_case_sensitivity() {
    let bbow = Bbow::new().extend_from_text("TEST test TEst tESt");
    assert_eq!(4, bbow.match_count("test"));
    assert_eq!(1, bbow.len());
    assert_eq!(4, bbow.count());
}

#[test]
fn test_invalid_keyword_param() {
    let bbow = Bbow::new().extend_from_text("Hello world.");
    assert_eq!(0, bbow.match_count(""));
    assert_eq!(0, bbow.match_count("hello."));
    assert_eq!(0, bbow.match_count("Hello"));
    assert_eq!(0, bbow.match_count("hello world"));
}

#[test]
fn test_large_iterative_input() {
    let mut bbow = Bbow::new().extend_from_text("Lets iterate over this text.");
    assert_eq!(5, bbow.count());
    for i in 0..100 {
        let text = match i % 2 {
            0 => "Lets iterate over this text.",
            _ => "Lets iterate over that text.",
        };
        bbow = bbow.extend_from_text(text);
    }
    assert_eq!(6, bbow.len());
    assert_eq!(505, bbow.count());
    assert_eq!(51, bbow.match_count("this"));
    assert_eq!(50, bbow.match_count("that"));
    assert_eq!(101, bbow.match_count("iterate"));
}

#[test]
fn test_diff_unicode_types() {
    let mut bbow = Bbow::new().extend_from_text("café café café cafe!");
    assert_eq!(2, bbow.len());
    assert_eq!(4, bbow.count());
    assert_eq!(3, bbow.match_count("café"));
    assert_eq!(1, bbow.match_count("cafe"));

    bbow = bbow.extend_from_text("日本語");
    assert_eq!(3, bbow.len());
    assert_eq!(5, bbow.count());
    assert_eq!(1, bbow.match_count("日本語"));

    bbow = bbow.extend_from_text("Hello in arabic: مرحبًا");
    assert_eq!(7, bbow.len());
    assert_eq!(9, bbow.count());
    assert_eq!(1, bbow.match_count("مرحبًا"));
}

#[test]
fn count_grows_by_the_words_of_a_fragment() {
    let bbow = Bbow::new().extend_from_text("alpha beta");
    assert_eq!(2, bbow.count());
    let bbow = bbow.extend_from_text("one two, three! 42 x-y ... alpha");
    assert_eq!(6, bbow.count());
    assert_eq!(2, bbow.match_count("alpha"));
}

#[test]
fn repeated_word_counts_twice() {
    let bbow = Bbow::new().extend_from_text("word").extend_from_text("word");
    assert_eq!(2, bbow.match_count("word"));
    assert_eq!(1, bbow.len());
    let bbow = Bbow::new().extend_from_text("été").extend_from_text("été");
    assert_eq!(2, bbow.match_count("été"));
    assert_eq!(1, bbow.len());
}

#[test]
fn keywords_that_cannot_be_words_miss() {
    let bbow = Bbow::new().extend_from_text("abc a b c");
    assert_eq!(1, bbow.match_count("abc"));
    assert_eq!(0, bbow.match_count("a1"));
    assert_eq!(0, bbow.match_count("a b"));
    assert_eq!(0, bbow.match_count("a\tb"));
    assert_eq!(0, bbow.match_count("ABC"));
    assert_eq!(0, bbow.match_count(" abc"));
    assert_eq!(0, bbow.match_count("zzz"));
}

#[test]
fn empty_only_without_words() {
    assert!(Bbow::default().is_empty());
    let bbow = Bbow::new().extend_from_text("").extend_from_text("   \t\n ");
    assert!(bbow.is_empty());
    let bbow = bbow.extend_from_text("123 !!! -- 4.5 x-y");
    assert!(bbow.is_empty());
    assert_eq!(0, bbow.count());
    let bbow = bbow.extend_from_text("a");
    assert!(!bbow.is_empty());
}

#[test]
fn chaining_matches_one_joined_fragment() {
    let f1 = "The cat, the HAT.";
    let f2 = "the end -- of it";
    let chained = Bbow::new().extend_from_text(f1).extend_from_text(f2);
    let joined_text = format!("{} {}", f1, f2);
    let joined = Bbow::new().extend_from_text(&joined_text);
    assert_eq!(chained.len(), joined.len());
    assert_eq!(chained.count(), joined.count());
    assert_eq!(chained.words(), joined.words());
    for w in joined.words() {
        assert_eq!(chained.match_count(&w), joined.match_count(&w));
    }
    assert_eq!(3, joined.match_count("the"));
}

#[test]
fn words_are_sorted_and_distinct() {
    let bbow = Bbow::new().extend_from_text("b a c B zebra été A");
    assert_eq!(vec!["a", "b", "c", "zebra", "été"], bbow.words());
    assert_eq!(7, bbow.count());
    assert_eq!(2, bbow.match_count("a"));
    assert_eq!(2, bbow.match_count("b"));
}

#[test]
fn words_of_empty_bag() {
    let bbow = Bbow::new();
    assert!(bbow.words().is_empty());
}

#[test]
fn boundary_punctuation_is_trimmed() {
    let bbow = Bbow::new().extend_from_text("...hello!!! 'quoted' (x) !!! 12ab34");
    assert_eq!(1, bbow.match_count("hello"));
    assert_eq!(1, bbow.match_count("quoted"));
    assert_eq!(1, bbow.match_count("x"));
    assert_eq!(1, bbow.match_count("ab"));
    assert_eq!(4, bbow.count());
}

#[test]
fn unicode_whitespace_separates_words() {
    let bbow = Bbow::new().extend_from_text("a\tb\nc\u{3000}d\u{a0}e");
    assert_eq!(5, bbow.len());
    assert_eq!(5, bbow.count());
}

#[test]
fn uppercase_words_are_lowercased() {
    let bbow = Bbow::new().extend_from_text("ÉCOLE école");
    assert_eq!(2, bbow.match_count("école"));
    assert_eq!(1, bbow.len());
    let bbow = Bbow::new().extend_from_text("ὈΔΥΣΣΕΎΣ");
    assert_eq!(1, bbow.match_count("ὀδυσσεύς"));
    assert_eq!(vec!["ὀδυσσεύς"], bbow.words());
}

#[test]
fn words_keep_their_characters() {
    let bbow = Bbow::new().extend_from_text("naïve 日本語");
    assert_eq!(vec!["naïve", "日本語"], bbow.words());
}

#[test]
fn clone_is_independent() {
    let a = Bbow::new().extend_from_text("one");
    let b = a.clone().extend_from_text("one two");
    assert_eq!(1, a.count());
    assert_eq!(3, b.count());
}
