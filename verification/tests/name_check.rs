use sqbs::name_check::name_has_unusual_capitalization as unusual;

#[test]
fn ordinary_names_are_quiet() {
    for n in ["Alice Smith", "Bob", "Mary-Jane O'Connor", "Jean-Luc Picard"] {
        assert!(!unusual(n), "{n} should not warn");
    }
}

#[test]
fn leading_lowercase_warns() {
    assert!(unusual("alice Smith"));
    assert!(unusual("Alice smith"));
}

#[test]
fn all_caps_warns() {
    assert!(unusual("SMITH"));
    assert!(unusual("Alice SMITH"));
}

#[test]
fn internal_caps_warn() {
    assert!(unusual("SMith"));
}

#[test]
fn whitelisted_patterns_are_quiet() {
    for n in [
        "Ludwig van Beethoven",
        "Vincent van Gogh",
        "Oscar de la Renta",
        "Ronald McDonald",
        "Peter MacArthur",
        "Sean O'Brien",
        "John Smith III",
        "Henry VIII",
    ] {
        assert!(!unusual(n), "{n} should not warn");
    }
}

#[test]
fn short_all_caps_and_non_letters_are_quiet() {
    assert!(!unusual("JD"));
    assert!(!unusual("Bob (12)"));
    assert!(!unusual(""));
    assert!(!unusual("   "));
}

#[test]
fn wrapped_words_are_checked_inside_their_brackets() {
    assert!(!unusual("(Wesley)"));
    assert!(unusual("(wesley)"));
    assert!(unusual("Smith, JONES."));
}

#[test]
fn particles_stay_quiet_in_any_case() {
    assert!(!unusual("Maria della Costa"));
    assert!(!unusual("Ahmad ibn Said"));
    assert!(unusual("Ahmad ibnx Said"));
}

#[test]
fn roman_numeral_words_are_quiet_but_other_caps_warn() {
    assert!(!unusual("Louis XIV"));
    assert!(!unusual("Pope MCM"));
    assert!(unusual("Pope MCMA"));
}

#[test]
fn prefixed_names_allow_internal_capitals() {
    assert!(!unusual("DeShawn McKAy"));
    assert!(unusual("DeShawn KKay"));
    assert!(!unusual("Mo"));
}

#[test]
fn tabs_and_newlines_separate_words() {
    assert!(unusual("Alice\tsmith"));
    assert!(!unusual("Alice\nSmith"));
}

#[test]
fn particles_are_matched_in_lowercase() {
    assert!(!unusual("Ludwig VAN Beethoven"));
    assert!(!unusual("Oscar DE LA Renta"));
}

#[test]
fn joined_names_warn_when_either_part_does() {
    let parts = ["Alice", "smith", "SMITH", "McDonald", "", "  ", "van", "(12)", "SMith", "Jo Ann"];
    for a in parts {
        for b in parts {
            let joined = format!("{a} {b}");
            assert_eq!(unusual(&joined), unusual(a) || unusual(b), "{joined:?}");
        }
    }
}

#[test]
fn wrapping_a_word_changes_nothing() {
    let words = ["Wesley", "wesley", "WESLEY", "12", "", "SMith", "Mc", "XIV", "()"];
    let wraps = ["", "(", ")", "[[", "]}", ".,", "{", "(."];
    for s in words {
        for p in wraps {
            for q in wraps {
                let wrapped = format!("{p}{s}{q}");
                assert_eq!(unusual(&wrapped), unusual(s), "{wrapped:?}");
            }
        }
    }
    assert!(!unusual("(Wesley)"));
    assert!(!unusual("(12)"));
}
