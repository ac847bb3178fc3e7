use natural_sort::{natural_cmp, natural_cmp_old};
use rand::distr::{Distribution, Uniform};
use rand::Rng;
use rand_chacha::rand_core::SeedableRng;
use rand_chacha::ChaCha20Rng;
use std::cmp::Ordering;

#[test]
fn natural_cmp_works() {
    assert_eq!(Ordering::Equal, natural_cmp("", ""));
    assert_eq!(Ordering::Equal, natural_cmp("1", "1"));
    assert_eq!(Ordering::Equal, natural_cmp("a", "a"));

    assert_eq!(Ordering::Less, natural_cmp("ab", "ac"));
    assert_eq!(Ordering::Greater, natural_cmp("ac", "ab"));

    assert_eq!(Ordering::Less, natural_cmp("test1", "test12"));
    assert_eq!(Ordering::Greater, natural_cmp("test12", "test1"));

    assert_eq!(Ordering::Less, natural_cmp("1", "2"));
    assert_eq!(Ordering::Greater, natural_cmp("2", "1"));

    assert_eq!(Ordering::Less, natural_cmp("12", "13"));
    assert_eq!(Ordering::Greater, natural_cmp("13", "12"));

    assert_eq!(Ordering::Less, natural_cmp("1a", "12"));
    assert_eq!(Ordering::Greater, natural_cmp("12", "1a"));

    assert_eq!(Ordering::Greater, natural_cmp("aa", "a2"));
    assert_eq!(Ordering::Less, natural_cmp("a2", "aa"));

    assert_eq!(Ordering::Greater, natural_cmp("a", "1"));
    assert_eq!(Ordering::Less, natural_cmp("1", "a"));

    assert_eq!(Ordering::Less, natural_cmp("2", "12"));
    assert_eq!(Ordering::Greater, natural_cmp("12", "2"));

    assert_eq!(Ordering::Less, natural_cmp("12a", "22b"));
    assert_eq!(Ordering::Greater, natural_cmp("22b", "12a"));

    assert_eq!(Ordering::Less, natural_cmp("12a", "221"));
    assert_eq!(Ordering::Greater, natural_cmp("221", "12a"));
}

const CHARACTERS: &str = "ABCDEF123456";

fn generate_string<R: Rng + ?Sized>(rng: &mut R) -> String {
    let count_distribution: Uniform<u32> = Uniform::new(1, 10).unwrap();
    let character_distribution: Uniform<u32> =
        Uniform::new(1, CHARACTERS.len() as u32).unwrap();
    let mut res = String::new();
    let count: u32 = count_distribution.sample(rng);
    res.reserve(count as usize);
    for _ in 0..count {
        res.push(char::from(
            CHARACTERS.as_bytes()[character_distribution.sample(rng) as usize],
        ));
    }
    res
}

#[test]
fn natural_cmp_same_as_old_fuzz() {
    let mut rng = ChaCha20Rng::seed_from_u64(42);
    for _ in 0..10000 {
        let a = generate_string(&mut rng);
        let b = generate_string(&mut rng);
        assert_eq!(
            natural_cmp_old(a.as_str(), b.as_str()),
            natural_cmp(a.as_str(), b.as_str())
        );
    }
}

#[test]
fn chunked_comparator_gives_the_listed_orders() {
    assert_eq!(Ordering::Equal, natural_cmp_old("", ""));
    assert_eq!(Ordering::Equal, natural_cmp_old("1", "1"));
    assert_eq!(Ordering::Equal, natural_cmp_old("a", "a"));
    assert_eq!(Ordering::Less, natural_cmp_old("ab", "ac"));
    assert_eq!(Ordering::Greater, natural_cmp_old("ac", "ab"));
    assert_eq!(Ordering::Less, natural_cmp_old("test1", "test12"));
    assert_eq!(Ordering::Greater, natural_cmp_old("test12", "test1"));
    assert_eq!(Ordering::Less, natural_cmp_old("1", "2"));
    assert_eq!(Ordering::Less, natural_cmp_old("12", "13"));
    assert_eq!(Ordering::Less, natural_cmp_old("1a", "12"));
    assert_eq!(Ordering::Greater, natural_cmp_old("12", "1a"));
    assert_eq!(Ordering::Greater, natural_cmp_old("aa", "a2"));
    assert_eq!(Ordering::Less, natural_cmp_old("a2", "aa"));
    assert_eq!(Ordering::Greater, natural_cmp_old("a", "1"));
    assert_eq!(Ordering::Less, natural_cmp_old("1", "a"));
    assert_eq!(Ordering::Less, natural_cmp_old("2", "12"));
    assert_eq!(Ordering::Greater, natural_cmp_old("12", "2"));
    assert_eq!(Ordering::Less, natural_cmp_old("12a", "22b"));
    assert_eq!(Ordering::Less, natural_cmp_old("12a", "221"));
    assert_eq!(Ordering::Greater, natural_cmp_old("221", "12a"));
}

#[test]
fn empty_text_is_least() {
    assert_eq!(Ordering::Less, natural_cmp("", "a"));
    assert_eq!(Ordering::Greater, natural_cmp("a", ""));
    assert_eq!(Ordering::Less, natural_cmp("", "0"));
    assert_eq!(Ordering::Less, natural_cmp_old("", "a"));
    assert_eq!(Ordering::Greater, natural_cmp_old("0", ""));
}

#[test]
fn numbers_inside_text_order_by_value() {
    assert_eq!(Ordering::Less, natural_cmp("item2", "item12"));
    assert_eq!(Ordering::Less, natural_cmp_old("item2", "item12"));
    assert_eq!(Ordering::Greater, natural_cmp("item12", "item2"));
    assert_eq!(Ordering::Less, natural_cmp("x9y", "x10y"));
    assert_eq!(Ordering::Less, natural_cmp("x10a", "x10b"));
    assert_eq!(Ordering::Less, natural_cmp("x19", "x21"));
    assert_eq!(Ordering::Less, natural_cmp_old("x19", "x21"));
}

#[test]
fn longer_digit_run_wins_even_with_leading_zeros() {
    assert_eq!(Ordering::Greater, natural_cmp("007", "7"));
    assert_eq!(Ordering::Greater, natural_cmp_old("007", "7"));
    assert_eq!(Ordering::Less, natural_cmp("7", "007"));
    assert_eq!(Ordering::Greater, natural_cmp("a007", "a9"));
    assert_eq!(Ordering::Greater, natural_cmp_old("a007", "a9"));
}

#[test]
fn digit_run_that_outlasts_the_shorter_text() {
    // the runs differ at "1" against "2" and the longer text goes on with a digit
    assert_eq!(Ordering::Greater, natural_cmp("a19", "a2"));
    assert_eq!(Ordering::Less, natural_cmp("a2", "a19"));
    // the longer text goes on with text: the first digits decide
    assert_eq!(Ordering::Less, natural_cmp("a1b", "a2"));
    assert_eq!(Ordering::Greater, natural_cmp("a2", "a1b"));
    assert_eq!(Ordering::Greater, natural_cmp_old("a19", "a2"));
    assert_eq!(Ordering::Less, natural_cmp_old("a1b", "a2"));
}

#[test]
fn digit_runs_ending_at_different_places() {
    assert_eq!(Ordering::Less, natural_cmp("1x22", "2222"));
    assert_eq!(Ordering::Greater, natural_cmp("2222", "1x22"));
    assert_eq!(Ordering::Greater, natural_cmp("15x", "2yz"));
    assert_eq!(Ordering::Less, natural_cmp("15x", "25y"));
    assert_eq!(Ordering::Greater, natural_cmp("25x", "15y"));
}

#[test]
fn bytes_outside_ascii_are_text() {
    assert_eq!(Ordering::Less, natural_cmp("é1", "é2"));
    assert_eq!(Ordering::Less, natural_cmp("é2", "é10"));
    assert_eq!(Ordering::Less, natural_cmp_old("é2", "é10"));
    assert_eq!(Ordering::Less, natural_cmp("z", "é"));
    assert_eq!(Ordering::Less, natural_cmp("9", "é"));
    assert_eq!(Ordering::Less, natural_cmp_old("9", "é"));
    // Arabic-Indic digits are no ASCII digits
    assert_eq!(Ordering::Greater, natural_cmp("٢", "١٠"));
    assert_eq!(Ordering::Greater, natural_cmp_old("٢", "١٠"));
}

#[test]
fn comparing_a_text_with_itself_is_equal() {
    for s in ["", "a", "1", "a1b22c333", "007", "é9", " 1 2 "] {
        assert_eq!(Ordering::Equal, natural_cmp(s, s));
        assert_eq!(Ordering::Equal, natural_cmp_old(s, s));
    }
}

#[test]
fn swapping_the_arguments_reverses_the_order() {
    let texts = ["", "a", "1", "12", "2", "a1", "a12", "a2", "a ", "a/", "ab", "1a", "007", "7"];
    for a in texts {
        for b in texts {
            assert_eq!(natural_cmp(a, b), natural_cmp(b, a).reverse());
            assert_eq!(natural_cmp_old(a, b), natural_cmp_old(b, a).reverse());
        }
    }
}

#[test]
fn only_identical_texts_compare_equal() {
    let texts = ["", "a", "1", "01", "a1", "a01", "1a", "a "];
    for a in texts {
        for b in texts {
            assert_eq!(natural_cmp(a, b) == Ordering::Equal, a == b);
        }
    }
}

#[test]
fn the_order_is_transitive_on_samples() {
    let texts = [
        "", " ", "/", "0", "1", "9", "10", "007", "7", ":", "a", "a ", "a/", "a0", "a1", "a10",
        "a2", "a:", "aa", "a1b", "a1 ", "1a", "1 ", "1/2", "12", "12a", "22b", "221",
    ];
    for a in texts {
        for b in texts {
            for c in texts {
                if natural_cmp(a, b) == Ordering::Less && natural_cmp(b, c) == Ordering::Less {
                    assert_eq!(Ordering::Less, natural_cmp(a, c));
                }
                if natural_cmp_old(a, b) == Ordering::Less
                    && natural_cmp_old(b, c) == Ordering::Less
                {
                    assert_eq!(Ordering::Less, natural_cmp_old(a, c));
                }
            }
        }
    }
}

#[test]
fn comparators_agree_without_bytes_below_zero() {
    let texts = ["", "a", "1", "12", "2", "a1", "a12", "a2", "ab", "1a", "a:", "a1b2", "a1b10", "é1", "é"];
    for a in texts {
        for b in texts {
            assert_eq!(natural_cmp_old(a, b), natural_cmp(a, b));
        }
    }
}

#[test]
fn comparators_part_where_a_digit_meets_a_low_byte_after_text() {
    // after the shared "a" one text goes on with a digit, the other with a space
    assert_eq!(Ordering::Greater, natural_cmp("a1", "a "));
    assert_eq!(Ordering::Less, natural_cmp_old("a1", "a "));
    assert_eq!(Ordering::Less, natural_cmp("a ", "a1"));
    assert_eq!(Ordering::Greater, natural_cmp_old("a ", "a1"));
    assert_eq!(Ordering::Less, natural_cmp("x-y", "x5"));
    assert_eq!(Ordering::Greater, natural_cmp_old("x-y", "x5"));
    // at the start, or behind a digit, they agree
    assert_eq!(natural_cmp_old("1", " "), natural_cmp("1", " "));
    assert_eq!(Ordering::Greater, natural_cmp("1", " "));
    assert_eq!(natural_cmp_old("11", "1 "), natural_cmp("11", "1 "));
    assert_eq!(Ordering::Greater, natural_cmp("11", "1 "));
    assert_eq!(natural_cmp_old("1.5", "1 5"), natural_cmp("1.5", "1 5"));
    assert_eq!(Ordering::Greater, natural_cmp("1.5", "1 5"));
}
