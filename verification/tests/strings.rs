use similarity_metrics::dist::{l_distance, lcs};
use similarity_metrics::jaro::{
    jaro, jaro_winkler, jaro_winkler_ext, len_common_prefix, matching, sequence_ranks,
    transpositions_estimate,
};
use similarity_metrics::ratio::Ratio;

fn val(r: Ratio) -> f64 {
    r.num as f64 / r.den as f64
}

fn around(a: f64, b: f64) -> bool {
    (a - b).abs() <= 1e-6
}

fn frac(a: u64, b: u64) -> f64 {
    a as f64 / b as f64
}

#[test]
fn levenshtein_kitten_sitting() {
    assert_eq!(l_distance("kitten", "sitting"), 3);
}

#[test]
fn levenshtein_simple_properties_on_values() {
    assert_eq!(l_distance("hello", "hello"), 0);
    assert_eq!(l_distance("", "hello"), 5);
    assert_eq!(l_distance("hello", ""), 5);
    assert_eq!(l_distance("kitten", "sitting"), l_distance("sitting", "kitten"));
    // triangle inequality on a concrete triple
    let (s, t, u) = ("kitten", "mitten", "sitting");
    assert!(l_distance(s, u) <= l_distance(s, t) + l_distance(t, u));
}

#[test]
fn lcs_values() {
    assert_eq!(lcs("hello", "hello world"), 5);
    assert_eq!(lcs("abcbdab", "bdcaba"), 4);
    assert_eq!(lcs("same", "same"), 4);
    assert_eq!(lcs("anything", ""), 0);
    assert_eq!(lcs("", "anything"), 0);
}

#[test]
fn matching_pinned_pairs() {
    assert_eq!(matching("hello", "hello world"), (5, 0));
    assert_eq!(matching("---amyez---", "---zayem---"), (11, 2));
    assert_eq!(matching("---zayem---", "---amyez---"), (11, 2));
    assert_eq!(matching("FAREMVIEL", "FARMVILLE"), (8, 1));
    assert_eq!(matching("winkler", "welfare"), (4, 1));
    assert_eq!(matching("DWAYNE", "DUANE"), (4, 0));
    assert_eq!(matching("DUANE", "DWAYNE"), (4, 0));
    assert_eq!(matching("martha", "marhta"), (6, 1));
    assert_eq!(matching("DIXON", "DIRKSONX"), (4, 0));
    assert_eq!(matching("JeLlYfIsH", "SMeLlYfIsH"), (8, 0));
    assert_eq!(matching("UPPERCASE", "lowercase"), (0, 0));
    assert_eq!(matching("UPPERCASE", "lowerCASE"), (4, 0));
    assert_eq!(matching("!@#ABCDE$%^", "$%^EABCD!@#"), (5, 1));
    assert_eq!(matching("$%^EABCD!@#", "!@#ABCDE$%^"), (5, 1));
    assert_eq!(matching("", ""), (0, 0));
    assert_eq!(matching("a", ""), (0, 0));
    assert_eq!(matching("a", "ab"), (1, 0));
}

#[test]
fn sequence_ranks_values() {
    assert_eq!(sequence_ranks(&vec![0usize, 2, 1, 5]), vec![0, 2, 1, 3]);
    assert_eq!(sequence_ranks(&vec![9usize, 8, 5, 0]), vec![3, 2, 1, 0]);
}

#[test]
fn transpositions_estimate_values() {
    assert_eq!(transpositions_estimate(&vec![0usize, 2, 1, 3]), 1);
    assert_eq!(transpositions_estimate(&vec![0usize, 1, 2, 3]), 0);
    assert_eq!(transpositions_estimate(&vec![1usize, 2, 3, 4, 0]), 1);
    assert_eq!(transpositions_estimate(&Vec::<usize>::new()), 0);
}

#[test]
fn jaro_pinned_values() {
    // the two fractions are compared exactly, by cross-multiplication
    let r = jaro("martha", "marhta");
    assert_eq!(r.num * 18, r.den * 17);
    let r = jaro("DWAYNE", "DUANE");
    assert_eq!(r.num * 45, r.den * 37);
    let r = jaro("a", "ab");
    assert_eq!(r.num * 6, r.den * 5);
    assert_eq!(jaro("", "").num, 0);
    assert_eq!(jaro("a", "").num, 0);
    assert_eq!(jaro("UPPERCASE", "lowercase").num, 0);
}

#[test]
fn jaro_pinned_values_as_floats() {
    assert!(around(val(jaro("hello", "hello world")), frac(9, 11)));
    assert!(around(val(jaro("---amyez---", "---zayem---")), frac(31, 33)));
    assert!(around(val(jaro("FAREMVIEL", "FARMVILLE")), frac(191, 216)));
    assert!(around(val(jaro("winkler", "welfare")), frac(53, 84)));
    assert!(around(val(jaro("DIXON", "DIRKSONX")), frac(23, 30)));
    assert!(around(val(jaro("JeLlYfIsH", "SMeLlYfIsH")), frac(121, 135)));
    assert!(around(val(jaro("UPPERCASE", "lowerCASE")), frac(17, 27)));
    assert!(around(val(jaro("!@#ABCDE$%^", "$%^EABCD!@#")), frac(94, 165)));
}

#[test]
fn jaro_symmetric_on_values() {
    assert!(around(val(jaro("DUANE", "DWAYNE")), val(jaro("DWAYNE", "DUANE"))));
    assert!(around(
        val(jaro("$%^EABCD!@#", "!@#ABCDE$%^")),
        val(jaro("!@#ABCDE$%^", "$%^EABCD!@#")),
    ));
}

#[test]
fn jaro_winkler_pinned_values() {
    // p = 0.05 pinned: 343/360
    let p = Some(Ratio { num: 1, den: 20 });
    let r = jaro_winkler("martha", "marhta", p);
    assert_eq!(r.num * 360, r.den * 343);

    assert!(around(val(jaro_winkler("hello", "hello world", None)), frac(49, 55)));
    let p2 = Some(Ratio { num: 1, den: 5 });
    assert!(around(val(jaro_winkler("---amyez---", "---zayem---", p2)), frac(161, 165)));
    assert!(around(val(jaro_winkler("FAREMVIEL", "FARMVILLE", None)), frac(397, 432)));
    // p = 0.4 is capped at 0.25
    let p4 = Some(Ratio { num: 2, den: 5 });
    assert!(around(val(jaro_winkler("winkler", "welfare", p4)), frac(81, 112)));
    assert!(around(val(jaro_winkler("DWAYNE", "DUANE", None)), frac(21, 25)));
    assert!(around(val(jaro_winkler("DIXON", "DIRKSONX", None)), frac(61, 75)));
    let p5 = Some(Ratio { num: 1, den: 2 });
    assert!(around(val(jaro_winkler("JeLlYfIsH", "SMeLlYfIsH", p5)), frac(121, 135)));
    assert!(around(val(jaro_winkler("UPPERCASE", "lowercase", None)), 0.0));
    assert!(around(val(jaro_winkler("", "", None)), 0.0));
    assert!(around(val(jaro_winkler("a", "", None)), 0.0));
    let pq = Some(Ratio { num: 1, den: 4 });
    assert!(around(val(jaro_winkler("a", "ab", pq)), frac(7, 8)));
    let p0 = Some(Ratio { num: 0, den: 1 });
    assert!(around(val(jaro_winkler("ab", "a", p0)), frac(5, 6)));
}

#[test]
fn jaro_winkler_ext_pinned_values() {
    assert!(around(val(jaro_winkler_ext("hello", "hello world", None, None)), frac(10, 11)));
    let ph = Some(Ratio { num: 1, den: 2 });
    assert!(around(val(jaro_winkler_ext("---amyez---", "---zayem---", ph, Some(2))), 1.0));
    let p2 = Some(Ratio { num: 1, den: 5 });
    assert!(around(
        val(jaro_winkler_ext("---zayem---", "---amyez---", p2, Some(3))),
        frac(161, 165),
    ));
    assert!(around(val(jaro_winkler_ext("FAREMVIEL", "FARMVILLE", None, None)), frac(397, 432)));
    let pq = Some(Ratio { num: 1, den: 4 });
    assert!(around(val(jaro_winkler_ext("winkler", "welfare", pq, None)), frac(67, 98)));
}

#[test]
fn len_common_prefix_values() {
    assert_eq!(len_common_prefix("hello", "hello world"), 5);
    assert_eq!(len_common_prefix("hello", "world"), 0);
    assert_eq!(len_common_prefix("hello", "hell"), 4);
    assert_eq!(len_common_prefix("hello", "he"), 2);
}
