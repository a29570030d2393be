use algorithms_rs::string::{BruteForce, Kmp};

#[test]
fn test_brute_force() {
    let s = "AABAACAADAABAABA";
    let s1 = format!("{s}A");
    let pat = vec!["AABA", "B", "E", s, s1.as_str()];
    let expected = vec![vec![0, 9, 12], vec![2, 11, 14], vec![], vec![0], vec![]];

    for (p, e) in pat.iter().zip(expected) {
        assert_eq!(s.brute_force(p), e);
    }
}

#[test]
fn brute_force_empty_pattern_matches_everywhere() {
    assert_eq!("abc".brute_force(""), vec![0, 1, 2, 3]);
    assert_eq!("".brute_force(""), vec![0]);
    assert_eq!("".brute_force("a"), Vec::<usize>::new());
}

#[test]
fn test_kmp() {
    let s = "AABAACAADAABAABA";
    let s1 = format!("{s}A");
    let pat = vec!["AABA", "B", "E", s, s1.as_str()];
    let expected = vec![vec![0, 9, 12], vec![2, 11, 14], vec![], vec![0], vec![]];

    for (p, e) in pat.iter().zip(expected) {
        assert_eq!(s.kmp(p), e);
    }
}

#[test]
fn kmp_agrees_with_brute_force() {
    let texts = ["", "a", "aaaaa", "abababab", "abcabcabd", "aabaaabaaac", "mississippi"];
    let pats = ["", "a", "aa", "aba", "abab", "abcabd", "aabaaac", "issi", "ppi", "zzz"];
    for t in texts {
        for p in pats {
            assert_eq!(t.kmp(p), t.brute_force(p), "text {t:?} pattern {p:?}");
        }
    }
    assert_eq!("aaaaa".kmp("aa"), vec![0, 1, 2, 3]);
    assert_eq!("abababab".kmp("abab"), vec![0, 2, 4]);
}
