use myers::{histogram, lower_bound, myers_64, myers_unbounded, trim};

/// Textbook quadratic dynamic program, used as an oracle.
fn oracle(a: &[u8], b: &[u8]) -> usize {
    let mut prev: Vec<usize> = (0..=b.len()).collect();
    for i in 1..=a.len() {
        let mut cur = vec![i; b.len() + 1];
        for j in 1..=b.len() {
            let sub = prev[j - 1] + if a[i - 1] == b[j - 1] { 0 } else { 1 };
            cur[j] = sub.min(prev[j] + 1).min(cur[j - 1] + 1);
        }
        prev = cur;
    }
    prev[b.len()]
}

/// Small deterministic generator of ASCII strings over a narrow alphabet.
fn sample(seed: u64, len: usize) -> String {
    let mut x = seed.wrapping_mul(6364136223846793005).wrapping_add(1442695040888963407);
    let mut s = String::new();
    for _ in 0..len {
        x = x.wrapping_mul(6364136223846793005).wrapping_add(1442695040888963407);
        s.push((b'a' + ((x >> 33) % 4) as u8) as char);
    }
    s
}

fn pairs() -> Vec<(String, String)> {
    let mut v = Vec::new();
    for k in 0..40u64 {
        let la = ((k * 37) % 150) as usize;
        let lb = ((k * 53 + 11) % 150) as usize;
        v.push((sample(k, la), sample(k + 1000, lb)));
    }
    v
}

#[test]
fn unbounded_matches_oracle() {
    for (a, b) in pairs() {
        if !a.is_empty() {
            assert_eq!(myers_unbounded(&a, &b), oracle(a.as_bytes(), b.as_bytes()), "{a} {b}");
        }
    }
}

#[test]
fn bounded_and_unbounded_agree() {
    for (a, b) in pairs() {
        let q: String = a.chars().take(64).collect();
        if !q.is_empty() {
            assert_eq!(myers_64(&q, &b), myers_unbounded(&q, &b));
            assert_eq!(myers_64(&q, &b), oracle(q.as_bytes(), b.as_bytes()));
        }
    }
}

#[test]
fn distance_is_symmetric() {
    for (a, b) in pairs() {
        if !a.is_empty() && !b.is_empty() {
            assert_eq!(myers_unbounded(&a, &b), myers_unbounded(&b, &a));
        }
    }
}

#[test]
fn distance_to_self_is_zero() {
    for (a, _) in pairs() {
        assert_eq!(myers_unbounded(&a, &a), 0);
    }
    assert_eq!(myers_64("kitten!", "kitten!"), 0);
}

#[test]
fn distance_within_length_bounds() {
    for (a, b) in pairs() {
        let d = myers_unbounded(&a, &b);
        assert!(d <= a.len().max(b.len()));
        assert!(d >= a.len().abs_diff(b.len()));
    }
}

#[test]
fn lower_bound_below_distance() {
    for (a, b) in pairs() {
        assert!(lower_bound(&a, &b) <= myers_unbounded(&a, &b));
    }
}

#[test]
fn trim_keeps_distance() {
    for (a, b) in pairs() {
        let x = format!("xyz{a}qq");
        let y = format!("xyz{b}qq");
        let (p, qe, te) = trim(&x, &y);
        assert_eq!(&x.as_bytes()[..p], &y.as_bytes()[..p]);
        assert_eq!(&x.as_bytes()[qe..], &y.as_bytes()[te..]);
        assert_eq!(myers_unbounded(&x, &y), myers_unbounded(&x[p..qe], &y[p..te]));
    }
}

#[test]
fn query_lengths_on_block_edges() {
    for len in [1usize, 63, 64, 65, 127, 128, 129] {
        let q = sample(7, len);
        let t = sample(8, 100);
        assert_eq!(myers_unbounded(&q, &t), oracle(q.as_bytes(), t.as_bytes()));
        if len <= 64 {
            assert_eq!(myers_64(&q, &t), oracle(q.as_bytes(), t.as_bytes()));
        }
    }
}

#[test]
fn empty_inputs() {
    assert_eq!(myers_64("", "sitting"), 7);
    assert_eq!(myers_unbounded("", "sitting"), 7);
    assert_eq!(myers_64("kitten", ""), 6);
    assert_eq!(myers_unbounded("kitten", ""), 6);
    assert_eq!(myers_unbounded("", ""), 0);
    assert_eq!(trim("", ""), (0, 0, 0));
    assert_eq!(trim("", "abc"), (0, 0, 3));
    assert_eq!(lower_bound("", "abc"), 3);
}

#[test]
fn trim_overlapping_affixes() {
    assert_eq!(trim("aa", "aaa"), (2, 2, 3));
    assert_eq!(trim("ab", "b"), (0, 1, 0));
    assert_eq!(trim("abc", "abc"), (3, 3, 3));
}

#[test]
fn bytes_not_characters() {
    // 'é' is two bytes in UTF-8, 'e' one.
    assert_eq!(myers_64("é", "e"), 2);
    assert_eq!(myers_unbounded("é", "e"), 2);
}

#[test]
fn histogram_counts_bytes() {
    let h = histogram("abracadabra");
    assert_eq!(h[b'a' as usize], 5);
    assert_eq!(h[b'b' as usize], 2);
    assert_eq!(h[b'z' as usize], 0);
}

#[test]
fn lower_bound_exact_value() {
    // Gaps of one at 'c' and 'd', no length difference: (2 + 0) / 2.
    assert_eq!(lower_bound("abc", "abd"), 1);
    // Gaps of four at 'a' and one at 'b', length difference three: (5 + 3) / 2.
    assert_eq!(lower_bound("aaaa", "b"), 4);
}
