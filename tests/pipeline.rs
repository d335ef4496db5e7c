use find_zeta_primes::catalog::{order_key, ZeroCatalog};
use find_zeta_primes::resonance::{classify, format_line, needs_validation, render_batch, Resonance, Tag, Verdict};
use find_zeta_primes::line::parse_line;
use find_zeta_primes::text::parse_prime;

fn catalog_of(values: &[f64]) -> ZeroCatalog {
    ZeroCatalog::from_bits(values.iter().map(|v| v.to_bits()).collect())
}

fn entries(c: &ZeroCatalog) -> Vec<f64> {
    (0..c.len()).map(|i| f64::from_bits(c.get(i))).collect()
}

fn record(prime: u64, tag: Tag) -> Resonance {
    Resonance {
        prime,
        tangent: "0.871448".to_string(),
        cosine: "0.643758".to_string(),
        sine: "0.656987".to_string(),
        angle: "0.716814".to_string(),
        gamma: "0.114085".to_string(),
        tag,
    }
}

#[test]
fn catalog_is_sorted_ascending() {
    let c = catalog_of(&[21.022040, 14.134725, -3.5, 0.0, 25.010858, -0.25, 14.134725]);
    assert_eq!(entries(&c), vec![-3.5, -0.25, 0.0, 14.134725, 14.134725, 21.022040, 25.010858]);
    let e = entries(&c);
    for i in 1..e.len() {
        assert!(e[i - 1] <= e[i]);
    }
}

#[test]
fn empty_catalog_has_no_successor() {
    let c = catalog_of(&[]);
    assert_eq!(c.len(), 0);
    assert_eq!(c.successor(1.0f64.to_bits()), None);
}

#[test]
fn order_key_follows_numeric_order() {
    let values: [f64; 9] = [-1e300, -2.0, -1.0, -1e-310, 0.0, 1e-310, 1.0, 2.0, 1e300];
    for w in values.windows(2) {
        assert!(order_key(w[0].to_bits()) < order_key(w[1].to_bits()));
    }
    assert_eq!(order_key((-0.0f64).to_bits()), order_key(0.0f64.to_bits()));
}

#[test]
fn successor_only_lookup_ignores_nearer_predecessor() {
    let c = catalog_of(&[4.0, 5.0]);
    let tangent = 4.4f64;
    let zero = f64::from_bits(c.successor(tangent.to_bits()).unwrap());
    assert_eq!(zero, 5.0);
    let diff = (tangent - zero).abs();
    assert!(diff <= 1.0);
    assert!((diff - 0.6).abs() < 1e-12);
    assert_eq!(c.insertion_point(tangent.to_bits()), 1);
}

#[test]
fn lookup_of_exact_value_and_beyond_the_end() {
    let c = catalog_of(&[4.0, 5.0]);
    assert_eq!(c.insertion_point(4.0f64.to_bits()), 0);
    assert_eq!(c.insertion_point(3.0f64.to_bits()), 0);
    assert_eq!(c.insertion_point(5.5f64.to_bits()), 2);
    assert_eq!(c.successor(5.5f64.to_bits()), None);
    assert_eq!(c.successor((-7.0f64).to_bits()), Some(4.0f64.to_bits()));
}

#[test]
fn seven_against_pi_gives_no_record() {
    let c = catalog_of(&[3.141593]);
    let tangent = 7.0f64.tan();
    assert!((tangent - 0.8714).abs() < 1e-4);
    let zero = f64::from_bits(c.successor(tangent.to_bits()).unwrap());
    assert_eq!(zero, 3.141593);
    let diff = (tangent - zero).abs();
    assert!((diff - 2.27).abs() < 0.01);
    let matched = diff <= 0.5;
    assert!(!matched);
    let cosine = tangent.cos();
    let angle = tangent.atan();
    let sine = angle.sin();
    let in_window = cosine.abs() < 0.05 && sine.abs() > 0.99 && angle.abs() >= 1.5;
    assert!(!in_window);
    assert!(!needs_validation(matched, in_window));
    assert!(classify(matched, in_window, false).is_none());
}

#[test]
fn classification_is_exclusive() {
    for m in [false, true] {
        for w in [false, true] {
            for c in [false, true] {
                let r = classify(m, w, c);
                match r {
                    Some(Verdict::Match) => assert!(m),
                    Some(Verdict::NewCandidate) => assert!(!m && w && c),
                    None => assert!(!m && !(w && c)),
                }
            }
        }
    }
    assert!(needs_validation(false, true));
    assert!(!needs_validation(true, true));
    assert!(!needs_validation(false, false));
}

#[test]
fn match_line_format() {
    let r = record(7, Tag::Match { zero: "3.141593".to_string(), difference: "2.270145".to_string() });
    assert_eq!(
        format_line(&r),
        "MATCH: Prime: 7, Tangent: 0.871448, Cosine: 0.643758, Sine: 0.656987, Angle: 0.716814, Gamma: 0.114085, Zeta Zero: 3.141593, Difference: 2.270145"
    );
}

#[test]
fn new_zero_line_format() {
    let r = record(18446744073709551557, Tag::NewCandidate);
    assert_eq!(
        format_line(&r),
        "NEW ZETA ZERO: Prime: 18446744073709551557, Tangent: 0.871448, Cosine: 0.643758, Sine: 0.656987, Angle: 0.716814, Gamma: 0.114085"
    );
}

#[test]
fn batch_is_one_line_per_record() {
    let batch = vec![
        record(3, Tag::NewCandidate),
        record(5, Tag::Match { zero: "-1.000000".to_string(), difference: "0.000001".to_string() }),
    ];
    let text = render_batch(&batch);
    assert_eq!(
        text,
        "NEW ZETA ZERO: Prime: 3, Tangent: 0.871448, Cosine: 0.643758, Sine: 0.656987, Angle: 0.716814, Gamma: 0.114085\n\
         MATCH: Prime: 5, Tangent: 0.871448, Cosine: 0.643758, Sine: 0.656987, Angle: 0.716814, Gamma: 0.114085, Zeta Zero: -1.000000, Difference: 0.000001\n"
    );
    assert_eq!(render_batch(&vec![]), "");
    assert_eq!(render_batch(&batch), text);
}

#[test]
fn prime_lines() {
    assert_eq!(parse_prime("7"), Some(7));
    assert_eq!(parse_prime("+13"), Some(13));
    assert_eq!(parse_prime("007"), Some(7));
    assert_eq!(parse_prime("18446744073709551615"), Some(u64::MAX));
    assert_eq!(parse_prime("18446744073709551616"), None);
    assert_eq!(parse_prime(""), None);
    assert_eq!(parse_prime("-7"), None);
    assert_eq!(parse_prime("3.0"), None);
    assert_eq!(parse_prime(" 7"), None);
}

fn same(a: &Resonance, b: &Resonance) -> bool {
    let tags = match (&a.tag, &b.tag) {
        (Tag::Match { zero: z1, difference: d1 }, Tag::Match { zero: z2, difference: d2 }) => z1 == z2 && d1 == d2,
        (Tag::NewCandidate, Tag::NewCandidate) => true,
        _ => false,
    };
    tags && a.prime == b.prime && a.tangent == b.tangent && a.cosine == b.cosine && a.sine == b.sine
        && a.angle == b.angle && a.gamma == b.gamma
}

#[test]
fn lines_read_back_into_their_records() {
    let records = vec![
        record(7, Tag::Match { zero: "3.141593".to_string(), difference: "2.270145".to_string() }),
        record(11, Tag::NewCandidate),
        Resonance {
            prime: 104729,
            tangent: "-12345.678901".to_string(),
            cosine: "-0.999999".to_string(),
            sine: "-0.000000".to_string(),
            angle: "-1.570715".to_string(),
            gamma: "-0.249989".to_string(),
            tag: Tag::Match { zero: "-12345.000000".to_string(), difference: "0.678901".to_string() },
        },
    ];
    for r in &records {
        let line = format_line(r);
        let back = parse_line(&line).expect("a written line reads back");
        assert!(same(r, &back), "{}", line);
    }
}

#[test]
fn malformed_lines_do_not_read_back() {
    assert!(parse_line("").is_none());
    assert!(parse_line("MATCH: Prime: 7").is_none());
    assert!(parse_line("MATCH: Prime: 7, Tangent: 0.871448, Cosine: 0.643758, Sine: 0.656987, Angle: 0.716814, Gamma: 0.114085").is_none());
    assert!(parse_line("NEW ZETA ZERO: Prime: x, Tangent: 0.871448, Cosine: 0.643758, Sine: 0.656987, Angle: 0.716814, Gamma: 0.114085").is_none());
    assert!(parse_line("NEW ZETA ZERO: Prime: 7, Tangent: 0.871448, Cosine: 0.643758, Sine: 0.656987, Angle: 0.716814, Gamma: 0.114085 ").is_none());
    assert!(parse_line("new zeta zero: Prime: 7, Tangent: 0.871448, Cosine: 0.643758, Sine: 0.656987, Angle: 0.716814, Gamma: 0.114085").is_none());
    let r = parse_line("NEW ZETA ZERO: Prime: 7, Tangent: 0.871448, Cosine: 0.643758, Sine: 0.656987, Angle: 0.716814, Gamma: 0.114085").unwrap();
    assert_eq!(r.prime, 7);
    assert_eq!(r.gamma, "0.114085");
    assert!(matches!(r.tag, Tag::NewCandidate));
}

#[test]
fn catalog_does_not_depend_on_read_order() {
    let a = catalog_of(&[25.010858, 14.134725, 21.022040, 30.424876]);
    let b = catalog_of(&[30.424876, 21.022040, 25.010858, 14.134725]);
    assert_eq!(entries(&a), entries(&b));
    for t in [0.5f64, 14.134725, 20.0, 26.0, 31.0] {
        assert_eq!(a.successor(t.to_bits()), b.successor(t.to_bits()));
    }
}
