use pi_digits::chudnovsky::{pi_chudnovsky_bs, term_count, with_pqt, Chudnovsky, PiError, C3_24};
use pi_digits::BigInt;

fn last_five(pi: &BigInt) -> u64 {
    let s = pi.to_decimal();
    s[s.len() - 5..].parse().unwrap()
}

fn triplet(a: u64, b: u64) -> (String, String, String) {
    let c3_24 = BigInt::from_u64(C3_24);
    let (p, q, t) = with_pqt(a, b, &c3_24);
    (p.to_decimal(), q.to_decimal(), t.to_decimal())
}

fn strings(p: &str, q: &str, t: &str) -> (String, String, String) {
    (p.to_string(), q.to_string(), t.to_string())
}

#[test]
fn mod_main() {
    let check_digits = vec![(100, 70679), (1000, 1989), (10000, 75678), (100000, 24646)];
    let pi = pi_chudnovsky_bs(100).unwrap();
    println!("{}", pi.to_decimal());
    for (digits, check_digit) in check_digits {
        let pi = pi_chudnovsky_bs(digits).unwrap();
        let last_five_digits = last_five(&pi);
        assert_eq!(last_five_digits, check_digit, "digits {}", digits);
    }
}

#[test]
fn lib_main() {
    let obj_main = Chudnovsky::new();
    let pi = obj_main.comp_pi();
    assert_eq!(last_five(&pi), 70679);
    assert_eq!(pi.to_decimal(), pi_chudnovsky_bs(100).unwrap().to_decimal());
}

#[test]
fn ready() {
    println!("it works!")
}

#[test]
fn leading_digits_of_pi() {
    let pi = pi_chudnovsky_bs(20).unwrap();
    assert_eq!(pi.to_decimal(), "314159265358979323846");
    let pi = pi_chudnovsky_bs(1).unwrap();
    assert_eq!(pi.to_decimal(), "31");
}

#[test]
fn base_case_at_zero() {
    assert_eq!(triplet(0, 1), strings("1", "1", "1"));
}

#[test]
fn base_cases_follow_the_closed_form() {
    assert_eq!(triplet(1, 2), strings("5", "10939058860032000", "-2793657715"));
    assert_eq!(triplet(2, 3), strings("231", "87512470880256000", "254994357387"));
    assert_eq!(triplet(3, 4), strings("1105", "295354589220864000", "-1822158051155"));
}

#[test]
fn splitting_at_any_point_agrees() {
    let c3_24 = BigInt::from_u64(C3_24);
    let whole = with_pqt(0, 9, &c3_24);
    for m in 1..9 {
        let (pam, qam, tam) = with_pqt(0, m, &c3_24);
        let (pmb, qmb, tmb) = with_pqt(m, 9, &c3_24);
        let p = pam.mul(&pmb);
        let q = qam.mul(&qmb);
        let t = qmb.mul(&tam).add(&pam.mul(&tmb));
        assert_eq!(p.to_decimal(), whole.0.to_decimal());
        assert_eq!(q.to_decimal(), whole.1.to_decimal());
        assert_eq!(t.to_decimal(), whole.2.to_decimal());
    }
}

#[test]
fn more_digits_keep_the_prefix() {
    let short = pi_chudnovsky_bs(50).unwrap().to_decimal();
    let long = pi_chudnovsky_bs(80).unwrap().to_decimal();
    assert_eq!(short.len(), 51);
    assert_eq!(&long[..51], short.as_str());
}

#[test]
fn non_positive_digits_are_refused() {
    assert_eq!(pi_chudnovsky_bs(0).err(), Some(PiError::InvalidInput));
    assert_eq!(pi_chudnovsky_bs(-5).err(), Some(PiError::InvalidInput));
    assert_eq!(pi_chudnovsky_bs(i32::MIN).err(), Some(PiError::InvalidInput));
}

#[test]
fn term_count_estimate() {
    assert_eq!(term_count(1), 1);
    assert_eq!(term_count(14), 1);
    assert_eq!(term_count(15), 2);
    assert_eq!(term_count(100), 8);
    assert_eq!(term_count(1000), 71);
}

#[test]
fn configuration_for_one_hundred_digits() {
    let ch = Chudnovsky::new();
    assert_eq!(ch.digits, 100);
    assert_eq!(ch.n, 7);
    assert_eq!(ch.c3_24.to_decimal(), "10939058860032000");
    let pqt = ch.comp_pqt(0, 1);
    assert_eq!(pqt.p.to_decimal(), "5");
    assert_eq!(pqt.t.to_decimal(), "-2793657715");
}
