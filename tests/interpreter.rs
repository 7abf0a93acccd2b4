use fractran::{
    check_prime_factor, has_remainder, parse_source, registers, FractranVM, Natural, Register,
};

fn vm(source: &str, start: u64) -> FractranVM {
    match FractranVM::load(source, start, false, true) {
        Ok(vm) => vm,
        Err(_) => panic!("the program does not parse"),
    }
}

fn value(n: &Natural) -> u64 {
    n.to_u64().expect("fits in u64")
}

fn regs(n: u64) -> Vec<(u64, u64)> {
    registers(&Natural::from_u64(n))
        .iter()
        .map(|r: &Register| (value(&r.prime), r.exponent))
        .collect()
}

#[test]
fn three_halves_from_six_halts_at_nine() {
    let m = vm("3/2", 6);
    let out = m.run_bounded(1000);
    assert!(out.halted);
    assert_eq!(out.steps, 1);
    assert_eq!(value(&out.value), 9);
}

#[test]
fn one_half_from_eight_halts_at_one() {
    let m = vm("1/2", 8);
    let step1 = m.step(&Natural::from_u64(8)).expect("applies");
    assert_eq!(value(&step1), 4);
    let out = m.run_bounded(1000);
    assert!(out.halted);
    assert_eq!(out.steps, 3);
    assert_eq!(value(&out.value), 1);
    assert!(m.step(&out.value).is_none());
}

#[test]
fn comment_line_contributes_no_fraction() {
    let source = "; comment\n2/1";
    let prog = parse_source(source).ok().expect("parses");
    assert_eq!(prog.len(), 1);
    assert_eq!(value(&prog[0].numer), 2);
    assert_eq!(value(&prog[0].denom), 1);
    let m = vm(source, 3);
    assert_eq!(m.prog_size, 1);
    let out = m.run_bounded(5);
    assert!(!out.halted);
    assert_eq!(out.steps, 5);
    assert_eq!(value(&out.value), 3 * 32);
}

#[test]
fn empty_program_halts_at_once() {
    let m = vm("", 42);
    assert_eq!(m.prog_size, 0);
    assert!(m.step(&Natural::from_u64(42)).is_none());
    let out = m.run_bounded(0);
    assert!(out.halted);
    assert_eq!(out.steps, 0);
    assert_eq!(value(&out.value), 42);
}

#[test]
fn only_comments_and_blank_lines_is_empty() {
    let prog = parse_source(";a\n\n   \n;2/3\n").ok().expect("parses");
    assert_eq!(prog.len(), 0);
}

#[test]
fn unit_fraction_keeps_value_and_never_halts() {
    let m = vm("5/7 1/1 3/2", 6);
    let next = m.step(&Natural::from_u64(6)).expect("applies");
    assert_eq!(value(&next), 6);
    let out = m.run_bounded(10);
    assert!(!out.halted);
    assert_eq!(out.steps, 10);
    assert_eq!(value(&out.value), 6);
}

#[test]
fn earlier_fraction_wins_over_unit_fraction() {
    let m = vm("5/7 1/1", 14);
    let next = m.step(&Natural::from_u64(14)).expect("applies");
    assert_eq!(value(&next), 10);
}

#[test]
fn lowest_index_fraction_is_chosen() {
    let m = vm("3/4 5/2", 8);
    assert_eq!(value(&m.step(&Natural::from_u64(8)).expect("applies")), 6);
    assert_eq!(value(&m.step(&Natural::from_u64(6)).expect("applies")), 15);
}

#[test]
fn runs_are_deterministic() {
    let m = vm("17/91 78/85 19/51 23/38 29/33 77/29 95/23 77/19 1/17 11/13 13/11 15/14 15/2 55/1", 2);
    let a = m.run_bounded(200);
    let b = m.run_bounded(200);
    assert_eq!(a.steps, b.steps);
    assert_eq!(a.halted, b.halted);
    assert_eq!(a.value.to_u64(), b.value.to_u64());
    let mut x = Natural::from_u64(2);
    let mut y = Natural::from_u64(2);
    for _ in 0..50 {
        x = m.step(&x).expect("applies");
        y = m.step(&y).expect("applies");
        assert_eq!(x.to_u64(), y.to_u64());
    }
}

#[test]
fn primegame_first_steps() {
    let m = vm("17/91 78/85 19/51 23/38 29/33 77/29 95/23 77/19 1/17 11/13 13/11 15/14 15/2 55/1", 2);
    let mut x = Natural::from_u64(2);
    let expected: [u64; 5] = [15, 825, 725, 1925, 2275];
    for e in expected {
        x = m.step(&x).expect("applies");
        assert_eq!(value(&x), e);
    }
}

#[test]
fn addition_program_adds_registers() {
    // 2^3 * 3^4 runs to 3^7 under 3/2
    let m = vm("3/2", 8 * 81);
    let out = m.run_bounded(100);
    assert!(out.halted);
    assert_eq!(value(&out.value), 2187);
}

#[test]
fn prime_above_its_root_has_no_registers() {
    assert_eq!(regs(97), Vec::<(u64, u64)>::new());
}

#[test]
fn registers_of_composite() {
    assert_eq!(regs(360), vec![(2, 3), (3, 2), (5, 1)]);
    assert_eq!(regs(2), vec![(2, 1)]);
    assert_eq!(regs(1), Vec::<(u64, u64)>::new());
    assert_eq!(regs(0), Vec::<(u64, u64)>::new());
    assert_eq!(regs(847), vec![(7, 1), (11, 2)]);
    // 2 * 97: 97 stays in the residual
    assert_eq!(regs(194), vec![(2, 1)]);
}

#[test]
fn registers_product_times_residual() {
    let n: u64 = 2 * 2 * 9 * 1009;
    let rs = regs(n);
    let mut p: u64 = 1;
    for (q, e) in &rs {
        p *= q.pow(*e as u32);
    }
    assert_eq!(n % p, 0);
    assert_eq!(rs, vec![(2, 2), (3, 2)]);
    assert_eq!(n / p, 1009);
}

#[test]
fn show_register_respects_flag() {
    let on = vm("3/2", 12);
    let listed = on.show_register(&Natural::from_u64(12)).expect("listing on");
    assert_eq!(listed.len(), 2);
    let off = match FractranVM::load("3/2", 12, false, false) {
        Ok(vm) => vm,
        Err(_) => panic!("parses"),
    };
    assert!(off.show_register(&Natural::from_u64(12)).is_none());
}

#[test]
fn check_prime_factor_counts_and_divides() {
    let mut n = Natural::from_u64(3 * 3 * 3 * 10);
    let e = check_prime_factor(&Natural::from_u64(3), &mut n);
    assert_eq!(e, 3);
    assert_eq!(value(&n), 10);
    assert!(has_remainder(&Natural::from_u64(3), &Natural::from_u64(10)));
    assert!(!has_remainder(&Natural::from_u64(5), &Natural::from_u64(10)));
    assert!(has_remainder(&Natural::from_u64(3), &Natural::from_u64(5)));
}

#[test]
fn fractions_are_reduced_and_literals_vary() {
    let prog = parse_source("4/6 7 +3/_1 1_0/2_0").ok();
    // "+3/_1": a denominator may not start with '_'
    assert!(prog.is_none());
    let prog = parse_source("4/6 7\t+3/1_0\r\n 1_0/2_0").ok().expect("parses");
    let pairs: Vec<(u64, u64)> = prog.iter().map(|f| (value(&f.numer), value(&f.denom))).collect();
    assert_eq!(pairs, vec![(2, 3), (7, 1), (3, 10), (1, 2)]);
}

#[test]
fn invalid_tokens_are_reported() {
    let err = parse_source("1/2\n3/x 5/0").err().expect("fails");
    assert_eq!(err.token, vec!['3', '/', 'x']);
    let err = parse_source("5/0").err().expect("fails");
    assert_eq!(err.token, vec!['5', '/', '0']);
    let err = parse_source("1/2/3").err().expect("fails");
    assert_eq!(err.token, vec!['1', '/', '2', '/', '3']);
    assert!(FractranVM::load("++1", 1, false, false).is_err());
}

#[test]
fn large_values_are_exact() {
    let m = vm("3/2", 1 << 63);
    let out = m.run_bounded(63);
    assert!(out.halted);
    assert_eq!(out.steps, 63);
    let early = m.run_bounded(40);
    assert!(!early.halted);
    assert_eq!(early.steps, 40);
    assert_eq!(out.value.to_u64(), None);
    let doubling = vm("2/1", 1);
    let big = doubling.step(&Natural::from_u64(1 << 63)).expect("applies");
    assert_eq!(big.to_u64(), None);
    let halving = vm("1/2", 1);
    let back = halving.step(&big).expect("applies");
    assert_eq!(value(&back), 1 << 63);
}
