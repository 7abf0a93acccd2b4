//! The interpreter: one step of FRACTRAN, and a run under a step budget.

use crate::fraction::{coprime, multiply, Fraction};
use crate::natural::Natural;
use crate::program::{
    all_literals, first_bad_token, parse_source, parses_to, reads_as, source_tokens, ParseError,
};
use crate::registers::{registers, registers_spec, Register};
use vstd::prelude::*;

verus! {

/// The fraction `f` takes `acc` to an integer.
pub open spec fn applies(acc: nat, f: (nat, nat)) -> bool {
    (acc * f.0) % f.1 == 0
}

/// `acc` multiplied by the fraction `f`, rounded down.
pub open spec fn apply(acc: nat, f: (nat, nat)) -> nat {
    (acc * f.0) / f.1
}

/// The lowest index from `i` on whose fraction applies to `acc`, or the
/// length of the program where none does.
pub open spec fn first_applicable(prog: Seq<(nat, nat)>, acc: nat, i: nat) -> nat
    decreases prog.len() - i,
{
    if i >= prog.len() {
        prog.len()
    } else if applies(acc, prog[i as int]) {
        i
    } else {
        first_applicable(prog, acc, i + 1)
    }
}

/// The accumulator after one step, or `None` where the program halts on `acc`.
pub open spec fn next_value(prog: Seq<(nat, nat)>, acc: nat) -> Option<nat> {
    let i = first_applicable(prog, acc, 0);
    if i < prog.len() {
        Some(apply(acc, prog[i as int]))
    } else {
        None
    }
}

/// The accumulator after `k` steps from `acc`, or `None` where the program
/// halts in fewer.
pub open spec fn state_after(prog: Seq<(nat, nat)>, acc: nat, k: nat) -> Option<nat>
    decreases k,
{
    if k == 0 {
        Some(acc)
    } else {
        match state_after(prog, acc, (k - 1) as nat) {
            Some(a) => next_value(prog, a),
            None => None,
        }
    }
}

/// Running from `acc` with at most `budget` steps: the final accumulator, the
/// steps taken, and whether the program halted.
pub open spec fn run_spec(prog: Seq<(nat, nat)>, acc: nat, budget: nat) -> (nat, nat, bool)
    decreases budget,
{
    match next_value(prog, acc) {
        None => (acc, 0, true),
        Some(v) => if budget == 0 {
            (acc, 0, false)
        } else {
            let r = run_spec(prog, v, (budget - 1) as nat);
            (r.0, r.1 + 1, r.2)
        },
    }
}

/// Every fraction has a nonzero denominator.
pub open spec fn program_wf(prog: Seq<(nat, nat)>) -> bool {
    forall|i: int| 0 <= i < prog.len() ==> #[trigger] prog[i].1 > 0
}

/// The result of a run under a step budget.
pub struct RunOutcome {
    /// The last accumulator.
    pub value: Natural,
    /// The steps taken.
    pub steps: u64,
    /// Whether no fraction applied to `value`.
    pub halted: bool,
}

/// A loaded program with its start value and display settings.
pub struct FractranVM {
    pub prog_mem: Vec<Fraction>,
    pub initvalue: Natural,
    pub prog_size: usize,
    pub debug: bool,
    pub listreg: bool,
}

proof fn lemma_skip_to(prog: Seq<(nat, nat)>, acc: nat, i: nat, k: nat)
    requires
        i <= k <= prog.len(),
        forall|j: int| i <= j < k ==> !applies(acc, #[trigger] prog[j]),
    ensures
        first_applicable(prog, acc, i) == first_applicable(prog, acc, k),
    decreases k - i,
{
    if i < k {
        lemma_skip_to(prog, acc, i + 1, k);
    }
}

proof fn lemma_integral_product(acc: nat, n: nat, d: nat, cn: nat, cd: nat)
    requires
        d > 0,
        cd > 0,
        cn * (1 * d) == acc * n * cd,
        coprime(cn, cd),
    ensures
        (cd == 1) == applies(acc, (n, d)),
        cd == 1 ==> cn == apply(acc, (n, d)),
{
    let m = acc * n;
    if cd == 1 {
        assert(m == cn * d) by (nonlinear_arith)
            requires cn * (1 * d) == m * cd, cd == 1;
        assert(m % d == 0 && m / d == cn) by (nonlinear_arith)
            requires m == cn * d, d > 0;
    }
    if m % d == 0 {
        let q = m / d;
        assert(m == q * d) by (nonlinear_arith)
            requires m % d == 0, q == m / d, d > 0;
        assert(cn == q * cd) by (nonlinear_arith)
            requires cn * (1 * d) == m * cd, m == q * d, d > 0;
        assert(cn % cd == 0) by (nonlinear_arith)
            requires cn == q * cd, cd > 0;
        assert(cd % cd == 0) by (nonlinear_arith)
            requires cd > 0;
        if cd > 1 {
            assert(!(cn % cd == 0 && cd % cd == 0));
        }
    }
}

impl FractranVM {
    /// The program as numerator and denominator pairs.
    pub open spec fn program(&self) -> Seq<(nat, nat)> {
        self.prog_mem@.map_values(|f: Fraction| f@)
    }

    /// The size agrees with the program, and no denominator is zero.
    pub open spec fn wf(&self) -> bool {
        &&& self.prog_size == self.prog_mem.len()
        &&& forall|i: int| 0 <= i < self.prog_mem.len() ==> (#[trigger] self.prog_mem[i]).wf()
    }

    /// The next accumulator after `acc`: `acc` times the first fraction of the
    /// program that gives an integer, or `None` where none does.
    pub fn step(&self, acc: &Natural) -> (r: Option<Natural>)
        requires
            self.wf(),
        ensures
            r matches Some(v) ==> next_value(self.program(), acc@) == Some(v@),
            r is None ==> next_value(self.program(), acc@) is None,
    {
        let ghost prog = self.program();
        let a = Fraction::from_integer(acc.copy());
        let mut ip: usize = 0;
        while ip < self.prog_size
            invariant
                self.wf(),
                prog == self.program(),
                a.wf(),
                a@ == (acc@, 1nat),
                ip <= self.prog_size,
                forall|j: int| 0 <= j < ip ==> !applies(acc@, #[trigger] prog[j]),
            decreases self.prog_size - ip,
        {
            let f = &self.prog_mem[ip];
            assert(f@ == prog[ip as int]);
            assert(f.wf());
            let c = multiply(&a, f);
            proof {
                lemma_integral_product(acc@, f.numer@, f.denom@, c.numer@, c.denom@);
            }
            if c.is_integer() {
                proof {
                    lemma_skip_to(prog, acc@, 0, ip as nat);
                }
                return Some(c.numer);
            }
            ip = ip + 1;
        }
        proof {
            lemma_skip_to(prog, acc@, 0, ip as nat);
        }
        None
    }

    /// Runs from the start value for at most `max_steps` steps.
    pub fn run_bounded(&self, max_steps: u64) -> (r: RunOutcome)
        requires
            self.wf(),
        ensures
            (r.value@, r.steps as nat, r.halted) == run_spec(
                self.program(),
                self.initvalue@,
                max_steps as nat,
            ),
    {
        let ghost prog = self.program();
        let ghost whole = run_spec(prog, self.initvalue@, max_steps as nat);
        let mut acc = self.initvalue.copy();
        let mut steps: u64 = 0;
        loop
            invariant
                self.wf(),
                prog == self.program(),
                steps <= max_steps,
                whole == run_spec(prog, self.initvalue@, max_steps as nat),
                ({
                    let rest = run_spec(prog, acc@, (max_steps - steps) as nat);
                    whole == (rest.0, (rest.1 + steps) as nat, rest.2)
                }),
            decreases max_steps - steps,
        {
            match self.step(&acc) {
                None => {
                    return RunOutcome { value: acc, steps, halted: true };
                },
                Some(v) => {
                    if steps == max_steps {
                        return RunOutcome { value: acc, steps, halted: false };
                    }
                    acc = v;
                    steps = steps + 1;
                },
            }
        }
    }

    /// Loads the program text `source` with the start value `start`.
    pub fn load(source: &str, start: u64, debug: bool, listreg: bool) -> (r: Result<
        FractranVM,
        ParseError,
    >)
        ensures
            r is Ok <==> all_literals(source@),
            r matches Ok(vm) ==> {
                &&& vm.wf()
                &&& parses_to(vm.prog_mem@, source@)
                &&& vm.initvalue@ == start as nat
                &&& vm.debug == debug
                &&& vm.listreg == listreg
            },
            r matches Err(e) ==> first_bad_token(e.token@, source@),
    {
        let initvalue = Natural::from_u64(start);
        match parse_source(source) {
            Ok(mem) => {
                let size = mem.len();
                proof {
                    assert forall|i: int| 0 <= i < mem.len() implies (#[trigger] mem[i]).wf() by {
                        assert(reads_as(mem@[i], source_tokens(source@, 0)[i]));
                    }
                }
                Ok(FractranVM { prog_mem: mem, initvalue, prog_size: size, debug, listreg })
            },
            Err(e) => Err(e),
        }
    }

    /// The registers of `num` where listing them is switched on; otherwise
    /// `None`, without any factoring.
    pub fn show_register(&self, num: &Natural) -> (r: Option<Vec<Register>>)
        ensures
            r is Some <==> self.listreg,
            r matches Some(v) ==> v@.map_values(|x: Register| x@) == registers_spec(num@),
    {
        if self.listreg {
            Some(registers(num))
        } else {
            None
        }
    }
}

proof fn lemma_applies_at_most(prog: Seq<(nat, nat)>, n: nat, k: nat, i: nat)
    requires
        k <= i < prog.len(),
        applies(n, prog[i as int]),
    ensures
        first_applicable(prog, n, k) <= i,
        first_applicable(prog, n, k) < prog.len(),
        applies(n, prog[first_applicable(prog, n, k) as int]),
    decreases i - k,
{
    if k < i && !applies(n, prog[k as int]) {
        lemma_applies_at_most(prog, n, k + 1, i);
    }
}

proof fn lemma_unit_applies(n: nat, d: nat)
    requires
        d > 0,
    ensures
        applies(n, (d, d)),
        apply(n, (d, d)) == n,
{
    assert((n * d) % d == 0 && (n * d) / d == n) by (nonlinear_arith)
        requires
            d > 0,
    ;
}

/// The step takes the lowest-indexed fraction that gives an integer.
pub proof fn lemma_lowest_index(prog: Seq<(nat, nat)>, n: nat, i: int)
    requires
        0 <= i < prog.len(),
        applies(n, prog[i]),
        forall|j: int| 0 <= j < i ==> !applies(n, #[trigger] prog[j]),
    ensures
        next_value(prog, n) == Some(apply(n, prog[i])),
{
    lemma_skip_to(prog, n, 0, i as nat);
}

/// Where the fraction at index `i` equals one and no earlier fraction gives
/// an integer on `n`, the step keeps `n`; so the run from `n` never halts.
pub proof fn lemma_unit_fraction(prog: Seq<(nat, nat)>, n: nat, i: int, budget: nat)
    requires
        program_wf(prog),
        0 <= i < prog.len(),
        prog[i].0 == prog[i].1,
        forall|j: int| 0 <= j < i ==> !applies(n, #[trigger] prog[j]),
    ensures
        next_value(prog, n) == Some(n),
        run_spec(prog, n, budget) == (n, budget, false),
    decreases budget,
{
    lemma_unit_applies(n, prog[i].1);
    lemma_lowest_index(prog, n, i);
    if budget > 0 {
        lemma_unit_fraction(prog, n, i, (budget - 1) as nat);
    }
}

/// A program that holds a fraction equal to one never halts, from any start.
pub proof fn lemma_unit_fraction_never_halts(prog: Seq<(nat, nat)>, n: nat, i: int, budget: nat)
    requires
        program_wf(prog),
        0 <= i < prog.len(),
        prog[i].0 == prog[i].1,
    ensures
        next_value(prog, n) is Some,
        run_spec(prog, n, budget).1 == budget,
        !run_spec(prog, n, budget).2,
    decreases budget,
{
    lemma_unit_applies(n, prog[i].1);
    lemma_applies_at_most(prog, n, 0, i as nat);
    if budget > 0 {
        let v = next_value(prog, n)->0;
        lemma_unit_fraction_never_halts(prog, v, i, (budget - 1) as nat);
    }
}

/// The empty program halts at once and keeps the start value.
pub proof fn lemma_empty_program(n: nat, budget: nat)
    ensures
        next_value(Seq::<(nat, nat)>::empty(), n) is None,
        run_spec(Seq::<(nat, nat)>::empty(), n, budget) == (n, 0nat, true),
{
}

/// Runs of one program from one start agree: on the result under any budget,
/// and on the accumulator after any number of steps.
pub proof fn lemma_deterministic(
    p1: Seq<(nat, nat)>,
    p2: Seq<(nat, nat)>,
    n1: nat,
    n2: nat,
    budget: nat,
    k: nat,
)
    requires
        p1 == p2,
        n1 == n2,
    ensures
        run_spec(p1, n1, budget) == run_spec(p2, n2, budget),
        state_after(p1, n1, k) == state_after(p2, n2, k),
{
}

proof fn lemma_state_after_shift(prog: Seq<(nat, nat)>, n: nat, v: nat, k: nat)
    requires
        next_value(prog, n) == Some(v),
    ensures
        state_after(prog, n, k + 1) == state_after(prog, v, k),
    decreases k,
{
    assert(state_after(prog, n, 0) == Some(n));
    if k > 0 {
        lemma_state_after_shift(prog, n, v, (k - 1) as nat);
        assert(state_after(prog, n, k + 1) == match state_after(prog, n, k) {
            Some(a) => next_value(prog, a),
            None => None,
        });
        assert(state_after(prog, v, k) == match state_after(prog, v, (k - 1) as nat) {
            Some(a) => next_value(prog, a),
            None => None,
        });
    } else {
        assert(state_after(prog, v, 0) == Some(v));
        assert(state_after(prog, n, 1) == next_value(prog, n));
    }
}

/// A run under a budget ends on the trace: its value is the accumulator after
/// the steps it took; where it halted no fraction applies to that value, and
/// where it did not, it took the whole budget.
pub proof fn lemma_run_on_trace(prog: Seq<(nat, nat)>, n: nat, budget: nat)
    ensures
        state_after(prog, n, run_spec(prog, n, budget).1) == Some(run_spec(prog, n, budget).0),
        run_spec(prog, n, budget).2 ==> next_value(prog, run_spec(prog, n, budget).0) is None,
        !run_spec(prog, n, budget).2 ==> run_spec(prog, n, budget).1 == budget,
    decreases budget,
{
    match next_value(prog, n) {
        None => {},
        Some(v) => {
            if budget > 0 {
                let b1 = (budget - 1) as nat;
                lemma_run_on_trace(prog, v, b1);
                lemma_state_after_shift(prog, n, v, run_spec(prog, v, b1).1);
            }
        },
    }
}

} // verus!
