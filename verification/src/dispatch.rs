//! The runtime dispatch layer: a capability interface (a named callable from
//! one input type to one output type) and a dispatcher that picks one live
//! implementation per call, uniformly at random, returning both the result
//! and the identity of the implementation that ran. This layer is orthogonal
//! to build-time selection: it runs on every call, and every entry of a
//! catalog remains present in the compiled artifact.
use crate::errors::DispatchError;
use crate::rng::random_below;
use vstd::prelude::*;
use vstd::string::StrSliceExecFns;

verus! {

broadcast use vstd::string::group_string_axioms;

/// A named, callable capability from `I` to `O`. `accepts` bounds the inputs
/// on which the capability is callable, `result` is the value it computes,
/// and `spec_name` its identity.
pub trait PolymorphicFunction<I, O> {
    /// The inputs this capability is callable on.
    spec fn accepts(&self, input: I) -> bool;

    /// The value `execute` returns.
    spec fn result(&self, input: I) -> O;

    /// The identity reported for this capability.
    spec fn spec_name(&self) -> Seq<char>;

    /// Runs the capability on one input.
    fn execute(&self, input: I) -> (r: O)
        requires
            self.accepts(input),
        ensures
            r == self.result(input),
    ;

    /// Reports which implementation this is.
    fn name(&self) -> (r: &'static str)
        ensures
            r@ == self.spec_name(),
    ;
}

/// Selects a uniformly random entry of the catalog, invokes it on `input`,
/// and returns its output paired with its identity. Fails with
/// `EmptyCatalog` if and only if the catalog holds no capability; on a
/// nonempty catalog the answer is the result and name of one of its entries.
pub fn dispatch<I, O, C: PolymorphicFunction<I, O>>(catalog: &Vec<C>, input: I) -> (r: Result<
    (O, &'static str),
    DispatchError,
>)
    requires
        forall|i: int| 0 <= i < catalog@.len() ==> (#[trigger] catalog@[i]).accepts(input),
    ensures
        (r is Ok) == (catalog@.len() > 0),
        r is Err ==> r->Err_0 == DispatchError::EmptyCatalog,
        r is Ok ==> exists|i: int|
            0 <= i < catalog@.len() && r->Ok_0.0 == (#[trigger] catalog@[i]).result(input)
                && r->Ok_0.1@ == catalog@[i].spec_name(),
{
    if catalog.len() == 0 {
        return Err(DispatchError::EmptyCatalog);
    }
    let idx = random_below(catalog.len());
    let entry = &catalog[idx];
    let out = entry.execute(input);
    let name = entry.name();
    Ok((out, name))
}

// ---------------------------------------------------------------------------
// String length capabilities.
// ---------------------------------------------------------------------------
/// Length by the byte count of the text.
pub struct DirectLength {}

impl DirectLength {
    pub fn new() -> (r: DirectLength) {
        DirectLength {  }
    }
}

impl<'a> PolymorphicFunction<&'a str, usize> for DirectLength {
    open spec fn accepts(&self, input: &'a str) -> bool {
        vstd::string::is_ascii(input)
    }

    open spec fn result(&self, input: &'a str) -> usize {
        input@.len() as usize
    }

    open spec fn spec_name(&self) -> Seq<char> {
        "DirectLength"@
    }

    fn execute(&self, input: &'a str) -> (r: usize) {
        input.len()
    }

    fn name(&self) -> (r: &'static str) {
        "DirectLength"
    }
}

/// Length by counting the characters one by one.
pub struct CharCount {}

impl CharCount {
    pub fn new() -> (r: CharCount) {
        CharCount {  }
    }
}

impl<'a> PolymorphicFunction<&'a str, usize> for CharCount {
    open spec fn accepts(&self, input: &'a str) -> bool {
        true
    }

    open spec fn result(&self, input: &'a str) -> usize {
        input@.len() as usize
    }

    open spec fn spec_name(&self) -> Seq<char> {
        "CharCount"@
    }

    fn execute(&self, input: &'a str) -> (r: usize) {
        input.unicode_len()
    }

    fn name(&self) -> (r: &'static str) {
        "CharCount"
    }
}

/// Length by recursion on the tail of the text.
pub struct RecursiveCount {}

impl RecursiveCount {
    pub fn new() -> (r: RecursiveCount) {
        RecursiveCount {  }
    }
}

impl<'a> PolymorphicFunction<&'a str, usize> for RecursiveCount {
    open spec fn accepts(&self, input: &'a str) -> bool {
        vstd::string::is_ascii(input)
    }

    open spec fn result(&self, input: &'a str) -> usize {
        input@.len() as usize
    }

    open spec fn spec_name(&self) -> Seq<char> {
        "RecursiveCount"@
    }

    fn execute(&self, input: &'a str) -> (r: usize)
        decreases input@.len(),
    {
        let n = input.unicode_len();
        if n == 0 {
            0
        } else {
            let tail = input.substring_ascii(1, n);
            1 + self.execute(tail)
        }
    }

    fn name(&self) -> (r: &'static str) {
        "RecursiveCount"
    }
}

/// One of the live string-length implementations, as a catalog entry.
pub enum LengthImplementation {
    Direct(DirectLength),
    Chars(CharCount),
    Recursive(RecursiveCount),
}

impl<'a> PolymorphicFunction<&'a str, usize> for LengthImplementation {
    open spec fn accepts(&self, input: &'a str) -> bool {
        vstd::string::is_ascii(input)
    }

    open spec fn result(&self, input: &'a str) -> usize {
        input@.len() as usize
    }

    open spec fn spec_name(&self) -> Seq<char> {
        match self {
            LengthImplementation::Direct(c) => c.spec_name(),
            LengthImplementation::Chars(c) => c.spec_name(),
            LengthImplementation::Recursive(c) => c.spec_name(),
        }
    }

    fn execute(&self, input: &'a str) -> (r: usize) {
        match self {
            LengthImplementation::Direct(c) => c.execute(input),
            LengthImplementation::Chars(c) => c.execute(input),
            LengthImplementation::Recursive(c) => c.execute(input),
        }
    }

    fn name(&self) -> (r: &'static str) {
        match self {
            LengthImplementation::Direct(c) => c.name(),
            LengthImplementation::Chars(c) => c.name(),
            LengthImplementation::Recursive(c) => c.name(),
        }
    }
}

/// The catalog of every live string-length implementation, in declaration
/// order.
pub fn all_implementations() -> (r: Vec<LengthImplementation>)
    ensures
        r@.len() == 3,
        r@[0] == LengthImplementation::Direct(DirectLength {  }),
        r@[1] == LengthImplementation::Chars(CharCount {  }),
        r@[2] == LengthImplementation::Recursive(RecursiveCount {  }),
{
    let mut v: Vec<LengthImplementation> = Vec::new();
    v.push(LengthImplementation::Direct(DirectLength::new()));
    v.push(LengthImplementation::Chars(CharCount::new()));
    v.push(LengthImplementation::Recursive(RecursiveCount::new()));
    v
}

// ---------------------------------------------------------------------------
// Factorial capabilities.
// ---------------------------------------------------------------------------
/// The factorial of `n`.
pub open spec fn factorial(n: nat) -> nat
    decreases n,
{
    if n == 0 {
        1
    } else {
        n * factorial((n - 1) as nat)
    }
}

pub proof fn lemma_factorial_pos(n: nat)
    ensures
        factorial(n) >= 1,
    decreases n,
{
    if n > 0 {
        lemma_factorial_pos((n - 1) as nat);
        assert(n * factorial((n - 1) as nat) >= factorial((n - 1) as nat)) by (nonlinear_arith)
            requires
                n >= 1,
                factorial((n - 1) as nat) >= 0,
        ;
    }
}

pub proof fn lemma_factorial_monotonic(a: nat, b: nat)
    requires
        a <= b,
    ensures
        factorial(a) <= factorial(b),
    decreases b,
{
    if a < b {
        lemma_factorial_monotonic(a, (b - 1) as nat);
        lemma_factorial_pos((b - 1) as nat);
        assert(b * factorial((b - 1) as nat) >= factorial((b - 1) as nat)) by (nonlinear_arith)
            requires
                b >= 1,
                factorial((b - 1) as nat) >= 0,
        ;
    }
}

/// Factorials up to 20 fit in a 64-bit value.
pub proof fn lemma_factorial_fits(n: nat)
    requires
        n <= 20,
    ensures
        factorial(n) <= 2432902008176640000,
{
    assert(factorial(20) == 2432902008176640000) by {
        reveal_with_fuel(factorial, 21);
    }
    lemma_factorial_monotonic(n, 20);
}

/// Factorial by direct recursion.
pub struct RecursiveFactorial {}

impl RecursiveFactorial {
    pub fn new() -> (r: RecursiveFactorial) {
        RecursiveFactorial {  }
    }
}

impl PolymorphicFunction<u64, u64> for RecursiveFactorial {
    open spec fn accepts(&self, input: u64) -> bool {
        input <= 20
    }

    open spec fn result(&self, input: u64) -> u64 {
        factorial(input as nat) as u64
    }

    open spec fn spec_name(&self) -> Seq<char> {
        "RecursiveFactorial"@
    }

    fn execute(&self, input: u64) -> (r: u64)
        decreases input,
    {
        if input <= 1 {
            proof {
                reveal_with_fuel(factorial, 3);
                assert(factorial(0nat) == 1);
                assert(factorial(1nat) == 1);
                assert(input as nat == 0 || input as nat == 1);
                assert(factorial(input as nat) == 1);
            }
            1
        } else {
            let sub = self.execute(input - 1);
            proof {
                lemma_factorial_fits(input as nat);
                lemma_factorial_fits((input - 1) as nat);
                assert(factorial(input as nat) == (input as nat) * factorial((input - 1) as nat));
                assert((input as nat) * (sub as nat) == factorial(input as nat)) by (nonlinear_arith)
                    requires
                        sub as nat == factorial((input - 1) as nat),
                        factorial(input as nat) == (input as nat) * factorial((input - 1) as nat),
                ;
            }
            input * sub
        }
    }

    fn name(&self) -> (r: &'static str) {
        "RecursiveFactorial"
    }
}

/// Factorial by an ascending loop.
pub struct IterativeFactorial {}

impl IterativeFactorial {
    pub fn new() -> (r: IterativeFactorial) {
        IterativeFactorial {  }
    }
}

impl PolymorphicFunction<u64, u64> for IterativeFactorial {
    open spec fn accepts(&self, input: u64) -> bool {
        input <= 20
    }

    open spec fn result(&self, input: u64) -> u64 {
        factorial(input as nat) as u64
    }

    open spec fn spec_name(&self) -> Seq<char> {
        "IterativeFactorial"@
    }

    fn execute(&self, input: u64) -> (r: u64) {
        let mut result: u64 = 1;
        let mut i: u64 = 2;
        proof {
            reveal_with_fuel(factorial, 2);
        }
        while i <= input
            invariant
                input <= 20,
                2 <= i <= 21,
                input >= 2 ==> i <= input + 1,
                input < 2 ==> i == 2,
                result == factorial((i - 1) as nat),
            decreases input + 1 - i,
        {
            proof {
                lemma_factorial_fits(i as nat);
                lemma_factorial_fits((i - 1) as nat);
                assert(factorial(i as nat) == (i as nat) * factorial((i - 1) as nat));
                assert((result as nat) * (i as nat) == factorial(i as nat)) by (nonlinear_arith)
                    requires
                        result as nat == factorial((i - 1) as nat),
                        factorial(i as nat) == (i as nat) * factorial((i - 1) as nat),
                ;
            }
            result = result * i;
            i = i + 1;
        }
        proof {
            reveal_with_fuel(factorial, 3);
            assert(factorial(0nat) == 1);
            assert(factorial(1nat) == 1);
            if input < 2 {
                assert(input as nat == 0 || input as nat == 1);
                assert(factorial(input as nat) == 1);
            } else {
                assert(i == input + 1);
            }
        }
        result
    }

    fn name(&self) -> (r: &'static str) {
        "IterativeFactorial"
    }
}

/// Factorial as the running product of the range from 1 to the input.
pub struct FunctionalFactorial {}

impl FunctionalFactorial {
    pub fn new() -> (r: FunctionalFactorial) {
        FunctionalFactorial {  }
    }
}

impl PolymorphicFunction<u64, u64> for FunctionalFactorial {
    open spec fn accepts(&self, input: u64) -> bool {
        input <= 20
    }

    open spec fn result(&self, input: u64) -> u64 {
        factorial(input as nat) as u64
    }

    open spec fn spec_name(&self) -> Seq<char> {
        "FunctionalFactorial"@
    }

    fn execute(&self, input: u64) -> (r: u64) {
        let mut acc: u64 = 1;
        let mut k: u64 = 1;
        while k <= input
            invariant
                input <= 20,
                1 <= k <= input + 1,
                acc == factorial((k - 1) as nat),
            decreases input + 1 - k,
        {
            proof {
                lemma_factorial_fits(k as nat);
                lemma_factorial_fits((k - 1) as nat);
                assert(factorial(k as nat) == (k as nat) * factorial((k - 1) as nat));
                assert((acc as nat) * (k as nat) == factorial(k as nat)) by (nonlinear_arith)
                    requires
                        acc as nat == factorial((k - 1) as nat),
                        factorial(k as nat) == (k as nat) * factorial((k - 1) as nat),
                ;
            }
            acc = acc * k;
            k = k + 1;
        }
        acc
    }

    fn name(&self) -> (r: &'static str) {
        "FunctionalFactorial"
    }
}

/// One of the live factorial implementations, as a catalog entry.
pub enum FactorialImplementation {
    Recursive(RecursiveFactorial),
    Iterative(IterativeFactorial),
    Functional(FunctionalFactorial),
}

impl PolymorphicFunction<u64, u64> for FactorialImplementation {
    open spec fn accepts(&self, input: u64) -> bool {
        input <= 20
    }

    open spec fn result(&self, input: u64) -> u64 {
        factorial(input as nat) as u64
    }

    open spec fn spec_name(&self) -> Seq<char> {
        match self {
            FactorialImplementation::Recursive(c) => c.spec_name(),
            FactorialImplementation::Iterative(c) => c.spec_name(),
            FactorialImplementation::Functional(c) => c.spec_name(),
        }
    }

    fn execute(&self, input: u64) -> (r: u64) {
        match self {
            FactorialImplementation::Recursive(c) => c.execute(input),
            FactorialImplementation::Iterative(c) => c.execute(input),
            FactorialImplementation::Functional(c) => c.execute(input),
        }
    }

    fn name(&self) -> (r: &'static str) {
        match self {
            FactorialImplementation::Recursive(c) => c.name(),
            FactorialImplementation::Iterative(c) => c.name(),
            FactorialImplementation::Functional(c) => c.name(),
        }
    }
}

/// The catalog of every live factorial implementation, in declaration order.
pub fn get_factorial_implementations() -> (r: Vec<FactorialImplementation>)
    ensures
        r@.len() == 3,
        r@[0] == FactorialImplementation::Recursive(RecursiveFactorial {  }),
        r@[1] == FactorialImplementation::Iterative(IterativeFactorial {  }),
        r@[2] == FactorialImplementation::Functional(FunctionalFactorial {  }),
{
    let mut v: Vec<FactorialImplementation> = Vec::new();
    v.push(FactorialImplementation::Recursive(RecursiveFactorial::new()));
    v.push(FactorialImplementation::Iterative(IterativeFactorial::new()));
    v.push(FactorialImplementation::Functional(FunctionalFactorial::new()));
    v
}

/// Whichever factorial capability a dispatcher or a build-time selection
/// picks, the answer for input 10 is 3628800: the candidates agree.
pub proof fn lemma_factorial_capabilities_agree(c: FactorialImplementation)
    ensures
        c.accepts(10u64),
        c.result(10u64) == 3628800u64,
{
    assert(factorial(10) == 3628800) by {
        reveal_with_fuel(factorial, 11);
    }
}

/// Every live string-length capability computes the character count of its
/// input: the candidates agree on every text they accept.
pub proof fn lemma_length_capabilities_agree(c1: LengthImplementation, c2: LengthImplementation, input: &str)
    ensures
        c1.result(input) == c2.result(input),
{
}

} // verus!
