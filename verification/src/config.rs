//! Configuration records for the encryption ring and the generator run.

use vstd::prelude::*;

verus! {

/// True for the positive powers of two (including one).
pub open spec fn is_pow2(n: int) -> bool
    decreases n,
{
    if n <= 0 {
        false
    } else if n == 1 {
        true
    } else {
        n % 2 == 0 && is_pow2(n / 2)
    }
}

/// Decides whether a degree is a power of two.
pub fn check_pow2(n: usize) -> (r: bool)
    ensures
        r == is_pow2(n as int),
{
    if n == 0 {
        return false;
    }
    let mut m: usize = n;
    while m > 1 && m % 2 == 0
        invariant
            m >= 1,
            is_pow2(n as int) == is_pow2(m as int),
        decreases m,
    {
        m = m / 2;
    }
    m == 1
}

/// The ring parameters of the encryption scheme: polynomial degree, plaintext
/// modulus, the ordered ciphertext-space moduli of the RNS basis, and the
/// noise variance of the error distribution.
#[derive(Clone, Debug)]
pub struct BfvConfig {
    /// Polynomial degree, a power of two.
    pub degree: usize,
    /// Plaintext modulus.
    pub plaintext_modulus: u64,
    /// Ciphertext modulus split into RNS primes.
    pub moduli: Vec<u64>,
    /// Variance of the error distribution.
    pub variance: u64,
}

impl Default for BfvConfig {
    /// A degree-2048 ring with one 54-bit modulus.
    fn default() -> (r: BfvConfig)
        ensures
            r.degree == 2048,
            r.plaintext_modulus == 1032193,
            r.moduli@ =~= seq![18014398492704769u64],
            r.variance == 10,
    {
        let mut moduli: Vec<u64> = Vec::new();
        moduli.push(18014398492704769);
        BfvConfig { degree: 2048, plaintext_modulus: 1032193, moduli, variance: 10 }
    }
}

/// What the generator run should produce, and where.
#[derive(Clone, Debug)]
pub struct GeneratorConfig {
    /// Directory where generated constants and metadata are written.
    pub output_dir: String,
    /// Whether the prover input table is generated too.
    pub generate_toml: bool,
    /// Name of the target circuit.
    pub circuit: String,
    /// Number of parties, for the secret-sharing circuits.
    pub n_parties: usize,
    /// Security dimension, for the secret-sharing circuits.
    pub k_dim: usize,
}

impl Default for GeneratorConfig {
    /// The default run: both outputs, into `output/`.
    fn default() -> (r: GeneratorConfig)
        ensures
            r.output_dir@ == "output"@,
            r.generate_toml,
            r.circuit@ == "pk_trbfv"@,
            r.n_parties == 3,
            r.k_dim == 2,
    {
        GeneratorConfig {
            output_dir: "output".to_string(),
            generate_toml: true,
            circuit: "pk_trbfv".to_string(),
            n_parties: 3,
            k_dim: 2,
        }
    }
}

/// The full configuration a command line resolves to.
#[derive(Clone, Debug)]
pub struct CliConfig {
    /// The ring parameters.
    pub bfv_config: BfvConfig,
    /// The generator targets.
    pub generator_config: GeneratorConfig,
}

} // verus!
