use pvss_generator::config::{check_pow2, BfvConfig, CliConfig, GeneratorConfig};
use pvss_generator::generators::{NoirGenerator, TomlGenerator};

#[test]
fn test_default_configs() {
    let bfv = BfvConfig::default();
    assert_eq!(bfv.degree, 2048);
    assert_eq!(bfv.plaintext_modulus, 1032193);
    assert_eq!(bfv.moduli, vec![18014398492704769]);
    assert_eq!(bfv.variance, 10);
    let gen = GeneratorConfig::default();
    assert_eq!(gen.output_dir, "output");
    assert!(gen.generate_toml);
    assert_eq!(gen.circuit, "pk_trbfv");
    assert_eq!(gen.n_parties, 3);
    assert_eq!(gen.k_dim, 2);
    let cli = CliConfig { bfv_config: bfv, generator_config: gen };
    assert_eq!(cli.bfv_config.degree, 2048);
    let _noir = NoirGenerator::new();
    let _toml = TomlGenerator::new();
}

#[test]
fn test_power_of_two_check() {
    assert!(check_pow2(1));
    assert!(check_pow2(2));
    assert!(check_pow2(2048));
    assert!(!check_pow2(0));
    assert!(!check_pow2(3));
    assert!(!check_pow2(2049));
}
