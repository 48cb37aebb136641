use fuzzyd::config::SystemdRunConfig;
use fuzzyd::launcher::{expand_env_vars, random_unit_number, unit_command_name, SystemdLauncher};

fn env(pairs: &[(&str, &str)]) -> Vec<(String, String)> {
    pairs.iter().map(|(k, v)| (k.to_string(), v.to_string())).collect()
}

#[test]
fn expands_known_variables() {
    let e = env(&[("HOME", "/home/u"), ("USER", "u")]);
    assert_eq!(expand_env_vars("$HOME/.config", &e), "/home/u/.config");
    assert_eq!(expand_env_vars("a$USER!", &e), "au!");
    assert_eq!(expand_env_vars("$HOME$USER", &e), "/home/uu");
}

#[test]
fn keeps_unknown_variables_verbatim() {
    let e = env(&[("HOME", "/home/u")]);
    assert_eq!(expand_env_vars("$MISSING/x", &e), "$MISSING/x");
    assert_eq!(expand_env_vars("cost: 100$", &e), "cost: 100$");
    assert_eq!(expand_env_vars("$ alone", &e), "$ alone");
}

#[test]
fn variable_names_stop_at_non_name_characters() {
    let e = env(&[("A", "1"), ("A_B2", "2")]);
    assert_eq!(expand_env_vars("$A-b", &e), "1-b");
    assert_eq!(expand_env_vars("$A_B2.", &e), "2.");
}

#[test]
fn launcher_expands_its_parameters() {
    let e = env(&[("HOME", "/home/u")]);
    let config = SystemdRunConfig {
        parameters: vec![
            "--quiet".to_string(),
            "--property=EnvironmentFile=-$HOME/.config/sway/env".to_string(),
        ],
    };
    let l = SystemdLauncher::new(true, &config, &e);
    assert!(l.dry_run);
    assert_eq!(l.parameters.len(), 2);
    assert_eq!(l.parameters[0], "--quiet");
    assert_eq!(
        l.parameters[1],
        "--property=EnvironmentFile=-/home/u/.config/sway/env"
    );
}

#[test]
fn unit_names_are_sanitized_and_tagged() {
    assert_eq!(
        unit_command_name("Fire Fox!", 123456),
        "app-fuzzyd-fire_fox-123456"
    );
    assert_eq!(
        unit_command_name("GIMP (2.10)", 999999),
        "app-fuzzyd-gimp_210-999999"
    );
}

#[test]
fn unit_tags_stay_in_range() {
    for _ in 0..32 {
        let t = random_unit_number();
        assert!((100_000..=999_999).contains(&t));
    }
}
