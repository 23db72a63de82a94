use rusty_measurement_runner::config::{MeasurementConfig, Operation, Parameter, ParameterChoice};
use rusty_measurement_runner::runner::{
    find_missing_parameter, parse_log_level, prepare_run, solver_arguments, LogLevel, RunSettings,
};

fn choice(name: &str, index: usize, value: &str) -> ParameterChoice {
    ParameterChoice { name: name.to_string(), index, value: value.to_string() }
}

fn names(list: &[&str]) -> Vec<String> {
    list.iter().map(|s| s.to_string()).collect()
}

fn settings(exit: bool) -> RunSettings {
    RunSettings {
        config_path: "scene.temp.toml".to_string(),
        state_file: "state.bin".to_string(),
        destination_folder: "out".to_string(),
        start_time: "0".to_string(),
        finish_time: "5".to_string(),
        exit_when_finished: exit,
    }
}

#[test]
fn log_levels_are_named_in_capitals() {
    assert_eq!(parse_log_level("TRACE"), LogLevel::Trace);
    assert_eq!(parse_log_level("DEBUG"), LogLevel::Debug);
    assert_eq!(parse_log_level("INFO"), LogLevel::Info);
    assert_eq!(parse_log_level("WARN"), LogLevel::Warn);
    assert_eq!(parse_log_level("ERROR"), LogLevel::Error);
}

#[test]
fn other_log_level_names_turn_logging_off() {
    assert_eq!(parse_log_level("OFF"), LogLevel::Off);
    assert_eq!(parse_log_level("info"), LogLevel::Off);
    assert_eq!(parse_log_level(""), LogLevel::Off);
    assert_eq!(parse_log_level("INFO "), LogLevel::Off);
}

#[test]
fn run_with_known_parameters_misses_none() {
    let scene = names(&["viscosity", "time_increment", "gravity"]);
    let run = vec![choice("viscosity", 0, "0.01"), choice("time_increment", 1, "0.01")];
    assert_eq!(find_missing_parameter(&scene, &run), None);
}

#[test]
fn first_unknown_parameter_is_reported() {
    let scene = names(&["viscosity"]);
    let run = vec![choice("viscosity", 0, "0.01"), choice("visc", 0, "1"), choice("other", 0, "2")];
    assert_eq!(find_missing_parameter(&scene, &run), Some(1));
}

#[test]
fn solver_arguments_without_exit() {
    assert_eq!(
        solver_arguments(&settings(false), "out/a.csv"),
        names(&["scene.temp.toml", "--state", "state.bin", "-m", "out/a.csv", "-s", "0", "-f", "5", "-r", "-l", "INFO"])
    );
}

#[test]
fn solver_arguments_with_exit() {
    assert_eq!(
        solver_arguments(&settings(true), "out/a.csv"),
        names(&[
            "scene.temp.toml", "--state", "state.bin", "-m", "out/a.csv", "-s", "0", "-f", "5", "-r", "-e", "-l",
            "INFO"
        ])
    );
}

#[test]
fn prepared_run_writes_into_the_destination_folder() {
    let scene = names(&["viscosity", "particle_spacing"]);
    let run = vec![choice("viscosity", 0, "0.01"), choice("particle_spacing", 0, "0.02")];
    let prepared = prepare_run(&scene, &run, &settings(true)).ok().unwrap();
    assert_eq!(prepared.measurement_file_name, "particle_spacing_0.02_viscosity_0.01.csv");
    assert_eq!(prepared.measurement_path, "out/particle_spacing_0.02_viscosity_0.01.csv");
    assert_eq!(prepared.arguments[4], "out/particle_spacing_0.02_viscosity_0.01.csv");
    assert_eq!(prepared.arguments.len(), 13);
}

#[test]
fn run_with_unknown_parameter_is_refused() {
    let scene = names(&["viscosity"]);
    let run = vec![choice("viscosity", 0, "0.01"), choice("density", 0, "1000")];
    assert_eq!(prepare_run(&scene, &run, &settings(false)).err(), Some("density".to_string()));
}

#[test]
fn scene_check_accepts_all_runs_of_a_series_or_none() {
    let config = MeasurementConfig {
        operation: Operation::Cartesian,
        parameters: vec![
            Parameter { name: "viscosity".to_string(), values: names(&["0.01", "0.05"]) },
            Parameter { name: "time_increment".to_string(), values: names(&["0.005", "0.01"]) },
        ],
    };
    let series = config.get_measurement_series();
    assert_eq!(series.len(), 4);
    let full_scene = names(&["time_increment", "viscosity", "gravity"]);
    let partial_scene = names(&["viscosity"]);
    for run in &series {
        assert!(prepare_run(&full_scene, run, &settings(false)).is_ok());
        assert_eq!(
            prepare_run(&partial_scene, run, &settings(false)).err(),
            Some("time_increment".to_string())
        );
    }
}
