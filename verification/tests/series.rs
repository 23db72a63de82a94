use rusty_measurement_runner::config::{MeasurementConfig, Operation, Parameter, ParameterChoice};

fn parameter(name: &str, values: &[&str]) -> Parameter {
    Parameter {
        name: name.to_string(),
        values: values.iter().map(|v| v.to_string()).collect(),
    }
}

fn flatten(run: &Vec<ParameterChoice>) -> Vec<(String, usize, String)> {
    run.iter().map(|c| (c.name.clone(), c.index, c.value.clone())).collect()
}

fn entry(name: &str, index: usize, value: &str) -> (String, usize, String) {
    (name.to_string(), index, value.to_string())
}

#[test]
fn cartesian_series_measures_every_combination_in_order() {
    let config = MeasurementConfig {
        operation: Operation::Cartesian,
        parameters: vec![parameter("a", &["1", "2"]), parameter("b", &["x", "y", "z"])],
    };
    let series = config.get_measurement_series();
    let runs: Vec<_> = series.iter().map(flatten).collect();
    assert_eq!(
        runs,
        vec![
            vec![entry("a", 0, "1"), entry("b", 0, "x")],
            vec![entry("a", 0, "1"), entry("b", 1, "y")],
            vec![entry("a", 0, "1"), entry("b", 2, "z")],
            vec![entry("a", 1, "2"), entry("b", 0, "x")],
            vec![entry("a", 1, "2"), entry("b", 1, "y")],
            vec![entry("a", 1, "2"), entry("b", 2, "z")],
        ]
    );
}

#[test]
fn cartesian_series_of_the_documented_example_has_six_runs() {
    let config = MeasurementConfig {
        operation: Operation::Cartesian,
        parameters: vec![
            parameter("viscosity", &["0.01", "0.05", "0.1"]),
            parameter("time_increment", &["0.005", "0.01"]),
        ],
    };
    let series = config.get_measurement_series();
    assert_eq!(series.len(), 6);
    // the run at position 2 * 2 + 1 takes viscosity value 2 and time increment value 1
    assert_eq!(
        flatten(&series[5]),
        vec![entry("viscosity", 2, "0.1"), entry("time_increment", 1, "0.01")]
    );
    for run in &series {
        assert_eq!(run.len(), 2);
        assert_eq!(run[0].name, "viscosity");
        assert_eq!(run[1].name, "time_increment");
    }
}

#[test]
fn cartesian_series_with_an_empty_list_has_no_runs() {
    let config = MeasurementConfig {
        operation: Operation::Cartesian,
        parameters: vec![parameter("a", &["1", "2"]), parameter("b", &[])],
    };
    assert!(config.get_measurement_series().is_empty());
}

#[test]
fn cartesian_series_without_parameters_has_one_empty_run() {
    let config = MeasurementConfig { operation: Operation::Cartesian, parameters: vec![] };
    let series = config.get_measurement_series();
    assert_eq!(series.len(), 1);
    assert!(series[0].is_empty());
}

#[test]
fn cartesian_series_of_three_parameters_counts_the_product() {
    let config = MeasurementConfig {
        operation: Operation::Cartesian,
        parameters: vec![
            parameter("a", &["1", "2"]),
            parameter("b", &["3", "4", "5"]),
            parameter("c", &["6", "7", "8", "9"]),
        ],
    };
    let series = config.get_measurement_series();
    assert_eq!(series.len(), 24);
    // position 1 * 12 + 2 * 4 + 3 = 23 picks the last value of each list
    assert_eq!(
        flatten(&series[23]),
        vec![entry("a", 1, "2"), entry("b", 2, "5"), entry("c", 3, "9")]
    );
    assert_eq!(
        flatten(&series[0]),
        vec![entry("a", 0, "1"), entry("b", 0, "3"), entry("c", 0, "6")]
    );
}

#[test]
fn zip_series_stops_at_the_shortest_list() {
    let config = MeasurementConfig {
        operation: Operation::Zip,
        parameters: vec![
            parameter("a", &["1", "2", "3"]),
            parameter("b", &["x", "y"]),
            parameter("c", &["p", "q", "r", "s"]),
        ],
    };
    let runs: Vec<_> = config.get_measurement_series().iter().map(flatten).collect();
    assert_eq!(
        runs,
        vec![
            vec![entry("a", 0, "1"), entry("b", 0, "x"), entry("c", 0, "p")],
            vec![entry("a", 1, "2"), entry("b", 1, "y"), entry("c", 1, "q")],
        ]
    );
}

#[test]
fn zip_series_with_an_empty_list_has_no_runs() {
    let config = MeasurementConfig {
        operation: Operation::Zip,
        parameters: vec![parameter("a", &["1"]), parameter("b", &[])],
    };
    assert!(config.get_measurement_series().is_empty());
}

#[test]
fn zip_series_of_one_parameter_has_one_run_per_value() {
    let config = MeasurementConfig {
        operation: Operation::Zip,
        parameters: vec![parameter("viscosity", &["0.01", "0.05", "0.1"])],
    };
    let runs: Vec<_> = config.get_measurement_series().iter().map(flatten).collect();
    assert_eq!(
        runs,
        vec![
            vec![entry("viscosity", 0, "0.01")],
            vec![entry("viscosity", 1, "0.05")],
            vec![entry("viscosity", 2, "0.1")],
        ]
    );
}

#[test]
fn zipped_runs_are_cartesian_runs() {
    let parameters = || vec![parameter("a", &["1", "2", "3"]), parameter("b", &["x", "y"])];
    let zipped = MeasurementConfig { operation: Operation::Zip, parameters: parameters() }
        .get_measurement_series();
    let crossed = MeasurementConfig { operation: Operation::Cartesian, parameters: parameters() }
        .get_measurement_series();
    assert_eq!(zipped.len(), 2);
    assert_eq!(crossed.len(), 6);
    let crossed_runs: Vec<_> = crossed.iter().map(flatten).collect();
    for (i, run) in zipped.iter().enumerate() {
        // the position of the choice (i, i) is i * 2 + i
        assert_eq!(crossed_runs[i * 2 + i], flatten(run));
    }
}
