use rusty_measurement_runner::config::ParameterChoice;
use rusty_measurement_runner::naming::{measurement_file_name, sort_by_name, text_precedes};

fn choice(name: &str, index: usize, value: &str) -> ParameterChoice {
    ParameterChoice { name: name.to_string(), index, value: value.to_string() }
}

#[test]
fn file_name_lists_parameters_alphabetically() {
    let run = vec![choice("viscosity", 0, "0.01"), choice("particle_spacing", 1, "0.02")];
    assert_eq!(measurement_file_name(&run), "particle_spacing_0.02_viscosity_0.01.csv");
}

#[test]
fn file_name_does_not_depend_on_the_order_of_the_run() {
    let run1 = vec![choice("b", 0, "2"), choice("c", 1, "3"), choice("a", 2, "1")];
    let run2 = vec![choice("a", 2, "1"), choice("b", 0, "2"), choice("c", 1, "3")];
    let run3 = vec![choice("c", 1, "3"), choice("a", 2, "1"), choice("b", 0, "2")];
    assert_eq!(measurement_file_name(&run1), "a_1_b_2_c_3.csv");
    assert_eq!(measurement_file_name(&run2), "a_1_b_2_c_3.csv");
    assert_eq!(measurement_file_name(&run3), "a_1_b_2_c_3.csv");
}

#[test]
fn file_name_of_an_empty_run() {
    assert_eq!(measurement_file_name(&vec![]), ".csv");
}

#[test]
fn file_name_of_a_single_parameter() {
    let run = vec![choice("time_increment", 0, "0.005")];
    assert_eq!(measurement_file_name(&run), "time_increment_0.005.csv");
}

#[test]
fn file_name_keeps_string_values_as_written() {
    let run = vec![choice("scheme", 0, "\"iisph\""), choice("count", 0, "10")];
    assert_eq!(measurement_file_name(&run), "count_10_scheme_\"iisph\".csv");
}

#[test]
fn text_order_is_lexicographic() {
    assert!(text_precedes("a", "b"));
    assert!(!text_precedes("b", "a"));
    assert!(text_precedes("ab", "abc"));
    assert!(!text_precedes("abc", "ab"));
    assert!(!text_precedes("same", "same"));
    assert!(text_precedes("", "a"));
    assert!(!text_precedes("", ""));
    assert!(text_precedes("Zeta", "alpha"));
    assert!(text_precedes("time_increment", "viscosity"));
    assert!(text_precedes("z", "\u{e9}"));
}

#[test]
fn text_order_agrees_with_string_order() {
    let words = ["", "a", "ab", "b", "B", "_x", "x_", "\u{e9}t\u{e9}", "\u{1F600}", "zz"];
    for a in words.iter() {
        for b in words.iter() {
            assert_eq!(text_precedes(a, b), a < b, "{:?} {:?}", a, b);
        }
    }
}

#[test]
fn sorting_keeps_equal_names_in_order() {
    let run = vec![choice("b", 0, "1"), choice("a", 0, "x"), choice("b", 1, "2"), choice("a", 1, "y")];
    let sorted = sort_by_name(&run);
    let labels: Vec<(String, String)> =
        sorted.iter().map(|c| (c.name.clone(), c.value.clone())).collect();
    assert_eq!(
        labels,
        vec![
            ("a".to_string(), "x".to_string()),
            ("a".to_string(), "y".to_string()),
            ("b".to_string(), "1".to_string()),
            ("b".to_string(), "2".to_string()),
        ]
    );
}
