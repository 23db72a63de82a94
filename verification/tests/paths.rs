use rusty_measurement_runner::file_operations::{
    add_file_name_to_folder, add_suffix_to_file_name, folder_exists_message,
    get_temporary_config_file_path,
};

#[test]
fn file_is_placed_inside_the_folder() {
    assert_eq!(add_file_name_to_folder("output/measurements", "a.csv"), "output/measurements/a.csv");
}

#[test]
fn folder_with_trailing_separator_gets_no_second_one() {
    assert_eq!(add_file_name_to_folder("output/measurements/", "a.csv"), "output/measurements/a.csv");
}

#[test]
fn empty_folder_leaves_the_file_name() {
    assert_eq!(add_file_name_to_folder("", "a.csv"), "a.csv");
}

#[test]
fn absolute_file_replaces_the_folder() {
    assert_eq!(add_file_name_to_folder("output", "/tmp/a.csv"), "/tmp/a.csv");
}

#[test]
fn empty_file_name_adds_a_separator() {
    assert_eq!(add_file_name_to_folder("output", ""), "output/");
}

#[test]
fn folder_join_agrees_with_std_path_join() {
    let folders = ["", "out", "out/", "/abs", "a/b", "."];
    let files = ["", "f.csv", "/root.csv", "sub/f.csv", ".."];
    for folder in folders.iter() {
        for file in files.iter() {
            let expected = std::path::Path::new(folder).join(file).to_string_lossy().into_owned();
            assert_eq!(add_file_name_to_folder(folder, file), expected, "{:?} {:?}", folder, file);
        }
    }
}

#[test]
fn temporary_config_path_inserts_temp_before_the_extension() {
    assert_eq!(get_temporary_config_file_path("scene_config.toml"), Some("scene_config.temp.toml".to_string()));
}

#[test]
fn temporary_config_path_keeps_the_directory() {
    assert_eq!(
        get_temporary_config_file_path("configs/scene.toml"),
        Some("configs/scene.temp.toml".to_string())
    );
}

#[test]
fn temporary_config_path_of_a_name_without_extension() {
    assert_eq!(get_temporary_config_file_path("scene"), Some("scene.temp.".to_string()));
}

#[test]
fn temporary_config_path_uses_the_last_extension() {
    assert_eq!(get_temporary_config_file_path("a/archive.tar.gz"), Some("a/archive.tar.temp.gz".to_string()));
}

#[test]
fn temporary_config_path_of_a_hidden_file() {
    assert_eq!(get_temporary_config_file_path(".scene"), Some(".scene.temp.".to_string()));
}

#[test]
fn temporary_config_path_needs_a_file_name() {
    assert_eq!(get_temporary_config_file_path(""), None);
    assert_eq!(get_temporary_config_file_path("/"), None);
    assert_eq!(get_temporary_config_file_path("configs/.."), None);
}

#[test]
fn suffix_is_inserted_between_stem_and_extension() {
    assert_eq!(add_suffix_to_file_name("results/run.csv", "old"), "results/run.old.csv");
    assert_eq!(add_suffix_to_file_name("notes", "old"), "notes.old.");
}

#[test]
fn folder_exists_message_names_the_folder() {
    assert_eq!(folder_exists_message("output/m1"), "Folder 'output/m1' already exists");
}
