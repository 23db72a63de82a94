//! The decisions of a measurement series around each solver run: which
//! log level is asked for, whether the scene configuration knows every
//! swept parameter, and how the solver is invoked for a run.

use vstd::prelude::*;
use vstd::string::*;
use crate::config::{
    lemma_runs_assign_every_parameter, measurement_series, Operation, ParameterChoice,
    ParameterModel,
};
use crate::file_operations::{add_file_name_to_folder, path_join};
use crate::naming::{is_measurement_file_name, measurement_file_name};

verus! {

/// The severity levels of the log output.
#[derive(PartialEq, Eq, Structural, Clone, Copy, Debug)]
pub enum LogLevel {
    Trace,
    Debug,
    Info,
    Warn,
    Error,
    Off,
}

/// The level that the command line names: `TRACE`, `DEBUG`, `INFO`,
/// `WARN` or `ERROR`; any other text turns logging off.
pub open spec fn log_level_named(name: Seq<char>) -> LogLevel {
    if name == "TRACE"@ {
        LogLevel::Trace
    } else if name == "DEBUG"@ {
        LogLevel::Debug
    } else if name == "INFO"@ {
        LogLevel::Info
    } else if name == "WARN"@ {
        LogLevel::Warn
    } else if name == "ERROR"@ {
        LogLevel::Error
    } else {
        LogLevel::Off
    }
}

/// The log level that the command-line text `name` selects.
pub fn parse_log_level(name: &str) -> (res: LogLevel)
    ensures
        res == log_level_named(name@),
{
    let given = name.to_owned();
    if given == String::from_str("TRACE") {
        LogLevel::Trace
    } else if given == String::from_str("DEBUG") {
        LogLevel::Debug
    } else if given == String::from_str("INFO") {
        LogLevel::Info
    } else if given == String::from_str("WARN") {
        LogLevel::Warn
    } else if given == String::from_str("ERROR") {
        LogLevel::Error
    } else {
        LogLevel::Off
    }
}

/// Whether `names` holds the text `name`.
fn holds_name(names: &Vec<String>, name: &String) -> (res: bool)
    ensures
        res == names.deep_view().contains(name@),
{
    for i in 0..names.len()
        invariant
            forall|k: int| 0 <= k < i ==> names.deep_view()[k] != name@,
    {
        if names[i] == *name {
            assert(names.deep_view()[i as int] == name@);
            return true;
        }
    }
    false
}

/// The position of the first choice of `run` whose parameter the scene
/// configuration, with the parameter names `scene_parameters`, does not
/// have; `None` where it has all of them.
pub fn find_missing_parameter(scene_parameters: &Vec<String>, run: &Vec<ParameterChoice>) -> (res:
    Option<usize>)
    ensures
        res is None <==> forall|j: int|
            0 <= j < run.len() ==> scene_parameters.deep_view().contains(
                #[trigger] run.deep_view()[j].0,
            ),
        res matches Some(j) ==> {
            &&& j < run.len()
            &&& !scene_parameters.deep_view().contains(run.deep_view()[j as int].0)
            &&& forall|k: int|
                0 <= k < j ==> scene_parameters.deep_view().contains(
                    #[trigger] run.deep_view()[k].0,
                )
        },
{
    for j in 0..run.len()
        invariant
            forall|k: int|
                0 <= k < j ==> scene_parameters.deep_view().contains(
                    #[trigger] run.deep_view()[k].0,
                ),
    {
        if !holds_name(scene_parameters, &run[j].name) {
            assert(run.deep_view()[j as int].0 == run[j as int].name@);
            return Some(j);
        }
    }
    None
}

/// A run of a series sets exactly the parameters of the series, so the
/// scene configuration knows every parameter of a run if and only if it
/// knows every parameter of the series: `prepare_run` accepts either all
/// runs of a series or none of them.
pub proof fn lemma_scene_check_is_the_same_for_every_run(
    operation: Operation,
    params: Seq<ParameterModel>,
    scene_parameters: Seq<Seq<char>>,
    k: int,
)
    requires
        0 <= k < measurement_series(operation, params).len(),
    ensures
        (forall|j: int|
            0 <= j < measurement_series(operation, params)[k].len() ==> scene_parameters.contains(
                #[trigger] measurement_series(operation, params)[k][j].0,
            )) <==> (forall|j: int|
            0 <= j < params.len() ==> scene_parameters.contains(#[trigger] params[j].0)),
{
    lemma_runs_assign_every_parameter(operation, params, k);
    let run = measurement_series(operation, params)[k];
    if forall|j: int| 0 <= j < params.len() ==> scene_parameters.contains(#[trigger] params[j].0) {
        assert forall|j: int| 0 <= j < run.len() implies scene_parameters.contains(
            #[trigger] run[j].0,
        ) by {
            assert(run[j].0 == params[j].0);
        }
    }
    if forall|j: int| 0 <= j < run.len() ==> scene_parameters.contains(#[trigger] run[j].0) {
        assert forall|j: int| 0 <= j < params.len() implies scene_parameters.contains(
            #[trigger] params[j].0,
        ) by {
            assert(run[j].0 == params[j].0);
        }
    }
}

/// The fixed parts of every solver invocation of a series.
pub struct RunSettings {
    /// The scene configuration that the solver reads.
    pub config_path: String,
    /// The saved state that the solver resumes from.
    pub state_file: String,
    /// The folder that receives the measurement files.
    pub destination_folder: String,
    /// The simulation time at which the measurement begins, as text.
    pub start_time: String,
    /// The simulation time at which the measurement ends, as text.
    pub finish_time: String,
    /// Whether the solver exits once its measurement is finished.
    pub exit_when_finished: bool,
}

/// The command-line arguments of the solver for one run.
pub open spec fn solver_argument_list(
    config_path: Seq<char>,
    state_file: Seq<char>,
    measurement_path: Seq<char>,
    start_time: Seq<char>,
    finish_time: Seq<char>,
    exit_when_finished: bool,
) -> Seq<Seq<char>> {
    seq![
        config_path,
        "--state"@,
        state_file,
        "-m"@,
        measurement_path,
        "-s"@,
        start_time,
        "-f"@,
        finish_time,
        "-r"@,
    ] + (if exit_when_finished {
        seq!["-e"@]
    } else {
        Seq::empty()
    }) + seq!["-l"@, "INFO"@]
}

/// The solver is always started resumed: whatever the state file, `-r`
/// follows the finish time, and the list holds twelve arguments, thirteen
/// with `-e`.
pub proof fn lemma_solver_arguments_resume(
    config_path: Seq<char>,
    state_file: Seq<char>,
    measurement_path: Seq<char>,
    start_time: Seq<char>,
    finish_time: Seq<char>,
    exit_when_finished: bool,
)
    ensures
        solver_argument_list(
            config_path,
            state_file,
            measurement_path,
            start_time,
            finish_time,
            exit_when_finished,
        )[9] == "-r"@,
        solver_argument_list(
            config_path,
            state_file,
            measurement_path,
            start_time,
            finish_time,
            exit_when_finished,
        ).len() == if exit_when_finished {
            13int
        } else {
            12int
        },
        solver_argument_list(
            config_path,
            state_file,
            measurement_path,
            start_time,
            finish_time,
            exit_when_finished,
        )[2] == state_file,
{
}

/// The command-line arguments of the solver for the run that writes its
/// measurement to `measurement_path`.
pub fn solver_arguments(settings: &RunSettings, measurement_path: &str) -> (res: Vec<String>)
    ensures
        res.deep_view() == solver_argument_list(
            settings.config_path@,
            settings.state_file@,
            measurement_path@,
            settings.start_time@,
            settings.finish_time@,
            settings.exit_when_finished,
        ),
        // argument by argument: the configuration, the state to resume from, the
        // measurement file, the time range, always `-r`, `-e` where asked, and the
        // solver's log level
        res.len() == if settings.exit_when_finished {
            13int
        } else {
            12int
        },
        res.deep_view()[0] == settings.config_path@,
        res.deep_view()[1] == "--state"@,
        res.deep_view()[2] == settings.state_file@,
        res.deep_view()[3] == "-m"@,
        res.deep_view()[4] == measurement_path@,
        res.deep_view()[5] == "-s"@,
        res.deep_view()[6] == settings.start_time@,
        res.deep_view()[7] == "-f"@,
        res.deep_view()[8] == settings.finish_time@,
        res.deep_view()[9] == "-r"@,
        settings.exit_when_finished ==> res.deep_view()[10] == "-e"@,
        res.deep_view()[res.len() - 2] == "-l"@,
        res.deep_view()[res.len() - 1] == "INFO"@,
{
    let mut args: Vec<String> = Vec::new();
    args.push(settings.config_path.clone());
    args.push(String::from_str("--state"));
    args.push(settings.state_file.clone());
    args.push(String::from_str("-m"));
    args.push(String::from_str(measurement_path));
    args.push(String::from_str("-s"));
    args.push(settings.start_time.clone());
    args.push(String::from_str("-f"));
    args.push(settings.finish_time.clone());
    args.push(String::from_str("-r"));
    if settings.exit_when_finished {
        args.push(String::from_str("-e"));
    }
    args.push(String::from_str("-l"));
    args.push(String::from_str("INFO"));
    assert(args.deep_view() =~= solver_argument_list(
        settings.config_path@,
        settings.state_file@,
        measurement_path@,
        settings.start_time@,
        settings.finish_time@,
        settings.exit_when_finished,
    ));
    args
}

/// What one run needs: the name and path of its measurement file and the
/// arguments of the solver.
pub struct SolverRun {
    pub measurement_file_name: String,
    pub measurement_path: String,
    pub arguments: Vec<String>,
}

/// Prepares the solver invocation of the run `run` against a scene
/// configuration with the parameter names `scene_parameters`.  A run that
/// sets a parameter the scene does not have is refused with that
/// parameter's name.
pub fn prepare_run(scene_parameters: &Vec<String>, run: &Vec<ParameterChoice>, settings: &RunSettings)
    -> (res: Result<SolverRun, String>)
    ensures
        res is Ok <==> forall|j: int|
            0 <= j < run.len() ==> scene_parameters.deep_view().contains(
                #[trigger] run.deep_view()[j].0,
            ),
        res matches Err(missing) ==> exists|j: int|
            {
                &&& 0 <= j < run.len()
                &&& missing@ == #[trigger] run.deep_view()[j].0
                &&& !scene_parameters.deep_view().contains(missing@)
                &&& forall|k: int|
                    0 <= k < j ==> scene_parameters.deep_view().contains(
                        #[trigger] run.deep_view()[k].0,
                    )
            },
        res matches Ok(prepared) ==> {
            &&& is_measurement_file_name(run.deep_view(), prepared.measurement_file_name@)
            &&& prepared.measurement_path@ == path_join(
                settings.destination_folder@,
                prepared.measurement_file_name@,
            )
            &&& prepared.arguments.deep_view() == solver_argument_list(
                settings.config_path@,
                settings.state_file@,
                prepared.measurement_path@,
                settings.start_time@,
                settings.finish_time@,
                settings.exit_when_finished,
            )
        },
{
    match find_missing_parameter(scene_parameters, run) {
        Some(j) => {
            assert(run.deep_view()[j as int].0 == run[j as int].name@);
            Err(run[j].name.clone())
        },
        None => {
            let file_name = measurement_file_name(run);
            let path = add_file_name_to_folder(settings.destination_folder.as_str(), file_name.as_str());
            let arguments = solver_arguments(settings, path.as_str());
            Ok(SolverRun { measurement_file_name: file_name, measurement_path: path, arguments })
        },
    }
}

} // verus!
