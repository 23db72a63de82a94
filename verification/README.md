# rusty_measurement_runner

Runs parametric measurement series with the fluid solver `rusty_fluid_solver`:
it reads a measurement configuration (TOML), combines the value lists of the
swept parameters into runs (zipped or as a cartesian product), and for each run
patches the scene configuration, starts the solver and collects its `.csv`
measurement in a destination folder.

Layout:

- `src/` — the verified library (Verus):
  - `config.rs`: the parameters of a series and its runs
    (`MeasurementConfig::get_measurement_series`), with the laws on the number
    of runs and on which runs a series holds;
  - `naming.rs`: the alphabetical order of parameter names and the measurement
    file name of a run;
  - `file_operations.rs`: joining folder and file names, the path of the
    temporary scene configuration;
  - `runner.rs`: log level names, the check that the scene knows every swept
    parameter, and the solver's command line for a run.
- `app/main.rs` — the program: command line, TOML parsing and writing, files,
  processes, logging and the progress bar.
- `tests/` — tests of the library on concrete values.

Plotting the measured pressure and kinetic-energy profiles (averaging CSV
columns with polars and drawing them with plotters, all in floating point) is
not part of this crate.
