# qad

A command-line runner of continuous-integration jobs. A YAML file describes
jobs (shell instructions, maybe in a Docker image), groups that run one
after the other, and constraints between jobs; `qad` runs the jobs in an
order that respects them, in parallel where it can, shows their progress,
and reports how each one went.

## Layout

- `src/` is the verified library. Its main parts:
  - `ci::job::dag`: the jobs of a run and their constraints, which job may
    run next, and what the end of a job does to the others;
  - `ci::job::schedule`: which jobs a run takes and what it records of each
    step;
  - `ci::job::constraint_matrix`, `graph`, `names`: the constraints as graphs;
  - `ci::job::inspection`: the progress of each job;
  - `ci::job::env_parser`, `ci::job::shell_interpreter`: the environment of a
    run;
  - `ci::display`: what is shown of a run, as text;
  - `config`: where the configuration is found, its versions, and how each
    version is loaded.
- `app/` is the program around it: the command line, reading files,
  running shell commands and threads, and drawing on the terminal.
- `tests/` runs the library on concrete values.
