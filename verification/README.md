# f_graph

A scheduler that runs tasks in the order of their dependencies, and a walker over npm packages that
is built on it. The library is written in Verus: every function states what it does, and the
statements are proved.

## The scheduler

A task has a priority, the tasks that it depends on, and something to execute. It may run once all
its dependencies are completed. Of the tasks that may run, the one with the highest priority starts
first, and of two with the same priority the one with the smaller number. No more tasks run at a
time than the limit allows.

- `schedule` holds the states of a run, the steps between them, and the laws: dependencies complete
  before a task starts, the limit is kept, a run does not deadlock, and it ends with every task
  completed.
- `run` states what holds of a whole run, in whatever order its tasks are completed.
- `scheduler`, `task_graph`, `task_queue` and `deadlock` carry out the steps.
- `f_graph` and `task_runner` number tasks in the order in which they are added; in `f_graph` a
  finished task can add children. `hash_graph` and `hash_runner` identify tasks by a hash.

The library does not execute tasks. It says which ones to start and is told which ones have
finished; `app/executor.rs` is the loop around it.

## The walker

The walker reads a package, looks for its dependencies in `node_modules` directories, and goes on
with what it finds.

- `package` and `dependency` say what a package is and which of its dependencies are followed.
- `resolver` says where a dependency is looked for.
- `walker` decides what each step of the walk leads to.
- `walk` proves what a whole walk finds: the packages that are reached from the root by following
  dependencies.

The file system is read in `app/`, which hands the library plain values. Paths are known to the
library by numbers, and by their text where the text matters.

## What is not proved

One function is trusted: `walker::cpu_count`, which asks for the number of processors. Its comment
says what is claimed of it.
