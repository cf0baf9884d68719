# freeports

The core of an engine that reads finance reports in PDF and turns them into datasets, with its
decisions stated as contracts and proved with Verus.

- `src/`: the verified library.
  - `schedule`: page classes, the steps of a schedule, and how the pages of several documents
    are assigned to them.
  - `algorithm`: whether a format's configuration is consistent, how the classification
    pipelines' contributions become one class per page, how a step's pages group by class, and
    how results accumulate across steps.
  - `promise`, `promise_resolution`, `promisable`: values that refer to others by id, the
    flattening of the references between them, and the resolution of an entity's pending fields.
  - `pipeline`: pipelines, their segments and bundles, and the errors of a pipe.
  - `formats_repo`: what loading a format decides by itself: that the format is declared, how the
    pipelines of the three levels add up by name, and that the resulting pipelines are complete.
  - `classes`: block types, block values and blocks.
  - `normalization`, `match_fund`: text normalisation and fund identity.
  - `tracing_setup`: verbosity, the stderr line, and the rows of the `.log.csv` register.
  - `parallelism`, `page`, `text`: smaller pieces.
- `tests/`: tests of the library on concrete values.
- `app/`: what the library leaves to its callers: serialised forms, displayed errors, the logging
  subscriber, the thread pool, and the loops that call a format's pipes.
