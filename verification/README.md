# faasrail

FaaSRail benchmark functions and OpenWhisk load tools, with their logic
verified by Verus.

- `src/` is the verified library:
  - `allocation`, `ranking`: splitting a minute's invocations over trace rows
    by the largest-remainder method, with the laws that the counts add up and
    stay within one of each row's exact share.
  - `trace`: resolving benchmark names, reading trace records, keeping the
    busiest rows of each benchmark type, and the per-minute invocation plan.
  - `wsk`, `openwhisk`: the OpenWhisk properties file, credentials and URLs.
  - `fetch`: URL parsing and the redirect decisions of the image download.
  - `html`, `cipher`, `compress`, `json`, `disk`, `entropy`, `timer`,
    `numbers`, `search`, `text`, `http_handler`: the benchmarks' work and the
    helpers it rests on.
- `app/` is the program around it: argument handling, files, HTTP, async
  runtimes, serde types, and the floating-point parts.
- `tests/` runs the library on concrete values.
