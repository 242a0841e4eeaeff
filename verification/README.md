# Tableizer

A table engine for delimited text, JSON and Parquet, written in Rust and proved with Verus, and a
desktop window over it.

- `src/` is the engine. Its functions state what they do, and Verus proves it: how records are found
  and indexed, how tables are searched, sorted, shown slice by slice and exported, what is cached and
  when a cached file still counts, and what the controls of the window do. Those of a
  `CancellationToken` state nothing: what a token says depends on what other threads did to it.
- `tests/` runs the engine on concrete data, with the crates that it calls.
- `app/` is the window: files, threads, object stores and painting. It decides nothing that the
  engine can decide.

What the engine takes from other crates without proof stands at the functions that call them: each
is marked `external_body` or is an `assume_specification`, and its comment names what it calls and
says what is taken to hold of it. A `spec fn` without a body names the result of such a call.

The window is built without the AWS SDK, unless `--cfg aws_sdk` is given together with the crates
`aws-config`, `aws-credential-types` and `aws-sdk-s3`. Without it, S3 stores need static keys, and
buckets have to be named. `object_store` reaches a cloud only with the feature of that cloud. On
macOS the crates `objc2`, `objc2-core-foundation` and `objc2-foundation` are needed besides.
