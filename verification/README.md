# cargo-hawk

Hawk finds public surface of a Cargo workspace that a binary product does not
need: public declarations that nothing reachable from the configured
production binaries uses, declarations that only their own crate (or only
tests) use, and restricted visibility that can shrink further. It can apply
the narrowing itself through `cargo fix`.

## Layout

- `src/` is the library, verified with Verus. It holds the analysis of the
  graph fragments that the compiler wrapper records (`graph` and the modules
  it rests on: `closure`, `scope`, `scope_flow`, `walk`, `semantics` and others), the
  configuration rules (`config`), lint levels (`lint`), the diagnostics'
  layout (`render`), the Cargo invocations of a run (`invocation`), fix plans
  (`fixing`, `driver`), the workspace's packages (`workspace`) and the
  protocol between frontend and wrapper (`protocol`, `model`). `policy` and
  `properties` state the laws that hold across these functions.
- `app/` is the executable around it: argument parsing, reading `hawk.toml`
  and fragments, running Cargo and the compiler, terminal styling, and the
  rustc-internal compiler wrapper, which needs a nightly toolchain with
  `rustc-dev`.
- `tests/` runs the library on concrete values.

The few calls into other crates that the library's logic makes
(`cargo-platform`'s target selectors and `cfg` parsing, the hasher of a
workspace path, `String::push`) sit behind small trusted wrappers whose
contracts say what those crates document.
