# magebuild

A build orchestrator for Magento 2: `composer install`, DI compile, static-content
deploy, autoload dump and packaging as one graph of steps, run in parallel.

```
composer-install -> { di-compile -> autoload-dump } || { static-deploy } -> package
```

- `src/` is the library, written in Verus: its functions have contracts, and the
  contracts are proved. (The methods of the trait `Observer` are for its users to
  write, and promise nothing.) It holds the graph and its order, the settings and their
  precedence, the scheduler, the decisions behind each step, the exclude patterns
  and the walk of the archive, and what is shown to people and programs.
- `tests/` runs the library on concrete values.
- `app/` is the program: the command line, files, threads, and the calls into the
  engines. It decides nothing that the library can decide.

What is proved of the library as a whole stands in public proof functions whose
names start with `law_`: that runs follow the edges, start each node once, respect
the job limit and end; that a failure cancels what is downstream; that presets,
settings file and command line win over one another in that order; that a valid
graph stays valid; that printed JSON reads back.

Two functions of the standard library are trusted, by the contracts that stand
beside them: `String::push` in `src/text.rs` and `str::to_lowercase` in
`src/preset.rs`.
