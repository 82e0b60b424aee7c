# userland

The verified core of the command-line tools of a small message-passing
operating system (`config`, `find`, `hexdump`, `ns`, `ps`, `revert`,
`services`, `sleep`, `sysmon`, `tag`, `top`, `untag`, `uptime` and the rest).

- `src/` is the library, verified with Verus: ASCII trimming and word
  splitting on `&str` (`text`), decimal parsing (`number`), little-endian
  integers and configuration fields (`wire`), configuration descriptors and
  the `config` command line (`config`), hex dump lines (`hexdump`), the
  monitor's reports (`monitor`, `top`, `sysmon`), the other tools' command
  lines (`commands`) and the GPU demo's mesh blob (`gpu`).
- `tests/` runs the library on concrete inputs.
- `app/` holds the tools themselves: service calls, printing and the task
  runtime, on top of the library.
