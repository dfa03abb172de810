# mpp-rs

A partial reader for Microsoft Project `.mpp` files. It reads the tasks of an MPP14 file (Project
2010 and later) and returns them as JSON. The library in `src/` is written in Verus: what each
function returns is stated in its contract and proved.

Per task it reads `unique_id`, `id`, `name`, `outline_level`, `start`, `finish`, the other dates
(`scheduled_*`, `actual_*`, `early_*`, `late_*`, `deadline`, `constraint_date`, `created`) and
`percent_complete`.

## Layout

```text
src/calendar.rs   the Gregorian calendar, timestamps, ISO 8601
src/utf16.rs      UTF-16
src/util.rs       little-endian decoders, the date epoch 1983-12-31
src/text.rs       texts of error messages
src/var.rs        VarMeta + Var2Data     (variable-length fields, such as the name)
src/fixed.rs      FixedMeta + FixedData  (one block per task)
src/container.rs  the OLE2 container, read with the cfb crate
src/dates.rs      dates of tasks, and the span of time they are believed in
src/tasks.rs      the tasks in the parsed streams
src/order.rs      the stable order by id
src/mpp14.rs      from the bytes of a file to a project
src/model.rs      the data model
app/              JSON and the Typst plugin (ordinary Rust, not verified)
```

Calls into `cfb`, `chrono` and the standard library that Verus does not know stand behind small
functions marked `external_body`, whose contracts are not proved. Each says in its comment what it
claims of the function it calls.

## Limits

Fields are read at the default offsets of the format, with fallbacks for files that keep ids,
outline level or start elsewhere. Field maps inside a file are not read.
