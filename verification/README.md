# loader-entries

Source-tracked kernel arguments for Boot Loader Specification (BLS) Type 1 entries on composefs
hosts, verified with Verus.

A source (`admin`, `tuned`, ...) owns some of the parameters on the `options` line of an entry.
What it owns is recorded in the entry itself, under `x-options-source-<name>`. A request gives a
source new arguments, or none: its old parameters leave the line, the new ones join it, and the
record follows. The entry of the booted deployment is rewritten in place, and so is that of a
staged deployment; every other entry is left alone.

- `src/text.rs`, `src/fields.rs`: text helpers and ordered fields with distinct keys
- `src/cmdline.rs`: the model of kernel command lines, and the calls into `linux_kernel_cmdline`
- `src/source.rs`: source names, and the merge of a source's arguments into a command line
- `src/bls.rs`: loader entries, read and written
- `src/entries.rs`: a request on one entry, on a directory of entries and on a boot partition
- `src/merge_laws.rs`, `src/bls_laws.rs`, `src/entry_laws.rs`, `src/boot_laws.rs`: what holds of
  these across calls
- `app/`: the disk access around the library
